//! Character-level primitives shared by every module that reads ids or bodies.

use vstd::prelude::*;
use vstd::string::StringSliceAdditionalSpecFns;

verus! {

broadcast use vstd::string::group_string_axioms;

/// Whether `c` has the Unicode `White_Space` property, which is what
/// `char::is_whitespace` and `str::trim` go by.
pub open spec fn is_white_space(c: char) -> bool {
    let u = c as u32;
    ||| 0x09 <= u <= 0x0D
    ||| u == 0x20
    ||| u == 0x85
    ||| u == 0xA0
    ||| u == 0x1680
    ||| 0x2000 <= u <= 0x200A
    ||| u == 0x2028
    ||| u == 0x2029
    ||| u == 0x202F
    ||| u == 0x205F
    ||| u == 0x3000
}

/// Whether a text trims to nothing: every character is white space.
pub open spec fn is_blank(s: Seq<char>) -> bool {
    forall|i: int| 0 <= i < s.len() ==> is_white_space(#[trigger] s[i])
}

/// Decide [`is_white_space`] for one character.
pub fn white_space(c: char) -> (b: bool)
    ensures
        b == is_white_space(c),
{
    let u = c as u32;
    (0x09 <= u && u <= 0x0D) || u == 0x20 || u == 0x85 || u == 0xA0 || u == 0x1680 || (0x2000
        <= u && u <= 0x200A) || u == 0x2028 || u == 0x2029 || u == 0x202F || u == 0x205F || u
        == 0x3000
}

/// The characters of `s`, in order.
pub fn chars_of(s: &str) -> (v: Vec<char>)
    ensures
        v@ == s@,
{
    let mut v: Vec<char> = Vec::new();
    for c in it: s.chars()
        invariant
            it.seq() == s@,
            v@ == it.seq().take(it.index() as int),
    {
        v.push(c);
    }
    v
}

/// Whether `s` trims to the empty string.
pub fn str_is_blank(s: &str) -> (b: bool)
    ensures
        b == is_blank(s@),
{
    let v = chars_of(s);
    let mut i: usize = 0;
    while i < v.len()
        invariant
            v@ == s@,
            i <= v.len(),
            forall|j: int| 0 <= j < i ==> is_white_space(#[trigger] v@[j]),
        decreases v.len() - i,
    {
        if !white_space(v[i]) {
            return false;
        }
        i = i + 1;
    }
    true
}

/// Exact, case-sensitive equality of two texts.
pub fn str_eq(a: &str, b: &str) -> (r: bool)
    ensures
        r == (a@ == b@),
{
    let x = a.as_bytes();
    let y = b.as_bytes();
    proof {
        vstd::utf8::encode_utf8_decode_utf8(a@);
        vstd::utf8::encode_utf8_decode_utf8(b@);
    }
    if x.len() != y.len() {
        return false;
    }
    let mut i: usize = 0;
    while i < x.len()
        invariant
            x@ == a.spec_bytes(),
            y@ == b.spec_bytes(),
            x@.len() == y@.len(),
            i <= x@.len(),
            forall|j: int| 0 <= j < i ==> x@[j] == y@[j],
        decreases x.len() - i,
    {
        if x[i] != y[i] {
            return false;
        }
        i = i + 1;
    }
    assert(x@ =~= y@);
    true
}


/// Bytes one character takes in UTF-8, as `char::len_utf8` documents it.
pub open spec fn utf8_width(c: char) -> nat {
    let u = c as u32;
    if u < 0x80 {
        1
    } else if u < 0x800 {
        2
    } else if u < 0x10000 {
        3
    } else {
        4
    }
}

/// Bytes a run of characters takes in UTF-8.
pub open spec fn utf8_len(s: Seq<char>) -> nat
    decreases s.len(),
{
    if s.len() == 0 {
        0
    } else {
        utf8_len(s.drop_last()) + utf8_width(s.last())
    }
}

/// The byte offset at which character `i` of `s` starts.
pub open spec fn byte_offset(s: Seq<char>, i: int) -> int {
    utf8_len(s.take(i)) as int
}

pub proof fn lemma_utf8_len_single(c: char)
    ensures
        utf8_len(seq![c]) == utf8_width(c),
{
    assert(seq![c].drop_last() =~= Seq::<char>::empty());
    assert(utf8_len(Seq::<char>::empty()) == 0);
}

pub proof fn lemma_utf8_len_concat(a: Seq<char>, b: Seq<char>)
    ensures
        utf8_len(a + b) == utf8_len(a) + utf8_len(b),
    decreases b.len(),
{
    if b.len() == 0 {
        assert(a + b =~= a);
    } else {
        lemma_utf8_len_concat(a, b.drop_last());
        assert((a + b).drop_last() =~= a + b.drop_last());
    }
}

/// `utf8_len` is the length of the encoding vstd gives a text.
pub proof fn lemma_utf8_len_is_encoded_len(s: Seq<char>)
    ensures
        utf8_len(s) == vstd::utf8::encode_utf8(s).len(),
    decreases s.len(),
{
    if s.len() > 0 {
        let head = seq![s[0]];
        lemma_utf8_len_is_encoded_len(s.drop_first());
        lemma_utf8_len_concat(head, s.drop_first());
        assert(head + s.drop_first() =~= s);
        lemma_utf8_len_single(s[0]);
        vstd::utf8::char_is_scalar(s[0]);
        assert(vstd::utf8::encode_utf8(s) == vstd::utf8::encode_scalar(s[0] as u32)
            + vstd::utf8::encode_utf8(s.drop_first()));
        assert(vstd::utf8::encode_scalar(s[0] as u32).len() == utf8_width(s[0]));
    }
}

/// Encoding a concatenation concatenates the encodings.
pub proof fn lemma_encode_utf8_concat(a: Seq<char>, b: Seq<char>)
    ensures
        vstd::utf8::encode_utf8(a + b) == vstd::utf8::encode_utf8(a) + vstd::utf8::encode_utf8(b),
    decreases a.len(),
{
    if a.len() == 0 {
        assert(a + b =~= b);
        assert(vstd::utf8::encode_utf8(a) =~= Seq::<u8>::empty());
        assert(Seq::<u8>::empty() + vstd::utf8::encode_utf8(b) =~= vstd::utf8::encode_utf8(b));
    } else {
        lemma_encode_utf8_concat(a.drop_first(), b);
        assert((a + b).drop_first() =~= a.drop_first() + b);
        assert((a + b)[0] == a[0]);
        let h = vstd::utf8::encode_scalar(a[0] as u32);
        assert(h + (vstd::utf8::encode_utf8(a.drop_first()) + vstd::utf8::encode_utf8(b)) =~= (h
            + vstd::utf8::encode_utf8(a.drop_first())) + vstd::utf8::encode_utf8(b));
    }
}

/// The byte just before character `p` is `b'\n'` when character `p - 1` is
/// a `'\n'`.
pub proof fn lemma_newline_byte(s: Seq<char>, p: int)
    requires
        0 < p <= s.len(),
        s[p - 1] == '\n',
    ensures
        0 < byte_offset(s, p) <= vstd::utf8::encode_utf8(s).len(),
        vstd::utf8::encode_utf8(s)[byte_offset(s, p) - 1] == 10,
{
    let before = s.take(p - 1);
    let nl = seq!['\n'];
    assert(s.take(p) =~= before + nl);
    assert(s =~= s.take(p) + s.skip(p));
    lemma_encode_utf8_concat(s.take(p), s.skip(p));
    lemma_encode_utf8_concat(before, nl);
    lemma_utf8_len_is_encoded_len(s.take(p));
    assert(nl.drop_first() =~= Seq::<char>::empty());
    assert(((10u32 & 0x7Fu32) as u8) == 10u8) by (bit_vector);
    assert(nl[0] as u32 == 10u32);
    assert(vstd::utf8::encode_scalar(10u32) =~= seq![10u8]);
    assert(vstd::utf8::encode_utf8(nl.drop_first()) =~= Seq::<u8>::empty());
    assert(vstd::utf8::encode_utf8(nl) == vstd::utf8::encode_scalar(nl[0] as u32)
        + vstd::utf8::encode_utf8(nl.drop_first()));
    assert(vstd::utf8::encode_utf8(nl) =~= seq![10u8]);
    let head = vstd::utf8::encode_utf8(s.take(p));
    assert(head.len() == byte_offset(s, p));
    assert(head[head.len() - 1] == 10);
    assert(vstd::utf8::encode_utf8(s)[byte_offset(s, p) - 1] == head[head.len() - 1]);
}

/// Offsets grow with the character index, strictly.
pub proof fn lemma_byte_offset_split(s: Seq<char>, i: int, j: int)
    requires
        0 <= i <= j <= s.len(),
    ensures
        byte_offset(s, j) == byte_offset(s, i) + utf8_len(s.subrange(i, j)),
        i < j ==> byte_offset(s, i) < byte_offset(s, j),
        byte_offset(s, j) <= utf8_len(s),
{
    lemma_utf8_len_concat(s.take(i), s.subrange(i, j));
    assert(s.take(i) + s.subrange(i, j) =~= s.take(j));
    lemma_utf8_len_concat(s.take(j), s.subrange(j, s.len() as int));
    assert(s.take(j) + s.subrange(j, s.len() as int) =~= s);
    if i < j {
        let m = s.subrange(i, j);
        assert(utf8_len(m) >= utf8_width(m.last()));
    }
}

/// [`utf8_width`] of one character.
pub fn char_width(c: char) -> (w: usize)
    ensures
        w == utf8_width(c),
{
    let u = c as u32;
    if u < 0x80 {
        1
    } else if u < 0x800 {
        2
    } else if u < 0x10000 {
        3
    } else {
        4
    }
}

/// The byte offset of every character boundary of `s`, the end included.
pub fn char_offsets(s: &str, v: &Vec<char>) -> (pos: Vec<usize>)
    requires
        v@ == s@,
    ensures
        pos@.len() == v@.len() + 1,
        forall|i: int| 0 <= i <= v@.len() ==> pos@[i] == byte_offset(v@, i),
        pos@[v@.len() as int] == s.spec_bytes().len(),
{
    let total = s.as_bytes().len();
    proof {
        lemma_utf8_len_is_encoded_len(s@);
        assert(v@.take(v@.len() as int) =~= v@);
    }
    let mut pos: Vec<usize> = Vec::new();
    pos.push(0);
    assert(v@.take(0) =~= Seq::<char>::empty());
    let mut i: usize = 0;
    while i < v.len()
        invariant
            v@ == s@,
            total == utf8_len(v@),
            i <= v@.len(),
            pos@.len() == i + 1,
            forall|k: int| 0 <= k <= i ==> pos@[k] == byte_offset(v@, k),
        decreases v.len() - i,
    {
        proof {
            lemma_byte_offset_split(v@, i as int, i + 1);
            assert(v@.subrange(i as int, i + 1) =~= seq![v@[i as int]]);
            lemma_utf8_len_single(v@[i as int]);
        }
        let next = pos[i] + char_width(v[i]);
        let ghost old_pos = pos@;
        pos.push(next);
        assert(pos@[i + 1] == byte_offset(v@, i + 1));
        assert(forall|k: int| 0 <= k <= i ==> pos@[k] == old_pos[k]);
        i = i + 1;
    }
    pos
}

} // verus!
