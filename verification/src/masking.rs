//! Which byte ranges of a message body are code, and so carry no grammar.
//!
//! Every authored grammar reads the same message body, so they share this one
//! scanner and cannot disagree about which span of a body is code.
//!
//! [`fenced_ranges`] masks fenced code blocks only. [`code_ranges`] masks those
//! and inline code spans: a line-leading grammar needs fences alone, a mid-line
//! grammar (a mention) needs both.
//!
//! Fence rules, close to CommonMark:
//!
//! - an opening fence is indented at most three spaces, and is a run of at
//!   least three backticks or at least three tildes;
//! - a backtick opener's info string may not contain a backtick;
//! - a closing fence uses the same character as its opener, runs at least as
//!   long, and carries nothing but white space after the run;
//! - an unclosed fence masks to the end of the body.
//!
//! Inline spans, outside fenced blocks: a run of `n` backticks opens a span
//! that the next run of exactly `n` backticks closes, both ends included. A
//! run with no such partner is punctuation and masks nothing. A span never
//! reaches into or across a fenced block.
//!
//! The scanner works on characters; a range is reported in the byte offsets of
//! the body's UTF-8 encoding, half-open, in ascending order.

use vstd::prelude::*;
use vstd::string::StringSliceAdditionalSpecFns;

use vstd::utf8::encode_utf8;

use crate::text::{
    byte_offset, char_offsets, chars_of, is_blank, lemma_byte_offset_split, lemma_newline_byte,
    lemma_utf8_len_is_encoded_len, white_space,
};

verus! {

// ---------------------------------------------------------------------------
// The model, over the body's characters and character indices.
// ---------------------------------------------------------------------------

/// Index just past the line that starts at `i`: past its `'\n'`, or the end.
pub open spec fn line_end(s: Seq<char>, i: int) -> int
    decreases s.len() - i,
{
    if i >= s.len() {
        s.len() as int
    } else if i >= 0 && s[i] == '\n' {
        i + 1
    } else {
        line_end(s, i + 1)
    }
}

/// Length of the run of `c` that starts at `i` and stops before `end`.
pub open spec fn run_of(s: Seq<char>, i: int, end: int, c: char) -> int
    decreases end - i,
{
    if 0 <= i < end && i < s.len() && s[i] == c {
        1 + run_of(s, i + 1, end, c)
    } else {
        0
    }
}

/// Where the text of the line `[a, e)` starts, after its leading spaces.
pub open spec fn fence_start(s: Seq<char>, a: int, e: int) -> int {
    a + run_of(s, a, e, ' ')
}

/// The first character of the line after its leading spaces.
pub open spec fn fence_char(s: Seq<char>, a: int, e: int) -> char {
    s[fence_start(s, a, e)]
}

/// Length of the marker run that opens the line's text.
pub open spec fn fence_len(s: Seq<char>, a: int, e: int) -> int {
    run_of(s, fence_start(s, a, e), e, fence_char(s, a, e))
}

/// What follows the marker run on the line, up to and including its `'\n'`.
pub open spec fn fence_info(s: Seq<char>, a: int, e: int) -> Seq<char> {
    s.subrange(fence_start(s, a, e) + fence_len(s, a, e), e)
}

/// The line is indented at most three spaces and its text starts with at
/// least three backticks or three tildes.
pub open spec fn is_fence_line(s: Seq<char>, a: int, e: int) -> bool {
    &&& run_of(s, a, e, ' ') <= 3
    &&& fence_start(s, a, e) < e
    &&& (fence_char(s, a, e) == '`' || fence_char(s, a, e) == '~')
    &&& fence_len(s, a, e) >= 3
}

/// The line opens a fenced block.
pub open spec fn opens_fence(s: Seq<char>, a: int, e: int) -> bool {
    &&& is_fence_line(s, a, e)
    &&& (fence_char(s, a, e) == '~' || !fence_info(s, a, e).contains('`'))
}

/// The line closes a block opened by a run of `run` copies of `marker`.
pub open spec fn closes_fence(s: Seq<char>, a: int, e: int, marker: char, run: int) -> bool {
    &&& is_fence_line(s, a, e)
    &&& fence_char(s, a, e) == marker
    &&& fence_len(s, a, e) >= run
    &&& is_blank(fence_info(s, a, e))
}

/// Fenced blocks of the lines from `i` on, in character indices, given the
/// block still open when line `i` starts: its first index, marker and run.
pub open spec fn fences_from(s: Seq<char>, i: int, open: Option<(int, char, int)>) -> Seq<
    (int, int),
>
    decreases s.len() - i,
{
    if i < 0 || i >= s.len() {
        match open {
            Some((start, _, _)) => seq![(start, s.len() as int)],
            None => seq![],
        }
    } else {
        let e = line_end(s, i);
        proof {
            lemma_line_end(s, i);
        }
        match open {
            None => if opens_fence(s, i, e) {
                fences_from(s, e, Some((i, fence_char(s, i, e), fence_len(s, i, e))))
            } else {
                fences_from(s, e, None)
            },
            Some((start, marker, run)) => if closes_fence(s, i, e, marker, run) {
                seq![(start, e)] + fences_from(s, e, None)
            } else {
                fences_from(s, e, open)
            },
        }
    }
}

/// Fenced blocks of a body, in character indices.
pub open spec fn fence_spans(s: Seq<char>) -> Seq<(int, int)> {
    fences_from(s, 0, None)
}

/// Where the first run of exactly `n` backticks at or after `j`, and before
/// `lim`, starts. Runs are read whole, so a longer run is skipped entirely.
pub open spec fn closer_at(s: Seq<char>, j: int, lim: int, n: int) -> Option<int>
    decreases lim - j,
{
    if j < 0 || j >= lim || j >= s.len() {
        None
    } else if s[j] != '`' {
        closer_at(s, j + 1, lim, n)
    } else {
        let m = run_of(s, j, lim, '`');
        proof {
            lemma_run_of_bounds(s, j, lim, '`');
        }
        if m == n {
            Some(j)
        } else {
            closer_at(s, j + m, lim, n)
        }
    }
}

/// Inline code spans between `i` and `lim`, in character indices.
pub open spec fn inline_from(s: Seq<char>, i: int, lim: int) -> Seq<(int, int)>
    decreases lim - i,
{
    if i < 0 || i >= lim || i >= s.len() {
        seq![]
    } else if s[i] != '`' {
        inline_from(s, i + 1, lim)
    } else {
        let n = run_of(s, i, lim, '`');
        proof {
            lemma_run_of_bounds(s, i, lim, '`');
            lemma_closer_at_bounds(s, i + n, lim, n);
        }
        match closer_at(s, i + n, lim, n) {
            Some(j) => seq![(i, j + n)] + inline_from(s, j + n, lim),
            None => inline_from(s, i + n, lim),
        }
    }
}

/// Code ranges from fence `k` on: the inline spans of the gap that starts at
/// `from`, then fence `k`, then the rest.
pub open spec fn code_from(s: Seq<char>, fences: Seq<(int, int)>, k: int, from: int) -> Seq<
    (int, int),
>
    decreases fences.len() - k,
{
    if k < 0 || k >= fences.len() {
        inline_from(s, from, s.len() as int)
    } else {
        inline_from(s, from, fences[k].0) + seq![fences[k]] + code_from(
            s,
            fences,
            k + 1,
            fences[k].1,
        )
    }
}

/// Fenced blocks and inline spans of a body, in character indices.
pub open spec fn code_spans(s: Seq<char>) -> Seq<(int, int)> {
    code_from(s, fence_spans(s), 0, 0)
}

/// Character ranges restated as byte ranges of the body.
pub open spec fn in_bytes(s: Seq<char>, spans: Seq<(int, int)>) -> Seq<(int, int)> {
    spans.map_values(|p: (int, int)| (byte_offset(s, p.0), byte_offset(s, p.1)))
}

/// A returned range list, read as integers.
pub open spec fn as_ints(r: Seq<(usize, usize)>) -> Seq<(int, int)> {
    r.map_values(|p: (usize, usize)| (p.0 as int, p.1 as int))
}

/// Non-empty, in bounds, ascending and pairwise disjoint.
pub open spec fn well_ordered(r: Seq<(int, int)>, lo: int, hi: int) -> bool {
    &&& forall|k: int| 0 <= k < r.len() ==> lo <= #[trigger] r[k].0 < r[k].1 <= hi
    &&& forall|k: int, l: int| 0 <= k < l < r.len() ==> #[trigger] r[k].1 <= #[trigger] r[l].0
}

/// Whether offset `o` falls in one of the half-open `ranges`.
pub open spec fn masked(o: int, ranges: Seq<(int, int)>) -> bool {
    exists|k: int| 0 <= k < ranges.len() && ranges[k].0 <= o < #[trigger] ranges[k].1
}

// ---------------------------------------------------------------------------
// Facts about the model.
// ---------------------------------------------------------------------------

pub proof fn lemma_line_end(s: Seq<char>, i: int)
    requires
        0 <= i < s.len(),
    ensures
        i < line_end(s, i) <= s.len(),
        forall|k: int| i <= k < line_end(s, i) - 1 ==> s[k] != '\n',
    decreases s.len() - i,
{
    if s[i] == '\n' {
    } else if i + 1 < s.len() {
        lemma_line_end(s, i + 1);
    } else {
        assert(line_end(s, i + 1) == s.len());
    }
}

pub proof fn lemma_run_of_bounds(s: Seq<char>, i: int, end: int, c: char)
    requires
        0 <= i,
    ensures
        0 <= run_of(s, i, end, c),
        i < end ==> i + run_of(s, i, end, c) <= end,
        i < s.len() ==> i + run_of(s, i, end, c) <= s.len(),
        i < end && i < s.len() && s[i] == c ==> run_of(s, i, end, c) >= 1,
        forall|k: int| i <= k < i + run_of(s, i, end, c) ==> s[k] == c,
        i + run_of(s, i, end, c) < end && i + run_of(s, i, end, c) < s.len() ==> s[i + run_of(
            s,
            i,
            end,
            c,
        )] != c,
    decreases end - i,
{
    if 0 <= i < end && i < s.len() && s[i] == c {
        lemma_run_of_bounds(s, i + 1, end, c);
    }
}

pub proof fn lemma_closer_at_bounds(s: Seq<char>, j: int, lim: int, n: int)
    requires
        0 <= j,
    ensures
        closer_at(s, j, lim, n) matches Some(k) ==> j <= k && k + n <= lim && n >= 1,
    decreases lim - j,
{
    if j < lim && j < s.len() {
        if s[j] != '`' {
            lemma_closer_at_bounds(s, j + 1, lim, n);
        } else {
            lemma_run_of_bounds(s, j, lim, '`');
            let m = run_of(s, j, lim, '`');
            if m != n {
                lemma_closer_at_bounds(s, j + m, lim, n);
            }
        }
    }
}

pub proof fn lemma_fences_ordered(s: Seq<char>, i: int, open: Option<(int, char, int)>)
    requires
        0 <= i <= s.len(),
        open matches Some((start, _, _)) ==> 0 <= start < i,
    ensures
        well_ordered(
            fences_from(s, i, open),
            match open {
                Some((start, _, _)) => start,
                None => i,
            },
            s.len() as int,
        ),
    decreases s.len() - i,
{
    let r = fences_from(s, i, open);
    if i < s.len() {
        let e = line_end(s, i);
        lemma_line_end(s, i);
        match open {
            None => if opens_fence(s, i, e) {
                lemma_fences_ordered(s, e, Some((i, fence_char(s, i, e), fence_len(s, i, e))));
            } else {
                lemma_fences_ordered(s, e, None);
            },
            Some((start, marker, run)) => if closes_fence(s, i, e, marker, run) {
                let rest = fences_from(s, e, None);
                lemma_fences_ordered(s, e, None);
                assert(r == seq![(start, e)] + rest);
                assert forall|k: int, l: int| 0 <= k < l < r.len() implies #[trigger] r[k].1
                    <= #[trigger] r[l].0 by {
                    if k > 0 {
                        assert(r[k] == rest[k - 1]);
                    }
                    assert(r[l] == rest[l - 1]);
                }
                assert forall|k: int| 0 <= k < r.len() implies start <= #[trigger] r[k].0
                    < r[k].1 <= s.len() by {
                    if k > 0 {
                        assert(r[k] == rest[k - 1]);
                    }
                }
            } else {
                lemma_fences_ordered(s, e, open);
            },
        }
    }
}

pub proof fn lemma_inline_ordered(s: Seq<char>, i: int, lim: int)
    requires
        0 <= i,
        lim <= s.len(),
    ensures
        well_ordered(inline_from(s, i, lim), i, if lim < i { i } else { lim }),
    decreases lim - i,
{
    let r = inline_from(s, i, lim);
    if i < lim && i < s.len() {
        if s[i] != '`' {
            lemma_inline_ordered(s, i + 1, lim);
        } else {
            let n = run_of(s, i, lim, '`');
            lemma_run_of_bounds(s, i, lim, '`');
            lemma_closer_at_bounds(s, i + n, lim, n);
            match closer_at(s, i + n, lim, n) {
                Some(j) => {
                    let rest = inline_from(s, j + n, lim);
                    lemma_inline_ordered(s, j + n, lim);
                    assert(r == seq![(i, j + n)] + rest);
                    assert forall|k: int, l: int| 0 <= k < l < r.len() implies #[trigger] r[k].1
                        <= #[trigger] r[l].0 by {
                        if k > 0 {
                            assert(r[k] == rest[k - 1]);
                        }
                        assert(r[l] == rest[l - 1]);
                    }
                    assert forall|k: int| 0 <= k < r.len() implies i <= #[trigger] r[k].0
                        < r[k].1 <= lim by {
                        if k > 0 {
                            assert(r[k] == rest[k - 1]);
                        }
                    }
                },
                None => {
                    lemma_inline_ordered(s, i + n, lim);
                },
            }
        }
    }
}

pub proof fn lemma_code_ordered(s: Seq<char>, fences: Seq<(int, int)>, k: int, from: int)
    requires
        0 <= k <= fences.len(),
        0 <= from,
        well_ordered(fences, 0, s.len() as int),
        k < fences.len() ==> from <= fences[k].0,
        k == fences.len() ==> from <= s.len(),
    ensures
        well_ordered(code_from(s, fences, k, from), from, s.len() as int),
        forall|l: int| k <= l < fences.len() ==> code_from(s, fences, k, from).contains(
            #[trigger] fences[l],
        ),
    decreases fences.len() - k,
{
    let r = code_from(s, fences, k, from);
    if k == fences.len() {
        lemma_inline_ordered(s, from, s.len() as int);
    } else {
        let f = fences[k];
        let gap = inline_from(s, from, f.0);
        let rest = code_from(s, fences, k + 1, f.1);
        lemma_inline_ordered(s, from, f.0);
        if k + 1 < fences.len() {
            assert(f.1 <= fences[k + 1].0);
        }
        lemma_code_ordered(s, fences, k + 1, f.1);
        assert(r == gap + seq![f] + rest);
        let g = gap.len() as int;
        assert forall|a: int| 0 <= a < r.len() implies from <= #[trigger] r[a].0 < r[a].1
            <= s.len() by {
            if a < g {
                assert(r[a] == gap[a]);
            } else if a > g {
                assert(r[a] == rest[a - g - 1]);
            }
        }
        assert forall|a: int, b: int| 0 <= a < b < r.len() implies #[trigger] r[a].1
            <= #[trigger] r[b].0 by {
            assert(r[g] == f);
            if a < g {
                assert(r[a] == gap[a]);
                assert(gap[a].0 < gap[a].1 <= f.0);
            } else if a > g {
                assert(r[a] == rest[a - g - 1]);
            }
            if b < g {
                assert(r[b] == gap[b]);
            } else if b > g {
                assert(r[b] == rest[b - g - 1]);
                assert(f.1 <= rest[b - g - 1].0 < rest[b - g - 1].1);
            }
        }
        assert forall|l: int| k <= l < fences.len() implies r.contains(#[trigger] fences[l]) by {
            if l == k {
                assert(r[g] == f);
            } else {
                let w = choose|w: int| 0 <= w < rest.len() && rest[w] == fences[l];
                assert(r[g + 1 + w] == fences[l]);
            }
        }
    }
}

/// Byte offsets keep a well-ordered list of character ranges well ordered.
pub proof fn lemma_in_bytes_ordered(s: Seq<char>, r: Seq<(int, int)>)
    requires
        well_ordered(r, 0, s.len() as int),
    ensures
        well_ordered(in_bytes(s, r), 0, byte_offset(s, s.len() as int)),
{
    let b = in_bytes(s, r);
    assert forall|k: int| 0 <= k < b.len() implies 0 <= #[trigger] b[k].0 < b[k].1
        <= byte_offset(s, s.len() as int) by {
        lemma_byte_offset_split(s, 0, r[k].0);
        lemma_byte_offset_split(s, r[k].0, r[k].1);
        lemma_byte_offset_split(s, r[k].1, s.len() as int);
    }
    assert forall|k: int, l: int| 0 <= k < l < b.len() implies #[trigger] b[k].1
        <= #[trigger] b[l].0 by {
        assert(r[k].0 < r[k].1);
        assert(r[l].0 < r[l].1);
        assert(r[k].1 <= r[l].0);
        lemma_byte_offset_split(s, r[k].1, r[l].0);
    }
}

/// Index `a` starts a line, and that line opens a fenced block.
pub open spec fn starts_fence_line(s: Seq<char>, a: int) -> bool {
    &&& 0 <= a < s.len()
    &&& a == 0 || s[a - 1] == '\n'
    &&& opens_fence(s, a, line_end(s, a))
}

/// Index `b` ends a line: it is the end of the body or follows a `'\n'`.
pub open spec fn ends_line(s: Seq<char>, b: int) -> bool {
    b == s.len() || (0 < b <= s.len() && s[b - 1] == '\n')
}

proof fn lemma_line_end_ends_line(s: Seq<char>, i: int)
    requires
        0 <= i < s.len(),
    ensures
        ends_line(s, line_end(s, i)),
    decreases s.len() - i,
{
    if s[i] != '\n' {
        if i + 1 < s.len() {
            lemma_line_end_ends_line(s, i + 1);
        } else {
            assert(line_end(s, i + 1) == s.len());
        }
    }
}

proof fn lemma_fences_on_lines(s: Seq<char>, i: int, open: Option<(int, char, int)>)
    requires
        0 <= i <= s.len(),
        i < s.len() ==> (i == 0 || s[i - 1] == '\n'),
        open matches Some((start, _, _)) ==> starts_fence_line(s, start),
    ensures
        forall|k: int|
            0 <= k < fences_from(s, i, open).len() ==> starts_fence_line(
                s,
                #[trigger] fences_from(s, i, open)[k].0,
            ) && ends_line(s, fences_from(s, i, open)[k].1),
    decreases s.len() - i,
{
    let r = fences_from(s, i, open);
    if i < s.len() {
        let e = line_end(s, i);
        lemma_line_end(s, i);
        lemma_line_end_ends_line(s, i);
        match open {
            None => if opens_fence(s, i, e) {
                let next = Some((i, fence_char(s, i, e), fence_len(s, i, e)));
                assert(starts_fence_line(s, i));
                lemma_fences_on_lines(s, e, next);
                assert(r == fences_from(s, e, next));
            } else {
                lemma_fences_on_lines(s, e, None);
                assert(r == fences_from(s, e, None));
            },
            Some((start, marker, run)) => if closes_fence(s, i, e, marker, run) {
                let rest = fences_from(s, e, None);
                lemma_fences_on_lines(s, e, None);
                assert(r == seq![(start, e)] + rest);
                assert forall|k: int| 0 <= k < r.len() implies starts_fence_line(
                    s,
                    #[trigger] r[k].0,
                ) && ends_line(s, r[k].1) by {
                    if k > 0 {
                        assert(r[k] == rest[k - 1]);
                    }
                }
            } else {
                lemma_fences_on_lines(s, e, open);
                assert(r == fences_from(s, e, open));
            },
        }
    } else {
        if let Some((start, _, _)) = open {
            assert(r == seq![(start, s.len() as int)]);
            assert(r[0] == (start, s.len() as int));
        } else {
            assert(r.len() == 0);
        }
    }
    assert forall|k: int| 0 <= k < r.len() implies starts_fence_line(
        s,
        #[trigger] r[k].0,
    ) && ends_line(s, r[k].1) by {}
}

/// A fenced block covers whole lines: it starts at the start of a line that
/// opens a fence (at most three spaces of indent, then a run of at least three
/// backticks or tildes) and ends at the end of a line or of the body. In the
/// bytes [`fenced_ranges`] reports, a range starts at byte 0 or just after a
/// `b'\n'`, and ends at the end of the body or just after a `b'\n'`.
pub proof fn law_a_fenced_block_covers_whole_lines(s: Seq<char>)
    ensures
        forall|k: int|
            0 <= k < fence_spans(s).len() ==> starts_fence_line(s, #[trigger] fence_spans(s)[k].0)
                && ends_line(s, fence_spans(s)[k].1),
        forall|k: int|
            0 <= k < in_bytes(s, fence_spans(s)).len() ==> {
                let a = #[trigger] in_bytes(s, fence_spans(s))[k].0;
                let b = in_bytes(s, fence_spans(s))[k].1;
                &&& a == 0 || encode_utf8(s)[a - 1] == 10
                &&& b == encode_utf8(s).len() || encode_utf8(s)[b - 1] == 10
            },
{
    lemma_fences_on_lines(s, 0, None);
    let r = fences_from(s, 0, None);
    let f = fence_spans(s);
    assert forall|k: int| 0 <= k < f.len() implies starts_fence_line(s, #[trigger] f[k].0)
        && ends_line(s, f[k].1) by {
        assert(starts_fence_line(s, r[k].0));
    }
    lemma_utf8_len_is_encoded_len(s);
    assert(s.take(s.len() as int) =~= s);
    assert(s.take(0) =~= Seq::<char>::empty());
    assert forall|k: int| 0 <= k < in_bytes(s, f).len() implies {
        let a = #[trigger] in_bytes(s, f)[k].0;
        let b = in_bytes(s, f)[k].1;
        &&& a == 0 || encode_utf8(s)[a - 1] == 10
        &&& b == encode_utf8(s).len() || encode_utf8(s)[b - 1] == 10
    } by {
        let (ca, cb) = f[k];
        assert(starts_fence_line(s, f[k].0) && ends_line(s, f[k].1));
        assert(in_bytes(s, f)[k] == (byte_offset(s, ca), byte_offset(s, cb)));
        if ca > 0 {
            lemma_newline_byte(s, ca);
        }
        if cb < s.len() {
            lemma_newline_byte(s, cb);
        }
    }
}

// ---------------------------------------------------------------------------
// The scanner.
// ---------------------------------------------------------------------------

fn find_line_end(v: &Vec<char>, i: usize) -> (e: usize)
    requires
        i < v@.len(),
    ensures
        e == line_end(v@, i as int),
        i < e <= v@.len(),
{
    let mut j = i;
    while j < v.len() && v[j] != '\n'
        invariant
            i <= j <= v@.len(),
            line_end(v@, i as int) == line_end(v@, j as int),
        decreases v.len() - j,
    {
        j = j + 1;
    }
    if j < v.len() {
        j + 1
    } else {
        j
    }
}

fn count_run(v: &Vec<char>, i: usize, end: usize, c: char) -> (n: usize)
    requires
        i <= end <= v@.len(),
    ensures
        n == run_of(v@, i as int, end as int, c),
        i + n <= end,
{
    let mut j = i;
    while j < end && v[j] == c
        invariant
            i <= j <= end <= v@.len(),
            run_of(v@, i as int, end as int, c) == (j - i) + run_of(v@, j as int, end as int, c),
        decreases end - j,
    {
        j = j + 1;
    }
    j - i
}

fn has_char(v: &Vec<char>, a: usize, e: usize, c: char) -> (b: bool)
    requires
        a <= e <= v@.len(),
    ensures
        b == v@.subrange(a as int, e as int).contains(c),
{
    let mut j = a;
    while j < e
        invariant
            a <= j <= e <= v@.len(),
            forall|k: int| a <= k < j ==> v@[k] != c,
        decreases e - j,
    {
        if v[j] == c {
            assert(v@.subrange(a as int, e as int)[j - a] == c);
            return true;
        }
        j = j + 1;
    }
    assert forall|k: int| 0 <= k < e - a implies v@.subrange(a as int, e as int)[k] != c by {
        assert(v@.subrange(a as int, e as int)[k] == v@[a + k]);
    }
    false
}

fn all_blank(v: &Vec<char>, a: usize, e: usize) -> (b: bool)
    requires
        a <= e <= v@.len(),
    ensures
        b == is_blank(v@.subrange(a as int, e as int)),
{
    let mut j = a;
    while j < e
        invariant
            a <= j <= e <= v@.len(),
            forall|k: int| a <= k < j ==> crate::text::is_white_space(#[trigger] v@[k]),
        decreases e - j,
    {
        if !white_space(v[j]) {
            assert(v@.subrange(a as int, e as int)[j - a] == v@[j as int]);
            return false;
        }
        j = j + 1;
    }
    assert forall|k: int| 0 <= k < e - a implies crate::text::is_white_space(
        #[trigger] v@.subrange(a as int, e as int)[k],
    ) by {
        assert(v@.subrange(a as int, e as int)[k] == v@[a + k]);
    }
    true
}

/// Classify the line `[a, e)`: `Some((marker, run, info_start))` when it is
/// a fence line.
fn fence_line(v: &Vec<char>, a: usize, e: usize) -> (r: Option<(char, usize, usize)>)
    requires
        a < e <= v@.len(),
    ensures
        r is Some <==> is_fence_line(v@, a as int, e as int),
        r matches Some((m, n, x)) ==> m == fence_char(v@, a as int, e as int) && n == fence_len(
            v@,
            a as int,
            e as int,
        ) && x == fence_start(v@, a as int, e as int) + n && x <= e,
{
    let ind = count_run(v, a, e, ' ');
    if ind > 3 || a + ind >= e {
        return None;
    }
    let p = a + ind;
    let m = v[p];
    if m != '`' && m != '~' {
        return None;
    }
    let n = count_run(v, p, e, m);
    if n < 3 {
        return None;
    }
    Some((m, n, p + n))
}

proof fn lemma_as_ints_push(r: Seq<(usize, usize)>, p: (usize, usize))
    ensures
        as_ints(r.push(p)) == as_ints(r).push((p.0 as int, p.1 as int)),
{
    assert(as_ints(r.push(p)) =~= as_ints(r).push((p.0 as int, p.1 as int)));
}

spec fn open_view(o: Option<(usize, char, usize)>) -> Option<(int, char, int)> {
    match o {
        Some((a, m, n)) => Some((a as int, m, n as int)),
        None => None,
    }
}

/// Fenced blocks of `v`, in character indices.
fn fence_chars(v: &Vec<char>) -> (r: Vec<(usize, usize)>)
    ensures
        as_ints(r@) == fence_spans(v@),
{
    let mut r: Vec<(usize, usize)> = Vec::new();
    let mut open: Option<(usize, char, usize)> = None;
    let mut i: usize = 0;
    while i < v.len()
        invariant
            i <= v@.len(),
            open matches Some((a, _, _)) ==> a < i,
            as_ints(r@) + fences_from(v@, i as int, open_view(open)) == fence_spans(v@),
        decreases v.len() - i,
    {
        let e = find_line_end(v, i);
        let ghost before = as_ints(r@);
        let line = fence_line(v, i, e);
        match open {
            None => {
                if let Some((m, n, x)) = line {
                    if m == '~' || !has_char(v, x, e, '`') {
                        open = Some((i, m, n));
                    }
                }
            },
            Some((start, om, on)) => {
                if let Some((m, n, x)) = line {
                    if m == om && n >= on && all_blank(v, x, e) {
                        proof {
                            lemma_as_ints_push(r@, (start, e));
                            assert(before + (seq![(start as int, e as int)] + fences_from(
                                v@,
                                e as int,
                                None,
                            )) =~= before.push((start as int, e as int)) + fences_from(
                                v@,
                                e as int,
                                None,
                            ));
                        }
                        r.push((start, e));
                        open = None;
                    }
                }
            },
        }
        i = e;
    }
    proof {
        assert(fences_from(v@, i as int, open_view(open)) == match open_view(open) {
            Some((start, _, _)) => seq![(start, v@.len() as int)],
            None => Seq::<(int, int)>::empty(),
        });
    }
    if let Some((start, _, _)) = open {
        proof {
            lemma_as_ints_push(r@, (start, v.len()));
        }
        r.push((start, v.len()));
    } else {
        assert(as_ints(r@) + Seq::<(int, int)>::empty() =~= as_ints(r@));
    }
    r
}

/// Where the run of `n` backticks that closes a span opened before `j` starts.
fn find_closer(v: &Vec<char>, j: usize, lim: usize, n: usize) -> (k: Option<usize>)
    requires
        j <= lim <= v@.len(),
    ensures
        k matches Some(x) ==> closer_at(v@, j as int, lim as int, n as int) == Some(x as int),
        k is None ==> closer_at(v@, j as int, lim as int, n as int) is None,
{
    let mut k = j;
    while k < lim
        invariant
            j <= k <= lim <= v@.len(),
            closer_at(v@, j as int, lim as int, n as int) == closer_at(
                v@,
                k as int,
                lim as int,
                n as int,
            ),
        decreases lim - k,
    {
        if v[k] != '`' {
            k = k + 1;
        } else {
            let m = count_run(v, k, lim, '`');
            proof {
                lemma_run_of_bounds(v@, k as int, lim as int, '`');
            }
            if m == n {
                return Some(k);
            }
            k = k + m;
        }
    }
    None
}

/// Append the inline spans between `i` and `lim` to `r`.
fn push_inline(v: &Vec<char>, i: usize, lim: usize, r: &mut Vec<(usize, usize)>)
    requires
        i <= lim <= v@.len(),
    ensures
        as_ints(final(r)@) == as_ints(old(r)@) + inline_from(v@, i as int, lim as int),
{
    let ghost start = as_ints(r@);
    let mut j = i;
    while j < lim
        invariant
            i <= j <= lim <= v@.len(),
            as_ints(r@) + inline_from(v@, j as int, lim as int) == start + inline_from(
                v@,
                i as int,
                lim as int,
            ),
        decreases lim - j,
    {
        if v[j] != '`' {
            j = j + 1;
        } else {
            let n = count_run(v, j, lim, '`');
            proof {
                lemma_run_of_bounds(v@, j as int, lim as int, '`');
                lemma_closer_at_bounds(v@, (j + n) as int, lim as int, n as int);
            }
            match find_closer(v, j + n, lim, n) {
                Some(k) => {
                    let ghost before = as_ints(r@);
                    proof {
                        lemma_as_ints_push(r@, (j, (k + n) as usize));
                        assert(before + (seq![(j as int, (k + n) as int)] + inline_from(
                            v@,
                            (k + n) as int,
                            lim as int,
                        )) =~= before.push((j as int, (k + n) as int)) + inline_from(
                            v@,
                            (k + n) as int,
                            lim as int,
                        ));
                    }
                    r.push((j, k + n));
                    j = k + n;
                },
                None => {
                    j = j + n;
                },
            }
        }
    }
    assert(as_ints(r@) + Seq::<(int, int)>::empty() =~= as_ints(r@));
}

/// Restate character ranges in the byte offsets `pos` records.
fn to_bytes(s: Ghost<Seq<char>>, pos: &Vec<usize>, r: &Vec<(usize, usize)>) -> (out: Vec<
    (usize, usize),
>)
    requires
        pos@.len() == s@.len() + 1,
        forall|i: int| 0 <= i <= s@.len() ==> pos@[i] == byte_offset(s@, i),
        forall|k: int| 0 <= k < r@.len() ==> #[trigger] r@[k].0 <= r@[k].1 <= s@.len(),
    ensures
        as_ints(out@) == in_bytes(s@, as_ints(r@)),
{
    let mut out: Vec<(usize, usize)> = Vec::new();
    let mut k: usize = 0;
    while k < r.len()
        invariant
            k <= r@.len(),
            pos@.len() == s@.len() + 1,
            forall|i: int| 0 <= i <= s@.len() ==> pos@[i] == byte_offset(s@, i),
            forall|k: int| 0 <= k < r@.len() ==> #[trigger] r@[k].0 <= r@[k].1 <= s@.len(),
            as_ints(out@) == in_bytes(s@, as_ints(r@)).take(k as int),
        decreases r.len() - k,
    {
        let (a, b) = r[k];
        let ghost before = out@;
        out.push((pos[a], pos[b]));
        proof {
            lemma_as_ints_push(before, (pos@[a as int], pos@[b as int]));
            assert(in_bytes(s@, as_ints(r@)).take(k + 1) =~= in_bytes(s@, as_ints(r@)).take(
                k as int,
            ).push(in_bytes(s@, as_ints(r@))[k as int]));
        }
        k = k + 1;
    }
    assert(in_bytes(s@, as_ints(r@)).take(r@.len() as int) =~= in_bytes(s@, as_ints(r@)));
    out
}

/// Every byte range of `body` that is code: fenced blocks and inline spans.
///
/// Ranges are half-open and returned in ascending order. Use this for a
/// grammar whose markers may appear mid-line; a line-leading grammar wants
/// [`fenced_ranges`] instead. Every range [`fenced_ranges`] returns is among
/// these.
pub fn code_ranges(body: &str) -> (ranges: Vec<(usize, usize)>)
    ensures
        as_ints(ranges@) == in_bytes(body@, code_spans(body@)),
        well_ordered(as_ints(ranges@), 0, body.spec_bytes().len() as int),
        forall|k: int|
            0 <= k < fence_spans(body@).len() ==> as_ints(ranges@).contains(
                #[trigger] in_bytes(body@, fence_spans(body@))[k],
            ),
{
    let v = chars_of(body);
    let pos = char_offsets(body, &v);
    let fences = fence_chars(&v);
    proof {
        lemma_fences_ordered(v@, 0, None);
    }
    let mut r: Vec<(usize, usize)> = Vec::new();
    let mut from: usize = 0;
    let mut k: usize = 0;
    while k < fences.len()
        invariant
            v@ == body@,
            as_ints(fences@) == fence_spans(v@),
            well_ordered(fence_spans(v@), 0, v@.len() as int),
            k <= fences@.len(),
            from <= v@.len(),
            k < fences@.len() ==> from <= fences@[k as int].0,
            as_ints(r@) + code_from(v@, fence_spans(v@), k as int, from as int) == code_spans(
                v@,
            ),
        decreases fences.len() - k,
    {
        let (a, b) = fences[k];
        assert(fence_spans(v@)[k as int] == (a as int, b as int));
        let ghost before = as_ints(r@);
        push_inline(&v, from, a, &mut r);
        let ghost mid = as_ints(r@);
        proof {
            lemma_as_ints_push(r@, (a, b));
        }
        r.push((a, b));
        proof {
            let f = fence_spans(v@);
            let g = inline_from(v@, from as int, a as int);
            let rest = code_from(v@, f, k + 1, b as int);
            assert(code_from(v@, f, k as int, from as int) == g + seq![(a as int, b as int)]
                + rest);
            assert(before + (g + seq![(a as int, b as int)] + rest) =~= as_ints(r@) + rest);
            if k + 1 < fences@.len() {
                assert(f[k as int].1 <= f[k + 1].0);
            }
        }
        from = b;
        k = k + 1;
    }
    push_inline(&v, from, v.len(), &mut r);
    let ghost chars = as_ints(r@);
    proof {
        lemma_code_ordered(v@, fence_spans(v@), 0, 0);
        assert(chars == code_spans(v@));
        assert forall|k: int| 0 <= k < chars.len() implies #[trigger] r@[k].0 <= r@[k].1
            <= v@.len() by {
            assert(chars[k] == (r@[k].0 as int, r@[k].1 as int));
        }
        lemma_in_bytes_ordered(v@, code_spans(v@));
    }
    let out = to_bytes(Ghost(v@), &pos, &r);
    proof {
        let f = fence_spans(v@);
        let c = code_spans(v@);
        assert forall|k: int| 0 <= k < f.len() implies as_ints(out@).contains(
            #[trigger] in_bytes(v@, f)[k],
        ) by {
            assert(c.contains(f[k]));
            let w = choose|w: int| 0 <= w < c.len() && c[w] == f[k];
            assert(in_bytes(v@, c)[w] == in_bytes(v@, f)[k]);
        }
    }
    out
}

/// Whether the byte at `offset` falls inside one of `ranges`.
///
/// `ranges` are half-open, as [`code_ranges`] and [`fenced_ranges`] return
/// them, so a range's `end` is not masked.
pub fn is_masked(offset: usize, ranges: &[(usize, usize)]) -> (b: bool)
    ensures
        b == masked(offset as int, as_ints(ranges@)),
{
    let mut k: usize = 0;
    while k < ranges.len()
        invariant
            k <= ranges@.len(),
            forall|j: int| 0 <= j < k ==> !(#[trigger] ranges@[j].0 <= offset < ranges@[j].1),
        decreases ranges.len() - k,
    {
        let (start, end) = ranges[k];
        if start <= offset && offset < end {
            assert(as_ints(ranges@)[k as int] == (start as int, end as int));
            return true;
        }
        k = k + 1;
    }
    assert forall|j: int| 0 <= j < as_ints(ranges@).len() implies !(as_ints(ranges@)[j].0
        <= offset < #[trigger] as_ints(ranges@)[j].1) by {
        assert(as_ints(ranges@)[j] == (ranges@[j].0 as int, ranges@[j].1 as int));
    }
    false
}

/// The byte ranges of `body` covered by a fenced code block.
///
/// Each range is half-open and they are returned in the order the blocks
/// open, which is also ascending order. Use this for a line-leading grammar.
pub fn fenced_ranges(body: &str) -> (ranges: Vec<(usize, usize)>)
    ensures
        as_ints(ranges@) == in_bytes(body@, fence_spans(body@)),
        well_ordered(as_ints(ranges@), 0, body.spec_bytes().len() as int),
{
    let v = chars_of(body);
    let pos = char_offsets(body, &v);
    let fences = fence_chars(&v);
    proof {
        lemma_fences_ordered(v@, 0, None);
        let f = as_ints(fences@);
        assert forall|k: int| 0 <= k < fences@.len() implies #[trigger] fences@[k].0
            <= fences@[k].1 <= v@.len() by {
            assert(f[k] == (fences@[k].0 as int, fences@[k].1 as int));
        }
        lemma_in_bytes_ordered(v@, fence_spans(v@));
    }
    to_bytes(Ghost(v@), &pos, &fences)
}

} // verus!
