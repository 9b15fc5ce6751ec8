//! What the masking scanner's results mean, stated over the body's characters.
//!
//! The scanner's contracts in [`crate::masking`] give its results through the
//! model there. The laws here say, in terms of the characters alone, what
//! every fenced block and every inline span in those results is, and which
//! fence openers cannot be missed: a reader can check them against the fence
//! and span rules without reading the model.

use vstd::prelude::*;

use crate::masking::{
    closer_at, closes_fence, code_from, code_spans, fence_char, fence_info, fence_len,
    fence_spans, fence_start, fences_from, inline_from, lemma_closer_at_bounds,
    lemma_line_end, lemma_run_of_bounds, line_end, opens_fence, run_of,
    starts_fence_line,
};
use crate::text::is_white_space;

verus! {

// ---------------------------------------------------------------------------
// Plain statements about characters.
// ---------------------------------------------------------------------------

/// Every character of `s` in `[lo, hi)` is `c`.
pub open spec fn all_are(s: Seq<char>, lo: int, hi: int, c: char) -> bool {
    forall|k: int| lo <= k < hi ==> #[trigger] s[k] == c
}

/// `[j, e)` is one whole line of `s`, its `'\n'` included when it has one.
pub open spec fn is_line(s: Seq<char>, j: int, e: int) -> bool {
    &&& 0 <= j < e <= s.len()
    &&& j == 0 || s[j - 1] == '\n'
    &&& e == s.len() || s[e - 1] == '\n'
    &&& forall|k: int| j <= k < e - 1 ==> #[trigger] s[k] != '\n'
}

/// The line `[j, e)` is `d <= 3` spaces, then `r >= 3` copies of `c`, a
/// backtick or a tilde; after a backtick run the line holds no backtick.
pub open spec fn opener_line(s: Seq<char>, j: int, e: int, d: int, c: char, r: int) -> bool {
    &&& is_line(s, j, e)
    &&& 0 <= d <= 3
    &&& r >= 3
    &&& j + d + r <= e
    &&& c == '`' || c == '~'
    &&& all_are(s, j, j + d, ' ')
    &&& all_are(s, j + d, j + d + r, c)
    &&& c == '~' || forall|k: int| j + d + r <= k < e ==> #[trigger] s[k] != '`'
}

/// The line `[j, e)` is at most three spaces, then at least `r` copies of
/// `c`, then nothing but white space.
pub open spec fn closer_line(s: Seq<char>, j: int, e: int, c: char, r: int) -> bool {
    &&& is_line(s, j, e)
    &&& exists|d: int, q: int|
        #![trigger all_are(s, j, j + d, ' '), all_are(s, j + d, j + d + q, c)]
        {
            &&& 0 <= d <= 3
            &&& q >= r
            &&& j + d + q <= e
            &&& all_are(s, j, j + d, ' ')
            &&& all_are(s, j + d, j + d + q, c)
            &&& forall|k: int| j + d + q <= k < e ==> is_white_space(#[trigger] s[k])
        }
}

/// No line that starts in `[lo, hi)` closes a block of `r` copies of `c`.
pub open spec fn no_closer(s: Seq<char>, lo: int, hi: int, c: char, r: int) -> bool {
    forall|j: int, e: int| lo <= j < hi ==> !#[trigger] closer_line(s, j, e, c, r)
}

/// `[a, b)` is a fenced block: the line at `a` opens it with a run of `r`
/// copies of `c` (the whole run), and `b` ends the first later line that
/// closes it, or is the end of the body when no later line does.
pub open spec fn fenced_block(s: Seq<char>, a: int, b: int) -> bool {
    exists|e: int, d: int, c: char, r: int|
        #![trigger opener_line(s, a, e, d, c, r)]
        {
            &&& opener_line(s, a, e, d, c, r)
            &&& a + d + r == e || s[a + d + r] != c
            &&& {
                ||| b == s.len() && no_closer(s, e, s.len() as int, c, r)
                ||| exists|j: int|
                    e <= j < b && #[trigger] closer_line(s, j, b, c, r) && no_closer(s, e, j, c, r)
            }
        }
}

/// Index `j` falls in none of `spans`.
pub open spec fn outside(spans: Seq<(int, int)>, j: int) -> bool {
    forall|k: int| 0 <= k < spans.len() ==> !(spans[k].0 <= j < #[trigger] spans[k].1)
}

// ---------------------------------------------------------------------------
// Runs, lines and fence lines, between the two readings.
// ---------------------------------------------------------------------------

proof fn lemma_run_of_exact(s: Seq<char>, i: int, end: int, c: char, d: int)
    requires
        0 <= i,
        d >= 0,
        i + d <= end,
        i + d <= s.len(),
        all_are(s, i, i + d, c),
        i + d == end || i + d == s.len() || s[i + d] != c,
    ensures
        run_of(s, i, end, c) == d,
    decreases d,
{
    if d > 0 {
        assert(s[i] == c);
        lemma_run_of_exact(s, i + 1, end, c, d - 1);
    }
}

proof fn lemma_run_of_at_least(s: Seq<char>, i: int, end: int, c: char, d: int)
    requires
        0 <= i,
        d >= 0,
        i + d <= end,
        i + d <= s.len(),
        all_are(s, i, i + d, c),
    ensures
        run_of(s, i, end, c) >= d,
    decreases d,
{
    if d > 0 {
        assert(s[i] == c);
        lemma_run_of_at_least(s, i + 1, end, c, d - 1);
    } else {
        lemma_run_of_bounds(s, i, end, c);
    }
}

proof fn lemma_line_end_is_line(s: Seq<char>, j: int)
    requires
        0 <= j < s.len(),
        j == 0 || s[j - 1] == '\n',
    ensures
        is_line(s, j, line_end(s, j)),
    decreases s.len() - j,
{
    lemma_line_end(s, j);
    lemma_line_end_ends(s, j);
}

proof fn lemma_line_end_ends(s: Seq<char>, i: int)
    requires
        0 <= i < s.len(),
    ensures
        line_end(s, i) == s.len() || s[line_end(s, i) - 1] == '\n',
    decreases s.len() - i,
{
    if s[i] != '\n' {
        if i + 1 < s.len() {
            lemma_line_end_ends(s, i + 1);
        } else {
            assert(line_end(s, i + 1) == s.len());
        }
    }
}

/// A line is the one [`line_end`] finds.
proof fn lemma_is_line_unique(s: Seq<char>, j: int, e: int)
    requires
        is_line(s, j, e),
    ensures
        e == line_end(s, j),
{
    lemma_line_end(s, j);
    lemma_line_end_ends(s, j);
    let f = line_end(s, j);
    if f < e {
        assert(s[f - 1] != '\n');
    } else if e < f {
        assert(s[e - 1] != '\n');
    }
}

/// No line starts strictly inside another.
proof fn lemma_no_line_inside(s: Seq<char>, i: int, j: int, e2: int)
    requires
        0 <= i < s.len(),
        i < j < line_end(s, i),
    ensures
        !is_line(s, j, e2),
{
    lemma_line_end(s, i);
    assert(s[j - 1] != '\n');
}

/// An opener line, as the characters say, is one [`opens_fence`] accepts, and
/// its run is at least as long as the one named.
proof fn lemma_opener_opens(s: Seq<char>, j: int, e: int, d: int, c: char, r: int)
    requires
        opener_line(s, j, e, d, c, r),
    ensures
        opens_fence(s, j, e),
        fence_start(s, j, e) == j + d,
        fence_char(s, j, e) == c,
        fence_len(s, j, e) >= r,
{
    assert(s[j + d] == c);
    lemma_run_of_exact(s, j, e, ' ', d);
    lemma_run_of_at_least(s, j + d, e, c, r);
    lemma_run_of_bounds(s, j + d, e, c);
    if c == '`' {
        let n = fence_len(s, j, e);
        if n > r {
            assert(s[j + d + r] == c);
        }
        assert(n == r);
        let info = fence_info(s, j, e);
        assert forall|k: int| 0 <= k < info.len() implies info[k] != '`' by {
            assert(info[k] == s[j + d + r + k]);
        }
    }
}

/// A line [`opens_fence`] accepts is an opener line, its whole run named.
proof fn lemma_opens_opener(s: Seq<char>, j: int, e: int)
    requires
        is_line(s, j, e),
        opens_fence(s, j, e),
    ensures
        opener_line(s, j, e, run_of(s, j, e, ' '), fence_char(s, j, e), fence_len(s, j, e)),
        j + run_of(s, j, e, ' ') + fence_len(s, j, e) == e || s[j + run_of(s, j, e, ' ')
            + fence_len(s, j, e)] != fence_char(s, j, e),
{
    let d = run_of(s, j, e, ' ');
    let c = fence_char(s, j, e);
    lemma_run_of_bounds(s, j, e, ' ');
    lemma_run_of_bounds(s, j + d, e, c);
    let n = fence_len(s, j, e);
    if c == '`' {
        let info = fence_info(s, j, e);
        assert forall|k: int| j + d + n <= k < e implies #[trigger] s[k] != '`' by {
            assert(info[k - (j + d + n)] == s[k]);
        }
    }
}

/// A closer line, as the characters say, is one [`closes_fence`] accepts,
/// for a run of at least three.
proof fn lemma_closer_closes(s: Seq<char>, j: int, e: int, c: char, r: int)
    requires
        closer_line(s, j, e, c, r),
        r >= 3,
        c == '`' || c == '~',
    ensures
        closes_fence(s, j, e, c, r),
{
    let (d, q) = choose|d: int, q: int|
        #![trigger all_are(s, j, j + d, ' '), all_are(s, j + d, j + d + q, c)]
        {
            &&& 0 <= d <= 3
            &&& q >= r
            &&& j + d + q <= e
            &&& all_are(s, j, j + d, ' ')
            &&& all_are(s, j + d, j + d + q, c)
            &&& forall|k: int| j + d + q <= k < e ==> is_white_space(#[trigger] s[k])
        };
    assert(s[j + d] == c);
    lemma_run_of_exact(s, j, e, ' ', d);
    lemma_run_of_at_least(s, j + d, e, c, q);
    lemma_run_of_bounds(s, j + d, e, c);
    let n = fence_len(s, j, e);
    let info = fence_info(s, j, e);
    assert forall|k: int| 0 <= k < info.len() implies is_white_space(#[trigger] info[k]) by {
        assert(info[k] == s[j + d + n + k]);
    }
}

/// A line [`closes_fence`] accepts is a closer line.
proof fn lemma_closes_closer(s: Seq<char>, j: int, e: int, c: char, r: int)
    requires
        is_line(s, j, e),
        closes_fence(s, j, e, c, r),
    ensures
        closer_line(s, j, e, c, r),
{
    let d = run_of(s, j, e, ' ');
    lemma_run_of_bounds(s, j, e, ' ');
    lemma_run_of_bounds(s, j + d, e, c);
    let q = fence_len(s, j, e);
    let info = fence_info(s, j, e);
    assert forall|k: int| j + d + q <= k < e implies is_white_space(#[trigger] s[k]) by {
        assert(info[k - (j + d + q)] == s[k]);
    }
    assert(all_are(s, j, j + d, ' '));
    assert(all_are(s, j + d, j + d + q, c));
}

// ---------------------------------------------------------------------------
// Fenced blocks.
// ---------------------------------------------------------------------------

/// The block still open when line `i` starts is the first of those found
/// from `i` on, and it reaches at least to `i`.
proof fn lemma_open_first(s: Seq<char>, i: int, open: Option<(int, char, int)>)
    requires
        0 <= i <= s.len(),
        open is Some,
    ensures
        fences_from(s, i, open).len() > 0,
        fences_from(s, i, open)[0].0 == (open->0).0,
        fences_from(s, i, open)[0].1 >= i,
    decreases s.len() - i,
{
    let r = fences_from(s, i, open);
    if i < s.len() {
        let e = line_end(s, i);
        lemma_line_end(s, i);
        let (st, m, run) = open->0;
        if closes_fence(s, i, e, m, run) {
            assert(r == seq![(st, e)] + fences_from(s, e, None));
        } else {
            lemma_open_first(s, e, open);
            assert(r == fences_from(s, e, open));
        }
    }
}

#[verifier::spinoff_prover]
#[verifier::rlimit(40)]
proof fn lemma_fence_blocks(
    s: Seq<char>,
    i: int,
    open: Option<(int, char, int)>,
    e0: int,
    d0: int,
)
    requires
        0 <= i <= s.len(),
        i < s.len() ==> (i == 0 || s[i - 1] == '\n'),
        open matches Some((st, m, run)) ==> {
            &&& st < i
            &&& opener_line(s, st, e0, d0, m, run)
            &&& st + d0 + run == e0 || s[st + d0 + run] != m
            &&& e0 <= i
            &&& no_closer(s, e0, i, m, run)
        },
    ensures
        forall|k: int|
            0 <= k < fences_from(s, i, open).len() ==> fenced_block(
                s,
                (#[trigger] fences_from(s, i, open)[k]).0,
                fences_from(s, i, open)[k].1,
            ),
        forall|j: int, e: int, d: int, c: char, r: int|
            i <= j && #[trigger] opener_line(s, j, e, d, c, r) && outside(
                fences_from(s, i, open),
                j,
            ) ==> exists|k: int|
                0 <= k < fences_from(s, i, open).len() && (#[trigger] fences_from(
                    s,
                    i,
                    open,
                )[k]).0 == j,
    decreases s.len() - i,
{
    let fs = fences_from(s, i, open);
    if i < s.len() {
        let e = line_end(s, i);
        lemma_line_end(s, i);
        lemma_line_end_is_line(s, i);
        // No line starts strictly inside line `i`, and line `i` is only
        // `[i, e)`.
        assert forall|j: int, e2: int| i < j < e implies !is_line(s, j, e2) by {
            lemma_no_line_inside(s, i, j, e2);
        }
        assert forall|e2: int| is_line(s, i, e2) implies e2 == e by {
            lemma_is_line_unique(s, i, e2);
        }
        match open {
            None => {
                if opens_fence(s, i, e) {
                    let d = run_of(s, i, e, ' ');
                    let next = Some((i, fence_char(s, i, e), fence_len(s, i, e)));
                    lemma_opens_opener(s, i, e);
                    lemma_fence_blocks(s, e, next, e, d);
                    lemma_open_first(s, e, next);
                    assert(fs == fences_from(s, e, next));
                    assert forall|j: int, e2: int, d2: int, c: char, r: int|
                        i <= j && #[trigger] opener_line(s, j, e2, d2, c, r) && outside(fs, j)
                        implies exists|k: int| 0 <= k < fs.len() && (#[trigger] fs[k]).0 == j by {
                        if j == i {
                            assert(fs[0].0 == j);
                        } else if j < e {
                            assert(!is_line(s, j, e2));
                        }
                    }
                } else {
                    lemma_fence_blocks(s, e, None, e0, d0);
                    assert(fs == fences_from(s, e, None));
                    assert forall|j: int, e2: int, d2: int, c: char, r: int|
                        i <= j && #[trigger] opener_line(s, j, e2, d2, c, r) && outside(fs, j)
                        implies exists|k: int| 0 <= k < fs.len() && (#[trigger] fs[k]).0 == j by {
                        if j == i {
                            lemma_opener_opens(s, j, e2, d2, c, r);
                        } else if j < e {
                            assert(!is_line(s, j, e2));
                        }
                    }
                }
            },
            Some((st, m, run)) => {
                if closes_fence(s, i, e, m, run) {
                    let rest = fences_from(s, e, None);
                    lemma_fence_blocks(s, e, None, e0, d0);
                    assert(fs == seq![(st, e)] + rest);
                    lemma_closes_closer(s, i, e, m, run);
                    assert(closer_line(s, i, e, m, run));
                    assert(fenced_block(s, st, e)) by {
                        assert(opener_line(s, st, e0, d0, m, run));
                    }
                    assert forall|k: int| 0 <= k < fs.len() implies fenced_block(
                        s,
                        (#[trigger] fs[k]).0,
                        fs[k].1,
                    ) by {
                        if k > 0 {
                            assert(fs[k] == rest[k - 1]);
                        }
                    }
                    assert forall|j: int, e2: int, d2: int, c: char, r: int|
                        i <= j && #[trigger] opener_line(s, j, e2, d2, c, r) && outside(fs, j)
                        implies exists|k: int| 0 <= k < fs.len() && (#[trigger] fs[k]).0 == j by {
                        if j < e {
                            assert(fs[0] == (st, e));
                            if j > i {
                                assert(!is_line(s, j, e2));
                            }
                        } else {
                            assert forall|k: int| 0 <= k < rest.len() implies !(rest[k].0 <= j
                                < #[trigger] rest[k].1) by {
                                assert(fs[k + 1] == rest[k]);
                            }
                            let k = choose|k: int| 0 <= k < rest.len() && (#[trigger] rest[k]).0 == j;
                            assert(fs[k + 1] == rest[k]);
                        }
                    }
                } else {
                    assert forall|j: int, e2: int| e0 <= j < e implies !#[trigger] closer_line(
                        s,
                        j,
                        e2,
                        m,
                        run,
                    ) by {
                        if j == i {
                            if closer_line(s, j, e2, m, run) {
                                lemma_closer_closes(s, j, e2, m, run);
                            }
                        } else if j > i {
                            assert(!is_line(s, j, e2));
                        }
                    }
                    lemma_fence_blocks(s, e, open, e0, d0);
                    lemma_open_first(s, e, open);
                    assert(fs == fences_from(s, e, open));
                    assert forall|j: int, e2: int, d2: int, c: char, r: int|
                        i <= j && #[trigger] opener_line(s, j, e2, d2, c, r) && outside(fs, j)
                        implies exists|k: int| 0 <= k < fs.len() && (#[trigger] fs[k]).0 == j by {
                        if j < e {
                            assert(fs[0].0 == st && fs[0].1 >= e);
                            if j > i {
                                assert(!is_line(s, j, e2));
                            }
                        }
                    }
                }
            },
        }
    } else {
        if let Some((st, m, run)) = open {
            assert(fs == seq![(st, s.len() as int)]);
            assert(fenced_block(s, st, s.len() as int)) by {
                assert(opener_line(s, st, e0, d0, m, run));
            }
            assert(fs[0] == (st, s.len() as int));
        } else {
            assert(fs.len() == 0);
        }
    }
}

/// What the fenced blocks of a body are, in its characters.
///
/// Every reported block starts at a line of at most three spaces and a run of
/// at least three backticks or tildes (after backticks, no backtick on the
/// rest of the line), and ends with the first later line of at most three
/// spaces, at least as long a run of the same marker and nothing but white
/// space; or at the end of the body when no such line follows. And no opener
/// line outside every reported block is missed: each starts a block.
pub proof fn law_fenced_blocks_are_the_fence_rules(s: Seq<char>)
    ensures
        forall|k: int|
            0 <= k < fence_spans(s).len() ==> fenced_block(
                s,
                (#[trigger] fence_spans(s)[k]).0,
                fence_spans(s)[k].1,
            ),
        forall|j: int, e: int, d: int, c: char, r: int|
            #[trigger] opener_line(s, j, e, d, c, r) && outside(fence_spans(s), j) ==> exists|k: int|
                0 <= k < fence_spans(s).len() && (#[trigger] fence_spans(s)[k]).0 == j,
{
    lemma_fence_blocks(s, 0, None, 0, 0);
    assert(fence_spans(s) == fences_from(s, 0, None));
}

// ---------------------------------------------------------------------------
// Inline spans.
// ---------------------------------------------------------------------------

/// `[a, b)` is an inline code span: a whole run of `n` backticks, some text,
/// and the first later whole run of exactly `n` backticks. No whole run of
/// exactly `n` backticks lies between the two.
pub open spec fn inline_span(s: Seq<char>, a: int, b: int) -> bool {
    exists|n: int|
        #![trigger all_are(s, a, a + n, '`'), all_are(s, b - n, b, '`')]
        {
            &&& n >= 1
            &&& 0 <= a
            &&& a + n < b - n
            &&& b <= s.len()
            &&& all_are(s, a, a + n, '`')
            &&& all_are(s, b - n, b, '`')
            &&& a == 0 || s[a - 1] != '`'
            &&& s[a + n] != '`'
            &&& s[b - n - 1] != '`'
            &&& b == s.len() || s[b] != '`'
            &&& forall|p: int, q: int|
                a + n <= p < q <= b - n && #[trigger] all_are(s, p, q, '`') && s[p - 1] != '`'
                    && s[q] != '`' ==> q - p != n
        }
}

/// What [`closer_at`] finds is the start of a whole run of exactly `n`
/// backticks, and no whole run of exactly `n` lies before it.
proof fn lemma_closer_found(s: Seq<char>, j: int, lim: int, n: int)
    requires
        1 <= j,
        lim <= s.len(),
        j < lim && s[j] == '`' ==> s[j - 1] != '`',
    ensures
        closer_at(s, j, lim, n) matches Some(x) ==> {
            &&& j <= x
            &&& x + n <= lim
            &&& n >= 1
            &&& s[x - 1] != '`'
            &&& all_are(s, x, x + n, '`')
            &&& x + n == lim || s[x + n] != '`'
            &&& forall|p: int, q: int|
                j <= p < q <= x && #[trigger] all_are(s, p, q, '`') && s[p - 1] != '`' && s[q]
                    != '`' ==> q - p != n
        },
    decreases lim - j,
{
    if j < lim && j < s.len() {
        if s[j] != '`' {
            lemma_closer_found(s, j + 1, lim, n);
            if let Some(x) = closer_at(s, j, lim, n) {
                assert forall|p: int, q: int|
                    j <= p < q <= x && #[trigger] all_are(s, p, q, '`') && s[p - 1] != '`' && s[q]
                        != '`' implies q - p != n by {
                    if p == j {
                        assert(s[p] == '`');
                    }
                }
            }
        } else {
            let m = run_of(s, j, lim, '`');
            lemma_run_of_bounds(s, j, lim, '`');
            lemma_closer_at_bounds(s, j, lim, n);
            if m == n {
                assert(all_are(s, j, j + n, '`'));
            } else {
                lemma_closer_found(s, j + m, lim, n);
                if let Some(x) = closer_at(s, j, lim, n) {
                    assert forall|p: int, q: int|
                        j <= p < q <= x && #[trigger] all_are(s, p, q, '`') && s[p - 1] != '`'
                            && s[q] != '`' implies q - p != n by {
                        if p == j {
                            lemma_run_of_exact(s, j, lim, '`', q - j);
                        } else if p < j + m {
                            assert(s[p - 1] == '`');
                        }
                    }
                }
            }
        }
    }
}

/// Every span [`inline_from`] finds is an inline code span.
proof fn lemma_inline_spans(s: Seq<char>, i: int, lim: int)
    requires
        0 <= i,
        lim <= s.len(),
        lim == s.len() || lim == 0 || s[lim - 1] != '`',
        i < lim && s[i] == '`' && i > 0 ==> s[i - 1] != '`',
    ensures
        forall|k: int|
            0 <= k < inline_from(s, i, lim).len() ==> inline_span(
                s,
                (#[trigger] inline_from(s, i, lim)[k]).0,
                inline_from(s, i, lim)[k].1,
            ),
    decreases lim - i,
{
    let r = inline_from(s, i, lim);
    if i < lim && i < s.len() {
        if s[i] != '`' {
            lemma_inline_spans(s, i + 1, lim);
            assert(r == inline_from(s, i + 1, lim));
        } else {
            let n = run_of(s, i, lim, '`');
            lemma_run_of_bounds(s, i, lim, '`');
            lemma_closer_at_bounds(s, i + n, lim, n);
            match closer_at(s, i + n, lim, n) {
                Some(x) => {
                    lemma_closer_found(s, i + n, lim, n);
                    let rest = inline_from(s, x + n, lim);
                    lemma_inline_spans(s, x + n, lim);
                    assert(r == seq![(i, x + n)] + rest);
                    assert(s[i + n] != '`');
                    assert(x != i + n);
                    assert(all_are(s, i, i + n, '`'));
                    assert(all_are(s, x + n - n, x + n, '`'));
                    assert(x + n == s.len() || s[x + n] != '`') by {
                        if x + n == lim && lim < s.len() {
                            assert(s[lim - 1] == '`');
                        }
                    }
                    assert(inline_span(s, i, x + n));
                    assert forall|k: int| 0 <= k < r.len() implies inline_span(
                        s,
                        (#[trigger] r[k]).0,
                        r[k].1,
                    ) by {
                        if k > 0 {
                            assert(r[k] == rest[k - 1]);
                        }
                    }
                },
                None => {
                    lemma_inline_spans(s, i + n, lim);
                    assert(r == inline_from(s, i + n, lim));
                },
            }
        }
    }
    assert forall|k: int| 0 <= k < r.len() implies inline_span(s, (#[trigger] r[k]).0, r[k].1) by {}
}

/// Every code range from fence `k` on is one of the fences or an inline span.
proof fn lemma_code_pieces(s: Seq<char>, fences: Seq<(int, int)>, k: int, from: int)
    requires
        0 <= k <= fences.len(),
        0 <= from <= s.len(),
        from == 0 || from == s.len() || s[from - 1] == '\n',
        forall|l: int|
            0 <= l < fences.len() ==> 0 <= (#[trigger] fences[l]).0 <= fences[l].1 <= s.len(),
        forall|l: int|
            0 <= l < fences.len() ==> #[trigger] fences[l].0 == 0 || s[fences[l].0 - 1] == '\n',
        forall|l: int|
            0 <= l < fences.len() ==> #[trigger] fences[l].1 == s.len() || s[fences[l].1 - 1]
                == '\n',
    ensures
        forall|m: int|
            0 <= m < code_from(s, fences, k, from).len() ==> fences.contains(
                #[trigger] code_from(s, fences, k, from)[m],
            ) || inline_span(s, code_from(s, fences, k, from)[m].0, code_from(s, fences, k, from)[m].1),
    decreases fences.len() - k,
{
    let r = code_from(s, fences, k, from);
    if k == fences.len() {
        lemma_inline_spans(s, from, s.len() as int);
        assert(r == inline_from(s, from, s.len() as int));
    } else {
        let f = fences[k];
        let gap = inline_from(s, from, f.0);
        let rest = code_from(s, fences, k + 1, f.1);
        lemma_inline_spans(s, from, f.0);
        lemma_code_pieces(s, fences, k + 1, f.1);
        assert(r == gap + seq![f] + rest);
        let g = gap.len() as int;
        assert forall|m: int| 0 <= m < r.len() implies fences.contains(#[trigger] r[m])
            || inline_span(s, r[m].0, r[m].1) by {
            if m < g {
                assert(r[m] == gap[m]);
            } else if m == g {
                assert(r[m] == fences[k]);
            } else {
                assert(r[m] == rest[m - g - 1]);
            }
        }
    }
}

/// Every code range that is not a fenced block is an inline span: a whole
/// run of backticks closed by the first later whole run of the same length,
/// so text between two spans on one line is never masked by either.
pub proof fn law_an_inline_span_closes_at_the_next_equal_run(s: Seq<char>)
    ensures
        forall|m: int|
            0 <= m < code_spans(s).len() && !fence_spans(s).contains(
                #[trigger] code_spans(s)[m],
            ) ==> inline_span(s, code_spans(s)[m].0, code_spans(s)[m].1),
{
    let f = fence_spans(s);
    crate::masking::law_a_fenced_block_covers_whole_lines(s);
    crate::masking::lemma_fences_ordered(s, 0, None);
    assert forall|l: int| 0 <= l < f.len() implies #[trigger] f[l].0 == 0 || s[f[l].0 - 1] == '\n' by {
        assert(starts_fence_line(s, f[l].0));
    }
    assert forall|l: int| 0 <= l < f.len() implies #[trigger] f[l].1 == s.len() || s[f[l].1 - 1]
        == '\n' by {
        assert(starts_fence_line(s, f[l].0));
        assert(crate::masking::ends_line(s, f[l].1));
    }
    lemma_code_pieces(s, f, 0, 0);
}

/// `[p, q)` is a whole run of backticks: no backtick right before or after.
pub open spec fn whole_run(s: Seq<char>, p: int, q: int) -> bool {
    &&& 0 <= p < q <= s.len()
    &&& p == 0 || s[p - 1] != '`'
    &&& all_are(s, p, q, '`')
    &&& q == s.len() || s[q] != '`'
}

/// A whole run of `n` backticks at or after `j` and within `lim` is found by
/// [`closer_at`], or an earlier one is.
proof fn lemma_closer_exists(s: Seq<char>, j: int, lim: int, p2: int, q2: int)
    requires
        0 <= j <= p2,
        q2 <= lim <= s.len(),
        whole_run(s, p2, q2),
    ensures
        closer_at(s, j, lim, q2 - p2) is Some,
    decreases lim - j,
{
    let n = q2 - p2;
    if s[j] != '`' {
        lemma_closer_exists(s, j + 1, lim, p2, q2);
    } else {
        let m = run_of(s, j, lim, '`');
        lemma_run_of_bounds(s, j, lim, '`');
        if j == p2 {
            lemma_run_of_exact(s, j, lim, '`', n);
        } else if m != n {
            if j + m > p2 {
                assert(s[p2 - 1] == '`');
            }
            lemma_closer_exists(s, j + m, lim, p2, q2);
        }
    }
}

/// A whole run at or after `i` with a later whole run of the same length
/// within `lim` lies in a span that [`inline_from`] finds.
proof fn lemma_inline_covers(s: Seq<char>, i: int, lim: int, p: int, q: int, p2: int, q2: int)
    requires
        0 <= i <= p,
        whole_run(s, p, q),
        whole_run(s, p2, q2),
        q <= p2,
        q2 - p2 == q - p,
        q2 <= lim <= s.len(),
    ensures
        !outside(inline_from(s, i, lim), p),
    decreases lim - i,
{
    let r = inline_from(s, i, lim);
    if s[i] != '`' {
        lemma_inline_covers(s, i + 1, lim, p, q, p2, q2);
        assert(r == inline_from(s, i + 1, lim));
    } else {
        let n = run_of(s, i, lim, '`');
        lemma_run_of_bounds(s, i, lim, '`');
        lemma_closer_at_bounds(s, i + n, lim, n);
        if i == p {
            lemma_run_of_exact(s, i, lim, '`', q - p);
            lemma_closer_exists(s, i + n, lim, p2, q2);
            let x = closer_at(s, i + n, lim, n)->0;
            assert(r == seq![(i, x + n)] + inline_from(s, x + n, lim));
            assert(r[0] == (i, x + n));
            assert(r[0].0 <= p < r[0].1);
        } else {
            if i + n > p {
                assert(s[p - 1] == '`');
            }
            match closer_at(s, i + n, lim, n) {
                Some(x) => {
                    let rest = inline_from(s, x + n, lim);
                    assert(r == seq![(i, x + n)] + rest);
                    assert(r[0] == (i, x + n));
                    if x + n <= p {
                        lemma_inline_covers(s, x + n, lim, p, q, p2, q2);
                        let k = choose|k: int| 0 <= k < rest.len() && rest[k].0 <= p < #[trigger] rest[k].1;
                        assert(r[k + 1] == rest[k]);
                        assert(r[k + 1].0 <= p < r[k + 1].1);
                    } else {
                        assert(r[0].0 <= p < r[0].1);
                    }
                },
                None => {
                    lemma_inline_covers(s, i + n, lim, p, q, p2, q2);
                    assert(r == inline_from(s, i + n, lim));
                },
            }
        }
    }
}

/// The same, for the code ranges from fence `k` on, when no fence meets the
/// stretch from the first run to the end of the second.
proof fn lemma_code_covers(
    s: Seq<char>,
    fences: Seq<(int, int)>,
    k: int,
    from: int,
    p: int,
    q: int,
    p2: int,
    q2: int,
)
    requires
        0 <= k <= fences.len(),
        0 <= from <= p,
        whole_run(s, p, q),
        whole_run(s, p2, q2),
        q <= p2,
        q2 - p2 == q - p,
        forall|l: int|
            0 <= l < fences.len() ==> (#[trigger] fences[l]).1 <= p || q2 <= fences[l].0,
        forall|l: int|
            0 <= l < fences.len() ==> 0 <= (#[trigger] fences[l]).0 <= fences[l].1 <= s.len(),
    ensures
        !outside(code_from(s, fences, k, from), p),
    decreases fences.len() - k,
{
    let r = code_from(s, fences, k, from);
    if k == fences.len() {
        lemma_inline_covers(s, from, s.len() as int, p, q, p2, q2);
        assert(r == inline_from(s, from, s.len() as int));
    } else {
        let f = fences[k];
        let gap = inline_from(s, from, f.0);
        let rest = code_from(s, fences, k + 1, f.1);
        assert(r == gap + seq![f] + rest);
        assert(fences[k].1 <= p || q2 <= fences[k].0);
        if q2 <= f.0 {
            lemma_inline_covers(s, from, f.0, p, q, p2, q2);
            let m = choose|m: int| 0 <= m < gap.len() && gap[m].0 <= p < #[trigger] gap[m].1;
            assert(r[m] == gap[m]);
            assert(r[m].0 <= p < r[m].1);
        } else {
            lemma_code_covers(s, fences, k + 1, f.1, p, q, p2, q2);
            let m = choose|m: int| 0 <= m < rest.len() && rest[m].0 <= p < #[trigger] rest[m].1;
            assert(r[gap.len() + 1 + m] == rest[m]);
            assert(r[gap.len() + 1 + m].0 <= p < r[gap.len() + 1 + m].1);
        }
    }
}

/// A whole run of backticks that a later whole run of the same length
/// follows, with no fenced block anywhere between the first's start and the
/// second's end, is masked: it opens a span, or lies in an earlier one.
pub proof fn law_a_run_with_a_later_equal_run_is_masked(
    s: Seq<char>,
    p: int,
    q: int,
    p2: int,
    q2: int,
)
    requires
        whole_run(s, p, q),
        whole_run(s, p2, q2),
        q <= p2,
        q2 - p2 == q - p,
        forall|l: int|
            0 <= l < fence_spans(s).len() ==> (#[trigger] fence_spans(s)[l]).1 <= p || q2
                <= fence_spans(s)[l].0,
    ensures
        exists|k: int|
            0 <= k < code_spans(s).len() && code_spans(s)[k].0 <= p < #[trigger] code_spans(s)[k].1,
{
    let f = fence_spans(s);
    crate::masking::lemma_fences_ordered(s, 0, None);
    assert forall|l: int| 0 <= l < f.len() implies 0 <= (#[trigger] f[l]).0 <= f[l].1 <= s.len() by {}
    lemma_code_covers(s, f, 0, 0, p, q, p2, q2);
    let c = code_spans(s);
    assert(c == code_from(s, f, 0, 0));
    let k = choose|k: int| 0 <= k < c.len() && c[k].0 <= p < #[trigger] c[k].1;
    assert(c[k].0 <= p < c[k].1);
}

} // verus!
