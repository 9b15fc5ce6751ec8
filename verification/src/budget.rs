//! Max-min fair allocation of a character budget across context sources.

use vstd::prelude::*;

verus! {

broadcast use vstd::string::group_string_axioms;

/// One context source competing for the shared character budget.
#[derive(Clone, Debug, Eq, PartialEq)]
pub struct BudgetRequest {
    /// Caller's stable name for the source, echoed onto its share.
    pub source_id: String,
    /// Characters the source would spend if it were the only one.
    pub wanted: usize,
}

impl BudgetRequest {
    /// Build a request for a named source.
    pub fn new(source_id: &str, wanted: usize) -> (r: Self)
        ensures
            r.source_id@ == source_id@,
            r.wanted == wanted,
    {
        BudgetRequest { source_id: source_id.to_string(), wanted }
    }
}

/// How much of the budget one allocation may spend, and on what terms.
#[derive(Clone, Copy, Debug, Eq, PartialEq)]
pub struct BudgetPolicy {
    /// Characters every source together may spend.
    pub total_chars: usize,
    /// Fewest characters that make a *truncated* source worth carrying.
    pub min_useful_chars: usize,
}

/// What the allocation did to one source.
#[derive(Clone, Copy, Debug, Eq, PartialEq)]
pub enum BudgetVerdict {
    /// The source got everything it asked for.
    Whole,
    /// The source was cut to a share it can still be read from.
    Truncated,
    /// The source is not carried at all, and the caller must say so.
    Dropped,
}

/// One source's settled claim on the budget.
#[derive(Clone, Debug, Eq, PartialEq)]
pub struct BudgetShare {
    /// The requesting source, echoed unchanged.
    pub source_id: String,
    /// Characters this source may spend; `0` when it was dropped.
    pub granted: usize,
    /// Characters withheld from it: `wanted - granted`.
    pub omitted: usize,
    /// Whether the source is whole, cut, or gone.
    pub verdict: BudgetVerdict,
}

/// `min(a, b)` over integers.
pub open spec fn min(a: int, b: int) -> int {
    if a < b {
        a
    } else {
        b
    }
}

/// What granting every request `min(wanted, level)` spends in total.
pub open spec fn spend(requests: Seq<BudgetRequest>, level: int) -> int
    decreases requests.len(),
{
    if requests.len() == 0 {
        0
    } else {
        spend(requests.drop_last(), level) + min(requests.last().wanted as int, level)
    }
}

/// Every request's `wanted`, summed.
pub open spec fn total_wanted(requests: Seq<BudgetRequest>) -> int
    decreases requests.len(),
{
    if requests.len() == 0 {
        0
    } else {
        total_wanted(requests.drop_last()) + requests.last().wanted
    }
}

/// Every share's `granted`, summed.
pub open spec fn total_granted(shares: Seq<BudgetShare>) -> int
    decreases shares.len(),
{
    if shares.len() == 0 {
        0
    } else {
        total_granted(shares.drop_last()) + shares.last().granted
    }
}

/// Whether `level` fits the budget. The spend is counted the way a `usize`
/// saturating sum counts it, so at `total == usize::MAX` every level fits.
pub open spec fn fits(requests: Seq<BudgetRequest>, level: int, total: int) -> bool {
    min(spend(requests, level), usize::MAX as int) <= total
}

/// The largest level in `0..=hi` that fits.
pub open spec fn max_fitting(requests: Seq<BudgetRequest>, total: int, hi: int) -> int
    decreases hi,
{
    if hi <= 0 {
        0
    } else if fits(requests, hi, total) {
        hi
    } else {
        max_fitting(requests, total, hi - 1)
    }
}

/// The max-min fair level: the largest equal share every source may draw,
/// `min(wanted, level)` each, without overspending `total`.
pub open spec fn fair_level(requests: Seq<BudgetRequest>, total: int) -> int {
    max_fitting(requests, total, total)
}

/// What one request gets at `level`: `(granted, verdict)`.
pub open spec fn share_at(request: BudgetRequest, level: int, min_useful: int) -> (
    int,
    BudgetVerdict,
) {
    let cut = min(request.wanted as int, level);
    if cut == request.wanted {
        (cut, BudgetVerdict::Whole)
    } else if cut < min_useful {
        (0, BudgetVerdict::Dropped)
    } else {
        (cut, BudgetVerdict::Truncated)
    }
}

/// Share `share` is what `request` gets at `level`.
pub open spec fn settles(
    share: BudgetShare,
    request: BudgetRequest,
    level: int,
    min_useful: int,
) -> bool {
    &&& share.source_id@ == request.source_id@
    &&& share.granted == share_at(request, level, min_useful).0
    &&& share.verdict == share_at(request, level, min_useful).1
    &&& share.omitted == request.wanted - share.granted
}

pub proof fn lemma_spend_monotone(requests: Seq<BudgetRequest>, a: int, b: int)
    requires
        a <= b,
    ensures
        spend(requests, a) <= spend(requests, b),
    decreases requests.len(),
{
    if requests.len() > 0 {
        lemma_spend_monotone(requests.drop_last(), a, b);
    }
}

pub proof fn lemma_spend_zero(requests: Seq<BudgetRequest>)
    ensures
        spend(requests, 0) == 0,
    decreases requests.len(),
{
    if requests.len() > 0 {
        lemma_spend_zero(requests.drop_last());
    }
}

pub proof fn lemma_spend_at_most_wanted(requests: Seq<BudgetRequest>, level: int)
    requires
        level >= 0,
    ensures
        0 <= spend(requests, level) <= total_wanted(requests),
    decreases requests.len(),
{
    if requests.len() > 0 {
        lemma_spend_at_most_wanted(requests.drop_last(), level);
    }
}

pub proof fn lemma_wanted_bounds_each(requests: Seq<BudgetRequest>, i: int)
    requires
        0 <= i < requests.len(),
    ensures
        requests[i].wanted <= total_wanted(requests),
    decreases requests.len(),
{
    let last = requests.len() - 1;
    if i < last {
        lemma_wanted_bounds_each(requests.drop_last(), i);
    }
    lemma_spend_at_most_wanted(requests.drop_last(), 0);
}

/// A level that fits, above which nothing in `..=hi` fits, is the one
/// [`max_fitting`] finds.
pub proof fn lemma_max_fitting_is(requests: Seq<BudgetRequest>, total: int, hi: int, level: int)
    requires
        0 <= level <= hi,
        fits(requests, level, total),
        forall|l: int| level < l <= hi ==> !#[trigger] fits(requests, l, total),
    ensures
        max_fitting(requests, total, hi) == level,
    decreases hi,
{
    if hi > level {
        lemma_max_fitting_is(requests, total, hi - 1, level);
    }
}

/// Whether granting every request `min(wanted, level)` fits inside `total`.
///
/// The running sum saturates and stops the moment it passes the budget, so a
/// source asking for `usize::MAX` cannot wrap the arithmetic.
fn level_fits(requests: &[BudgetRequest], level: usize, total: usize) -> (b: bool)
    ensures
        b == fits(requests@, level as int, total as int),
{
    let mut spent: usize = 0;
    let mut i: usize = 0;
    while i < requests.len()
        invariant
            i <= requests@.len(),
            spent == min(spend(requests@.take(i as int), level as int), usize::MAX as int),
            spent <= total,
        decreases requests.len() - i,
    {
        let w = requests[i].wanted;
        let part = if w < level {
            w
        } else {
            level
        };
        assert(requests@.take(i + 1).drop_last() =~= requests@.take(i as int));
        spent = spent.saturating_add(part);
        if spent > total {
            proof {
                lemma_spend_prefix(requests@, level as int, i + 1);
            }
            return false;
        }
        i = i + 1;
    }
    assert(requests@.take(i as int) =~= requests@);
    true
}

/// A prefix spends no more than the whole.
proof fn lemma_spend_prefix(requests: Seq<BudgetRequest>, level: int, n: int)
    requires
        0 <= n <= requests.len(),
        level >= 0,
    ensures
        spend(requests.take(n), level) <= spend(requests, level),
    decreases requests.len() - n,
{
    if n < requests.len() {
        lemma_spend_prefix(requests, level, n + 1);
        assert(requests.take(n + 1).drop_last() =~= requests.take(n));
    } else {
        assert(requests.take(n) =~= requests);
    }
}

/// The largest equal share every source may draw without overspending.
///
/// The predicate is monotone in the level, so a binary search over
/// `0..=total` finds it without iterating the redistribution.
fn fair_share_level(requests: &[BudgetRequest], total: usize) -> (level: usize)
    ensures
        level == fair_level(requests@, total as int),
{
    proof {
        lemma_spend_zero(requests@);
    }
    let mut low: usize = 0;
    let mut high: usize = total;
    while low < high
        invariant
            low <= high <= total,
            fits(requests@, low as int, total as int),
            forall|l: int| high < l <= total ==> !#[trigger] fits(requests@, l, total as int),
        decreases high - low,
    {
        let gap = high - low;
        let mid = low + (gap / 2 + gap % 2);
        if level_fits(requests, mid, total) {
            low = mid;
        } else {
            assert forall|l: int| mid <= l <= total implies !#[trigger] fits(
                requests@,
                l,
                total as int,
            ) by {
                lemma_spend_monotone(requests@, mid as int, l);
            }
            high = mid - 1;
        }
    }
    proof {
        lemma_max_fitting_is(requests@, total as int, total as int, low as int);
    }
    low
}

/// Allocate a character budget across competing context sources.
///
/// Every source is offered `min(wanted, level)` at the max-min fair
/// [`fair_level`]. A source that gets all it asked for is whole; one that is
/// cut keeps its cut share when that is at least `min_useful_chars`, and is
/// dropped, carrying nothing, when it is not.
pub fn allocate_chars(requests: &[BudgetRequest], policy: &BudgetPolicy) -> (shares: Vec<
    BudgetShare,
>)
    ensures
        shares@.len() == requests@.len(),
        forall|i: int|
            0 <= i < shares@.len() ==> settles(
                #[trigger] shares@[i],
                requests@[i],
                fair_level(requests@, policy.total_chars as int),
                policy.min_useful_chars as int,
            ),
        // No source is granted more than it asked for.
        forall|i: int| 0 <= i < shares@.len() ==> #[trigger] shares@[i].granted <= requests@[i].wanted,
        // A source cut short gets at least as much as any other source.
        forall|i: int, j: int|
            0 <= i < shares@.len() && 0 <= j < shares@.len() && #[trigger] shares@[i].verdict
                == BudgetVerdict::Truncated ==> #[trigger] shares@[j].granted <= shares@[i].granted,
        // Equal claims are treated equally.
        forall|i: int, j: int|
            0 <= i < shares@.len() && 0 <= j < shares@.len() && requests@[i].wanted
                == requests@[j].wanted ==> #[trigger] shares@[i].granted
                == #[trigger] shares@[j].granted,
        // The grants fit the budget.
        policy.total_chars < usize::MAX ==> total_granted(shares@) <= policy.total_chars,
        // A budget that covers every claim cuts nobody.
        total_wanted(requests@) <= policy.total_chars ==> forall|i: int|
            0 <= i < shares@.len() ==> #[trigger] shares@[i].verdict == BudgetVerdict::Whole,
{
    let total = policy.total_chars;
    let level = fair_share_level(requests, total);
    let ghost fair = fair_level(requests@, total as int);
    proof {
        lemma_max_fitting_range(requests@, total as int, total as int);
        assert(requests@.take(0) =~= Seq::<BudgetRequest>::empty());
    }
    let mut shares: Vec<BudgetShare> = Vec::new();
    let mut i: usize = 0;
    while i < requests.len()
        invariant
            level == fair,
            0 <= fair <= total,
            fair == fair_level(requests@, total as int),
            total == policy.total_chars,
            i <= requests@.len(),
            shares@.len() == i,
            forall|k: int|
                0 <= k < i ==> settles(
                    #[trigger] shares@[k],
                    requests@[k],
                    fair,
                    policy.min_useful_chars as int,
                ),
            total_granted(shares@) <= spend(requests@.take(i as int), fair),
        decreases requests.len() - i,
    {
        let request = &requests[i];
        let cut = if request.wanted < level {
            request.wanted
        } else {
            level
        };
        let (granted, verdict) = if cut == request.wanted {
            (cut, BudgetVerdict::Whole)
        } else if cut < policy.min_useful_chars {
            (0, BudgetVerdict::Dropped)
        } else {
            (cut, BudgetVerdict::Truncated)
        };
        let share = BudgetShare {
            source_id: request.source_id.clone(),
            granted,
            omitted: request.wanted - granted,
            verdict,
        };
        let ghost before = shares@;
        shares.push(share);
        proof {
            assert(shares@.drop_last() =~= before);
            assert(requests@.take(i + 1).drop_last() =~= requests@.take(i as int));
        }
        i = i + 1;
    }
    proof {
        let r = requests@;
        assert(r.take(r.len() as int) =~= r);
        assert(0 <= fair <= total) by {
            lemma_max_fitting_range(r, total as int, total as int);
        }
        if total < usize::MAX {
            assert(fits(r, fair, total as int)) by {
                lemma_max_fitting_range(r, total as int, total as int);
                lemma_spend_zero(r);
            }
        }
        if total_wanted(r) <= total {
            assert forall|i: int| 0 <= i < shares@.len() implies #[trigger] shares@[i].verdict
                == BudgetVerdict::Whole by {
                lemma_spend_at_most_wanted(r, total as int);
                lemma_max_fitting_is(r, total as int, total as int, total as int);
                lemma_wanted_bounds_each(r, i);
            }
        }
    }
    shares
}

/// The fair level fits the budget, and no level above it up to the budget
/// does: it is the largest equal share every source may draw.
pub proof fn law_the_fair_level_is_the_largest_that_fits(requests: Seq<BudgetRequest>, total: usize)
    ensures
        0 <= fair_level(requests, total as int) <= total,
        fits(requests, fair_level(requests, total as int), total as int),
        forall|l: int|
            fair_level(requests, total as int) < l <= total ==> !#[trigger] fits(
                requests,
                l,
                total as int,
            ),
{
    lemma_max_fitting_range(requests, total as int, total as int);
    lemma_max_fitting_above(requests, total as int, total as int);
    lemma_spend_zero(requests);
}

/// `reordered` lists `requests` in another order: its entry `k` is entry
/// `perm[k]` of `requests`, and no entry of `requests` is taken twice.
pub open spec fn is_reordering(
    requests: Seq<BudgetRequest>,
    reordered: Seq<BudgetRequest>,
    perm: Seq<int>,
) -> bool {
    &&& reordered.len() == requests.len()
    &&& perm.len() == requests.len()
    &&& forall|k: int|
        0 <= k < perm.len() ==> 0 <= #[trigger] perm[k] < requests.len() && reordered[k]
            == requests[perm[k]]
    &&& forall|k: int, l: int| 0 <= k < l < perm.len() ==> #[trigger] perm[k] != #[trigger] perm[l]
}

/// The allocation does not depend on the order of the requests: the fair
/// level is the same for any reordering, so each source gets the same share
/// wherever it stands in the list.
pub proof fn law_reordering_the_requests_reorders_the_shares(
    requests: Seq<BudgetRequest>,
    reordered: Seq<BudgetRequest>,
    perm: Seq<int>,
    total: usize,
    min_useful: usize,
)
    requires
        is_reordering(requests, reordered, perm),
    ensures
        fair_level(reordered, total as int) == fair_level(requests, total as int),
        forall|k: int|
            0 <= k < reordered.len() ==> share_at(
                #[trigger] reordered[k],
                fair_level(reordered, total as int),
                min_useful as int,
            ) == share_at(requests[perm[k]], fair_level(requests, total as int), min_useful as int),
{
    lemma_max_fitting_reordered(requests, reordered, perm, total as int, total as int);
}

proof fn lemma_max_fitting_reordered(
    requests: Seq<BudgetRequest>,
    reordered: Seq<BudgetRequest>,
    perm: Seq<int>,
    total: int,
    hi: int,
)
    requires
        is_reordering(requests, reordered, perm),
    ensures
        max_fitting(reordered, total, hi) == max_fitting(requests, total, hi),
    decreases hi,
{
    if hi > 0 {
        lemma_spend_reordered(requests, reordered, perm, hi);
        lemma_max_fitting_reordered(requests, reordered, perm, total, hi - 1);
    }
}

/// Spend is a sum, so it does not depend on the order of the requests.
proof fn lemma_spend_reordered(
    requests: Seq<BudgetRequest>,
    reordered: Seq<BudgetRequest>,
    perm: Seq<int>,
    level: int,
)
    requires
        is_reordering(requests, reordered, perm),
    ensures
        spend(reordered, level) == spend(requests, level),
    decreases requests.len(),
{
    let n = requests.len() as int;
    if n > 0 {
        let p = perm[n - 1];
        let rest = requests.remove(p);
        let perm2 = Seq::new(
            (n - 1) as nat,
            |k: int|
                if perm[k] < p {
                    perm[k]
                } else {
                    perm[k] - 1
                },
        );
        assert forall|k: int| 0 <= k < perm2.len() implies 0 <= #[trigger] perm2[k] < rest.len()
            && reordered.drop_last()[k] == rest[perm2[k]] by {
            assert(perm[k] != perm[n - 1]);
        }
        assert forall|k: int, l: int| 0 <= k < l < perm2.len() implies #[trigger] perm2[k]
            != #[trigger] perm2[l] by {
            assert(perm[k] != perm[l]);
            assert(perm[k] != p);
            assert(perm[l] != p);
        }
        lemma_spend_reordered(rest, reordered.drop_last(), perm2, level);
        lemma_spend_remove(requests, p, level);
    }
}

/// Taking entry `i` out of the requests takes its term out of the spend.
proof fn lemma_spend_remove(requests: Seq<BudgetRequest>, i: int, level: int)
    requires
        0 <= i < requests.len(),
    ensures
        spend(requests, level) == spend(requests.remove(i), level) + min(
            requests[i].wanted as int,
            level,
        ),
    decreases requests.len(),
{
    let n = requests.len() as int;
    if i == n - 1 {
        assert(requests.remove(i) =~= requests.drop_last());
    } else {
        lemma_spend_remove(requests.drop_last(), i, level);
        assert(requests.drop_last().remove(i) =~= requests.remove(i).drop_last());
        assert(requests.remove(i).last() == requests.last());
    }
}

proof fn lemma_max_fitting_above(requests: Seq<BudgetRequest>, total: int, hi: int)
    requires
        hi >= 0,
    ensures
        forall|l: int|
            max_fitting(requests, total, hi) < l <= hi ==> !#[trigger] fits(requests, l, total),
    decreases hi,
{
    if hi > 0 && !fits(requests, hi, total) {
        lemma_max_fitting_above(requests, total, hi - 1);
    }
}

proof fn lemma_max_fitting_range(requests: Seq<BudgetRequest>, total: int, hi: int)
    requires
        hi >= 0,
    ensures
        0 <= max_fitting(requests, total, hi) <= hi,
        max_fitting(requests, total, hi) > 0 ==> fits(
            requests,
            max_fitting(requests, total, hi),
            total,
        ),
    decreases hi,
{
    if hi > 0 && !fits(requests, hi, total) {
        lemma_max_fitting_range(requests, total, hi - 1);
    }
}

} // verus!
