//! Behaviour of max-min fair character allocation.

use tinyhivemind::budget::{allocate_chars, BudgetPolicy, BudgetRequest, BudgetShare, BudgetVerdict};

fn tight(total: usize, min_useful: usize) -> BudgetPolicy {
    BudgetPolicy {
        total_chars: total,
        min_useful_chars: min_useful,
    }
}

fn granted(shares: &[BudgetShare]) -> Vec<(&str, usize)> {
    shares
        .iter()
        .map(|share| (share.source_id.as_str(), share.granted))
        .collect()
}

#[test]
fn grants_every_source_in_full_when_the_budget_covers_them() {
    let requests = [
        BudgetRequest::new("pins", 300),
        BudgetRequest::new("threads", 200),
    ];
    let shares = allocate_chars(&requests, &tight(1_000, 100));
    assert_eq!(granted(&shares), [("pins", 300), ("threads", 200)]);
    assert!(shares.iter().all(|share| share.omitted == 0));
    assert!(shares
        .iter()
        .all(|share| share.verdict == BudgetVerdict::Whole));
}

#[test]
fn splits_an_oversubscribed_budget_equally_between_equal_claims() {
    let requests = [
        BudgetRequest::new("pins", 1_000),
        BudgetRequest::new("threads", 1_000),
    ];
    let shares = allocate_chars(&requests, &tight(500, 200));
    assert_eq!(granted(&shares), [("pins", 250), ("threads", 250)]);
    assert!(shares.iter().all(|share| share.omitted == 750));
    assert!(shares
        .iter()
        .all(|share| share.verdict == BudgetVerdict::Truncated));
}

#[test]
fn redistributes_what_a_small_source_does_not_need() {
    let requests = [
        BudgetRequest::new("pins", 50),
        BudgetRequest::new("threads", 1_000),
        BudgetRequest::new("board", 1_000),
    ];
    let shares = allocate_chars(&requests, &tight(1_000, 100));
    assert_eq!(
        granted(&shares),
        [("pins", 50), ("threads", 475), ("board", 475)]
    );
    assert_eq!(shares[0].verdict, BudgetVerdict::Whole);
    assert_eq!(shares[1].omitted, 525);
}

#[test]
fn drops_a_source_cut_below_the_useful_floor_and_marks_what_it_omitted() {
    let requests = [
        BudgetRequest::new("threads", 1_000),
        BudgetRequest::new("pins", 100),
    ];
    let shares = allocate_chars(&requests, &tight(250, 200));
    assert_eq!(granted(&shares), [("threads", 0), ("pins", 100)]);
    assert_eq!(shares[0].verdict, BudgetVerdict::Dropped);
    assert_eq!(shares[0].omitted, 1_000);
    assert_eq!(shares[1].verdict, BudgetVerdict::Whole);
}

// ---------------------------------------------------------------------------
// Further cases.
// ---------------------------------------------------------------------------

#[test]
fn nothing_to_allocate_yields_no_shares() {
    assert!(allocate_chars(&[], &tight(100, 10)).is_empty());
}

#[test]
fn a_zero_budget_drops_every_claim_it_cannot_cover() {
    let requests = [BudgetRequest::new("pins", 10), BudgetRequest::new("empty", 0)];
    let shares = allocate_chars(&requests, &tight(0, 1));
    assert_eq!(shares[0].verdict, BudgetVerdict::Dropped);
    assert_eq!(shares[0].omitted, 10);
    assert_eq!(shares[1].verdict, BudgetVerdict::Whole);
}

#[test]
fn the_level_is_the_largest_that_fits_an_odd_budget() {
    // Level 333 spends 999 of 1_000; 334 would spend 1_002.
    let requests = [
        BudgetRequest::new("a", 1_000),
        BudgetRequest::new("b", 1_000),
        BudgetRequest::new("c", 1_000),
    ];
    let shares = allocate_chars(&requests, &tight(1_000, 0));
    assert_eq!(granted(&shares), [("a", 333), ("b", 333), ("c", 333)]);
}

#[test]
fn a_claim_of_usize_max_does_not_wrap() {
    let requests = [
        BudgetRequest::new("huge", usize::MAX),
        BudgetRequest::new("small", 10),
    ];
    let shares = allocate_chars(&requests, &tight(100, 0));
    assert_eq!(granted(&shares), [("huge", 90), ("small", 10)]);
    assert_eq!(shares[0].omitted, usize::MAX - 90);
}

#[test]
fn reordering_the_requests_reorders_the_shares() {
    let requests = [
        BudgetRequest::new("pins", 90),
        BudgetRequest::new("threads", 400),
        BudgetRequest::new("digest", 250),
    ];
    let reordered = [
        requests[2].clone(),
        requests[0].clone(),
        requests[1].clone(),
    ];
    let policy = tight(500, 100);
    let shares = allocate_chars(&requests, &policy);
    let moved = allocate_chars(&reordered, &policy);
    assert_eq!(moved[0], shares[2]);
    assert_eq!(moved[1], shares[0]);
    assert_eq!(moved[2], shares[1]);
    assert_eq!(granted(&shares), [("pins", 90), ("threads", 205), ("digest", 205)]);
}
