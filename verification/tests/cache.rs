use fallow::cache::estimated_eviction_budget;

#[test]
fn eviction_budget_scales_and_applies_safety() {
    // 1000 remaining * 50 target / 100 encoded = 500; 98% of it is 490.
    assert_eq!(estimated_eviction_budget(1000, 50, 100, 9_800), 490);
    assert_eq!(estimated_eviction_budget(1000, 50, 100, 10_000), 500);
    // The safety margin is capped at 100%.
    assert_eq!(estimated_eviction_budget(1000, 50, 100, 20_000), 500);
    assert_eq!(estimated_eviction_budget(1000, 50, 100, 0), 0);
    // Floor of the scaled value, then floor of the margin: 7 * 3 / 2 = 10,
    // 10 * 9_999 / 10_000 = 9.
    assert_eq!(estimated_eviction_budget(7, 3, 2, 9_999), 9);
}

#[test]
fn eviction_budget_edges() {
    assert_eq!(estimated_eviction_budget(123, 456, 0, 9_800), 0);
    // No overflow at the extremes: the product is taken in 128 bits.
    assert_eq!(
        estimated_eviction_budget(usize::MAX, usize::MAX, usize::MAX, 10_000),
        usize::MAX
    );
    assert_eq!(estimated_eviction_budget(usize::MAX, usize::MAX, 1, 10_000), usize::MAX);
    assert_eq!(
        estimated_eviction_budget(usize::MAX, 2, 4, 5_000),
        ((usize::MAX as u128 * 2 / 4) * 5_000 / 10_000) as usize
    );
}

use fallow::cache::{sort_for_eviction, EvictionCandidate, EvictionPlan, EvictionStage};

fn candidate(age: u64, key: &str, bytes: usize) -> EvictionCandidate {
    EvictionCandidate { last_access_secs: age, key: key.to_string(), estimated_bytes: bytes }
}

#[test]
fn candidate_estimate_adds_key_length() {
    assert_eq!(EvictionCandidate::new(7, "ab".to_string(), 10).estimated_bytes, 12);
    // Never zero, and saturating.
    assert_eq!(EvictionCandidate::new(7, String::new(), 0).estimated_bytes, 1);
    assert_eq!(EvictionCandidate::new(7, "xyz".to_string(), usize::MAX - 1).estimated_bytes, usize::MAX);
    // The key length is counted in bytes.
    assert_eq!(EvictionCandidate::new(7, "é".to_string(), 1).estimated_bytes, 3);
}

#[test]
fn eviction_order_is_oldest_then_key_then_size() {
    let cands = vec![
        candidate(30, "c", 1),
        candidate(10, "b", 5),
        candidate(10, "a", 9),
        candidate(20, "z", 1),
        candidate(10, "a", 2),
    ];
    let sorted = sort_for_eviction(&cands);
    let seen: Vec<(u64, &str, usize)> =
        sorted.iter().map(|c| (c.last_access_secs, c.key.as_str(), c.estimated_bytes)).collect();
    assert_eq!(seen, vec![(10, "a", 2), (10, "a", 9), (10, "b", 5), (20, "z", 1), (30, "c", 1)]);
}

#[test]
fn eviction_first_pass_evicts_oldest_within_scaled_budget() {
    let cands = vec![candidate(3, "new", 100), candidate(1, "old", 100), candidate(2, "mid", 100)];
    let mut plan = EvictionPlan::new(&cands, 150);
    // Encoded 300 > 150: budget 300 * 150 / 300 at 98% = 147; evict oldest
    // until the estimate (300, 200, 100) is within it, keeping the newest.
    let keys = plan.step(300).unwrap();
    assert_eq!(keys, vec!["old".to_string(), "mid".to_string()]);
    assert_eq!(plan.remaining_entries(), 1);
    assert_eq!(plan.current_stage(), EvictionStage::Refine);
    // Now it fits: done.
    assert_eq!(plan.step(100), None);
    assert_eq!(plan.current_stage(), EvictionStage::Done);
    assert_eq!(plan.step(1_000), None);
}

#[test]
fn eviction_under_target_evicts_nothing() {
    let cands = vec![candidate(1, "a", 10), candidate(2, "b", 10)];
    let mut plan = EvictionPlan::new(&cands, 100);
    assert_eq!(plan.step(100), None);
    assert_eq!(plan.remaining_entries(), 2);
    assert_eq!(plan.current_stage(), EvictionStage::Done);
}

#[test]
fn eviction_single_entry_is_kept_even_over_target() {
    let cands = vec![candidate(1, "only", 10_000)];
    let mut plan = EvictionPlan::new(&cands, 10);
    assert_eq!(plan.step(10_000), None);
    assert_eq!(plan.remaining_entries(), 1);
}

#[test]
fn eviction_pass_evicts_at_least_one_entry() {
    // Estimates say nothing needs to go, but the encoding is over: a
    // byte-aware pass still evicts the oldest entry.
    let cands = vec![candidate(1, "a", 0), candidate(2, "b", 0), candidate(3, "c", 0)];
    let mut plan = EvictionPlan::new(&cands, 1_000);
    assert_eq!(plan.step(2_000).unwrap(), vec!["a".to_string()]);
    assert_eq!(plan.step(2_000).unwrap(), vec!["b".to_string()]);
    assert_eq!(plan.remaining_entries(), 1);
    assert_eq!(plan.step(2_000), None);
}

#[test]
fn eviction_falls_back_to_conservative_then_exact() {
    // Five entries, estimates far below the real encoding.
    let cands = vec![
        candidate(1, "a", 1),
        candidate(2, "b", 1),
        candidate(3, "c", 1),
        candidate(4, "d", 1),
        candidate(5, "e", 1),
    ];
    let mut plan = EvictionPlan::new(&cands, 100);
    // Two byte-aware passes: budget 5 * 100 / 1000 at 98% = 0 and
    // 4 * 100 / 1000 = 0, so each evicts down to the newest... the first pass
    // already leaves only "e".
    let first = plan.step(1_000).unwrap();
    assert_eq!(first, vec!["a".to_string(), "b".to_string(), "c".to_string(), "d".to_string()]);
    assert_eq!(plan.step(1_000), None);

    // With generous estimates the passes evict one at a time, then the
    // conservative pass aims at half the target, then the last resort.
    let cands = vec![
        candidate(1, "a", 10),
        candidate(2, "b", 10),
        candidate(3, "c", 10),
        candidate(4, "d", 10),
        candidate(5, "e", 10),
    ];
    let mut plan = EvictionPlan::new(&cands, 100);
    // Budget 50 * 100 / 101 = 49 at 98% = 48: evict "a" (50 -> 40).
    assert_eq!(plan.step(101).unwrap(), vec!["a".to_string()]);
    // Budget 40 * 100 / 101 = 39 at 98% = 38: evict "b" (40 -> 30).
    assert_eq!(plan.step(101).unwrap(), vec!["b".to_string()]);
    // Conservative: half the target is 50 >= 30, nothing to evict.
    assert_eq!(plan.step(101).unwrap(), Vec::<String>::new());
    assert_eq!(plan.current_stage(), EvictionStage::Exact);
    // Last resort: everything but the newest.
    assert_eq!(plan.step(101).unwrap(), vec!["c".to_string(), "d".to_string()]);
    assert_eq!(plan.remaining_entries(), 1);
    assert_eq!(plan.step(101), None);
}
