use lazy_mcts::ops::{isqrt_fp, log2_fixed};
use lazy_mcts::{uct_value, FINE_SCALE, SCALE};

#[test]
fn test_uct_value() {
    let c: u64 = (2.0_f64.sqrt() * SCALE as f64) as u64;
    let r = uct_value(500, 0, 10, c);
    assert!((r as f64 / FINE_SCALE as f64 - 1.339088).abs() < 0.00001);
}

#[test]
fn test_uct_pure_exploitation() {
    // Mean reward 1, no exploration: the score is exactly 1.0 in fixed point.
    assert_eq!(uct_value(1, 1, 1, 0), FINE_SCALE);
    // Mean reward 3, no exploration.
    assert_eq!(uct_value(2, 6, 2, 0), 3 * FINE_SCALE);
}

#[test]
fn test_uct_strict_in_rewards_at_huge_visit_counts() {
    // the fine scale outresolves the visit count: a single unit of reward
    // still raises the score when two billion visits have accumulated
    let n: u32 = 2_000_000_000;
    let c: u64 = (2.0_f64.sqrt() * SCALE as f64) as u64;
    let low = uct_value(n, 0, n, c);
    let high = uct_value(n, 1, n, c);
    assert!(low < high);
}

#[test]
fn test_uct_zero_when_nothing_seen() {
    // log2(1) is 0, so a fully unexplored tree scores 0 with reward sum 0.
    assert_eq!(uct_value(1, 0, 1, 1_414_213_562), 0);
}

#[test]
fn test_isqrt_small_values() {
    assert_eq!(isqrt_fp(0), 0);
    assert_eq!(isqrt_fp(1), 1);
    assert_eq!(isqrt_fp(10), 3);
    assert_eq!(isqrt_fp(16), 4);
    assert_eq!(isqrt_fp(1_000_000_000_000_000_000), 1_000_000_000);
}

#[test]
fn test_log2_fixed_exact_powers() {
    assert_eq!(log2_fixed(1), 0);
    assert_eq!(log2_fixed(2), SCALE);
    assert_eq!(log2_fixed(4), 2 * SCALE);
    assert_eq!(log2_fixed(1024), 10 * SCALE);
}

#[test]
fn test_log2_fixed_fraction() {
    let r = log2_fixed(500);
    assert!((r as f64 / SCALE as f64 - 8.965784).abs() < 0.00001);
    let r3 = log2_fixed(3);
    assert!((r3 as f64 / SCALE as f64 - 1.584963).abs() < 0.00001);
}
