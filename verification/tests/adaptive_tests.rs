use stitchbot::adaptive::{AdaptiveEngine, Config};

fn config() -> Config {
    Config {
        adaptive: true,
        base_min_delta: 200,
        base_rate_limit: 10,
        base_reward_sompi: 100,
        max_reward_sompi: 500,
        min_rate_limit: 5,
        rpc_url: String::new(),
    }
}

#[test]
fn fresh_engine_is_empty() {
    let engine = AdaptiveEngine::new(config());
    assert_eq!(engine.recent_convergence.len(), 0);
    assert_eq!(engine.recent_orphans.len(), 0);
    assert_eq!(engine.last_stitch, 0);
    assert_eq!(engine.orphan_rate(), 0);
}

#[test]
fn update_block_records_convergence_and_orphans() {
    let mut engine = AdaptiveEngine::new(config());
    engine.update_block(20, Some(10), true);
    assert_eq!(engine.recent_convergence, vec![10]);
    assert_eq!(engine.recent_orphans, vec![true]);
    // missing parent timestamp skips the sample, never fails
    engine.update_block(30, None, false);
    assert_eq!(engine.recent_convergence, vec![10]);
    assert_eq!(engine.recent_orphans, vec![true, false]);
    // parent younger than the block saturates at zero
    engine.update_block(5, Some(50), false);
    assert_eq!(engine.recent_convergence, vec![10, 0]);
}

#[test]
fn convergence_ring_evicts_oldest_beyond_cap() {
    let mut engine = AdaptiveEngine::new(config());
    for i in 0u64..105 {
        engine.update_block(2 * i, Some(i), false);
    }
    assert_eq!(engine.recent_convergence.len(), 100);
    assert_eq!(engine.recent_convergence[0], 5);
    assert_eq!(engine.recent_convergence[99], 104);
}

#[test]
fn orphan_rate_is_fraction_in_milli() {
    let mut engine = AdaptiveEngine::new(config());
    engine.update_block(1, None, true);
    engine.update_block(2, None, false);
    engine.update_block(3, None, false);
    engine.update_block(4, None, true);
    assert_eq!(engine.orphan_rate(), 500);
}

#[test]
fn sus_exact_value() {
    let mut engine = AdaptiveEngine::new(config());
    engine.update_block(20, Some(10), true);
    // avg conv 10 -> term 1.0; orphan rate 1.0 -> term 100; delta term 1.0;
    // load term 1.0: stress 100.0
    assert_eq!(engine.sus(1000, 0), 100_000);
}

#[test]
fn sus_is_zero_with_no_orphans() {
    let mut engine = AdaptiveEngine::new(config());
    engine.update_block(20, Some(10), false);
    assert_eq!(engine.sus(1_000_000, 10_000), 0);
}

#[test]
fn sus_monotone_in_blue_delta_samples() {
    let mut engine = AdaptiveEngine::new(config());
    engine.update_block(20, Some(10), true);
    let mut last = 0;
    for delta in [0u64, 1, 10, 1000, 100_000, 10_000_000] {
        let s = engine.sus(delta, 2000);
        assert!(s >= last);
        last = s;
    }
}

#[test]
fn sus_monotone_in_orphan_rate_samples() {
    let mut low = AdaptiveEngine::new(config());
    let mut high = AdaptiveEngine::new(config());
    low.update_block(20, Some(10), false);
    low.update_block(30, Some(20), true);
    high.update_block(20, Some(10), true);
    high.update_block(30, Some(20), true);
    assert!(low.sus(5000, 1000) <= high.sus(5000, 1000));
}

#[test]
fn reward_formula_scenario() {
    let engine = AdaptiveEngine::new(config());
    // stress 2.0, base 100, max 500: 100 + 100 * 2 = 300
    assert_eq!(engine.reward(2000), 300);
}

#[test]
fn reward_clamped_to_max() {
    let engine = AdaptiveEngine::new(config());
    assert_eq!(engine.reward(100_000), 500);
}

#[test]
fn reward_monotone_samples() {
    let engine = AdaptiveEngine::new(config());
    let mut last = 0;
    for sus in [0u64, 500, 1000, 2000, 4000, 6000, 8000, 1_000_000] {
        let r = engine.reward(sus);
        assert!(r >= last);
        assert!(r <= 500);
        last = r;
    }
}

#[test]
fn should_stitch_passes_with_clear_gap_and_elapsed_time() {
    let engine = AdaptiveEngine::new(config());
    // no stress: threshold is the base 200, rate limit 10s since epoch
    assert!(engine.should_stitch(200, 1000, 100));
    assert!(!engine.should_stitch(199, 1000, 100));
}

#[test]
fn no_second_stitch_with_zero_elapsed_time() {
    let mut engine = AdaptiveEngine::new(config());
    let now = 1_000_000;
    assert!(engine.should_stitch(10_000, 1000, now));
    engine.record_stitch(now);
    assert_eq!(engine.last_stitch, now);
    // positive rate-limit floor: an immediate retry is refused
    assert!(!engine.should_stitch(10_000, 1000, now));
    // once the floor has elapsed it may pass again
    assert!(engine.should_stitch(10_000, 1000, now + 10));
}
