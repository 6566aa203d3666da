use stitchbot::adaptive::{AdaptiveEngine, Config};
use stitchbot::dag::{BlockInfo, RollingDag};
use stitchbot::orchestrator::{bps_estimate_milli, decide_stitch, healing_confirmed, process_block};

fn block(hash: &[u8], blue: u64, parents: &[&[u8]], ts: u64) -> BlockInfo {
    BlockInfo {
        hash: hash.to_vec(),
        blue_score: blue,
        parents: parents.iter().map(|p| p.to_vec()).collect(),
        timestamp: ts,
    }
}

fn config(adaptive: bool) -> Config {
    Config {
        adaptive,
        base_min_delta: 200,
        base_rate_limit: 10,
        base_reward_sompi: 100,
        max_reward_sompi: 500,
        min_rate_limit: 5,
        rpc_url: String::new(),
    }
}

#[test]
fn process_block_flags_orphans_and_feeds_the_engine() {
    let mut dag = RollingDag::new(20);
    let mut engine = AdaptiveEngine::new(config(true));
    assert!(!process_block(&mut dag, &mut engine, block(b"A", 10, &[], 100)));
    // convergence sample from the resident first parent
    assert!(!process_block(&mut dag, &mut engine, block(b"B", 11, &[b"A"], 130)));
    assert_eq!(engine.recent_convergence, vec![30]);
    assert_eq!(engine.recent_orphans, vec![false, false]);
    // low-blue side branch is judged an orphan
    assert!(!process_block(&mut dag, &mut engine, block(b"C", 20, &[b"A"], 150)));
    assert!(process_block(&mut dag, &mut engine, block(b"D", 1, &[b"A"], 160)));
    assert_eq!(engine.recent_orphans, vec![false, false, false, true]);
}

#[test]
fn process_block_skips_sample_for_nonresident_parent() {
    let mut dag = RollingDag::new(20);
    let mut engine = AdaptiveEngine::new(config(true));
    process_block(&mut dag, &mut engine, block(b"A", 1, &[b"unknown"], 100));
    assert_eq!(engine.recent_convergence.len(), 0);
    assert_eq!(engine.recent_orphans.len(), 1);
}

#[test]
fn decide_stitch_returns_sized_decision() {
    let mut dag = RollingDag::new(20);
    let mut engine = AdaptiveEngine::new(config(false));
    process_block(&mut dag, &mut engine, block(b"X", 100, &[], 0));
    process_block(&mut dag, &mut engine, block(b"Y", 105, &[b"X"], 1));
    process_block(&mut dag, &mut engine, block(b"Z", 350, &[b"X"], 2));
    for i in 0u8..7 {
        process_block(&mut dag, &mut engine, block(&[b'f', i], 1, &[], 3));
    }
    let d = decide_stitch(&dag, &engine, 200, 1000, 50).expect("fracture qualifies");
    assert_eq!(d.weak_block, b"X".to_vec());
    assert_eq!(d.tip_hashes, vec![b"Y".to_vec(), b"Z".to_vec()]);
    assert_eq!(d.blue_delta, 250);
    // engine disabled: the base reward is promised
    assert_eq!(d.reward_sompi, 100);
}

#[test]
fn decide_stitch_none_without_enough_nodes() {
    let mut dag = RollingDag::new(20);
    let mut engine = AdaptiveEngine::new(config(false));
    process_block(&mut dag, &mut engine, block(b"X", 100, &[], 0));
    process_block(&mut dag, &mut engine, block(b"Y", 105, &[b"X"], 1));
    process_block(&mut dag, &mut engine, block(b"Z", 350, &[b"X"], 2));
    assert!(decide_stitch(&dag, &engine, 200, 1000, 50).is_none());
}

#[test]
fn decide_stitch_gated_by_rate_limit() {
    let mut dag = RollingDag::new(20);
    let mut engine = AdaptiveEngine::new(config(true));
    process_block(&mut dag, &mut engine, block(b"X", 100, &[], 0));
    process_block(&mut dag, &mut engine, block(b"Y", 105, &[b"X"], 1));
    process_block(&mut dag, &mut engine, block(b"Z", 350, &[b"X"], 2));
    for i in 0u8..7 {
        process_block(&mut dag, &mut engine, block(&[b'f', i], 1, &[], 3));
    }
    let now = 1000;
    assert!(decide_stitch(&dag, &engine, 200, 1000, now).is_some());
    engine.record_stitch(now);
    // zero elapsed time: the adaptive gate refuses a second stitch
    assert!(decide_stitch(&dag, &engine, 200, 1000, now).is_none());
}

#[test]
fn bps_estimate_from_arrival_times() {
    // too few observations: one block per second
    assert_eq!(bps_estimate_milli(&Vec::new()), 1000);
    assert_eq!(bps_estimate_milli(&vec![5]), 1000);
    // four blocks over three seconds: 1.0 blocks per second
    assert_eq!(bps_estimate_milli(&vec![10, 11, 12, 13]), 1000);
    // eleven blocks over two seconds: 5.0 blocks per second
    let times: Vec<u64> = (0..11).map(|i| 100 + (i * 2) / 10).collect();
    assert_eq!(bps_estimate_milli(&times), 5000);
    // a zero span reads as one second
    assert_eq!(bps_estimate_milli(&vec![7, 7, 7]), 2000);
}

#[test]
fn healing_confirmed_requires_all_tips_covered() {
    let tips = vec![b"t1".to_vec(), b"t2".to_vec()];
    let exact = vec![b"t2".to_vec(), b"t1".to_vec()];
    let superset = vec![b"x".to_vec(), b"t1".to_vec(), b"t2".to_vec(), b"y".to_vec()];
    let missing = vec![b"t1".to_vec(), b"other".to_vec()];
    assert!(healing_confirmed(&tips, &exact));
    assert!(healing_confirmed(&tips, &superset));
    assert!(!healing_confirmed(&tips, &missing));
    assert!(healing_confirmed(&Vec::new(), &Vec::new()));
    assert!(!healing_confirmed(&tips, &Vec::new()));
}
