use stitchbot::dag::{BlockInfo, RollingDag};

fn block(hash: &[u8], blue: u64, parents: &[&[u8]], ts: u64) -> BlockInfo {
    BlockInfo {
        hash: hash.to_vec(),
        blue_score: blue,
        parents: parents.iter().map(|p| p.to_vec()).collect(),
        timestamp: ts,
    }
}

fn has_hash(dag: &RollingDag, h: &[u8]) -> bool {
    dag.nodes.iter().any(|n| n.info.hash == h)
}

#[test]
fn live_count_follows_min_of_inserts_and_capacity() {
    let mut dag = RollingDag::new(3);
    for i in 0u64..10 {
        let expected = std::cmp::min(i as usize, 3);
        assert_eq!(dag.node_count(), expected);
        dag.add_block(block(&[i as u8], i, &[], i));
    }
    assert_eq!(dag.node_count(), 3);
}

#[test]
fn eviction_scenario_capacity_three() {
    let mut dag = RollingDag::new(3);
    dag.add_block(block(b"A", 0, &[], 0));
    dag.add_block(block(b"B", 1, &[b"A"], 1));
    dag.add_block(block(b"C", 2, &[b"B"], 2));
    assert!(has_hash(&dag, b"A"));
    let a_id = dag.nodes[0].id;
    assert!(dag.edges.iter().any(|e| e.from == a_id));
    dag.add_block(block(b"D", 3, &[b"C"], 3));
    assert_eq!(dag.node_count(), 3);
    assert!(!has_hash(&dag, b"A"));
    assert!(has_hash(&dag, b"B"));
    assert!(has_hash(&dag, b"C"));
    assert!(has_hash(&dag, b"D"));
    assert!(!dag.edges.iter().any(|e| e.from == a_id || e.to == a_id));
}

#[test]
fn evicted_hash_gone_and_edges_pruned() {
    let mut dag = RollingDag::new(2);
    dag.add_block(block(b"old", 0, &[], 0));
    dag.add_block(block(b"mid", 1, &[b"old"], 1));
    assert_eq!(dag.edges.len(), 1);
    dag.add_block(block(b"new", 2, &[b"mid"], 2));
    assert!(!has_hash(&dag, b"old"));
    assert_eq!(dag.node_count(), 2);
    assert_eq!(dag.edges.len(), 1);
    let mid_id = dag.nodes[0].id;
    let new_id = dag.nodes[1].id;
    assert_eq!(dag.edges[0].from, mid_id);
    assert_eq!(dag.edges[0].to, new_id);
}

#[test]
fn nonresident_parents_are_dropped() {
    let mut dag = RollingDag::new(5);
    dag.add_block(block(b"X", 7, &[b"nowhere", b"gone"], 0));
    assert_eq!(dag.node_count(), 1);
    assert_eq!(dag.edges.len(), 0);
}

#[test]
fn duplicate_hash_creates_second_node_and_shadows_older() {
    let mut dag = RollingDag::new(5);
    dag.add_block(block(b"dup", 1, &[], 0));
    dag.add_block(block(b"dup", 9, &[], 1));
    assert_eq!(dag.node_count(), 2);
    // a child naming the duplicated hash links to the newest node
    dag.add_block(block(b"kid", 10, &[b"dup"], 2));
    let newest_dup_id = dag.nodes[1].id;
    assert_eq!(dag.edges.len(), 1);
    assert_eq!(dag.edges[0].from, newest_dup_id);
}

#[test]
fn chain_membership_on_a_straight_chain() {
    let mut dag = RollingDag::new(10);
    dag.add_block(block(b"A", 0, &[], 0));
    dag.add_block(block(b"B", 1, &[b"A"], 1));
    dag.add_block(block(b"C", 2, &[b"B"], 2));
    assert!(dag.is_in_selected_chain(&b"A".to_vec()));
    assert!(dag.is_in_selected_chain(&b"B".to_vec()));
    assert!(dag.is_in_selected_chain(&b"C".to_vec()));
}

#[test]
fn chain_membership_rejects_low_blue_side_branch() {
    let mut dag = RollingDag::new(10);
    dag.add_block(block(b"A", 10, &[], 0));
    dag.add_block(block(b"B", 1, &[b"A"], 1));
    dag.add_block(block(b"C", 20, &[b"A"], 2));
    // from B the walk climbs to A (higher blue), then descends to C and
    // dead-ends there: B is off the selected chain
    assert!(!dag.is_in_selected_chain(&b"B".to_vec()));
    assert!(dag.is_in_selected_chain(&b"C".to_vec()));
}

#[test]
fn chain_membership_of_unknown_block_is_false_and_deterministic() {
    let mut dag = RollingDag::new(10);
    dag.add_block(block(b"A", 0, &[], 0));
    let first = dag.is_in_selected_chain(&b"missing".to_vec());
    let second = dag.is_in_selected_chain(&b"missing".to_vec());
    assert!(!first);
    assert_eq!(first, second);
}

#[test]
fn chain_membership_total_when_parents_nonresident() {
    let mut dag = RollingDag::new(10);
    dag.add_block(block(b"lonely", 5, &[b"ghost1", b"ghost2"], 0));
    // parents never resident: no edges, the walk starts and ends at the node
    assert!(dag.is_in_selected_chain(&b"lonely".to_vec()));
}

#[test]
fn find_fracture_refuses_below_ten_nodes() {
    let mut dag = RollingDag::new(20);
    // a branch that would qualify, but only nine nodes
    dag.add_block(block(b"X", 100, &[], 0));
    dag.add_block(block(b"Y", 105, &[b"X"], 1));
    dag.add_block(block(b"Z", 350, &[b"X"], 2));
    for i in 0u8..6 {
        dag.add_block(block(&[b'f', i], 1, &[], 3));
    }
    assert_eq!(dag.node_count(), 9);
    assert!(dag.find_fracture(0).is_none());
}

#[test]
fn find_fracture_branch_scenario() {
    let mut dag = RollingDag::new(20);
    dag.add_block(block(b"X", 100, &[], 0));
    dag.add_block(block(b"Y", 105, &[b"X"], 1));
    dag.add_block(block(b"Z", 350, &[b"X"], 2));
    for i in 0u8..7 {
        dag.add_block(block(&[b'f', i], 1, &[], 3));
    }
    assert_eq!(dag.node_count(), 10);
    // Z's gap of 250 qualifies the candidate at min_delta 200
    let (weak, tips) = dag.find_fracture(200).expect("fracture expected");
    let x_id = dag.nodes[0].id;
    let y_id = dag.nodes[1].id;
    let z_id = dag.nodes[2].id;
    assert_eq!(weak, x_id);
    assert_eq!(tips, vec![y_id, z_id]);
    // a threshold above the gap disqualifies it
    assert!(dag.find_fracture(251).is_none());
}

#[test]
fn select_fracture_ranks_by_weight_then_small_gap() {
    let mut dag = RollingDag::new(20);
    dag.add_block(block(b"X1", 100, &[], 0));
    dag.add_block(block(b"A", 350, &[b"X1"], 1));
    dag.add_block(block(b"B", 105, &[b"X1"], 2));
    dag.add_block(block(b"X2", 100, &[], 3));
    dag.add_block(block(b"C", 400, &[b"X2"], 4));
    dag.add_block(block(b"D", 105, &[b"X2"], 5));
    let x1 = dag.nodes[0].id;
    let x2 = dag.nodes[3].id;
    // equal weights: the smaller gap (X1's 250 against X2's 300) wins
    let flat = vec![0u64; 6];
    let (weak, tips) = dag.select_fracture(&flat, 200).expect("two candidates");
    assert_eq!(weak, x1);
    assert_eq!(tips, vec![dag.nodes[1].id, dag.nodes[2].id]);
    // a higher centrality weight overrides the gap tie-break
    let weighted = vec![0, 0, 0, 1, 0, 0];
    let (weak2, tips2) = dag.select_fracture(&weighted, 200).expect("two candidates");
    assert_eq!(weak2, x2);
    assert_eq!(tips2, vec![dag.nodes[4].id, dag.nodes[5].id]);
    // nothing qualifies above both gaps
    assert!(dag.select_fracture(&flat, 301).is_none());
}

#[test]
fn find_fracture_needs_two_children() {
    let mut dag = RollingDag::new(20);
    dag.add_block(block(b"X", 0, &[], 0));
    dag.add_block(block(b"Y", 500, &[b"X"], 1));
    for i in 0u8..8 {
        dag.add_block(block(&[b'f', i], 1, &[], 2));
    }
    assert_eq!(dag.node_count(), 10);
    assert!(dag.find_fracture(0).is_none());
}
