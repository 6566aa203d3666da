//! Per-block decision pipeline of the event loop: window update,
//! orphan check and engine update for each notified block, and the
//! gated stitch decision that sizes the payout. The surrounding loop —
//! receiving notifications, broadcasting envelopes, spawning
//! confirmation watchers — performs I/O and lives outside the library;
//! it feeds plain values in and carries plain values out.

use crate::adaptive::{push_ring, reward_spec, sat64, AdaptiveEngine, MILLI};
use crate::bytes::clone_bytes;
use crate::dag::{children_of, find_newest, BlockInfo, RollingDag, MIN_FRACTURE_NODES};
use vstd::prelude::*;

verus! {

/// Everything the loop needs to broadcast one stitch: the fracture's
/// branch node, the tips a healing block must reference, and the
/// sized payout.
pub struct StitchDecision {
    /// Hash of the branch node under the fracture.
    pub weak_block: Vec<u8>,
    /// Hashes of the divergent tips, in edge order.
    pub tip_hashes: Vec<Vec<u8>>,
    /// Blue-score gap that qualified the fracture.
    pub blue_delta: u64,
    /// Stress score the decision was made at, in milli-units.
    pub sus_milli: u64,
    /// Payout to promise, in sompi.
    pub reward_sompi: u64,
}

/// The hashes of the given live nodes, in order.
pub open spec fn hashes_of(dag: RollingDag, ids: Seq<u64>) -> Seq<Seq<u8>> {
    ids.map_values(|id: u64| dag.node_of(id).info.hash@)
}

/// Whether a stitch may go out now: the adaptive gate when the engine
/// is enabled, always otherwise.
pub open spec fn stitch_allowed(
    engine: AdaptiveEngine,
    blue_delta: u64,
    bps_milli: u64,
    now: u64,
) -> bool {
    if engine.config.adaptive {
        engine.should_stitch_spec(blue_delta, bps_milli, now)
    } else {
        true
    }
}

/// The stress score a decision uses: the engine's when enabled, the
/// neutral value of one otherwise.
pub open spec fn sus_used(engine: AdaptiveEngine, blue_delta: u64, bps_milli: u64) -> u64 {
    if engine.config.adaptive {
        engine.sus_spec(blue_delta, bps_milli)
    } else {
        MILLI
    }
}

/// The payout a decision uses: adaptively sized when the engine is
/// enabled, the configured base amount otherwise.
pub open spec fn reward_used(engine: AdaptiveEngine, blue_delta: u64, bps_milli: u64) -> u64 {
    if engine.config.adaptive {
        reward_spec(
            engine.config.base_reward_sompi,
            engine.config.max_reward_sompi,
            sus_used(engine, blue_delta, bps_milli),
        )
    } else {
        engine.config.base_reward_sompi
    }
}

/// A decision correctly derived from the fracture at the given branch
/// node.
pub open spec fn decision_for(
    dag: RollingDag,
    engine: AdaptiveEngine,
    id: u64,
    fracture_min_delta: u64,
    bps_milli: u64,
    now: u64,
    d: StitchDecision,
) -> bool {
    &&& dag.has_id(id)
    &&& dag.is_candidate(id, fracture_min_delta)
    &&& d.weak_block@ == dag.node_of(id).info.hash@
    &&& d.tip_hashes.deep_view() == hashes_of(dag, children_of(dag.edges@, id))
    &&& d.blue_delta == dag.delta_of(id)
    &&& d.sus_milli == sus_used(engine, d.blue_delta, bps_milli)
    &&& d.reward_sompi == reward_used(engine, d.blue_delta, bps_milli)
    &&& stitch_allowed(engine, d.blue_delta, bps_milli, now)
}

/// Some branch node explains this decision.
pub open spec fn decision_ok(
    dag: RollingDag,
    engine: AdaptiveEngine,
    fracture_min_delta: u64,
    bps_milli: u64,
    now: u64,
    d: StitchDecision,
) -> bool {
    exists|id: u64| #[trigger] decision_for(dag, engine, id, fracture_min_delta, bps_milli, now, d)
}

/// Run one notified block through the pipeline: insert it into the
/// window, judge it against the local chain heuristic, and feed the
/// engine the orphan flag and — when the block's first parent is
/// resident after the insert — the saturating convergence time.
/// Returns whether the block was judged an orphan.
pub fn process_block(dag: &mut RollingDag, engine: &mut AdaptiveEngine, block: BlockInfo) -> (r:
    bool)
    requires
        old(dag).wf(),
        old(dag).capacity >= 1,
        old(dag).next_id < u64::MAX,
        old(engine).wf(),
    ensures
        final(dag).wf(),
        final(engine).wf(),
        r == !final(dag).in_chain_spec(block.hash@),
        final(engine).recent_orphans@ == push_ring(
            old(engine).recent_orphans@,
            r,
            crate::adaptive::ORPHAN_CAP as int,
        ),
        final(engine).recent_convergence@ == if block.parents@.len() == 0 {
            old(engine).recent_convergence@
        } else {
            match find_newest(final(dag).nodes@, block.parents@[0]@) {
                None => old(engine).recent_convergence@,
                Some(pid) => push_ring(
                    old(engine).recent_convergence@,
                    sat64(block.timestamp - final(dag).node_of(pid).info.timestamp),
                    crate::adaptive::CONV_CAP as int,
                ),
            }
        },
        final(engine).last_stitch == old(engine).last_stitch,
        final(engine).config == old(engine).config,
        final(dag).capacity == old(dag).capacity,
        final(dag).next_id == old(dag).next_id + 1,
    {
        let block_hash = clone_bytes(&block.hash);
        let first_parent: Option<Vec<u8>> = if block.parents.len() > 0 {
            Some(clone_bytes(&block.parents[0]))
        } else {
            None
        };
        let block_ts = block.timestamp;
        dag.add_block(block);
        let is_orphan = !dag.is_in_selected_chain(&block_hash);
        let parent_ts: Option<u64> = match first_parent {
            None => None,
            Some(ph) => match dag.find_index_by_hash(&ph) {
                None => None,
                Some(i) => {
                    proof {
                        dag.lemma_node_of(i as int);
                    }
                    Some(dag.nodes[i].info.timestamp)
                },
            },
        };
        engine.update_block(block_ts, parent_ts, is_orphan);
        is_orphan
    }

/// Decide whether to broadcast a stitch right now: search the window
/// for a fracture, gate it through the adaptive engine, and size the
/// payout. The branch node returned is the fracture search's ranked
/// choice among the eligible candidates.
pub fn decide_stitch(
    dag: &RollingDag,
    engine: &AdaptiveEngine,
    fracture_min_delta: u64,
    bps_milli: u64,
    now: u64,
) -> (r: Option<StitchDecision>)
    requires
        dag.wf(),
        engine.wf(),
    ensures
        r matches Some(d) ==> decision_ok(*dag, *engine, fracture_min_delta, bps_milli, now, d),
        r is None ==> {
            ||| dag.nodes@.len() < MIN_FRACTURE_NODES
            ||| (forall|i: int|
                0 <= i < dag.nodes@.len() ==> !dag.is_candidate(
                    #[trigger] dag.nodes@[i].id,
                    fracture_min_delta,
                ))
            ||| (exists|id: u64|
                #[trigger] dag.is_candidate(id, fracture_min_delta) && !stitch_allowed(
                    *engine,
                    dag.delta_of(id),
                    bps_milli,
                    now,
                ))
        },
{
    let (weak_id, tips) = match dag.find_fracture(fracture_min_delta) {
        None => {
            return None;
        },
        Some(p) => p,
    };
    proof {
        crate::dag::lemma_children_live(*dag, weak_id);
    }
    let top = dag.max_blue_exec(&tips);
    let wi = match dag.find_index_by_id(weak_id) {
        Some(i) => i,
        None => {
            proof {
                assert(false);
            }
            return None;
        },
    };
    proof {
        dag.lemma_node_of(wi as int);
    }
    let weak_blue = dag.nodes[wi].info.blue_score;
    let blue_delta: u64 = if top >= weak_blue {
        top - weak_blue
    } else {
        0
    };
    let allowed = if engine.config.adaptive {
        engine.should_stitch(blue_delta, bps_milli, now)
    } else {
        true
    };
    if !allowed {
        proof {
            assert(blue_delta == dag.delta_of(weak_id));
            assert(dag.is_candidate(weak_id, fracture_min_delta) && !stitch_allowed(
                *engine,
                dag.delta_of(weak_id),
                bps_milli,
                now,
            ));
        }
        return None;
    }
    let sus_milli = if engine.config.adaptive {
        engine.sus(blue_delta, bps_milli)
    } else {
        MILLI
    };
    let reward_sompi = if engine.config.adaptive {
        engine.reward(sus_milli)
    } else {
        engine.config.base_reward_sompi
    };
    let weak_block = clone_bytes(&dag.nodes[wi].info.hash);
    let tn = tips.len();
    let mut tip_hashes: Vec<Vec<u8>> = Vec::new();
    let mut j: usize = 0;
    while j < tn
        invariant
            j <= tn,
            dag.wf(),
            tn == tips@.len(),
            forall|k: int| 0 <= k < tips@.len() ==> dag.has_id(#[trigger] tips@[k]),
            tip_hashes@.len() == j,
            forall|k: int|
                0 <= k < j ==> #[trigger] tip_hashes.deep_view()[k] == dag.node_of(
                    tips@[k],
                ).info.hash@,
        decreases tn - j,
    {
        let ti = match dag.find_index_by_id(tips[j]) {
            Some(i) => i,
            None => {
                proof {
                    assert(dag.has_id(tips@[j as int]));
                    assert(false);
                }
                return None;
            },
        };
        proof {
            dag.lemma_node_of(ti as int);
        }
        let tip_hash = clone_bytes(&dag.nodes[ti].info.hash);
        let ghost prev = tip_hashes;
        tip_hashes.push(tip_hash);
        proof {
            let c = tip_hashes@[j as int];
            assert(c.deep_view() =~= c@);
            assert(tip_hashes.deep_view()[j as int] == c.deep_view());
            assert forall|k: int| 0 <= k < j implies #[trigger] tip_hashes.deep_view()[k]
                == dag.node_of(tips@[k]).info.hash@ by {
                assert(prev.deep_view()[k] == dag.node_of(tips@[k]).info.hash@);
                assert(tip_hashes@[k] == prev@[k]);
            }
        }
        j = j + 1;
    }
    let d = StitchDecision { weak_block, tip_hashes, blue_delta, sus_milli, reward_sompi };
    proof {
        assert(d.blue_delta == dag.delta_of(weak_id));
        assert(d.weak_block@ == dag.node_of(weak_id).info.hash@);
        assert(d.tip_hashes.deep_view() =~= hashes_of(*dag, children_of(dag.edges@, weak_id)));
        assert(d.sus_milli == sus_used(*engine, d.blue_delta, bps_milli));
        assert(d.reward_sompi == reward_used(*engine, d.blue_delta, bps_milli));
        assert(stitch_allowed(*engine, d.blue_delta, bps_milli, now));
        assert(decision_for(*dag, *engine, weak_id, fracture_min_delta, bps_milli, now, d));
        assert(decision_ok(*dag, *engine, fracture_min_delta, bps_milli, now, d));
    }
    Some(d)
}

/// Blocks-per-second estimate in milli-units from the arrival times
/// of recent blocks, oldest first: the block count over the observed
/// span, with fewer than two observations reading as one block per
/// second.
pub open spec fn bps_estimate_spec(times: Seq<u64>) -> u64 {
    if times.len() < 2 {
        1000u64
    } else {
        let span = if times.last() > times.first() {
            times.last() - times.first()
        } else {
            1int
        };
        sat64((times.len() - 1) * 1000 / span)
    }
}

/// Estimate the current load from recent block arrival times.
pub fn bps_estimate_milli(times: &Vec<u64>) -> (r: u64)
    ensures
        r == bps_estimate_spec(times@),
{
    let n = times.len();
    if n < 2 {
        return 1000;
    }
    let first = times[0];
    let last = times[n - 1];
    let span: u64 = if last > first {
        last - first
    } else {
        1
    };
    let blocks: u64 = (n - 1) as u64;
    proof {
        vstd::arithmetic::mul::lemma_mul_upper_bound(
            blocks as int,
            u64::MAX as int,
            1000,
            1000,
        );
    }
    let wide: u128 = (blocks as u128) * 1000 / (span as u128);
    if wide > (u64::MAX as u128) {
        u64::MAX
    } else {
        wide as u64
    }
}

/// Some listed parent carries exactly the given tip hash.
pub open spec fn covered(new_parents: Seq<Vec<u8>>, tip: Seq<u8>) -> bool {
    exists|j: int| 0 <= j < new_parents.len() && #[trigger] new_parents[j]@ == tip
}

/// A healing block confirms the stitch exactly when its direct
/// parents cover every requested tip.
pub fn healing_confirmed(tip_hashes: &Vec<Vec<u8>>, new_parents: &Vec<Vec<u8>>) -> (r: bool)
    ensures
        r == (forall|i: int|
            0 <= i < tip_hashes@.len() ==> covered(new_parents@, #[trigger] tip_hashes@[i]@)),
{
    let n = tip_hashes.len();
    let mut i: usize = 0;
    while i < n
        invariant
            i <= n,
            n == tip_hashes@.len(),
            forall|k: int| 0 <= k < i ==> covered(new_parents@, #[trigger] tip_hashes@[k]@),
        decreases n - i,
    {
        let m = new_parents.len();
        let mut j: usize = 0;
        let mut found = false;
        while j < m
            invariant
                j <= m,
                i < n,
                n == tip_hashes@.len(),
                m == new_parents@.len(),
                found ==> covered(new_parents@, tip_hashes@[i as int]@),
                !found ==> (forall|jj: int|
                    0 <= jj < j ==> #[trigger] new_parents@[jj]@ != tip_hashes@[i as int]@),
            decreases m - j,
        {
            if crate::bytes::bytes_eq(&new_parents[j], &tip_hashes[i]) {
                found = true;
            }
            j = j + 1;
        }
        if !found {
            proof {
                assert(!covered(new_parents@, tip_hashes@[i as int]@));
            }
            return false;
        }
        i = i + 1;
    }
    true
}

} // verus!
