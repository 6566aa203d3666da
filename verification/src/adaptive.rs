//! Adaptive control engine: rolling observation buffers, a composite
//! stress score, and the adaptive threshold / rate-limit / reward rules
//! derived from it.
//!
//! Fractional quantities are fixed-point integers in milli-units
//! (1000 = 1.0): the stress score, the orphan rate and the blocks-per-
//! second estimate all use that scale.

use vstd::arithmetic::div_mod::{lemma_div_is_ordered, lemma_div_is_ordered_by_denominator};
use vstd::arithmetic::mul::{lemma_mul_inequality, lemma_mul_upper_bound};
use vstd::prelude::*;

verus! {

/// Capacity of the convergence-time sample ring.
pub const CONV_CAP: usize = 100;

/// Capacity of the orphan-flag ring.
pub const ORPHAN_CAP: usize = 3600;

/// Fixed-point scale: 1000 milli-units stand for 1.0.
pub const MILLI: u64 = 1000;

/// Cap, in milli-units, on the stress value that still grows the
/// reward bonus.
pub const BONUS_CAP_MILLI: u64 = 6000;

/// Configuration subset used by the adaptive engine.
#[derive(Clone)]
pub struct Config {
    pub adaptive: bool,
    pub base_min_delta: u64,
    pub base_rate_limit: u64,
    pub base_reward_sompi: u64,
    pub max_reward_sompi: u64,
    pub min_rate_limit: u64,
    pub rpc_url: String,
}

/// Clamp a mathematical integer into the `u64` range.
pub open spec fn sat64(x: int) -> u64 {
    if x > u64::MAX {
        u64::MAX
    } else if x < 0 {
        0u64
    } else {
        x as u64
    }
}

/// Sum of a sequence of samples.
pub open spec fn sum_u64(s: Seq<u64>) -> int
    decreases s.len(),
{
    if s.len() == 0 {
        0
    } else {
        sum_u64(s.drop_last()) + s.last()
    }
}

/// How many flags in the sequence are set.
pub open spec fn count_true(s: Seq<bool>) -> int
    decreases s.len(),
{
    if s.len() == 0 {
        0
    } else {
        count_true(s.drop_last()) + (if s.last() {
            1int
        } else {
            0int
        })
    }
}

/// Append to a bounded ring: push the new sample and drop the oldest
/// one once the ring would exceed its capacity.
pub open spec fn push_ring<T>(s: Seq<T>, x: T, cap: int) -> Seq<T> {
    if s.len() + 1 > cap {
        s.push(x).drop_first()
    } else {
        s.push(x)
    }
}

/// Stress-under-score in milli-units, from the four observed inputs:
/// blue-score gap, average convergence time, orphan rate and load.
/// A product of four normalized terms, each non-decreasing in its
/// input; every stage saturates at `u64::MAX`.
pub open spec fn sus_milli_spec(
    blue_delta: u64,
    avg_conv_milli: u64,
    orphan_rate_milli: u64,
    bps_milli: u64,
) -> u64 {
    let ab = sat64((blue_delta as int) * ((avg_conv_milli / 10) as int) / (MILLI as int));
    let abc = sat64((ab as int) * ((orphan_rate_milli as int) * 100) / (MILLI as int));
    sat64((abc as int) * ((MILLI as int) + ((bps_milli / 10) as int)) / (MILLI as int))
}

/// Minimum blue-score gap that still triggers a stitch: shrinks as the
/// stress score rises.
pub open spec fn adaptive_min_delta_spec(base_min_delta: u64, sus_milli: u64) -> u64 {
    sat64((base_min_delta as int) * (MILLI as int) / ((MILLI as int) + ((sus_milli / 2) as int)))
}

/// Seconds that must separate two stitches: shrinks under stress, but
/// never below the configured floor.
pub open spec fn adaptive_rate_limit_spec(
    base_rate_limit: u64,
    min_rate_limit: u64,
    sus_milli: u64,
) -> u64 {
    let shrunk = sat64(
        (base_rate_limit as int) * (MILLI as int) / ((MILLI as int) + ((sus_milli / 3) as int)),
    );
    if shrunk >= min_rate_limit {
        shrunk
    } else {
        min_rate_limit
    }
}

/// Reward for a stitch: the base amount plus a bonus proportional to
/// the (capped) stress score, the total clamped to the configured
/// maximum.
pub open spec fn reward_spec(base: u64, max: u64, sus_milli: u64) -> u64 {
    let capped = if sus_milli > BONUS_CAP_MILLI {
        BONUS_CAP_MILLI
    } else {
        sus_milli
    };
    let bonus = (base as int) * (capped as int) / (MILLI as int);
    let total = base + bonus;
    if total > max {
        max
    } else {
        sat64(total)
    }
}

/// Rolling statistics and the policy decisions derived from them.
/// Owned and mutated by the event loop alone; never persisted.
pub struct AdaptiveEngine {
    /// Convergence-time samples, oldest first, at most `CONV_CAP`.
    pub recent_convergence: Vec<u64>,
    /// Orphan flags, oldest first, at most `ORPHAN_CAP`.
    pub recent_orphans: Vec<bool>,
    /// Unix time of the last actually broadcast stitch.
    pub last_stitch: u64,
    /// Configured thresholds and amounts.
    pub config: Config,
}

impl AdaptiveEngine {
    /// Both rings are within their capacities.
    pub open spec fn wf(self) -> bool {
        &&& self.recent_convergence@.len() <= CONV_CAP
        &&& self.recent_orphans@.len() <= ORPHAN_CAP
    }

    /// Average convergence time of the ring, in milli-units of the
    /// sample unit; 1.0 when no sample has been seen yet.
    pub open spec fn avg_conv_milli(self) -> u64 {
        if self.recent_convergence@.len() == 0 {
            MILLI
        } else {
            sat64(
                sum_u64(self.recent_convergence@) * (MILLI as int) / (
                self.recent_convergence@.len() as int),
            )
        }
    }

    /// Fraction of set orphan flags, in milli-units; 0 when empty.
    pub open spec fn orphan_rate_milli(self) -> u64 {
        if self.recent_orphans@.len() == 0 {
            0u64
        } else {
            sat64(
                count_true(self.recent_orphans@) * (MILLI as int) / (
                self.recent_orphans@.len() as int),
            )
        }
    }

    /// The stress score this engine reports for the given gap and load.
    pub open spec fn sus_spec(self, blue_delta: u64, bps_milli: u64) -> u64 {
        sus_milli_spec(blue_delta, self.avg_conv_milli(), self.orphan_rate_milli(), bps_milli)
    }

    /// Whether a stitch should go out now: the gap clears the adaptive
    /// threshold and the adaptive rate limit has elapsed.
    pub open spec fn should_stitch_spec(self, blue_delta: u64, bps_milli: u64, now: u64) -> bool {
        let sus = self.sus_spec(blue_delta, bps_milli);
        &&& blue_delta >= adaptive_min_delta_spec(self.config.base_min_delta, sus)
        &&& (now as int) - (self.last_stitch as int) >= adaptive_rate_limit_spec(
            self.config.base_rate_limit,
            self.config.min_rate_limit,
            sus,
        ) as int
    }

    /// A fresh engine: empty rings, no stitch recorded yet.
    pub fn new(config: Config) -> (r: AdaptiveEngine)
        ensures
            r.recent_convergence@ =~= Seq::<u64>::empty(),
            r.recent_orphans@ =~= Seq::<bool>::empty(),
            r.last_stitch == 0,
            r.config == config,
            r.wf(),
    {
        AdaptiveEngine {
            recent_convergence: Vec::new(),
            recent_orphans: Vec::new(),
            last_stitch: 0,
            config,
        }
    }

    /// Record one observed block: when the timestamp of its first
    /// parent is known, push the saturating convergence time into the
    /// convergence ring; always push the orphan flag into the orphan
    /// ring. Missing parent timestamps skip the sample, never fail.
    pub fn update_block(
        &mut self,
        block_timestamp: u64,
        first_parent_timestamp: Option<u64>,
        is_orphan: bool,
    )
        requires
            old(self).wf(),
        ensures
            final(self).wf(),
            final(self).recent_orphans@ == push_ring(
                old(self).recent_orphans@,
                is_orphan,
                ORPHAN_CAP as int,
            ),
            final(self).recent_convergence@ == match first_parent_timestamp {
                Some(pt) => push_ring(
                    old(self).recent_convergence@,
                    sat64(block_timestamp - pt),
                    CONV_CAP as int,
                ),
                None => old(self).recent_convergence@,
            },
            final(self).last_stitch == old(self).last_stitch,
            final(self).config == old(self).config,
    {
        match first_parent_timestamp {
            Some(pt) => {
                let conv: u64 = if block_timestamp >= pt {
                    block_timestamp - pt
                } else {
                    0
                };
                self.recent_convergence.push(conv);
                if self.recent_convergence.len() > CONV_CAP {
                    self.recent_convergence.remove(0);
                }
            },
            None => {},
        }
        self.recent_orphans.push(is_orphan);
        if self.recent_orphans.len() > ORPHAN_CAP {
            self.recent_orphans.remove(0);
        }
    }

    /// Average convergence time in milli-units (1.0 when no samples).
    pub fn average_convergence_milli(&self) -> (r: u64)
        requires
            self.wf(),
        ensures
            r == self.avg_conv_milli(),
    {
        let n = self.recent_convergence.len();
        if n == 0 {
            return MILLI;
        }
        let mut sum: u128 = 0;
        let mut i: usize = 0;
        while i < n
            invariant
                i <= n,
                n == self.recent_convergence@.len(),
                n <= CONV_CAP,
                sum == sum_u64(self.recent_convergence@.take(i as int)),
                sum <= (i as int) * (u64::MAX as int),
            decreases n - i,
        {
            proof {
                assert(self.recent_convergence@.take(i + 1).drop_last() =~= self
                    .recent_convergence@.take(i as int));
                assert(self.recent_convergence@.take(i + 1).last() == self.recent_convergence@[i as int]);
                lemma_mul_inequality(i as int, CONV_CAP as int, u64::MAX as int);
            }
            sum = sum + (self.recent_convergence[i] as u128);
            i = i + 1;
        }
        proof {
            assert(self.recent_convergence@.take(n as int) =~= self.recent_convergence@);
            lemma_mul_inequality(n as int, CONV_CAP as int, u64::MAX as int);
        }
        proof {
            lemma_mul_inequality(sum as int, (CONV_CAP as int) * (u64::MAX as int), MILLI as int);
        }
        let scaled: u128 = sum * (MILLI as u128);
        let q: u128 = scaled / (n as u128);
        if q > (u64::MAX as u128) {
            u64::MAX
        } else {
            q as u64
        }
    }

    /// Fraction of set flags in the orphan ring, in milli-units.
    pub fn orphan_rate(&self) -> (r: u64)
        requires
            self.wf(),
        ensures
            r == self.orphan_rate_milli(),
            r <= MILLI,
    {
        let n = self.recent_orphans.len();
        if n == 0 {
            return 0;
        }
        let mut count: u64 = 0;
        let mut i: usize = 0;
        while i < n
            invariant
                i <= n,
                n == self.recent_orphans@.len(),
                n <= ORPHAN_CAP,
                count == count_true(self.recent_orphans@.take(i as int)),
                count <= i,
            decreases n - i,
        {
            proof {
                assert(self.recent_orphans@.take(i + 1).drop_last() =~= self.recent_orphans@.take(
                    i as int,
                ));
                assert(self.recent_orphans@.take(i + 1).last() == self.recent_orphans@[i as int]);
            }
            if self.recent_orphans[i] {
                count = count + 1;
            }
            i = i + 1;
        }
        proof {
            assert(self.recent_orphans@.take(n as int) =~= self.recent_orphans@);
        }
        let scaled: u64 = count * MILLI;
        let r: u64 = scaled / (n as u64);
        proof {
            lemma_mul_inequality(count as int, n as int, MILLI as int);
            lemma_div_is_ordered(
                (count as int) * (MILLI as int),
                (n as int) * (MILLI as int),
                n as int,
            );
            vstd::arithmetic::div_mod::lemma_div_multiples_vanish(MILLI as int, n as int);
        }
        r
    }

    /// Stress-under-score for the given blue-score gap and load, from
    /// the rolling state of this engine.
    pub fn sus(&self, blue_delta: u64, bps_milli: u64) -> (r: u64)
        requires
            self.wf(),
        ensures
            r == self.sus_spec(blue_delta, bps_milli),
    {
        let avg = self.average_convergence_milli();
        let orph = self.orphan_rate();
        sus_from_parts(blue_delta, avg, orph, bps_milli)
    }

    /// Decide whether to stitch now, given the gap, the load, and the
    /// current unix time.
    pub fn should_stitch(&self, blue_delta: u64, bps_milli: u64, now: u64) -> (r: bool)
        requires
            self.wf(),
        ensures
            r == self.should_stitch_spec(blue_delta, bps_milli, now),
    {
        let sus = self.sus(blue_delta, bps_milli);
        let min_delta = compute_adaptive_min_delta(self.config.base_min_delta, sus);
        let rate = compute_adaptive_rate_limit(
            self.config.base_rate_limit,
            self.config.min_rate_limit,
            sus,
        );
        blue_delta >= min_delta && now >= self.last_stitch && now - self.last_stitch >= rate
    }

    /// Reward for a stitch decided at the given stress score.
    pub fn reward(&self, sus_milli: u64) -> (r: u64)
        ensures
            r == reward_spec(self.config.base_reward_sompi, self.config.max_reward_sompi, sus_milli),
            r <= self.config.max_reward_sompi,
    {
        let base = self.config.base_reward_sompi;
        let capped: u64 = if sus_milli > BONUS_CAP_MILLI {
            BONUS_CAP_MILLI
        } else {
            sus_milli
        };
        proof {
            lemma_u64_mul_fits_u128(base as int, capped as int);
        }
        let bonus_wide: u128 = (base as u128) * (capped as u128) / (MILLI as u128);
        let total_wide: u128 = (base as u128) + bonus_wide;
        if total_wide > (self.config.max_reward_sompi as u128) {
            self.config.max_reward_sompi
        } else {
            total_wide as u64
        }
    }

    /// Note that a stitch actually went out now.
    pub fn record_stitch(&mut self, now: u64)
        ensures
            final(self).last_stitch == now,
            final(self).recent_convergence == old(self).recent_convergence,
            final(self).recent_orphans == old(self).recent_orphans,
            final(self).config == old(self).config,
            old(self).wf() ==> final(self).wf(),
    {
        self.last_stitch = now;
    }
}

/// Clamping into the `u64` range keeps order.
proof fn lemma_sat64_monotone(x: int, y: int)
    requires
        x <= y,
    ensures
        sat64(x) <= sat64(y),
{
}

/// One saturated product-and-rescale stage keeps order when both
/// factors grow.
proof fn lemma_scaled_mul_monotone(x1: int, y1: int, x2: int, y2: int)
    requires
        0 <= x1 <= x2,
        0 <= y1 <= y2,
    ensures
        sat64(x1 * y1 / (MILLI as int)) <= sat64(x2 * y2 / (MILLI as int)),
{
    lemma_mul_upper_bound(x1, x2, y1, y2);
    lemma_div_is_ordered(x1 * y1, x2 * y2, MILLI as int);
    lemma_sat64_monotone(x1 * y1 / (MILLI as int), x2 * y2 / (MILLI as int));
}

/// The stress score is monotonically non-decreasing in the blue-score
/// gap, the average convergence time, the orphan rate and the load,
/// each taken independently.
pub proof fn lemma_sus_monotone(
    blue_delta_1: u64,
    avg_conv_1: u64,
    orphan_rate_1: u64,
    bps_milli_1: u64,
    blue_delta_2: u64,
    avg_conv_2: u64,
    orphan_rate_2: u64,
    bps_milli_2: u64,
)
    requires
        blue_delta_1 <= blue_delta_2,
        avg_conv_1 <= avg_conv_2,
        orphan_rate_1 <= orphan_rate_2,
        bps_milli_1 <= bps_milli_2,
    ensures
        sus_milli_spec(blue_delta_1, avg_conv_1, orphan_rate_1, bps_milli_1) <= sus_milli_spec(
            blue_delta_2,
            avg_conv_2,
            orphan_rate_2,
            bps_milli_2,
        ),
{
    let ab1 = sat64((blue_delta_1 as int) * ((avg_conv_1 / 10) as int) / (MILLI as int));
    let ab2 = sat64((blue_delta_2 as int) * ((avg_conv_2 / 10) as int) / (MILLI as int));
    lemma_div_is_ordered(avg_conv_1 as int, avg_conv_2 as int, 10);
    lemma_scaled_mul_monotone(
        blue_delta_1 as int,
        (avg_conv_1 / 10) as int,
        blue_delta_2 as int,
        (avg_conv_2 / 10) as int,
    );
    let abc1 = sat64((ab1 as int) * ((orphan_rate_1 as int) * 100) / (MILLI as int));
    let abc2 = sat64((ab2 as int) * ((orphan_rate_2 as int) * 100) / (MILLI as int));
    lemma_scaled_mul_monotone(
        ab1 as int,
        (orphan_rate_1 as int) * 100,
        ab2 as int,
        (orphan_rate_2 as int) * 100,
    );
    lemma_div_is_ordered(bps_milli_1 as int, bps_milli_2 as int, 10);
    lemma_scaled_mul_monotone(
        abc1 as int,
        (MILLI as int) + ((bps_milli_1 / 10) as int),
        abc2 as int,
        (MILLI as int) + ((bps_milli_2 / 10) as int),
    );
}

/// Right after a stitch is recorded, no second stitch goes out with
/// zero elapsed time, as long as the configured rate-limit floor is
/// positive: the adaptive interval never drops below that floor.
pub proof fn lemma_no_immediate_restitch(
    engine: AdaptiveEngine,
    blue_delta: u64,
    bps_milli: u64,
    now: u64,
)
    requires
        engine.config.min_rate_limit >= 1,
        engine.last_stitch == now,
    ensures
        !engine.should_stitch_spec(blue_delta, bps_milli, now),
{
}

/// The stitch reward is monotonically non-decreasing in the stress
/// score and never exceeds the configured maximum.
pub proof fn lemma_reward_monotone(base: u64, max: u64, sus_1: u64, sus_2: u64)
    requires
        sus_1 <= sus_2,
    ensures
        reward_spec(base, max, sus_1) <= reward_spec(base, max, sus_2),
        reward_spec(base, max, sus_1) <= max,
{
    let capped1: u64 = if sus_1 > BONUS_CAP_MILLI {
        BONUS_CAP_MILLI
    } else {
        sus_1
    };
    let capped2: u64 = if sus_2 > BONUS_CAP_MILLI {
        BONUS_CAP_MILLI
    } else {
        sus_2
    };
    lemma_mul_upper_bound(base as int, base as int, capped1 as int, capped2 as int);
    lemma_div_is_ordered(
        (base as int) * (capped1 as int),
        (base as int) * (capped2 as int),
        MILLI as int,
    );
    vstd::arithmetic::div_mod::lemma_div_pos_is_pos((base as int) * (capped1 as int), MILLI as int);
    vstd::arithmetic::mul::lemma_mul_nonnegative(base as int, capped1 as int);
}

/// The product of two values that each fit in a `u64` fits in a `u128`.
proof fn lemma_u64_mul_fits_u128(x: int, y: int)
    requires
        0 <= x <= u64::MAX,
        0 <= y <= u64::MAX,
    ensures
        x * y <= u128::MAX,
{
    lemma_mul_upper_bound(x, u64::MAX as int, y, u64::MAX as int);
}

/// The stress score from its four already-extracted inputs. The orphan
/// rate is a fraction and never exceeds one.
fn sus_from_parts(blue_delta: u64, avg_conv_milli: u64, orphan_rate_milli: u64, bps_milli: u64) -> (r:
    u64)
    requires
        orphan_rate_milli <= MILLI,
    ensures
        r == sus_milli_spec(blue_delta, avg_conv_milli, orphan_rate_milli, bps_milli),
{
    proof {
        lemma_u64_mul_fits_u128(blue_delta as int, (avg_conv_milli / 10) as int);
    }
    let ab_wide: u128 = (blue_delta as u128) * ((avg_conv_milli / 10) as u128) / (MILLI as u128);
    let ab: u64 = if ab_wide > (u64::MAX as u128) {
        u64::MAX
    } else {
        ab_wide as u64
    };
    proof {
        lemma_u64_mul_fits_u128(ab as int, (orphan_rate_milli * 100) as int);
    }
    let abc_wide: u128 = (ab as u128) * ((orphan_rate_milli * 100) as u128) / (MILLI as u128);
    let abc: u64 = if abc_wide > (u64::MAX as u128) {
        u64::MAX
    } else {
        abc_wide as u64
    };
    proof {
        lemma_div_is_ordered(bps_milli as int, u64::MAX as int, 10);
    }
    let d: u64 = MILLI + bps_milli / 10;
    proof {
        lemma_u64_mul_fits_u128(abc as int, d as int);
    }
    let out_wide: u128 = (abc as u128) * (d as u128) / (MILLI as u128);
    if out_wide > (u64::MAX as u128) {
        u64::MAX
    } else {
        out_wide as u64
    }
}

/// The adaptive minimum blue-score gap for the given stress score.
fn compute_adaptive_min_delta(base_min_delta: u64, sus_milli: u64) -> (r: u64)
    ensures
        r == adaptive_min_delta_spec(base_min_delta, sus_milli),
{
    let denom: u128 = (MILLI as u128) + ((sus_milli / 2) as u128);
    let q: u128 = (base_min_delta as u128) * (MILLI as u128) / denom;
    proof {
        lemma_div_is_ordered_by_denominator(
            (base_min_delta as int) * (MILLI as int),
            MILLI as int,
            denom as int,
        );
        vstd::arithmetic::div_mod::lemma_div_multiples_vanish(base_min_delta as int, MILLI as int);
    }
    q as u64
}

/// The adaptive rate-limit interval, floored at the configured minimum.
fn compute_adaptive_rate_limit(base_rate_limit: u64, min_rate_limit: u64, sus_milli: u64) -> (r:
    u64)
    ensures
        r == adaptive_rate_limit_spec(base_rate_limit, min_rate_limit, sus_milli),
{
    let denom: u128 = (MILLI as u128) + ((sus_milli / 3) as u128);
    let q: u128 = (base_rate_limit as u128) * (MILLI as u128) / denom;
    proof {
        lemma_div_is_ordered_by_denominator(
            (base_rate_limit as int) * (MILLI as int),
            MILLI as int,
            denom as int,
        );
        vstd::arithmetic::div_mod::lemma_div_multiples_vanish(base_rate_limit as int, MILLI as int);
    }
    let shrunk = q as u64;
    if shrunk >= min_rate_limit {
        shrunk
    } else {
        min_rate_limit
    }
}

} // verus!
