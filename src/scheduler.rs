//! The adaptive scheduler of the physics loop: from the clock readings of
//! successive frames it decides the time step of each frame and how many
//! integration sub-steps to split it into, so that the update rate tracks a
//! target. Time is counted in nanoseconds.
use vstd::prelude::*;

verus! {

/// Sub-steps per frame before any adjustment.
pub const SEED_STEPS_PER_FRAME: u32 = 5;

pub const NANOS_PER_SECOND: u64 = 1_000_000_000;

/// Bounds and target of the scheduler.
#[derive(Clone, Copy, Debug, PartialEq, Eq, Structural)]
pub struct PhysicsConfig {
    pub target_updates_per_s: u32,
    pub min_spu: u32,
    /// Unbounded above (up to `u32::MAX`) when absent.
    pub max_spu: Option<u32>,
}

impl PhysicsConfig {
    /// The bounds do not cross.
    pub open spec fn wf(&self) -> bool {
        self.max_spu matches Some(m) ==> self.min_spu <= m
    }

    /// The largest number of sub-steps allowed.
    pub open spec fn upper(&self) -> int {
        match self.max_spu {
            Some(m) => m as int,
            None => u32::MAX as int,
        }
    }
}

/// Updates per second achieved by a frame of `dt_nanos`; 0 for an empty frame.
pub open spec fn rate_of(dt_nanos: u64) -> int {
    if dt_nanos > 0 {
        (NANOS_PER_SECOND / dt_nanos) as int
    } else {
        0
    }
}

/// `steps + rate - target`, clamped to the configured bounds.
pub open spec fn adjusted_steps(steps: u32, rate: int, c: PhysicsConfig) -> int {
    let raw = steps + rate - c.target_updates_per_s;
    if raw < c.min_spu {
        c.min_spu as int
    } else if raw > c.upper() {
        c.upper()
    } else {
        raw
    }
}

/// The update rate achieved by a frame of `dt_nanos`.
pub fn measured_rate(dt_nanos: u64) -> (r: u32)
    ensures
        r == rate_of(dt_nanos),
{
    if dt_nanos > 0 {
        (NANOS_PER_SECOND / dt_nanos) as u32
    } else {
        0
    }
}

/// The number of sub-steps after one adjustment.
pub fn adjust_steps(steps: u32, rate: u32, config: &PhysicsConfig) -> (r: u32)
    requires
        config.wf(),
    ensures
        r == adjusted_steps(steps, rate as int, *config),
{
    let sum = steps as u64 + rate as u64;
    let target = config.target_updates_per_s as u64;
    let lo = config.min_spu as u64;
    let hi = match config.max_spu {
        Some(m) => m as u64,
        None => u32::MAX as u64,
    };
    if sum < target + lo {
        config.min_spu
    } else if sum - target > hi {
        hi as u32
    } else {
        (sum - target) as u32
    }
}

/// What the physics loop does in one frame.
#[derive(Clone, Copy, Debug, PartialEq, Eq, Structural)]
pub struct Frame {
    /// Time elapsed since the previous frame.
    pub dt_nanos: u64,
    /// Sub-steps to split it into.
    pub steps_per_frame: u32,
}

/// The state the scheduler carries from one frame to the next.
#[derive(Clone, Copy, Debug, PartialEq, Eq, Structural)]
pub struct AdaptiveScheduler {
    /// Clock reading of the previous frame.
    pub prev_time: u64,
    pub steps_per_frame: u32,
    /// No frame has been measured yet: its duration is not trusted.
    pub first_frame: bool,
}

impl AdaptiveScheduler {
    pub fn new(now_nanos: u64) -> (r: AdaptiveScheduler)
        ensures
            r == (AdaptiveScheduler {
                prev_time: now_nanos,
                steps_per_frame: SEED_STEPS_PER_FRAME,
                first_frame: true,
            }),
    {
        AdaptiveScheduler {
            prev_time: now_nanos,
            steps_per_frame: SEED_STEPS_PER_FRAME,
            first_frame: true,
        }
    }

    /// Plans the frame that starts at clock reading `now_nanos`. A reading
    /// earlier than the previous one counts as an empty frame. The first frame
    /// keeps the seed number of sub-steps; each later one adjusts it by its
    /// measured rate.
    pub fn next_frame(&mut self, now_nanos: u64, config: &PhysicsConfig) -> (r: Frame)
        requires
            config.wf(),
        ensures
            r.dt_nanos == (if now_nanos >= old(self).prev_time {
                now_nanos - old(self).prev_time
            } else {
                0
            }),
            final(self).prev_time == now_nanos,
            !final(self).first_frame,
            final(self).steps_per_frame == (if old(self).first_frame {
                old(self).steps_per_frame as int
            } else {
                adjusted_steps(old(self).steps_per_frame, rate_of(r.dt_nanos), *config)
            }),
            r.steps_per_frame == final(self).steps_per_frame,
    {
        let dt_nanos = if now_nanos >= self.prev_time {
            now_nanos - self.prev_time
        } else {
            0
        };
        self.prev_time = now_nanos;
        let rate = measured_rate(dt_nanos);
        if !self.first_frame {
            self.steps_per_frame = adjust_steps(self.steps_per_frame, rate, config);
        }
        self.first_frame = false;
        Frame { dt_nanos, steps_per_frame: self.steps_per_frame }
    }
}

/// Sub-steps after adjusting `steps` by each rate of `rates` in turn.
pub open spec fn steps_after(steps: u32, rates: Seq<u32>, c: PhysicsConfig) -> int
    decreases rates.len(),
{
    if rates.len() == 0 {
        steps as int
    } else {
        steps_after(adjusted_steps(steps, rates[0] as int, c) as u32, rates.drop_first(), c)
    }
}

/// While the loop runs faster than the target, each adjustment raises the
/// number of sub-steps until it reaches the upper bound, where it stays.
pub proof fn lemma_faster_rises(steps: u32, rate: u32, c: PhysicsConfig)
    requires
        c.wf(),
        c.min_spu <= steps <= c.upper(),
        rate > c.target_updates_per_s,
    ensures
        adjusted_steps(steps, rate as int, c) > steps || adjusted_steps(steps, rate as int, c)
            == c.upper(),
        steps <= adjusted_steps(steps, rate as int, c) <= c.upper(),
{
}

/// While the loop runs slower than the target, each adjustment lowers the
/// number of sub-steps until it reaches the lower bound, where it stays.
pub proof fn lemma_slower_falls(steps: u32, rate: u32, c: PhysicsConfig)
    requires
        c.wf(),
        c.min_spu <= steps <= c.upper(),
        rate < c.target_updates_per_s,
    ensures
        adjusted_steps(steps, rate as int, c) < steps || adjusted_steps(steps, rate as int, c)
            == c.min_spu,
        c.min_spu <= adjusted_steps(steps, rate as int, c) <= steps,
{
}

/// Measured rates that all stay above the target bring the number of sub-steps
/// to the upper bound within `upper - steps` frames.
pub proof fn lemma_faster_converges(steps: u32, rates: Seq<u32>, c: PhysicsConfig)
    requires
        c.wf(),
        c.min_spu <= steps <= c.upper(),
        forall|i: int| 0 <= i < rates.len() ==> #[trigger] rates[i] > c.target_updates_per_s,
        rates.len() >= c.upper() - steps,
    ensures
        steps_after(steps, rates, c) == c.upper(),
    decreases rates.len(),
{
    if rates.len() > 0 {
        let next = adjusted_steps(steps, rates[0] as int, c);
        lemma_faster_rises(steps, rates[0], c);
        let rest = rates.drop_first();
        assert forall|i: int| 0 <= i < rest.len() implies #[trigger] rest[i]
            > c.target_updates_per_s by {
            assert(rest[i] == rates[i + 1]);
        }
        lemma_faster_converges(next as u32, rest, c);
    }
}

/// Measured rates that all stay below the target bring the number of sub-steps
/// to the lower bound within `steps - min_spu` frames.
pub proof fn lemma_slower_converges(steps: u32, rates: Seq<u32>, c: PhysicsConfig)
    requires
        c.wf(),
        c.min_spu <= steps <= c.upper(),
        forall|i: int| 0 <= i < rates.len() ==> #[trigger] rates[i] < c.target_updates_per_s,
        rates.len() >= steps - c.min_spu,
    ensures
        steps_after(steps, rates, c) == c.min_spu,
    decreases rates.len(),
{
    if rates.len() > 0 {
        let next = adjusted_steps(steps, rates[0] as int, c);
        lemma_slower_falls(steps, rates[0], c);
        let rest = rates.drop_first();
        assert forall|i: int| 0 <= i < rest.len() implies #[trigger] rest[i]
            < c.target_updates_per_s by {
            assert(rest[i] == rates[i + 1]);
        }
        lemma_slower_converges(next as u32, rest, c);
    }
}

} // verus!
