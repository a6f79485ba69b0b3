//! Resource extraction timing, the rest clock of exhausted nodes, and the
//! node count and commodity draw of a scatter.
use vstd::prelude::*;
use rand::rngs::StdRng;
use crate::types::{Commodity, Season, commodity_tier};
use crate::random::random_index;

verus! {

/// Ticks required to extract one unit of resource.
pub const TICKS_PER_UNIT: u32 = 3;

/// Ticks an exhausted node must rest before recovering.
pub const EXHAUSTION_RECOVERY_TICKS: u32 = 2000;

/// Fewest nodes a scatter places, whatever count is asked for.
pub const MIN_SCATTER_NODES: u32 = 6;

/// Counter of consecutive idle ticks of a fully exhausted node.
pub struct ExhaustionClock {
    ticks_exhausted_idle: u32,
}

/// Idle counter and recovery flag after one end-of-tick step from `idle`.
/// A harvested node resets the counter; an exhausted idle node counts, and
/// recovers (counter back to zero) when the count reaches the recovery
/// period; a node that is neither keeps its counter.
pub open spec fn clock_step(idle: u32, harvested: bool, exhausted: bool) -> (u32, bool) {
    if harvested {
        (0, false)
    } else if exhausted {
        if idle + 1 >= EXHAUSTION_RECOVERY_TICKS {
            (0, true)
        } else {
            ((idle + 1) as u32, false)
        }
    } else {
        (idle, false)
    }
}

/// Counter after `n` exhausted idle ticks starting from `idle`.
pub open spec fn idle_run(idle: u32, n: nat) -> u32
    decreases n,
{
    if n == 0 {
        idle
    } else {
        clock_step(idle_run(idle, (n - 1) as nat), false, true).0
    }
}

impl ExhaustionClock {
    #[verifier::type_invariant]
    spec fn below_period(&self) -> bool {
        self.ticks_exhausted_idle < EXHAUSTION_RECOVERY_TICKS
    }

    /// Current count of consecutive exhausted idle ticks.
    pub closed spec fn idle(&self) -> u32 {
        self.ticks_exhausted_idle
    }

    /// A clock that has counted nothing.
    pub fn new() -> (c: Self)
        ensures
            c.idle() == 0,
    {
        ExhaustionClock { ticks_exhausted_idle: 0 }
    }

    /// The current count.
    pub fn ticks_exhausted_idle(&self) -> (n: u32)
        ensures
            n == self.idle(),
            n < EXHAUSTION_RECOVERY_TICKS,
    {
        proof {
            use_type_invariant(self);
        }
        self.ticks_exhausted_idle
    }

    /// An extraction resets the count.
    pub fn on_extract(&mut self)
        ensures
            final(self).idle() == 0,
    {
        self.ticks_exhausted_idle = 0;
    }

    /// End-of-tick step. `harvested`: the node was harvested this tick;
    /// `exhausted`: its depletion is full. Returns `true` when the node has
    /// rested long enough to recover.
    pub fn tick(&mut self, harvested: bool, exhausted: bool) -> (recovered: bool)
        ensures
            (final(self).idle(), recovered) == clock_step(old(self).idle(), harvested, exhausted),
    {
        proof {
            use_type_invariant(&*self);
        }
        if harvested {
            self.ticks_exhausted_idle = 0;
            false
        } else if exhausted {
            let next = self.ticks_exhausted_idle + 1;
            if next >= EXHAUSTION_RECOVERY_TICKS {
                self.ticks_exhausted_idle = 0;
                true
            } else {
                self.ticks_exhausted_idle = next;
                false
            }
        } else {
            false
        }
    }
}

/// Starting from a reset clock, fewer than `EXHAUSTION_RECOVERY_TICKS`
/// exhausted idle ticks only count up, and the tick that completes the
/// period recovers the node.
pub proof fn lemma_recovery_after_full_rest(n: nat)
    requires
        n < EXHAUSTION_RECOVERY_TICKS,
    ensures
        idle_run(0, n) == n,
        n + 1 < EXHAUSTION_RECOVERY_TICKS ==> !clock_step(idle_run(0, n), false, true).1,
        n + 1 == EXHAUSTION_RECOVERY_TICKS ==> clock_step(idle_run(0, n), false, true) == (0u32, true),
    decreases n,
{
    if n > 0 {
        lemma_recovery_after_full_rest((n - 1) as nat);
    }
}

/// How the season scales a node's yield.
#[derive(Debug, Clone, Copy, PartialEq, Eq, Structural)]
pub enum SeasonalYield {
    /// Full yield (×1).
    Unaffected,
    /// Summer harvest of grain and herbs (×2).
    Abundant,
    /// Winter harvest of grain and herbs (×0.3).
    Scarce,
    /// Spring fishing (×1.5).
    Bonus,
    /// Autumn fishing (×0.5).
    Penalty,
    /// Frozen clay pits in the northern part of the map in winter (×0).
    Halted,
}

/// The seasonal effect on a node of `commodity` in `season`; `northern`
/// tells whether the node lies in the northern 30% of the map.
pub open spec fn seasonal_yield_of(commodity: Commodity, season: Season, northern: bool) -> SeasonalYield {
    match commodity {
        Commodity::Grain | Commodity::Herbs => match season {
            Season::Summer => SeasonalYield::Abundant,
            Season::Winter => SeasonalYield::Scarce,
            _ => SeasonalYield::Unaffected,
        },
        Commodity::Fish => match season {
            Season::Spring => SeasonalYield::Bonus,
            Season::Autumn => SeasonalYield::Penalty,
            _ => SeasonalYield::Unaffected,
        },
        Commodity::Clay => if season == Season::Winter && northern {
            SeasonalYield::Halted
        } else {
            SeasonalYield::Unaffected
        },
        _ => SeasonalYield::Unaffected,
    }
}

/// Classify the seasonal effect on a node's yield: grain and herbs double in
/// summer and drop in winter, fish gains in spring and loses in autumn, clay
/// halts in winter in the north, and everything else is unaffected.
pub fn seasonal_yield(commodity: Commodity, season: Season, northern: bool) -> (y: SeasonalYield)
    ensures
        y == seasonal_yield_of(commodity, season, northern),
{
    match commodity {
        Commodity::Grain | Commodity::Herbs => match season {
            Season::Summer => SeasonalYield::Abundant,
            Season::Winter => SeasonalYield::Scarce,
            _ => SeasonalYield::Unaffected,
        },
        Commodity::Fish => match season {
            Season::Spring => SeasonalYield::Bonus,
            Season::Autumn => SeasonalYield::Penalty,
            _ => SeasonalYield::Unaffected,
        },
        Commodity::Clay => {
            if season == Season::Winter && northern {
                SeasonalYield::Halted
            } else {
                SeasonalYield::Unaffected
            }
        },
        _ => SeasonalYield::Unaffected,
    }
}

/// The raw foods a farmer goes after in `season`: fish in winter, grain and
/// herbs in summer, and all three in spring and autumn.
pub open spec fn seasonal_target(commodity: Commodity, season: Season) -> bool {
    match season {
        Season::Winter => commodity == Commodity::Fish,
        Season::Summer => commodity == Commodity::Grain || commodity == Commodity::Herbs,
        _ => commodity == Commodity::Grain || commodity == Commodity::Herbs || commodity == Commodity::Fish,
    }
}

/// Whether a farmer targets nodes of `commodity` in `season`.
pub fn is_seasonal_target(commodity: Commodity, season: Season) -> (b: bool)
    ensures
        b == seasonal_target(commodity, season),
{
    match season {
        Season::Winter => commodity == Commodity::Fish,
        Season::Summer => commodity == Commodity::Grain || commodity == Commodity::Herbs,
        _ => commodity == Commodity::Grain || commodity == Commodity::Herbs || commodity == Commodity::Fish,
    }
}

/// Number of nodes a scatter asked for `count` places: at least six.
pub open spec fn scatter_target(count: u32) -> nat {
    if count < MIN_SCATTER_NODES {
        MIN_SCATTER_NODES as nat
    } else {
        count as nat
    }
}

/// Number of nodes a scatter asked for `count` places: `max(count, 6)`.
pub fn scatter_node_count(count: u32) -> (n: usize)
    ensures
        n == scatter_target(count),
{
    if count < MIN_SCATTER_NODES {
        MIN_SCATTER_NODES as usize
    } else {
        count as usize
    }
}

/// The commodity of one fill slot of a scatter, drawn after the slot's
/// position: a raw commodity picked uniformly from `Commodity::RAW`.
pub fn scatter_fill_commodity(rng: &mut StdRng) -> (c: Commodity)
    ensures
        Commodity::RAW@.contains(c),
        commodity_tier(c) == 0,
{
    let raw = Commodity::RAW;
    let j = random_index(rng, raw.len());
    let c = raw[j];
    proof {
        crate::types::lemma_raw_is_tier_zero(c);
        assert(raw@[j as int] == c);
        assert(raw@.contains(c));
    }
    c
}

} // verus!
