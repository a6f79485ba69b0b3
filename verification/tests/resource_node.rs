use rand::SeedableRng;
use swarm_economy::resource_node::{
    is_seasonal_target, scatter_fill_commodity, scatter_node_count, seasonal_yield, ExhaustionClock, SeasonalYield, EXHAUSTION_RECOVERY_TICKS,
    TICKS_PER_UNIT,
};
use swarm_economy::types::{Commodity, Season};

#[test]
fn ticks_per_unit_is_three() {
    assert_eq!(TICKS_PER_UNIT, 3);
}

#[test]
fn exhaustion_recovery_after_2000_ticks() {
    let mut clock = ExhaustionClock::new();
    let mut recovered_at = None;
    for tick in 1..=EXHAUSTION_RECOVERY_TICKS {
        if clock.tick(false, true) {
            recovered_at = Some(tick);
        }
    }
    assert_eq!(recovered_at, Some(2000));
    assert_eq!(clock.ticks_exhausted_idle(), 0);
}

#[test]
fn exhaustion_no_early_recovery() {
    let mut clock = ExhaustionClock::new();
    for _ in 0..EXHAUSTION_RECOVERY_TICKS - 1 {
        assert!(!clock.tick(false, true));
    }
    assert_eq!(clock.ticks_exhausted_idle(), 1999);
}

#[test]
fn exhaustion_counter_resets_on_harvest() {
    let mut clock = ExhaustionClock::new();
    for _ in 0..1000 {
        clock.tick(false, true);
    }
    clock.on_extract();
    assert!(!clock.tick(true, true));
    for _ in 0..EXHAUSTION_RECOVERY_TICKS - 1 {
        assert!(!clock.tick(false, true));
    }
    assert_eq!(clock.ticks_exhausted_idle(), 1999);
}

#[test]
fn clock_keeps_count_when_not_exhausted() {
    let mut clock = ExhaustionClock::new();
    clock.tick(false, true);
    clock.tick(false, true);
    assert!(!clock.tick(false, false));
    assert_eq!(clock.ticks_exhausted_idle(), 2);
}

#[test]
fn scatter_enforces_minimum_six() {
    assert_eq!(scatter_node_count(3), 6);
    assert_eq!(scatter_node_count(0), 6);
    assert_eq!(scatter_node_count(6), 6);
    assert_eq!(scatter_node_count(25), 25);
}

#[test]
fn scatter_draws_only_raw_commodities() {
    let mut rng = rand::rngs::StdRng::seed_from_u64(11);
    let picks: Vec<Commodity> = (0..200).map(|_| scatter_fill_commodity(&mut rng)).collect();
    assert!(picks.iter().all(|c| Commodity::RAW.contains(c)));
    // With 200 uniform draws over six commodities every one shows up.
    for raw in Commodity::RAW {
        assert!(picks.contains(&raw), "missing {raw:?}");
    }
}

#[test]
fn grain_summer_double() {
    assert_eq!(seasonal_yield(Commodity::Grain, Season::Summer, false), SeasonalYield::Abundant);
}

#[test]
fn grain_winter_reduced() {
    assert_eq!(seasonal_yield(Commodity::Grain, Season::Winter, false), SeasonalYield::Scarce);
}

#[test]
fn herbs_summer_double() {
    assert_eq!(seasonal_yield(Commodity::Herbs, Season::Summer, true), SeasonalYield::Abundant);
}

#[test]
fn herbs_winter_reduced() {
    assert_eq!(seasonal_yield(Commodity::Herbs, Season::Winter, true), SeasonalYield::Scarce);
}

#[test]
fn fish_spring_bonus() {
    assert_eq!(seasonal_yield(Commodity::Fish, Season::Spring, false), SeasonalYield::Bonus);
}

#[test]
fn fish_autumn_penalty() {
    assert_eq!(seasonal_yield(Commodity::Fish, Season::Autumn, false), SeasonalYield::Penalty);
}

#[test]
fn clay_winter_northern_zero() {
    assert_eq!(seasonal_yield(Commodity::Clay, Season::Winter, true), SeasonalYield::Halted);
}

#[test]
fn clay_winter_southern_unaffected() {
    assert_eq!(seasonal_yield(Commodity::Clay, Season::Winter, false), SeasonalYield::Unaffected);
}

#[test]
fn clay_summer_unaffected() {
    assert_eq!(seasonal_yield(Commodity::Clay, Season::Summer, true), SeasonalYield::Unaffected);
}

#[test]
fn timber_ore_unaffected_by_season() {
    for commodity in [Commodity::Timber, Commodity::Ore] {
        for season in [Season::Spring, Season::Summer, Season::Autumn, Season::Winter] {
            assert_eq!(seasonal_yield(commodity, season, true), SeasonalYield::Unaffected);
        }
    }
}

#[test]
fn farmers_follow_the_seasons() {
    assert!(is_seasonal_target(Commodity::Fish, Season::Winter));
    assert!(!is_seasonal_target(Commodity::Grain, Season::Winter));
    assert!(is_seasonal_target(Commodity::Grain, Season::Summer));
    assert!(is_seasonal_target(Commodity::Herbs, Season::Summer));
    assert!(!is_seasonal_target(Commodity::Fish, Season::Summer));
    for season in [Season::Spring, Season::Autumn] {
        for c in [Commodity::Grain, Commodity::Herbs, Commodity::Fish] {
            assert!(is_seasonal_target(c, season));
        }
        assert!(!is_seasonal_target(Commodity::Ore, season));
    }
}
