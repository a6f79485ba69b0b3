use swarm_economy::attack::AttackEvent;
use swarm_economy::order_book::Order;
use swarm_economy::types::{Commodity, Season, Side};
use swarm_economy::world::SeasonClock;

#[test]
fn season_cycles() {
    let season_len = 2500;
    let mut clock = SeasonClock::new();
    assert_eq!(clock.season(), Season::Spring);
    for _ in 0..season_len - 1 {
        assert!(!clock.advance(season_len));
    }
    assert_eq!(clock.season(), Season::Spring);
    assert!(clock.advance(season_len)); // This tick should flip to Summer.
    assert_eq!(clock.season(), Season::Summer);
    for _ in 0..season_len {
        clock.advance(season_len);
    }
    assert_eq!(clock.season(), Season::Autumn);
    for _ in 0..season_len {
        clock.advance(season_len);
    }
    assert_eq!(clock.season(), Season::Winter);
    for _ in 0..season_len {
        clock.advance(season_len);
    }
    assert_eq!(clock.season(), Season::Spring);
    assert_eq!(clock.ticks_in_season(), 0);
}

#[test]
fn eternal_summer_clock_stays() {
    let mut clock = SeasonClock::starting_in(Season::Summer);
    for _ in 0..10_000 {
        clock.advance(u32::MAX / 2);
    }
    assert_eq!(clock.season(), Season::Summer);
    assert_eq!(clock.ticks_in_season(), 10_000);
}

// ── The world tick ──────────────────────────────────────────────────────────

use rand::SeedableRng;
use swarm_economy::types::Profession;
use swarm_economy::world::{RebalancePlan, TickInputs, TickPhase, WorldState, METRICS_WINDOW};

fn square(n: usize, v: bool) -> Vec<Vec<bool>> {
    vec![vec![v; n]; n]
}

fn quiet_inputs(w: &WorldState<u32, u32>) -> TickInputs {
    let n = w.statuses().iter().filter(|s| s.alive).count();
    let b = w.bandits().bandits().len();
    TickInputs {
        talks: square(n, false),
        sociable: vec![false; n],
        sociability_rank: vec![0; n],
        near: square(n, false),
        aligned: square(n, false),
        far: square(n, false),
        at_city: vec![false; n],
        attempts: vec![false; b],
        bandit_in_range: vec![vec![false; n]; b],
        soldier_near: vec![None; n],
    }
}

fn neutral_plan(n: usize) -> RebalancePlan {
    RebalancePlan::Normal {
        worst: Profession::Trader,
        best: Profession::Trader,
        most_needed: Profession::Trader,
        accept: vec![false; n],
    }
}

fn full_tick(w: &mut WorldState<u32, u32>, inp: &TickInputs, negative: &[bool], rng: &mut rand::rngs::StdRng) {
    w.begin_tick();
    w.expire_orders();
    w.tick_world(inp, rng);
    w.end_tick(negative, 0, &neutral_plan(negative.len()), rng);
}

fn world_with(n: u32, season_len: u32) -> WorldState<u32, u32> {
    let mut w: WorldState<u32, u32> = WorldState::new(season_len, 200, 1000, 1, 500, 100);
    for id in 0..n {
        assert!(w.add_merchant(id + 1, Profession::Trader));
    }
    w
}

#[test]
fn tick_advances_state() {
    let mut w = world_with(3, 2500);
    let mut rng = rand::rngs::StdRng::seed_from_u64(99);
    let inp = quiet_inputs(&w);
    full_tick(&mut w, &inp, &[false; 3], &mut rng);
    assert_eq!(w.tick_count(), 1);
    assert_eq!(w.phase(), TickPhase::Idle);
    let m = w.latest_metrics().unwrap();
    assert_eq!(m.tick, 0);
    assert_eq!(m.alive_merchants, 3);
    assert_eq!(m.profession_counts[0], 3);
    assert_eq!(m.season, Season::Spring);
    assert_eq!(w.season_tick_counter(), 1);
}

#[test]
fn world_season_cycles() {
    let mut w = world_with(1, 3);
    let mut rng = rand::rngs::StdRng::seed_from_u64(123);
    let inp = quiet_inputs(&w);
    let mut seen = Vec::new();
    for _ in 0..12 {
        full_tick(&mut w, &inp, &[false], &mut rng);
        seen.push(w.season());
    }
    assert_eq!(seen[2], Season::Summer);
    assert_eq!(seen[5], Season::Autumn);
    assert_eq!(seen[8], Season::Winter);
    assert_eq!(seen[11], Season::Spring);
    assert_eq!(w.tick_count(), 12);
}

#[test]
fn metrics_history_keeps_last_window() {
    let mut w = world_with(1, 2500);
    let mut rng = rand::rngs::StdRng::seed_from_u64(1);
    let inp = quiet_inputs(&w);
    for _ in 0..METRICS_WINDOW + 3 {
        full_tick(&mut w, &inp, &[false], &mut rng);
    }
    assert_eq!(w.metrics().len(), METRICS_WINDOW);
    assert_eq!(w.metrics()[0].tick, 3);
    assert_eq!(w.latest_metrics().unwrap().tick, METRICS_WINDOW as u32 + 2);
}

#[test]
fn bankrupt_merchant_dies_after_grace_period() {
    let mut w = world_with(2, 2500);
    let mut rng = rand::rngs::StdRng::seed_from_u64(42);
    let inp = quiet_inputs(&w);
    for _ in 0..199 {
        full_tick(&mut w, &inp, &[true, false], &mut rng);
        assert!(w.statuses()[0].alive);
    }
    // A tick with non-negative gold resets the count.
    full_tick(&mut w, &inp, &[false, false], &mut rng);
    for _ in 0..199 {
        full_tick(&mut w, &inp, &[true, false], &mut rng);
        assert!(w.statuses()[0].alive);
    }
    full_tick(&mut w, &inp, &[true, false], &mut rng);
    assert!(!w.statuses()[0].alive);
    assert!(w.statuses()[1].alive);
    assert_eq!(w.latest_metrics().unwrap().alive_merchants, 1);
}

#[test]
fn world_tick_forms_caravan_and_sets_ids() {
    let mut w = world_with(3, 2500);
    let mut rng = rand::rngs::StdRng::seed_from_u64(5);
    let mut inp = quiet_inputs(&w);
    inp.sociable = vec![true, false, false];
    inp.sociability_rank = vec![2, 1, 0];
    inp.near = square(3, true);
    inp.aligned = square(3, true);
    w.begin_tick();
    w.expire_orders();
    let out = w.tick_world(&inp, &mut rng);
    assert_eq!(out.formations.len(), 1);
    assert_eq!(out.formations[0].leader_id, 1);
    assert_eq!(w.caravan_ids(), &[Some(0), Some(0), Some(0)]);
    assert_eq!(w.caravans().active_count(), 1);
    w.end_tick(&[false; 3], 0, &neutral_plan(3), &mut rng);

    // Next tick one member is inside a city: the caravan dissolves.
    let mut inp2 = quiet_inputs(&w);
    inp2.at_city = vec![false, true, false];
    w.begin_tick();
    w.expire_orders();
    let out = w.tick_world(&inp2, &mut rng);
    assert_eq!(out.dissolutions.len(), 1);
    assert_eq!(w.caravan_ids(), &[None, None, None]);
    assert_eq!(w.caravans().active_count(), 0);
}

#[test]
fn world_gossip_merges_caravan_memories() {
    let mut w = world_with(3, 2500);
    let mut rng = rand::rngs::StdRng::seed_from_u64(5);
    let mut inp = quiet_inputs(&w);
    inp.sociable = vec![true, false, false];
    inp.sociability_rank = vec![2, 1, 0];
    inp.near = square(3, true);
    inp.aligned = square(3, true);
    w.begin_tick();
    w.expire_orders();
    w.record_price(2, 7, swarm_economy::types::Commodity::Grain, 40);
    w.tick_world(&inp, &mut rng);
    w.end_tick(&[false; 3], 1, &neutral_plan(3), &mut rng);
    // In a caravan now; next tick's gossip merges the memories.
    let inp2 = quiet_inputs(&w);
    w.begin_tick();
    w.expire_orders();
    let out = w.tick_world(&inp2, &mut rng);
    assert_eq!(out.gossip.caravan_merges.len(), 1);
    for i in 0..3 {
        assert_eq!(w.memory(i).get(7, swarm_economy::types::Commodity::Grain, 1), Some(40));
    }
}

#[test]
fn expired_orders_leave_the_book_at_tick_start() {
    let mut w = world_with(1, 2500);
    w.add_book(0, false);
    let order = Order { agent_id: 1, commodity: Commodity::Grain, side: Side::Buy, terms: 5u32, tick_placed: 0, ttl: 2 };
    assert!(w.place_order(0, order));
    let mut rng = rand::rngs::StdRng::seed_from_u64(2);
    let inp = quiet_inputs(&w);
    full_tick(&mut w, &inp, &[false], &mut rng);
    assert_eq!(w.books()[0].order_count(Commodity::Grain, Side::Buy), 1);
    full_tick(&mut w, &inp, &[false], &mut rng);
    assert_eq!(w.books()[0].order_count(Commodity::Grain, Side::Buy), 1);
    full_tick(&mut w, &inp, &[false], &mut rng);
    assert_eq!(w.books()[0].order_count(Commodity::Grain, Side::Buy), 0);
}

#[test]
fn emergency_rebalance_only_on_rebalance_ticks() {
    let mut w: WorldState<u32, u32> = WorldState::new(2500, 200, 1000, 1, 500, 2);
    for id in 0..5 {
        assert!(w.add_merchant(id, Profession::Idle));
    }
    let mut rng = rand::rngs::StdRng::seed_from_u64(8);
    let inp = quiet_inputs(&w);
    let plan = RebalancePlan::Emergency { low_gold: vec![false; 5] };
    for tick in 0..3u32 {
        w.begin_tick();
        w.expire_orders();
        w.tick_world(&inp, &mut rng);
        let end = w.end_tick(&[false; 5], 0, &plan, &mut rng);
        if tick == 2 {
            // Tick 2 is a rebalance tick: one in five idle merchants farms.
            assert!(end.rebalanced);
            assert_eq!(end.made_farmers.len(), 1);
            assert_eq!(w.statuses()[end.made_farmers[0]].profession, Profession::Farmer);
            assert_eq!(end.metrics.profession_counts[2], 1);
        } else {
            assert!(!end.rebalanced);
            assert!(end.made_farmers.is_empty());
        }
    }
}

#[test]
fn orders_placed_this_tick_expire_before_matching_when_ttl_is_zero() {
    let mut w = world_with(1, 2500);
    w.add_book(0, false);
    let mut rng = rand::rngs::StdRng::seed_from_u64(3);
    let inp = quiet_inputs(&w);
    w.begin_tick();
    let keep = Order { agent_id: 1, commodity: Commodity::Fish, side: Side::Sell, terms: 5u32, tick_placed: 0, ttl: 1 };
    let gone = Order { agent_id: 1, commodity: Commodity::Grain, side: Side::Sell, terms: 5u32, tick_placed: 0, ttl: 0 };
    assert!(w.place_order(0, keep));
    assert!(w.place_order(0, gone));
    w.expire_orders();
    assert_eq!(w.books()[0].order_count(Commodity::Fish, Side::Sell), 1);
    assert_eq!(w.books()[0].order_count(Commodity::Grain, Side::Sell), 0);
    w.tick_world(&inp, &mut rng);
    w.end_tick(&[false], 0, &neutral_plan(1), &mut rng);
}

#[test]
fn new_merchant_memory_uses_world_ttl() {
    let w = world_with(2, 2500);
    assert_eq!(w.memory(0).ttl(), 500);
    assert_eq!(w.memory(1).ttl(), 500);
}

#[test]
fn world_tick_escorts_caravan_and_charges_fees() {
    let mut w: WorldState<u32, u32> = WorldState::new(2500, 200, 1000, 1, 500, 100);
    for id in 1..=3 {
        assert!(w.add_merchant(id, Profession::Trader));
    }
    assert!(w.add_merchant(4, Profession::Soldier));
    let mut rng = rand::rngs::StdRng::seed_from_u64(6);
    let mut inp = quiet_inputs(&w);
    inp.sociable = vec![true, false, false, false];
    inp.sociability_rank = vec![3, 2, 1, 0];
    inp.near = square(4, true);
    inp.aligned = square(4, true);
    // The soldier heads elsewhere, so it escorts rather than joins.
    for i in 0..4 {
        inp.aligned[i][3] = i == 3;
        inp.aligned[3][i] = i == 3;
    }
    w.begin_tick();
    w.expire_orders();
    let out = w.tick_world(&inp, &mut rng);
    assert_eq!(out.formations.len(), 1);
    assert_eq!(out.formations[0].member_ids, vec![1, 2, 3]);
    assert_eq!(w.caravans().caravans()[0].escort_ids, vec![4]);
    let pairs: Vec<(u32, u32)> = out.fees.iter().map(|f| (f.merchant_id, f.soldier_id)).collect();
    assert_eq!(pairs, vec![(1, 4), (2, 4), (3, 4)]);
}

#[test]
fn world_tick_bandit_robs_lone_merchant() {
    let mut w = world_with(1, 2500);
    w.register_camp(1);
    let mut rng = rand::rngs::StdRng::seed_from_u64(9);
    let mut inp = quiet_inputs(&w);
    inp.attempts = vec![true];
    inp.bandit_in_range = vec![vec![true]];
    w.begin_tick();
    w.expire_orders();
    let out = w.tick_world(&inp, &mut rng);
    assert_eq!(out.attacks, vec![AttackEvent::Robbery { bandit: 0, merchant: 0, camp_id: 0 }]);
    assert_eq!(w.bandits().camps()[0].ticks_since_last_robbery, 0);
    assert!(out.camps_destroyed.is_empty());
}
