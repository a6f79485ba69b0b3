use swarm_economy::merchant::{BankruptcyTracker, Ledger, Navigation, PriceMemory, LEDGER_CAP, STUCK_THRESHOLD};
use swarm_economy::types::Commodity;

#[derive(Debug, Clone, Copy, PartialEq)]
struct Transaction {
    tick: u32,
    price: f32,
}

#[test]
fn price_memory_respects_ttl() {
    let mut pm: PriceMemory<f32> = PriceMemory::new(100);
    pm.record(0, Commodity::Ore, 5.0, 10);
    assert_eq!(pm.get(0, Commodity::Ore, 50), Some(5.0));
    assert_eq!(pm.get(0, Commodity::Ore, 111), None); // expired
}

#[test]
fn price_memory_merge_keeps_newer() {
    let mut pm1: PriceMemory<f32> = PriceMemory::new(1000);
    let mut pm2: PriceMemory<f32> = PriceMemory::new(1000);
    pm1.record(0, Commodity::Ore, 5.0, 100);
    pm2.record(0, Commodity::Ore, 8.0, 200);
    pm1.merge(&pm2);
    assert_eq!(pm1.get(0, Commodity::Ore, 300), Some(8.0));
}

#[test]
fn price_memory_merge_keeps_own_newer_entry() {
    let mut pm1: PriceMemory<f32> = PriceMemory::new(1000);
    let mut pm2: PriceMemory<f32> = PriceMemory::new(1000);
    pm1.record(0, Commodity::Ore, 5.0, 300);
    pm2.record(0, Commodity::Ore, 8.0, 200);
    pm2.record(1, Commodity::Fish, 2.0, 250);
    pm1.merge(&pm2);
    assert_eq!(pm1.get(0, Commodity::Ore, 300), Some(5.0));
    assert_eq!(pm1.get(1, Commodity::Fish, 300), Some(2.0));
    assert_eq!(pm1.all_entries().len(), 2);
}

#[test]
fn price_memory_read_after_write_and_overwrite() {
    let mut pm: PriceMemory<f32> = PriceMemory::new(50);
    pm.record(3, Commodity::Grain, 4.0, 0);
    pm.record(3, Commodity::Grain, 6.0, 20);
    assert_eq!(pm.get(3, Commodity::Grain, 70), Some(6.0));
    assert_eq!(pm.get(3, Commodity::Grain, 71), None);
    assert_eq!(pm.get(3, Commodity::Fish, 20), None);
    // A reading taken "in the future" counts as zero ticks old.
    assert_eq!(pm.get(3, Commodity::Grain, 5), Some(6.0));
    assert_eq!(pm.all_entries().len(), 1);
}

#[test]
fn price_memory_prune_drops_only_stale() {
    let mut pm: PriceMemory<f32> = PriceMemory::new(100);
    pm.record(0, Commodity::Ore, 5.0, 0);
    pm.record(0, Commodity::Fish, 7.0, 150);
    pm.record(1, Commodity::Clay, 1.0, 10);
    pm.prune(200);
    assert_eq!(pm.all_entries().len(), 1);
    assert!(pm.city_prices(1).is_none());
    let city0 = pm.city_prices(0).unwrap();
    assert_eq!(city0.len(), 1);
    assert_eq!(city0[0].0, Commodity::Fish);
    assert_eq!(city0[0].1.observed_tick, 150);
}

#[test]
fn ledger_caps_at_50() {
    let mut ledger: Ledger<Transaction> = Ledger::new();
    for i in 0..60 {
        ledger.record_transaction(Transaction { tick: i, price: 10.0 });
    }
    assert_eq!(ledger.len(), 50);
    assert_eq!(LEDGER_CAP, 50);
    // Oldest should be tick 10
    assert_eq!(ledger.get(0).tick, 10);
    assert_eq!(ledger.get(49).tick, 59);
    assert_eq!(ledger.get(49).price, 10.0);
}

#[test]
fn bankruptcy_after_grace_period() {
    let mut t = BankruptcyTracker::new();
    for _ in 0..199 {
        assert!(!t.tick_bankruptcy(true, 200));
    }
    assert!(t.tick_bankruptcy(true, 200));
}

#[test]
fn bankruptcy_resets_when_gold_positive() {
    let mut t = BankruptcyTracker::new();
    for _ in 0..100 {
        t.tick_bankruptcy(true, 200);
    }
    t.tick_bankruptcy(false, 200);
    assert_eq!(t.negative_ticks(), 0);
    // Counter should have reset — going negative again needs full 200 ticks
    for _ in 0..199 {
        assert!(!t.tick_bankruptcy(true, 200));
    }
    assert!(t.tick_bankruptcy(true, 200));
}

#[test]
fn waypoints_follow_path_and_reset() {
    let mut nav = Navigation::new();
    assert!(!nav.needs_path_recompute(None));
    assert!(nav.needs_path_recompute(Some(2)));
    nav.set_waypoints(2, vec![(1, 1), (2, 2)]);
    assert_eq!(nav.next_waypoint(), Some((1, 1)));
    assert!(!nav.needs_path_recompute(Some(2)));
    assert!(nav.needs_path_recompute(Some(3)));
    nav.pop_waypoint();
    assert_eq!(nav.next_waypoint(), Some((2, 2)));
    nav.pop_waypoint();
    assert_eq!(nav.next_waypoint(), None);
    assert!(nav.needs_path_recompute(Some(2)));
    nav.clear_waypoints();
    assert_eq!(nav.waypoint_target(), None);
}

#[test]
fn stuck_after_ten_ticks_without_moving() {
    let mut nav = Navigation::new();
    nav.set_waypoints(1, vec![(5, 5)]);
    for _ in 0..STUCK_THRESHOLD - 1 {
        nav.update_stuck_detection(false);
    }
    assert!(!nav.is_stuck());
    nav.update_stuck_detection(false);
    assert!(nav.is_stuck());
    assert!(nav.needs_path_recompute(Some(1)));
    nav.update_stuck_detection(true);
    assert_eq!(nav.stuck_ticks(), 0);
    assert!(!nav.needs_path_recompute(Some(1)));
}
