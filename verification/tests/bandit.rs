use swarm_economy::bandit::{caravan_defence, BanditLedger, CaravanDefence};

#[test]
fn caravan_of_four_is_immune() {
    assert_eq!(caravan_defence(4), CaravanDefence::Immune);
    assert_eq!(caravan_defence(9), CaravanDefence::Immune);
    assert_eq!(caravan_defence(3), CaravanDefence::MayRepel);
    assert_eq!(caravan_defence(2), CaravanDefence::Exposed);
    assert_eq!(caravan_defence(1), CaravanDefence::Exposed);
    assert_eq!(caravan_defence(0), CaravanDefence::Exposed);
}

#[test]
fn registered_camps_get_sequential_ids_and_bandits() {
    let mut ledger = BanditLedger::new();
    assert_eq!(ledger.register_camp(2), 0);
    assert_eq!(ledger.register_camp(4), 1);
    assert_eq!(ledger.active_camp_count(), 2);
    assert_eq!(ledger.active_bandit_count(), 6);
    let camp_ids: Vec<u32> = ledger.bandits().iter().map(|b| b.camp_id).collect();
    assert_eq!(camp_ids, vec![0, 0, 1, 1, 1, 1]);
    assert!(ledger.camps().iter().all(|c| c.alive && c.ticks_since_last_robbery == 0));
}

#[test]
fn camp_starvation_destroys_camp() {
    let starvation_ticks = 10;
    let mut ledger = BanditLedger::new();
    ledger.register_camp(3);
    assert_eq!(ledger.active_camp_count(), 1);

    let mut destroyed_at = None;
    for tick in 1..=20u32 {
        ledger.record_robberies(&[]);
        let (destroyed, _needed) = ledger.tick_lifecycle(starvation_ticks, 0);
        if !destroyed.is_empty() {
            assert_eq!(destroyed, vec![0]);
            destroyed_at = Some(tick);
            break;
        }
    }
    assert_eq!(destroyed_at, Some(10), "camp should starve after exactly 10 idle ticks");
    assert_eq!(ledger.active_camp_count(), 0);
    assert_eq!(ledger.active_bandit_count(), 0, "bandits of a dead camp are grounded");
}

#[test]
fn robbery_resets_starvation_counter() {
    let mut ledger = BanditLedger::new();
    ledger.register_camp(1);
    ledger.register_camp(1);
    for _ in 0..5 {
        ledger.record_robberies(&[]);
    }
    ledger.record_robberies(&[1]);
    let ticks: Vec<u32> = ledger.camps().iter().map(|c| c.ticks_since_last_robbery).collect();
    assert_eq!(ticks, vec![6, 0]);
    let (destroyed, needed) = ledger.tick_lifecycle(6, 2);
    assert_eq!(destroyed, vec![0]);
    assert_eq!(needed, 1);
    assert_eq!(ledger.active_bandit_count(), 1);
}

#[test]
fn respawn_maintains_target_count() {
    let num_camps = 3;
    let starvation_ticks = 5;
    let mut ledger = BanditLedger::new();
    for _ in 0..num_camps {
        ledger.register_camp(2);
    }
    assert_eq!(ledger.active_camp_count(), 3);

    let mut destroyed_total = 0;
    for _ in 0..30 {
        ledger.record_robberies(&[]);
        let (destroyed, needed) = ledger.tick_lifecycle(starvation_ticks, num_camps);
        destroyed_total += destroyed.len();
        for _ in 0..needed {
            ledger.register_camp(2);
        }
        assert_eq!(ledger.active_camp_count(), 3);
    }
    assert!(destroyed_total > 0, "starvation cycles should have happened");
    assert_eq!(ledger.active_bandit_count(), 6);
}

#[test]
fn defeated_bandit_is_grounded() {
    let mut ledger = BanditLedger::new();
    ledger.register_camp(3);
    ledger.deactivate_bandit(1);
    let active: Vec<bool> = ledger.bandits().iter().map(|b| b.active).collect();
    assert_eq!(active, vec![true, false, true]);
    assert_eq!(ledger.active_bandit_count(), 2);
    assert_eq!(ledger.active_camp_count(), 1);
}
