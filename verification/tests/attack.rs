use rand::SeedableRng;
use swarm_economy::attack::{tick_attacks, AttackEvent};
use swarm_economy::bandit::BanditLedger;

fn one_camp(agents: u32) -> BanditLedger {
    let mut ledger = BanditLedger::new();
    ledger.register_camp(agents);
    ledger
}

#[test]
fn lone_merchant_in_range_is_robbed() {
    let mut ledger = one_camp(1);
    for _ in 0..3 {
        ledger.record_robberies(&[]);
    }
    let mut rng = rand::rngs::StdRng::seed_from_u64(42);
    let events = tick_attacks(&mut ledger, &[true], &[vec![true]], &[1], &[None], &mut rng);
    assert_eq!(events, vec![AttackEvent::Robbery { bandit: 0, merchant: 0, camp_id: 0 }]);
    assert_eq!(ledger.camps()[0].ticks_since_last_robbery, 0, "robbery feeds the camp");
}

#[test]
fn caravan_of_four_is_never_attacked() {
    let mut ledger = one_camp(2);
    for seed in 0..50 {
        let mut rng = rand::rngs::StdRng::seed_from_u64(seed);
        let events = tick_attacks(
            &mut ledger,
            &[true, true],
            &[vec![true], vec![true]],
            &[4],
            &[None],
            &mut rng,
        );
        assert!(events.is_empty(), "caravan of 4+ should never be robbed");
    }
    assert_eq!(ledger.camps()[0].ticks_since_last_robbery, 50);
}

#[test]
fn bandit_without_attempt_never_attacks() {
    // A bandit whose attempt flag is off (failed seasonal roll, or a walled
    // city nearby) leaves an in-range lone merchant alone.
    let mut ledger = one_camp(1);
    let mut rng = rand::rngs::StdRng::seed_from_u64(7);
    for _ in 0..50 {
        let events = tick_attacks(&mut ledger, &[false], &[vec![true]], &[1], &[None], &mut rng);
        assert!(events.is_empty(), "a bandit that does not attempt must not attack");
    }
}

#[test]
fn group_of_three_sometimes_repels() {
    let mut repelled = 0;
    let mut robbed = 0;
    for seed in 0..200 {
        let mut ledger = one_camp(1);
        let mut rng = rand::rngs::StdRng::seed_from_u64(seed);
        let events = tick_attacks(&mut ledger, &[true], &[vec![true]], &[3], &[None], &mut rng);
        if events.is_empty() {
            repelled += 1;
        } else {
            assert_eq!(events, vec![AttackEvent::Robbery { bandit: 0, merchant: 0, camp_id: 0 }]);
            robbed += 1;
        }
    }
    assert!(repelled > 100 && robbed > 20, "repelled {repelled}, robbed {robbed}");
}

#[test]
fn soldier_fights_before_robbery() {
    let mut wins = 0;
    let mut losses = 0;
    for seed in 0..100 {
        let mut ledger = one_camp(1);
        let mut rng = rand::rngs::StdRng::seed_from_u64(seed);
        // Merchant 0 is escorted by soldier 1; the soldier is out of the bandit's range.
        let events = tick_attacks(
            &mut ledger,
            &[true],
            &[vec![true, false]],
            &[1, 1],
            &[Some(1), Some(1)],
            &mut rng,
        );
        match events.as_slice() {
            [AttackEvent::Combat { bandit: 0, soldier: 1, camp_id: 0, soldier_wins: true }] => {
                assert_eq!(ledger.active_bandit_count(), 0, "a defeated bandit is grounded");
                assert_eq!(ledger.camps()[0].ticks_since_last_robbery, 1);
                wins += 1;
            }
            [AttackEvent::Combat { bandit: 0, soldier: 1, camp_id: 0, soldier_wins: false }, AttackEvent::Robbery { bandit: 0, merchant: 0, camp_id: 0 }] => {
                assert_eq!(ledger.active_bandit_count(), 1);
                assert_eq!(ledger.camps()[0].ticks_since_last_robbery, 0);
                losses += 1;
            }
            other => panic!("unexpected events {other:?}"),
        }
    }
    assert!(wins > 20 && losses > 20, "wins {wins}, losses {losses}");
}

#[test]
fn one_robbery_per_bandit_and_per_merchant() {
    let mut ledger = BanditLedger::new();
    ledger.register_camp(2);
    ledger.register_camp(1);
    let mut rng = rand::rngs::StdRng::seed_from_u64(1);
    // Three bandits, two merchants, everyone in range of everyone.
    let in_range = vec![vec![true, true]; 3];
    let events = tick_attacks(&mut ledger, &[true, true, true], &in_range, &[1, 2], &[None, None], &mut rng);
    assert_eq!(
        events,
        vec![
            AttackEvent::Robbery { bandit: 0, merchant: 0, camp_id: 0 },
            AttackEvent::Robbery { bandit: 1, merchant: 1, camp_id: 0 },
        ]
    );
    let ticks: Vec<u32> = ledger.camps().iter().map(|c| c.ticks_since_last_robbery).collect();
    assert_eq!(ticks, vec![0, 1]);
}

#[test]
fn inactive_bandits_do_not_attack() {
    let mut ledger = one_camp(2);
    ledger.deactivate_bandit(0);
    let mut rng = rand::rngs::StdRng::seed_from_u64(2);
    let events = tick_attacks(&mut ledger, &[true, true], &[vec![true], vec![false]], &[1], &[None], &mut rng);
    assert!(events.is_empty());
}
