use swarm_economy::economy::{
    alive_count, emergency_candidates, emergency_rebalance, is_rebalance_tick, normal_rebalance,
    profession_counts, reassign_first, IncomeTracker, MerchantStatus, INCOME_WINDOW_TICKS,
};
use swarm_economy::random::shuffle_candidates;
use swarm_economy::types::Profession;
use rand::SeedableRng;

fn st(alive: bool, profession: Profession) -> MerchantStatus {
    MerchantStatus { alive, profession }
}

#[test]
fn counts_only_living_merchants() {
    let ms = vec![
        st(true, Profession::Trader),
        st(true, Profession::Trader),
        st(false, Profession::Trader),
        st(true, Profession::Idle),
        st(true, Profession::Miner),
    ];
    assert_eq!(alive_count(&ms), 4);
    let counts = profession_counts(&ms);
    assert_eq!(counts, vec![2, 1, 0, 0, 0, 0, 1]);
}

#[test]
fn reassign_moves_first_living_practitioners() {
    let mut ms = vec![
        st(true, Profession::Idle),
        st(false, Profession::Idle),
        st(true, Profession::Trader),
        st(true, Profession::Idle),
        st(true, Profession::Idle),
    ];
    let moved = reassign_first(&mut ms, Profession::Idle, Profession::Farmer, 2);
    assert_eq!(moved, 2);
    assert_eq!(ms[0].profession, Profession::Farmer);
    assert_eq!(ms[1].profession, Profession::Idle);
    assert_eq!(ms[3].profession, Profession::Farmer);
    assert_eq!(ms[4].profession, Profession::Idle);
    let moved = reassign_first(&mut ms, Profession::Idle, Profession::Soldier, 5);
    assert_eq!(moved, 1);
    assert_eq!(ms[4].profession, Profession::Soldier);
}

#[test]
fn shuffle_keeps_candidates() {
    let mut rng = rand::rngs::StdRng::seed_from_u64(7);
    let mut v: Vec<usize> = (0..20).collect();
    shuffle_candidates(&mut v, &mut rng);
    let mut sorted = v.clone();
    sorted.sort();
    assert_eq!(sorted, (0..20).collect::<Vec<usize>>());
    let mut empty: Vec<usize> = Vec::new();
    shuffle_candidates(&mut empty, &mut rng);
    assert!(empty.is_empty());
}

#[test]
fn rebalance_runs_on_interval_ticks_only() {
    assert!(!is_rebalance_tick(0, 500));
    assert!(is_rebalance_tick(500, 500));
    assert!(is_rebalance_tick(1000, 500));
    assert!(!is_rebalance_tick(999, 500));
    assert!(is_rebalance_tick(7, 1));
}

#[test]
fn normal_rebalance_moves_five_percent_of_worst() {
    // 41 living miners: 5% rounded up is 3.
    let mut ms: Vec<MerchantStatus> = (0..41).map(|_| st(true, Profession::Miner)).collect();
    ms.push(st(false, Profession::Miner));
    ms.push(st(true, Profession::Idle));
    ms.push(st(true, Profession::Idle));
    let mut accept = vec![false; ms.len()];
    accept[42] = true;
    let moved = normal_rebalance(&mut ms, Profession::Miner, Profession::Trader, Profession::Farmer, &accept);
    assert_eq!(moved, 3);
    let counts = profession_counts(&ms);
    assert_eq!(counts[0], 3, "traders");
    assert_eq!(counts[1], 38, "miners");
    assert_eq!(counts[2], 1, "farmers from the accepted idle merchant");
    assert_eq!(counts[6], 1, "idle merchant whose roll failed");
    assert!(ms[..3].iter().all(|m| m.profession == Profession::Trader));
    assert!(!ms[41].alive && ms[41].profession == Profession::Miner);
}

#[test]
fn normal_rebalance_moves_at_least_one() {
    let mut ms = vec![st(true, Profession::Soldier), st(true, Profession::Soldier)];
    let accept = vec![true, true];
    assert_eq!(normal_rebalance(&mut ms, Profession::Soldier, Profession::Miner, Profession::Farmer, &accept), 1);
    assert_eq!(ms[0].profession, Profession::Miner);
    assert_eq!(ms[1].profession, Profession::Soldier);
    // Same worst and best: no transfer.
    assert_eq!(normal_rebalance(&mut ms, Profession::Miner, Profession::Miner, Profession::Farmer, &accept), 0);
    assert_eq!(ms[0].profession, Profession::Miner);
}

#[test]
fn emergency_turns_a_fifth_of_candidates_into_farmers() {
    let mut ms = vec![
        st(true, Profession::Idle),
        st(true, Profession::Trader),
        st(true, Profession::Trader),
        st(false, Profession::Idle),
        st(true, Profession::Miner),
        st(true, Profession::Idle),
        st(true, Profession::Idle),
        st(true, Profession::Idle),
        st(true, Profession::Idle),
    ];
    let low_gold = vec![false, true, false, false, true, false, false, false, false];
    let candidates = emergency_candidates(&ms, &low_gold);
    assert_eq!(candidates, vec![0, 1, 5, 6, 7, 8]);
    let before = ms.clone();
    let mut rng = rand::rngs::StdRng::seed_from_u64(5);
    let chosen = emergency_rebalance(&mut ms, &low_gold, &mut rng);
    // Six candidates: 20% rounded up is 2.
    assert_eq!(chosen.len(), 2);
    for (j, m) in ms.iter().enumerate() {
        if chosen.contains(&j) {
            assert!(candidates.contains(&j));
            assert_eq!(m.profession, Profession::Farmer);
        } else {
            assert_eq!(*m, before[j]);
        }
    }
}

#[test]
fn emergency_without_candidates_changes_nothing() {
    let mut ms = vec![st(true, Profession::Miner), st(false, Profession::Idle)];
    let mut rng = rand::rngs::StdRng::seed_from_u64(1);
    let chosen = emergency_rebalance(&mut ms, &[true, true], &mut rng);
    assert!(chosen.is_empty());
    assert_eq!(ms[0].profession, Profession::Miner);
}

#[test]
fn income_window_and_prune() {
    let mut tracker: IncomeTracker<f32> = IncomeTracker::new();
    tracker.record(Profession::Trader, 100, 10.0);
    tracker.record(Profession::Miner, 1500, 4.0);
    tracker.record(Profession::Trader, 1600, 30.0);
    tracker.record(Profession::Trader, 2100, 50.0);
    let now = 2200;
    assert_eq!(tracker.incomes_in_window(Profession::Trader, now, INCOME_WINDOW_TICKS), vec![30.0, 50.0]);
    assert_eq!(tracker.incomes_in_window(Profession::Miner, now, INCOME_WINDOW_TICKS), vec![4.0]);
    assert_eq!(tracker.incomes_in_window(Profession::Farmer, now, INCOME_WINDOW_TICKS), Vec::<f32>::new());
    tracker.prune(now, INCOME_WINDOW_TICKS);
    assert_eq!(tracker.incomes_in_window(Profession::Trader, now, INCOME_WINDOW_TICKS), vec![30.0, 50.0]);
    // Early ticks: the window reaches back to tick zero.
    assert_eq!(tracker.incomes_in_window(Profession::Trader, 500, INCOME_WINDOW_TICKS), vec![30.0, 50.0]);
}
