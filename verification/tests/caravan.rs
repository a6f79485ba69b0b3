use swarm_economy::caravan::{Caravan, CaravanCandidate, CaravanSystem};
use swarm_economy::caravan_inputs::{dissolution_flags, escort_ranges, formation_compatibility, initiator_order};

// The caller's judgements of the candidates, made here with the thresholds
// the simulation uses: within 30 px and heading difference at most π/4,
// sociability above 0.5 to initiate; the library orders the initiators and
// builds the matrices from them.

const FORMATION_RANGE: f32 = 30.0;
const HEADING_TOLERANCE: f32 = std::f32::consts::FRAC_PI_4;
const DISSOLUTION_SPREAD: f32 = 100.0;
const ESCORT_RANGE: f32 = 30.0;

struct Cand {
    id: u32,
    pos: (f32, f32),
    heading: f32,
    speed: f32,
    sociability: f32,
    caravan_id: Option<u32>,
}

fn candidate(id: u32, pos: (f32, f32), heading: f32, speed: f32, sociability: f32, caravan_id: Option<u32>) -> Cand {
    Cand { id, pos, heading, speed, sociability, caravan_id }
}

fn dist(a: (f32, f32), b: (f32, f32)) -> f32 {
    ((a.0 - b.0) * (a.0 - b.0) + (a.1 - b.1) * (a.1 - b.1)).sqrt()
}

fn heading_diff(a: f32, b: f32) -> f32 {
    let diff = (a - b).rem_euclid(std::f32::consts::TAU);
    if diff > std::f32::consts::PI {
        std::f32::consts::TAU - diff
    } else {
        diff
    }
}

/// Sociability rank: how many distinct sociability values lie below this one.
fn ranks(cands: &[Cand]) -> Vec<u32> {
    cands
        .iter()
        .map(|a| {
            let mut below: Vec<f32> = cands.iter().map(|b| b.sociability).filter(|&s| s < a.sociability).collect();
            below.sort_by(|x, y| x.partial_cmp(y).unwrap());
            below.dedup();
            below.len() as u32
        })
        .collect()
}

fn matrix(cands: &[Cand], f: impl Fn(&Cand, &Cand) -> bool) -> Vec<Vec<bool>> {
    cands.iter().map(|a| cands.iter().map(|b| f(a, b)).collect()).collect()
}

fn lib_candidates(cands: &[Cand]) -> Vec<CaravanCandidate> {
    cands.iter().map(|c| CaravanCandidate { id: c.id, caravan_id: c.caravan_id }).collect()
}

fn form(system: &mut CaravanSystem, cands: &[Cand]) -> Vec<swarm_economy::caravan::FormationEvent> {
    let lib = lib_candidates(cands);
    let sociable: Vec<bool> = cands.iter().map(|c| c.sociability > 0.5).collect();
    let initiators = initiator_order(&lib, &sociable, &ranks(cands));
    let near = matrix(cands, |a, b| dist(a.pos, b.pos) <= FORMATION_RANGE);
    let aligned = matrix(cands, |a, b| heading_diff(a.heading, b.heading) <= HEADING_TOLERANCE);
    let compatible = formation_compatibility(&near, &aligned);
    system.try_form_caravan(&lib, &initiators, &compatible)
}

fn caravan(id: u32, members: Vec<u32>, leader: u32) -> Caravan {
    Caravan { id, member_ids: members, leader_id: leader, escort_ids: Vec::new() }
}

fn dissolve_flags(system: &CaravanSystem, cands: &[Cand], cities: &[((f32, f32), f32)]) -> Vec<bool> {
    let far = matrix(cands, |a, b| dist(a.pos, b.pos) > DISSOLUTION_SPREAD);
    let at_city: Vec<bool> =
        cands.iter().map(|c| cities.iter().any(|&(cp, r)| dist(c.pos, cp) <= r)).collect();
    dissolution_flags(system.caravans(), &lib_candidates(cands), &far, &at_city)
}

/// Escort ranges with the soldiers standing as extra candidates after the merchants.
fn escort_matrix(system: &CaravanSystem, cands: &[Cand], soldiers: &[(u32, (f32, f32))]) -> Vec<Vec<bool>> {
    let mut all: Vec<CaravanCandidate> = lib_candidates(cands);
    let mut positions: Vec<(f32, f32)> = cands.iter().map(|c| c.pos).collect();
    for &(id, pos) in soldiers {
        all.push(CaravanCandidate { id, caravan_id: None });
        positions.push(pos);
    }
    let near: Vec<Vec<bool>> =
        positions.iter().map(|&a| positions.iter().map(|&b| dist(a, b) <= ESCORT_RANGE).collect()).collect();
    let soldier_idx: Vec<usize> = (cands.len()..cands.len() + soldiers.len()).collect();
    escort_ranges(system.caravans(), &all, &near, &soldier_idx)
}

// ── Formation ────────────────────────────────────────────────────────────

#[test]
fn form_caravan_with_three_nearby_merchants() {
    let mut system = CaravanSystem::new();
    let candidates = vec![
        candidate(1, (0.0, 0.0), 1.0, 2.0, 0.8, None),
        candidate(2, (10.0, 0.0), 1.1, 2.5, 0.3, None),
        candidate(3, (5.0, 5.0), 0.9, 2.0, 0.4, None),
    ];
    let events = form(&mut system, &candidates);
    assert_eq!(events.len(), 1);
    assert_eq!(events[0].leader_id, 1);
    assert_eq!(events[0].member_ids.len(), 3);
    assert_eq!(system.caravans().len(), 1);
}

#[test]
fn no_caravan_if_low_sociability() {
    let mut system = CaravanSystem::new();
    let candidates = vec![
        candidate(1, (0.0, 0.0), 1.0, 2.0, 0.3, None),
        candidate(2, (10.0, 0.0), 1.1, 2.5, 0.3, None),
        candidate(3, (5.0, 5.0), 0.9, 2.0, 0.4, None),
    ];
    assert!(form(&mut system, &candidates).is_empty());
}

#[test]
fn no_caravan_if_headings_too_different() {
    let mut system = CaravanSystem::new();
    let candidates = vec![
        candidate(1, (0.0, 0.0), 0.0, 2.0, 0.8, None),
        candidate(2, (10.0, 0.0), 2.0, 2.5, 0.3, None),
        candidate(3, (5.0, 5.0), 3.0, 2.0, 0.4, None),
    ];
    assert!(form(&mut system, &candidates).is_empty());
}

#[test]
fn no_caravan_if_too_far_apart() {
    let mut system = CaravanSystem::new();
    let candidates = vec![
        candidate(1, (0.0, 0.0), 1.0, 2.0, 0.8, None),
        candidate(2, (100.0, 0.0), 1.1, 2.5, 0.3, None),
        candidate(3, (50.0, 50.0), 0.9, 2.0, 0.4, None),
    ];
    assert!(form(&mut system, &candidates).is_empty());
}

#[test]
fn no_caravan_with_only_one_other() {
    let mut system = CaravanSystem::new();
    let candidates = vec![
        candidate(1, (0.0, 0.0), 1.0, 2.0, 0.8, None),
        candidate(2, (10.0, 0.0), 1.1, 2.5, 0.3, None),
    ];
    assert!(form(&mut system, &candidates).is_empty(), "need 2+ others, not just 1");
}

#[test]
fn already_in_caravan_cannot_join_new() {
    let mut system = CaravanSystem::new();
    system.insert_caravan(caravan(0, vec![2, 3, 4], 2));
    let candidates = vec![
        candidate(1, (0.0, 0.0), 1.0, 2.0, 0.8, None),
        candidate(2, (5.0, 0.0), 1.1, 2.5, 0.3, Some(0)),
        candidate(3, (5.0, 5.0), 0.9, 2.0, 0.4, Some(0)),
        candidate(5, (10.0, 0.0), 1.0, 2.0, 0.4, None),
    ];
    // Merchant 1 wants to initiate, but only merchant 5 is available.
    assert!(form(&mut system, &candidates).is_empty());
}

#[test]
fn highest_sociability_initiates_first() {
    let mut system = CaravanSystem::new();
    let candidates = vec![
        candidate(1, (0.0, 0.0), 1.0, 2.0, 0.6, None),
        candidate(2, (5.0, 0.0), 1.1, 2.5, 0.9, None),
        candidate(3, (5.0, 5.0), 0.9, 2.0, 0.3, None),
        candidate(4, (8.0, 3.0), 1.0, 2.0, 0.3, None),
    ];
    let events = form(&mut system, &candidates);
    assert_eq!(events.len(), 1);
    // Merchant 2 has highest sociability, so they lead.
    assert_eq!(events[0].leader_id, 2);
}

#[test]
fn formation_ids_are_consecutive_and_members_disjoint() {
    let mut system = CaravanSystem::new();
    let candidates = vec![
        candidate(1, (0.0, 0.0), 1.0, 2.0, 0.9, None),
        candidate(2, (5.0, 0.0), 1.0, 2.0, 0.1, None),
        candidate(3, (0.0, 5.0), 1.0, 2.0, 0.1, None),
        candidate(4, (500.0, 500.0), 1.0, 2.0, 0.8, None),
        candidate(5, (505.0, 500.0), 1.0, 2.0, 0.1, None),
        candidate(6, (500.0, 505.0), 1.0, 2.0, 0.1, None),
    ];
    let events = form(&mut system, &candidates);
    assert_eq!(events.len(), 2);
    assert_eq!(events[0].caravan_id, 0);
    assert_eq!(events[1].caravan_id, 1);
    assert_eq!(events[0].member_ids, vec![1, 2, 3]);
    assert_eq!(events[1].member_ids, vec![4, 5, 6]);
    assert_eq!(system.caravans()[1].leader_id, 4);
    assert!(system.caravans()[1].escort_ids.is_empty());
}

// ── Dissolution ──────────────────────────────────────────────────────────

#[test]
fn dissolution_when_spread_too_far() {
    let mut system = CaravanSystem::new();
    system.insert_caravan(caravan(0, vec![1, 2, 3], 1));
    let candidates = vec![
        candidate(1, (0.0, 0.0), 1.0, 2.0, 0.5, Some(0)),
        candidate(2, (150.0, 0.0), 1.0, 2.0, 0.5, Some(0)),
        candidate(3, (5.0, 5.0), 1.0, 2.0, 0.5, Some(0)),
    ];
    let flags = dissolve_flags(&system, &candidates, &[]);
    let events = system.check_dissolution(&flags);
    assert_eq!(events.len(), 1);
    assert_eq!(events[0].caravan_id, 0);
    assert!(system.caravans().is_empty());
}

#[test]
fn dissolution_when_at_city() {
    let mut system = CaravanSystem::new();
    system.insert_caravan(caravan(0, vec![1, 2, 3], 1));
    let candidates = vec![
        candidate(1, (100.0, 100.0), 1.0, 2.0, 0.5, Some(0)),
        candidate(2, (105.0, 100.0), 1.0, 2.0, 0.5, Some(0)),
        candidate(3, (102.0, 103.0), 1.0, 2.0, 0.5, Some(0)),
    ];
    let cities = vec![((100.0, 100.0), 20.0)];
    let flags = dissolve_flags(&system, &candidates, &cities);
    let events = system.check_dissolution(&flags);
    assert_eq!(events.len(), 1);
}

#[test]
fn no_dissolution_when_close_together() {
    let mut system = CaravanSystem::new();
    system.insert_caravan(caravan(0, vec![1, 2, 3], 1));
    let candidates = vec![
        candidate(1, (50.0, 50.0), 1.0, 2.0, 0.5, Some(0)),
        candidate(2, (55.0, 50.0), 1.0, 2.0, 0.5, Some(0)),
        candidate(3, (52.0, 53.0), 1.0, 2.0, 0.5, Some(0)),
    ];
    let flags = dissolve_flags(&system, &candidates, &[]);
    let events = system.check_dissolution(&flags);
    assert!(events.is_empty());
    assert_eq!(system.caravans().len(), 1);
}

#[test]
fn dissolution_moves_last_caravan_into_freed_slot() {
    let mut system = CaravanSystem::new();
    system.insert_caravan(caravan(10, vec![1, 2, 3], 1));
    system.insert_caravan(caravan(11, vec![4, 5, 6], 4));
    system.insert_caravan(caravan(12, vec![7, 8, 9], 7));
    let events = system.check_dissolution(&[true, false, false]);
    assert_eq!(events.len(), 1);
    assert_eq!(events[0].member_ids, vec![1, 2, 3]);
    let ids: Vec<u32> = system.caravans().iter().map(|c| c.id).collect();
    assert_eq!(ids, vec![12, 11]);
}

// ── Escorts ──────────────────────────────────────────────────────────────

fn escort(system: &mut CaravanSystem, cands: &[Cand], soldiers: &[(u32, (f32, f32))]) -> Vec<swarm_economy::caravan::EscortFee> {
    let ranges = escort_matrix(system, cands, soldiers);
    let soldier_ids: Vec<u32> = soldiers.iter().map(|s| s.0).collect();
    let present: Vec<u32> = cands.iter().map(|c| c.id).collect();
    system.add_soldier_escort(&soldier_ids, &present, &ranges)
}

#[test]
fn soldier_escort_charges_fees() {
    let mut system = CaravanSystem::new();
    system.insert_caravan(caravan(0, vec![1, 2, 3], 1));
    let candidates = vec![
        candidate(1, (50.0, 50.0), 1.0, 2.0, 0.5, Some(0)),
        candidate(2, (55.0, 50.0), 1.0, 2.0, 0.5, Some(0)),
        candidate(3, (52.0, 53.0), 1.0, 2.0, 0.5, Some(0)),
    ];
    let fees = escort(&mut system, &candidates, &[(100, (53.0, 51.0))]);
    // 3 members × 1 soldier = 3 fee entries.
    assert_eq!(fees.len(), 3);
    for fee in &fees {
        assert_eq!(fee.soldier_id, 100);
    }
    assert_eq!(system.caravans()[0].escort_ids, vec![100]);
}

#[test]
fn soldier_out_of_range_not_attached() {
    let mut system = CaravanSystem::new();
    system.insert_caravan(caravan(0, vec![1, 2, 3], 1));
    let candidates = vec![
        candidate(1, (50.0, 50.0), 1.0, 2.0, 0.5, Some(0)),
        candidate(2, (55.0, 50.0), 1.0, 2.0, 0.5, Some(0)),
        candidate(3, (52.0, 53.0), 1.0, 2.0, 0.5, Some(0)),
    ];
    let fees = escort(&mut system, &candidates, &[(100, (200.0, 200.0))]);
    assert!(fees.is_empty());
    assert!(system.caravans()[0].escort_ids.is_empty());
}

#[test]
fn multiple_soldiers_multiple_fees() {
    let mut system = CaravanSystem::new();
    system.insert_caravan(caravan(0, vec![1, 2], 1));
    let candidates = vec![
        candidate(1, (50.0, 50.0), 1.0, 2.0, 0.5, Some(0)),
        candidate(2, (55.0, 50.0), 1.0, 2.0, 0.5, Some(0)),
    ];
    let fees = escort(&mut system, &candidates, &[(100, (53.0, 51.0)), (101, (52.0, 49.0))]);
    // 2 members × 2 soldiers = 4 fees.
    assert_eq!(fees.len(), 4);
    assert_eq!(system.caravans()[0].escort_ids.len(), 2);
    assert_eq!((fees[0].merchant_id, fees[0].soldier_id), (1, 100));
    assert_eq!((fees[1].merchant_id, fees[1].soldier_id), (1, 101));
    assert_eq!((fees[3].merchant_id, fees[3].soldier_id), (2, 101));
}

#[test]
fn absent_member_pays_nothing_and_duplicate_soldier_counted_once() {
    let mut system = CaravanSystem::new();
    system.insert_caravan(caravan(0, vec![1, 2, 3], 1));
    let fees = system.add_soldier_escort(&[100, 100], &[1, 3], &[vec![true, true]]);
    assert_eq!(system.caravans()[0].escort_ids, vec![100]);
    let pairs: Vec<(u32, u32)> = fees.iter().map(|f| (f.merchant_id, f.soldier_id)).collect();
    assert_eq!(pairs, vec![(1, 100), (3, 100)]);
}

// ── Accessors ────────────────────────────────────────────────────────────

#[test]
fn lookups_by_id_and_member() {
    let mut system = CaravanSystem::new();
    system.insert_caravan(caravan(3, vec![1, 2, 3], 1));
    system.insert_caravan(caravan(7, vec![4, 5, 6], 4));
    assert_eq!(system.active_count(), 2);
    assert_eq!(system.get_caravan(7).unwrap().leader_id, 4);
    assert!(system.get_caravan(8).is_none());
    assert_eq!(system.caravan_for_merchant(2).unwrap().id, 3);
    assert_eq!(system.caravan_for_merchant(6).unwrap().id, 7);
    assert!(system.caravan_for_merchant(9).is_none());
}

// ── Formation inputs ─────────────────────────────────────────────────────

#[test]
fn initiator_order_ranks_then_candidate_order() {
    let cands = vec![
        CaravanCandidate { id: 1, caravan_id: None },
        CaravanCandidate { id: 2, caravan_id: None },
        CaravanCandidate { id: 3, caravan_id: Some(4) },
        CaravanCandidate { id: 4, caravan_id: None },
        CaravanCandidate { id: 5, caravan_id: None },
    ];
    let sociable = vec![true, true, true, false, true];
    let rank = vec![1, 3, 9, 9, 3];
    // Candidate 2 is in a caravan, candidate 3 is not sociable enough.
    assert_eq!(initiator_order(&cands, &sociable, &rank), vec![1, 4, 0]);
}

#[test]
fn compatibility_needs_both_judgements() {
    let near = vec![vec![true, true], vec![false, true]];
    let aligned = vec![vec![true, false], vec![true, true]];
    assert_eq!(formation_compatibility(&near, &aligned), vec![vec![true, false], vec![false, true]]);
}

#[test]
fn dissolution_ignores_absent_members() {
    let mut system = CaravanSystem::new();
    system.insert_caravan(caravan(0, vec![1, 2, 3], 1));
    // Merchant 3 is absent; 1 and 2 are close together.
    let cands = vec![CaravanCandidate { id: 1, caravan_id: Some(0) }, CaravanCandidate { id: 2, caravan_id: Some(0) }];
    let far = vec![vec![false, false], vec![false, false]];
    assert_eq!(dissolution_flags(system.caravans(), &cands, &far, &[false, false]), vec![false]);
    let far = vec![vec![false, true], vec![true, false]];
    assert_eq!(dissolution_flags(system.caravans(), &cands, &far, &[false, false]), vec![true]);
    assert_eq!(system.next_caravan_id(), 1);
}
