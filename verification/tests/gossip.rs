use rand::{Rng, SeedableRng};
use swarm_economy::gossip::{caravan_merges, share_all_camps, tick_gossip, GossipAgent, GossipResult, share_price_at, share_random_price, CampShare, PriceShare};
use swarm_economy::merchant::PriceEntry;
use swarm_economy::types::Commodity;

fn price(price: f32, tick: u32) -> PriceEntry<f32> {
    PriceEntry { price, observed_tick: tick }
}

#[test]
fn stale_entries_not_shared() {
    let mut rng = rand::rngs::StdRng::seed_from_u64(1);
    let prices = vec![(0u32, Commodity::Ore, price(10.0, 100))];
    for _ in 0..50 {
        let mut shares: Vec<PriceShare<f32>> = Vec::new();
        share_random_price(&prices, 2, 500, 50, &mut rng, &mut shares);
        assert!(shares.is_empty(), "stale entries should never be shared");
    }
}

#[test]
fn random_share_picks_a_fresh_entry() {
    let mut rng = rand::rngs::StdRng::seed_from_u64(42);
    let prices = vec![
        (0u32, Commodity::Ore, price(10.0, 10)),
        (1u32, Commodity::Fish, price(3.0, 190)),
        (2u32, Commodity::Clay, price(4.0, 180)),
    ];
    for _ in 0..50 {
        let mut shares: Vec<PriceShare<f32>> = Vec::new();
        share_random_price(&prices, 9, 200, 50, &mut rng, &mut shares);
        assert_eq!(shares.len(), 1);
        assert_eq!(shares[0].receiver_id, 9);
        assert!(shares[0].city_id == 1 || shares[0].city_id == 2);
    }
    let mut shares: Vec<PriceShare<f32>> = Vec::new();
    share_price_at(&prices, 9, 200, 50, 1, &mut shares);
    assert_eq!(shares[0].commodity, Commodity::Clay);
    assert_eq!(shares[0].entry.price, 4.0);
}

#[test]
fn known_camps_not_re_shared() {
    let sender = vec![(1u32, (100.0f32, 100.0f32)), (2u32, (50.0, 60.0))];
    let receiver = vec![(1u32, (100.0f32, 100.0f32))];
    let mut shares: Vec<CampShare<(f32, f32)>> = Vec::new();
    share_all_camps(&sender, 7, &receiver, &mut shares);
    assert_eq!(shares.len(), 1);
    assert_eq!(shares[0].camp_id, 2);
    assert_eq!(shares[0].receiver_id, 7);
    assert_eq!(shares[0].position, (50.0, 60.0));
    let mut again: Vec<CampShare<(f32, f32)>> = Vec::new();
    share_all_camps(&sender, 7, &sender, &mut again);
    assert!(again.is_empty(), "should not re-share already known camps");
}

#[test]
fn caravan_members_merge_their_memories() {
    let ids = [10u32, 11, 12, 13, 14, 15];
    let caravans = [Some(7u32), None, Some(3), Some(7), Some(5), Some(3)];
    let groups = caravan_merges(&ids, &caravans);
    assert_eq!(groups, vec![vec![10, 13], vec![12, 15]]);
    // A caravan with a single member present merges nothing.
    assert!(caravan_merges(&[1, 2], &[Some(1), None]).is_empty());
}

// ── Whole rounds ────────────────────────────────────────────────────────────

type Pos = (f32, f32);

struct Placed {
    pos: Pos,
    sociability: f32,
    agent: GossipAgent<f32, Pos>,
}

fn placed(
    id: u32,
    pos: Pos,
    sociability: f32,
    caravan_id: Option<u32>,
    prices: Vec<(u32, Commodity, PriceEntry<f32>)>,
    known_camps: Vec<(u32, Pos)>,
) -> Placed {
    Placed { pos, sociability, agent: GossipAgent { id, caravan_id, prices, known_camps } }
}

/// Which pairs talk this round: within 25 units, not caravan mates, and
/// the sociability-scaled roll succeeds.
fn round(agents: Vec<Placed>, now: u32, ttl: u32, seed: u64) -> GossipResult<f32, Pos> {
    let mut rng = rand::rngs::StdRng::seed_from_u64(seed);
    let n = agents.len();
    let mut talks = vec![vec![false; n]; n];
    for i in 0..n {
        for j in (i + 1)..n {
            let (a, b) = (&agents[i], &agents[j]);
            if let (Some(ca), Some(cb)) = (a.agent.caravan_id, b.agent.caravan_id) {
                if ca == cb {
                    continue;
                }
            }
            let d = ((a.pos.0 - b.pos.0).powi(2) + (a.pos.1 - b.pos.1).powi(2)).sqrt();
            if d > 25.0 {
                continue;
            }
            let chance = 0.5 * (a.sociability + b.sociability) / 2.0;
            talks[i][j] = rng.gen::<f32>() < chance;
        }
    }
    let gossip: Vec<GossipAgent<f32, Pos>> = agents.into_iter().map(|p| p.agent).collect();
    tick_gossip(&gossip, &talks, now, ttl, &mut rng)
}

#[test]
fn no_gossip_when_out_of_range() {
    for seed in 0..50 {
        let agents = vec![
            placed(1, (0.0, 0.0), 1.0, None, vec![(0, Commodity::Ore, price(5.0, 100))], vec![]),
            placed(2, (50.0, 0.0), 1.0, None, vec![(1, Commodity::Timber, price(3.0, 100))], vec![]),
        ];
        let result = round(agents, 100, 200, seed);
        assert!(result.price_shares.is_empty());
    }
}

#[test]
fn gossip_exchanges_one_price_entry_each_way() {
    let mut got_shares = false;
    for seed in 0..200 {
        let agents = vec![
            placed(1, (0.0, 0.0), 1.0, None, vec![(0, Commodity::Ore, price(5.0, 100))], vec![]),
            placed(2, (10.0, 0.0), 1.0, None, vec![(1, Commodity::Timber, price(3.0, 100))], vec![]),
        ];
        let result = round(agents, 100, 200, seed);
        if !result.price_shares.is_empty() {
            assert_eq!(result.price_shares.len(), 2);
            assert_eq!(result.price_shares[0].receiver_id, 2);
            assert_eq!(result.price_shares[0].commodity, Commodity::Ore);
            assert_eq!(result.price_shares[1].receiver_id, 1);
            assert_eq!(result.price_shares[1].commodity, Commodity::Timber);
            got_shares = true;
            break;
        }
    }
    assert!(got_shares, "gossip should eventually succeed with max sociability");
}

#[test]
fn stale_entries_never_gossiped() {
    for seed in 0..200 {
        let agents = vec![
            placed(1, (0.0, 0.0), 1.0, None, vec![(0, Commodity::Ore, price(5.0, 10))], vec![]),
            placed(2, (5.0, 0.0), 1.0, None, vec![(1, Commodity::Timber, price(3.0, 100))], vec![]),
        ];
        let result = round(agents, 100, 50, seed);
        for share in &result.price_shares {
            assert!(!(share.receiver_id == 2 && share.commodity == Commodity::Ore));
        }
    }
}

#[test]
fn camp_locations_shared_on_gossip() {
    for seed in 0..200 {
        let agents = vec![
            placed(1, (0.0, 0.0), 1.0, None, vec![], vec![(0, (100.0, 100.0))]),
            placed(2, (5.0, 0.0), 1.0, None, vec![], vec![]),
        ];
        let result = round(agents, 100, 200, seed);
        if !result.camp_shares.is_empty() {
            assert_eq!(result.camp_shares.len(), 1);
            assert_eq!(result.camp_shares[0].receiver_id, 2);
            assert_eq!(result.camp_shares[0].camp_id, 0);
            return;
        }
    }
    panic!("camp location should eventually be shared");
}

#[test]
fn caravan_members_get_full_merge() {
    let agents = vec![
        placed(1, (0.0, 0.0), 0.5, Some(10), vec![(0, Commodity::Ore, price(5.0, 100))], vec![]),
        placed(2, (5.0, 0.0), 0.5, Some(10), vec![(1, Commodity::Timber, price(3.0, 100))], vec![]),
        placed(3, (10.0, 0.0), 0.5, Some(10), vec![], vec![]),
    ];
    let result = round(agents, 100, 200, 42);
    assert_eq!(result.caravan_merges.len(), 1);
    assert_eq!(result.caravan_merges[0], vec![1, 2, 3]);
    assert!(result.price_shares.iter().all(|s| ![1, 2, 3].contains(&s.receiver_id)));
}

#[test]
fn caravan_shares_camp_knowledge() {
    let agents = vec![
        placed(1, (0.0, 0.0), 0.5, Some(10), vec![], vec![(5, (200.0, 200.0))]),
        placed(2, (5.0, 0.0), 0.5, Some(10), vec![], vec![]),
    ];
    let result = round(agents, 100, 200, 42);
    let camp_for_2: Vec<_> = result.camp_shares.iter().filter(|s| s.receiver_id == 2 && s.camp_id == 5).collect();
    assert_eq!(camp_for_2.len(), 1);
    assert_eq!(result.camp_shares.len(), 1);
}

#[test]
fn zero_sociability_prevents_gossip() {
    for seed in 0..200 {
        let agents = vec![
            placed(1, (0.0, 0.0), 0.0, None, vec![(0, Commodity::Ore, price(5.0, 100))], vec![]),
            placed(2, (5.0, 0.0), 0.0, None, vec![(1, Commodity::Timber, price(3.0, 100))], vec![]),
        ];
        let result = round(agents, 100, 200, seed);
        assert!(result.price_shares.is_empty(), "zero sociability should prevent all gossip");
    }
}

#[test]
fn known_camps_not_re_shared_in_a_round() {
    for seed in 0..100 {
        let agents = vec![
            placed(1, (0.0, 0.0), 1.0, None, vec![], vec![(0, (100.0, 100.0))]),
            placed(2, (5.0, 0.0), 1.0, None, vec![], vec![(0, (100.0, 100.0))]),
        ];
        let result = round(agents, 100, 200, seed);
        assert!(result.camp_shares.is_empty(), "should not re-share already known camps");
    }
}

#[test]
fn talking_pairs_follow_the_matrix() {
    let mut rng = rand::rngs::StdRng::seed_from_u64(3);
    let agents: Vec<GossipAgent<f32, Pos>> = vec![
        GossipAgent { id: 1, caravan_id: Some(4), prices: vec![(0, Commodity::Ore, price(5.0, 100))], known_camps: vec![] },
        GossipAgent { id: 2, caravan_id: Some(4), prices: vec![(1, Commodity::Fish, price(2.0, 100))], known_camps: vec![] },
        GossipAgent { id: 3, caravan_id: None, prices: vec![], known_camps: vec![(9, (1.0, 2.0))] },
    ];
    // Caravan mates 1 and 2 are skipped even when flagged; 1 and 3 talk.
    let talks = vec![vec![false, true, true], vec![false, false, false], vec![false, false, false]];
    let result = tick_gossip(&agents, &talks, 100, 200, &mut rng);
    assert_eq!(result.caravan_merges, vec![vec![1, 2]]);
    assert_eq!(result.price_shares.len(), 1);
    assert_eq!(result.price_shares[0].receiver_id, 3);
    assert_eq!(result.price_shares[0].commodity, Commodity::Ore);
    assert_eq!(result.camp_shares.len(), 1);
    assert_eq!(result.camp_shares[0].receiver_id, 1);
    assert_eq!(result.camp_shares[0].camp_id, 9);
}
