use swarm_economy::hud::{commodity_short, season_name};
use swarm_economy::types::{
    channel_index, profession_key, Commodity, Profession, ReputationChannel, Season, TerrainType,
};

#[test]
fn tier_counts_per_level() {
    let count = |t: u8| Commodity::ALL.iter().filter(|c| c.tier() == t).count();
    assert_eq!(count(0), 6);
    assert_eq!(count(1), 6);
    assert_eq!(count(2), 6);
    assert_eq!(count(3), 4);
    for c in Commodity::RAW {
        assert_eq!(c.tier(), 0);
    }
    assert_eq!(Commodity::Provisions.tier(), 1);
    assert_eq!(Commodity::LuxurySet.tier(), 3);
}

#[test]
fn seasons_cycle_in_order() {
    assert_eq!(Season::Spring.next(), Season::Summer);
    assert_eq!(Season::Summer.next(), Season::Autumn);
    assert_eq!(Season::Autumn.next(), Season::Winter);
    assert_eq!(Season::Winter.next(), Season::Spring);
    for s in [Season::Spring, Season::Summer, Season::Autumn, Season::Winter] {
        assert_eq!(s.next().next().next().next(), s);
    }
}

#[test]
fn impassable_terrain() {
    assert!(!TerrainType::Mountains.is_passable());
    assert!(!TerrainType::Water.is_passable());
    assert!(TerrainType::Plains.is_passable());
    assert!(TerrainType::Coast.is_passable());
    assert!(TerrainType::Forest.is_passable());
    assert!(TerrainType::Hills.is_passable());
}

#[test]
fn profession_keys() {
    let keys: Vec<&str> = Profession::ALL.iter().map(|&p| profession_key(p)).collect();
    assert_eq!(keys, vec!["trader", "miner", "farmer", "craftsman", "soldier", "shipwright", "idle"]);
}

#[test]
fn hud_labels() {
    assert_eq!(season_name(Season::Autumn), "Autumn");
    assert_eq!(commodity_short(Commodity::EliteGear), "EGr");
    assert_eq!(commodity_short(Commodity::Fish), "Fsh");
    let shorts: Vec<&str> = Commodity::ALL.iter().map(|&c| commodity_short(c)).collect();
    assert_eq!(shorts.len(), 22);
    assert!(shorts.iter().all(|s| s.len() == 3));
}

#[test]
fn reputation_channels_have_their_own_layers() {
    let layers: Vec<usize> = ReputationChannel::ALL.iter().map(|&c| channel_index(c)).collect();
    assert_eq!(layers, vec![0, 1, 2, 3]);
    assert_eq!(channel_index(ReputationChannel::Danger), 2);
}
