//! Core enumerations shared by the whole economy.
use vstd::prelude::*;

verus! {

/// Identifier of a city.
pub type CityId = u32;

// ── Commodity ──────────────────────────────────────────────────────────────

/// Tradeable goods, grouped by production tier.
#[derive(Debug, Clone, Copy, PartialEq, Eq, Hash, Structural)]
pub enum Commodity {
    // Tier 0 — Raw
    Timber,
    Ore,
    Grain,
    Fish,
    Clay,
    Herbs,
    // Tier 1 — Basic Refined
    Tools,
    Medicine,
    Bricks,
    Metalwork,
    Provisions,
    Pottery,
    // Tier 2 — Advanced
    Weapons,
    Furniture,
    Armor,
    Alchemy,
    Machinery,
    FeastGoods,
    // Tier 3 — Elite
    EliteGear,
    Automaton,
    Elixir,
    LuxurySet,
}

/// Production tier of a commodity: 0 raw, 1 basic refined, 2 advanced, 3 elite.
pub open spec fn commodity_tier(c: Commodity) -> u8 {
    match c {
        Commodity::Timber | Commodity::Ore | Commodity::Grain | Commodity::Fish
        | Commodity::Clay | Commodity::Herbs => 0,
        Commodity::Tools | Commodity::Medicine | Commodity::Bricks | Commodity::Metalwork
        | Commodity::Provisions | Commodity::Pottery => 1,
        Commodity::Weapons | Commodity::Furniture | Commodity::Armor | Commodity::Alchemy
        | Commodity::Machinery | Commodity::FeastGoods => 2,
        Commodity::EliteGear | Commodity::Automaton | Commodity::Elixir
        | Commodity::LuxurySet => 3,
    }
}

/// Position of a commodity in the canonical listing `Commodity::ALL`.
pub open spec fn commodity_rank(c: Commodity) -> int {
    match c {
        Commodity::Timber => 0,
        Commodity::Ore => 1,
        Commodity::Grain => 2,
        Commodity::Fish => 3,
        Commodity::Clay => 4,
        Commodity::Herbs => 5,
        Commodity::Tools => 6,
        Commodity::Medicine => 7,
        Commodity::Bricks => 8,
        Commodity::Metalwork => 9,
        Commodity::Provisions => 10,
        Commodity::Pottery => 11,
        Commodity::Weapons => 12,
        Commodity::Furniture => 13,
        Commodity::Armor => 14,
        Commodity::Alchemy => 15,
        Commodity::Machinery => 16,
        Commodity::FeastGoods => 17,
        Commodity::EliteGear => 18,
        Commodity::Automaton => 19,
        Commodity::Elixir => 20,
        Commodity::LuxurySet => 21,
    }
}

impl Commodity {
    /// Every commodity, in declaration order.
    pub const ALL: [Commodity; 22] = [
        Commodity::Timber,
        Commodity::Ore,
        Commodity::Grain,
        Commodity::Fish,
        Commodity::Clay,
        Commodity::Herbs,
        Commodity::Tools,
        Commodity::Medicine,
        Commodity::Bricks,
        Commodity::Metalwork,
        Commodity::Provisions,
        Commodity::Pottery,
        Commodity::Weapons,
        Commodity::Furniture,
        Commodity::Armor,
        Commodity::Alchemy,
        Commodity::Machinery,
        Commodity::FeastGoods,
        Commodity::EliteGear,
        Commodity::Automaton,
        Commodity::Elixir,
        Commodity::LuxurySet,
    ];

    /// The raw (tier 0) commodities.
    pub const RAW: [Commodity; 6] = [
        Commodity::Timber,
        Commodity::Ore,
        Commodity::Grain,
        Commodity::Fish,
        Commodity::Clay,
        Commodity::Herbs,
    ];

    /// Production tier of this commodity.
    pub fn tier(self) -> (t: u8)
        ensures
            t == commodity_tier(self),
            t <= 3,
    {
        match self {
            Commodity::Timber
            | Commodity::Ore
            | Commodity::Grain
            | Commodity::Fish
            | Commodity::Clay
            | Commodity::Herbs => 0,
            Commodity::Tools
            | Commodity::Medicine
            | Commodity::Bricks
            | Commodity::Metalwork
            | Commodity::Provisions
            | Commodity::Pottery => 1,
            Commodity::Weapons
            | Commodity::Furniture
            | Commodity::Armor
            | Commodity::Alchemy
            | Commodity::Machinery
            | Commodity::FeastGoods => 2,
            Commodity::EliteGear
            | Commodity::Automaton
            | Commodity::Elixir
            | Commodity::LuxurySet => 3,
        }
    }
}

/// `Commodity::ALL` lists every commodity exactly once, each at its rank.
pub proof fn lemma_all_commodities_listed(c: Commodity)
    ensures
        0 <= commodity_rank(c) < 22,
        Commodity::ALL@.len() == 22,
        Commodity::ALL@[commodity_rank(c)] == c,
        forall|i: int, j: int| 0 <= i < j < 22 ==> Commodity::ALL@[i] != Commodity::ALL@[j],
{
}

/// The raw commodities are exactly the tier-0 commodities.
pub proof fn lemma_raw_is_tier_zero(c: Commodity)
    ensures
        Commodity::RAW@.contains(c) <==> commodity_tier(c) == 0,
{
    if commodity_tier(c) == 0 {
        assert(Commodity::RAW@[commodity_rank(c)] == c);
    }
}

// ── Season ─────────────────────────────────────────────────────────────────

/// The four seasons of the simulation year.
#[derive(Debug, Clone, Copy, PartialEq, Eq, Hash, Structural)]
pub enum Season {
    Spring,
    Summer,
    Autumn,
    Winter,
}

/// The season that follows `s`.
pub open spec fn season_after(s: Season) -> Season {
    match s {
        Season::Spring => Season::Summer,
        Season::Summer => Season::Autumn,
        Season::Autumn => Season::Winter,
        Season::Winter => Season::Spring,
    }
}

/// The season reached from `s` after `n` changes of season.
pub open spec fn season_after_n(s: Season, n: nat) -> Season
    decreases n,
{
    if n == 0 {
        s
    } else {
        season_after(season_after_n(s, (n - 1) as nat))
    }
}

impl Season {
    /// The season that follows this one.
    pub fn next(self) -> (s: Season)
        ensures
            s == season_after(self),
    {
        match self {
            Season::Spring => Season::Summer,
            Season::Summer => Season::Autumn,
            Season::Autumn => Season::Winter,
            Season::Winter => Season::Spring,
        }
    }
}

/// The seasons form a cycle of length four: four changes lead back to the
/// starting season, and fewer than four never do.
pub proof fn lemma_season_cycle(s: Season)
    ensures
        season_after_n(s, 4) == s,
        season_after_n(s, 1) != s,
        season_after_n(s, 2) != s,
        season_after_n(s, 3) != s,
{
    reveal_with_fuel(season_after_n, 5);
}

// ── Terrain ────────────────────────────────────────────────────────────────

/// Terrain classification of a map cell.
#[derive(Debug, Clone, Copy, PartialEq, Eq, Hash, Structural)]
pub enum TerrainType {
    Plains,
    Forest,
    Hills,
    Mountains,
    Water,
    Coast,
}

/// Whether terrain of type `t` can be crossed on foot.
pub open spec fn terrain_passable(t: TerrainType) -> bool {
    !(t == TerrainType::Mountains || t == TerrainType::Water)
}

impl TerrainType {
    /// Mountains and Water are impassable on foot; everything else is passable.
    pub fn is_passable(self) -> (b: bool)
        ensures
            b == terrain_passable(self),
    {
        !matches!(self, TerrainType::Mountains | TerrainType::Water)
    }
}

// ── Profession ─────────────────────────────────────────────────────────────

/// Merchant professions.
#[derive(Debug, Clone, Copy, PartialEq, Eq, Hash, Structural)]
pub enum Profession {
    Trader,
    Miner,
    Farmer,
    Craftsman,
    Soldier,
    Shipwright,
    Idle,
}

impl Profession {
    /// Every profession, in declaration order.
    pub const ALL: [Profession; 7] = [
        Profession::Trader,
        Profession::Miner,
        Profession::Farmer,
        Profession::Craftsman,
        Profession::Soldier,
        Profession::Shipwright,
        Profession::Idle,
    ];
}

/// Configuration key under which a profession's share is stored.
pub open spec fn profession_key_text(p: Profession) -> Seq<char> {
    match p {
        Profession::Trader => "trader"@,
        Profession::Miner => "miner"@,
        Profession::Farmer => "farmer"@,
        Profession::Craftsman => "craftsman"@,
        Profession::Soldier => "soldier"@,
        Profession::Shipwright => "shipwright"@,
        Profession::Idle => "idle"@,
    }
}

/// The configuration key of a profession (`"trader"`, `"miner"`, ...).
pub fn profession_key(prof: Profession) -> (k: &'static str)
    ensures
        k@ == profession_key_text(prof),
{
    match prof {
        Profession::Trader => "trader",
        Profession::Miner => "miner",
        Profession::Farmer => "farmer",
        Profession::Craftsman => "craftsman",
        Profession::Soldier => "soldier",
        Profession::Shipwright => "shipwright",
        Profession::Idle => "idle",
    }
}

// ── Market side, reputation channel, agent state, upgrades ─────────────────

/// Side of a market order.
#[derive(Debug, Clone, Copy, PartialEq, Eq, Hash, Structural)]
pub enum Side {
    Buy,
    Sell,
}

/// Channels of the stigmergic reputation field.
#[derive(Debug, Clone, Copy, PartialEq, Eq, Hash, Structural)]
pub enum ReputationChannel {
    Profit,
    Demand,
    Danger,
    Opportunity,
}

impl ReputationChannel {
    /// Every channel, in declaration order.
    pub const ALL: [ReputationChannel; 4] = [
        ReputationChannel::Profit,
        ReputationChannel::Demand,
        ReputationChannel::Danger,
        ReputationChannel::Opportunity,
    ];
}

/// Position of a channel in `ReputationChannel::ALL`.
pub open spec fn channel_rank(ch: ReputationChannel) -> int {
    match ch {
        ReputationChannel::Profit => 0,
        ReputationChannel::Demand => 1,
        ReputationChannel::Danger => 2,
        ReputationChannel::Opportunity => 3,
    }
}

/// Layer of the reputation field that holds channel `ch`.
pub fn channel_index(ch: ReputationChannel) -> (i: usize)
    ensures
        i == channel_rank(ch),
        ReputationChannel::ALL@[i as int] == ch,
{
    match ch {
        ReputationChannel::Profit => 0,
        ReputationChannel::Demand => 1,
        ReputationChannel::Danger => 2,
        ReputationChannel::Opportunity => 3,
    }
}

/// States of the per-profession finite-state machines.
#[derive(Debug, Clone, Copy, PartialEq, Eq, Hash, Structural)]
pub enum AgentState {
    // Trader
    Scouting,
    Buying,
    Transporting,
    Selling,
    Resting,
    Fleeing,
    // Miner / Farmer
    TravelingToNode,
    Extracting,
    TravelingToCity,
    // Craftsman
    BuyingMaterials,
    Crafting,
    SellingGoods,
    // Soldier
    Patrolling,
    Escorting,
    Fighting,
    // Shipwright
    Loading,
    Sailing,
    Unloading,
    // Shared
    Idle,
}

/// Purchasable city upgrades.
#[derive(Debug, Clone, Copy, PartialEq, Eq, Hash, Structural)]
pub enum CityUpgrade {
    MarketHall,
    Walls,
    Harbor,
    Workshop,
}

impl CityUpgrade {
    /// Every upgrade, in declaration order.
    pub const ALL: [CityUpgrade; 4] = [
        CityUpgrade::MarketHall,
        CityUpgrade::Walls,
        CityUpgrade::Harbor,
        CityUpgrade::Workshop,
    ];
}

} // verus!
