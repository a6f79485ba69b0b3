//! Short display labels for seasons and commodities.
use vstd::prelude::*;
use crate::types::{Commodity, Season};

verus! {

/// Display name of a season.
pub open spec fn season_label(s: Season) -> Seq<char> {
    match s {
        Season::Spring => "Spring"@,
        Season::Summer => "Summer"@,
        Season::Autumn => "Autumn"@,
        Season::Winter => "Winter"@,
    }
}

/// Display name of a season.
pub fn season_name(s: Season) -> (r: &'static str)
    ensures
        r@ == season_label(s),
{
    match s {
        Season::Spring => "Spring",
        Season::Summer => "Summer",
        Season::Autumn => "Autumn",
        Season::Winter => "Winter",
    }
}

/// Three-letter abbreviation of a commodity.
pub open spec fn commodity_abbreviation(c: Commodity) -> Seq<char> {
    match c {
        Commodity::Timber => "Tim"@,
        Commodity::Ore => "Ore"@,
        Commodity::Grain => "Grn"@,
        Commodity::Fish => "Fsh"@,
        Commodity::Clay => "Cly"@,
        Commodity::Herbs => "Hrb"@,
        Commodity::Tools => "Tls"@,
        Commodity::Medicine => "Med"@,
        Commodity::Bricks => "Brk"@,
        Commodity::Metalwork => "Mtl"@,
        Commodity::Provisions => "Prv"@,
        Commodity::Pottery => "Pot"@,
        Commodity::Weapons => "Wpn"@,
        Commodity::Furniture => "Fur"@,
        Commodity::Armor => "Arm"@,
        Commodity::Alchemy => "Alc"@,
        Commodity::Machinery => "Mch"@,
        Commodity::FeastGoods => "Fst"@,
        Commodity::EliteGear => "EGr"@,
        Commodity::Automaton => "Aut"@,
        Commodity::Elixir => "Elx"@,
        Commodity::LuxurySet => "Lux"@,
    }
}

/// Three-letter abbreviation of a commodity, as shown in the HUD.
pub fn commodity_short(c: Commodity) -> (r: &'static str)
    ensures
        r@ == commodity_abbreviation(c),
{
    match c {
        Commodity::Timber => "Tim",
        Commodity::Ore => "Ore",
        Commodity::Grain => "Grn",
        Commodity::Fish => "Fsh",
        Commodity::Clay => "Cly",
        Commodity::Herbs => "Hrb",
        Commodity::Tools => "Tls",
        Commodity::Medicine => "Med",
        Commodity::Bricks => "Brk",
        Commodity::Metalwork => "Mtl",
        Commodity::Provisions => "Prv",
        Commodity::Pottery => "Pot",
        Commodity::Weapons => "Wpn",
        Commodity::Furniture => "Fur",
        Commodity::Armor => "Arm",
        Commodity::Alchemy => "Alc",
        Commodity::Machinery => "Mch",
        Commodity::FeastGoods => "Fst",
        Commodity::EliteGear => "EGr",
        Commodity::Automaton => "Aut",
        Commodity::Elixir => "Elx",
        Commodity::LuxurySet => "Lux",
    }
}

} // verus!
