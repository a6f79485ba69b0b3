//! City rules that do not depend on quantities: which upgrades a city owns
//! and when one may be bought, the food-shortage counter behind population
//! decline, the tax adjustment window, and the draw of a city's
//! specialisation.
use vstd::prelude::*;
use rand::rngs::StdRng;
use crate::types::{CityUpgrade, Commodity};
use crate::random::random_index;

verus! {

/// Consecutive ticks without food after which a city's population declines.
pub const FOOD_SHORTAGE_TICKS: u32 = 200;

/// Ticks between two tax adjustments.
pub const TAX_WINDOW_TICKS: u32 = 500;

/// Upgrades, specialisation and food-shortage counter of a city.
pub struct CityState {
    upgrades: Vec<CityUpgrade>,
    specialization: Commodity,
    ticks_without_food: u32,
}

/// Mathematical value of a city's state.
pub ghost struct CityStateModel {
    pub upgrades: Seq<CityUpgrade>,
    pub specialization: Commodity,
    pub ticks_without_food: u32,
}

impl View for CityState {
    type V = CityStateModel;

    closed spec fn view(&self) -> CityStateModel {
        CityStateModel {
            upgrades: self.upgrades@,
            specialization: self.specialization,
            ticks_without_food: self.ticks_without_food,
        }
    }
}

/// No upgrade occurs twice in `s`.
pub open spec fn no_duplicates(s: Seq<CityUpgrade>) -> bool {
    forall|i: int, j: int| 0 <= i < j < s.len() ==> s[i] != s[j]
}

fn contains_upgrade(upgrades: &Vec<CityUpgrade>, upgrade: CityUpgrade) -> (b: bool)
    ensures
        b == upgrades@.contains(upgrade),
{
    let mut i: usize = 0;
    while i < upgrades.len()
        invariant
            i <= upgrades.len(),
            forall|j: int| 0 <= j < i ==> upgrades@[j] != upgrade,
        decreases upgrades.len() - i,
    {
        if upgrades[i] == upgrade {
            return true;
        }
        i += 1;
    }
    false
}

impl CityState {
    /// A city with no upgrades, no food shortage, specialised in `specialization`.
    pub fn new(specialization: Commodity) -> (c: Self)
        ensures
            c@.upgrades.len() == 0,
            no_duplicates(c@.upgrades),
            c@.specialization == specialization,
            c@.ticks_without_food == 0,
    {
        CityState { upgrades: Vec::new(), specialization, ticks_without_food: 0 }
    }

    /// A new city whose specialisation is drawn uniformly from all
    /// commodities.
    pub fn generate(rng: &mut StdRng) -> (c: Self)
        ensures
            c@.upgrades.len() == 0,
            c@.ticks_without_food == 0,
            Commodity::ALL@.contains(c@.specialization),
    {
        let all = Commodity::ALL;
        let i = random_index(rng, all.len());
        assert(all@[i as int] == all[i as int]);
        CityState::new(all[i])
    }

    /// The commodity the city specialises in.
    pub fn specialization(&self) -> (c: Commodity)
        ensures
            c == self@.specialization,
    {
        self.specialization
    }

    /// The upgrades bought so far, in purchase order.
    pub fn upgrades(&self) -> (u: &Vec<CityUpgrade>)
        ensures
            u@ == self@.upgrades,
    {
        &self.upgrades
    }

    /// Whether the city owns `upgrade`.
    pub fn has_upgrade(&self, upgrade: CityUpgrade) -> (b: bool)
        ensures
            b == self@.upgrades.contains(upgrade),
    {
        contains_upgrade(&self.upgrades, upgrade)
    }

    /// Buy `upgrade` if the city does not own it yet and can afford it
    /// (`affordable`: the treasury covers the upgrade's cost). Returns `true`
    /// when the upgrade was bought; the caller then deducts the cost.
    pub fn try_purchase_upgrade(&mut self, upgrade: CityUpgrade, affordable: bool) -> (bought: bool)
        ensures
            bought == (!old(self)@.upgrades.contains(upgrade) && affordable),
            bought ==> final(self)@.upgrades == old(self)@.upgrades.push(upgrade),
            !bought ==> final(self)@.upgrades == old(self)@.upgrades,
            final(self)@.specialization == old(self)@.specialization,
            final(self)@.ticks_without_food == old(self)@.ticks_without_food,
            no_duplicates(old(self)@.upgrades) ==> no_duplicates(final(self)@.upgrades),
    {
        proof {
            lemma_upgrade_bought_once(self@.upgrades, upgrade);
        }
        if contains_upgrade(&self.upgrades, upgrade) || !affordable {
            return false;
        }
        self.upgrades.push(upgrade);
        true
    }

    /// Consecutive ticks the city has had no food.
    pub fn ticks_without_food(&self) -> (n: u32)
        ensures
            n == self@.ticks_without_food,
    {
        self.ticks_without_food
    }

    /// Count a tick of the food supply: the counter resets when a food
    /// commodity is stocked and grows by one otherwise. Returns `true` when
    /// the population declines this tick, i.e. the city has been without food
    /// for at least `FOOD_SHORTAGE_TICKS` consecutive ticks.
    pub fn tick_food(&mut self, has_food: bool) -> (declining: bool)
        requires
            !has_food ==> old(self)@.ticks_without_food < u32::MAX,
        ensures
            final(self)@.ticks_without_food == if has_food {
                0
            } else {
                old(self)@.ticks_without_food + 1
            },
            declining == (final(self)@.ticks_without_food >= FOOD_SHORTAGE_TICKS),
            final(self)@.upgrades == old(self)@.upgrades,
            final(self)@.specialization == old(self)@.specialization,
    {
        if has_food {
            self.ticks_without_food = 0;
        } else {
            self.ticks_without_food = self.ticks_without_food + 1;
        }
        self.ticks_without_food >= FOOD_SHORTAGE_TICKS
    }
}

/// Whether taxes are adjusted at `tick`: once every `TAX_WINDOW_TICKS` ticks.
pub fn is_tax_adjustment_tick(tick: u32) -> (b: bool)
    ensures
        b == (tick % TAX_WINDOW_TICKS == 0),
{
    tick % TAX_WINDOW_TICKS == 0
}

/// An upgrade is bought at most once: once bought it is owned, so a second
/// purchase of it is refused, and a purchase keeps the owned upgrades free of
/// duplicates.
pub proof fn lemma_upgrade_bought_once(upgrades: Seq<CityUpgrade>, upgrade: CityUpgrade)
    ensures
        upgrades.push(upgrade).contains(upgrade),
        no_duplicates(upgrades) && !upgrades.contains(upgrade) ==> no_duplicates(upgrades.push(upgrade)),
{
    assert(upgrades.push(upgrade)[upgrades.len() as int] == upgrade);
    if no_duplicates(upgrades) && !upgrades.contains(upgrade) {
        let s = upgrades.push(upgrade);
        assert forall|i: int, j: int| 0 <= i < j < s.len() implies s[i] != s[j] by {
            if j == s.len() - 1 {
                assert(s[i] == upgrades[i]);
            }
        }
    }
}

} // verus!
