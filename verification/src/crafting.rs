//! The crafting engine: the recipe registry, which recipes a merchant may
//! start in a city, and how a crafting job's timer counts down.
//!
//! Every recipe of the registry takes one unit of each of its two inputs and
//! yields one unit of its output. Inventories hold real-valued quantities, so
//! the caller judges, per commodity, whether at least one unit is in stock
//! (`in_stock[commodity_index(c)]`), and removes the inputs once a job starts.
use vstd::prelude::*;
use crate::types::{CityUpgrade, Commodity, commodity_rank};
use crate::order_book::commodity_index;

verus! {

/// Minimal view of a city that the crafting engine requires.
#[derive(Debug, Clone)]
pub struct CityContext {
    pub upgrades: Vec<CityUpgrade>,
    pub specialization: Option<Commodity>,
}

impl CityContext {
    /// Whether the city has built a Workshop (needed for tier-3 recipes).
    pub fn has_workshop(&self) -> (b: bool)
        ensures
            b == self.upgrades@.contains(CityUpgrade::Workshop),
    {
        let mut i: usize = 0;
        while i < self.upgrades.len()
            invariant
                i <= self.upgrades.len(),
                forall|j: int| 0 <= j < i ==> self.upgrades@[j] != CityUpgrade::Workshop,
            decreases self.upgrades.len() - i,
        {
            if self.upgrades[i] == CityUpgrade::Workshop {
                return true;
            }
            i += 1;
        }
        false
    }
}

/// Ticks removed from a job's timer in one crafting tick: one normally; in
/// a city specialised in the recipe's output, two when the remaining count
/// is even and one when it is odd.
pub open spec fn craft_decrement(ticks_remaining: u32, specialized: bool) -> int {
    if specialized && ticks_remaining % 2 == 0 {
        2
    } else {
        1
    }
}

/// Timer value after one crafting tick (never below zero).
pub open spec fn craft_timer_after(ticks_remaining: u32, specialized: bool) -> u32 {
    if ticks_remaining <= craft_decrement(ticks_remaining, specialized) {
        0
    } else {
        (ticks_remaining - craft_decrement(ticks_remaining, specialized)) as u32
    }
}

/// Advance a crafting timer by one tick. A timer already at zero stays at
/// zero (the job is complete).
pub fn advance_craft_timer(ticks_remaining: u32, specialized: bool) -> (t: u32)
    ensures
        ticks_remaining == 0 ==> t == 0,
        ticks_remaining > 0 ==> t == craft_timer_after(ticks_remaining, specialized),
{
    if ticks_remaining == 0 {
        return 0;
    }
    let decrement: u32 = if specialized {
        if ticks_remaining % 2 == 0 {
            2
        } else {
            1
        }
    } else {
        1
    };
    ticks_remaining.saturating_sub(decrement)
}

/// Number of crafting ticks until a timer starting at `t` reaches zero.
pub open spec fn ticks_to_finish(t: u32, specialized: bool) -> nat
    decreases t,
{
    if t == 0 {
        0
    } else {
        1 + ticks_to_finish(craft_timer_after(t, specialized), specialized)
    }
}

/// A job of `n` ticks finishes after exactly `n` crafting ticks in an
/// ordinary city and after `(n + 1) / 2` in a city specialised in its output.
pub proof fn lemma_craft_duration(n: u32)
    ensures
        ticks_to_finish(n, false) == n,
        ticks_to_finish(n, true) == (n + 1) / 2,
    decreases n,
{
    if n > 0 {
        lemma_craft_duration((n - 1) as u32);
        if n % 2 == 0 {
            lemma_craft_duration((n - 2) as u32);
            assert(craft_timer_after(n, true) == n - 2);
        } else {
            assert(craft_timer_after(n, true) == n - 1);
        }
    }
}

// ── Recipes ─────────────────────────────────────────────────────────────────

/// A recipe: two inputs (one unit each), one output unit, the crafting time,
/// the output's tier, and whether a Workshop is needed.
#[derive(Debug, Clone, Copy)]
pub struct Recipe {
    pub input_a: Commodity,
    pub input_b: Commodity,
    pub output: Commodity,
    pub craft_ticks: u32,
    pub tier: u8,
    pub requires_workshop: bool,
}

/// The recipe with the given fields.
pub open spec fn rule(a: Commodity, b: Commodity, output: Commodity, ticks: u32, tier: u8, workshop: bool) -> Recipe {
    Recipe { input_a: a, input_b: b, output, craft_ticks: ticks, tier, requires_workshop: workshop }
}

/// The sixteen recipes of the game, in registry order.
pub open spec fn registry() -> Seq<Recipe> {
    seq![
        rule(Commodity::Timber, Commodity::Ore, Commodity::Tools, 5, 1, false),
        rule(Commodity::Grain, Commodity::Herbs, Commodity::Medicine, 5, 1, false),
        rule(Commodity::Clay, Commodity::Timber, Commodity::Bricks, 5, 1, false),
        rule(Commodity::Ore, Commodity::Clay, Commodity::Metalwork, 8, 1, false),
        rule(Commodity::Grain, Commodity::Fish, Commodity::Provisions, 3, 1, false),
        rule(Commodity::Herbs, Commodity::Clay, Commodity::Pottery, 4, 1, false),
        rule(Commodity::Tools, Commodity::Ore, Commodity::Weapons, 10, 2, false),
        rule(Commodity::Tools, Commodity::Timber, Commodity::Furniture, 8, 2, false),
        rule(Commodity::Metalwork, Commodity::Clay, Commodity::Armor, 12, 2, false),
        rule(Commodity::Medicine, Commodity::Pottery, Commodity::Alchemy, 10, 2, false),
        rule(Commodity::Bricks, Commodity::Metalwork, Commodity::Machinery, 15, 2, false),
        rule(Commodity::Provisions, Commodity::Herbs, Commodity::FeastGoods, 6, 2, false),
        rule(Commodity::Weapons, Commodity::Armor, Commodity::EliteGear, 20, 3, true),
        rule(Commodity::Machinery, Commodity::Tools, Commodity::Automaton, 25, 3, true),
        rule(Commodity::Alchemy, Commodity::Medicine, Commodity::Elixir, 18, 3, true),
        rule(Commodity::Furniture, Commodity::FeastGoods, Commodity::LuxurySet, 15, 3, true),
    ]
}

/// A recipe may run in a city with (`workshop`) or without a Workshop, with
/// the stock judgements `in_stock` (indexed by commodity rank).
pub open spec fn can_craft(r: Recipe, workshop: bool, in_stock: Seq<bool>) -> bool {
    &&& (!r.requires_workshop || workshop)
    &&& in_stock[commodity_rank(r.input_a)]
    &&& in_stock[commodity_rank(r.input_b)]
}

/// A job under way: its recipe and the timer ticks left.
#[derive(Debug, Clone, Copy)]
pub struct CraftingJob {
    pub recipe: Recipe,
    pub ticks_remaining: u32,
}

/// Why a job could not start.
#[derive(Debug, Clone, Copy, PartialEq, Eq, Structural)]
pub enum CraftingError {
    /// A tier-3 recipe needs a Workshop in the city.
    WorkshopRequired,
    /// An input is not in stock.
    InsufficientMaterial { commodity: Commodity },
}

/// The registry of recipes.
pub struct CraftingEngine {
    recipes: Vec<Recipe>,
}

impl CraftingEngine {
    /// An engine holding the game's sixteen recipes.
    pub fn new() -> (e: Self)
        ensures
            e.recipes_spec() == registry(),
    {
        let mut recipes: Vec<Recipe> = Vec::new();
        recipes.push(Recipe { input_a: Commodity::Timber, input_b: Commodity::Ore, output: Commodity::Tools, craft_ticks: 5, tier: 1, requires_workshop: false });
        recipes.push(Recipe { input_a: Commodity::Grain, input_b: Commodity::Herbs, output: Commodity::Medicine, craft_ticks: 5, tier: 1, requires_workshop: false });
        recipes.push(Recipe { input_a: Commodity::Clay, input_b: Commodity::Timber, output: Commodity::Bricks, craft_ticks: 5, tier: 1, requires_workshop: false });
        recipes.push(Recipe { input_a: Commodity::Ore, input_b: Commodity::Clay, output: Commodity::Metalwork, craft_ticks: 8, tier: 1, requires_workshop: false });
        recipes.push(Recipe { input_a: Commodity::Grain, input_b: Commodity::Fish, output: Commodity::Provisions, craft_ticks: 3, tier: 1, requires_workshop: false });
        recipes.push(Recipe { input_a: Commodity::Herbs, input_b: Commodity::Clay, output: Commodity::Pottery, craft_ticks: 4, tier: 1, requires_workshop: false });
        recipes.push(Recipe { input_a: Commodity::Tools, input_b: Commodity::Ore, output: Commodity::Weapons, craft_ticks: 10, tier: 2, requires_workshop: false });
        recipes.push(Recipe { input_a: Commodity::Tools, input_b: Commodity::Timber, output: Commodity::Furniture, craft_ticks: 8, tier: 2, requires_workshop: false });
        recipes.push(Recipe { input_a: Commodity::Metalwork, input_b: Commodity::Clay, output: Commodity::Armor, craft_ticks: 12, tier: 2, requires_workshop: false });
        recipes.push(Recipe { input_a: Commodity::Medicine, input_b: Commodity::Pottery, output: Commodity::Alchemy, craft_ticks: 10, tier: 2, requires_workshop: false });
        recipes.push(Recipe { input_a: Commodity::Bricks, input_b: Commodity::Metalwork, output: Commodity::Machinery, craft_ticks: 15, tier: 2, requires_workshop: false });
        recipes.push(Recipe { input_a: Commodity::Provisions, input_b: Commodity::Herbs, output: Commodity::FeastGoods, craft_ticks: 6, tier: 2, requires_workshop: false });
        recipes.push(Recipe { input_a: Commodity::Weapons, input_b: Commodity::Armor, output: Commodity::EliteGear, craft_ticks: 20, tier: 3, requires_workshop: true });
        recipes.push(Recipe { input_a: Commodity::Machinery, input_b: Commodity::Tools, output: Commodity::Automaton, craft_ticks: 25, tier: 3, requires_workshop: true });
        recipes.push(Recipe { input_a: Commodity::Alchemy, input_b: Commodity::Medicine, output: Commodity::Elixir, craft_ticks: 18, tier: 3, requires_workshop: true });
        recipes.push(Recipe { input_a: Commodity::Furniture, input_b: Commodity::FeastGoods, output: Commodity::LuxurySet, craft_ticks: 15, tier: 3, requires_workshop: true });
        assert(recipes@ =~= registry());
        CraftingEngine { recipes }
    }

    /// The recipes the engine holds.
    pub closed spec fn recipes_spec(&self) -> Seq<Recipe> {
        self.recipes@
    }

    /// The recipes, in registry order.
    pub fn recipes(&self) -> (r: &[Recipe])
        ensures
            r@ == self.recipes_spec(),
    {
        self.recipes.as_slice()
    }

    /// Indices of the recipes that can be crafted: the city has a Workshop
    /// where the recipe needs one, and both inputs are in stock.
    pub fn find_available_recipes(&self, in_stock: &[bool], has_workshop: bool) -> (r: Vec<usize>)
        requires
            in_stock@.len() == 22,
        ensures
            forall|k: int| 0 <= k < r@.len() ==> (#[trigger] r@[k]) < self.recipes_spec().len(),
            r@.map_values(|i: usize| i as int) == Seq::new(self.recipes_spec().len(), |i: int| i).filter(
                |i: int| can_craft(self.recipes_spec()[i], has_workshop, in_stock@),
            ),
    {
        let ghost rs = self.recipes@;
        let ghost pred = |i: int| can_craft(rs[i], has_workshop, in_stock@);
        let mut r: Vec<usize> = Vec::new();
        let mut i: usize = 0;
        while i < self.recipes.len()
            invariant
                i <= rs.len(),
                rs == self.recipes@,
                in_stock@.len() == 22,
                pred == (|i: int| can_craft(rs[i], has_workshop, in_stock@)),
                forall|k: int| 0 <= k < r@.len() ==> (#[trigger] r@[k]) < i,
                r@.map_values(|j: usize| j as int) == Seq::new(i as nat, |j: int| j).filter(pred),
            decreases rs.len() - i,
        {
            let rec = self.recipes[i];
            let ok = (!rec.requires_workshop || has_workshop) && in_stock[commodity_index(rec.input_a)]
                && in_stock[commodity_index(rec.input_b)];
            let ghost before = r@;
            proof {
                let s1 = Seq::new((i + 1) as nat, |j: int| j);
                assert(s1.drop_last() =~= Seq::new(i as nat, |j: int| j));
                assert(s1.last() == i as int);
                reveal(Seq::filter);
                assert(s1.filter(pred) == if pred(i as int) {
                    s1.drop_last().filter(pred).push(i as int)
                } else {
                    s1.drop_last().filter(pred)
                });
            }
            if ok {
                r.push(i);
                assert(r@.map_values(|j: usize| j as int) =~= before.map_values(|j: usize| j as int).push(i as int));
            }
            i += 1;
        }
        r
    }

    /// Start crafting a recipe: refused when it needs a Workshop the city
    /// lacks, then when its first, then its second input is out of stock;
    /// otherwise a job with the recipe's full crafting time. The caller then
    /// removes one unit of each input from the inventory.
    pub fn start_craft(&self, recipe: &Recipe, in_stock: &[bool], has_workshop: bool) -> (r: Result<CraftingJob, CraftingError>)
        requires
            in_stock@.len() == 22,
        ensures
            r == if recipe.requires_workshop && !has_workshop {
                Err(CraftingError::WorkshopRequired)
            } else if !in_stock@[commodity_rank(recipe.input_a)] {
                Err(CraftingError::InsufficientMaterial { commodity: recipe.input_a })
            } else if !in_stock@[commodity_rank(recipe.input_b)] {
                Err(CraftingError::InsufficientMaterial { commodity: recipe.input_b })
            } else {
                Ok(CraftingJob { recipe: *recipe, ticks_remaining: recipe.craft_ticks })
            },
    {
        if recipe.requires_workshop && !has_workshop {
            return Err(CraftingError::WorkshopRequired);
        }
        if !in_stock[commodity_index(recipe.input_a)] {
            return Err(CraftingError::InsufficientMaterial { commodity: recipe.input_a });
        }
        if !in_stock[commodity_index(recipe.input_b)] {
            return Err(CraftingError::InsufficientMaterial { commodity: recipe.input_b });
        }
        Ok(CraftingJob { recipe: *recipe, ticks_remaining: recipe.craft_ticks })
    }

    /// Advance a job by one crafting tick in a city with the given
    /// specialization: its timer counts down (faster when the city is
    /// specialised in the output), and the output is returned once the timer
    /// is at zero, including for a job already finished.
    pub fn tick_craft(&self, job: &mut CraftingJob, city_specialization: Option<Commodity>) -> (out: Option<Commodity>)
        ensures
            final(job).recipe == old(job).recipe,
            final(job).ticks_remaining == if old(job).ticks_remaining == 0 {
                0
            } else {
                craft_timer_after(old(job).ticks_remaining, city_specialization == Some(old(job).recipe.output))
            },
            out == if final(job).ticks_remaining == 0 { Some(old(job).recipe.output) } else { None },
    {
        if job.ticks_remaining == 0 {
            return Some(job.recipe.output);
        }
        let specialized = match city_specialization {
            Some(c) => c == job.recipe.output,
            None => false,
        };
        job.ticks_remaining = advance_craft_timer(job.ticks_remaining, specialized);
        if job.ticks_remaining == 0 {
            Some(job.recipe.output)
        } else {
            None
        }
    }
}

/// The registry has six recipes of each of the first two tiers and four of
/// the third; exactly the tier-3 recipes need a Workshop, and each recipe's
/// tier is its output's tier.
pub proof fn lemma_registry_tiers()
    ensures
        registry().len() == 16,
        registry().filter(|r: Recipe| r.tier == 1).len() == 6,
        registry().filter(|r: Recipe| r.tier == 2).len() == 6,
        registry().filter(|r: Recipe| r.tier == 3).len() == 4,
        forall|i: int| 0 <= i < 16 ==> (#[trigger] registry()[i]).requires_workshop == (registry()[i].tier == 3),
        forall|i: int| 0 <= i < 16 ==> (#[trigger] registry()[i]).tier == crate::types::commodity_tier(registry()[i].output),
{
    reveal_with_fuel(Seq::filter, 17);
    assert(registry().filter(|r: Recipe| r.tier == 1) =~= registry().take(6));
    assert(registry().filter(|r: Recipe| r.tier == 2) =~= registry().subrange(6, 12));
    assert(registry().filter(|r: Recipe| r.tier == 3) =~= registry().subrange(12, 16));
}

} // verus!
