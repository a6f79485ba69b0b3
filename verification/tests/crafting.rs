use swarm_economy::crafting::{advance_craft_timer, CityContext, CraftingEngine, CraftingError};
use swarm_economy::order_book::commodity_index;
use swarm_economy::types::{CityUpgrade, Commodity};

/// Run a crafting job of `ticks` timer ticks to completion; returns how many
/// crafting ticks it took. A job completes on the tick its timer reaches zero.
fn run_job(ticks: u32, specialized: bool) -> Vec<u32> {
    let mut remaining = ticks;
    let mut trace = Vec::new();
    loop {
        if remaining == 0 {
            trace.push(0);
            return trace;
        }
        remaining = advance_craft_timer(remaining, specialized);
        trace.push(remaining);
        if remaining == 0 {
            return trace;
        }
    }
}

#[test]
fn timer_completes_without_specialization() {
    // Provisions take 3 ticks; completion on the third tick.
    let trace = run_job(3, false);
    assert_eq!(trace, vec![2, 1, 0]);
}

#[test]
fn timer_faster_with_matching_specialization() {
    // With specialization: alternates -1 (odd remaining) and -2 (even remaining)
    // 5 (odd) → -1 → 4, 4 (even) → -2 → 2, 2 (even) → -2 → 0 done
    let trace = run_job(5, true);
    assert_eq!(trace, vec![4, 2, 0]);
}

#[test]
fn finished_timer_stays_finished() {
    assert_eq!(advance_craft_timer(0, true), 0);
    assert_eq!(advance_craft_timer(0, false), 0);
    assert_eq!(advance_craft_timer(1, true), 0);
    assert_eq!(advance_craft_timer(25, false), 24);
    assert_eq!(run_job(25, true).len(), 13);
    assert_eq!(run_job(20, true).len(), 10);
}

#[test]
fn workshop_detection() {
    let plain = CityContext { upgrades: vec![], specialization: None };
    let walls = CityContext { upgrades: vec![CityUpgrade::Walls, CityUpgrade::Harbor], specialization: Some(Commodity::Tools) };
    let workshop = CityContext { upgrades: vec![CityUpgrade::Walls, CityUpgrade::Workshop], specialization: None };
    assert!(!plain.has_workshop());
    assert!(!walls.has_workshop());
    assert!(workshop.has_workshop());
}

// ── The crafting engine ─────────────────────────────────────────────────────

/// Stock judgements of an inventory: at least one unit of each commodity.
fn stock(items: &[(Commodity, f32)]) -> Vec<bool> {
    let mut s = vec![false; 22];
    for &(c, q) in items {
        s[commodity_index(c)] = q >= 1.0;
    }
    s
}

fn recipe_for(engine: &CraftingEngine, output: Commodity) -> swarm_economy::crafting::Recipe {
    *engine.recipes().iter().find(|r| r.output == output).unwrap()
}

#[test]
fn registry_has_16_recipes() {
    let engine = CraftingEngine::new();
    assert_eq!(engine.recipes().len(), 16);
}

#[test]
fn tier_counts() {
    let engine = CraftingEngine::new();
    let t1 = engine.recipes().iter().filter(|r| r.tier == 1).count();
    let t2 = engine.recipes().iter().filter(|r| r.tier == 2).count();
    let t3 = engine.recipes().iter().filter(|r| r.tier == 3).count();
    assert_eq!(t1, 6);
    assert_eq!(t2, 6);
    assert_eq!(t3, 4);
}

#[test]
fn find_available_filters_by_inventory() {
    let engine = CraftingEngine::new();
    let available = engine.find_available_recipes(&stock(&[(Commodity::Timber, 1.0), (Commodity::Ore, 1.0)]), false);
    assert_eq!(available.len(), 1);
    assert_eq!(engine.recipes()[available[0]].output, Commodity::Tools);
}

#[test]
fn find_available_excludes_tier3_without_workshop() {
    let engine = CraftingEngine::new();
    let available = engine.find_available_recipes(&stock(&[(Commodity::Weapons, 1.0), (Commodity::Armor, 1.0)]), false);
    assert!(available.is_empty());
}

#[test]
fn find_available_includes_tier3_with_workshop() {
    let engine = CraftingEngine::new();
    let available = engine.find_available_recipes(&stock(&[(Commodity::Weapons, 1.0), (Commodity::Armor, 1.0)]), true);
    assert_eq!(available.len(), 1);
    assert_eq!(engine.recipes()[available[0]].output, Commodity::EliteGear);
}

#[test]
fn start_craft_consumes_inputs() {
    let engine = CraftingEngine::new();
    let recipe = recipe_for(&engine, Commodity::Tools);
    let mut timber = 5.0_f32;
    let mut ore = 3.0_f32;
    let job = engine.start_craft(&recipe, &stock(&[(Commodity::Timber, timber), (Commodity::Ore, ore)]), false).unwrap();
    // The caller removes one unit of each input.
    timber -= 1.0;
    ore -= 1.0;
    assert_eq!(job.ticks_remaining, 5);
    assert_eq!(timber, 4.0);
    assert_eq!(ore, 2.0);
    assert_eq!((recipe.input_a, recipe.input_b), (Commodity::Timber, Commodity::Ore));
}

#[test]
fn start_craft_fails_insufficient_materials() {
    let engine = CraftingEngine::new();
    let recipe = recipe_for(&engine, Commodity::Tools);
    let result = engine.start_craft(&recipe, &stock(&[(Commodity::Timber, 1.0)]), false);
    assert!(matches!(result, Err(CraftingError::InsufficientMaterial { .. })));
    assert_eq!(result.unwrap_err(), CraftingError::InsufficientMaterial { commodity: Commodity::Ore });
}

#[test]
fn start_craft_fails_without_workshop_for_tier3() {
    let engine = CraftingEngine::new();
    let recipe = recipe_for(&engine, Commodity::EliteGear);
    let result = engine.start_craft(&recipe, &stock(&[(Commodity::Weapons, 1.0), (Commodity::Armor, 1.0)]), false);
    assert!(matches!(result, Err(CraftingError::WorkshopRequired)));
}

#[test]
fn tick_craft_completes_without_specialization() {
    let engine = CraftingEngine::new();
    let recipe = recipe_for(&engine, Commodity::Provisions);
    let mut job = engine.start_craft(&recipe, &stock(&[(Commodity::Grain, 1.0), (Commodity::Fish, 1.0)]), false).unwrap();
    assert_eq!(job.ticks_remaining, 3);
    assert!(engine.tick_craft(&mut job, None).is_none());
    assert!(engine.tick_craft(&mut job, None).is_none());
    assert_eq!(engine.tick_craft(&mut job, None), Some(Commodity::Provisions));
}

#[test]
fn tick_craft_faster_with_matching_specialization() {
    let engine = CraftingEngine::new();
    let recipe = recipe_for(&engine, Commodity::Tools);
    let mut job = engine.start_craft(&recipe, &stock(&[(Commodity::Timber, 1.0), (Commodity::Ore, 1.0)]), false).unwrap();
    assert_eq!(job.ticks_remaining, 5);
    let spec = Some(Commodity::Tools);
    assert!(engine.tick_craft(&mut job, spec).is_none()); // 5→4
    assert!(engine.tick_craft(&mut job, spec).is_none()); // 4→2
    assert_eq!(engine.tick_craft(&mut job, spec), Some(Commodity::Tools)); // 2→0
}

#[test]
fn all_tier3_require_workshop() {
    let engine = CraftingEngine::new();
    for recipe in engine.recipes().iter().filter(|r| r.tier == 3) {
        assert!(recipe.requires_workshop, "{:?} should require workshop", recipe.output);
    }
}

#[test]
fn no_tier1_or_tier2_require_workshop() {
    let engine = CraftingEngine::new();
    for recipe in engine.recipes().iter().filter(|r| r.tier < 3) {
        assert!(!recipe.requires_workshop, "{:?} should not require workshop", recipe.output);
    }
}
