use rand::SeedableRng;
use swarm_economy::city::{is_tax_adjustment_tick, CityState, FOOD_SHORTAGE_TICKS};
use swarm_economy::types::{CityUpgrade, Commodity};

#[test]
fn upgrade_bought_once() {
    let mut city = CityState::new(Commodity::Ore);
    assert!(!city.try_purchase_upgrade(CityUpgrade::Walls, false), "unaffordable");
    assert!(!city.has_upgrade(CityUpgrade::Walls));
    assert!(city.try_purchase_upgrade(CityUpgrade::Walls, true));
    assert!(city.has_upgrade(CityUpgrade::Walls));
    assert!(!city.try_purchase_upgrade(CityUpgrade::Walls, true), "already owned");
    assert!(city.try_purchase_upgrade(CityUpgrade::Workshop, true));
    assert_eq!(city.upgrades(), &vec![CityUpgrade::Walls, CityUpgrade::Workshop]);
    assert_eq!(city.specialization(), Commodity::Ore);
}

#[test]
fn population_declines_after_200_ticks_without_food() {
    let mut city = CityState::new(Commodity::Grain);
    for _ in 0..FOOD_SHORTAGE_TICKS - 1 {
        assert!(!city.tick_food(false));
    }
    assert!(city.tick_food(false));
    assert_eq!(city.ticks_without_food(), 200);
    assert!(!city.tick_food(true), "food resets the shortage");
    assert_eq!(city.ticks_without_food(), 0);
}

#[test]
fn tax_adjusted_every_500_ticks() {
    assert!(is_tax_adjustment_tick(0));
    assert!(is_tax_adjustment_tick(500));
    assert!(is_tax_adjustment_tick(1500));
    assert!(!is_tax_adjustment_tick(499));
    assert!(!is_tax_adjustment_tick(501));
}

#[test]
fn generated_city_starts_plain() {
    let mut rng = rand::rngs::StdRng::seed_from_u64(9);
    let city = CityState::generate(&mut rng);
    assert!(city.upgrades().is_empty());
    assert_eq!(city.ticks_without_food(), 0);
    assert!(Commodity::ALL.contains(&city.specialization()));
}
