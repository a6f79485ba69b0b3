use swarm_economy::config::validate_range_u32;

#[test]
fn test_invalid_range_detected() {
    let mut errors: Vec<String> = Vec::new();
    validate_range_u32(&mut errors, "city.population_range", &[500, 50]);
    assert_eq!(errors.len(), 1);
    assert!(errors.iter().any(|e| e.contains("population_range")));
    assert_eq!(errors[0], "city.population_range: min (500) must be <= max (50)");
}

#[test]
fn valid_range_adds_nothing() {
    let mut errors: Vec<String> = vec!["earlier".to_string()];
    validate_range_u32(&mut errors, "bandit.agents_per_camp", &[3, 3]);
    validate_range_u32(&mut errors, "bandit.agents_per_camp", &[2, 6]);
    assert_eq!(errors, vec!["earlier".to_string()]);
    validate_range_u32(&mut errors, "x", &[4294967295, 0]);
    assert_eq!(errors[1], "x: min (4294967295) must be <= max (0)");
}
