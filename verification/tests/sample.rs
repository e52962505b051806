use name_formatter::sample::{weighted_sample, Rng};

#[test]
fn empty_input_yields_no_samples() {
    let mut rng = Rng::from_seed(1);
    assert_eq!(weighted_sample(&[], 5, &mut rng), Vec::<String>::new());
}

#[test]
fn requesting_zero_samples_yields_none() {
    let weighted = vec![("Alice".to_string(), 1)];
    let mut rng = Rng::from_seed(1);
    assert_eq!(weighted_sample(&weighted, 0, &mut rng), Vec::<String>::new());
}

#[test]
fn single_entry_always_wins() {
    let weighted = vec![("Alice".to_string(), 1)];
    let mut rng = Rng::from_seed(42);
    let picks = weighted_sample(&weighted, 10, &mut rng);
    assert_eq!(picks.len(), 10);
    assert!(picks.iter().all(|p| p == "Alice"));
}

#[test]
fn heavier_weight_dominates_over_many_draws() {
    let weighted = vec![("Common".to_string(), 99), ("Rare".to_string(), 1)];
    let mut rng = Rng::from_seed(7);
    let picks = weighted_sample(&weighted, 1000, &mut rng);
    let common_count = picks.iter().filter(|p| p.as_str() == "Common").count();
    // Not asserting an exact count since it's randomized, just that the
    // 99:1 weighting is clearly reflected rather than a coin flip.
    assert!(common_count > 900, "expected most draws to be Common, got {common_count}/1000");
}

#[test]
fn same_seed_produces_same_sequence() {
    let weighted = vec![("Alice".to_string(), 1), ("Bob".to_string(), 1)];
    let mut rng_a = Rng::from_seed(123);
    let mut rng_b = Rng::from_seed(123);
    assert_eq!(
        weighted_sample(&weighted, 20, &mut rng_a),
        weighted_sample(&weighted, 20, &mut rng_b)
    );
}
