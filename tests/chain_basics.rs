use chainkov::{ChainError, MarkovChain};

/// Relative weights are stored as integers; a decimal weight keeps its ratio in hundredths.
fn w(x: f32) -> u64 {
    (x * 100.0).round() as u64
}

#[test]
fn lib_test_new() {
    let m = MarkovChain::new();
    assert!(m.states().is_empty());
    assert_eq!(m.edges("a"), None);
}

#[test]
fn lib_test_add_state_choice() {
    let mut m = MarkovChain::new();
    m.add_state_choice("a", ("c".to_string(), w(0.8)));
    m.add_state_choice("a", ("b".to_string(), w(0.19)));
    m.add_state_choice("a", ("a".to_string(), w(0.01)));

    let mut expected_prob_vec = vec![];
    expected_prob_vec.push(("c".to_string(), w(0.8)));
    expected_prob_vec.push(("b".to_string(), w(0.19)));
    expected_prob_vec.push(("a".to_string(), w(0.01)));

    assert_eq!(m.edges("a"), Some(&expected_prob_vec));
}

#[test]
fn lib_test_next_state() {
    let mut m = MarkovChain::new();
    m.add_state_choice("a", ("b".to_string(), w(1.0)));
    m.add_state_choice("a", ("c".to_string(), w(0.0)));

    assert_eq!(m.next_state("a".to_string()), Ok("b".to_string()));
    assert!(m.next_state("a".to_string()) != Ok("c".to_string()));
    assert_eq!(m.next_state("b".to_string()), Ok("".to_string()));
}

#[test]
fn lib_test_generate_states() {
    let mut m = MarkovChain::new();
    m.add_state_choice("a", ("b".to_string(), w(1.0)));
    m.add_state_choice("b", ("c".to_string(), w(1.0)));
    m.add_state_choice("c", ("a".to_string(), w(1.0)));

    assert_eq!(m.generate_states("a".to_string(), 6), Ok(vec![
        "b".to_string(),
        "c".to_string(),
        "a".to_string(),
        "b".to_string(),
        "c".to_string(),
        "a".to_string(),
    ]));
    assert!(m.next_state("a".to_string()) != Ok("c".to_string()));
}

#[test]
fn markov_test_new() {
    let m = MarkovChain::new();
    assert_eq!(m.states(), Vec::<String>::new());
}

#[test]
fn markov_test_add_state_choice() {
    let mut m = MarkovChain::new();
    m.add_state_choice("a", ("c".to_string(), w(0.8)));
    m.add_state_choice("a", ("b".to_string(), w(0.19)));
    m.add_state_choice("a", ("a".to_string(), w(0.01)));

    let expected_prob_vec = vec![
        ("c".to_string(), w(0.8)),
        ("b".to_string(), w(0.19)),
        ("a".to_string(), w(0.01)),
    ];
    assert_eq!(m.edges("a"), Some(&expected_prob_vec));
}

#[test]
fn markov_test_next_state() {
    let mut m = MarkovChain::new();
    m.add_state_choice("a", ("b".to_string(), w(1.0)));
    m.add_state_choice("a", ("c".to_string(), w(0.0)));

    assert_eq!(m.next_state("a".to_string()), Ok("b".to_string()));
    assert!(m.next_state("a".to_string()) != Ok("c".to_string()));
    assert_eq!(m.next_state("b".to_string()), Ok(String::new()));
}

#[test]
fn markov_test_generate_states() {
    let mut m = MarkovChain::new();
    m.add_state_choice("a", ("b".to_string(), w(1.0)));
    m.add_state_choice("b", ("c".to_string(), w(1.0)));
    m.add_state_choice("c", ("a".to_string(), w(1.0)));

    let expected: Vec<String> = ["b", "c", "a", "b", "c", "a"].iter().map(|s| s.to_string()).collect();
    assert_eq!(m.generate_states("a".to_string(), 6), Ok(expected));
    assert!(m.next_state("a".to_string()) != Ok("c".to_string()));
}

#[test]
fn test_increment_state() {
    let mut actual_m = MarkovChain::new();

    actual_m.increment_state("a", "b");
    actual_m.add_state_choice("a", ("c".to_string(), 2));

    let expected_a = vec![("b".to_string(), 1), ("c".to_string(), 2)];
    assert_eq!(actual_m.edges("a"), Some(&expected_a), "insert adds values that have a key and no state and set them to 1.0");
    assert_eq!(actual_m.states(), vec!["a".to_string()]);

    actual_m.increment_state("a", "c");
    let expected_a = vec![("b".to_string(), 1), ("c".to_string(), 3)];
    assert_eq!(actual_m.edges("a"), Some(&expected_a), "insert increments values that already have keys and state in the transition prob");

    actual_m.increment_state("b", "a");
    let expected_b = vec![("a".to_string(), 1)];
    assert_eq!(actual_m.edges("a"), Some(&expected_a), "insert adds values that don't have a key or state and sets them to 1.0");
    assert_eq!(actual_m.edges("b"), Some(&expected_b), "insert adds values that don't have a key or state and sets them to 1.0");
    assert_eq!(actual_m.states().len(), 2);
}

#[test]
fn zero_total_weight_is_an_error() {
    let mut m = MarkovChain::new();
    m.add_state_choice("k", ("x".to_string(), 0));
    assert_eq!(m.next_state("k".to_string()), Err(ChainError::InvalidWeightDistribution));
    assert_eq!(m.generate_states("k".to_string(), 3), Err(ChainError::InvalidWeightDistribution));
}
