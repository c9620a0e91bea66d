use chainkov::{ChainError, MarkovChain};

#[test]
fn fresh_table_has_no_keys() {
    let m = MarkovChain::new();
    assert_eq!(m.states().len(), 0);
}

#[test]
fn replacing_an_edge_keeps_one_entry_with_the_new_weight() {
    let mut m = MarkovChain::new();
    m.add_state_choice("s", ("u".to_string(), 4));
    m.add_state_choice("s", ("t".to_string(), 5));
    m.add_state_choice("s", ("v".to_string(), 6));
    m.add_state_choice("s", ("t".to_string(), 9));
    let list = m.edges("s").unwrap();
    assert_eq!(list.len(), 3);
    let ts: Vec<&(String, u64)> = list.iter().filter(|e| e.0 == "t").collect();
    assert_eq!(ts, vec![&("t".to_string(), 9)]);
}

#[test]
fn distinct_targets_are_all_kept() {
    let mut m = MarkovChain::new();
    m.add_state_choice("s", ("x".to_string(), 1));
    m.add_state_choice("s", ("y".to_string(), 2));
    m.add_state_choice("s", ("z".to_string(), 3));
    assert_eq!(
        m.edges("s"),
        Some(&vec![("x".to_string(), 1), ("y".to_string(), 2), ("z".to_string(), 3)])
    );
}

#[test]
fn increment_on_fresh_table() {
    let mut m = MarkovChain::new();
    m.increment_state("s", "t");
    assert_eq!(m.edges("s"), Some(&vec![("t".to_string(), 1)]));
    assert_eq!(m.states(), vec!["s".to_string()]);
}

#[test]
fn increment_twice_and_thrice() {
    let mut m = MarkovChain::new();
    m.increment_state("s", "t");
    m.increment_state("s", "t");
    assert_eq!(m.edges("s"), Some(&vec![("t".to_string(), 2)]));
    m.increment_state("s", "t");
    assert_eq!(m.edges("s"), Some(&vec![("t".to_string(), 3)]));
}

#[test]
fn increment_keeps_position() {
    let mut m = MarkovChain::new();
    m.increment_state("s", "a");
    m.increment_state("s", "b");
    m.increment_state("s", "c");
    m.increment_state("s", "a");
    assert_eq!(
        m.edges("s"),
        Some(&vec![("a".to_string(), 2), ("b".to_string(), 1), ("c".to_string(), 1)])
    );
}

#[test]
fn increment_at_largest_weight_stays() {
    let mut m = MarkovChain::new();
    m.add_state_choice("s", ("t".to_string(), u64::MAX));
    m.increment_state("s", "t");
    assert_eq!(m.edges("s"), Some(&vec![("t".to_string(), u64::MAX)]));
}

#[test]
fn zero_weight_entry_is_never_sampled() {
    let mut m = MarkovChain::new();
    m.add_state_choice("s", ("a".to_string(), 1));
    m.add_state_choice("s", ("b".to_string(), 0));
    for _ in 0..200 {
        assert_eq!(m.next_state("s".to_string()), Ok("a".to_string()));
    }
}

#[test]
fn sampling_returns_a_positive_weight_target() {
    let mut m = MarkovChain::new();
    m.add_state_choice("s", ("a".to_string(), 3));
    m.add_state_choice("s", ("b".to_string(), 0));
    m.add_state_choice("s", ("c".to_string(), 7));
    for _ in 0..200 {
        let r = m.next_state("s".to_string()).unwrap();
        assert!(r == "a" || r == "c");
    }
}

#[test]
fn unknown_state_gives_empty_label_every_time() {
    let mut m = MarkovChain::new();
    m.add_state_choice("a", ("b".to_string(), 1));
    for _ in 0..10 {
        assert_eq!(m.next_state("zzz".to_string()), Ok(String::new()));
    }
}

#[test]
fn generated_length_matches_count() {
    let mut m = MarkovChain::new();
    m.add_state_choice("a", ("b".to_string(), 1));
    m.add_state_choice("a", ("a".to_string(), 1));
    for count in [0u16, 1, 2, 7, 50] {
        assert_eq!(m.generate_states("a".to_string(), count).unwrap().len(), count as usize);
    }
    assert_eq!(m.generate_states("q".to_string(), 0), Ok(vec![]));
}

#[test]
fn dead_end_pads_with_empty_labels() {
    let mut m = MarkovChain::new();
    m.add_state_choice("a", ("b".to_string(), 1));
    m.add_state_choice("b", ("c".to_string(), 1));
    let expected: Vec<String> = ["b", "c", "", "", ""].iter().map(|s| s.to_string()).collect();
    assert_eq!(m.generate_states("a".to_string(), 5), Ok(expected));
}

#[test]
fn walk_into_zero_weight_state_fails() {
    let mut m = MarkovChain::new();
    m.add_state_choice("a", ("b".to_string(), 1));
    m.add_state_choice("b", ("c".to_string(), 0));
    assert_eq!(m.generate_states("a".to_string(), 1), Ok(vec!["b".to_string()]));
    assert_eq!(m.generate_states("a".to_string(), 2), Err(ChainError::InvalidWeightDistribution));
}

#[test]
fn sampled_label_is_independent_of_later_mutation() {
    let mut m = MarkovChain::new();
    m.add_state_choice("a", ("b".to_string(), 1));
    let r = m.next_state("a".to_string()).unwrap();
    m.add_state_choice("a", ("b".to_string(), 0));
    m.add_state_choice("a", ("z".to_string(), 5));
    assert_eq!(r, "b");
}
