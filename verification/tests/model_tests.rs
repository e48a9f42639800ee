use markov::model::{join_with_spaces, MarkovBuilder, ModelError};

fn toks(words: &[&str]) -> Vec<String> {
    words.iter().map(|w| w.to_string()).collect()
}

fn pairs(model: &MarkovBuilder, window: &[&str]) -> Vec<(String, u64)> {
    let mut it = model.continuations(&toks(window)).expect("window should be known");
    let mut out: Vec<(String, u64)> = Vec::new();
    while let Some(p) = it.next() {
        out.push(p);
    }
    out
}

#[test]
fn with_n_zero_is_rejected() {
    match MarkovBuilder::with_n(0) {
        Err(e) => assert_eq!(e, ModelError::Configuration),
        Ok(_) => panic!("window size 0 must be rejected"),
    }
}

#[test]
fn new_uses_window_size_two() {
    let m = MarkovBuilder::new();
    assert_eq!(m.n(), 2);
    assert_eq!(m.window_count(), 0);
}

#[test]
fn short_sequence_leaves_model_empty() {
    let mut m = MarkovBuilder::with_n(2).unwrap();
    m.train(&toks(&["only", "two"]));
    assert_eq!(m.window_count(), 0);
}

#[test]
fn empty_model_generation_fails() {
    let m = MarkovBuilder::with_n(2).unwrap();
    assert_eq!(m.generate(5).unwrap_err(), ModelError::EmptyModel);
    assert_eq!(
        m.generate_with_draws(0, &vec![1, 1, 1], 3).unwrap_err(),
        ModelError::EmptyModel
    );
}

#[test]
fn repeated_windows_share_one_counter() {
    let mut m = MarkovBuilder::with_n(2).unwrap();
    m.train(&toks(&["a", "b", "a", "b", "a", "b"]));
    assert_eq!(m.window_count(), 2);
    assert_eq!(pairs(&m, &["a", "b"]), vec![("a".to_string(), 2)]);
    assert_eq!(pairs(&m, &["b", "a"]), vec![("b".to_string(), 2)]);
}

#[test]
fn training_produces_at_most_len_minus_n_observations() {
    let mut m = MarkovBuilder::with_n(2).unwrap();
    let input = toks(&["a", "b", "a", "b", "a", "b"]);
    m.train(&input);
    let mut observations: u64 = 0;
    for window in [["a", "b"], ["b", "a"]] {
        for (_, count) in pairs(&m, &window) {
            observations += count;
        }
    }
    assert_eq!(observations as usize, input.len() - 2);
}

#[test]
fn unknown_window_has_no_continuations() {
    let mut m = MarkovBuilder::with_n(2).unwrap();
    m.train(&toks(&["a", "b", "c"]));
    assert!(m.continuations(&toks(&["b", "c"])).is_none());
    assert!(m.continuations(&toks(&["a", "b", "c"])).is_none());
}

#[test]
fn training_accumulates_across_calls() {
    let mut m = MarkovBuilder::with_n(2).unwrap();
    m.train(&toks(&["a", "b", "c"]));
    m.train(&toks(&["a", "b", "d"]));
    assert_eq!(
        pairs(&m, &["a", "b"]),
        vec![("c".to_string(), 1), ("d".to_string(), 1)]
    );
}

#[test]
fn choose_seed_returns_a_known_window() {
    let mut m = MarkovBuilder::with_n(2).unwrap();
    assert!(m.choose_seed().is_none());
    m.train(&toks(&["the", "cat", "sat", "the", "cat", "ran"]));
    let seed = m.choose_seed().expect("trained model has a seed");
    assert_eq!(seed.len(), 2);
    assert!(m.continuations(&seed).is_some());
}

#[test]
fn deterministic_generation_picks_first_entry_on_low_draw() {
    let mut m = MarkovBuilder::with_n(2).unwrap();
    m.train(&toks(&["the", "cat", "sat", "the", "cat", "ran"]));
    assert_eq!(
        pairs(&m, &["the", "cat"]),
        vec![("sat".to_string(), 1), ("ran".to_string(), 1)]
    );
    // The window ["the","cat"] was inserted first; with a draw of 1
    // out of its total of 2 (the analogue of p = 0.4 rounding up),
    // the first entry "sat" is selected.
    let out = m.generate_with_draws(0, &vec![1], 1).unwrap();
    assert_eq!(out, toks(&["the", "cat", "sat"]));
    assert_eq!(join_with_spaces(&out), "the cat sat");
}

#[test]
fn deterministic_generation_picks_last_entry_on_total_draw() {
    let mut m = MarkovBuilder::with_n(2).unwrap();
    m.train(&toks(&["the", "cat", "sat", "the", "cat", "ran"]));
    let out = m.generate_with_draws(0, &vec![2], 1).unwrap();
    assert_eq!(out, toks(&["the", "cat", "ran"]));
}

#[test]
fn generation_stops_at_unknown_window() {
    let mut m = MarkovBuilder::with_n(2).unwrap();
    m.train(&toks(&["x", "y", "z"]));
    // Only window ["x","y"] is known. The first step yields "z"; the
    // next window ["y","z"] is unknown, so the walk stops there.
    let out = m.generate_with_draws(0, &vec![1, 1, 1], 3).unwrap();
    assert_eq!(out, toks(&["x", "y", "z"]));
    assert!(out.len() < 2 + 3);
}

#[test]
fn closed_model_generates_full_length() {
    let mut m = MarkovBuilder::with_n(2).unwrap();
    // Every continuation leads back to a known window.
    m.train(&toks(&["a", "b", "a", "b", "a"]));
    let out = m.generate(4).unwrap();
    assert_eq!(out.len(), 2 + 4);
    let out2 = m.generate_with_draws(1, &vec![1, 1, 1, 1], 4).unwrap();
    assert_eq!(out2, toks(&["b", "a", "b", "a", "b", "a"]));
}

#[test]
fn generated_sequence_stays_within_bounds() {
    let mut m = MarkovBuilder::with_n(3).unwrap();
    m.train(&toks(&["one", "two", "three", "four", "one", "two", "three"]));
    let out = m.generate(10).unwrap();
    assert!(out.len() >= 3);
    assert!(out.len() <= 3 + 10);
}

#[test]
fn join_with_spaces_formats_tokens() {
    assert_eq!(join_with_spaces(&Vec::new()), "");
    assert_eq!(join_with_spaces(&toks(&["alone"])), "alone");
    assert_eq!(join_with_spaces(&toks(&["a", "b", "c"])), "a b c");
}
