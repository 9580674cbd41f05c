use markov::matrix::{mat_dim, mat_row_entries};
use markov::model::{MarkovGeneratorBase, TrainError};
use markov::state::State;
use markov::state_index::StateIndex;
use markov::text::tokenize_input;

type MarkovGenerator = MarkovGeneratorBase<Vec<State>>;

fn chars_of(s: &str) -> Vec<char> {
    s.chars().collect()
}

fn train(corpus: &str, order: u32) -> Result<MarkovGenerator, TrainError> {
    let tokens = tokenize_input(&chars_of(corpus));
    MarkovGenerator::from_tokens(&tokens, order)
}

fn state_of(words: &[&str]) -> State {
    State::new(words.iter().map(|w| w.to_string()).collect())
}

#[test]
fn concrete_scenario_states_and_ids() {
    let m = train("a b a b a b", 1).unwrap();
    assert_eq!(m.states.len(), 2);
    assert!(*m.states.get_state(0).unwrap() == state_of(&["a"]));
    assert!(*m.states.get_state(1).unwrap() == state_of(&["b"]));
    assert_eq!(m.states.get_index(&state_of(&["a"])), Some(0));
    assert_eq!(m.states.get_index(&state_of(&["b"])), Some(1));
}

#[test]
fn concrete_scenario_matrix_entries() {
    // corpus "a b a b a b": adjacent window pairs are ab, ba, ab, ba, ab.
    // row = id of the newer window, column = id of the prior one, so
    // row(a), col(b) counts the two b->a steps and row(b), col(a) the
    // three a->b steps.
    let m = train("a b a b a b", 1).unwrap();
    let row_a = mat_row_entries(&m.mat, 0);
    let row_b = mat_row_entries(&m.mat, 1);
    assert_eq!(row_a, vec![(1usize, 2u16)]);
    assert_eq!(row_b, vec![(0usize, 3u16)]);
}

#[test]
fn concrete_scenario_prediction_is_forced() {
    // each row holds a single nonzero weight, so prediction from one
    // state always resolves to the other's column.
    let m = train("a b a b a b", 1).unwrap();
    for _ in 0..20 {
        assert!(m.predict(&state_of(&["a"])) == state_of(&["b"]));
        assert!(m.predict(&state_of(&["b"])) == state_of(&["a"]));
    }
}

#[test]
fn training_is_deterministic() {
    let m1 = train("the cat sat on the mat. the cat ran.", 2).unwrap();
    let m2 = train("the cat sat on the mat. the cat ran.", 2).unwrap();
    assert_eq!(m1.states.len(), m2.states.len());
    for i in 0..m1.states.len() {
        assert!(m1.states.get_state(i).unwrap() == m2.states.get_state(i).unwrap());
    }
    assert_eq!(mat_dim(&m1.mat), mat_dim(&m2.mat));
    for r in 0..mat_dim(&m1.mat) {
        assert_eq!(mat_row_entries(&m1.mat, r), mat_row_entries(&m2.mat, r));
    }
}

#[test]
fn sparsity_no_zero_counts() {
    let m = train("one fish two fish red fish blue fish", 1).unwrap();
    for r in 0..mat_dim(&m.mat) {
        for (_col, count) in mat_row_entries(&m.mat, r) {
            assert!(count >= 1);
        }
    }
}

#[test]
fn boundary_input_length_equals_order() {
    let m = train("a b c", 3).unwrap();
    assert_eq!(m.states.len(), 1);
    assert!(*m.states.get_state(0).unwrap() == state_of(&["a", "b", "c"]));
    for r in 0..mat_dim(&m.mat) {
        assert!(mat_row_entries(&m.mat, r).is_empty());
    }
}

#[test]
fn boundary_input_shorter_than_order() {
    assert_eq!(train("a b", 3).err(), Some(TrainError::InsufficientInput));
    assert_eq!(train("", 1).err(), Some(TrainError::InsufficientInput));
}

#[test]
fn dead_end_falls_back_to_random_state() {
    // "a" never follows anything, so its row is empty: prediction from it
    // must fall back to a random registered state, roughly uniformly.
    let m = train("a b c", 1).unwrap();
    let a = state_of(&["a"]);
    let mut seen = [false; 3];
    for _ in 0..200 {
        let s = m.predict(&a);
        let id = m.states.get_index(&s).unwrap();
        seen[id] = true;
    }
    assert!(seen[0] && seen[1] && seen[2]);
}

#[test]
fn weighted_sampling_follows_counts() {
    // row of "x" holds p with weight 3 and q with weight 1: the empirical
    // frequency of p must approach 3/4.
    let m = train("p x p x p x q x", 1).unwrap();
    let x = state_of(&["x"]);
    let p = state_of(&["p"]);
    let q = state_of(&["q"]);
    let mut p_hits = 0u32;
    let trials = 2000u32;
    for _ in 0..trials {
        let s = m.predict(&x);
        if s == p {
            p_hits += 1;
        } else {
            assert!(s == q);
        }
    }
    // 0.75 +- 0.15 is far beyond any plausible sampling noise at n=2000
    assert!(p_hits * 100 > trials * 60, "p frequency too low: {p_hits}/{trials}");
    assert!(p_hits * 100 < trials * 90, "p frequency too high: {p_hits}/{trials}");
}

#[test]
fn unknown_state_falls_back_to_random_state() {
    let m = train("a b a b", 1).unwrap();
    let s = m.predict(&state_of(&["zebra"]));
    assert!(m.states.get_index(&s).is_some());
}

#[test]
fn random_state_is_registered() {
    let m = train("a b c d e", 1).unwrap();
    for _ in 0..50 {
        let s = m.random_state();
        assert!(m.states.get_index(s).is_some());
    }
}

#[test]
fn from_slice_takes_last_window() {
    let tokens: Vec<String> = vec!["a".into(), "b".into(), "c".into()];
    assert!(State::from_slice(&tokens, 2) == state_of(&["b", "c"]));
    assert!(State::from_slice(&tokens, 5) == state_of(&["a", "b", "c"]));
}
