use markov::codec::{has_magic_prefix, load_model, save_model, DecodeError};
use markov::matrix::{mat_dim, mat_row_entries};
use markov::model::MarkovGeneratorBase;
use markov::state::State;
use markov::state_index::StateIndex;
use markov::text::{format_output, tokenize_input};

type MarkovGenerator = MarkovGeneratorBase<Vec<State>>;

fn chars_of(s: &str) -> Vec<char> {
    s.chars().collect()
}

fn train(corpus: &str, order: u32) -> MarkovGenerator {
    let tokens = tokenize_input(&chars_of(corpus));
    MarkovGenerator::from_tokens(&tokens, order).unwrap()
}

fn toks(words: &[&str]) -> Vec<String> {
    words.iter().map(|w| w.to_string()).collect()
}

#[test]
fn round_trip_reproduces_the_model() {
    let m = train("the quick brown fox jumps over the lazy dog. the dog naps.", 2);
    let bytes = save_model(&m);
    assert!(has_magic_prefix(&bytes));
    let m2: MarkovGenerator = load_model(&bytes).unwrap();
    assert_eq!(m2.state_size, m.state_size);
    assert_eq!(m2.states.len(), m.states.len());
    for i in 0..m.states.len() {
        assert!(m2.states.get_state(i).unwrap() == m.states.get_state(i).unwrap());
    }
    assert_eq!(mat_dim(&m2.mat), mat_dim(&m.mat));
    for r in 0..mat_dim(&m.mat) {
        assert_eq!(mat_row_entries(&m2.mat, r), mat_row_entries(&m.mat, r));
    }
}

#[test]
fn round_trip_keeps_unicode_tokens() {
    let m = train("crème brûlée crème fraîche crème brûlée", 1);
    let bytes = save_model(&m);
    let m2: MarkovGenerator = load_model(&bytes).unwrap();
    assert_eq!(m2.states.len(), m.states.len());
    for i in 0..m.states.len() {
        assert!(m2.states.get_state(i).unwrap() == m.states.get_state(i).unwrap());
    }
}

#[test]
fn load_rejects_garbage() {
    let r: Result<MarkovGenerator, _> = load_model(&vec![9u8, 9, 9, 9]);
    assert_eq!(r.err(), Some(DecodeError::InvalidPayload));
    let r: Result<MarkovGenerator, _> = load_model(&Vec::new());
    assert_eq!(r.err(), Some(DecodeError::InvalidPayload));
}

#[test]
fn load_rejects_truncated_payload() {
    let m = train("a b c a b c", 1);
    let mut bytes = save_model(&m);
    bytes.truncate(bytes.len() - 1);
    let r: Result<MarkovGenerator, _> = load_model(&bytes);
    assert_eq!(r.err(), Some(DecodeError::InvalidPayload));
}

#[test]
fn load_rejects_trailing_bytes() {
    let m = train("a b c a b c", 1);
    let mut bytes = save_model(&m);
    bytes.push(0);
    let r: Result<MarkovGenerator, _> = load_model(&bytes);
    assert_eq!(r.err(), Some(DecodeError::InvalidPayload));
}

#[test]
fn magic_prefix_detection() {
    assert!(has_magic_prefix(&vec![3u8, 4, 5, 77]));
    assert!(has_magic_prefix(&vec![3u8, 4, 5]));
    assert!(!has_magic_prefix(&vec![3u8, 4]));
    assert!(!has_magic_prefix(&vec![84u8, 104, 101, 32]));
}

#[test]
fn tokenize_lowercases_and_splits() {
    let t = tokenize_input(&chars_of("Hello, World!!"));
    assert_eq!(t, toks(&["hello", ",", "world", "!!"]));
}

#[test]
fn tokenize_coalesces_punctuation_runs() {
    let t = tokenize_input(&chars_of("wait... what?!"));
    assert_eq!(t, toks(&["wait", "...", "what", "?!"]));
}

#[test]
fn tokenize_handles_whitespace_and_empty() {
    assert_eq!(tokenize_input(&chars_of("")), toks(&[]));
    assert_eq!(tokenize_input(&chars_of("  \t\n ")), toks(&[]));
    assert_eq!(tokenize_input(&chars_of("  a  \n b\t")), toks(&["a", "b"]));
}

#[test]
fn tokenize_keeps_unicode_letters() {
    let t = tokenize_input(&chars_of("Crème BRÛLÉE"));
    // only ASCII letters are lowercased by the tokenizer
    assert_eq!(t, toks(&["crème", "brÛlÉe"]));
}

#[test]
fn format_capitalizes_and_spaces() {
    let s = format_output(&toks(&["hello", ",", "world", "!"]));
    assert_eq!(s, "Hello, world!");
}

#[test]
fn format_capitalizes_after_sentence_end() {
    let s = format_output(&toks(&["one", ".", "two", "three", "?", "four"]));
    assert_eq!(s, "One. Two three? Four");
}

#[test]
fn format_empty_is_empty() {
    assert_eq!(format_output(&toks(&[])), "");
}
