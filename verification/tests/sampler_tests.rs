use monkey_typing::counts::CountTable;
use monkey_typing::ngram::generate_bigram_map;
use monkey_typing::sampler::{
    bit_length, bucket_index, next_char, pick_linear, pick_log, pick_uniform, sample_markov,
    TypingStrategy,
};
use rand::SeedableRng;

fn chars(s: &str) -> Vec<char> {
    s.chars().collect()
}

fn rng(seed: u64) -> rand::rngs::StdRng {
    rand::rngs::StdRng::seed_from_u64(seed)
}

#[test]
fn strategy_prefixes() {
    assert_eq!(TypingStrategy::Random.prefix(), "random_");
    assert_eq!(TypingStrategy::LinearCommon.prefix(), "linear_");
    assert_eq!(TypingStrategy::LogCommon.prefix(), "log_");
    assert_eq!(TypingStrategy::Bigram.prefix(), "bigram");
    assert_eq!(TypingStrategy::Trigram.prefix(), "trigram");
}

#[test]
fn uniform_draws_stay_in_alphabet() {
    let alphabet = chars("xyz");
    let mut r = rng(7);
    for _ in 0..500 {
        let c = pick_uniform(&alphabet, &mut r);
        assert!(alphabet.contains(&c));
    }
}

#[test]
fn linear_never_selects_last_entry() {
    let alphabet = chars("abc");
    let mut r = rng(11);
    for _ in 0..2000 {
        let c = pick_linear(&alphabet, &mut r);
        assert!(c == 'a' || c == 'b');
    }
}

#[test]
fn log_can_select_every_entry() {
    let alphabet = chars("abc");
    let mut r = rng(13);
    let mut seen = [false; 3];
    for _ in 0..2000 {
        let c = pick_log(&alphabet, &mut r);
        let i = alphabet.iter().position(|&x| x == c).expect("in alphabet");
        seen[i] = true;
    }
    assert!(seen[0] && seen[1] && seen[2]);
}

#[test]
fn bucket_scan_locates_draws() {
    let w: Vec<u64> = vec![2, 1];
    assert_eq!(bucket_index(&w, 0), 0);
    assert_eq!(bucket_index(&w, 1), 0);
    assert_eq!(bucket_index(&w, 2), 1);
    // A draw at or past the total falls back to the first entry.
    assert_eq!(bucket_index(&w, 3), 0);
}

#[test]
fn bit_lengths() {
    assert_eq!(bit_length(0), 0);
    assert_eq!(bit_length(1), 1);
    assert_eq!(bit_length(2), 2);
    assert_eq!(bit_length(3), 2);
    assert_eq!(bit_length(26), 5);
}

#[test]
fn markov_fallback_returns_alphabet_character() {
    let alphabet = chars("xyz");
    let empty = CountTable::new();
    let page = chars("abc");
    let mut r = rng(17);
    for _ in 0..100 {
        let c = sample_markov(&alphabet, &empty, &page, 1, &mut r);
        assert!(alphabet.contains(&c));
        let c2 = sample_markov(&alphabet, &empty, &page, 2, &mut r);
        assert!(alphabet.contains(&c2));
    }
}

#[test]
fn markov_follows_recorded_bigrams() {
    // In this corpus the only continuation of 'a' is 'b', so a bigram draw
    // with trailing context 'a' must produce 'b'.
    let corpus = chars("abababab");
    let bigrams = generate_bigram_map(&corpus);
    let alphabet = chars("ab");
    let page = chars("xa");
    let mut r = rng(19);
    for _ in 0..50 {
        let c = sample_markov(&alphabet, &bigrams, &page, 1, &mut r);
        assert_eq!(c, 'b');
    }
}

#[test]
fn markov_cold_start_is_uniform_over_alphabet() {
    let corpus = chars("abababab");
    let bigrams = generate_bigram_map(&corpus);
    let alphabet = chars("xyz");
    let empty_page: Vec<char> = Vec::new();
    let mut r = rng(23);
    for _ in 0..100 {
        let c = sample_markov(&alphabet, &bigrams, &empty_page, 1, &mut r);
        assert!(alphabet.contains(&c));
    }
}

#[test]
fn next_char_respects_each_strategy() {
    let corpus = chars("abababab");
    let bigrams = generate_bigram_map(&corpus);
    let trigrams = monkey_typing::ngram::generate_trigram_map(&corpus);
    let alphabet = chars("ab");
    let page = chars("ab");
    let mut r = rng(29);
    for strategy in [
        TypingStrategy::Random,
        TypingStrategy::LinearCommon,
        TypingStrategy::LogCommon,
        TypingStrategy::Bigram,
        TypingStrategy::Trigram,
    ] {
        for _ in 0..50 {
            let c = next_char(&alphabet, strategy, &bigrams, &trigrams, &page, &mut r);
            assert!(alphabet.contains(&c));
            if matches!(strategy, TypingStrategy::LinearCommon) {
                assert_eq!(c, 'a');
            }
        }
    }
}
