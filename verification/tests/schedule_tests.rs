use monkey_typing::dictionary::Dictionary;
use monkey_typing::order::{sort_typist_entries, sort_word_entries};
use monkey_typing::rng::shuffle_names;
use monkey_typing::sampler::TypingStrategy;
use monkey_typing::schedule::{all_strategies, plan_tasks, run_simulation, SimError};
use rand::SeedableRng;

fn chars(s: &str) -> Vec<char> {
    s.chars().collect()
}

fn names(n: usize) -> Vec<String> {
    (0..n).map(|i| format!("name{}", i)).collect()
}

fn small_dictionary() -> Dictionary {
    Dictionary::new(vec![chars("an"), chars("in"), chars("ane"), chars("nine")])
}

#[test]
fn roster_holds_all_five_strategies() {
    let v = all_strategies();
    assert_eq!(v.len(), 5);
    assert!(matches!(v[0], TypingStrategy::Random));
    assert!(matches!(v[4], TypingStrategy::Trigram));
}

#[test]
fn plan_glues_prefix_to_shuffled_name() {
    let strategies = vec![TypingStrategy::Random, TypingStrategy::Bigram];
    let pool = names(4);
    let plan = plan_tasks(&strategies, 2, &pool).expect("pool is large enough");
    assert_eq!(plan.len(), 4);
    assert_eq!(plan[0].1, "random_name0");
    assert_eq!(plan[1].1, "random_name1");
    assert_eq!(plan[2].1, "bigramname2");
    assert_eq!(plan[3].1, "bigramname3");
    assert!(matches!(plan[3].0, TypingStrategy::Bigram));
}

#[test]
fn exhaustion_guard() {
    // Eleven tasks cannot be named from a ten-entry pool.
    let mut eleven = Vec::new();
    for _ in 0..11 {
        eleven.push(TypingStrategy::Random);
    }
    let pool = names(10);
    let r = plan_tasks(&eleven, 1, &pool);
    assert_eq!(r, Err(SimError::NamePoolExhausted));
}

#[test]
fn run_fails_fast_when_names_run_out() {
    let r = run_simulation(
        &chars("anineanine"),
        &chars("ani"),
        &small_dictionary(),
        names(4),
        1,
        100,
        2,
        4,
        42,
    );
    assert_eq!(r.err(), Some(SimError::NamePoolExhausted));
}

#[test]
fn run_validates_inputs_up_front() {
    let dict = small_dictionary();
    let corpus = chars("anineanine");
    let empty: Vec<char> = Vec::new();
    assert_eq!(
        run_simulation(&corpus, &empty, &dict, names(10), 1, 100, 2, 4, 1).err(),
        Some(SimError::EmptyAlphabet)
    );
    assert_eq!(
        run_simulation(&corpus, &chars("a"), &dict, names(10), 1, 100, 2, 4, 1).err(),
        Some(SimError::AlphabetTooSmall)
    );
    assert_eq!(
        run_simulation(&corpus, &chars("ani"), &dict, names(10), 1, 100, 4, 4, 1).err(),
        Some(SimError::EmptyWindow)
    );
    assert_eq!(
        run_simulation(&corpus, &chars("ani"), &dict, names(10), 1, 100, 0, 4, 1).err(),
        Some(SimError::EmptyWindow)
    );
    assert_eq!(
        run_simulation(&corpus, &chars("ani"), &dict, names(10), 1, 0, 2, 4, 1).err(),
        Some(SimError::ZeroTarget)
    );
}

#[test]
fn same_seed_same_rankings() {
    let corpus = chars("nineaninenineanineanine");
    let alphabet = chars("eian");
    let dict = small_dictionary();
    let first = run_simulation(&corpus, &alphabet, &dict, names(10), 2, 400, 2, 5, 12345)
        .expect("valid inputs");
    let second = run_simulation(&corpus, &alphabet, &dict, names(10), 2, 400, 2, 5, 12345)
        .expect("valid inputs");
    assert_eq!(first, second);
    assert_eq!(first.top_typists.len(), 10);
    assert!(first.top_words.len() <= 10);
    for w in 1..first.top_words.len() {
        assert!(first.top_words[w - 1].1 >= first.top_words[w].1);
    }
    for t in 1..first.top_typists.len() {
        assert!(first.top_typists[t - 1].1 >= first.top_typists[t].1);
    }
}

#[test]
fn word_ranking_sorts_by_count_then_word() {
    let entries = vec![
        (chars("bat"), 2usize),
        (chars("ant"), 2usize),
        (chars("cow"), 5usize),
    ];
    let sorted = sort_word_entries(entries);
    assert_eq!(sorted[0], (chars("cow"), 5));
    assert_eq!(sorted[1], (chars("ant"), 2));
    assert_eq!(sorted[2], (chars("bat"), 2));
}

#[test]
fn typist_ranking_keeps_launch_order_on_ties() {
    let entries = vec![
        (String::from("x"), 1usize),
        (String::from("y"), 2usize),
        (String::from("z"), 1usize),
    ];
    let sorted = sort_typist_entries(entries);
    assert_eq!(sorted[0], (String::from("y"), 2));
    assert_eq!(sorted[1], (String::from("x"), 1));
    assert_eq!(sorted[2], (String::from("z"), 1));
}

#[test]
fn shuffling_keeps_every_name() {
    let mut pool = names(20);
    let mut rng = rand::rngs::StdRng::seed_from_u64(99);
    shuffle_names(&mut rng, &mut pool);
    assert_eq!(pool.len(), 20);
    let mut sorted = pool.clone();
    sorted.sort();
    let mut expected = names(20);
    expected.sort();
    assert_eq!(sorted, expected);
}
