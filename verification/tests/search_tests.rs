use monkey_typing::counts::CountTable;
use monkey_typing::dictionary::Dictionary;
use monkey_typing::ngram::{generate_bigram_map, generate_trigram_map};
use monkey_typing::sampler::TypingStrategy;
use monkey_typing::typist::{count_occurrences, Monkey};
use rand::SeedableRng;

fn chars(s: &str) -> Vec<char> {
    s.chars().collect()
}

fn dict_of(words: &[&str]) -> Dictionary {
    Dictionary::new(words.iter().map(|w| chars(w)).collect())
}

#[test]
fn scanning_window_finds_the_single_occurrence() {
    let page = chars("foobarbaz");
    let dict = dict_of(&["obar"]);
    let m = count_occurrences(&page, &dict, 4, 5);
    assert_eq!(m.get(&chars("obar")), 1);
    assert_eq!(m.total_count(), 1);
}

#[test]
fn each_length_is_scanned_independently() {
    let page = chars("aaaa");
    let dict = dict_of(&["aa", "aaa"]);
    let m = count_occurrences(&page, &dict, 2, 4);
    assert_eq!(m.get(&chars("aa")), 3);
    assert_eq!(m.get(&chars("aaa")), 2);
    assert_eq!(m.get(&chars("aaaa")), 0);
    assert_eq!(m.total_count(), 5);
}

#[test]
fn words_outside_the_window_are_not_counted() {
    let page = chars("catdog");
    let dict = dict_of(&["cat", "dog", "catdog"]);
    let m = count_occurrences(&page, &dict, 4, 6);
    assert_eq!(m.get(&chars("cat")), 0);
    assert_eq!(m.get(&chars("dog")), 0);
    assert_eq!(m.get(&chars("catdog")), 0);
    assert_eq!(m.total_count(), 0);
}

#[test]
fn dictionary_deduplicates() {
    let d = Dictionary::new(vec![chars("cat"), chars("dog"), chars("cat")]);
    assert_eq!(d.len(), 2);
    assert!(d.contains(&chars("cat")));
    assert!(d.contains(&chars("dog")));
    assert!(!d.contains(&chars("cow")));
}

#[test]
fn merge_sums_counts_regardless_of_order() {
    let mut a = CountTable::new();
    a.add(chars("cat"), 2);
    let mut b = CountTable::new();
    b.add(chars("cat"), 3);
    b.add(chars("dog"), 1);

    let mut forward = CountTable::new();
    forward.merge_from(&a);
    forward.merge_from(&b);
    assert_eq!(forward.get(&chars("cat")), 5);
    assert_eq!(forward.get(&chars("dog")), 1);
    assert_eq!(forward.total_count(), 6);

    let mut backward = CountTable::new();
    backward.merge_from(&b);
    backward.merge_from(&a);
    assert_eq!(backward.get(&chars("cat")), 5);
    assert_eq!(backward.get(&chars("dog")), 1);
    assert_eq!(backward.total_count(), 6);
}

#[test]
fn single_key_typist_counts_exactly() {
    // With a one-key typewriter the page is forced, so the whole
    // generate-and-search task has one possible outcome.
    let typewriter = chars("a");
    let dict = dict_of(&["aaaa"]);
    let bigrams = generate_bigram_map(&chars(""));
    let trigrams = generate_trigram_map(&chars(""));
    let monkey = Monkey::new(String::from("random_tester"));
    let mut rng = rand::rngs::StdRng::seed_from_u64(3);
    let (name, counts) = monkey.type_and_count(
        &typewriter,
        10,
        4,
        5,
        &dict,
        TypingStrategy::Random,
        &bigrams,
        &trigrams,
        &mut rng,
    );
    assert_eq!(name, "random_tester");
    assert_eq!(counts.get(&chars("aaaa")), 7);
    assert_eq!(counts.total_count(), 7);
}
