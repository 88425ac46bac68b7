use monkey_typing::ngram::{generate_bigram_map, generate_trigram_map};

fn chars(s: &str) -> Vec<char> {
    s.chars().collect()
}

#[test]
fn bigram_counts_sum_to_len_minus_one() {
    let corpus = chars("abcab");
    let m = generate_bigram_map(&corpus);
    assert_eq!(m.total_count(), 4);
    assert_eq!(m.get(&chars("ab")), 2);
    assert_eq!(m.get(&chars("bc")), 1);
    assert_eq!(m.get(&chars("ca")), 1);
    assert_eq!(m.get(&chars("zz")), 0);
}

#[test]
fn trigram_counts_sum_to_len_minus_two() {
    let corpus = chars("abcab");
    let m = generate_trigram_map(&corpus);
    assert_eq!(m.total_count(), 3);
    assert_eq!(m.get(&chars("abc")), 1);
    assert_eq!(m.get(&chars("bca")), 1);
    assert_eq!(m.get(&chars("cab")), 1);
}

#[test]
fn short_corpus_yields_empty_maps() {
    let one = chars("a");
    assert_eq!(generate_bigram_map(&one).total_count(), 0);
    assert_eq!(generate_trigram_map(&one).total_count(), 0);
    let two = chars("ab");
    assert_eq!(generate_bigram_map(&two).total_count(), 1);
    assert_eq!(generate_trigram_map(&two).total_count(), 0);
    assert_eq!(generate_trigram_map(&two).get(&chars("ab")), 0);
    let empty = chars("");
    assert_eq!(generate_bigram_map(&empty).total_count(), 0);
}

#[test]
fn successors_follow_the_corpus() {
    let corpus = chars("abacad");
    let m = generate_bigram_map(&corpus);
    let succ = m.successors_of(&chars("a"));
    assert_eq!(succ.len(), 3);
    assert!(succ.contains(&'b'));
    assert!(succ.contains(&'c'));
    assert!(succ.contains(&'d'));
    assert!(m.successors_of(&chars("z")).is_empty());
}
