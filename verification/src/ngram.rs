//! Building bigram and trigram frequency tables from a normalized corpus.

use vstd::prelude::*;
use crate::counts::CountTable;

verus! {

/// How many times the adjacent pair `a, b` occurs in `s`.
pub open spec fn pair_count(s: Seq<char>, a: char, b: char) -> int
    decreases s.len(),
{
    if s.len() < 2 {
        0
    } else {
        pair_count(s.drop_last(), a, b) + if s[s.len() - 2] == a && s[s.len() - 1] == b {
            1int
        } else {
            0int
        }
    }
}

/// How many times the adjacent triple `a, b, c` occurs in `s`.
pub open spec fn triple_count(s: Seq<char>, a: char, b: char, c: char) -> int
    decreases s.len(),
{
    if s.len() < 3 {
        0
    } else {
        triple_count(s.drop_last(), a, b, c) + if s[s.len() - 3] == a && s[s.len() - 2] == b && s[
            s.len() - 1] == c {
            1int
        } else {
            0int
        }
    }
}

/// Scans the corpus with a width-2 window, stride 1, and counts every
/// adjacent character pair. A corpus shorter than 2 yields an empty table;
/// otherwise the counts over all pairs sum to the corpus length minus 1.
pub fn generate_bigram_map(corpus: &Vec<char>) -> (m: CountTable)
    ensures
        m.wf(),
        forall|w: Seq<char>|
            w.len() == 2 ==> #[trigger] m.count_of(w) == pair_count(corpus@, w[0], w[1]),
        forall|w: Seq<char>| w.len() != 2 ==> #[trigger] m.count_of(w) == 0,
        m.total() == if corpus@.len() >= 2 {
            corpus@.len() - 1
        } else {
            0int
        },
        corpus@.len() < 2 ==> m.num_keys() == 0,
{
    let n = corpus.len();
    let mut m = CountTable::new();
    if n < 2 {
        return m;
    }
    let mut i: usize = 0;
    while i + 1 < n
        invariant
            m.wf(),
            n == corpus@.len(),
            2 <= n,
            i + 1 <= n,
            m.total() == i,
            forall|w: Seq<char>|
                w.len() == 2 ==> #[trigger] m.count_of(w) == pair_count(
                    corpus@.take(i + 1),
                    w[0],
                    w[1],
                ),
            forall|w: Seq<char>| w.len() != 2 ==> #[trigger] m.count_of(w) == 0,
        decreases n - i,
    {
        let a = corpus[i];
        let b = corpus[i + 1];
        let mut key: Vec<char> = Vec::new();
        key.push(a);
        key.push(b);
        proof {
            assert(key@ =~= seq![a, b]);
        }
        let ghost kv = key@;
        let ghost before = m;
        m.add(key, 1);
        proof {
            let t = corpus@.take(i + 2);
            assert(t.drop_last() =~= corpus@.take(i + 1));
            assert(t[t.len() - 2] == corpus@[i as int] && t[t.len() - 1] == corpus@[i + 1]);
            assert forall|w: Seq<char>|
                w.len() == 2 implies #[trigger] m.count_of(w) == pair_count(t, w[0], w[1]) by {
                assert(before.count_of(w) == pair_count(corpus@.take(i + 1), w[0], w[1]));
                assert(pair_count(t, w[0], w[1]) == pair_count(t.drop_last(), w[0], w[1]) + if t[
                    t.len() - 2] == w[0] && t[t.len() - 1] == w[1] {
                    1int
                } else {
                    0int
                });
                if w == kv {
                    assert(w[0] == a && w[1] == b);
                } else {
                    assert(!(w[0] == a && w[1] == b)) by {
                        if w[0] == a && w[1] == b {
                            assert(w =~= kv);
                        }
                    }
                }
            }
        }
        i = i + 1;
    }
    proof {
        assert(corpus@.take(i + 1) =~= corpus@);
    }
    m
}

/// Scans the corpus with a width-3 window, stride 1, and counts every
/// adjacent character triple. A corpus shorter than 3 yields an empty table;
/// otherwise the counts over all triples sum to the corpus length minus 2.
pub fn generate_trigram_map(corpus: &Vec<char>) -> (m: CountTable)
    ensures
        m.wf(),
        forall|w: Seq<char>|
            w.len() == 3 ==> #[trigger] m.count_of(w) == triple_count(corpus@, w[0], w[1], w[2]),
        forall|w: Seq<char>| w.len() != 3 ==> #[trigger] m.count_of(w) == 0,
        m.total() == if corpus@.len() >= 3 {
            corpus@.len() - 2
        } else {
            0int
        },
        corpus@.len() < 3 ==> m.num_keys() == 0,
{
    let n = corpus.len();
    let mut m = CountTable::new();
    if n < 3 {
        return m;
    }
    let mut i: usize = 0;
    while i + 2 < n
        invariant
            m.wf(),
            n == corpus@.len(),
            3 <= n,
            i + 2 <= n,
            m.total() == i,
            forall|w: Seq<char>|
                w.len() == 3 ==> #[trigger] m.count_of(w) == triple_count(
                    corpus@.take(i + 2),
                    w[0],
                    w[1],
                    w[2],
                ),
            forall|w: Seq<char>| w.len() != 3 ==> #[trigger] m.count_of(w) == 0,
        decreases n - i,
    {
        let a = corpus[i];
        let b = corpus[i + 1];
        let c = corpus[i + 2];
        let mut key: Vec<char> = Vec::new();
        key.push(a);
        key.push(b);
        key.push(c);
        proof {
            assert(key@ =~= seq![a, b, c]);
        }
        let ghost kv = key@;
        let ghost before = m;
        m.add(key, 1);
        proof {
            let t = corpus@.take(i + 3);
            assert(t.drop_last() =~= corpus@.take(i + 2));
            assert(t[t.len() - 3] == corpus@[i as int] && t[t.len() - 2] == corpus@[i + 1] && t[
                t.len() - 1] == corpus@[i + 2]);
            assert forall|w: Seq<char>|
                w.len() == 3 implies #[trigger] m.count_of(w) == triple_count(
                t,
                w[0],
                w[1],
                w[2],
            ) by {
                assert(before.count_of(w) == triple_count(corpus@.take(i + 2), w[0], w[1], w[2]));
                assert(triple_count(t, w[0], w[1], w[2]) == triple_count(
                    t.drop_last(),
                    w[0],
                    w[1],
                    w[2],
                ) + if t[t.len() - 3] == w[0] && t[t.len() - 2] == w[1] && t[t.len() - 1] == w[2] {
                    1int
                } else {
                    0int
                });
                if w == kv {
                    assert(w[0] == a && w[1] == b && w[2] == c);
                } else {
                    assert(!(w[0] == a && w[1] == b && w[2] == c)) by {
                        if w[0] == a && w[1] == b && w[2] == c {
                            assert(w =~= kv);
                        }
                    }
                }
            }
        }
        i = i + 1;
    }
    proof {
        assert(corpus@.take(i + 2) =~= corpus@);
    }
    m
}

} // verus!
