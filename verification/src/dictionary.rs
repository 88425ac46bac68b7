//! The set of known words that generated text is searched for.

use vstd::prelude::*;
use crate::counts::{clone_word, eq_words};

verus! {

fn word_in_list(list: &Vec<Vec<char>>, w: &Vec<char>) -> (r: bool)
    ensures
        r == exists|i: int| 0 <= i < list@.len() && (#[trigger] list@[i])@ == w@,
{
    let mut i: usize = 0;
    while i < list.len()
        invariant
            i <= list@.len(),
            forall|j: int| 0 <= j < i ==> (#[trigger] list@[j])@ != w@,
        decreases list@.len() - i,
    {
        if eq_words(&list[i], w) {
            return true;
        }
        i = i + 1;
    }
    false
}

/// A deduplicated set of known words, shared read-only by every typist task.
pub struct Dictionary {
    words: Vec<Vec<char>>,
}

impl Dictionary {
    /// No word is stored twice.
    pub closed spec fn wf(self) -> bool {
        forall|i: int, j: int|
            0 <= i < j < self.words@.len() ==> (#[trigger] self.words@[i])@ != (
            #[trigger] self.words@[j])@
    }

    /// Whether `w` is a known word.
    pub closed spec fn has(self, w: Seq<char>) -> bool {
        exists|i: int| 0 <= i < self.words@.len() && (#[trigger] self.words@[i])@ == w
    }

    /// How many distinct words are known.
    pub closed spec fn num_words(self) -> int {
        self.words@.len() as int
    }

    /// Builds the set of the given words, dropping duplicates.
    pub fn new(words: Vec<Vec<char>>) -> (d: Dictionary)
        ensures
            d.wf(),
            forall|w: Seq<char>|
                #[trigger] d.has(w) <==> exists|i: int|
                    0 <= i < words@.len() && (#[trigger] words@[i])@ == w,
    {
        let mut kept: Vec<Vec<char>> = Vec::new();
        let mut i: usize = 0;
        while i < words.len()
            invariant
                i <= words@.len(),
                forall|a: int, b: int|
                    0 <= a < b < kept@.len() ==> (#[trigger] kept@[a])@ != (#[trigger] kept@[b])@,
                forall|k: int|
                    0 <= k < kept@.len() ==> exists|j: int|
                        0 <= j < i && (#[trigger] words@[j])@ == (#[trigger] kept@[k])@,
                forall|j: int|
                    0 <= j < i ==> exists|k: int|
                        0 <= k < kept@.len() && (#[trigger] kept@[k])@ == (#[trigger] words@[j])@,
            decreases words@.len() - i,
        {
            let w = clone_word(&words[i]);
            if !word_in_list(&kept, &w) {
                let ghost kold = kept@;
                kept.push(w);
                proof {
                    assert forall|a: int, b: int|
                        0 <= a < b < kept@.len() implies (#[trigger] kept@[a])@ != (
                    #[trigger] kept@[b])@ by {
                        if b < kold.len() {
                            assert(kept@[a] == kold[a] && kept@[b] == kold[b]);
                        } else {
                            assert(kept@[a] == kold[a]);
                            assert(kold[a]@ != kept@[b]@);
                        }
                    }
                    assert(kept@[kold.len() as int]@ == words@[i as int]@);
                    assert(forall|k: int| 0 <= k < kold.len() ==> kept@[k] == kold[k]);
                }
            }
            i = i + 1;
        }
        let d = Dictionary { words: kept };
        proof {
            assert forall|w: Seq<char>| #[trigger] d.has(w) implies exists|j: int|
                0 <= j < words@.len() && (#[trigger] words@[j])@ == w by {
                let k = choose|k: int|
                    0 <= k < d.words@.len() && (#[trigger] d.words@[k])@ == w;
                assert(exists|j: int|
                    0 <= j < words@.len() && (#[trigger] words@[j])@ == d.words@[k]@);
            }
            assert forall|w: Seq<char>|
                (exists|j: int| 0 <= j < words@.len() && (#[trigger] words@[j])@ == w)
                implies #[trigger] d.has(w) by {
                let j = choose|j: int| 0 <= j < words@.len() && (#[trigger] words@[j])@ == w;
                let k = choose|k: int|
                    0 <= k < d.words@.len() && (#[trigger] d.words@[k])@ == words@[j]@;
                assert(d.words@[k]@ == w);
            }
        }
        d
    }

    /// Whether `w` is a known word.
    pub fn contains(&self, w: &Vec<char>) -> (r: bool)
        ensures
            r == self.has(w@),
    {
        word_in_list(&self.words, w)
    }

    /// How many distinct words are known.
    pub fn len(&self) -> (n: usize)
        ensures
            n == self.num_words(),
    {
        self.words.len()
    }
}

} // verus!
