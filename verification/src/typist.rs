//! One typist task: generate a page of characters under a strategy, then
//! scan it for dictionary words over a window of word lengths.

use vstd::prelude::*;
use crate::counts::CountTable;
use crate::dictionary::Dictionary;
use crate::sampler::{next_char, page_ok, step_ok, TypingStrategy};

verus! {

/// Whether `w` occurs in `page` starting at offset `o`.
pub open spec fn matches_at(page: Seq<char>, w: Seq<char>, o: int) -> bool {
    0 <= o && o + w.len() <= page.len() && page.subrange(o, o + w.len() as int) == w
}

/// How many offsets below `end` hold an occurrence of `w`.
pub open spec fn matches_before(page: Seq<char>, w: Seq<char>, end: int) -> int
    decreases end,
{
    if end <= 0 {
        0
    } else {
        matches_before(page, w, end - 1) + if matches_at(page, w, end - 1) {
            1int
        } else {
            0int
        }
    }
}

/// How many offsets of `page` hold an occurrence of `w`.
pub open spec fn match_count(page: Seq<char>, w: Seq<char>) -> int {
    matches_before(page, w, page.len() - w.len() + 1)
}

/// What the search phase owes for word `w`: its occurrence count when `w` is
/// a known word whose length lies in the half-open search window, 0 else.
pub open spec fn occurrence_count(
    page: Seq<char>,
    dict: Dictionary,
    min_len: int,
    max_len: int,
    w: Seq<char>,
) -> int {
    if dict.has(w) && min_len <= w.len() < max_len {
        match_count(page, w)
    } else {
        0
    }
}

/// The counts while the window length `len_l` is being scanned and offsets
/// below `o` are done: shorter window lengths are complete, the current one
/// is counted up to `o`, longer ones have not begun.
spec fn partial_count(
    page: Seq<char>,
    dict: Dictionary,
    min_len: int,
    len_l: int,
    o: int,
    w: Seq<char>,
) -> int {
    if !dict.has(w) || w.len() < min_len {
        0
    } else if w.len() < len_l {
        match_count(page, w)
    } else if w.len() == len_l {
        matches_before(page, w, o)
    } else {
        0
    }
}

/// What one completed task's count table satisfies: well-formed, bounded by
/// the number of scanned windows, and exact for some page of the requested
/// length whose every character the given strategy and n-gram tables could
/// have produced.
pub open spec fn task_table_ok(
    typewriter: Seq<char>,
    strategy: TypingStrategy,
    bigrams: CountTable,
    trigrams: CountTable,
    dict: Dictionary,
    min_len: int,
    max_len: int,
    letters: int,
    t: CountTable,
) -> bool {
    &&& t.wf()
    &&& t.total() <= (max_len - min_len) * letters
    &&& exists|p: Seq<char>|
        {
            &&& p.len() == letters
            &&& #[trigger] page_ok(typewriter, strategy, bigrams, trigrams, p)
            &&& forall|w: Seq<char>| #[trigger]
                t.count_of(w) == occurrence_count(p, dict, min_len, max_len, w)
        }
}

/// Copies `page[start .. start + len]` out as a word.
fn copy_range(page: &Vec<char>, start: usize, len: usize) -> (r: Vec<char>)
    requires
        start + len <= page@.len(),
    ensures
        r@ == page@.subrange(start as int, start + len),
{
    let n = page.len();
    let mut r: Vec<char> = Vec::new();
    let mut j: usize = 0;
    while j < len
        invariant
            n == page@.len(),
            start + len <= n,
            j <= len,
            r@ =~= page@.subrange(start as int, start + j),
        decreases len - j,
    {
        r.push(page[start + j]);
        assert(r@ =~= page@.subrange(start as int, start + j + 1));
        j = j + 1;
    }
    proof {
        assert(r@ =~= page@.subrange(start as int, start + len));
    }
    r
}

/// Scans `page` with a sliding window of every width in
/// `[min_len, max_len)`, stride 1, and counts how often each window is a
/// known word: the result records, for exactly the known words of a window
/// length, the number of offsets where they occur.
pub fn count_occurrences(page: &Vec<char>, dict: &Dictionary, min_len: usize, max_len: usize) -> (m:
    CountTable)
    requires
        dict.wf(),
        1 <= min_len < max_len,
        (max_len - min_len) * page@.len() <= usize::MAX,
    ensures
        m.wf(),
        forall|w: Seq<char>| #[trigger]
            m.count_of(w) == occurrence_count(page@, *dict, min_len as int, max_len as int, w),
        m.total() <= (max_len - min_len) * page@.len(),
{
    let plen = page.len();
    let mut m = CountTable::new();
    proof {
        assert forall|w: Seq<char>| #[trigger]
            m.count_of(w) == occurrence_count(page@, *dict, min_len as int, min_len as int, w) by {}
    }
    let mut len_l = min_len;
    while len_l < max_len
        invariant
            dict.wf(),
            m.wf(),
            plen == page@.len(),
            1 <= min_len <= len_l <= max_len,
            (max_len - min_len) * plen <= usize::MAX,
            m.total() <= (len_l - min_len) * plen,
            forall|w: Seq<char>| #[trigger]
                m.count_of(w) == occurrence_count(page@, *dict, min_len as int, len_l as int, w),
        decreases max_len - len_l,
    {
        proof {
            assert((len_l - min_len) * plen + plen == (len_l + 1 - min_len) * plen)
                by (nonlinear_arith);
            assert((len_l + 1 - min_len) * plen <= (max_len - min_len) * plen) by (nonlinear_arith)
                requires
                    len_l + 1 <= max_len,
                    min_len <= len_l + 1,
                    plen >= 0,
            ;
        }
        if len_l <= plen {
            let last_start = plen - len_l;
            let mut o: usize = 0;
            while o <= last_start
                invariant
                    dict.wf(),
                    m.wf(),
                    plen == page@.len(),
                    1 <= min_len <= len_l <= plen,
                    len_l < max_len,
                    last_start == plen - len_l,
                    o <= last_start + 1,
                    (max_len - min_len) * plen <= usize::MAX,
                    (len_l - min_len) * plen + plen <= (max_len - min_len) * plen,
                    m.total() <= (len_l - min_len) * plen + o,
                    forall|w: Seq<char>| #[trigger]
                        m.count_of(w) == partial_count(
                            page@,
                            *dict,
                            min_len as int,
                            len_l as int,
                            o as int,
                            w,
                        ),
                decreases last_start + 1 - o,
            {
                let word = copy_range(page, o, len_l);
                let ghost wv = word@;
                let ghost mold = m;
                if dict.contains(&word) {
                    proof {
                        assert(m.total() + 1 <= (max_len - min_len) * plen) by {
                            assert(o < plen);
                        }
                    }
                    m.add(word, 1);
                }
                proof {
                    assert(wv.len() == len_l);
                    assert(matches_at(page@, wv, o as int));
                    assert forall|w: Seq<char>| #[trigger]
                        m.count_of(w) == partial_count(
                            page@,
                            *dict,
                            min_len as int,
                            len_l as int,
                            o + 1,
                            w,
                        ) by {
                        assert(mold.count_of(w) == partial_count(
                            page@,
                            *dict,
                            min_len as int,
                            len_l as int,
                            o as int,
                            w,
                        ));
                        if w.len() == len_l && dict.has(w) && min_len <= w.len() {
                            assert(matches_before(page@, w, o + 1) == matches_before(
                                page@,
                                w,
                                o as int,
                            ) + if matches_at(page@, w, o as int) {
                                1int
                            } else {
                                0int
                            });
                            if w == wv {
                            } else {
                                assert(!matches_at(page@, w, o as int)) by {
                                    if matches_at(page@, w, o as int) {
                                        assert(page@.subrange(o as int, o + w.len()) == w);
                                        assert(page@.subrange(o as int, o + len_l) == wv);
                                    }
                                }
                            }
                        }
                    }
                }
                o = o + 1;
            }
            proof {
                assert forall|w: Seq<char>| #[trigger]
                    m.count_of(w) == occurrence_count(
                        page@,
                        *dict,
                        min_len as int,
                        len_l + 1,
                        w,
                    ) by {
                    assert(m.count_of(w) == partial_count(
                        page@,
                        *dict,
                        min_len as int,
                        len_l as int,
                        last_start + 1,
                        w,
                    ));
                    if w.len() == len_l {
                        assert(matches_before(page@, w, last_start + 1) == match_count(page@, w));
                    }
                }
                assert(plen - len_l + 1 <= plen);
            }
        } else {
            proof {
                assert forall|w: Seq<char>| #[trigger]
                    m.count_of(w) == occurrence_count(
                        page@,
                        *dict,
                        min_len as int,
                        len_l + 1,
                        w,
                    ) by {
                    if w.len() == len_l {
                        assert(page@.len() - w.len() + 1 <= 0);
                        assert(match_count(page@, w) == 0);
                    }
                }
                assert((len_l - min_len) * plen <= (len_l + 1 - min_len) * plen)
                    by (nonlinear_arith)
                    requires
                        plen >= 0,
                ;
            }
        }
        len_l = len_l + 1;
    }
    m
}

/// One independent typist: an identity, able to run one full
/// generate-and-search task.
pub struct Monkey {
    name: String,
}

impl Monkey {
    /// The typist's display name.
    pub closed spec fn name_view(self) -> Seq<char> {
        self.name@
    }

    /// A typist with the given display name.
    pub fn new(name: String) -> (m: Monkey)
        ensures
            m.name_view() == name@,
    {
        Monkey { name }
    }

    /// Generates `letters_to_type` characters on the given typewriter under
    /// the given strategy, then scans the page for dictionary words of every
    /// length in `[min_len, max_len)`. Returns the typist's name and a count
    /// table that is exact for some generated page of that length, each of
    /// whose characters the strategy could have produced at its step: each
    /// known word of a window length is counted once per offset where it
    /// occurs.
    pub fn type_and_count(
        &self,
        typewriter: &Vec<char>,
        letters_to_type: usize,
        min_len: usize,
        max_len: usize,
        search_set: &Dictionary,
        strategy: TypingStrategy,
        bigram_map: &CountTable,
        trigram_map: &CountTable,
        rng: &mut rand::rngs::StdRng,
    ) -> (r: (String, CountTable))
        requires
            1 <= typewriter@.len() <= 0x8000_0000,
            strategy is LinearCommon ==> typewriter@.len() >= 2,
            letters_to_type >= 1,
            search_set.wf(),
            1 <= min_len < max_len,
            (max_len - min_len) * letters_to_type <= usize::MAX,
            bigram_map.wf(),
            trigram_map.wf(),
        ensures
            r.0@ == self.name_view(),
            task_table_ok(
                typewriter@,
                strategy,
                *bigram_map,
                *trigram_map,
                *search_set,
                min_len as int,
                max_len as int,
                letters_to_type as int,
                r.1,
            ),
    {
        let mut page: Vec<char> = Vec::new();
        let mut typed: usize = 0;
        while typed < letters_to_type
            invariant
                1 <= typewriter@.len() <= 0x8000_0000,
                strategy is LinearCommon ==> typewriter@.len() >= 2,
                bigram_map.wf(),
                trigram_map.wf(),
                typed <= letters_to_type,
                page@.len() == typed,
                page_ok(typewriter@, strategy, *bigram_map, *trigram_map, page@),
            decreases letters_to_type - typed,
        {
            let ghost pold = page@;
            let c = next_char(typewriter, strategy, bigram_map, trigram_map, &page, rng);
            page.push(c);
            proof {
                assert forall|i: int|
                    0 <= i < page@.len() implies #[trigger] step_ok(
                    typewriter@,
                    strategy,
                    *bigram_map,
                    *trigram_map,
                    page@.take(i),
                    page@[i],
                ) by {
                    if i < pold.len() {
                        assert(page@.take(i) =~= pold.take(i));
                        assert(page@[i] == pold[i]);
                        assert(step_ok(
                            typewriter@,
                            strategy,
                            *bigram_map,
                            *trigram_map,
                            pold.take(i),
                            pold[i],
                        ));
                    } else {
                        assert(page@.take(i) =~= pold);
                        assert(page@[i] == c);
                    }
                }
            }
            typed = typed + 1;
        }
        let counts = count_occurrences(&page, search_set, min_len, max_len);
        let name = self.name.as_str().to_owned();
        proof {
            assert(page@.len() == letters_to_type);
        }
        (name, counts)
    }
}

} // verus!
