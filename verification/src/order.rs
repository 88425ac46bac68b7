//! Deterministic ranking orders and a verified descending sort.
//!
//! Ranked lists sort by count, descending. Ties between words are broken by
//! lexicographic order so that rankings are deterministic; ties between
//! typists keep their launch order (the selection below always extracts the
//! earliest best entry).

use vstd::prelude::*;
use vstd::seq_lib::group_to_multiset_ensures;

verus! {

broadcast use group_to_multiset_ensures;

/// Lexicographic order on character sequences, by code point.
pub open spec fn lex_le(a: Seq<char>, b: Seq<char>) -> bool
    decreases a.len(),
{
    if a.len() == 0 {
        true
    } else if b.len() == 0 {
        false
    } else if a[0] != b[0] {
        (a[0] as u32) < (b[0] as u32)
    } else {
        lex_le(a.drop_first(), b.drop_first())
    }
}

/// `x` ranks at or before `y`: a larger count first, lexicographically
/// smaller word on equal counts.
pub open spec fn word_rank_le(x: (Seq<char>, int), y: (Seq<char>, int)) -> bool {
    x.1 > y.1 || (x.1 == y.1 && lex_le(x.0, y.0))
}

/// `x` ranks at or before `y` among typists: by count alone.
pub open spec fn count_ge(x: (Seq<char>, int), y: (Seq<char>, int)) -> bool {
    x.1 >= y.1
}

proof fn char_cast_injective(a: char, b: char)
    requires
        a != b,
    ensures
        (a as u32) != (b as u32),
{
}

/// Any two words are lexicographically comparable.
pub proof fn lemma_lex_total(a: Seq<char>, b: Seq<char>)
    ensures
        lex_le(a, b) || lex_le(b, a),
    decreases a.len(),
{
    if a.len() > 0 && b.len() > 0 {
        if a[0] == b[0] {
            lemma_lex_total(a.drop_first(), b.drop_first());
        } else {
            char_cast_injective(a[0], b[0]);
        }
    }
}

/// Lexicographic order is transitive.
pub proof fn lemma_lex_trans(a: Seq<char>, b: Seq<char>, c: Seq<char>)
    requires
        lex_le(a, b),
        lex_le(b, c),
    ensures
        lex_le(a, c),
    decreases a.len(),
{
    if a.len() == 0 {
    } else {
        assert(b.len() > 0);
        assert(c.len() > 0);
        if a[0] == b[0] && b[0] == c[0] {
            lemma_lex_trans(a.drop_first(), b.drop_first(), c.drop_first());
        }
    }
}

/// Any two entries are comparable under the word ranking.
pub proof fn lemma_word_rank_total(x: (Seq<char>, int), y: (Seq<char>, int))
    ensures
        word_rank_le(x, y) || word_rank_le(y, x),
{
    lemma_lex_total(x.0, y.0);
}

/// The word ranking is transitive.
pub proof fn lemma_word_rank_trans(x: (Seq<char>, int), y: (Seq<char>, int), z: (Seq<char>, int))
    requires
        word_rank_le(x, y),
        word_rank_le(y, z),
    ensures
        word_rank_le(x, z),
{
    if x.1 == y.1 && y.1 == z.1 {
        lemma_lex_trans(x.0, y.0, z.0);
    }
}

/// The mathematical (word, count) pairs of an entry list.
pub open spec fn pairs_of(s: Seq<(Vec<char>, usize)>) -> Seq<(Seq<char>, int)> {
    Seq::new(s.len(), |i: int| (s[i].0@, s[i].1 as int))
}

/// The mathematical (name, count) pairs of a leaderboard list.
pub open spec fn name_pairs_of(s: Seq<(String, usize)>) -> Seq<(Seq<char>, int)> {
    Seq::new(s.len(), |i: int| (s[i].0@, s[i].1 as int))
}

/// Whether the characters of `a` come at or before those of `b`
/// lexicographically.
pub fn lex_le_words(a: &Vec<char>, b: &Vec<char>) -> (r: bool)
    ensures
        r == lex_le(a@, b@),
{
    let mut i: usize = 0;
    while i < a.len() && i < b.len()
        invariant
            i <= a@.len(),
            i <= b@.len(),
            forall|j: int| 0 <= j < i ==> a@[j] == b@[j],
        decreases a@.len() - i,
    {
        if a[i] != b[i] {
            proof {
                lemma_lex_skip(a@, b@, i as int);
            }
            return (a[i] as u32) < (b[i] as u32);
        }
        i = i + 1;
    }
    proof {
        lemma_lex_skip(a@, b@, i as int);
    }
    i == a.len()
}

proof fn lemma_lex_skip(a: Seq<char>, b: Seq<char>, i: int)
    requires
        0 <= i <= a.len(),
        i <= b.len(),
        forall|j: int| 0 <= j < i ==> a[j] == b[j],
    ensures
        lex_le(a, b) == lex_le(a.skip(i), b.skip(i)),
    decreases i,
{
    if i == 0 {
        assert(a.skip(0) =~= a);
        assert(b.skip(0) =~= b);
    } else {
        lemma_lex_skip(a, b, i - 1);
        let sa = a.skip(i - 1);
        let sb = b.skip(i - 1);
        assert(sa[0] == a[i - 1] && sb[0] == b[i - 1]);
        assert(sa.drop_first() =~= a.skip(i));
        assert(sb.drop_first() =~= b.skip(i));
    }
}

/// Whether entry `a` ranks at or before entry `b`.
pub fn word_entry_le(a: &(Vec<char>, usize), b: &(Vec<char>, usize)) -> (r: bool)
    ensures
        r == word_rank_le((a.0@, a.1 as int), (b.0@, b.1 as int)),
{
    if a.1 > b.1 {
        true
    } else if a.1 < b.1 {
        false
    } else {
        lex_le_words(&a.0, &b.0)
    }
}

/// Sorts entries descending by count, ties broken by lexicographically
/// smaller word first: the result is a permutation of the input, ordered by
/// the word ranking.
pub fn sort_word_entries(v: Vec<(Vec<char>, usize)>) -> (r: Vec<(Vec<char>, usize)>)
    ensures
        r@.len() == v@.len(),
        pairs_of(r@).to_multiset() == pairs_of(v@).to_multiset(),
        forall|i: int, j: int|
            0 <= i < j < r@.len() ==> word_rank_le(
                #[trigger] pairs_of(r@)[i],
                #[trigger] pairs_of(r@)[j],
            ),
{
    let ghost full = pairs_of(v@).to_multiset();
    let mut rem = v;
    let mut r: Vec<(Vec<char>, usize)> = Vec::new();
    while rem.len() > 0
        invariant
            pairs_of(r@).to_multiset().add(pairs_of(rem@).to_multiset()) == full,
            r@.len() + rem@.len() == full.len(),
            forall|i: int, j: int|
                0 <= i < j < r@.len() ==> word_rank_le(
                    #[trigger] pairs_of(r@)[i],
                    #[trigger] pairs_of(r@)[j],
                ),
            forall|i: int, j: int|
                0 <= i < r@.len() && 0 <= j < rem@.len() ==> word_rank_le(
                    #[trigger] pairs_of(r@)[i],
                    #[trigger] pairs_of(rem@)[j],
                ),
        decreases rem@.len(),
    {
        let mut mi: usize = 0;
        let mut j: usize = 1;
        proof {
            lemma_word_rank_total(pairs_of(rem@)[0], pairs_of(rem@)[0]);
        }
        while j < rem.len()
            invariant
                mi < j <= rem@.len(),
                forall|k: int|
                    0 <= k < j ==> word_rank_le(
                        pairs_of(rem@)[mi as int],
                        #[trigger] pairs_of(rem@)[k],
                    ),
            decreases rem@.len() - j,
        {
            if !word_entry_le(&rem[mi], &rem[j]) {
                proof {
                    let pm = pairs_of(rem@)[mi as int];
                    let pj = pairs_of(rem@)[j as int];
                    lemma_word_rank_total(pm, pj);
                    assert forall|k: int|
                        0 <= k < j + 1 implies word_rank_le(
                        pj,
                        #[trigger] pairs_of(rem@)[k],
                    ) by {
                        if k < j {
                            lemma_word_rank_trans(pj, pm, pairs_of(rem@)[k]);
                        } else {
                            lemma_word_rank_total(pj, pj);
                        }
                    }
                }
                mi = j;
            }
            j = j + 1;
        }
        let ghost rold = rem@;
        let ghost p = pairs_of(rold)[mi as int];
        let ghost rr = r@;
        let e = rem.remove(mi);
        r.push(e);
        proof {
            assert(pairs_of(r@) =~= pairs_of(rr).push(p));
            assert forall|q: int| 0 <= q < rem@.len() implies pairs_of(rem@)[q] == pairs_of(
                rold,
            ).remove(mi as int)[q] by {
                if q < mi {
                    assert(rem@[q] == rold[q]);
                } else {
                    assert(rem@[q] == rold[q + 1]);
                }
            }
            assert(pairs_of(rem@) =~= pairs_of(rold).remove(mi as int));
            assert(pairs_of(rold).contains(p));
            assert(pairs_of(rold).to_multiset().count(p) > 0);
            assert(pairs_of(r@).to_multiset().add(pairs_of(rem@).to_multiset()) =~= pairs_of(
                rr,
            ).to_multiset().add(pairs_of(rold).to_multiset()));
        }
    }
    r
}

/// Whether a typist entry ranks at or before another: by count alone.
pub fn count_entry_ge(a: &(String, usize), b: &(String, usize)) -> (r: bool)
    ensures
        r == count_ge((a.0@, a.1 as int), (b.0@, b.1 as int)),
{
    a.1 >= b.1
}

/// `r` rearranges the (name, count) pairs `v` along the index map `idx`: a
/// permutation ordered by count descending in which pairs with equal counts
/// keep their original order.
pub open spec fn stably_ordered(
    v: Seq<(Seq<char>, int)>,
    r: Seq<(Seq<char>, int)>,
    idx: Seq<int>,
) -> bool {
    &&& idx.len() == v.len()
    &&& r.len() == v.len()
    &&& forall|q: int| 0 <= q < idx.len() ==> 0 <= #[trigger] idx[q] < v.len()
    &&& forall|q1: int, q2: int| 0 <= q1 < q2 < idx.len() ==> idx[q1] != idx[q2]
    &&& forall|q: int| 0 <= q < r.len() ==> #[trigger] r[q] == v[idx[q]]
    &&& forall|q1: int, q2: int|
        0 <= q1 < q2 < idx.len() ==> v[#[trigger] idx[q1]].1 > v[#[trigger] idx[q2]].1 || (v[
        idx[q1]].1 == v[idx[q2]].1 && idx[q1] < idx[q2])
}

/// `r` rearranges `v` along the index map `idx`: a permutation ordered by
/// count descending in which entries with equal counts keep their original
/// order — the launch-order tie-break, made explicit by the indices.
pub open spec fn stably_count_sorted(
    v: Seq<(String, usize)>,
    r: Seq<(String, usize)>,
    idx: Seq<int>,
) -> bool {
    &&& idx.len() == v.len()
    &&& r.len() == v.len()
    &&& forall|q: int| 0 <= q < idx.len() ==> 0 <= #[trigger] idx[q] < v.len()
    &&& forall|q1: int, q2: int| 0 <= q1 < q2 < idx.len() ==> idx[q1] != idx[q2]
    &&& forall|q: int| 0 <= q < r.len() ==> #[trigger] r[q] == v[idx[q]]
    &&& forall|q1: int, q2: int|
        0 <= q1 < q2 < idx.len() ==> v[#[trigger] idx[q1]].1 > v[#[trigger] idx[q2]].1 || (v[
        idx[q1]].1 == v[idx[q2]].1 && idx[q1] < idx[q2])
}

/// Sorts typist entries descending by count. The earliest best entry is
/// extracted first, so entries with equal counts keep their launch order:
/// the result is a permutation of the input, ordered by count, with the
/// stable tie-break witnessed by an index map.
pub fn sort_typist_entries(v: Vec<(String, usize)>) -> (r: Vec<(String, usize)>)
    ensures
        r@.len() == v@.len(),
        name_pairs_of(r@).to_multiset() == name_pairs_of(v@).to_multiset(),
        forall|i: int, j: int|
            0 <= i < j < r@.len() ==> count_ge(
                #[trigger] name_pairs_of(r@)[i],
                #[trigger] name_pairs_of(r@)[j],
            ),
        exists|idx: Seq<int>| #[trigger] stably_count_sorted(v@, r@, idx),
{
    let ghost v0 = v@;
    let ghost full = name_pairs_of(v@).to_multiset();
    let mut rem = v;
    let mut r: Vec<(String, usize)> = Vec::new();
    let ghost mut rem_idx: Seq<int> = Seq::new(v0.len(), |q: int| q);
    let ghost mut res_idx: Seq<int> = Seq::empty();
    while rem.len() > 0
        invariant
            name_pairs_of(r@).to_multiset().add(name_pairs_of(rem@).to_multiset()) == full,
            r@.len() + rem@.len() == full.len(),
            forall|i: int, j: int|
                0 <= i < j < r@.len() ==> count_ge(
                    #[trigger] name_pairs_of(r@)[i],
                    #[trigger] name_pairs_of(r@)[j],
                ),
            forall|i: int, j: int|
                0 <= i < r@.len() && 0 <= j < rem@.len() ==> count_ge(
                    #[trigger] name_pairs_of(r@)[i],
                    #[trigger] name_pairs_of(rem@)[j],
                ),
            rem_idx.len() == rem@.len(),
            res_idx.len() == r@.len(),
            forall|q: int| 0 <= q < rem_idx.len() ==> 0 <= #[trigger] rem_idx[q] < v0.len(),
            forall|q: int| 0 <= q < res_idx.len() ==> 0 <= #[trigger] res_idx[q] < v0.len(),
            forall|q1: int, q2: int|
                0 <= q1 < q2 < rem_idx.len() ==> #[trigger] rem_idx[q1] < #[trigger] rem_idx[q2],
            forall|q1: int, q2: int|
                0 <= q1 < q2 < res_idx.len() ==> #[trigger] res_idx[q1] != #[trigger] res_idx[q2],
            forall|a: int, b: int|
                0 <= a < res_idx.len() && 0 <= b < rem_idx.len() ==> #[trigger] res_idx[a]
                    != #[trigger] rem_idx[b],
            forall|q: int| 0 <= q < rem@.len() ==> #[trigger] rem@[q] == v0[rem_idx[q]],
            forall|q: int| 0 <= q < r@.len() ==> #[trigger] r@[q] == v0[res_idx[q]],
            forall|q1: int, q2: int|
                0 <= q1 < q2 < res_idx.len() ==> v0[#[trigger] res_idx[q1]].1 > v0[
                #[trigger] res_idx[q2]].1 || (v0[res_idx[q1]].1 == v0[res_idx[q2]].1 && res_idx[q1]
                    < res_idx[q2]),
            forall|a: int, b: int|
                0 <= a < res_idx.len() && 0 <= b < rem_idx.len() ==> v0[#[trigger] res_idx[a]].1
                    > v0[#[trigger] rem_idx[b]].1 || (v0[res_idx[a]].1 == v0[rem_idx[b]].1
                    && res_idx[a] < rem_idx[b]),
        decreases rem@.len(),
    {
        let mut mi: usize = 0;
        let mut j: usize = 1;
        while j < rem.len()
            invariant
                mi < j <= rem@.len(),
                forall|t: int| 0 <= t < j ==> rem@[mi as int].1 >= (#[trigger] rem@[t]).1,
                forall|t: int|
                    0 <= t < j && rem@[mi as int].1 == (#[trigger] rem@[t]).1 ==> mi <= t,
            decreases rem@.len() - j,
        {
            if !count_entry_ge(&rem[mi], &rem[j]) {
                mi = j;
            }
            j = j + 1;
        }
        let ghost rold = rem@;
        let ghost riold = rem_idx;
        let ghost p = name_pairs_of(rold)[mi as int];
        let ghost rr = r@;
        let e = rem.remove(mi);
        r.push(e);
        proof {
            res_idx = res_idx.push(riold[mi as int]);
            rem_idx = riold.remove(mi as int);
            assert(name_pairs_of(r@) =~= name_pairs_of(rr).push(p));
            assert forall|q: int| 0 <= q < rem@.len() implies name_pairs_of(rem@)[q]
                == name_pairs_of(rold).remove(mi as int)[q] by {
                if q < mi {
                    assert(rem@[q] == rold[q]);
                } else {
                    assert(rem@[q] == rold[q + 1]);
                }
            }
            assert(name_pairs_of(rem@) =~= name_pairs_of(rold).remove(mi as int));
            assert(name_pairs_of(rold).contains(p));
            assert(name_pairs_of(rold).to_multiset().count(p) > 0);
            assert(name_pairs_of(r@).to_multiset().add(name_pairs_of(rem@).to_multiset())
                =~= name_pairs_of(rr).to_multiset().add(name_pairs_of(rold).to_multiset()));
            assert forall|q: int| 0 <= q < rem@.len() implies #[trigger] rem@[q] == v0[
                rem_idx[q]] && rem_idx[q] == riold[if q < mi {
                q
            } else {
                q + 1
            }] by {
                if q < mi {
                    assert(rem@[q] == rold[q]);
                } else {
                    assert(rem@[q] == rold[q + 1]);
                }
            }
            assert forall|b: int|
                0 <= b < rem_idx.len() implies v0[riold[mi as int]].1 > v0[
                #[trigger] rem_idx[b]].1 || (v0[riold[mi as int]].1 == v0[rem_idx[b]].1 && riold[
                mi as int] < rem_idx[b]) by {
                let b2: int = if b < mi {
                    b
                } else {
                    b + 1
                };
                assert(rem_idx[b] == riold[b2]);
                assert(rold[b2].1 == v0[riold[b2]].1);
                assert(rold[mi as int].1 >= rold[b2].1);
                if rold[mi as int].1 == rold[b2].1 {
                    assert(mi <= b2 && mi != b2);
                    assert(riold[mi as int] < riold[b2]);
                }
            }
            assert(r@[rr.len() as int] == rold[mi as int]);
            assert(rold[mi as int] == v0[riold[mi as int]]);
        }
    }
    proof {
        assert(stably_count_sorted(v0, r@, res_idx));
    }
    r
}

} // verus!
