//! A table from words (character sequences) to positive occurrence counts.
//!
//! One table type serves every counting need of the simulation: the bigram
//! and trigram frequency maps, the per-typist occurrence map, and the global
//! totals that the leaderboards are ranked from.

use vstd::prelude::*;

verus! {

/// No two entries carry the same word.
pub open spec fn distinct_keys(s: Seq<(Vec<char>, usize)>) -> bool {
    forall|i: int, j: int| 0 <= i < j < s.len() ==> (#[trigger] s[i]).0@ != (#[trigger] s[j]).0@
}

/// The count stored for `w`, or 0 when no entry carries `w`.
pub open spec fn lookup(s: Seq<(Vec<char>, usize)>, w: Seq<char>) -> int
    decreases s.len(),
{
    if s.len() == 0 {
        0
    } else if s.last().0@ == w {
        s.last().1 as int
    } else {
        lookup(s.drop_last(), w)
    }
}

/// The sum of all stored counts.
pub open spec fn sum_counts(s: Seq<(Vec<char>, usize)>) -> int
    decreases s.len(),
{
    if s.len() == 0 {
        0
    } else {
        sum_counts(s.drop_last()) + s.last().1
    }
}

proof fn lemma_sum_nonneg(s: Seq<(Vec<char>, usize)>)
    ensures
        0 <= sum_counts(s),
    decreases s.len(),
{
    if s.len() > 0 {
        lemma_sum_nonneg(s.drop_last());
    }
}

proof fn lemma_lookup_nonneg(s: Seq<(Vec<char>, usize)>, w: Seq<char>)
    ensures
        0 <= lookup(s, w),
    decreases s.len(),
{
    if s.len() > 0 && s.last().0@ != w {
        lemma_lookup_nonneg(s.drop_last(), w);
    }
}

proof fn lemma_lookup_le_sum(s: Seq<(Vec<char>, usize)>, w: Seq<char>)
    ensures
        lookup(s, w) <= sum_counts(s),
    decreases s.len(),
{
    if s.len() > 0 {
        if s.last().0@ == w {
            lemma_sum_nonneg(s.drop_last());
        } else {
            lemma_lookup_le_sum(s.drop_last(), w);
        }
    }
}

proof fn lemma_lookup_at(s: Seq<(Vec<char>, usize)>, i: int)
    requires
        distinct_keys(s),
        0 <= i < s.len(),
    ensures
        lookup(s, s[i].0@) == s[i].1,
    decreases s.len(),
{
    if i == s.len() - 1 {
    } else {
        assert(s.last().0@ != s[i].0@);
        assert(distinct_keys(s.drop_last()));
        assert(s.drop_last()[i] == s[i]);
        lemma_lookup_at(s.drop_last(), i);
    }
}

proof fn lemma_lookup_absent(s: Seq<(Vec<char>, usize)>, w: Seq<char>)
    requires
        forall|i: int| 0 <= i < s.len() ==> (#[trigger] s[i]).0@ != w,
    ensures
        lookup(s, w) == 0,
    decreases s.len(),
{
    if s.len() > 0 {
        assert(s.last() == s[s.len() - 1]);
        lemma_lookup_absent(s.drop_last(), w);
    }
}

/// With distinct keys and positive counts, a word has a positive count
/// exactly when some entry carries it.
proof fn lemma_lookup_present(s: Seq<(Vec<char>, usize)>, w: Seq<char>)
    requires
        distinct_keys(s),
        forall|i: int| 0 <= i < s.len() ==> (#[trigger] s[i]).1 >= 1,
    ensures
        lookup(s, w) > 0 <==> exists|i: int| 0 <= i < s.len() && (#[trigger] s[i]).0@ == w,
{
    if exists|i: int| 0 <= i < s.len() && (#[trigger] s[i]).0@ == w {
        let i = choose|i: int| 0 <= i < s.len() && (#[trigger] s[i]).0@ == w;
        lemma_lookup_at(s, i);
    } else {
        lemma_lookup_absent(s, w);
    }
}

/// Replacing entry `i` with the same word and a new count rewrites that
/// word's count, leaves every other count alone, and shifts the sum.
proof fn lemma_update_entry(s: Seq<(Vec<char>, usize)>, i: int, w: Vec<char>, c: usize)
    requires
        distinct_keys(s),
        0 <= i < s.len(),
        w@ == s[i].0@,
    ensures
        distinct_keys(s.update(i, (w, c))),
        lookup(s.update(i, (w, c)), w@) == c,
        forall|w2: Seq<char>| w2 != w@ ==> lookup(s.update(i, (w, c)), w2) == lookup(s, w2),
        sum_counts(s.update(i, (w, c))) == sum_counts(s) - s[i].1 + c,
    decreases s.len(),
{
    let s2 = s.update(i, (w, c));
    assert(distinct_keys(s2));
    if i == s.len() - 1 {
        assert(s2.last() == (w, c));
        assert(s2.drop_last() =~= s.drop_last());
        assert forall|w2: Seq<char>| w2 != w@ implies lookup(s2, w2) == lookup(s, w2) by {
            assert(s.last().0@ == w@);
        }
    } else {
        assert(s2.last() == s.last());
        assert(s2.drop_last() =~= s.drop_last().update(i, (w, c)));
        assert(distinct_keys(s.drop_last()));
        assert(s.drop_last()[i] == s[i]);
        lemma_update_entry(s.drop_last(), i, w, c);
        assert(s.last().0@ != w@);
        assert forall|w2: Seq<char>| w2 != w@ implies lookup(s2, w2) == lookup(s, w2) by {
            if s.last().0@ == w2 {
            } else {
                assert(lookup(s2.drop_last(), w2) == lookup(s.drop_last(), w2));
            }
        }
    }
}

/// Appending an entry with a fresh word gives that word its count, leaves
/// every other count alone, and adds to the sum.
proof fn lemma_push_entry(s: Seq<(Vec<char>, usize)>, w: Vec<char>, c: usize)
    requires
        distinct_keys(s),
        forall|i: int| 0 <= i < s.len() ==> (#[trigger] s[i]).0@ != w@,
    ensures
        distinct_keys(s.push((w, c))),
        lookup(s.push((w, c)), w@) == c,
        forall|w2: Seq<char>| w2 != w@ ==> lookup(s.push((w, c)), w2) == lookup(s, w2),
        sum_counts(s.push((w, c))) == sum_counts(s) + c,
{
    let s2 = s.push((w, c));
    assert(s2.last() == (w, c));
    assert(s2.drop_last() =~= s);
    assert forall|i: int, j: int| 0 <= i < j < s2.len() implies (#[trigger] s2[i]).0@ != (
    #[trigger] s2[j]).0@ by {
        if j < s.len() {
            assert(s2[i] == s[i] && s2[j] == s[j]);
        } else {
            assert(s2[i] == s[i]);
        }
    }
}

/// Prefix sums never exceed the full sum.
proof fn lemma_sum_take_le(s: Seq<(Vec<char>, usize)>, i: int)
    requires
        0 <= i <= s.len(),
    ensures
        sum_counts(s.take(i)) <= sum_counts(s),
    decreases s.len() - i,
{
    if i == s.len() {
        assert(s.take(i) =~= s);
    } else {
        assert(s.take(i + 1).drop_last() =~= s.take(i));
        assert(s.take(i + 1).last() == s[i]);
        lemma_sum_take_le(s, i + 1);
    }
}

/// Extending a prefix by one entry adds that entry's count to the sum.
proof fn lemma_sum_take_step(s: Seq<(Vec<char>, usize)>, i: int)
    requires
        0 <= i < s.len(),
    ensures
        sum_counts(s.take(i + 1)) == sum_counts(s.take(i)) + s[i].1,
{
    assert(s.take(i + 1).drop_last() =~= s.take(i));
    assert(s.take(i + 1).last() == s[i]);
}

/// Copies a word; characters are plain values.
pub fn clone_word(w: &Vec<char>) -> (r: Vec<char>)
    ensures
        r@ == w@,
{
    let mut r: Vec<char> = Vec::new();
    let mut i: usize = 0;
    while i < w.len()
        invariant
            i <= w.len(),
            r@ =~= w@.take(i as int),
        decreases w.len() - i,
    {
        r.push(w[i]);
        assert(r@ =~= w@.take(i + 1));
        i = i + 1;
    }
    assert(r@ =~= w@);
    r
}

/// Whether two words hold the same characters.
pub fn eq_words(a: &Vec<char>, b: &Vec<char>) -> (r: bool)
    ensures
        r == (a@ == b@),
{
    if a.len() != b.len() {
        return false;
    }
    let mut i: usize = 0;
    while i < a.len()
        invariant
            i <= a.len(),
            a@.len() == b@.len(),
            forall|j: int| 0 <= j < i ==> a@[j] == b@[j],
        decreases a.len() - i,
    {
        if a[i] != b[i] {
            return false;
        }
        i = i + 1;
    }
    assert(a@ =~= b@);
    true
}

/// A table from words to positive occurrence counts. Each word appears in at
/// most one entry, and the sum of all counts fits in a `usize`.
pub struct CountTable {
    entries: Vec<(Vec<char>, usize)>,
}

impl CountTable {
    /// Well-formedness: distinct words, positive counts, bounded sum.
    pub closed spec fn wf(self) -> bool {
        &&& distinct_keys(self.entries@)
        &&& sum_counts(self.entries@) <= usize::MAX
        &&& forall|i: int| 0 <= i < self.entries@.len() ==> (#[trigger] self.entries@[i]).1 >= 1
    }

    /// The count recorded for `w`; 0 when `w` is absent.
    pub closed spec fn count_of(self, w: Seq<char>) -> int {
        lookup(self.entries@, w)
    }

    /// The sum of all recorded counts.
    pub closed spec fn total(self) -> int {
        sum_counts(self.entries@)
    }

    /// How many distinct words are recorded.
    pub closed spec fn num_keys(self) -> int {
        self.entries@.len() as int
    }

    /// The stored entries as mathematical (word, count) pairs, in storage
    /// order.
    pub closed spec fn entry_pairs(self) -> Seq<(Seq<char>, int)> {
        Seq::new(self.entries@.len(), |i: int| (self.entries@[i].0@, self.entries@[i].1 as int))
    }

    /// The entry list is faithful to the counts: each pair carries a distinct
    /// word with its positive recorded count, and every positively counted
    /// word appears.
    pub proof fn lemma_entry_pairs(&self)
        requires
            self.wf(),
        ensures
            self.entry_pairs().len() == self.num_keys(),
            forall|i: int|
                0 <= i < self.entry_pairs().len() ==> (#[trigger] self.entry_pairs()[i]).1
                    == self.count_of(self.entry_pairs()[i].0) && self.entry_pairs()[i].1 >= 1,
            forall|i: int, j: int|
                0 <= i < j < self.entry_pairs().len() ==> (#[trigger] self.entry_pairs()[i]).0 != (
                #[trigger] self.entry_pairs()[j]).0,
            forall|w: Seq<char>|
                self.count_of(w) > 0 ==> exists|i: int|
                    0 <= i < self.entry_pairs().len() && (#[trigger] self.entry_pairs()[i]).0 == w,
    {
        assert forall|i: int|
            0 <= i < self.entry_pairs().len() implies (#[trigger] self.entry_pairs()[i]).1
            == self.count_of(self.entry_pairs()[i].0) && self.entry_pairs()[i].1 >= 1 by {
            lemma_lookup_at(self.entries@, i);
        }
        assert forall|w: Seq<char>| self.count_of(w) > 0 implies exists|i: int|
            0 <= i < self.entry_pairs().len() && (#[trigger] self.entry_pairs()[i]).0 == w by {
            lemma_lookup_present(self.entries@, w);
            let i = choose|i: int|
                0 <= i < self.entries@.len() && (#[trigger] self.entries@[i]).0@ == w;
            assert(self.entry_pairs()[i].0 == w);
        }
    }

    /// An empty table.
    pub fn new() -> (t: CountTable)
        ensures
            t.wf(),
            forall|w: Seq<char>| t.count_of(w) == 0,
            t.total() == 0,
            t.num_keys() == 0,
    {
        CountTable { entries: Vec::new() }
    }

    fn find_key(&self, w: &Vec<char>) -> (r: Option<usize>)
        ensures
            match r {
                Some(i) => i < self.entries@.len() && self.entries@[i as int].0@ == w@,
                None => forall|i: int|
                    0 <= i < self.entries@.len() ==> (#[trigger] self.entries@[i]).0@ != w@,
            },
    {
        let mut i: usize = 0;
        while i < self.entries.len()
            invariant
                i <= self.entries@.len(),
                forall|j: int| 0 <= j < i ==> (#[trigger] self.entries@[j]).0@ != w@,
            decreases self.entries@.len() - i,
        {
            if eq_words(&self.entries[i].0, w) {
                return Some(i);
            }
            i = i + 1;
        }
        None
    }

    /// The count recorded for `w`.
    pub fn get(&self, w: &Vec<char>) -> (c: usize)
        requires
            self.wf(),
        ensures
            c == self.count_of(w@),
    {
        match self.find_key(w) {
            Some(i) => {
                proof {
                    lemma_lookup_at(self.entries@, i as int);
                }
                self.entries[i].1
            },
            None => {
                proof {
                    lemma_lookup_absent(self.entries@, w@);
                }
                0
            },
        }
    }

    /// Adds `amount` occurrences of `w`: `w`'s count grows by `amount`, every
    /// other count is unchanged, and the total grows by `amount`.
    pub fn add(&mut self, w: Vec<char>, amount: usize)
        requires
            old(self).wf(),
            amount >= 1,
            old(self).total() + amount <= usize::MAX,
        ensures
            final(self).wf(),
            final(self).count_of(w@) == old(self).count_of(w@) + amount,
            forall|w2: Seq<char>|
                w2 != w@ ==> final(self).count_of(w2) == old(self).count_of(w2),
            final(self).total() == old(self).total() + amount,
            final(self).num_keys() == old(self).num_keys() + if old(self).count_of(w@) == 0 {
                1int
            } else {
                0int
            },
    {
        match self.find_key(&w) {
            Some(i) => {
                proof {
                    lemma_lookup_at(self.entries@, i as int);
                    lemma_lookup_le_sum(self.entries@, w@);
                }
                let c = self.entries[i].1;
                proof {
                    lemma_update_entry(self.entries@, i as int, w, (c + amount) as usize);
                }
                self.entries[i] = (w, c + amount);
            },
            None => {
                proof {
                    lemma_lookup_absent(self.entries@, w@);
                    lemma_push_entry(self.entries@, w, amount);
                }
                self.entries.push((w, amount));
            },
        }
    }

    /// The sum of all recorded counts, computed.
    pub fn total_count(&self) -> (t: usize)
        requires
            self.wf(),
        ensures
            t == self.total(),
    {
        let mut acc: usize = 0;
        let mut i: usize = 0;
        while i < self.entries.len()
            invariant
                self.wf(),
                i <= self.entries@.len(),
                acc == sum_counts(self.entries@.take(i as int)),
            decreases self.entries@.len() - i,
        {
            proof {
                lemma_sum_take_step(self.entries@, i as int);
                lemma_sum_take_le(self.entries@, i + 1);
            }
            acc = acc + self.entries[i].1;
            i = i + 1;
        }
        proof {
            assert(self.entries@.take(i as int) =~= self.entries@);
        }
        acc
    }

    /// Adds every count of `other` into `self`: each word's count becomes the
    /// sum of the two tables' counts, and so does the total.
    pub fn merge_from(&mut self, other: &CountTable)
        requires
            old(self).wf(),
            other.wf(),
            old(self).total() + other.total() <= usize::MAX,
        ensures
            final(self).wf(),
            forall|w: Seq<char>|
                final(self).count_of(w) == old(self).count_of(w) + #[trigger] other.count_of(w),
            final(self).total() == old(self).total() + other.total(),
    {
        let ghost s0 = *old(self);
        let ghost oth = other.entries@;
        let mut k: usize = 0;
        while k < other.entries.len()
            invariant
                self.wf(),
                other.wf(),
                oth == other.entries@,
                k <= oth.len(),
                s0.total() + other.total() <= usize::MAX,
                self.total() == s0.total() + sum_counts(oth.take(k as int)),
                forall|w: Seq<char>|
                    self.count_of(w) == s0.count_of(w) + lookup(oth.take(k as int), w),
            decreases oth.len() - k,
        {
            let word = clone_word(&other.entries[k].0);
            let amount = other.entries[k].1;
            proof {
                lemma_sum_take_step(oth, k as int);
                lemma_sum_take_le(oth, k + 1);
                lemma_sum_nonneg(oth.take(k as int));
            }
            self.add(word, amount);
            proof {
                let t = oth.take(k + 1);
                assert(t.drop_last() =~= oth.take(k as int));
                assert(t.last() == oth[k as int]);
                assert forall|j: int| 0 <= j < k implies (#[trigger] oth.take(k as int)[j]).0@
                    != word@ by {
                    assert(oth[j] == oth.take(k as int)[j]);
                }
                lemma_lookup_absent(oth.take(k as int), word@);
                assert forall|w: Seq<char>| self.count_of(w) == s0.count_of(w) + lookup(
                    t,
                    w,
                ) by {
                    if w == word@ {
                        assert(lookup(t, w) == amount as int);
                    } else {
                        assert(lookup(t, w) == lookup(oth.take(k as int), w));
                    }
                }
            }
            k = k + 1;
        }
        proof {
            assert(oth.take(k as int) =~= oth);
        }
    }

    /// Merging is order-independent: whatever two task tables are added to
    /// the global totals first and second, every word ends with the same
    /// count. The premises state exactly what `merge_from` ensures of each
    /// step, for either order.
    pub proof fn lemma_merge_order_irrelevant(
        g: CountTable,
        a: CountTable,
        b: CountTable,
        ab1: CountTable,
        ab2: CountTable,
        ba1: CountTable,
        ba2: CountTable,
    )
        requires
            forall|w: Seq<char>| #[trigger] ab1.count_of(w) == g.count_of(w) + a.count_of(w),
            forall|w: Seq<char>| #[trigger] ab2.count_of(w) == ab1.count_of(w) + b.count_of(w),
            forall|w: Seq<char>| #[trigger] ba1.count_of(w) == g.count_of(w) + b.count_of(w),
            forall|w: Seq<char>| #[trigger] ba2.count_of(w) == ba1.count_of(w) + a.count_of(w),
        ensures
            forall|w: Seq<char>| #[trigger] ab2.count_of(w) == ba2.count_of(w),
    {
    }

    /// The stored entries, copied out as (word, count) pairs.
    pub fn entries_copy(&self) -> (v: Vec<(Vec<char>, usize)>)
        ensures
            v@.len() == self.entry_pairs().len(),
            forall|i: int|
                0 <= i < v@.len() ==> (#[trigger] v@[i]).0@ == self.entry_pairs()[i].0 && v@[i].1
                    == self.entry_pairs()[i].1,
    {
        let mut v: Vec<(Vec<char>, usize)> = Vec::new();
        let mut i: usize = 0;
        while i < self.entries.len()
            invariant
                i <= self.entries@.len(),
                v@.len() == i,
                forall|j: int|
                    0 <= j < i ==> (#[trigger] v@[j]).0@ == self.entries@[j].0@ && v@[j].1
                        == self.entries@[j].1,
            decreases self.entries@.len() - i,
        {
            let w = clone_word(&self.entries[i].0);
            v.push((w, self.entries[i].1));
            i = i + 1;
        }
        v
    }

    /// The characters that can follow `prefix`: all `c` with a recorded count
    /// for the word `prefix` followed by `c`.
    pub fn successors_of(&self, prefix: &Vec<char>) -> (r: Vec<char>)
        requires
            self.wf(),
        ensures
            forall|c: char| r@.contains(c) <==> self.count_of(prefix@.push(c)) > 0,
    {
        let plen = prefix.len();
        let mut r: Vec<char> = Vec::new();
        let mut i: usize = 0;
        while i < self.entries.len()
            invariant
                self.wf(),
                i <= self.entries@.len(),
                plen == prefix@.len(),
                forall|c: char|
                    r@.contains(c) <==> exists|j: int|
                        0 <= j < i && (#[trigger] self.entries@[j]).0@ == prefix@.push(c),
            decreases self.entries@.len() - i,
        {
            let key = &self.entries[i];
            if key.0.len() >= 1 && key.0.len() - 1 == plen && starts_with(&key.0, prefix) {
                let c = key.0[plen];
                proof {
                    assert(self.entries@[i as int].0@ =~= prefix@.push(c));
                }
                let ghost rold = r@;
                r.push(c);
                proof {
                    assert forall|c2: char| r@.contains(c2) <==> exists|j: int|
                        0 <= j < i + 1 && (#[trigger] self.entries@[j]).0@ == prefix@.push(
                        c2,
                    ) by {
                        if r@.contains(c2) {
                            if rold.contains(c2) {
                            } else {
                                assert(r@[r@.len() - 1] == c);
                                assert forall|k: int| 0 <= k < r@.len() && r@[k] == c2 implies c2
                                    == c by {
                                    if k < rold.len() {
                                        assert(rold[k] == c2);
                                        assert(rold.contains(c2));
                                    }
                                }
                                assert(self.entries@[i as int].0@ == prefix@.push(c2));
                            }
                        } else {
                            assert(forall|k: int| 0 <= k < rold.len() ==> rold[k] == r@[k]);
                            assert(!rold.contains(c2));
                            if exists|j: int|
                                0 <= j < i + 1 && (#[trigger] self.entries@[j]).0@ == prefix@.push(
                                c2,
                            ) {
                                let j = choose|j: int|
                                    0 <= j < i + 1 && (#[trigger] self.entries@[j]).0@
                                        == prefix@.push(c2);
                                if j < i {
                                    assert(rold.contains(c2));
                                } else {
                                    assert(prefix@.push(c2)[plen as int] == c2);
                                    assert(prefix@.push(c)[plen as int] == c);
                                    assert(c2 == c);
                                    assert(r@[rold.len() as int] == c);
                                    assert(r@.contains(c));
                                }
                                assert(false);
                            }
                        }
                    }
                }
            } else {
                proof {
                    if self.entries@[i as int].0@.len() == plen + 1 {
                        assert forall|c2: char| self.entries@[i as int].0@ != prefix@.push(
                            c2,
                        ) by {
                            if self.entries@[i as int].0@ == prefix@.push(c2) {
                                assert(self.entries@[i as int].0@.take(plen as int)
                                    =~= prefix@);
                            }
                        }
                    }
                }
            }
            i = i + 1;
        }
        proof {
            assert forall|c: char| r@.contains(c) <==> self.count_of(prefix@.push(c)) > 0 by {
                lemma_lookup_present(self.entries@, prefix@.push(c));
            }
        }
        r
    }
}

/// Whether the first `prefix.len()` characters of `key` equal `prefix`.
fn starts_with(key: &Vec<char>, prefix: &Vec<char>) -> (r: bool)
    requires
        key@.len() >= prefix@.len(),
    ensures
        r == (key@.take(prefix@.len() as int) == prefix@),
{
    let mut i: usize = 0;
    while i < prefix.len()
        invariant
            i <= prefix@.len() <= key@.len(),
            forall|j: int| 0 <= j < i ==> key@[j] == prefix@[j],
        decreases prefix@.len() - i,
    {
        if key[i] != prefix[i] {
            proof {
                assert(key@.take(prefix@.len() as int)[i as int] == key@[i as int]);
            }
            return false;
        }
        i = i + 1;
    }
    proof {
        assert(key@.take(prefix@.len() as int) =~= prefix@);
    }
    true
}

} // verus!
