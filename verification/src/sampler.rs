//! Letter-selection strategies and the samplers that realize them.

use vstd::prelude::*;
use crate::counts::CountTable;
use crate::rng::{pick_one_char, rand_index, rand_u64_below};

verus! {

/// The closed set of letter-selection strategies a typist can use.
#[derive(Clone, Copy, Debug, PartialEq, Eq)]
pub enum TypingStrategy {
    /// Uniform draw over the alphabet.
    Random,
    /// Rank-weighted draw: the first alphabet entry has the largest weight,
    /// decreasing linearly to zero for the last entry.
    LinearCommon,
    /// Log-rank-weighted draw: strictly positive logarithmic weights, so
    /// every alphabet entry remains selectable.
    LogCommon,
    /// Order-1 Markov draw keyed on the last generated character.
    Bigram,
    /// Order-2 Markov draw keyed on the last two generated characters.
    Trigram,
}

/// The fixed display-name prefix of each strategy.
pub open spec fn strategy_prefix(s: TypingStrategy) -> Seq<char> {
    match s {
        TypingStrategy::Random => "random_"@,
        TypingStrategy::LinearCommon => "linear_"@,
        TypingStrategy::LogCommon => "log_"@,
        TypingStrategy::Bigram => "bigram"@,
        TypingStrategy::Trigram => "trigram"@,
    }
}

impl TypingStrategy {
    /// The fixed display-name prefix of a typist using this strategy.
    pub fn prefix(&self) -> (r: String)
        ensures
            r@ == strategy_prefix(*self),
    {
        match self {
            TypingStrategy::Random => "random_".to_owned(),
            TypingStrategy::LinearCommon => "linear_".to_owned(),
            TypingStrategy::LogCommon => "log_".to_owned(),
            TypingStrategy::Bigram => "bigram".to_owned(),
            TypingStrategy::Trigram => "trigram".to_owned(),
        }
    }
}

/// The sum of the first `i` weights.
pub open spec fn cum(w: Seq<u64>, i: int) -> int
    decreases i,
{
    if i <= 0 {
        0
    } else {
        cum(w, i - 1) + w[i - 1]
    }
}

/// Cumulative weight sums never decrease.
pub proof fn lemma_cum_mono(w: Seq<u64>, i: int, j: int)
    requires
        i <= j,
    ensures
        cum(w, i) <= cum(w, j),
    decreases j - i,
{
    if i < j {
        lemma_cum_mono(w, i, j - 1);
    }
}

/// A pointwise weight bound carries over to the cumulative sums.
pub proof fn lemma_cum_le(w: Seq<u64>, b: int, i: int)
    requires
        forall|j: int| 0 <= j < w.len() ==> w[j] <= b,
        0 <= i <= w.len(),
    ensures
        cum(w, i) <= i * b,
    decreases i,
{
    if i > 0 {
        lemma_cum_le(w, b, i - 1);
        assert(w[i - 1] <= b);
        assert(cum(w, i) == cum(w, i - 1) + w[i - 1]);
        assert(cum(w, i) <= i * b) by (nonlinear_arith)
            requires
                cum(w, i) == cum(w, i - 1) + w[i - 1],
                cum(w, i - 1) <= (i - 1) * b,
                w[i - 1] <= b,
        ;
    } else {
        assert(cum(w, i) == 0);
        assert(i * b == 0) by (nonlinear_arith)
            requires
                i == 0,
        ;
    }
}

/// Strictly positive weights make every cumulative sum grow step by step,
/// so every index owns a non-empty draw bucket: each alphabet entry — the
/// last included — can be selected. This is how the logarithmic weighting
/// keeps the whole alphabet reachable.
pub proof fn lemma_every_bucket_reachable(w: Seq<u64>)
    requires
        forall|j: int| 0 <= j < w.len() ==> w[j] >= 1,
    ensures
        forall|i: int| 0 <= i < w.len() ==> #[trigger] cum(w, i) < cum(w, i + 1),
        forall|i: int| 0 <= i < w.len() ==> #[trigger] cum(w, i + 1) <= cum(w, w.len() as int),
        cum(w, w.len() as int) >= w.len(),
{
    assert forall|i: int| 0 <= i < w.len() implies #[trigger] cum(w, i) < cum(w, i + 1) by {}
    assert forall|i: int| 0 <= i < w.len() implies #[trigger] cum(w, i + 1) <= cum(
        w,
        w.len() as int,
    ) by {
        lemma_cum_mono(w, i + 1, w.len() as int);
    }
    lemma_cum_at_least_len(w, w.len() as int);
}

proof fn lemma_cum_at_least_len(w: Seq<u64>, i: int)
    requires
        forall|j: int| 0 <= j < w.len() ==> w[j] >= 1,
        0 <= i <= w.len(),
    ensures
        cum(w, i) >= i,
    decreases i,
{
    if i > 0 {
        lemma_cum_at_least_len(w, i - 1);
    }
}

/// A zero final weight leaves the last draw bucket empty: no draw below the
/// total ever selects the last index. This is why the linear weighting never
/// produces the last alphabet entry.
pub proof fn lemma_last_bucket_empty(w: Seq<u64>)
    requires
        w.len() >= 1,
        w[w.len() - 1] == 0,
    ensures
        cum(w, w.len() - 1) == cum(w, w.len() as int),
{
}

/// Locates the bucket a draw falls into by a cumulative-sum scan: the
/// returned index `i` satisfies `cum(w, i) <= draw < cum(w, i + 1)`. A draw
/// at or above the total falls back to the first entry.
pub fn bucket_index(w: &Vec<u64>, draw: u64) -> (i: usize)
    requires
        w@.len() >= 1,
        cum(w@, w@.len() as int) <= u64::MAX,
    ensures
        i < w@.len(),
        draw < cum(w@, w@.len() as int) ==> cum(w@, i as int) <= draw < cum(w@, i + 1),
        draw >= cum(w@, w@.len() as int) ==> i == 0,
{
    let n = w.len();
    let mut c: u64 = 0;
    let mut i: usize = 0;
    while i < n
        invariant
            n == w@.len(),
            i <= n,
            c == cum(w@, i as int),
            draw >= c,
            cum(w@, n as int) <= u64::MAX,
        decreases n - i,
    {
        proof {
            lemma_cum_mono(w@, i + 1, n as int);
        }
        c = c + w[i];
        if draw < c {
            return i;
        }
        i = i + 1;
    }
    0
}

/// The rank weights of the linear strategy: the first entry weighs `n - 1`,
/// decreasing by one per rank down to zero for the last entry.
pub fn linear_weights(n: usize) -> (w: Vec<u64>)
    requires
        n >= 1,
        n <= 0x8000_0000,
    ensures
        w@.len() == n,
        forall|i: int| 0 <= i < n ==> w@[i] == n - 1 - i,
    decreases n,
{
    let mut w: Vec<u64> = Vec::new();
    let mut i: usize = 0;
    while i < n
        invariant
            i <= n,
            n <= 0x8000_0000,
            w@.len() == i,
            forall|j: int| 0 <= j < i ==> w@[j] == n - 1 - j,
        decreases n - i,
    {
        w.push(((n - 1) - i) as u64);
        i = i + 1;
    }
    w
}

/// How many binary digits `k` has; zero for zero.
pub open spec fn bitlen(k: nat) -> nat
    decreases k,
{
    if k == 0 {
        0
    } else {
        1 + bitlen(k / 2)
    }
}

proof fn lemma_bitlen_le_self(k: nat)
    ensures
        bitlen(k) <= k || k == 0,
        k >= 1 ==> 1 <= bitlen(k) <= k,
    decreases k,
{
    if k >= 1 {
        lemma_bitlen_le_self(k / 2);
    }
}

/// The number of binary digits of `x`.
pub fn bit_length(x: u64) -> (r: u64)
    ensures
        r == bitlen(x as nat),
{
    proof {
        lemma_bitlen_le_self(x as nat);
    }
    let mut v = x;
    let mut r: u64 = 0;
    while v > 0
        invariant
            r + bitlen(v as nat) == bitlen(x as nat),
            bitlen(x as nat) <= u64::MAX,
        decreases v,
    {
        v = v / 2;
        r = r + 1;
    }
    r
}

/// The rank weights of the logarithmic strategy: the `i`-th entry of `n`
/// weighs the binary digit count of `n - i`. The weights decay
/// logarithmically with rank and stay strictly positive, so every entry
/// keeps a nonzero chance.
pub fn log_weights(n: usize) -> (w: Vec<u64>)
    requires
        n >= 1,
        n <= 0x8000_0000,
    ensures
        w@.len() == n,
        forall|i: int| 0 <= i < n ==> w@[i] == bitlen((n - i) as nat) && 1 <= w@[i] <= n,
{
    let mut w: Vec<u64> = Vec::new();
    let mut i: usize = 0;
    while i < n
        invariant
            i <= n,
            n <= 0x8000_0000,
            w@.len() == i,
            forall|j: int| 0 <= j < i ==> w@[j] == bitlen((n - j) as nat) && 1 <= w@[j] <= n,
        decreases n - i,
    {
        proof {
            lemma_bitlen_le_self((n - i) as nat);
        }
        let b = bit_length((n - i) as u64);
        w.push(b);
        i = i + 1;
    }
    w
}

fn sum_weights(w: &Vec<u64>) -> (t: u64)
    requires
        cum(w@, w@.len() as int) <= u64::MAX,
    ensures
        t == cum(w@, w@.len() as int),
{
    let n = w.len();
    let mut t: u64 = 0;
    let mut i: usize = 0;
    while i < n
        invariant
            n == w@.len(),
            i <= n,
            t == cum(w@, i as int),
            cum(w@, n as int) <= u64::MAX,
        decreases n - i,
    {
        proof {
            lemma_cum_mono(w@, i + 1, n as int);
        }
        t = t + w[i];
        i = i + 1;
    }
    t
}

/// One uniform draw from the alphabet.
pub fn pick_uniform(alphabet: &Vec<char>, rng: &mut rand::rngs::StdRng) -> (c: char)
    requires
        alphabet@.len() >= 1,
    ensures
        alphabet@.contains(c),
{
    let i = rand_index(rng, alphabet.len());
    let c = alphabet[i];
    proof {
        assert(alphabet@[i as int] == c);
    }
    c
}

/// One linearly rank-weighted draw: a cumulative-bucket draw over the linear
/// weights. The last alphabet entry has weight zero and is never returned —
/// a deliberate consequence of the weighting scheme.
pub fn pick_linear(alphabet: &Vec<char>, rng: &mut rand::rngs::StdRng) -> (c: char)
    requires
        2 <= alphabet@.len() <= 0x8000_0000,
    ensures
        exists|i: int| 0 <= i < alphabet@.len() - 1 && c == alphabet@[i],
{
    let n = alphabet.len();
    let w = linear_weights(n);
    proof {
        lemma_cum_le(w@, n as int, n as int);
        assert((n as int) * (n as int) <= 0x8000_0000 * 0x8000_0000) by (nonlinear_arith)
            requires
                1 <= n <= 0x8000_0000,
        ;
        lemma_cum_mono(w@, 1, n as int);
        assert(w@[0] == n - 1);
        assert(cum(w@, 0) == 0);
        assert(cum(w@, 1) == n - 1);
    }
    let total = sum_weights(&w);
    let draw = rand_u64_below(rng, total);
    let i = bucket_index(&w, draw);
    proof {
        lemma_last_bucket_empty(w@);
        assert(i < n - 1) by {
            if i == n - 1 {
                assert(cum(w@, i as int) <= draw);
                assert(draw < cum(w@, n as int));
            }
        }
        assert(alphabet@[i as int] == alphabet@[i as int]);
    }
    alphabet[i]
}

/// One logarithmically rank-weighted draw: a cumulative-bucket draw over the
/// logarithmic weights. Every entry, the last included, has positive weight.
pub fn pick_log(alphabet: &Vec<char>, rng: &mut rand::rngs::StdRng) -> (c: char)
    requires
        1 <= alphabet@.len() <= 0x8000_0000,
    ensures
        alphabet@.contains(c),
{
    let n = alphabet.len();
    let w = log_weights(n);
    proof {
        lemma_cum_le(w@, n as int, n as int);
        assert((n as int) * (n as int) <= 0x8000_0000 * 0x8000_0000) by (nonlinear_arith)
            requires
                1 <= n <= 0x8000_0000,
        ;
        lemma_every_bucket_reachable(w@);
    }
    let total = sum_weights(&w);
    let draw = rand_u64_below(rng, total);
    let i = bucket_index(&w, draw);
    let c = alphabet[i];
    proof {
        assert(alphabet@[i as int] == c);
    }
    c
}

/// The trailing `k` characters of a generated page.
pub open spec fn context_of(page: Seq<char>, k: int) -> Seq<char> {
    page.skip(page.len() - k)
}

/// One Markov draw with a trailing context of `ctx_len` characters. With too
/// little context (cold start) the draw is uniform. Otherwise, among the
/// recorded n-grams that extend the context, one is chosen at random and its
/// final character returned; if none is recorded, the draw falls back to a
/// uniform one over the alphabet and still returns an alphabet character.
pub fn sample_markov(
    alphabet: &Vec<char>,
    table: &CountTable,
    page: &Vec<char>,
    ctx_len: usize,
    rng: &mut rand::rngs::StdRng,
) -> (c: char)
    requires
        alphabet@.len() >= 1,
        table.wf(),
        ctx_len >= 1,
    ensures
        page@.len() < ctx_len ==> alphabet@.contains(c),
        page@.len() >= ctx_len ==> {
            &&& (exists|x: char|
                table.count_of(#[trigger] context_of(page@, ctx_len as int).push(x)) > 0)
                ==> table.count_of(context_of(page@, ctx_len as int).push(c)) > 0
            &&& !(exists|x: char|
                table.count_of(#[trigger] context_of(page@, ctx_len as int).push(x)) > 0)
                ==> alphabet@.contains(c)
        },
{
    if page.len() < ctx_len {
        return pick_uniform(alphabet, rng);
    }
    let plen = page.len();
    let start = plen - ctx_len;
    let mut prefix: Vec<char> = Vec::new();
    let mut j: usize = 0;
    while j < ctx_len
        invariant
            plen == page@.len(),
            start + ctx_len == plen,
            j <= ctx_len,
            prefix@ =~= page@.subrange(start as int, start + j),
        decreases ctx_len - j,
    {
        prefix.push(page[start + j]);
        assert(prefix@ =~= page@.subrange(start as int, start + j + 1));
        j = j + 1;
    }
    proof {
        assert(prefix@ =~= context_of(page@, ctx_len as int));
    }
    let cands = table.successors_of(&prefix);
    match pick_one_char(rng, &cands) {
        Some(c) => c,
        None => {
            proof {
                assert forall|x: char|
                    table.count_of(#[trigger] context_of(page@, ctx_len as int).push(x))
                        <= 0 by {
                    if table.count_of(context_of(page@, ctx_len as int).push(x)) > 0 {
                        assert(cands@.contains(x));
                    }
                }
            }
            pick_uniform(alphabet, rng)
        },
    }
}

/// What one generation step guarantees of the emitted character `c`, given
/// the page `prefix` generated so far: an alphabet character for the uniform
/// draws, one at a rank below the last for the linear weighting, and for the
/// Markov draws a recorded continuation of the trailing context when one
/// exists, an alphabet character otherwise (cold start included).
pub open spec fn step_ok(
    typewriter: Seq<char>,
    strategy: TypingStrategy,
    bigrams: CountTable,
    trigrams: CountTable,
    prefix: Seq<char>,
    c: char,
) -> bool {
    match strategy {
        TypingStrategy::Random => typewriter.contains(c),
        TypingStrategy::LinearCommon => exists|i: int|
            0 <= i < typewriter.len() - 1 && c == typewriter[i],
        TypingStrategy::LogCommon => typewriter.contains(c),
        TypingStrategy::Bigram => {
            &&& prefix.len() < 1 ==> typewriter.contains(c)
            &&& prefix.len() >= 1 ==> {
                &&& (exists|x: char|
                    bigrams.count_of(#[trigger] context_of(prefix, 1).push(x)) > 0)
                    ==> bigrams.count_of(context_of(prefix, 1).push(c)) > 0
                &&& !(exists|x: char|
                    bigrams.count_of(#[trigger] context_of(prefix, 1).push(x)) > 0)
                    ==> typewriter.contains(c)
            }
        },
        TypingStrategy::Trigram => {
            &&& prefix.len() < 2 ==> typewriter.contains(c)
            &&& prefix.len() >= 2 ==> {
                &&& (exists|x: char|
                    trigrams.count_of(#[trigger] context_of(prefix, 2).push(x)) > 0)
                    ==> trigrams.count_of(context_of(prefix, 2).push(c)) > 0
                &&& !(exists|x: char|
                    trigrams.count_of(#[trigger] context_of(prefix, 2).push(x)) > 0)
                    ==> typewriter.contains(c)
            }
        },
    }
}

/// Every character of `p` was an admissible next character, under the given
/// strategy and n-gram tables, for the part of `p` generated before it.
pub open spec fn page_ok(
    typewriter: Seq<char>,
    strategy: TypingStrategy,
    bigrams: CountTable,
    trigrams: CountTable,
    p: Seq<char>,
) -> bool {
    forall|i: int|
        0 <= i < p.len() ==> #[trigger] step_ok(
            typewriter,
            strategy,
            bigrams,
            trigrams,
            p.take(i),
            p[i],
        )
}

/// One next character under the given strategy, consulting the bigram or
/// trigram table for the Markov strategies.
pub fn next_char(
    alphabet: &Vec<char>,
    strategy: TypingStrategy,
    bigrams: &CountTable,
    trigrams: &CountTable,
    page: &Vec<char>,
    rng: &mut rand::rngs::StdRng,
) -> (c: char)
    requires
        1 <= alphabet@.len() <= 0x8000_0000,
        strategy is LinearCommon ==> alphabet@.len() >= 2,
        bigrams.wf(),
        trigrams.wf(),
    ensures
        step_ok(alphabet@, strategy, *bigrams, *trigrams, page@, c),
{
    match strategy {
        TypingStrategy::Random => pick_uniform(alphabet, rng),
        TypingStrategy::LinearCommon => pick_linear(alphabet, rng),
        TypingStrategy::LogCommon => pick_log(alphabet, rng),
        TypingStrategy::Bigram => sample_markov(alphabet, bigrams, page, 1, rng),
        TypingStrategy::Trigram => sample_markov(alphabet, trigrams, page, 2, rng),
    }
}

} // verus!
