//! Scheduling a roster of typist tasks and aggregating their results into
//! global word totals and a typist leaderboard.

use vstd::prelude::*;
use vstd::string::StringExecFns;
use crate::counts::CountTable;
use crate::dictionary::Dictionary;
use crate::ngram::{generate_bigram_map, generate_trigram_map, pair_count, triple_count};
use crate::order::{
    count_ge, name_pairs_of, pairs_of, sort_typist_entries, sort_word_entries, stably_count_sorted,
    stably_ordered, word_rank_le,
};
use crate::rng::{seed_rng, shuffle_names};
use crate::sampler::{strategy_prefix, TypingStrategy};
use crate::typist::{task_table_ok, Monkey};

verus! {

/// The fatal conditions a run aborts on before any task output is produced.
#[derive(Clone, Copy, Debug, PartialEq, Eq)]
pub enum SimError {
    /// The typewriter has no keys.
    EmptyAlphabet,
    /// The typewriter has a single key, which the linear weighting cannot
    /// work with.
    AlphabetTooSmall,
    /// The word-length search window contains no length.
    EmptyWindow,
    /// No characters were requested.
    ZeroTarget,
    /// The name pool has fewer entries than the number of scheduled tasks.
    NamePoolExhausted,
}

/// The first fatal condition among the run inputs, checked up front in this
/// order; `None` when the run may proceed.
pub open spec fn validation_error(
    alphabet_len: int,
    min_len: int,
    max_len: int,
    letters: int,
    pool: int,
    tasks: int,
) -> Option<SimError> {
    if alphabet_len == 0 {
        Some(SimError::EmptyAlphabet)
    } else if alphabet_len == 1 {
        Some(SimError::AlphabetTooSmall)
    } else if min_len == 0 || min_len >= max_len {
        Some(SimError::EmptyWindow)
    } else if letters == 0 {
        Some(SimError::ZeroTarget)
    } else if pool < tasks {
        Some(SimError::NamePoolExhausted)
    } else {
        None
    }
}

/// The fixed strategy roster, in launch order.
pub open spec fn roster() -> Seq<TypingStrategy> {
    seq![
        TypingStrategy::Random,
        TypingStrategy::LinearCommon,
        TypingStrategy::LogCommon,
        TypingStrategy::Bigram,
        TypingStrategy::Trigram,
    ]
}

/// The fixed strategy roster, in launch order.
pub fn all_strategies() -> (v: Vec<TypingStrategy>)
    ensures
        v@ == roster(),
{
    let mut v: Vec<TypingStrategy> = Vec::new();
    v.push(TypingStrategy::Random);
    v.push(TypingStrategy::LinearCommon);
    v.push(TypingStrategy::LogCommon);
    v.push(TypingStrategy::Bigram);
    v.push(TypingStrategy::Trigram);
    proof {
        assert(v@ =~= roster());
    }
    v
}

/// Assigns every (strategy, repetition) pair its unique identity up front:
/// the `k`-th task runs strategy `k / reps` under the strategy's prefix glued
/// to the `k`-th name. Fails, before any task could start, exactly when the
/// name pool is smaller than the task count.
pub fn plan_tasks(strategies: &Vec<TypingStrategy>, reps: usize, names: &Vec<String>) -> (r: Result<
    Vec<(TypingStrategy, String)>,
    SimError,
>)
    requires
        strategies@.len() * reps <= usize::MAX,
    ensures
        match r {
            Ok(plan) => {
                &&& names@.len() >= strategies@.len() * reps
                &&& plan@.len() == strategies@.len() * reps
                &&& forall|k: int|
                    0 <= k < plan@.len() ==> (#[trigger] plan@[k]).0 == strategies@[k / (
                    reps as int)] && plan@[k].1@ == strategy_prefix(
                        strategies@[k / (reps as int)],
                    ) + names@[k]@
            },
            Err(e) => e is NamePoolExhausted && names@.len() < strategies@.len() * reps,
        },
{
    let slen = strategies.len();
    let total = slen * reps;
    if names.len() < total {
        return Err(SimError::NamePoolExhausted);
    }
    let mut plan: Vec<(TypingStrategy, String)> = Vec::new();
    let mut si: usize = 0;
    let mut k: usize = 0;
    while si < slen
        invariant
            slen == strategies@.len(),
            total == slen * reps,
            total <= names@.len(),
            si <= slen,
            k == si * reps,
            k <= total,
            plan@.len() == k,
            forall|q: int|
                0 <= q < k ==> (#[trigger] plan@[q]).0 == strategies@[q / (reps as int)]
                    && plan@[q].1@ == strategy_prefix(strategies@[q / (reps as int)]) + names@[q]@,
        decreases slen - si,
    {
        let mut ri: usize = 0;
        proof {
            assert((si + 1) * reps <= slen * reps && si * reps + reps == (si + 1) * reps)
                by (nonlinear_arith)
                requires
                    0 <= si < slen,
                    0 <= reps,
            ;
        }
        while ri < reps
            invariant
                slen == strategies@.len(),
                total == slen * reps,
                total <= names@.len(),
                si < slen,
                ri <= reps,
                k == si * reps + ri,
                si * reps + reps <= total,
                plan@.len() == k,
                forall|q: int|
                    0 <= q < k ==> (#[trigger] plan@[q]).0 == strategies@[q / (reps as int)]
                        && plan@[q].1@ == strategy_prefix(strategies@[q / (reps as int)])
                        + names@[q]@,
            decreases reps - ri,
        {
            let name = strategies[si].prefix().concat(names[k].as_str());
            plan.push((strategies[si], name));
            proof {
                assert(k as int / (reps as int) == si) by (nonlinear_arith)
                    requires
                        k == si * reps + ri,
                        0 <= ri < reps,
                        0 <= si,
                ;
            }
            k = k + 1;
            ri = ri + 1;
        }
        si = si + 1;
    }
    Ok(plan)
}

/// The final report: the highest-ranked words with their global counts, and
/// the highest-ranked typists with their personal totals.
#[derive(Debug, PartialEq, Eq)]
pub struct SimReport {
    /// Words, descending by global count, ties broken by lexicographically
    /// smaller word first; at most ten entries.
    pub top_words: Vec<(Vec<char>, usize)>,
    /// Typists, descending by their personal word total, ties keeping launch
    /// order; at most ten entries.
    pub top_typists: Vec<(String, usize)>,
}

/// Both report lists are ranked and capped at ten entries.
pub open spec fn report_ok(report: SimReport) -> bool {
    &&& report.top_words@.len() <= 10
    &&& report.top_typists@.len() <= 10
    &&& forall|i: int, j: int|
        0 <= i < j < report.top_words@.len() ==> word_rank_le(
            #[trigger] pairs_of(report.top_words@)[i],
            #[trigger] pairs_of(report.top_words@)[j],
        )
    &&& forall|i: int, j: int|
        0 <= i < j < report.top_typists@.len() ==> count_ge(
            #[trigger] name_pairs_of(report.top_typists@)[i],
            #[trigger] name_pairs_of(report.top_typists@)[j],
        )
}

/// The sum of one word's counts over a sequence of task tables.
pub open spec fn merged_counts(tables: Seq<CountTable>, w: Seq<char>) -> int
    decreases tables.len(),
{
    if tables.len() == 0 {
        0
    } else {
        merged_counts(tables.drop_last(), w) + tables.last().count_of(w)
    }
}

/// The (identity, personal total) pairs of the planned tasks: the `k`-th
/// task's identity is its strategy's prefix glued to the `k`-th shuffled
/// name, and its total is its table's.
pub open spec fn planned_pairs(reps: int, pool: Seq<String>, tables: Seq<CountTable>) -> Seq<
    (Seq<char>, int),
> {
    Seq::new(
        tables.len(),
        |k: int| (strategy_prefix(roster()[k / reps]) + pool[k]@, tables[k].total()),
    )
}

/// How the word ranking arises: `totals` merges the task tables, `full` is a
/// ranked ordering of its entry pairs, and the report keeps the first ten.
pub open spec fn words_ranked_from(
    tables: Seq<CountTable>,
    top_words: Seq<(Vec<char>, usize)>,
    totals: CountTable,
    full: Seq<(Seq<char>, int)>,
) -> bool {
    &&& totals.wf()
    &&& forall|w: Seq<char>| #[trigger] totals.count_of(w) == merged_counts(tables, w)
    &&& full.to_multiset() == totals.entry_pairs().to_multiset()
    &&& forall|i: int, j: int|
        0 <= i < j < full.len() ==> word_rank_le(#[trigger] full[i], #[trigger] full[j])
    &&& pairs_of(top_words) == full.take(
        if full.len() < 10 {
            full.len() as int
        } else {
            10int
        },
    )
}

/// How the typist ranking arises: `full` rearranges the planned tasks'
/// (identity, total) pairs by count descending, equal counts keeping launch
/// order, and the report keeps the first ten.
pub open spec fn typists_ranked_from(
    reps: int,
    pool: Seq<String>,
    tables: Seq<CountTable>,
    top_typists: Seq<(String, usize)>,
    full: Seq<(Seq<char>, int)>,
) -> bool {
    &&& full.to_multiset() == planned_pairs(reps, pool, tables).to_multiset()
    &&& forall|i: int, j: int|
        0 <= i < j < full.len() ==> count_ge(#[trigger] full[i], #[trigger] full[j])
    &&& exists|idx: Seq<int>| #[trigger] stably_ordered(planned_pairs(reps, pool, tables), full, idx)
    &&& name_pairs_of(top_typists) == full.take(
        if 5 * reps < 10 {
            5 * reps
        } else {
            10int
        },
    )
}

/// How an accepted report arises from the run's inputs: some shuffled pool
/// and one task table per (strategy, repetition) pair — each consistent with
/// a task run against the corpus's bigram and trigram tables — such that both
/// rankings are cut from ranked orderings of the merged totals and of the
/// per-task totals.
pub open spec fn report_from(
    corpus: Seq<char>,
    alphabet: Seq<char>,
    dict: Dictionary,
    names: Seq<String>,
    reps: int,
    letters: int,
    min_len: int,
    max_len: int,
    pool: Seq<String>,
    tables: Seq<CountTable>,
    bg: CountTable,
    tg: CountTable,
    report: SimReport,
) -> bool {
    &&& pool.len() == names.len()
    &&& pool.to_multiset() == names.to_multiset()
    &&& forall|w: Seq<char>|
        w.len() == 2 ==> #[trigger] bg.count_of(w) == pair_count(corpus, w[0], w[1])
    &&& forall|w: Seq<char>|
        w.len() == 3 ==> #[trigger] tg.count_of(w) == triple_count(corpus, w[0], w[1], w[2])
    &&& tables.len() == 5 * reps
    &&& forall|k: int|
        0 <= k < tables.len() ==> #[trigger] task_table_ok(
            alphabet,
            roster()[k / reps],
            bg,
            tg,
            dict,
            min_len,
            max_len,
            letters,
            tables[k],
        )
    &&& exists|totals: CountTable, full: Seq<(Seq<char>, int)>|
        words_ranked_from(tables, report.top_words@, totals, full)
    &&& exists|full: Seq<(Seq<char>, int)>|
        typists_ranked_from(reps, pool, tables, report.top_typists@, full)
}

/// Runs the whole simulation: validates the inputs up front, builds the
/// bigram and trigram tables from the corpus, shuffles the name pool with
/// the seeded generator, launches one task per (strategy, repetition) pair,
/// waits for each in turn, merges every task's occurrence table into the
/// global totals, and ranks words and typists. Fails, producing no partial
/// output, exactly on the validation errors; otherwise both rankings are
/// sorted, the leaderboard holds every task up to the cap, and the run is a
/// function of its inputs plus the generator draws alone.
pub fn run_simulation(
    corpus: &Vec<char>,
    alphabet: &Vec<char>,
    dict: &Dictionary,
    names: Vec<String>,
    reps: usize,
    letters_to_type: usize,
    min_len: usize,
    max_len: usize,
    seed: u64,
) -> (r: Result<SimReport, SimError>)
    requires
        dict.wf(),
        alphabet@.len() <= 0x8000_0000,
        5 * reps <= usize::MAX,
        (max_len - min_len) * letters_to_type * (5 * reps) <= usize::MAX,
    ensures
        match r {
            Ok(report) => {
                &&& validation_error(
                    alphabet@.len() as int,
                    min_len as int,
                    max_len as int,
                    letters_to_type as int,
                    names@.len() as int,
                    5 * reps,
                ) is None
                &&& report_ok(report)
                &&& report.top_typists@.len() == if 5 * reps < 10 {
                    5 * (reps as int)
                } else {
                    10int
                }
                &&& exists|pool2: Seq<String>, tables: Seq<CountTable>, bg: CountTable, tg:
                    CountTable| #[trigger] report_from(
                    corpus@,
                    alphabet@,
                    *dict,
                    names@,
                    reps as int,
                    letters_to_type as int,
                    min_len as int,
                    max_len as int,
                    pool2,
                    tables,
                    bg,
                    tg,
                    report,
                )
            },
            Err(e) => Some(e) == validation_error(
                alphabet@.len() as int,
                min_len as int,
                max_len as int,
                letters_to_type as int,
                names@.len() as int,
                5 * reps,
            ),
        },
{
    let alen = alphabet.len();
    if alen == 0 {
        return Err(SimError::EmptyAlphabet);
    }
    if alen == 1 {
        return Err(SimError::AlphabetTooSmall);
    }
    if min_len == 0 || min_len >= max_len {
        return Err(SimError::EmptyWindow);
    }
    if letters_to_type == 0 {
        return Err(SimError::ZeroTarget);
    }
    let strategies = all_strategies();
    let mut pool = names;
    let mut master = seed_rng(seed);
    shuffle_names(&mut master, &mut pool);
    let plan = match plan_tasks(&strategies, reps, &pool) {
        Ok(p) => p,
        Err(e) => {
            return Err(e);
        },
    };
    let bigrams = generate_bigram_map(corpus);
    let trigrams = generate_trigram_map(corpus);
    let ghost per = (max_len - min_len) * (letters_to_type as int);
    let ghost tasks = 5 * (reps as int);
    let mut totals = CountTable::new();
    let mut board: Vec<(String, usize)> = Vec::new();
    let ghost mut tables: Seq<CountTable> = Seq::empty();
    let mut k: usize = 0;
    while k < plan.len()
        invariant
            dict.wf(),
            bigrams.wf(),
            trigrams.wf(),
            totals.wf(),
            2 <= alen == alphabet@.len() <= 0x8000_0000,
            1 <= min_len < max_len,
            letters_to_type >= 1,
            per == (max_len - min_len) * (letters_to_type as int),
            tasks == 5 * (reps as int),
            per >= 0,
            per * tasks <= usize::MAX,
            plan@.len() == tasks,
            k <= plan@.len(),
            board@.len() == k,
            totals.total() <= k * per,
            tables.len() == k,
            forall|q: int|
                0 <= q < plan@.len() ==> (#[trigger] plan@[q]).0 == roster()[q / (reps as int)]
                    && plan@[q].1@ == strategy_prefix(roster()[q / (reps as int)]) + pool@[q]@,
            forall|q: int|
                0 <= q < k ==> #[trigger] task_table_ok(
                    alphabet@,
                    roster()[q / (reps as int)],
                    bigrams,
                    trigrams,
                    *dict,
                    min_len as int,
                    max_len as int,
                    letters_to_type as int,
                    tables[q],
                ),
            forall|w: Seq<char>| #[trigger] totals.count_of(w) == merged_counts(tables, w),
            forall|q: int|
                0 <= q < k ==> (#[trigger] board@[q]).0@ == strategy_prefix(
                    roster()[q / (reps as int)],
                ) + pool@[q]@ && board@[q].1 == tables[q].total(),
        decreases plan@.len() - k,
    {
        let entry = &plan[k];
        let strat = entry.0;
        let identity = entry.1.as_str().to_owned();
        let monkey = Monkey::new(identity);
        let mut task_rng = seed_rng(seed.wrapping_add(k as u64).wrapping_add(1));
        proof {
            assert(per <= per * tasks) by (nonlinear_arith)
                requires
                    per >= 0,
                    tasks >= 1,
            ;
        }
        let result = monkey.type_and_count(
            alphabet,
            letters_to_type,
            min_len,
            max_len,
            dict,
            strat,
            &bigrams,
            &trigrams,
            &mut task_rng,
        );
        let task_counts = result.1;
        let task_total = task_counts.total_count();
        board.push((result.0, task_total));
        proof {
            assert(k * per + per == (k + 1) * per) by (nonlinear_arith);
            assert((k + 1) * per <= tasks * per) by (nonlinear_arith)
                requires
                    k + 1 <= tasks,
                    per >= 0,
            ;
            assert(tasks * per == per * tasks) by (nonlinear_arith);
        }
        totals.merge_from(&task_counts);
        proof {
            let ghost told = tables;
            tables = tables.push(task_counts);
            assert(tables.drop_last() =~= told);
            assert(forall|q: int| 0 <= q < told.len() ==> tables[q] == told[q]);
            assert(tables[k as int] == task_counts);
            assert forall|w: Seq<char>| #[trigger] totals.count_of(w) == merged_counts(
                tables,
                w,
            ) by {
                assert(merged_counts(tables, w) == merged_counts(told, w)
                    + task_counts.count_of(w));
            }
        }
        k = k + 1;
    }
    let entries = totals.entries_copy();
    let ghost epairs = entries@;
    let mut ranked_words = sort_word_entries(entries);
    let ghost full_words = ranked_words@;
    if ranked_words.len() > 10 {
        ranked_words.truncate(10);
        proof {
            assert forall|i: int|
                0 <= i < ranked_words@.len() implies pairs_of(ranked_words@)[i] == pairs_of(
                full_words,
            )[i] by {
                assert(ranked_words@[i] == full_words[i]);
            }
        }
    }
    let ghost bview = board@;
    let mut ranked_typists = sort_typist_entries(board);
    let ghost full_typists = ranked_typists@;
    if ranked_typists.len() > 10 {
        ranked_typists.truncate(10);
        proof {
            assert forall|i: int|
                0 <= i < ranked_typists@.len() implies name_pairs_of(ranked_typists@)[i]
                == name_pairs_of(full_typists)[i] by {
                assert(ranked_typists@[i] == full_typists[i]);
            }
        }
    }
    proof {
        assert forall|i: int, j: int|
            0 <= i < j < ranked_words@.len() implies word_rank_le(
            #[trigger] pairs_of(ranked_words@)[i],
            #[trigger] pairs_of(ranked_words@)[j],
        ) by {
            assert(ranked_words@[i] == full_words[i] && ranked_words@[j] == full_words[j]);
            assert(pairs_of(ranked_words@)[i] == pairs_of(full_words)[i]);
            assert(pairs_of(ranked_words@)[j] == pairs_of(full_words)[j]);
            assert(word_rank_le(pairs_of(full_words)[i], pairs_of(full_words)[j]));
        }
        assert forall|i: int, j: int|
            0 <= i < j < ranked_typists@.len() implies count_ge(
            #[trigger] name_pairs_of(ranked_typists@)[i],
            #[trigger] name_pairs_of(ranked_typists@)[j],
        ) by {
            assert(ranked_typists@[i] == full_typists[i] && ranked_typists@[j] == full_typists[j]);
            assert(name_pairs_of(ranked_typists@)[i] == name_pairs_of(full_typists)[i]);
            assert(name_pairs_of(ranked_typists@)[j] == name_pairs_of(full_typists)[j]);
            assert(count_ge(name_pairs_of(full_typists)[i], name_pairs_of(full_typists)[j]));
        }
    }
    let report = SimReport { top_words: ranked_words, top_typists: ranked_typists };
    proof {
        let full_w = pairs_of(full_words);
        assert(pairs_of(epairs) =~= totals.entry_pairs()) by {
            assert forall|i: int|
                0 <= i < epairs.len() implies pairs_of(epairs)[i] == totals.entry_pairs()[i] by {
                assert(epairs[i].0@ == totals.entry_pairs()[i].0);
                assert(epairs[i].1 == totals.entry_pairs()[i].1);
            }
        }
        if full_words.len() > 10 {
            assert(pairs_of(report.top_words@) =~= full_w.take(10)) by {
                assert forall|i: int|
                    0 <= i < report.top_words@.len() implies pairs_of(report.top_words@)[i]
                    == full_w.take(10)[i] by {
                    assert(report.top_words@[i] == full_words[i]);
                }
            }
        } else {
            assert(report.top_words@ == full_words);
            assert(pairs_of(report.top_words@) =~= full_w.take(full_w.len() as int));
        }
        assert(words_ranked_from(tables, report.top_words@, totals, full_w));
        assert(exists|totals2: CountTable, full2: Seq<(Seq<char>, int)>| words_ranked_from(
            tables,
            report.top_words@,
            totals2,
            full2,
        ));

        let full_t = name_pairs_of(full_typists);
        assert(name_pairs_of(bview) =~= planned_pairs(reps as int, pool@, tables)) by {
            assert forall|q: int|
                0 <= q < bview.len() implies name_pairs_of(bview)[q] == planned_pairs(
                reps as int,
                pool@,
                tables,
            )[q] by {
                assert(bview[q].0@ == strategy_prefix(roster()[q / (reps as int)]) + pool@[q]@);
                assert(bview[q].1 == tables[q].total());
            }
        }
        if full_typists.len() > 10 {
            assert(name_pairs_of(report.top_typists@) =~= full_t.take(10)) by {
                assert forall|i: int|
                    0 <= i < report.top_typists@.len() implies name_pairs_of(
                    report.top_typists@,
                )[i] == full_t.take(10)[i] by {
                    assert(report.top_typists@[i] == full_typists[i]);
                }
            }
        } else {
            assert(report.top_typists@ == full_typists);
            assert(name_pairs_of(report.top_typists@) =~= full_t.take(full_t.len() as int));
        }
        let sidx = choose|idx: Seq<int>| stably_count_sorted(bview, full_typists, idx);
        assert(stably_ordered(planned_pairs(reps as int, pool@, tables), full_t, sidx)) by {
            let planned = planned_pairs(reps as int, pool@, tables);
            assert(name_pairs_of(bview) == planned);
            assert forall|q: int| 0 <= q < full_t.len() implies #[trigger] full_t[q] == planned[
                sidx[q]] by {
                assert(full_typists[q] == bview[sidx[q]]);
                assert(name_pairs_of(bview)[sidx[q]] == planned[sidx[q]]);
            }
            assert forall|q1: int, q2: int|
                0 <= q1 < q2 < sidx.len() implies planned[#[trigger] sidx[q1]].1 > planned[
                #[trigger] sidx[q2]].1 || (planned[sidx[q1]].1 == planned[sidx[q2]].1 && sidx[q1]
                < sidx[q2]) by {
                assert(planned[sidx[q1]].1 == bview[sidx[q1]].1);
                assert(planned[sidx[q2]].1 == bview[sidx[q2]].1);
            }
        }
        assert(typists_ranked_from(reps as int, pool@, tables, report.top_typists@, full_t));
        assert(exists|full2: Seq<(Seq<char>, int)>| typists_ranked_from(
            reps as int,
            pool@,
            tables,
            report.top_typists@,
            full2,
        ));

        assert(report_from(
            corpus@,
            alphabet@,
            *dict,
            names@,
            reps as int,
            letters_to_type as int,
            min_len as int,
            max_len as int,
            pool@,
            tables,
            bigrams,
            trigrams,
            report,
        ));
        assert(exists|pool2: Seq<String>, tables2: Seq<CountTable>, bg: CountTable, tg:
            CountTable| #[trigger] report_from(
            corpus@,
            alphabet@,
            *dict,
            names@,
            reps as int,
            letters_to_type as int,
            min_len as int,
            max_len as int,
            pool2,
            tables2,
            bg,
            tg,
            report,
        ));
        assert(report_ok(report));
        assert(report.top_typists@.len() == if 5 * reps < 10 {
            5 * (reps as int)
        } else {
            10int
        });
    }
    Ok(report)
}

} // verus!
