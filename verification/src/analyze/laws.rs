//! What the decisions of an analysis come to.
use vstd::prelude::*;

use super::bootstrap::{draws, moved_cells, resamples};
use super::columns::{strata_of, taken_columns, takes, Part};
use super::grid::{
    place_shown, predicted_entry, recommended, walked, wants_highest, PeakView, Visit,
};
use super::groups::{grouped, rows_with, GroupView};
use super::pooling::{
    by_size, named_pool, pooled_by_size, pooled_df, shortage, shortages, significant, smallest_half,
    sorted_by_size, terms_in, test_of, Test,
};
use super::stages::{analysis_model, pooled_terms, widened};
use crate::factor::{value_text, FactorView};
use crate::float::{float_less, total_rank};
use crate::model::formula::{main_effects_of, name_index, ModelView};
use crate::model::matrix::{code_product, entry_of, CellView, Column, ColumnSource, RoleView, UnitView};
use crate::rng::{drawn, drawn_state};

verus! {

// ===== Strata =====

/// With a unit, a term is tested between units exactly where each of its factors,
/// at whatever place, is named in the key of the unit; otherwise within units.
/// Without a unit there is one stratum.
pub proof fn terms_fixed_by_the_key_are_whole_plot(
    terms: Seq<Seq<usize>>,
    unit: UnitView,
    factors: Seq<FactorView>,
    t: int,
)
    requires
        0 <= t < terms.len(),
    ensures
        strata_of(terms, Some(unit), factors).len() == terms.len(),
        strata_of(terms, None, factors)[t] == 0,
        strata_of(terms, Some(unit), factors)[t] <= 1,
        strata_of(terms, Some(unit), factors)[t] == 0 <==> forall|i: int|
            0 <= i < terms[t].len() ==> unit.key.contains(
                factors[#[trigger] terms[t][i] as int].name,
            ),
        forall|i: int|
            0 <= i < terms[t].len() && !unit.key.contains(
                factors[#[trigger] terms[t][i] as int].name,
            ) ==> strata_of(terms, Some(unit), factors)[t] == 1,
{
}

// ===== Fits =====

/// What each fit takes of a term: the reduced fit of a term takes another one
/// exactly where that lacks one of its factors; the fits between units take the
/// terms of the first stratum; the active fit takes what is not pooled.
pub proof fn fits_take_their_terms(
    term: usize,
    other: usize,
    terms: Seq<Seq<usize>>,
    strata: Seq<usize>,
    pooled: Seq<bool>,
)
    ensures
        takes(Part::Without { term }, ColumnSource::Term { term: other }, terms, strata, pooled)
            <==> exists|i: int|
            0 <= i < terms[term as int].len() && !terms[other as int].contains(
                #[trigger] terms[term as int][i],
            ),
        takes(Part::With { term }, ColumnSource::Term { term: other }, terms, strata, pooled)
            <==> other == term || takes(
            Part::Without { term },
            ColumnSource::Term { term: other },
            terms,
            strata,
            pooled,
        ),
        takes(Part::WholePlot, ColumnSource::Term { term: other }, terms, strata, pooled)
            <==> strata[other as int] == 0,
        takes(Part::WholePlotAndUnits, ColumnSource::Term { term: other }, terms, strata, pooled)
            <==> strata[other as int] == 0,
        takes(Part::Active, ColumnSource::Term { term: other }, terms, strata, pooled)
            <==> !pooled[other as int],
        !takes(Part::Intercept, ColumnSource::Term { term: other }, terms, strata, pooled),
        !takes(Part::NoTerms, ColumnSource::Term { term: other }, terms, strata, pooled),
{
}

/// What each fit takes of the other columns: every fit has the intercept, all but
/// the intercept alone have the blocks, and of those that end with units only one
/// leaves them out.
pub proof fn fits_take_their_blocks(
    term: usize,
    role: usize,
    terms: Seq<Seq<usize>>,
    strata: Seq<usize>,
    pooled: Seq<bool>,
    part: Part,
)
    ensures
        takes(part, ColumnSource::Intercept, terms, strata, pooled),
        takes(part, ColumnSource::Block { role }, terms, strata, pooled) <==> part
            != Part::Intercept,
        takes(part, ColumnSource::Unit, terms, strata, pooled) <==> part != Part::Intercept && part
            != Part::WholePlot,
{
}

/// A fit takes exactly the columns whose source it takes, in their order.
pub proof fn fits_take_whole_sources(
    part: Part,
    sources: Seq<ColumnSource>,
    terms: Seq<Seq<usize>>,
    strata: Seq<usize>,
    pooled: Seq<bool>,
    n: nat,
)
    requires
        n <= sources.len() <= usize::MAX,
    ensures
        forall|c: int|
            0 <= c < n ==> (taken_columns(part, sources, terms, strata, pooled, n).contains(
                c as usize,
            ) <==> takes(part, #[trigger] sources[c], terms, strata, pooled)),
        forall|k: int|
            0 <= k < taken_columns(part, sources, terms, strata, pooled, n).len() ==> (
            #[trigger] taken_columns(part, sources, terms, strata, pooled, n)[k]) < n,
        forall|k: int, l: int|
            0 <= k < l < taken_columns(part, sources, terms, strata, pooled, n).len() ==> (
            #[trigger] taken_columns(part, sources, terms, strata, pooled, n)[k]) < (
            #[trigger] taken_columns(part, sources, terms, strata, pooled, n)[l]),
    decreases n,
{
    if n > 0 {
        fits_take_whole_sources(part, sources, terms, strata, pooled, (n - 1) as nat);
        let before = taken_columns(part, sources, terms, strata, pooled, (n - 1) as nat);
        let now = taken_columns(part, sources, terms, strata, pooled, n);
        assert forall|c: int| 0 <= c < n implies (now.contains(c as usize) <==> takes(
            part,
            #[trigger] sources[c],
            terms,
            strata,
            pooled,
        )) by {
            if c == n - 1 {
                if takes(part, sources[c], terms, strata, pooled) {
                    assert(now[now.len() - 1] == c as usize);
                } else if now.contains(c as usize) {
                    let k = choose|k: int| 0 <= k < now.len() && now[k] == c as usize;
                    assert(before[k] < n - 1);
                }
            } else {
                if before.contains(c as usize) {
                    let k = choose|k: int| 0 <= k < before.len() && before[k] == c as usize;
                    assert(now[k] == c as usize);
                }
                if now.contains(c as usize) {
                    let k = choose|k: int| 0 <= k < now.len() && now[k] == c as usize;
                    assert(k < before.len());
                    assert(before[k] == c as usize);
                }
            }
        }
    }
}

// ===== Pooling =====

proof fn lemma_pooled_df_update(
    marks: Seq<bool>,
    strata: Seq<usize>,
    df: Seq<usize>,
    s: usize,
    n: nat,
    t: int,
)
    requires
        n <= marks.len(),
        0 <= t < marks.len(),
        !marks[t],
    ensures
        pooled_df(marks.update(t, true), strata, df, s, n) == pooled_df(marks, strata, df, s, n)
            + if t < n && strata[t] == s {
            df[t] as int
        } else {
            0
        },
    decreases n,
{
    if n > 0 {
        lemma_pooled_df_update(marks, strata, df, s, (n - 1) as nat, t);
    }
}

proof fn lemma_pooled_df_none(marks: Seq<bool>, strata: Seq<usize>, df: Seq<usize>, s: usize, n: nat)
    requires
        forall|t: int| 0 <= t < n && strata[t] == s ==> !#[trigger] marks[t],
    ensures
        pooled_df(marks, strata, df, s, n) == 0,
    decreases n,
{
    if n > 0 {
        lemma_pooled_df_none(marks, strata, df, s, (n - 1) as nat);
        if marks[n - 1] {
            assert(strata[n - 1] != s);
        }
    }
}

/// Pooling one more term of a stratum raises the stratum's degrees of freedom by
/// exactly those of the term, and leaves the other strata alone. A stratum none of
/// whose terms is pooled keeps its own.
pub proof fn pooling_a_term_adds_its_df(
    own: usize,
    marks: Seq<bool>,
    strata: Seq<usize>,
    df: Seq<usize>,
    s: usize,
    t: int,
)
    requires
        marks.len() == strata.len(),
        0 <= t < marks.len(),
        !marks[t],
    ensures
        strata[t] == s && widened(own, marks, strata, df, s) + df[t] <= usize::MAX ==> widened(
            own,
            marks.update(t, true),
            strata,
            df,
            s,
        ) == widened(own, marks, strata, df, s) + df[t],
        strata[t] == s && widened(own, marks, strata, df, s) + df[t] > usize::MAX ==> widened(
            own,
            marks.update(t, true),
            strata,
            df,
            s,
        ) == usize::MAX,
        strata[t] != s ==> widened(own, marks.update(t, true), strata, df, s) == widened(
            own,
            marks,
            strata,
            df,
            s,
        ),
        strata[t] == s ==> pooled_df(marks.update(t, true), strata, df, s, strata.len())
            == pooled_df(marks, strata, df, s, strata.len()) + df[t],
        (forall|k: int| 0 <= k < marks.len() && strata[k] == s ==> !#[trigger] marks[k])
            ==> pooled_df(marks, strata, df, s, strata.len()) == 0 && widened(
            own,
            marks,
            strata,
            df,
            s,
        ) == own,
{
    lemma_pooled_df_update(marks, strata, df, s, strata.len(), t);
    if forall|k: int| 0 <= k < marks.len() && strata[k] == s ==> !#[trigger] marks[k] {
        lemma_pooled_df_none(marks, strata, df, s, strata.len());
    }
}

proof fn lemma_first_place(names: Seq<Seq<char>>, name: Seq<char>, i: nat)
    ensures
        match name_index(names, name, i) {
            Some(k) => i <= k < names.len() && names[k as int] == name && forall|j: int|
                i <= j < k ==> #[trigger] names[j] != name,
            None => forall|j: int| i <= j < names.len() ==> #[trigger] names[j] != name,
        },
    decreases names.len() - i,
{
    if i < names.len() && names[i as int] != name {
        lemma_first_place(names, name, i + 1);
    }
}

/// Naming terms pools exactly those: it fails where a name is no term, and
/// otherwise marks the first term of each name and no other.
pub proof fn named_terms_are_pooled(
    terms: Seq<Seq<char>>,
    pool: Seq<Seq<char>>,
    result: Seq<char>,
    n: nat,
)
    requires
        n <= pool.len(),
    ensures
        named_pool(terms, pool, result, n) is Ok <==> forall|p: int|
            0 <= p < n ==> terms.contains(#[trigger] pool[p]),
        named_pool(terms, pool, result, n) matches Ok(marks) ==> marks.len() == terms.len()
            && forall|t: int|
            0 <= t < terms.len() ==> (#[trigger] marks[t] <==> pool.take(n as int).contains(terms[t])
                && forall|u: int| 0 <= u < t ==> #[trigger] terms[u] != terms[t]),
    decreases n,
{
    if n > 0 {
        let m = (n - 1) as nat;
        named_terms_are_pooled(terms, pool, result, m);
        let name = pool[n - 1];
        lemma_first_place(terms, name, 0);
        let (less, more) = (pool.take(m as int), pool.take(n as int));
        assert(more =~= less.push(name));
        match name_index(terms, name, 0) {
            None => {
                assert(!terms.contains(name));
            },
            Some(i) => {
                assert(terms.contains(terms[i as int]));
                if let Ok(before) = named_pool(terms, pool, result, m) {
                    let marks = before.update(i as int, true);
                    assert forall|t: int| 0 <= t < terms.len() implies (#[trigger] marks[t]
                        <==> more.contains(terms[t]) && forall|u: int|
                        0 <= u < t ==> #[trigger] terms[u] != terms[t]) by {
                        assert(before[t] <==> less.contains(terms[t]) && forall|u: int|
                            0 <= u < t ==> #[trigger] terms[u] != terms[t]);
                        if more.contains(terms[t]) && terms[t] != name {
                            let k = choose|k: int| 0 <= k < more.len() && more[k] == terms[t];
                            assert(less[k] == terms[t]);
                        }
                        if less.contains(terms[t]) {
                            let k = choose|k: int| 0 <= k < less.len() && less[k] == terms[t];
                            assert(more[k] == terms[t]);
                        }
                        if terms[t] == name {
                            assert(more[n - 1] == terms[t]);
                            if t > i {
                                assert(terms[i as int] == terms[t]);
                            }
                        }
                    }
                }
            },
        }
        assert((forall|p: int| 0 <= p < n ==> terms.contains(#[trigger] pool[p])) <==> (forall|p: int|
            0 <= p < m ==> terms.contains(#[trigger] pool[p])) && terms.contains(name));
    }
}

proof fn lemma_terms_in(strata: Seq<usize>, s: usize, n: nat)
    requires
        n <= strata.len() <= usize::MAX,
    ensures
        forall|t: int|
            0 <= t < n ==> (terms_in(strata, s, n).contains(t as usize) <==> #[trigger] strata[t]
                == s),
        forall|k: int| 0 <= k < terms_in(strata, s, n).len() ==> #[trigger] terms_in(strata, s, n)[k] < n,
        terms_in(strata, s, n).no_duplicates(),
    decreases n,
{
    if n > 0 {
        lemma_terms_in(strata, s, (n - 1) as nat);
        let before = terms_in(strata, s, (n - 1) as nat);
        let now = terms_in(strata, s, n);
        assert forall|t: int| 0 <= t < n implies (now.contains(t as usize) <==> #[trigger] strata[t]
            == s) by {
            if t == n - 1 {
                if strata[t] == s {
                    assert(now[now.len() - 1] == t as usize);
                } else if now.contains(t as usize) {
                    let k = choose|k: int| 0 <= k < now.len() && now[k] == t as usize;
                    assert(before[k] < n - 1);
                }
            } else {
                if before.contains(t as usize) {
                    let k = choose|k: int| 0 <= k < before.len() && before[k] == t as usize;
                    assert(now[k] == t as usize);
                }
                if now.contains(t as usize) {
                    let k = choose|k: int| 0 <= k < now.len() && now[k] == t as usize;
                    assert(before[k] == t as usize);
                }
            }
        }
    }
}

/// Automatic pooling takes, of a stratum without degrees of freedom, half of the
/// terms, rounded up, and the smallest: no term that stays has a smaller sum of
/// squares than one that goes.
pub proof fn automatic_pooling_takes_the_smaller_half(
    strata: Seq<usize>,
    ss: Seq<u64>,
    s: usize,
    pooled: int,
    kept: int,
)
    requires
        strata.len() <= usize::MAX,
        0 <= pooled < strata.len(),
        0 <= kept < strata.len(),
        strata[pooled] == s,
        strata[kept] == s,
        smallest_half(strata, ss, s).contains(pooled as usize),
        !smallest_half(strata, ss, s).contains(kept as usize),
    ensures
        total_rank(ss[pooled]) <= total_rank(ss[kept]),
        terms_in(strata, s, strata.len()).len() <= 2 * smallest_half(strata, ss, s).len(),
        2 * smallest_half(strata, ss, s).len() <= terms_in(strata, s, strata.len()).len() + 1,
{
    broadcast use vstd::seq_lib::group_to_multiset_ensures;

    let list = terms_in(strata, s, strata.len());
    let sorted = by_size(list, ss, list.len());
    lemma_terms_in(strata, s, strata.len());
    sorted_by_size(list, ss, list.len());
    assert(list.take(list.len() as int) =~= list);
    let h = smallest_half(strata, ss, s);
    let i = choose|i: int| 0 <= i < h.len() && h[i] == pooled as usize;
    assert(sorted[i] == pooled as usize);
    assert(list.contains(kept as usize));
    assert(sorted.to_multiset().count(kept as usize) > 0);
    assert(sorted.contains(kept as usize));
    let j = choose|j: int| 0 <= j < sorted.len() && sorted[j] == kept as usize;
    if j < h.len() {
        assert(h[j] == kept as usize);
    }
}

/// Which terms are pooled automatically: those in the smaller half of a stratum
/// without degrees of freedom, and no others.
pub proof fn automatic_pooling_goes_by_stratum(
    terms: Seq<Seq<char>>,
    pool: Seq<Seq<char>>,
    result: Seq<char>,
    strata: Seq<usize>,
    ss: Seq<u64>,
    error_df: Seq<usize>,
    t: int,
)
    requires
        strata.len() == terms.len() <= usize::MAX,
        error_df.len() <= usize::MAX,
        0 <= t < terms.len(),
        strata[t] < error_df.len(),
        named_pool(terms, pool, result, pool.len()) is Ok,
    ensures
        pooled_terms(terms, pool, result, true, strata, ss, error_df) matches Ok(marks) && (marks[t]
            <==> named_pool(terms, pool, result, pool.len())->Ok_0[t] || error_df[strata[t] as int] == 0
            && smallest_half(strata, ss, strata[t]).contains(t as usize)),
        pooled_terms(terms, pool, result, false, strata, ss, error_df) == named_pool(
            terms,
            pool,
            result,
            pool.len(),
        ),
{
    let s = strata[t];
    if error_df[s as int] == 0 && smallest_half(strata, ss, s).contains(t as usize) {
        assert(pooled_by_size(strata, ss, error_df, t));
    }
    if pooled_by_size(strata, ss, error_df, t) {
        let k = choose|k: int|
            0 <= k < error_df.len() && #[trigger] error_df[k] == 0 && smallest_half(
                strata,
                ss,
                k as usize,
            ).contains(t as usize);
        lemma_half_in_stratum(strata, ss, k as usize, t);
    }
}

proof fn lemma_half_in_stratum(strata: Seq<usize>, ss: Seq<u64>, s: usize, t: int)
    requires
        strata.len() <= usize::MAX,
        0 <= t < strata.len(),
        smallest_half(strata, ss, s).contains(t as usize),
    ensures
        strata[t] == s,
{
    broadcast use vstd::seq_lib::group_to_multiset_ensures;

    let list = terms_in(strata, s, strata.len());
    let sorted = by_size(list, ss, list.len());
    lemma_terms_in(strata, s, strata.len());
    sorted_by_size(list, ss, list.len());
    assert(list.take(list.len() as int) =~= list);
    let h = smallest_half(strata, ss, s);
    let i = choose|i: int| 0 <= i < h.len() && h[i] == t as usize;
    assert(sorted[i] == t as usize);
    assert(sorted.to_multiset().count(t as usize) > 0);
    assert(list.contains(t as usize));
}

// ===== Verdicts =====

/// A term is significant exactly where it is not pooled and, without tolerated
/// noise, it has a probability below the level; with it, where the range of its
/// effect is above the noise.
pub proof fn significance_goes_by_the_level(
    pooled: bool,
    p: Option<u64>,
    alpha: u64,
    sigma: u64,
    range: u64,
)
    ensures
        significant(pooled, p, alpha, None, range) <==> !pooled && p is Some && float_less(
            p->0,
            alpha,
        ),
        significant(pooled, p, alpha, Some(sigma), range) <==> !pooled && float_less(sigma, range),
{
}

/// A smaller probability is no less significant, nor is a larger effect.
pub proof fn significance_is_monotone(
    a: u64,
    b: u64,
    alpha: u64,
    sigma: u64,
    low: u64,
    high: u64,
)
    requires
        float_less(a, b),
        float_less(low, high),
    ensures
        significant(false, Some(b), alpha, None, low) ==> significant(
            false,
            Some(a),
            alpha,
            None,
            high,
        ),
        !significant(false, Some(alpha), alpha, None, low),
        significant(false, Some(b), alpha, Some(sigma), low) ==> significant(
            false,
            None,
            alpha,
            Some(sigma),
            high,
        ),
        !significant(false, Some(a), alpha, Some(sigma), sigma),
{
}

/// A term is tested by a ratio exactly where it is not pooled, it has a mean
/// square, and that of its stratum is positive.
pub proof fn tests_need_an_error(pooled: bool, mean_square: Option<u64>, error: Option<u64>)
    ensures
        test_of(pooled, mean_square, error) == Test::Ratio <==> !pooled && mean_square is Some && error
            is Some && float_less(0, error->0),
        test_of(pooled, mean_square, error) == Test::Infinite <==> !pooled && mean_square is Some
            && error is Some && !float_less(0, error->0) && float_less(0, mean_square->0),
{
}

/// A stratum is warned of exactly where it has no degrees of freedom left.
pub proof fn empty_strata_are_warned_of(names: Seq<Seq<char>>, df: Seq<usize>, n: nat)
    requires
        n <= names.len(),
        names.len() == df.len(),
    ensures
        (forall|s: int| 0 <= s < n ==> #[trigger] df[s] > 0) ==> shortages(names, df, n).len() == 0,
        forall|s: int|
            0 <= s < n && #[trigger] df[s] == 0 ==> shortages(names, df, n).contains(
                shortage(names[s]),
            ),
        forall|k: int|
            0 <= k < shortages(names, df, n).len() ==> exists|s: int|
                0 <= s < n && df[s] == 0 && #[trigger] shortages(names, df, n)[k] == shortage(
                    #[trigger] names[s],
                ),
        shortages(names, df, n).len() <= n,
    decreases n,
{
    if n > 0 {
        empty_strata_are_warned_of(names, df, (n - 1) as nat);
        let before = shortages(names, df, (n - 1) as nat);
        let now = shortages(names, df, n);
        assert forall|s: int| 0 <= s < n && #[trigger] df[s] == 0 implies now.contains(
            shortage(names[s]),
        ) by {
            if s == n - 1 {
                assert(now[now.len() - 1] == shortage(names[s]));
            } else {
                let k = choose|k: int| 0 <= k < before.len() && before[k] == shortage(names[s]);
                assert(now[k] == shortage(names[s]));
            }
        }
        assert forall|k: int| 0 <= k < now.len() implies exists|s: int|
            0 <= s < n && df[s] == 0 && #[trigger] now[k] == shortage(#[trigger] names[s]) by {
            if k < before.len() {
                let s = choose|s: int|
                    0 <= s < n - 1 && df[s] == 0 && before[k] == shortage(#[trigger] names[s]);
                assert(now[k] == shortage(names[s]));
            } else {
                assert(now[k] == shortage(names[n - 1]));
            }
        }
    }
}

/// The model of a result is the first that names it, else the first without a
/// response, else the one of all main effects.
pub proof fn results_have_their_models(
    models: Seq<ModelView>,
    result: Seq<char>,
    names: Seq<Seq<char>>,
    i: int,
)
    requires
        0 <= i < models.len(),
    ensures
        models[i].response == Some(result) && (forall|j: int|
            0 <= j < i ==> (#[trigger] models[j]).response != Some(result)) ==> analysis_model(
            models,
            result,
            names,
        ) == models[i],
        models[i].response is None && (forall|j: int|
            0 <= j < i ==> (#[trigger] models[j]).response is Some) && (forall|j: int|
            0 <= j < models.len() ==> (#[trigger] models[j]).response != Some(result))
            ==> analysis_model(models, result, names) == models[i],
        (forall|j: int|
            0 <= j < models.len() ==> (#[trigger] models[j]).response is Some && models[j].response
                != Some(result)) ==> analysis_model(models, result, names) == main_effects_of(names),
{
    lemma_first_named(models, result, 0);
    lemma_first_general(models, 0);
}

proof fn lemma_first_named(models: Seq<ModelView>, result: Seq<char>, i: nat)
    ensures
        match crate::model::formula::first_named(models, result, i) {
            Some(m) => exists|k: int|
                i <= k < models.len() && #[trigger] models[k] == m && m.response == Some(result)
                    && forall|j: int| i <= j < k ==> (#[trigger] models[j]).response != Some(result),
            None => forall|j: int|
                i <= j < models.len() ==> (#[trigger] models[j]).response != Some(result),
        },
    decreases models.len() - i,
{
    if i < models.len() && models[i as int].response != Some(result) {
        lemma_first_named(models, result, i + 1);
    } else if i < models.len() {
        assert(models[i as int].response == Some(result));
    }
}

proof fn lemma_first_general(models: Seq<ModelView>, i: nat)
    ensures
        match crate::model::formula::first_general(models, i) {
            Some(m) => exists|k: int|
                i <= k < models.len() && #[trigger] models[k] == m && m.response is None
                    && forall|j: int| i <= j < k ==> (#[trigger] models[j]).response is Some,
            None => forall|j: int| i <= j < models.len() ==> (#[trigger] models[j]).response is Some,
        },
    decreases models.len() - i,
{
    if i < models.len() && models[i as int].response is Some {
        lemma_first_general(models, i + 1);
    } else if i < models.len() {
        assert(models[i as int].response is None);
    }
}

// ===== Predictions =====

/// A cell is recommended exactly where there is evidence, the extreme is asked for
/// and one was found: it is the first exported cell that shows its values.
pub proof fn recommendations_need_evidence(
    evidence: bool,
    wanted: bool,
    peak: Option<PeakView>,
    kept: Seq<Seq<usize>>,
    factors: Seq<FactorView>,
)
    ensures
        !evidence || !wanted || peak is None ==> recommended(evidence, wanted, peak, kept, factors)
            is None,
        recommended(evidence, wanted, peak, kept, factors) matches Some(i) ==> i < kept.len()
            && forall|f: int|
            0 <= f < factors.len() ==> value_text(
                (#[trigger] factors[f]).values[kept[i as int][f] as int],
            ) == value_text(factors[f].values[peak->0.levels[f] as int]),
        evidence && wanted && peak is Some && kept.contains(peak->0.levels) ==> recommended(
            evidence,
            wanted,
            peak,
            kept,
            factors,
        ) is Some,
{
    if let Some(p) = peak {
        lemma_place_shown(kept, p.levels, factors, 0);
        if kept.contains(p.levels) && place_shown(kept, p.levels, factors, 0) is None {
            let k = choose|k: int| 0 <= k < kept.len() && kept[k] == p.levels;
            assert(super::grid::same_shown(kept[k], p.levels, factors));
        }
    }
}

proof fn lemma_place_shown(
    kept: Seq<Seq<usize>>,
    levels: Seq<usize>,
    factors: Seq<FactorView>,
    i: nat,
)
    ensures
        match place_shown(kept, levels, factors, i) {
            Some(k) => i <= k < kept.len() && super::grid::same_shown(kept[k as int], levels, factors),
            None => forall|k: int|
                i <= k < kept.len() ==> !super::grid::same_shown(#[trigger] kept[k], levels, factors),
        },
    decreases kept.len() - i,
{
    if i < kept.len() && !super::grid::same_shown(kept[i as int], levels, factors) {
        lemma_place_shown(kept, levels, factors, i + 1);
    }
}

/// The highest mean is left out only for a result that is to be minimized and not
/// to be maximized.
pub proof fn both_extremes_are_shown_unless_one_is_asked_for(
    name: Seq<char>,
    maximize: Seq<Seq<char>>,
    minimize: Seq<Seq<char>>,
)
    ensures
        wants_highest(name, maximize, minimize) || wants_highest(name, minimize, maximize),
        !wants_highest(name, maximize, minimize) <==> minimize.contains(name) && !maximize.contains(
            name,
        ),
{
}

/// Where the grid is too large, only measured cells are kept on the way.
pub proof fn large_grids_keep_measured_cells(visits: Seq<Visit>, n: nat, k: int)
    requires
        n <= visits.len(),
        0 <= k < walked(true, visits, n).kept.len(),
    ensures
        exists|i: int|
            0 <= i < n && visits[i].measured && #[trigger] visits[i].levels == walked(
                true,
                visits,
                n,
            ).kept[k],
    decreases n,
{
    lemma_walk_capped(true, visits, n);
    if n > 0 {
        lemma_walk_capped(true, visits, (n - 1) as nat);
        let before = walked(true, visits, (n - 1) as nat).kept;
        if k < before.len() {
            large_grids_keep_measured_cells(visits, (n - 1) as nat, k);
            let i = choose|i: int|
                0 <= i < n - 1 && visits[i].measured && #[trigger] visits[i].levels == before[k];
            assert(visits[i].levels == walked(true, visits, n).kept[k]);
        } else {
            assert(visits[n - 1].levels == walked(true, visits, n).kept[k]);
        }
    }
}

proof fn lemma_walk_capped(capped: bool, visits: Seq<Visit>, n: nat)
    ensures
        walked(capped, visits, n).capped == capped,
    decreases n,
{
    if n > 0 {
        lemma_walk_capped(capped, visits, (n - 1) as nat);
    }
}

/// A prediction does not depend on the blocks: their columns are zero, and the
/// other entries are those of any cell with the same levels of the factors.
pub proof fn predictions_leave_blocks_out(
    col: Column,
    cell: CellView,
    factors: Seq<FactorView>,
    roles: Seq<RoleView>,
    terms: Seq<Seq<usize>>,
)
    requires
        !(col is Unit),
    ensures
        col is Block ==> predicted_entry(col, cell.factors, factors, roles, terms) == 0,
        !(col is Block) ==> predicted_entry(col, cell.factors, factors, roles, terms) == entry_of(
            col,
            cell,
            factors,
            roles,
            terms,
            0,
            0,
        ),
{
    if let Column::Term { term, combo } = col {
        let plain = CellView {
            factors: cell.factors,
            roles: Seq::new(roles.len(), |i: int| 0usize),
        };
        lemma_code_product(plain, cell, terms[term], combo, factors, terms[term].len());
    }
}

proof fn lemma_code_product(
    a: CellView,
    b: CellView,
    t: Seq<usize>,
    combo: Seq<usize>,
    factors: Seq<FactorView>,
    n: nat,
)
    requires
        a.factors == b.factors,
    ensures
        code_product(a, t, combo, factors, n) == code_product(b, t, combo, factors, n),
    decreases n,
{
    if n > 0 {
        lemma_code_product(a, b, t, combo, factors, (n - 1) as nat);
    }
}

// ===== Groups and resamples =====

proof fn lemma_rows_with(keys: Seq<Seq<usize>>, key: Seq<usize>, n: nat)
    requires
        n <= keys.len() <= usize::MAX,
    ensures
        forall|i: int|
            0 <= i < n ==> (rows_with(keys, key, n).contains(i as usize) <==> #[trigger] keys[i]
                == key),
        forall|k: int|
            0 <= k < rows_with(keys, key, n).len() ==> #[trigger] rows_with(keys, key, n)[k] < n,
        forall|k: int, l: int|
            0 <= k < l < rows_with(keys, key, n).len() ==> (#[trigger] rows_with(keys, key, n)[k]) < (
            #[trigger] rows_with(keys, key, n)[l]),
    decreases n,
{
    if n > 0 {
        lemma_rows_with(keys, key, (n - 1) as nat);
        let before = rows_with(keys, key, (n - 1) as nat);
        let now = rows_with(keys, key, n);
        assert forall|i: int| 0 <= i < n implies (now.contains(i as usize) <==> #[trigger] keys[i]
            == key) by {
            if i == n - 1 {
                if keys[i] == key {
                    assert(now[now.len() - 1] == i as usize);
                } else if now.contains(i as usize) {
                    let k = choose|k: int| 0 <= k < now.len() && now[k] == i as usize;
                    assert(before[k] < n - 1);
                }
            } else {
                if before.contains(i as usize) {
                    let k = choose|k: int| 0 <= k < before.len() && before[k] == i as usize;
                    assert(now[k] == i as usize);
                }
                if now.contains(i as usize) {
                    let k = choose|k: int| 0 <= k < now.len() && now[k] == i as usize;
                    assert(before[k] == i as usize);
                }
            }
        }
    }
}

/// A group holds exactly the rows with its key, in their order, and every row is
/// in a group.
pub proof fn groups_hold_the_rows_of_their_key(
    groups: Seq<GroupView>,
    keys: Seq<Seq<usize>>,
    g: int,
    i: int,
)
    requires
        grouped(groups, keys, keys.len()),
        keys.len() <= usize::MAX,
        0 <= g < groups.len(),
        0 <= i < keys.len(),
    ensures
        groups[g].rows.contains(i as usize) <==> keys[i] == groups[g].key,
        groups[g].rows.len() > 0,
        forall|k: int, l: int|
            0 <= k < l < groups[g].rows.len() ==> groups[g].rows[k] < groups[g].rows[l],
        exists|h: int| 0 <= h < groups.len() && (#[trigger] groups[h]).rows.contains(i as usize),
{
    lemma_rows_with(keys, groups[g].key, keys.len());
    let j = choose|j: int| 0 <= j < keys.len() && keys[j] == groups[g].key;
    assert(groups[g].rows.contains(j as usize));
    assert(super::groups::has_key(groups, keys[i]));
    let h = choose|h: int| 0 <= h < groups.len() && (#[trigger] groups[h]).key == keys[i];
    lemma_rows_with(keys, groups[h].key, keys.len());
    assert(groups[h].rows.contains(i as usize));
}

/// As many resamples are taken as are asked for, a thousand where nothing is said,
/// and none without a role or without observations.
pub proof fn resamples_are_those_asked_for(requested: usize, groups: nat)
    ensures
        groups > 0 ==> resamples(Some(requested), true, groups) == requested,
        groups > 0 ==> resamples(None, true, groups) == 1000,
        resamples(Some(requested), false, groups) == 0,
        resamples(None, false, groups) == 0,
        resamples(Some(requested), true, 0) == 0,
{
}

/// Every draw is a number below `n`, made by the generator where the draw before
/// left it.
pub proof fn draws_follow_the_generator(state: u64, n: u64, k: nat, i: nat)
    requires
        0 < n <= usize::MAX,
        i < k,
    ensures
        draws(state, n, k).0.len() == k,
        draws(state, n, k).0[i as int] < n,
        draws(state, n, k).0[i as int] == drawn(draws(state, n, i).1, n),
        draws(state, n, i + 1).1 == drawn_state(draws(state, n, i).1, n),
        draws(state, n, 0).1 == state,
    decreases k,
{
    lemma_draws_len(state, n, k);
    lemma_draws_len(state, n, i);
    if i + 1 < k {
        lemma_draws_len(state, n, (k - 1) as nat);
        draws_follow_the_generator(state, n, (k - 1) as nat, i);
    }
}

proof fn lemma_draws_len(state: u64, n: u64, k: nat)
    ensures
        draws(state, n, k).0.len() == k,
    decreases k,
{
    if k > 0 {
        lemma_draws_len(state, n, (k - 1) as nat);
    }
}

/// A resampled cell keeps its levels of the factors and of the further roles; its
/// level of the first role is its block.
pub proof fn resampled_cells_change_their_block(
    cells: Seq<CellView>,
    rows: Seq<usize>,
    blocks: Seq<usize>,
    i: int,
    r: int,
)
    requires
        0 <= i < rows.len(),
        cells[rows[i] as int].roles.len() > 0,
        0 < r < cells[rows[i] as int].roles.len(),
    ensures
        moved_cells(cells, rows, blocks).len() == rows.len(),
        moved_cells(cells, rows, blocks)[i].factors == cells[rows[i] as int].factors,
        moved_cells(cells, rows, blocks)[i].roles[0] == blocks[i],
        moved_cells(cells, rows, blocks)[i].roles[r] == cells[rows[i] as int].roles[r],
        moved_cells(cells, rows, blocks)[i].roles.len() == cells[rows[i] as int].roles.len(),
{
}

/// A resampling is warned of exactly where some resamples are asked for without a
/// role, or with fewer than five groups.
pub proof fn poor_resamplings_are_warned_of(
    requested: Option<usize>,
    has_roles: bool,
    groups: nat,
)
    ensures
        super::bootstrap::resample_warning(requested, has_roles, groups) is Some <==> (if has_roles {
            requested != Some(0usize) && groups < 5
        } else {
            requested is Some && requested->0 > 0
        }),
        requested is Some && requested->0 > 0 && !has_roles
            ==> super::bootstrap::resample_warning(requested, has_roles, groups) == Some(
            "bootstrap requires a replicate role"@,
        ),
{
}

/// Blocks are tested by a ratio exactly where there is an error above zero, and
/// not at all without an error or a mean square.
pub proof fn block_tests_need_an_error(mean_square: Option<u64>, error: Option<u64>)
    ensures
        super::pooling::block_test_of(mean_square, error) is Ratio <==> mean_square is Some && error
            is Some && crate::float::float_less(0, error->0),
        super::pooling::block_test_of(mean_square, error) is Infinite <==> mean_square is Some && error
            is Some && (error->0 == 0 || error->0 == 0x8000_0000_0000_0000)
            && crate::float::float_less(0, mean_square->0),
{
}

/// The strata have the names of what they hold: units and runs within them, or the
/// residual where there are no units. A term names the stratum that it is tested
/// in.
pub proof fn strata_are_named(stratum: usize)
    requires
        stratum <= 1,
    ensures
        super::columns::strata_texts(false) == seq!["residual"@],
        super::columns::strata_texts(true) == seq!["between-unit"@, "within-unit"@],
        super::columns::stratum_text(false, stratum) == "residual"@,
        super::columns::stratum_text(true, 0) == "whole-plot"@,
        super::columns::stratum_text(true, 1) == "sub-plot"@,
        crate::report::is_stratum(
            super::columns::strata_texts(true)[stratum as int],
            super::columns::stratum_text(true, stratum),
        ),
        crate::report::is_stratum(
            super::columns::strata_texts(false)[0],
            super::columns::stratum_text(false, stratum),
        ),
{
}

} // verus!
