//! Which columns of the coded matrix each fit of the analysis takes.
use vstd::prelude::*;

use crate::construct::types::optional_unit;
use crate::factor::{factor_views, Factor, FactorView};
use crate::model::formula::{terms_wf, Model, Term};
use crate::model::matrix::{ColumnSource, ModelMatrix, Unit, UnitView};
use crate::text::views;
use super::observe::names_it;

verus! {

/// The key of a unit names every factor of a term.
pub open spec fn whole_plot(term: Seq<usize>, unit: UnitView, factors: Seq<FactorView>) -> bool {
    forall|i: int|
        0 <= i < term.len() ==> unit.key.contains(factors[#[trigger] term[i] as int].name)
}

/// The error stratum of a term. Without a unit there is one stratum; with a
/// unit, the terms that its key fixes are tested between units, the others
/// within.
pub open spec fn stratum_of(
    term: Seq<usize>,
    unit: Option<UnitView>,
    factors: Seq<FactorView>,
) -> usize {
    match unit {
        None => 0,
        Some(u) => if whole_plot(term, u, factors) {
            0
        } else {
            1
        },
    }
}

/// The error strata of the terms.
pub open spec fn strata_of(
    terms: Seq<Seq<usize>>,
    unit: Option<UnitView>,
    factors: Seq<FactorView>,
) -> Seq<usize> {
    terms.map_values(|t: Seq<usize>| stratum_of(t, unit, factors))
}

/// The error stratum of a term.
pub fn stratum_index(unit: &Option<Unit>, factors: &[Factor], model: &Model, term: usize) -> (s: usize)
    requires
        term < model.terms@.len(),
        terms_wf(model@.terms, factors@.len()),
    ensures
        s == stratum_of(
            model@.terms[term as int],
            optional_unit(*unit),
            factor_views(factors@),
        ),
{
    let ghost fv = factor_views(factors@);
    let t: &Term = &model.terms[term];
    assert(model@.terms[term as int] == t@);
    match unit {
        None => 0,
        Some(u) => {
            let mut i: usize = 0;
            while i < t.0.len()
                invariant
                    i <= t@.len(),
                    t@ == t.0@,
                    model@.terms[term as int] == t@,
                    optional_unit(*unit) == Some(u@),
                    fv == factor_views(factors@),
                    crate::model::formula::term_wf(t@, factors@.len()),
                    forall|k: int|
                        0 <= k < i ==> u@.key.contains(fv[#[trigger] t@[k] as int].name),
                decreases t@.len() - i,
            {
                let f: usize = t.0[i];
                assert(t@[i as int] == f);
                assert(fv[f as int].name == factors@[f as int].name@);
                if !names_it(&u.key, factors[f].name.as_str()) {
                    assert(!whole_plot(t@, u@, fv));
                    return 1;
                }
                i = i + 1;
            }
            0
        },
    }
}

/// The error strata of the terms of a model.
pub fn term_strata(unit: &Option<Unit>, factors: &[Factor], model: &Model) -> (out: Vec<usize>)
    requires
        terms_wf(model@.terms, factors@.len()),
    ensures
        out@ == strata_of(model@.terms, optional_unit(*unit), factor_views(factors@)),
{
    let mut out: Vec<usize> = Vec::new();
    let mut t: usize = 0;
    while t < model.terms.len()
        invariant
            t <= model.terms@.len(),
            terms_wf(model@.terms, factors@.len()),
            out@.len() == t,
            forall|k: int|
                0 <= k < t ==> #[trigger] out@[k] == stratum_of(
                    model@.terms[k],
                    optional_unit(*unit),
                    factor_views(factors@),
                ),
        decreases model.terms@.len() - t,
    {
        out.push(stratum_index(unit, factors, model, t));
        t = t + 1;
    }
    assert(out@ =~= strata_of(model@.terms, optional_unit(*unit), factor_views(factors@)));
    out
}

/// The stratum that an analysis of variance names for a term.
pub open spec fn stratum_text(has_unit: bool, stratum: usize) -> Seq<char> {
    if !has_unit {
        "residual"@
    } else if stratum == 0 {
        "whole-plot"@
    } else {
        "sub-plot"@
    }
}

/// The stratum that an analysis of variance names for a term.
pub fn stratum_label(has_unit: bool, stratum: usize) -> (s: String)
    ensures
        s@ == stratum_text(has_unit, stratum),
{
    if !has_unit {
        "residual".to_owned()
    } else if stratum == 0 {
        "whole-plot".to_owned()
    } else {
        "sub-plot".to_owned()
    }
}

/// The names of the error strata.
pub open spec fn strata_texts(has_unit: bool) -> Seq<Seq<char>> {
    if has_unit {
        seq!["between-unit"@, "within-unit"@]
    } else {
        seq!["residual"@]
    }
}

/// The names of the error strata.
pub fn strata_names(has_unit: bool) -> (out: Vec<String>)
    ensures
        views(out@) == strata_texts(has_unit),
{
    let mut out: Vec<String> = Vec::new();
    if has_unit {
        out.push("between-unit".to_owned());
        out.push("within-unit".to_owned());
    } else {
        out.push("residual".to_owned());
    }
    assert(views(out@) =~= strata_texts(has_unit));
    out
}

// ===== Columns =====

/// The columns that a fit takes.
#[derive(Debug, Clone, Copy, PartialEq, Eq, Structural)]
pub enum Part {
    /// All but a term and the terms that contain it.
    Without { term: usize },
    /// The same, with the term.
    With { term: usize },
    /// Blocks and the terms that are tested between units.
    WholePlot,
    /// The same, with the units.
    WholePlotAndUnits,
    /// All but the pooled terms.
    Active,
    Intercept,
    /// Intercept and blocks.
    NoTerms,
}

/// Every factor of `a` is one of `b`.
pub open spec fn within(a: Seq<usize>, b: Seq<usize>) -> bool {
    forall|i: int| 0 <= i < a.len() ==> b.contains(#[trigger] a[i])
}

/// A fit takes the columns of a source.
pub open spec fn takes(
    part: Part,
    source: ColumnSource,
    terms: Seq<Seq<usize>>,
    strata: Seq<usize>,
    pooled: Seq<bool>,
) -> bool {
    match part {
        Part::Without { term } => match source {
            ColumnSource::Term { term: other } => !within(terms[term as int], terms[other as int]),
            _ => true,
        },
        Part::With { term } => match source {
            ColumnSource::Term { term: other } => other == term || !within(
                terms[term as int],
                terms[other as int],
            ),
            _ => true,
        },
        Part::WholePlot => match source {
            ColumnSource::Term { term } => strata[term as int] == 0,
            ColumnSource::Unit => false,
            _ => true,
        },
        Part::WholePlotAndUnits => match source {
            ColumnSource::Term { term } => strata[term as int] == 0,
            _ => true,
        },
        Part::Active => match source {
            ColumnSource::Term { term } => !pooled[term as int],
            _ => true,
        },
        Part::Intercept => source == ColumnSource::Intercept,
        Part::NoTerms => !(source is Term),
    }
}

/// The reduced fit of a term holds neither the term nor a term that contains
/// it, and the other fit adds just that term.
pub proof fn type_two_adds_one_term(
    term: usize,
    source: ColumnSource,
    terms: Seq<Seq<usize>>,
    strata: Seq<usize>,
    pooled: Seq<bool>,
)
    ensures
        takes(Part::With { term }, source, terms, strata, pooled) <==> takes(
            Part::Without { term },
            source,
            terms,
            strata,
            pooled,
        ) || source == (ColumnSource::Term { term }),
        !takes(
            Part::Without { term },
            ColumnSource::Term { term },
            terms,
            strata,
            pooled,
        ),
        forall|other: usize|
            within(terms[term as int], #[trigger] terms[other as int]) ==> !takes(
                Part::Without { term },
                ColumnSource::Term { term: other },
                terms,
                strata,
                pooled,
            ),
{
    let t = terms[term as int];
    assert forall|i: int| 0 <= i < t.len() implies t.contains(#[trigger] t[i]) by {}
    assert(within(t, t));
}

fn is_within(a: &Vec<usize>, b: &Vec<usize>) -> (r: bool)
    ensures
        r == within(a@, b@),
{
    let mut i: usize = 0;
    while i < a.len()
        invariant
            i <= a@.len(),
            forall|k: int| 0 <= k < i ==> b@.contains(#[trigger] a@[k]),
        decreases a@.len() - i,
    {
        let mut j: usize = 0;
        let mut found: bool = false;
        while j < b.len() && !found
            invariant
                i < a@.len(),
                j <= b@.len(),
                found == b@.take(j as int).contains(a@[i as int]),
            decreases b@.len() - j,
        {
            let ghost before = b@.take(j as int);
            found = b[j] == a[i];
            proof {
                let now = b@.take(j + 1);
                assert(now =~= before.push(b@[j as int]));
                if found {
                    assert(now[j as int] == a@[i as int]);
                } else {
                    assert(forall|k: int| 0 <= k < now.len() ==> (#[trigger] now[k] == before[k]
                        || k == j));
                    assert(!now.contains(a@[i as int])) by {
                        if now.contains(a@[i as int]) {
                            let k = choose|k: int| 0 <= k < now.len() && now[k] == a@[i as int];
                            if k < j {
                                assert(before[k] == a@[i as int]);
                            }
                        }
                    }
                }
            }
            j = j + 1;
        }
        if !found {
            assert(b@.take(j as int) =~= b@);
            assert(!b@.contains(a@[i as int]));
            return false;
        }
        proof {
            let part = b@.take(j as int);
            let k = choose|k: int| 0 <= k < part.len() && part[k] == a@[i as int];
            assert(b@[k] == a@[i as int]);
        }
        i = i + 1;
    }
    true
}

/// The numbers speak of terms of the model.
pub open spec fn part_wf(
    part: Part,
    terms: nat,
    strata: Seq<usize>,
    pooled: Seq<bool>,
) -> bool {
    match part {
        Part::Without { term } => term < terms,
        Part::With { term } => term < terms,
        Part::WholePlot => strata.len() == terms,
        Part::WholePlotAndUnits => strata.len() == terms,
        Part::Active => pooled.len() == terms,
        _ => true,
    }
}

/// Whether a fit takes the columns of a source.
pub fn takes_column(
    part: Part,
    source: ColumnSource,
    model: &Model,
    strata: &Vec<usize>,
    pooled: &Vec<bool>,
) -> (r: bool)
    requires
        part_wf(part, model.terms@.len(), strata@, pooled@),
        source matches ColumnSource::Term { term } ==> term < model.terms@.len(),
    ensures
        r == takes(part, source, model@.terms, strata@, pooled@),
{
    let ghost tv = model@.terms;
    assert(forall|t: int| 0 <= t < tv.len() ==> #[trigger] tv[t] == model.terms@[t]@);
    match part {
        Part::Without { term } => match source {
            ColumnSource::Term { term: other } => !is_within(
                &model.terms[term].0,
                &model.terms[other].0,
            ),
            _ => true,
        },
        Part::With { term } => match source {
            ColumnSource::Term { term: other } => other == term || !is_within(
                &model.terms[term].0,
                &model.terms[other].0,
            ),
            _ => true,
        },
        Part::WholePlot => match source {
            ColumnSource::Term { term } => strata[term] == 0,
            ColumnSource::Unit => false,
            _ => true,
        },
        Part::WholePlotAndUnits => match source {
            ColumnSource::Term { term } => strata[term] == 0,
            _ => true,
        },
        Part::Active => match source {
            ColumnSource::Term { term } => !pooled[term],
            _ => true,
        },
        Part::Intercept => source == ColumnSource::Intercept,
        Part::NoTerms => match source {
            ColumnSource::Term { term: _ } => false,
            _ => true,
        },
    }
}

/// The numbers of the columns, among the first `n`, that a fit takes.
pub open spec fn taken_columns(
    part: Part,
    sources: Seq<ColumnSource>,
    terms: Seq<Seq<usize>>,
    strata: Seq<usize>,
    pooled: Seq<bool>,
    n: nat,
) -> Seq<usize>
    decreases n,
{
    if n == 0 {
        Seq::empty()
    } else {
        let before = taken_columns(part, sources, terms, strata, pooled, (n - 1) as nat);
        if takes(part, sources[n - 1], terms, strata, pooled) {
            before.push((n - 1) as usize)
        } else {
            before
        }
    }
}

/// The sources of the columns of a matrix.
pub open spec fn sources_of(mm: ModelMatrix) -> Seq<ColumnSource> {
    mm.columns@.map_values(|c: crate::model::matrix::ColumnInfo| c.source)
}

/// The columns of a matrix name terms of the model.
pub open spec fn sources_wf(mm: ModelMatrix, terms: nat) -> bool {
    forall|c: int|
        0 <= c < mm.columns@.len() ==> ((#[trigger] mm.columns@[c]).source matches ColumnSource::Term {
            term,
        } ==> term < terms)
}

/// The numbers of the columns that a fit takes.
pub fn columns_taken(
    mm: &ModelMatrix,
    part: Part,
    model: &Model,
    strata: &Vec<usize>,
    pooled: &Vec<bool>,
) -> (out: Vec<usize>)
    requires
        part_wf(part, model.terms@.len(), strata@, pooled@),
        sources_wf(*mm, model.terms@.len()),
    ensures
        out@ == taken_columns(
            part,
            sources_of(*mm),
            model@.terms,
            strata@,
            pooled@,
            mm.columns@.len(),
        ),
        forall|k: int| 0 <= k < out@.len() ==> #[trigger] out@[k] < mm.columns@.len(),
{
    let ghost (sv, tv) = (sources_of(*mm), model@.terms);
    let mut out: Vec<usize> = Vec::new();
    let mut c: usize = 0;
    while c < mm.columns.len()
        invariant
            c <= mm.columns@.len(),
            sv == sources_of(*mm),
            tv == model@.terms,
            part_wf(part, model.terms@.len(), strata@, pooled@),
            sources_wf(*mm, model.terms@.len()),
            out@ == taken_columns(part, sv, tv, strata@, pooled@, c as nat),
            forall|k: int| 0 <= k < out@.len() ==> #[trigger] out@[k] < mm.columns@.len(),
        decreases mm.columns@.len() - c,
    {
        assert(sv[c as int] == mm.columns@[c as int].source);
        if takes_column(part, mm.columns[c].source, model, strata, pooled) {
            out.push(c);
        }
        c = c + 1;
    }
    out
}

/// A row in some columns.
pub open spec fn row_in(row: Seq<i64>, columns: Seq<usize>) -> Seq<i64> {
    columns.map_values(|c: usize| row[c as int])
}

/// The rows of a matrix in some columns.
pub fn subset(mm: &ModelMatrix, columns: &Vec<usize>) -> (out: Vec<Vec<i64>>)
    requires
        forall|r: int|
            0 <= r < mm.data@.len() ==> super::groups::numbers_below(
                columns@,
                (#[trigger] mm.data@[r])@.len(),
            ),
    ensures
        out@.len() == mm.data@.len(),
        forall|r: int|
            0 <= r < out@.len() ==> (#[trigger] out@[r])@ == row_in(mm.data@[r]@, columns@),
{
    let mut out: Vec<Vec<i64>> = Vec::new();
    let mut r: usize = 0;
    while r < mm.data.len()
        invariant
            r <= mm.data@.len(),
            forall|r: int|
                0 <= r < mm.data@.len() ==> super::groups::numbers_below(
                    columns@,
                    (#[trigger] mm.data@[r])@.len(),
                ),
            out@.len() == r,
            forall|k: int|
                0 <= k < r ==> (#[trigger] out@[k])@ == row_in(mm.data@[k]@, columns@),
        decreases mm.data@.len() - r,
    {
        out.push(pick_columns(&mm.data[r], columns));
        r = r + 1;
    }
    out
}

fn pick_columns(row: &Vec<i64>, columns: &Vec<usize>) -> (out: Vec<i64>)
    requires
        super::groups::numbers_below(columns@, row@.len()),
    ensures
        out@ == row_in(row@, columns@),
{
    let mut out: Vec<i64> = Vec::new();
    let mut k: usize = 0;
    while k < columns.len()
        invariant
            k <= columns@.len(),
            super::groups::numbers_below(columns@, row@.len()),
            out@ =~= row_in(row@, columns@).take(k as int),
        decreases columns@.len() - k,
    {
        out.push(row[columns[k]]);
        k = k + 1;
    }
    assert(out@ =~= row_in(row@, columns@));
    out
}

/// The rank that columns add; fits of rounded numbers may disagree, and no rank
/// is added then.
pub fn rank_gain(with: usize, without: usize) -> (r: usize)
    ensures
        r == if with > without {
            with - without
        } else {
            0
        },
{
    if with > without {
        with - without
    } else {
        0
    }
}

} // verus!
