//! The stages of the analysis of one result, between which the numbers are
//! computed.
use vstd::prelude::*;

use super::columns::{strata_of, term_strata};
use super::pooling::{
    error_df_with_pooled, is_significant, named_pool, pool_named, pool_smallest, pooled_by_size,
    pooled_df, significant,
};
use crate::construct::types::{optional_unit, Design};
use crate::error::Error;
use crate::factor::{factor_views, Factor};
use crate::model::formula::{
    factor_names, main_effects_of, model_views, model_wf, result_model, Model, ModelView,
};
use crate::model::matrix::{
    cell_views, cells_wf, is_matrix, model_matrix, role_views, terms_fit, unit_wf, Cell,
    ModelMatrix,
};
use crate::text::views;

verus! {

/// The model of a result: the one that the design names for it, otherwise all
/// main effects.
pub open spec fn analysis_model(
    models: Seq<ModelView>,
    result: Seq<char>,
    names: Seq<Seq<char>>,
) -> ModelView {
    match result_model(models, result) {
        Some(m) => m,
        None => main_effects_of(names),
    }
}

proof fn lemma_result_model(models: Seq<ModelView>, result: Seq<char>, n: nat)
    requires
        forall|i: int| 0 <= i < models.len() ==> model_wf(#[trigger] models[i], n),
    ensures
        result_model(models, result) matches Some(m) ==> model_wf(m, n),
{
    lemma_first_named(models, result, 0, n);
    lemma_first_general(models, 0, n);
}

proof fn lemma_first_named(models: Seq<ModelView>, result: Seq<char>, i: nat, n: nat)
    requires
        forall|i: int| 0 <= i < models.len() ==> model_wf(#[trigger] models[i], n),
    ensures
        crate::model::formula::first_named(models, result, i) matches Some(m) ==> model_wf(m, n),
    decreases models.len() - i,
{
    if i < models.len() && models[i as int].response != Some(result) {
        lemma_first_named(models, result, i + 1, n);
    }
}

proof fn lemma_first_general(models: Seq<ModelView>, i: nat, n: nat)
    requires
        forall|i: int| 0 <= i < models.len() ==> model_wf(#[trigger] models[i], n),
    ensures
        crate::model::formula::first_general(models, i) matches Some(m) ==> model_wf(m, n),
    decreases models.len() - i,
{
    if i < models.len() && models[i as int].response is Some {
        lemma_first_general(models, i + 1, n);
    }
}

/// The model of a result.
pub fn model_of_result(models: &[Model], result: &str, factors: &[Factor]) -> (m: Model)
    requires
        forall|i: int|
            0 <= i < models@.len() ==> model_wf(#[trigger] model_views(models@)[i], factors@.len()),
    ensures
        m@ == analysis_model(
            model_views(models@),
            result@,
            factor_names(factor_views(factors@)),
        ),
        model_wf(m@, factors@.len()),
{
    proof {
        lemma_result_model(model_views(models@), result@, factors@.len());
    }
    match Model::for_result(models, result) {
        Some(m) => m.copy(),
        None => Model::main_effects(factors),
    }
}

/// The model of a result with its coded matrices: with blocks and, where the
/// design has a unit, with units too. `strata` gives the error stratum of each
/// term.
#[derive(Debug)]
pub struct ResultPlan {
    pub mm: ModelMatrix,
    pub with_units: Option<ModelMatrix>,
    pub strata: Vec<usize>,
}

/// Codes the observed cells of a result under its model.
pub fn plan_result(design: &Design, model: &Model, cells: &Vec<Cell>) -> (p: ResultPlan)
    requires
        model_wf(model@, design.factors@.len()),
        terms_fit(model@.terms, factor_views(design.factors@)),
        forall|f: int|
            0 <= f < design.factors@.len() ==> (#[trigger] design.factors@[f]).values@.len() > 0,
        cells_wf(
            cell_views(cells@),
            factor_views(design.factors@),
            role_views(design.replicates@),
        ),
        optional_unit(design.unit) matches Some(u) ==> unit_wf(
            u,
            factor_views(design.factors@),
            role_views(design.replicates@),
        ),
    ensures
        is_matrix(
            p.mm,
            factor_views(design.factors@),
            role_views(design.replicates@),
            model@.terms,
            cell_views(cells@),
            None,
        ),
        p.with_units is Some <==> design.unit is Some,
        p.with_units matches Some(mm) ==> is_matrix(
            mm,
            factor_views(design.factors@),
            role_views(design.replicates@),
            model@.terms,
            cell_views(cells@),
            optional_unit(design.unit),
        ),
        p.strata@ == strata_of(
            model@.terms,
            optional_unit(design.unit),
            factor_views(design.factors@),
        ),
{
    let mm: ModelMatrix = model_matrix(&design.factors, &design.replicates, model, cells, None);
    let with_units: Option<ModelMatrix> = match &design.unit {
        Some(u) => Some(
            model_matrix(&design.factors, &design.replicates, model, cells, Some(u)),
        ),
        None => None,
    };
    let strata: Vec<usize> = term_strata(&design.unit, &design.factors, model);
    ResultPlan { mm, with_units, strata }
}

// ===== Pooling =====

/// The terms that are pooled: those that are named and, on request, the smaller
/// half of each stratum without degrees of freedom.
pub open spec fn pooled_terms(
    terms: Seq<Seq<char>>,
    pool: Seq<Seq<char>>,
    result: Seq<char>,
    automatic: bool,
    strata: Seq<usize>,
    ss: Seq<u64>,
    error_df: Seq<usize>,
) -> Result<Seq<bool>, Seq<char>> {
    match named_pool(terms, pool, result, pool.len()) {
        Err(m) => Err(m),
        Ok(marks) => Ok(
            if automatic {
                Seq::new(
                    strata.len(),
                    |t: int| marks[t] || pooled_by_size(strata, ss, error_df, t),
                )
            } else {
                marks
            },
        ),
    }
}

/// The degrees of freedom of a stratum behind the pooling.
pub open spec fn widened(
    own: usize,
    marks: Seq<bool>,
    strata: Seq<usize>,
    df: Seq<usize>,
    s: usize,
) -> usize {
    let total = own + pooled_df(marks, strata, df, s, strata.len());
    if total <= usize::MAX {
        total as usize
    } else {
        usize::MAX
    }
}

/// Which terms are pooled, and what the error strata have then.
#[derive(Debug)]
pub struct Pooling {
    pub marks: Vec<bool>,
    pub error_df: Vec<usize>,
}

/// Pools terms into error: nothing is pooled that was not asked for.
pub fn settle_pooling(
    terms: &Vec<String>,
    pool: &Vec<String>,
    result: &str,
    automatic: bool,
    strata: &Vec<usize>,
    ss: &Vec<u64>,
    df: &Vec<usize>,
    error_df: &Vec<usize>,
) -> (r: Result<Pooling, Error>)
    requires
        strata@.len() == terms@.len(),
        ss@.len() == terms@.len(),
        df@.len() == terms@.len(),
    ensures
        match r {
            Ok(p) => pooled_terms(
                views(terms@),
                views(pool@),
                result@,
                automatic,
                strata@,
                ss@,
                error_df@,
            ) == Ok::<Seq<bool>, Seq<char>>(p.marks@) && p.marks@.len() == terms@.len()
                && p.error_df@ == Seq::new(
                error_df@.len(),
                |s: int| widened(error_df@[s], p.marks@, strata@, df@, s as usize),
            ),
            Err(e) => pooled_terms(
                views(terms@),
                views(pool@),
                result@,
                automatic,
                strata@,
                ss@,
                error_df@,
            ) == Err::<Seq<bool>, Seq<char>>(e@),
        },
{
    assert(views(pool@).len() == pool@.len());
    match pool_named(terms, pool, result) {
        Err(e) => Err(e),
        Ok(named) => {
            let marks: Vec<bool> = if automatic {
                pool_smallest(named, strata, ss, error_df)
            } else {
                named
            };
            let mut out: Vec<usize> = Vec::new();
            let mut s: usize = 0;
            while s < error_df.len()
                invariant
                    s <= error_df@.len(),
                    marks@.len() == strata@.len(),
                    df@.len() == strata@.len(),
                    out@.len() == s,
                    forall|k: int|
                        0 <= k < s ==> #[trigger] out@[k] == widened(
                            error_df@[k],
                            marks@,
                            strata@,
                            df@,
                            k as usize,
                        ),
                decreases error_df@.len() - s,
            {
                out.push(error_df_with_pooled(error_df[s], &marks, strata, df, s));
                s = s + 1;
            }
            assert(out@ =~= Seq::new(
                error_df@.len(),
                |s: int| widened(error_df@[s], marks@, strata@, df@, s as usize),
            ));
            Ok(Pooling { marks, error_df: out })
        },
    }
}

/// Without a request to pool, every term is tested as it stands.
pub proof fn pooling_is_opt_in(
    terms: Seq<Seq<char>>,
    result: Seq<char>,
    strata: Seq<usize>,
    ss: Seq<u64>,
    error_df: Seq<usize>,
)
    ensures
        pooled_terms(terms, Seq::empty(), result, false, strata, ss, error_df) == Ok::<
            Seq<bool>,
            Seq<char>,
        >(Seq::new(terms.len(), |i: int| false)),
{
}

/// Automatic pooling leaves strata with degrees of freedom alone.
pub proof fn automatic_pooling_needs_a_short_stratum(
    strata: Seq<usize>,
    ss: Seq<u64>,
    error_df: Seq<usize>,
    t: int,
)
    requires
        forall|s: int| 0 <= s < error_df.len() ==> #[trigger] error_df[s] > 0,
    ensures
        !pooled_by_size(strata, ss, error_df, t),
{
}

/// The verdicts on the terms.
pub fn judge_terms(
    marks: &Vec<bool>,
    p: &Vec<Option<u64>>,
    ranges: &Vec<u64>,
    alpha: u64,
    noise: Option<u64>,
) -> (out: Vec<bool>)
    requires
        p@.len() == marks@.len(),
        ranges@.len() == marks@.len(),
    ensures
        out@ == Seq::new(
            marks@.len(),
            |t: int| significant(marks@[t], p@[t], alpha, noise, ranges@[t]),
        ),
{
    let mut out: Vec<bool> = Vec::new();
    let mut t: usize = 0;
    while t < marks.len()
        invariant
            t <= marks@.len(),
            p@.len() == marks@.len(),
            ranges@.len() == marks@.len(),
            out@.len() == t,
            forall|k: int|
                0 <= k < t ==> #[trigger] out@[k] == significant(
                    marks@[k],
                    p@[k],
                    alpha,
                    noise,
                    ranges@[k],
                ),
        decreases marks@.len() - t,
    {
        out.push(is_significant(marks[t], p[t], alpha, noise, ranges[t]));
        t = t + 1;
    }
    assert(out@ =~= Seq::new(
        marks@.len(),
        |t: int| significant(marks@[t], p@[t], alpha, noise, ranges@[t]),
    ));
    out
}

} // verus!
