//! Whether a request can be worked on, before it is.
use vstd::prelude::*;

use super::cells::{df_sum, models_wf, term_df, union_model};
use super::search::{listable, request_of, SelectOpts};
use crate::factor::{factor_views, Factor};
use crate::model::formula::{model_views, term_wf, Model};
use crate::model::matrix::{terms_fit, ReplicateRole};
use crate::oa::bush::uniform;
use crate::oa::kronecker::{has_depths, in_reach, is_uniform, rows_needed};
use crate::oa::lookup::{entries, find, CatalogEntry};
use crate::oa::{
    all_methods_spec, buildable, counts, declined, gives, level_counts_of, ready, too_few, Method,
    Selected,
};

verus! {

fn all_in_reach(levels: &Vec<usize>) -> (r: bool)
    ensures
        r == in_reach(levels@),
{
    let mut i: usize = 0;
    while i < levels.len()
        invariant
            i <= levels@.len(),
            forall|k: int| 0 <= k < i ==> #[trigger] levels@[k] <= 49,
        decreases levels@.len() - i,
    {
        if levels[i] > 49 {
            return false;
        }
        i = i + 1;
    }
    true
}

fn any_too_few(levels: &Vec<usize>) -> (r: bool)
    ensures
        r == too_few(levels@),
{
    let mut i: usize = 0;
    while i < levels.len()
        invariant
            i <= levels@.len(),
            forall|k: int| 0 <= k < i ==> #[trigger] levels@[k] >= 2,
        decreases levels@.len() - i,
    {
        if levels[i] < 2 {
            assert(levels@[i as int] < 2);
            return true;
        }
        i = i + 1;
    }
    false
}

/// Whether an array can be built for the factors, or found that there is none:
/// they are refused at once, the catalog serves them, or the fields that the
/// constructions need exist.
pub fn can_build(factors: &[Factor], catalog: &[CatalogEntry]) -> (r: bool)
    requires
        forall|i: int| 0 <= i < catalog@.len() ==> (#[trigger] catalog@[i]).wf(),
    ensures
        r == buildable(all_methods_spec(), entries(catalog@), counts(factors@)),
{
    let levels: Vec<usize> = level_counts_of(factors);
    let ghost (m, c, l) = (all_methods_spec(), entries(catalog@), levels@);
    if levels.len() == 0 || any_too_few(&levels) {
        return true;
    }
    if find(catalog, &levels).is_some() {
        assert forall|i: int| 0 <= i < m.len() && declined(m, c, l, i) implies ready(
            #[trigger] m[i],
            l,
        ) by {
            if i > 0 {
                assert(gives(m[0], c, l, None));
            }
        }
        return true;
    }
    let fits: bool = levels.len() <= usize::MAX / 2401;
    let r: bool = if is_uniform(&levels) {
        fits && levels[0] <= 49
    } else {
        fits && (!has_depths(&levels) || all_in_reach(&levels) && rows_needed(&levels).is_some())
    };
    proof {
        assert(gives(m[0], c, l, None));
        assert(declined(m, c, l, 1));
        assert(m[1] == Method::Bush && m[2] == Method::Kronecker);
        if uniform(l) {
            assert(r == ready(m[1], l));
        } else {
            assert(gives(m[1], c, l, None));
            assert(declined(m, c, l, 2));
            assert(r == ready(m[2], l));
        }
    }
    r
}

/// Whether candidates can be listed for a request.
pub fn can_list(
    base: &Selected,
    factors: &[Factor],
    models: &[Model],
    roles: &[ReplicateRole],
    opts: &SelectOpts,
    catalog: &[CatalogEntry],
) -> (r: bool)
    requires
        models_wf(model_views(models@), factors@.len()),
        forall|f: int| 0 <= f < factors@.len() ==> (#[trigger] factors@[f]).values@.len() > 0,
        terms_fit(
            request_of(factors@, models@, roles@, *opts, catalog@, base@).model.terms,
            factor_views(factors@),
        ),
    ensures
        r == listable(request_of(factors@, models@, roles@, *opts, catalog@, base@)),
{
    let levels: Vec<usize> = level_counts_of(factors);
    let model: Model = union_model(models, factors);
    let ghost fv = factor_views(factors@);
    let ghost terms = model@.terms;
    if levels.len() > 0 && is_uniform(&levels) && (levels[0] > 49 || levels.len() > usize::MAX
        / 2401) {
        return false;
    }
    if opts.min_residual_df == usize::MAX {
        return false;
    }
    let mut n: usize = opts.min_residual_df + 1;
    let mut t: usize = 0;
    while t < model.terms.len()
        invariant
            t <= model.terms@.len(),
            terms == model@.terms,
            terms.len() == model.terms@.len(),
            fv == factor_views(factors@),
            terms == request_of(factors@, models@, roles@, *opts, catalog@, base@).model.terms,
            terms_fit(terms, fv),
            forall|i: int| 0 <= i < terms.len() ==> term_wf(#[trigger] terms[i], factors@.len()),
            forall|f: int| 0 <= f < factors@.len() ==> (#[trigger] factors@[f]).values@.len() > 0,
            n == 1 + df_sum(terms, fv, t as nat) + opts.min_residual_df,
        decreases model.terms@.len() - t,
    {
        assert(terms[t as int] == model.terms@[t as int]@);
        assert(term_wf(terms[t as int], factors@.len()));
        let df: usize = term_df(&model.terms[t], factors);
        match n.checked_add(df) {
            None => {
                proof {
                    super::search::lemma_df_sum(terms, fv, (t + 1) as nat, terms.len());
                }
                return false;
            },
            Some(m) => {
                n = m;
            },
        }
        t = t + 1;
    }
    true
}

} // verus!
