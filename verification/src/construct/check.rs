//! Whether a design that was read back can be worked on.
use vstd::prelude::*;

use super::types::{optional_unit, Design};
use crate::design_select::cells::{models_wf, role_dims, roles_fit};
use crate::factor::{factor_views, Factor, FactorView};
use crate::model::formula::{
    find_factor, is_term_less, lemma_term_less, model_views, model_wf, term_less, term_wf, Model,
};
use crate::model::matrix::{find_role, role_views, unit_wf, ReplicateRole, RoleView, Unit};
use crate::text::chars_of;

verus! {

/// Factors and roles have levels, the models speak of the factors, and the unit
/// of factors and roles.
pub open spec fn design_wf(d: Design) -> bool {
    &&& forall|f: int| 0 <= f < d.factors@.len() ==> (#[trigger] d.factors@[f]).values@.len() > 0
    &&& forall|r: int|
        0 <= r < d.replicates@.len() ==> (#[trigger] d.replicates@[r]).levels@.len() > 0
    &&& models_wf(model_views(d.models@), d.factors@.len())
    &&& optional_unit(d.unit) matches Some(u) ==> unit_wf(
        u,
        factor_views(d.factors@),
        role_views(d.replicates@),
    )
}

fn term_is_sound(t: &Vec<usize>, n: usize) -> (r: bool)
    ensures
        r == term_wf(t@, n as nat),
{
    if t.len() == 0 {
        return false;
    }
    let mut i: usize = 0;
    while i < t.len()
        invariant
            i <= t@.len(),
            forall|k: int| 0 <= k < i ==> #[trigger] t@[k] < n,
            forall|j: int, k: int| 0 <= j < k < i ==> #[trigger] t@[j] < #[trigger] t@[k],
        decreases t@.len() - i,
    {
        if t[i] >= n {
            assert(t@[i as int] >= n);
            return false;
        }
        if i > 0 && t[i - 1] >= t[i] {
            assert(t@[i - 1] >= t@[i as int]);
            return false;
        }
        assert(forall|j: int| 0 <= j < i ==> #[trigger] t@[j] <= t@[i - 1]);
        i = i + 1;
    }
    true
}

fn model_is_sound(m: &Model, n: usize) -> (r: bool)
    ensures
        r == model_wf(m@, n as nat),
{
    let ghost tv = m@.terms;
    let mut i: usize = 0;
    while i < m.terms.len()
        invariant
            i <= m.terms@.len(),
            tv == m@.terms,
            forall|k: int| 0 <= k < i ==> term_wf(#[trigger] tv[k], n as nat),
            forall|j: int, k: int|
                0 <= j < k < i ==> term_less(#[trigger] tv[j], #[trigger] tv[k]),
        decreases m.terms@.len() - i,
    {
        assert(tv[i as int] == m.terms@[i as int]@);
        if !term_is_sound(&m.terms[i].0, n) {
            assert(!term_wf(tv[i as int], n as nat));
            return false;
        }
        if i > 0 {
            assert(tv[i - 1] == m.terms@[i - 1]@);
            if !is_term_less(&m.terms[i - 1].0, &m.terms[i].0) {
                assert(!term_less(tv[i - 1], tv[i as int]));
                return false;
            }
            assert forall|j: int| 0 <= j < i implies term_less(#[trigger] tv[j], tv[i as int]) by {
                if j < i - 1 {
                    lemma_term_less(tv[j], tv[i - 1], tv[i as int]);
                }
            }
        }
        i = i + 1;
    }
    true
}

fn unit_is_sound(u: &Unit, factors: &[Factor], roles: &[ReplicateRole]) -> (r: bool)
    ensures
        r == unit_wf(u@, factor_views(factors@), role_views(roles@)),
{
    let ghost uv = u@;
    let ghost (fv, rv) = (factor_views(factors@), role_views(roles@));
    let mut i: usize = 0;
    while i < u.key.len()
        invariant
            i <= u.key@.len(),
            uv == u@,
            fv == factor_views(factors@),
            rv == role_views(roles@),
            forall|k: int| 0 <= k < i ==> known_name(#[trigger] uv.key[k], fv, rv),
        decreases u.key@.len() - i,
    {
        assert(uv.key[i as int] == u.key@[i as int]@);
        let name: Vec<char> = chars_of(u.key[i].as_str());
        if find_factor(factors, &name).is_none() && find_role(roles, &name).is_none() {
            assert(!known_name(uv.key[i as int], fv, rv));
            assert(!unit_wf(uv, fv, rv));
            return false;
        }
        assert(known_name(uv.key[i as int], fv, rv));
        i = i + 1;
    }
    assert(uv.key.len() == u.key@.len());
    assert forall|k: int| 0 <= k < uv.key.len() implies crate::model::formula::name_index(
        crate::model::formula::factor_names(fv),
        #[trigger] uv.key[k],
        0,
    ) is Some || crate::model::formula::name_index(
        crate::model::matrix::role_names(rv),
        uv.key[k],
        0,
    ) is Some by {
        assert(known_name(uv.key[k], fv, rv));
    }
    true
}

/// A name of a factor or of a role.
pub open spec fn known_name(name: Seq<char>, factors: Seq<FactorView>, roles: Seq<RoleView>) -> bool {
    crate::model::formula::name_index(
        crate::model::formula::factor_names(factors),
        name,
        0,
    ) is Some || crate::model::formula::name_index(
        crate::model::matrix::role_names(roles),
        name,
        0,
    ) is Some
}

/// Whether a design can be worked on.
pub fn is_sound(d: &Design) -> (r: bool)
    ensures
        r == design_wf(*d),
{
    let n: usize = d.factors.len();
    let mut f: usize = 0;
    while f < n
        invariant
            f <= n,
            n == d.factors@.len(),
            forall|k: int| 0 <= k < f ==> (#[trigger] d.factors@[k]).values@.len() > 0,
        decreases n - f,
    {
        if d.factors[f].values.len() == 0 {
            return false;
        }
        f = f + 1;
    }
    let mut r: usize = 0;
    while r < d.replicates.len()
        invariant
            r <= d.replicates@.len(),
            forall|k: int| 0 <= k < r ==> (#[trigger] d.replicates@[k]).levels@.len() > 0,
        decreases d.replicates@.len() - r,
    {
        if d.replicates[r].levels.len() == 0 {
            return false;
        }
        r = r + 1;
    }
    let ghost mv = model_views(d.models@);
    let mut m: usize = 0;
    while m < d.models.len()
        invariant
            m <= d.models@.len(),
            n == d.factors@.len(),
            mv == model_views(d.models@),
            forall|k: int| 0 <= k < m ==> model_wf(#[trigger] mv[k], n as nat),
        decreases d.models@.len() - m,
    {
        assert(mv[m as int] == d.models@[m as int]@);
        if !model_is_sound(&d.models[m], n) {
            assert(!models_wf(mv, n as nat));
            return false;
        }
        m = m + 1;
    }
    match &d.unit {
        Some(u) => unit_is_sound(u, &d.factors, &d.replicates),
        None => true,
    }
}

/// Whether the combinations of replicate levels fit the machine.
pub fn roles_in_range(roles: &[ReplicateRole]) -> (r: bool)
    ensures
        r == roles_fit(role_views(roles@)),
{
    let ghost rv = role_views(roles@);
    let mut dims: Vec<usize> = Vec::new();
    let mut i: usize = 0;
    while i < roles.len()
        invariant
            i <= roles@.len(),
            rv == role_views(roles@),
            dims@ =~= role_dims(rv).take(i as int),
        decreases roles@.len() - i,
    {
        assert(rv[i as int] == roles@[i as int]@);
        dims.push(roles[i].levels.len());
        i = i + 1;
    }
    assert(dims@ =~= role_dims(rv));
    match crate::tuples::count_tuples(&dims) {
        Some(_) => true,
        None => {
            proof {
                let k = choose|k: int|
                    0 <= k <= dims@.len() && crate::tuples::tuple_count(
                        #[trigger] dims@.take(k),
                    ) > usize::MAX;
                assert(crate::tuples::tuple_count(role_dims(rv).take(k)) > usize::MAX);
            }
            false
        },
    }
}

} // verus!
