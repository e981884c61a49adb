//! What a planned design comes to.
use vstd::prelude::*;

use super::plan::{id_width, runs_of, unit_id, unit_ids_follow_keys};
use super::types::ParsedView;
use crate::factor::FactorView;
use crate::model::formula::factor_names;
use crate::model::laws::names_are_found_first;
use crate::model::matrix::{role_names, unit_key, unit_wf, CellView, RoleView, UnitView};
use crate::text::{decimal, digit_text, digits_value, lemma_padded_value, padded};

verus! {

proof fn lemma_longer(a: nat, b: nat)
    requires
        a <= b,
    ensures
        decimal(a).len() <= decimal(b).len(),
        1 <= decimal(a).len(),
    decreases b,
{
    if a >= 10 {
        lemma_longer(a / 10, b / 10);
    } else if b >= 10 {
        lemma_longer(0, b / 10);
    }
}

/// A run id is an `r` and the number of the cell, counted from one, in as many
/// digits as every other id of the plan has, four at least. The runs are numbered
/// in execution order, and a run names the row of the array that its cell stands
/// in.
pub proof fn runs_number_their_cells(
    p: ParsedView,
    cells: Seq<CellView>,
    base: nat,
    order: Seq<usize>,
    k: int,
)
    requires
        0 <= k < order.len(),
        order[k] < cells.len(),
        base > 0,
    ensures
        ({
            let run = runs_of(p, cells, base, order)[k];
            &&& runs_of(p, cells, base, order).len() == order.len()
            &&& run.order == k + 1
            &&& run.run_id.len() >= 5
            &&& run.run_id.len() > decimal(cells.len()).len()
            &&& run.run_id.len() == 5 || run.run_id.len() == 1 + decimal(cells.len()).len()
            &&& run.run_id[0] == 'r'
            &&& digit_text(run.run_id.drop_first())
            &&& digits_value(run.run_id.drop_first()) == order[k] + 1
            &&& run.design_row < base
            &&& exists|b: int| order[k] == #[trigger] (b * base) + run.design_row
        }),
{
    let n = (order[k] + 1) as nat;
    let w = id_width(cells.len());
    let run = runs_of(p, cells, base, order)[k];
    reveal_strlit("r");
    lemma_padded_value(n, w);
    lemma_longer(n, cells.len());
    assert(run.run_id.drop_first() =~= padded(n, w));
    let b = order[k] as int / base as int;
    vstd::arithmetic::div_mod::lemma_fundamental_div_mod(order[k] as int, base as int);
    vstd::arithmetic::div_mod::lemma_mod_bound(order[k] as int, base as int);
    vstd::arithmetic::mul::lemma_mul_is_commutative(base as int, b);
    assert(order[k] == (b * base) + run.design_row);
}

/// A run sets every factor and every role to the level of its cell.
pub proof fn runs_set_the_levels_of_their_cells(
    p: ParsedView,
    cells: Seq<CellView>,
    base: nat,
    order: Seq<usize>,
    k: int,
)
    requires
        0 <= k < order.len(),
        order[k] < cells.len(),
    ensures
        ({
            let run = runs_of(p, cells, base, order)[k];
            let cell = cells[order[k] as int];
            &&& run.factors.len() == p.factors.len()
            &&& forall|f: int|
                0 <= f < p.factors.len() ==> (#[trigger] run.factors[f]).name == p.factors[f].name
                    && run.factors[f].value == p.factors[f].values[cell.factors[f] as int]
            &&& run.replicates.len() == p.replicates.len()
            &&& forall|r: int|
                0 <= r < p.replicates.len() ==> (#[trigger] run.replicates[r]).name
                    == p.replicates[r].name && run.replicates[r].value
                    == p.replicates[r].levels[cell.roles[r] as int]
            &&& p.unit is None <==> run.unit is None
        }),
{
}

/// Two cells have the same unit exactly where they agree on every factor and every
/// role that the unit's key names.
pub proof fn units_share_the_levels_of_their_key(
    cells: Seq<CellView>,
    unit: UnitView,
    factors: Seq<FactorView>,
    roles: Seq<RoleView>,
    i: int,
    j: int,
)
    requires
        0 <= i < cells.len(),
        0 <= j < cells.len(),
        unit_wf(unit, factors, roles),
        forall|f: int, g: int|
            0 <= f < g < factors.len() ==> (#[trigger] factors[f]).name != (#[trigger] factors[g]).name,
        forall|r: int, q: int|
            0 <= r < q < roles.len() ==> (#[trigger] roles[r]).name != (#[trigger] roles[q]).name,
        forall|f: int, r: int|
            0 <= f < factors.len() && 0 <= r < roles.len() ==> (#[trigger] factors[f]).name != (
            #[trigger] roles[r]).name,
    ensures
        unit_id(cells, Some(unit), factors, roles, i) == unit_id(
            cells,
            Some(unit),
            factors,
            roles,
            j,
        ) <==> (forall|f: int|
            0 <= f < factors.len() && unit.key.contains((#[trigger] factors[f]).name)
                ==> cells[i].factors[f] == cells[j].factors[f]) && (forall|r: int|
            0 <= r < roles.len() && unit.key.contains((#[trigger] roles[r]).name)
                ==> cells[i].roles[r] == cells[j].roles[r]),
{
    unit_ids_follow_keys(cells, unit, factors, roles, i, j);
    let (a, b) = (
        unit_key(cells[i], unit, factors, roles),
        unit_key(cells[j], unit, factors, roles),
    );
    let (fnames, rnames) = (factor_names(factors), role_names(roles));
    assert forall|k: int| 0 <= k < unit.key.len() implies (exists|f: int|
        0 <= f < factors.len() && factors[f].name == #[trigger] unit.key[k] && #[trigger] cells[i].factors[f]
            == a[k] && cells[j].factors[f] == b[k]) || (exists|r: int|
        0 <= r < roles.len() && roles[r].name == unit.key[k] && #[trigger] cells[i].roles[r] == a[k]
            && cells[j].roles[r] == b[k]) by {
        let name = unit.key[k];
        names_are_found_first(fnames, name, 0);
        names_are_found_first(rnames, name, 0);
        match crate::model::formula::name_index(fnames, name, 0) {
            Some(f) => {
                assert(fnames[f as int] == factors[f as int].name);
                assert(cells[i].factors[f as int] == a[k]);
            },
            None => {
                let r = crate::model::formula::name_index(rnames, name, 0)->0;
                assert(rnames[r as int] == roles[r as int].name);
                assert(cells[i].roles[r as int] == a[k]);
            },
        }
    }
    if a == b {
        assert forall|f: int|
            0 <= f < factors.len() && unit.key.contains((#[trigger] factors[f]).name) implies cells[i].factors[f]
            == cells[j].factors[f] by {
            let k = choose|k: int| 0 <= k < unit.key.len() && unit.key[k] == factors[f].name;
            assert(a[k] == b[k]);
            assert(unit.key[k] == factors[f].name);
        }
        assert forall|r: int|
            0 <= r < roles.len() && unit.key.contains((#[trigger] roles[r]).name) implies cells[i].roles[r]
            == cells[j].roles[r] by {
            let k = choose|k: int| 0 <= k < unit.key.len() && unit.key[k] == roles[r].name;
            assert(a[k] == b[k]);
            assert(unit.key[k] == roles[r].name);
        }
    } else if (forall|f: int|
        0 <= f < factors.len() && unit.key.contains((#[trigger] factors[f]).name)
            ==> cells[i].factors[f] == cells[j].factors[f]) && (forall|r: int|
        0 <= r < roles.len() && unit.key.contains((#[trigger] roles[r]).name) ==> cells[i].roles[r]
            == cells[j].roles[r]) {
        assert forall|k: int| 0 <= k < unit.key.len() implies a[k] == b[k] by {
            assert(unit.key.contains(unit.key[k]));
        }
        assert(a =~= b);
    }
}

} // verus!
