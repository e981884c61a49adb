//! What an augmentation builds on and aims at.
use vstd::prelude::*;

use super::candidates::{combinations, draws, drawn_tuple, within};
use super::greedy::{aimed_columns, best_is_first_of_the_best, better, walked, Aim, Gain};
use super::ids::{
    first_foreign, id_for, id_of, ids_in_use, key_for, key_place, known_unit, known_units,
    lemma_id_of_padded, next_number, numbers_in, orders_in_use, plan_of, top_number, top_of,
    top_order, top_width, with_key, with_keys, IdView, UnitsView,
};
use super::output::{augmented_runs, new_record, next_experiment_of, place_of};
use super::session::{opening_for, written_records};

use super::table::{
    base_of, columns_of, level_shown, row_cell_of, shows, table_of, Layout, TableView,
};
use super::targets::{
    aims, all_labels, declared_labels, labelled_terms, open_terms, target_of, term_with_label,
    undeclared, with_labels,
};
use crate::construct::types::RunView;
use crate::error::Error;
use crate::factor::{value_text, FactorView, ValueView};
use crate::float::{float_less, not_a_number};
use crate::model::estimability::{verdict, ColumnView, EstimabilityView, RankReport};
use crate::model::formula::{factor_names, model_of, name_index, term_label, ModelView};
use crate::model::laws::names_are_found_first;
use crate::model::matrix::{role_names, CellView, ModelMatrix, RoleView, UnitView};
use crate::rng::drawn;
use crate::text::{decimal, padded, trimmed};
use crate::tuples::{lemma_distinct, lemma_tuple_at, lemma_tuple_index, tuple_count, tuple_index, tuples};

verus! {

// ===== The base =====

/// Some result of the row is not in: its cell is missing or blank.
pub open spec fn lacks_a_result(t: TableView, row: int) -> bool {
    exists|k: int|
        0 <= k < t.result_col.len() && !(#[trigger] t.result_col[k] < t.rows[row].len() && trimmed(
            t.rows[row][t.result_col[k] as int],
        ).len() > 0)
}

proof fn lemma_complete(t: TableView, row: int)
    ensures
        lacks_a_result(t, row) <==> !super::table::complete(t, row),
{
    if !super::table::complete(t, row) {
        let k = choose|k: int|
            0 <= k < t.result_col.len() && super::table::cell_text(
                t.rows[row],
                #[trigger] t.result_col[k] as int,
            ).len() == 0;
        assert(t.result_col[k] == t.result_col[k]);
    }
}

/// The base is made of the rows whose results are all in, in their order, or of
/// all rows where pending ones are asked for. The rows that lack a result are
/// counted as pending either way.
pub proof fn the_base_holds_completed_rows(
    t: TableView,
    l: Layout,
    near: Seq<Seq<Seq<bool>>>,
    include_pending: bool,
    n: nat,
) -> (kept: Seq<int>)
    requires
        n <= t.rows.len(),
        base_of(t, l, near, include_pending, n) is Ok,
    ensures
        ({
            let (cells, pending) = base_of(t, l, near, include_pending, n)->Ok_0;
            let lacking = Set::new(|r: int| 0 <= r < n && lacks_a_result(t, r));
            &&& lacking.finite()
            &&& pending == lacking.len()
            &&& cells.len() == kept.len()
            &&& include_pending ==> kept.len() == n
            &&& !include_pending ==> kept.len() + pending == n
            &&& forall|i: int, j: int| 0 <= i < j < kept.len() ==> #[trigger] kept[i] < #[trigger] kept[j]
            &&& forall|i: int| 0 <= i < kept.len() ==> 0 <= #[trigger] kept[i] < n
            &&& forall|r: int|
                0 <= r < n ==> (#[trigger] kept.contains(r) <==> include_pending || !lacks_a_result(t, r))
            &&& forall|i: int|
                0 <= i < kept.len() ==> row_cell_of(t, l, near, #[trigger] kept[i]) == Ok::<
                    CellView,
                    Seq<char>,
                >(cells[i])
        }),
    decreases n,
{
    let lacking = Set::new(|r: int| 0 <= r < n && lacks_a_result(t, r));
    if n == 0 {
        assert(lacking =~= Set::empty());
        Seq::empty()
    } else {
        let m = (n - 1) as nat;
        let before = the_base_holds_completed_rows(t, l, near, include_pending, m);
        let less = Set::new(|r: int| 0 <= r < m && lacks_a_result(t, r));
        lemma_complete(t, n - 1);
        if lacks_a_result(t, n - 1) {
            assert(lacking =~= less.insert(n - 1));
        } else {
            assert(lacking =~= less);
        }
        if include_pending || !lacks_a_result(t, n - 1) {
            let kept = before.push(n - 1);
            assert forall|r: int| 0 <= r < n implies (#[trigger] kept.contains(r) <==> include_pending
                || !lacks_a_result(t, r)) by {
                if r == n - 1 {
                    assert(kept[before.len() as int] == r);
                } else {
                    if before.contains(r) {
                        let k = choose|k: int| 0 <= k < before.len() && before[k] == r;
                        assert(kept[k] == r);
                    }
                    if kept.contains(r) {
                        let k = choose|k: int| 0 <= k < kept.len() && kept[k] == r;
                        assert(before[k] == r);
                        assert(before.contains(r));
                    }
                }
            }
            kept
        } else {
            assert forall|r: int| 0 <= r < n implies (#[trigger] before.contains(r)
                <==> include_pending || !lacks_a_result(t, r)) by {
                if before.contains(r) {
                    let k = choose|k: int| 0 <= k < before.len() && before[k] == r;
                    assert(before[k] < m);
                }
            }
            before
        }
    }
}

/// A base cannot be formed only where one of its rows shows no cell.
pub proof fn the_base_fails_at_a_row(
    t: TableView,
    l: Layout,
    near: Seq<Seq<Seq<bool>>>,
    include_pending: bool,
    n: nat,
) -> (r: int)
    requires
        n <= t.rows.len(),
        base_of(t, l, near, include_pending, n) is Err,
    ensures
        0 <= r < n,
        include_pending || !lacks_a_result(t, r),
        row_cell_of(t, l, near, r) is Err,
        row_cell_of(t, l, near, r)->Err_0 == base_of(t, l, near, include_pending, n)->Err_0,
    decreases n,
{
    lemma_complete(t, n - 1);
    if base_of(t, l, near, include_pending, (n - 1) as nat) is Err {
        the_base_fails_at_a_row(t, l, near, include_pending, (n - 1) as nat)
    } else {
        n - 1
    }
}

/// An augmentation builds on every row unless pending rows are left out, and then
/// on those whose results are all in.
pub proof fn openings_count_pending_rows(
    t: TableView,
    l: Layout,
    near: Seq<Seq<Seq<bool>>>,
    models: Seq<ModelView>,
    targets: Seq<Seq<char>>,
    with_pending: bool,
)
    requires
        opening_for(t, l, near, models, targets, with_pending) is Ok,
    ensures
        ({
            let o = opening_for(t, l, near, models, targets, with_pending)->Ok_0;
            let lacking = Set::new(|r: int| 0 <= r < t.rows.len() && lacks_a_result(t, r));
            &&& o.pending == lacking.len()
            &&& with_pending ==> o.base.len() == t.rows.len()
            &&& !with_pending ==> o.base.len() + lacking.len() == t.rows.len()
        }),
{
    let kept = the_base_holds_completed_rows(t, l, near, with_pending, t.rows.len());
}

// ===== Columns =====

/// Columns are found exactly where every name has one, each at its first place.
pub proof fn columns_are_found_first(headers: Seq<Seq<char>>, kind: Seq<char>, names: Seq<Seq<char>>, n: nat)
    requires
        n <= names.len(),
        headers.len() <= usize::MAX,
    ensures
        columns_of(headers, kind, names, n) is Ok <==> forall|i: int|
            0 <= i < n ==> headers.contains(#[trigger] names[i]),
        columns_of(headers, kind, names, n) matches Ok(cols) ==> cols.len() == n && forall|i: int|
            0 <= i < n ==> (#[trigger] cols[i]) < headers.len() && headers[cols[i] as int] == names[i]
                && forall|k: int| 0 <= k < cols[i] ==> #[trigger] headers[k] != names[i],
    decreases n,
{
    if n > 0 {
        columns_are_found_first(headers, kind, names, (n - 1) as nat);
        names_are_found_first(headers, names[n - 1], 0);
        if headers.contains(names[n - 1]) {
            let k = choose|k: int| 0 <= k < headers.len() && headers[k] == names[n - 1];
            assert(headers[k] == names[n - 1]);
        }
        if columns_of(headers, kind, names, n) is Ok {
            assert forall|i: int| 0 <= i < n implies headers.contains(#[trigger] names[i]) by {
                if i == n - 1 {
                    let c = name_index(headers, names[n - 1], 0)->0;
                    assert(headers[c as int] == names[i]);
                }
            }
        } else if forall|i: int| 0 <= i < n ==> headers.contains(#[trigger] names[i]) {
            assert(headers.contains(names[n - 1]));
        }
    }
}

/// A table is read exactly where every factor, role and result has a column, and
/// each is found in the first column of its name. Run ids, orders and experiment
/// numbers are looked for only in columns that the design does not use.
pub proof fn tables_have_their_columns(
    headers: Seq<Seq<char>>,
    rows: Seq<Seq<Seq<char>>>,
    l: Layout,
)
    requires
        headers.len() <= usize::MAX,
    ensures
        table_of(headers, rows, l) is Ok <==> (forall|i: int|
            0 <= i < l.factors.len() ==> headers.contains((#[trigger] l.factors[i]).name)) && (
        forall|i: int| 0 <= i < l.roles.len() ==> headers.contains((#[trigger] l.roles[i]).name)) && (
        forall|i: int| 0 <= i < l.results.len() ==> headers.contains(#[trigger] l.results[i])),
        table_of(headers, rows, l) matches Ok(t) ==> {
            &&& t.headers == headers
            &&& t.rows == rows
            &&& t.factor_col.len() == l.factors.len()
            &&& t.role_col.len() == l.roles.len()
            &&& t.result_col.len() == l.results.len()
            &&& forall|i: int|
                0 <= i < l.factors.len() ==> (#[trigger] t.factor_col[i]) < headers.len()
                    && headers[t.factor_col[i] as int] == l.factors[i].name
            &&& forall|i: int|
                0 <= i < l.roles.len() ==> (#[trigger] t.role_col[i]) < headers.len()
                    && headers[t.role_col[i] as int] == l.roles[i].name
            &&& forall|i: int|
                0 <= i < l.results.len() ==> (#[trigger] t.result_col[i]) < headers.len()
                    && headers[t.result_col[i] as int] == l.results[i]
            &&& t.run_id_col matches Some(c) ==> c < headers.len() && headers[c as int] == "run_id"@
                && !t.factor_col.contains(c) && !t.role_col.contains(c) && !t.result_col.contains(c)
                && t.unit_col != Some(c)
            &&& t.order_col matches Some(c) ==> c < headers.len() && headers[c as int] == "order"@
                && !t.factor_col.contains(c) && !t.role_col.contains(c) && !t.result_col.contains(c)
                && t.unit_col != Some(c)
            &&& t.experiment_col matches Some(c) ==> c < headers.len() && headers[c as int]
                == "experiment"@ && t.run_id_col is None && !t.factor_col.contains(c)
                && !t.role_col.contains(c) && !t.result_col.contains(c) && t.unit_col != Some(c)
            &&& t.unit_col matches Some(c) ==> c < headers.len() && l.unit == Some(headers[c as int])
        },
{
    let fnames = super::table::names_of(l.factors);
    let rnames = super::table::names_of_roles(l.roles);
    columns_are_found_first(headers, "factor column '"@, fnames, l.factors.len());
    columns_are_found_first(headers, "replicate column '"@, rnames, l.roles.len());
    columns_are_found_first(headers, "result column '"@, l.results, l.results.len());
    assert forall|i: int| 0 <= i < l.factors.len() implies fnames[i] == (#[trigger] l.factors[i]).name by {}
    assert forall|i: int| 0 <= i < l.roles.len() implies rnames[i] == (#[trigger] l.roles[i]).name by {}
    names_are_found_first(headers, "run_id"@, 0);
    names_are_found_first(headers, "order"@, 0);
    names_are_found_first(headers, "experiment"@, 0);
    if let Some(u) = l.unit {
        names_are_found_first(headers, u, 0);
    }
    if forall|i: int| 0 <= i < l.factors.len() ==> headers.contains((#[trigger] l.factors[i]).name) {
        assert forall|i: int| 0 <= i < l.factors.len() implies headers.contains(#[trigger] fnames[i]) by {
            assert(fnames[i] == l.factors[i].name);
        }
    }
    if forall|i: int| 0 <= i < l.roles.len() ==> headers.contains((#[trigger] l.roles[i]).name) {
        assert forall|i: int| 0 <= i < l.roles.len() implies headers.contains(#[trigger] rnames[i]) by {
            assert(rnames[i] == l.roles[i].name);
        }
    }
    if let Ok(t) = table_of(headers, rows, l) {
        assert forall|i: int| 0 <= i < l.factors.len() implies headers.contains(
            (#[trigger] l.factors[i]).name,
        ) by {
            assert(headers.contains(fnames[i]));
        }
        assert forall|i: int| 0 <= i < l.roles.len() implies headers.contains(
            (#[trigger] l.roles[i]).name,
        ) by {
            assert(headers.contains(rnames[i]));
        }
        let one: Seq<usize> = match t.unit_col {
            Some(c) => seq![c],
            None => Seq::empty(),
        };
        let taken = t.factor_col + t.role_col + t.result_col + one;
        assert forall|c: usize|
            t.factor_col.contains(c) || t.role_col.contains(c) || t.result_col.contains(c)
                || t.unit_col == Some(c) implies #[trigger] taken.contains(c) by {
            let (a, b, d) = (t.factor_col.len(), t.role_col.len(), t.result_col.len());
            if t.factor_col.contains(c) {
                let k = choose|k: int| 0 <= k < a && t.factor_col[k] == c;
                assert(taken[k] == c);
            } else if t.role_col.contains(c) {
                let k = choose|k: int| 0 <= k < b && t.role_col[k] == c;
                assert(taken[a + k] == c);
            } else if t.result_col.contains(c) {
                let k = choose|k: int| 0 <= k < d && t.result_col[k] == c;
                assert(taken[a + b + k] == c);
            } else {
                assert(taken[(a + b + d) as int] == c);
            }
        }
    }
}

/// A cell shows the first level that matches it, and none only where none does.
pub proof fn cells_show_the_first_match(
    values: Seq<ValueView>,
    cell: Seq<char>,
    near: Seq<bool>,
    i: nat,
)
    requires
        i <= values.len(),
    ensures
        level_shown(values, cell, near, i) matches Some(k) ==> i <= k < values.len() && shows(
            values[k as int],
            cell,
            0 <= k < near.len() && near[k as int],
        ),
        level_shown(values, cell, near, i) matches Some(k) ==> forall|j: int|
            i <= j < k ==> !shows(#[trigger] values[j], cell, 0 <= j < near.len() && near[j]),
        level_shown(values, cell, near, i) is None ==> forall|j: int|
            i <= j < values.len() ==> !shows(
                #[trigger] values[j],
                cell,
                0 <= j < near.len() && near[j],
            ),
    decreases values.len() - i,
{
    if i < values.len() {
        cells_show_the_first_match(values, cell, near, i + 1);
    }
}

/// A level's own text shows the level; another text shows a text level never, and
/// a number only where it reads as that number or close to it.
pub proof fn levels_are_shown_by_their_text(v: ValueView, cell: Seq<char>)
    ensures
        shows(v, value_text(v), false),
        v matches ValueView::Text(s) ==> (shows(v, cell, true) <==> cell == s || cell
            == value_text(v)),
        v matches ValueView::Int(n) ==> (shows(v, cell, false) <==> cell == value_text(v)
            || crate::text::signed_value(cell) == Some(n)),
        !(v is Text) ==> shows(v, cell, true),
{
}

// ===== Targets =====

proof fn lemma_with_labels(labels: Seq<Seq<char>>, more: Seq<Seq<char>>, n: nat)
    requires
        n <= more.len(),
    ensures
        forall|x: Seq<char>|
            #[trigger] with_labels(labels, more, n).contains(x) <==> labels.contains(x) || more.take(
                n as int,
            ).contains(x),
        labels.no_duplicates() ==> with_labels(labels, more, n).no_duplicates(),
    decreases n,
{
    if n == 0 {
        assert(more.take(0) =~= Seq::empty());
    } else {
        lemma_with_labels(labels, more, (n - 1) as nat);
        let before = with_labels(labels, more, (n - 1) as nat);
        let now = with_labels(labels, more, n);
        let (less, upto) = (more.take(n - 1), more.take(n as int));
        assert(upto =~= less.push(more[n - 1]));
        assert forall|x: Seq<char>| #[trigger] now.contains(x) <==> labels.contains(x) || upto.contains(
            x,
        ) by {
            if before.contains(x) {
                let k = choose|k: int| 0 <= k < before.len() && before[k] == x;
                assert(now[k] == x);
            }
            if now.contains(x) {
                let k = choose|k: int| 0 <= k < now.len() && now[k] == x;
                if k < before.len() {
                    assert(before[k] == x);
                    assert(before.contains(x));
                }
            }
            if less.contains(x) {
                let k = choose|k: int| 0 <= k < less.len() && less[k] == x;
                assert(upto[k] == x);
            }
            if upto.contains(x) {
                let k = choose|k: int| 0 <= k < upto.len() && upto[k] == x;
                if k < n - 1 {
                    assert(less[k] == x);
                    assert(less.contains(x));
                } else if !before.contains(x) {
                    assert(now[now.len() - 1] == x);
                }
            }
            if x == more[n - 1] {
                assert(upto[n - 1] == x);
            }
        }
    }
}

proof fn lemma_all_labels(models: Seq<ModelView>, names: Seq<Seq<char>>, n: nat, m: int, t: int)
    requires
        0 <= m < n <= models.len(),
        0 <= t < models[m].terms.len(),
    ensures
        all_labels(models, names, n).contains(term_label(models[m].terms[t], names)),
    decreases n,
{
    let before = all_labels(models, names, (n - 1) as nat);
    let now = all_labels(models, names, n);
    let x = term_label(models[m].terms[t], names);
    if m < n - 1 {
        lemma_all_labels(models, names, (n - 1) as nat, m, t);
        let k = choose|k: int| 0 <= k < before.len() && before[k] == x;
        assert(now[k] == x);
    } else {
        assert(now[before.len() + t] == x);
    }
}

/// The model that is worked with asks for every term of every formula and for
/// every further target, each once.
pub proof fn every_requested_label_is_worked_with(
    models: Seq<ModelView>,
    names: Seq<Seq<char>>,
    more: Seq<Seq<char>>,
    m: int,
    t: int,
)
    requires
        0 <= m < models.len(),
        0 <= t < models[m].terms.len(),
    ensures
        with_labels(declared_labels(models, names), more, more.len()).contains(
            term_label(models[m].terms[t], names),
        ),
        forall|k: int|
            0 <= k < more.len() ==> with_labels(
                declared_labels(models, names),
                more,
                more.len(),
            ).contains(#[trigger] more[k]),
        with_labels(declared_labels(models, names), more, more.len()).no_duplicates(),
{
    let all = all_labels(models, names, models.len());
    let x = term_label(models[m].terms[t], names);
    lemma_all_labels(models, names, models.len(), m, t);
    lemma_distinct(all);
    assert(crate::tuples::distinct(all).contains(x));
    let k = choose|k: int| 0 <= k < crate::tuples::distinct(all).len() && crate::tuples::distinct(all)[k] == x;
    lemma_with_labels(declared_labels(models, names), more, more.len());
    assert(more.take(more.len() as int) =~= more);
}

/// The terms that are noted as absent from the formulas are those of the targets
/// that no formula has.
pub proof fn undeclared_targets_are_noted(
    labels: Seq<Seq<char>>,
    models: Seq<ModelView>,
    names: Seq<Seq<char>>,
    n: nat,
)
    requires
        n <= labels.len(),
    ensures
        forall|k: int|
            0 <= k < n && !all_labels(models, names, models.len()).contains(#[trigger] labels[k])
                ==> undeclared(labels, models, names, n).contains(labels[k]),
        forall|i: int|
            0 <= i < undeclared(labels, models, names, n).len() ==> !all_labels(
                models,
                names,
                models.len(),
            ).contains(#[trigger] undeclared(labels, models, names, n)[i]),
    decreases n,
{
    if n > 0 {
        undeclared_targets_are_noted(labels, models, names, (n - 1) as nat);
        let before = undeclared(labels, models, names, (n - 1) as nat);
        let now = undeclared(labels, models, names, n);
        assert forall|k: int|
            0 <= k < n && !all_labels(models, names, models.len()).contains(
                #[trigger] labels[k],
            ) implies now.contains(labels[k]) by {
            if k == n - 1 {
                assert(now[now.len() - 1] == labels[k]);
            } else {
                let i = choose|i: int| 0 <= i < before.len() && before[i] == labels[k];
                assert(now[i] == labels[k]);
            }
        }
    }
}

proof fn lemma_open(est: EstimabilityView, n: nat)
    requires
        n <= est.terms.len() <= usize::MAX,
    ensures
        forall|t: usize|
            #[trigger] open_terms(est, n).contains(t) <==> t < n && !est.terms[t as int].estimable,
        forall|i: int, j: int|
            0 <= i < j < open_terms(est, n).len() ==> (#[trigger] open_terms(est, n)[i]) < (
            #[trigger] open_terms(est, n)[j]),
        forall|i: int| 0 <= i < open_terms(est, n).len() ==> (#[trigger] open_terms(est, n)[i]) < n,
    decreases n,
{
    if n > 0 {
        lemma_open(est, (n - 1) as nat);
        let before = open_terms(est, (n - 1) as nat);
        let now = open_terms(est, n);
        assert forall|t: usize| #[trigger] now.contains(t) <==> t < n && !est.terms[t as int].estimable by {
            if before.contains(t) {
                let k = choose|k: int| 0 <= k < before.len() && before[k] == t;
                assert(now[k] == t);
            }
            if now.contains(t) {
                let k = choose|k: int| 0 <= k < now.len() && now[k] == t;
                if k < before.len() {
                    assert(before[k] == t);
                    assert(before.contains(t));
                }
            }
            if t == n - 1 && !est.terms[t as int].estimable {
                assert(now[now.len() - 1] == t);
            }
        }
    }
}

proof fn lemma_term_with(terms: Seq<Seq<usize>>, names: Seq<Seq<char>>, label: Seq<char>, i: nat)
    requires
        i <= terms.len(),
    ensures
        term_with_label(terms, names, label, i) matches Some(t) ==> i <= t < terms.len() && term_label(
            terms[t as int],
            names,
        ) == label,
        term_with_label(terms, names, label, i) is None ==> forall|t: int|
            i <= t < terms.len() ==> term_label(#[trigger] terms[t], names) != label,
    decreases terms.len() - i,
{
    if i < terms.len() {
        lemma_term_with(terms, names, label, i + 1);
    }
}

proof fn lemma_labelled(
    terms: Seq<Seq<usize>>,
    names: Seq<Seq<char>>,
    labels: Seq<Seq<char>>,
    n: nat,
)
    requires
        n <= labels.len(),
        terms.len() <= usize::MAX,
    ensures
        labelled_terms(terms, names, labels, n) matches Ok(found) ==> found.len() == n && forall|k: int|
            0 <= k < n ==> (#[trigger] found[k]) < terms.len() && term_label(
                terms[found[k] as int],
                names,
            ) == labels[k],
    decreases n,
{
    if n > 0 {
        lemma_labelled(terms, names, labels, (n - 1) as nat);
        lemma_term_with(terms, names, labels[n - 1], 0);
    }
}

/// Without targets, exactly the terms that are not estimable are aimed at; with
/// targets, exactly those. Where there is nothing to aim at, the number of runs
/// has to be given.
pub proof fn the_aims_are_the_targets(
    model: ModelView,
    names: Seq<Seq<char>>,
    labels: Seq<Seq<char>>,
    est: EstimabilityView,
    runs: Option<usize>,
)
    requires
        est.terms.len() <= usize::MAX,
        model.terms.len() <= usize::MAX,
    ensures
        labels.len() == 0 ==> (aims(model, names, labels, est, runs) is Err <==> runs is None && forall|
            t: int,
        |
            0 <= t < est.terms.len() ==> (#[trigger] est.terms[t]).estimable),
        labels.len() == 0 ==> (aims(model, names, labels, est, runs) matches Ok(terms) ==> forall|
            t: usize,
        |
            #[trigger] terms.contains(t) <==> t < est.terms.len() && !est.terms[t as int].estimable),
        labels.len() > 0 ==> (aims(model, names, labels, est, runs) matches Ok(terms) ==> terms.len()
            == labels.len() && forall|k: int|
            0 <= k < labels.len() ==> (#[trigger] terms[k]) < model.terms.len() && term_label(
                model.terms[terms[k] as int],
                names,
            ) == labels[k]),
{
    lemma_open(est, est.terms.len());
    lemma_labelled(model.terms, names, labels, labels.len());
    let o = open_terms(est, est.terms.len());
    if labels.len() == 0 {
        if o.len() == 0 {
            assert forall|t: int| 0 <= t < est.terms.len() implies (#[trigger] est.terms[t]).estimable by {
                assert(!o.contains(t as usize));
            }
        } else {
            assert(o.contains(o[0]));
            assert(!est.terms[o[0] as int].estimable);
        }
    }
}

// ===== Candidates =====

proof fn lemma_draw(state: u64, dims: Seq<usize>, n: nat)
    requires
        n <= dims.len(),
        forall|k: int| 0 <= k < dims.len() ==> #[trigger] dims[k] > 0,
    ensures
        drawn_tuple(state, dims, n).0.len() == n,
        forall|k: int| 0 <= k < n ==> #[trigger] drawn_tuple(state, dims, n).0[k] < dims[k],
    decreases n,
{
    if n > 0 {
        lemma_draw(state, dims, (n - 1) as nat);
        let before = drawn_tuple(state, dims, (n - 1) as nat);
        assert(drawn(before.1, dims[n - 1] as u64) < dims[n - 1]);
    }
}

proof fn lemma_draws(state: u64, dims: Seq<usize>, n: nat)
    requires
        forall|k: int| 0 <= k < dims.len() ==> #[trigger] dims[k] > 0,
    ensures
        draws(state, dims, n).0.len() == n,
        forall|i: int| 0 <= i < n ==> within(#[trigger] draws(state, dims, n).0[i], dims),
    decreases n,
{
    if n > 0 {
        lemma_draws(state, dims, (n - 1) as nat);
        lemma_draw(draws(state, dims, (n - 1) as nat).1, dims, dims.len());
    }
}

/// Up to the cap every combination of levels is a candidate. Above it at most that
/// many are. A candidate names a level on every axis.
pub proof fn candidates_are_combinations(state: u64, dims: Seq<usize>, t: Seq<usize>)
    requires
        forall|k: int| 0 <= k < dims.len() ==> #[trigger] dims[k] > 0,
    ensures
        combinations(state, dims).contains(t) ==> t.len() == dims.len() && forall|k: int|
            0 <= k < dims.len() ==> #[trigger] t[k] < dims[k],
        tuple_count(dims) <= 200_000 && t.len() == dims.len() && (forall|k: int|
            0 <= k < dims.len() ==> #[trigger] t[k] < dims[k]) ==> combinations(state, dims).contains(t),
        combinations(state, dims).len() <= 200_000,
        tuple_count(dims) <= 200_000 ==> combinations(state, dims).len() == tuple_count(dims),
{
    let list = combinations(state, dims);
    let all = draws(state, dims, 200_000);
    lemma_draws(state, dims, 200_000);
    lemma_distinct(all.0);
    if tuple_count(dims) <= 200_000 {
        if t.len() == dims.len() && forall|k: int| 0 <= k < dims.len() ==> #[trigger] t[k] < dims[k] {
            lemma_tuple_index(dims, t);
            assert(tuples(dims)[tuple_index(dims, t)] == t);
        }
        if list.contains(t) {
            let i = choose|i: int| 0 <= i < list.len() && list[i] == t;
            lemma_tuple_at(dims, i);
        }
    } else if list.contains(t) {
        assert(all.0.contains(t));
        let i = choose|i: int| 0 <= i < all.0.len() && all.0[i] == t;
        assert(within(all.0[i], dims));
    }
}

// ===== Ids =====

proof fn lemma_top_number(ids: Seq<Seq<char>>, prefix: char, least: nat, n: nat)
    requires
        n <= ids.len(),
    ensures
        least <= top_number(ids, prefix, least, n),
        forall|i: int|
            0 <= i < n && id_of(prefix, #[trigger] ids[i]) is Some ==> id_of(prefix, ids[i])->Some_0.0
                <= top_number(ids, prefix, least, n),
        top_number(ids, prefix, least, n) == least || exists|i: int|
            0 <= i < n && id_of(prefix, #[trigger] ids[i]) is Some && id_of(prefix, ids[i])->Some_0.0
                == top_number(ids, prefix, least, n),
    decreases n,
{
    if n > 0 {
        lemma_top_number(ids, prefix, least, (n - 1) as nat);
        let before = top_number(ids, prefix, least, (n - 1) as nat);
        if id_of(prefix, ids[n - 1]) is Some && id_of(prefix, ids[n - 1])->Some_0.0 > before {
            assert(id_of(prefix, ids[n - 1])->Some_0.0 == top_number(ids, prefix, least, n));
        } else if before != least {
            let i = choose|i: int|
                0 <= i < n - 1 && id_of(prefix, #[trigger] ids[i]) is Some && id_of(prefix, ids[i])->Some_0.0
                    == before;
            assert(id_of(prefix, ids[i])->Some_0.0 == top_number(ids, prefix, least, n));
        }
    }
}

proof fn lemma_top_width(ids: Seq<Seq<char>>, prefix: char, least: nat, n: nat)
    requires
        n <= ids.len(),
    ensures
        least <= top_width(ids, prefix, least, n),
        forall|i: int|
            0 <= i < n && id_of(prefix, #[trigger] ids[i]) is Some ==> id_of(prefix, ids[i])->Some_0.1
                <= top_width(ids, prefix, least, n),
        top_width(ids, prefix, least, n) == least || exists|i: int|
            0 <= i < n && id_of(prefix, #[trigger] ids[i]) is Some && id_of(prefix, ids[i])->Some_0.1
                == top_width(ids, prefix, least, n),
    decreases n,
{
    if n > 0 {
        lemma_top_width(ids, prefix, least, (n - 1) as nat);
        let before = top_width(ids, prefix, least, (n - 1) as nat);
        if id_of(prefix, ids[n - 1]) is Some && id_of(prefix, ids[n - 1])->Some_0.1 > before {
            assert(id_of(prefix, ids[n - 1])->Some_0.1 == top_width(ids, prefix, least, n));
        } else if before != least {
            let i = choose|i: int|
                0 <= i < n - 1 && id_of(prefix, #[trigger] ids[i]) is Some && id_of(prefix, ids[i])->Some_0.1
                    == before;
            assert(id_of(prefix, ids[i])->Some_0.1 == top_width(ids, prefix, least, n));
        }
    }
}

proof fn lemma_top_of(numbers: Seq<Option<nat>>, least: nat, n: nat)
    requires
        n <= numbers.len(),
    ensures
        least <= top_of(numbers, least, n),
        forall|i: int|
            0 <= i < n && (#[trigger] numbers[i]) is Some ==> numbers[i]->0 <= top_of(
                numbers,
                least,
                n,
            ),
        top_of(numbers, least, n) == least || exists|i: int|
            0 <= i < n && (#[trigger] numbers[i]) == Some(top_of(numbers, least, n)),
    decreases n,
{
    if n > 0 {
        lemma_top_of(numbers, least, (n - 1) as nat);
        let before = top_of(numbers, least, (n - 1) as nat);
        if numbers[n - 1] is Some && numbers[n - 1]->0 > before {
            assert(numbers[n - 1] == Some(top_of(numbers, least, n)));
        } else if before != least {
            let i = choose|i: int| 0 <= i < n - 1 && (#[trigger] numbers[i]) == Some(before);
            assert(numbers[i] == Some(top_of(numbers, least, n)));
        }
    }
}

/// New runs are numbered from one above the larger of the number of rows and the
/// largest number in use; their orders likewise.
pub proof fn numbers_go_on_from_the_largest(t: TableView, runs: Seq<RunView>)
    ensures
        ({
            let ids = ids_in_use(t, runs);
            let n = next_number(t, runs) - 1;
            &&& t.rows.len() <= n
            &&& forall|i: int|
                0 <= i < ids.len() && id_of('r', #[trigger] ids[i]) is Some ==> id_of('r', ids[i])->Some_0.0
                    <= n
            &&& n == t.rows.len() || exists|i: int|
                0 <= i < ids.len() && id_of('r', #[trigger] ids[i]) is Some && id_of('r', ids[i])->Some_0.0
                    == n
        }),
        ({
            let orders = orders_in_use(t, runs);
            let top = top_order(t, runs);
            &&& t.rows.len() <= top
            &&& forall|i: int|
                0 <= i < orders.len() && (#[trigger] orders[i]) is Some ==> orders[i]->0 <= top
            &&& top == t.rows.len() || exists|i: int|
                0 <= i < orders.len() && (#[trigger] orders[i]) == Some(top)
        }),
{
    lemma_top_number(ids_in_use(t, runs), 'r', t.rows.len(), ids_in_use(t, runs).len());
    lemma_top_of(orders_in_use(t, runs), t.rows.len(), orders_in_use(t, runs).len());
}

/// The ids and orders in use are those of the table where it shows them, otherwise
/// those of the design.
pub proof fn ids_in_use_come_from_the_table(t: TableView, runs: Seq<RunView>)
    ensures
        t.run_id_col matches Some(c) ==> ids_in_use(t, runs).len() == t.rows.len() && forall|r: int|
            0 <= r < t.rows.len() && c < (#[trigger] t.rows[r]).len() ==> ids_in_use(t, runs)[r]
                == trimmed(t.rows[r][c as int]),
        t.run_id_col is None ==> ids_in_use(t, runs).len() == runs.len() && forall|i: int|
            0 <= i < runs.len() ==> ids_in_use(t, runs)[i] == (#[trigger] runs[i]).run_id,
        t.order_col is None ==> orders_in_use(t, runs).len() == runs.len() && forall|i: int|
            0 <= i < runs.len() ==> orders_in_use(t, runs)[i] == Some((#[trigger] runs[i]).order),
{
}

proof fn lemma_foreign(ids: Seq<Seq<char>>, i: nat)
    requires
        i <= ids.len(),
    ensures
        first_foreign(ids, i) is None <==> forall|k: int|
            i <= k < ids.len() ==> id_of('r', #[trigger] ids[k]) is Some,
    decreases ids.len() - i,
{
    if i < ids.len() {
        lemma_foreign(ids, i + 1);
    }
}

proof fn lemma_width(n: nat, width: nat)
    requires
        decimal(n).len() <= width,
    ensures
        padded(n, width).len() == width,
{
}

proof fn lemma_longer(a: nat, b: nat)
    requires
        a <= b,
    ensures
        decimal(a).len() <= decimal(b).len(),
        1 <= decimal(a).len(),
    decreases b,
{
    if a >= 10 {
        lemma_longer(a / 10, b / 10);
    } else if b >= 10 {
        lemma_longer(0, b / 10);
    }
}

/// A plan is refused exactly where the table has an id that is not an `r` and
/// digits. Otherwise there is an id and an order for each added run, all ids have
/// one width of four digits at least, and no narrower one would hold them all.
pub proof fn planned_ids_have_one_width(t: TableView, runs: Seq<RunView>, added: nat)
    requires
        next_number(t, runs) + added <= usize::MAX,
    ensures
        plan_of(t, runs, added) is Err <==> t.run_id_col is Some && exists|i: int|
            0 <= i < ids_in_use(t, runs).len() && id_of('r', #[trigger] ids_in_use(t, runs)[i]) is None,
        plan_of(t, runs, added) matches Ok(p) ==> {
            &&& p.new_ids.len() == added
            &&& p.new_orders.len() == added
            &&& p.width >= 4
            &&& forall|k: int| 0 <= k < added ==> (#[trigger] p.new_ids[k]).len() == 1 + p.width
            &&& forall|i: int|
                0 <= i < ids_in_use(t, runs).len() && id_of('r', #[trigger] ids_in_use(t, runs)[i])
                    is Some ==> id_of('r', ids_in_use(t, runs)[i])->Some_0.1 <= p.width
            &&& p.width == 4 || (exists|i: int|
                0 <= i < ids_in_use(t, runs).len() && id_of('r', #[trigger] ids_in_use(t, runs)[i])
                    is Some && id_of('r', ids_in_use(t, runs)[i])->Some_0.1 == p.width) || p.width
                == decimal(
                (next_number(t, runs) + (if added == 0 {
                    0
                } else {
                    added - 1
                })) as nat,
            ).len()
        },
{
    let ids = ids_in_use(t, runs);
    lemma_foreign(ids, 0);
    lemma_top_width(ids, 'r', 4, ids.len());
    if let Ok(p) = plan_of(t, runs, added) {
        let last = (next_number(t, runs) + (if added == 0 {
            0
        } else {
            added - 1
        })) as nat;
        assert forall|k: int| 0 <= k < added implies (#[trigger] p.new_ids[k]).len() == 1 + p.width by {
            let n = (next_number(t, runs) + k) as nat;
            reveal_strlit("r");
            lemma_longer(n, last);
            lemma_width(n, p.width);
        }
    }
}

/// Ids are rewritten exactly where the table has one of another width, and every
/// id keeps its number.
pub proof fn rewritten_ids_keep_their_numbers(t: TableView, runs: Seq<RunView>, added: nat, i: int)
    requires
        plan_of(t, runs, added) is Ok,
        next_number(t, runs) + added <= usize::MAX,
        0 <= i < ids_in_use(t, runs).len(),
    ensures
        ({
            let p = plan_of(t, runs, added)->Ok_0;
            let ids = ids_in_use(t, runs);
            &&& p.rewritten is Some <==> t.run_id_col is Some && exists|j: int|
                0 <= j < ids.len() && (id_of('r', #[trigger] ids[j]) is Some && id_of('r', ids[j])->Some_0.1
                    != p.width)
            &&& p.rewritten matches Some(new) ==> new.len() == ids.len() && (id_of('r', ids[i])
                is Some ==> id_of('r', new[i]) is Some && id_of('r', new[i])->Some_0.0 == id_of(
                'r',
                ids[i],
            )->Some_0.0 && id_of('r', new[i])->Some_0.1 == p.width)
        }),
{
    let p = plan_of(t, runs, added)->Ok_0;
    let ids = ids_in_use(t, runs);
    lemma_top_number(ids, 'r', t.rows.len(), ids.len());
    lemma_top_width(ids, 'r', 4, ids.len());
    if let Some((n, w)) = id_of('r', ids[i]) {
        let last = (next_number(t, runs) + (if added == 0 {
            0
        } else {
            added - 1
        })) as nat;
        reveal_strlit("r");
        assert("r"@ =~= seq!['r']);
        lemma_longer(n, last);
        lemma_width(n, p.width);
        lemma_id_of_padded('r', n, p.width);
    }
}

// ===== Added rows =====

proof fn lemma_place(cols: Seq<usize>, col: usize, i: nat)
    requires
        i <= cols.len(),
    ensures
        place_of(cols, col, i) is None <==> forall|k: int|
            i <= k < cols.len() ==> #[trigger] cols[k] != col,
        place_of(cols, col, i) matches Some(k) ==> i <= k < cols.len() && cols[k as int] == col,
    decreases cols.len() - i,
{
    if i < cols.len() {
        lemma_place(cols, col, i + 1);
    }
}

/// An added row shows its id, its order and the levels of its cell, each in its
/// own column, and leaves its results empty.
pub proof fn added_rows_show_their_cell(
    t: TableView,
    l: Layout,
    cell: CellView,
    k: nat,
    plan: IdView,
    unit: Option<Seq<char>>,
    f: int,
    r: int,
    y: int,
)
    requires
        t.headers.len() <= usize::MAX,
        0 <= f < t.factor_col.len(),
        0 <= r < t.role_col.len(),
        0 <= y < t.result_col.len(),
        (t.factor_col + t.role_col + t.result_col).no_duplicates(),
        forall|i: int|
            0 <= i < (t.factor_col + t.role_col + t.result_col).len() ==> (#[trigger] (t.factor_col
                + t.role_col + t.result_col)[i]) < t.headers.len() && t.run_id_col != Some(
                (t.factor_col + t.role_col + t.result_col)[i],
            ) && t.order_col != Some((t.factor_col + t.role_col + t.result_col)[i])
                && t.experiment_col != Some((t.factor_col + t.role_col + t.result_col)[i])
                && t.unit_col != Some((t.factor_col + t.role_col + t.result_col)[i]),
    ensures
        ({
            let row = new_record(t, l, cell, k, plan, unit);
            &&& row.len() == t.headers.len()
            &&& row[t.factor_col[f] as int] == value_text(
                l.factors[f].values[cell.factors[f] as int],
            )
            &&& row[t.role_col[r] as int] == value_text(l.roles[r].levels[cell.roles[r] as int])
            &&& row[t.result_col[y] as int].len() == 0
            &&& t.run_id_col is Some && t.run_id_col->0 < t.headers.len()
                ==> row[t.run_id_col->0 as int] == plan.new_ids[k as int]
            &&& t.order_col is Some && t.order_col->0 < t.headers.len() && t.run_id_col != t.order_col
                ==> row[t.order_col->0 as int] == decimal(plan.new_orders[k as int] as nat)
        }),
{
    let all = t.factor_col + t.role_col + t.result_col;
    let (a, b) = (t.factor_col.len() as int, t.role_col.len() as int);
    let (cf, cr, cy) = (t.factor_col[f], t.role_col[r], t.result_col[y]);
    assert(all[f] == cf && all[a + r] == cr && all[a + b + y] == cy);
    lemma_place(t.factor_col, cf, 0);
    lemma_place(t.factor_col, cr, 0);
    lemma_place(t.factor_col, cy, 0);
    lemma_place(t.role_col, cr, 0);
    lemma_place(t.role_col, cy, 0);
    assert forall|i: int| 0 <= i < a implies #[trigger] t.factor_col[i] == all[i] by {}
    assert forall|i: int| 0 <= i < b implies #[trigger] t.role_col[i] == all[a + i] by {}
    if place_of(t.factor_col, cf, 0) is Some {
        let i = place_of(t.factor_col, cf, 0)->0 as int;
        assert(all[i] == all[f]);
    }
    assert(place_of(t.factor_col, cf, 0) == Some(f as nat));
    assert(place_of(t.factor_col, cr, 0) is None) by {
        if place_of(t.factor_col, cr, 0) is Some {
            let i = place_of(t.factor_col, cr, 0)->0 as int;
            assert(all[i] == all[a + r]);
        }
    }
    assert(place_of(t.factor_col, cy, 0) is None) by {
        if place_of(t.factor_col, cy, 0) is Some {
            let i = place_of(t.factor_col, cy, 0)->0 as int;
            assert(all[i] == all[a + b + y]);
        }
    }
    if place_of(t.role_col, cr, 0) is Some {
        let i = place_of(t.role_col, cr, 0)->0 as int;
        assert(all[a + i] == all[a + r]);
    }
    assert(place_of(t.role_col, cr, 0) == Some(r as nat));
    assert(place_of(t.role_col, cy, 0) is None) by {
        if place_of(t.role_col, cy, 0) is Some {
            let i = place_of(t.role_col, cy, 0)->0 as int;
            assert(all[a + i] == all[a + b + y]);
        }
    }
}

/// The design keeps its runs, in their order and with their levels, and gets one
/// more for each added cell behind them.
pub proof fn augmented_designs_keep_their_runs(
    runs: Seq<RunView>,
    l: Layout,
    cells: Seq<CellView>,
    plan: IdView,
    units: Seq<Option<Seq<char>>>,
)
    ensures
        ({
            let all = augmented_runs(runs, l, cells, plan, units);
            &&& all.len() == runs.len() + cells.len()
            &&& forall|i: int|
                0 <= i < runs.len() ==> (#[trigger] all[i]).order == runs[i].order && all[i].factors
                    == runs[i].factors && all[i].replicates == runs[i].replicates && all[i].unit
                    == runs[i].unit && all[i].design_row == runs[i].design_row
            &&& plan.rewritten is None ==> forall|i: int|
                0 <= i < runs.len() ==> #[trigger] all[i] == runs[i]
            &&& forall|k: int|
                0 <= k < cells.len() ==> {
                    let run = #[trigger] all[runs.len() + k];
                    &&& run.run_id == plan.new_ids[k]
                    &&& run.order == plan.new_orders[k]
                    &&& run.unit == units[k]
                    &&& run.factors.len() == l.factors.len()
                    &&& run.replicates.len() == l.roles.len()
                    &&& forall|f: int|
                        0 <= f < l.factors.len() ==> (#[trigger] run.factors[f]).name
                            == l.factors[f].name && run.factors[f].value
                            == l.factors[f].values[cells[k].factors[f] as int]
                    &&& forall|r: int|
                        0 <= r < l.roles.len() ==> (#[trigger] run.replicates[r]).name
                            == l.roles[r].name && run.replicates[r].value
                            == l.roles[r].levels[cells[k].roles[r] as int]
                }
        }),
{
}

// ===== The choice of runs =====

/// With targets, a candidate that raises the rank of their columns is better than
/// any that does not, whatever else it gains; otherwise the gain decides alone.
pub proof fn targets_come_before_precision(a: Gain, b: Gain)
    ensures
        a.new_row && !a.new_rest && !(b.new_row && !b.new_rest) ==> better(a, b, true) && !better(
            b,
            a,
            true,
        ),
        a.new_row == b.new_row && a.new_rest == b.new_rest ==> (better(a, b, true) <==> float_less(
            b.d_gain,
            a.d_gain,
        )),
        better(a, b, false) <==> float_less(b.d_gain, a.d_gain),
{
}

/// The columns that are aimed at are those of the targets, all of them and in
/// order.
pub proof fn the_columns_of_the_targets_are_aimed_at(
    columns: Seq<ColumnView>,
    targets: Seq<usize>,
    n: nat,
)
    requires
        n <= columns.len() <= usize::MAX,
    ensures
        forall|c: usize|
            #[trigger] aimed_columns(columns, targets, n).contains(c) <==> c < n && (
            columns[c as int].source is Term && targets.contains(columns[c as int].source->term)),
        forall|i: int, j: int|
            0 <= i < j < aimed_columns(columns, targets, n).len() ==> (#[trigger] aimed_columns(
                columns,
                targets,
                n,
            )[i]) < (#[trigger] aimed_columns(columns, targets, n)[j]),
        forall|i: int|
            0 <= i < aimed_columns(columns, targets, n).len() ==> (#[trigger] aimed_columns(
                columns,
                targets,
                n,
            )[i]) < n,
    decreases n,
{
    if n > 0 {
        the_columns_of_the_targets_are_aimed_at(columns, targets, (n - 1) as nat);
        let before = aimed_columns(columns, targets, (n - 1) as nat);
        let now = aimed_columns(columns, targets, n);
        assert forall|c: usize|
            #[trigger] now.contains(c) <==> c < n && (columns[c as int].source is Term
                && targets.contains(columns[c as int].source->term)) by {
            if before.contains(c) {
                let k = choose|k: int| 0 <= k < before.len() && before[k] == c;
                assert(now[k] == c);
            }
            if now.contains(c) {
                let k = choose|k: int| 0 <= k < now.len() && now[k] == c;
                if k < before.len() {
                    assert(before[k] == c);
                    assert(before.contains(c));
                }
            }
            if c == n - 1 && now.len() > before.len() {
                assert(now[now.len() - 1] == c);
            }
        }
    }
}

/// Without a number of runs, a run is added only where some target is not
/// estimable yet, and never more runs than there are parameters. With a number,
/// that many are added.
pub proof fn runs_are_added_while_targets_are_open<P: Fn(&ModelMatrix) -> RankReport, S: Fn(
    &ModelMatrix,
    &ModelMatrix,
    &Vec<usize>,
) -> Result<Vec<Gain>, Error>>(
    probe: P,
    score: S,
    a: Aim,
    base: ModelMatrix,
    cand: ModelMatrix,
    aimed: Vec<usize>,
    picks: Seq<usize>,
    ranks: Seq<RankReport>,
    gains: Seq<Vec<Gain>>,
    k: int,
)
    requires
        walked(probe, score, a, base, cand, aimed, picks, ranks, gains),
        0 <= k < picks.len(),
    ensures
        a.runs is None ==> k < a.columns.len() && exists|i: int|
            0 <= i < a.targets.len() && !verdict(
                a.columns,
                a.base_rows + k as nat,
                a.terms,
                a.factors,
                ranks[k]@,
            ).terms[#[trigger] a.targets[i] as int].estimable,
        a.runs matches Some(n) ==> k < n,
{
    assert(!super::greedy::ends(a, k as nat, ranks[k]@));
}

/// Each added run is the first of the best candidates at its time.
pub proof fn each_run_is_the_best_candidate<P: Fn(&ModelMatrix) -> RankReport, S: Fn(
    &ModelMatrix,
    &ModelMatrix,
    &Vec<usize>,
) -> Result<Vec<Gain>, Error>>(
    probe: P,
    score: S,
    a: Aim,
    base: ModelMatrix,
    cand: ModelMatrix,
    aimed: Vec<usize>,
    picks: Seq<usize>,
    ranks: Seq<RankReport>,
    gains: Seq<Vec<Gain>>,
    k: int,
    c: int,
)
    requires
        walked(probe, score, a, base, cand, aimed, picks, ranks, gains),
        0 <= k < picks.len(),
        0 <= c < cand.data@.len(),
        forall|i: int|
            0 <= i < gains[k]@.len() ==> !not_a_number((#[trigger] gains[k]@[i]).d_gain),
    ensures
        picks[k] < cand.data@.len(),
        !better(gains[k]@[c], gains[k]@[picks[k] as int], aimed@.len() > 0),
        c < picks[k] ==> better(gains[k]@[picks[k] as int], gains[k]@[c], aimed@.len() > 0),
{
    assert(gains[k] == gains[k]);
    best_is_first_of_the_best(gains[k]@, aimed@.len() > 0, gains[k]@.len(), c);
}

// ===== Units =====

proof fn lemma_key_place(keys: Seq<Seq<usize>>, key: Seq<usize>, i: nat)
    requires
        i <= keys.len(),
    ensures
        key_place(keys, key, i) is None <==> forall|k: int|
            i <= k < keys.len() ==> #[trigger] keys[k] != key,
        key_place(keys, key, i) matches Some(k) ==> i <= k < keys.len() && keys[k as int] == key,
    decreases keys.len() - i,
{
    if i < keys.len() {
        lemma_key_place(keys, key, i + 1);
    }
}

/// Every row whose unit is known has its key on record, no key stands twice, and
/// new numbers begin above every number that a known unit has.
pub proof fn known_units_are_on_record(
    t: TableView,
    l: Layout,
    runs: Seq<RunView>,
    near: Seq<Seq<Seq<bool>>>,
    unit: UnitView,
    n: nat,
)
    requires
        known_units(t, l, runs, near, unit, n) is Ok,
    ensures
        ({
            let (u, open) = known_units(t, l, runs, near, unit, n)->Ok_0;
            &&& u.keys.len() == u.ids.len()
            &&& u.keys.no_duplicates()
            &&& u.next >= 1
            &&& u.width >= 4
            &&& forall|r: int|
                0 <= r < n ==> (#[trigger] row_cell_of(t, l, near, r)) is Ok && (known_unit(t, runs, r)
                    is Some ==> u.keys.contains(
                    key_for(row_cell_of(t, l, near, r)->Ok_0, unit, l.factors, l.roles),
                ))
            &&& forall|r: int|
                0 <= r < n && (#[trigger] known_unit(t, runs, r)) is Some && id_of(
                    'u',
                    known_unit(t, runs, r)->0,
                ) is Some ==> id_of('u', known_unit(t, runs, r)->0)->Some_0.0 < u.next && id_of(
                    'u',
                    known_unit(t, runs, r)->0,
                )->Some_0.1 <= u.width
        }),
    decreases n,
{
    if n > 0 {
        known_units_are_on_record(t, l, runs, near, unit, (n - 1) as nat);
        let (before, _) = known_units(t, l, runs, near, unit, (n - 1) as nat)->Ok_0;
        let (u, _) = known_units(t, l, runs, near, unit, n)->Ok_0;
        let key = key_for(row_cell_of(t, l, near, n - 1)->Ok_0, unit, l.factors, l.roles);
        lemma_key_place(before.keys, key, 0);
        assert forall|x: Seq<usize>| before.keys.contains(x) implies #[trigger] u.keys.contains(x) by {
            let k = choose|k: int| 0 <= k < before.keys.len() && before.keys[k] == x;
            assert(u.keys[k] == x);
        }
        if known_unit(t, runs, n - 1) is Some {
            assert(u.keys.contains(key)) by {
                match key_place(before.keys, key, 0) {
                    Some(k) => {
                        assert(u.keys[k as int] == key);
                    },
                    None => {
                        assert(u.keys[before.keys.len() as int] == key);
                    },
                }
            }
        }
    }
}

/// A row's unit is what its cell shows; where that is blank or there is no such
/// column, it is that of the run that the row is of.
pub proof fn units_are_known_from_the_table_first(t: TableView, runs: Seq<RunView>, row: int)
    requires
        0 <= row < t.rows.len(),
    ensures
        t.unit_col is Some && t.unit_col->0 < t.rows[row].len() && trimmed(
            t.rows[row][t.unit_col->0 as int],
        ).len() > 0 ==> known_unit(t, runs, row) == Some(trimmed(t.rows[row][t.unit_col->0 as int])),
        t.unit_col is None && t.run_id_col is None && row < runs.len() ==> known_unit(t, runs, row)
            == runs[row].unit,
{
}

/// Keys that are asked for in turn get ids: a key that is on record keeps its id,
/// and a key that comes again gets the same.
pub proof fn asked_keys_get_one_id(u: UnitsView, keys: Seq<Seq<usize>>, i: int, j: int)
    requires
        u.keys.len() == u.ids.len(),
        0 <= i < j < keys.len(),
    ensures
        u.keys.contains(keys[j]) ==> id_for(with_keys(u, keys, j as nat), keys[j]) == id_for(
            u,
            keys[j],
        ),
        keys[i] == keys[j] ==> id_for(with_keys(u, keys, j as nat), keys[j]) == id_for(
            with_keys(u, keys, i as nat),
            keys[i],
        ),
{
    lemma_with_keys(u, keys, keys[j], 0, j as nat);
    if keys[i] == keys[j] {
        let at = with_keys(u, keys, i as nat);
        let next = with_keys(u, keys, (i + 1) as nat);
        lemma_lengths(u, keys, i as nat);
        lemma_key_place(at.keys, keys[i], 0);
        lemma_key_place(next.keys, keys[i], 0);
        lemma_keeps_place(at, keys[i], keys[i]);
        if key_place(at.keys, keys[i], 0) is None {
            lemma_appended(at.keys, keys[i], 0);
            assert(next.keys[at.keys.len() as int] == keys[i]);
        } else {
            let k = key_place(at.keys, keys[i], 0)->0;
            assert(at.keys[k as int] == keys[i]);
        }
        lemma_with_keys(u, keys, keys[j], (i + 1) as nat, j as nat);
    }
}

proof fn lemma_lengths(u: UnitsView, keys: Seq<Seq<usize>>, n: nat)
    requires
        u.keys.len() == u.ids.len(),
    ensures
        with_keys(u, keys, n).keys.len() == with_keys(u, keys, n).ids.len(),
    decreases n,
{
    if n > 0 {
        lemma_lengths(u, keys, (n - 1) as nat);
    }
}

proof fn lemma_appended(keys: Seq<Seq<usize>>, key: Seq<usize>, i: nat)
    requires
        i <= keys.len(),
        key_place(keys, key, i) is None,
    ensures
        key_place(keys.push(key), key, i) == Some(keys.len()),
    decreases keys.len() - i,
{
    if i < keys.len() {
        assert(keys.push(key)[i as int] == keys[i as int]);
        lemma_appended(keys, key, i + 1);
    }
}

proof fn lemma_place_pushed(keys: Seq<Seq<usize>>, key: Seq<usize>, x: Seq<usize>, i: nat)
    requires
        i <= keys.len(),
        key_place(keys, x, i) is Some,
    ensures
        key_place(keys.push(key), x, i) == key_place(keys, x, i),
    decreases keys.len() - i,
{
    if i < keys.len() {
        assert(keys.push(key)[i as int] == keys[i as int]);
        if keys[i as int] != x {
            lemma_place_pushed(keys, key, x, i + 1);
        }
    }
}

proof fn lemma_keeps_place(u: UnitsView, key: Seq<usize>, x: Seq<usize>)
    requires
        u.keys.len() == u.ids.len(),
    ensures
        u.keys.contains(x) ==> with_key(u, key).keys.contains(x) && id_for(with_key(u, key), x)
            == id_for(u, x),
{
    if u.keys.contains(x) {
        let k = choose|k: int| 0 <= k < u.keys.len() && u.keys[k] == x;
        lemma_key_place(u.keys, x, 0);
        assert(u.keys[k] == x);
        assert(with_key(u, key).keys[k] == x);
        lemma_place_pushed(u.keys, key, x, 0);
    }
}

proof fn lemma_with_keys(u: UnitsView, keys: Seq<Seq<usize>>, x: Seq<usize>, a: nat, b: nat)
    requires
        u.keys.len() == u.ids.len(),
        a <= b,
    ensures
        with_keys(u, keys, a).keys.contains(x) ==> with_keys(u, keys, b).keys.contains(x) && id_for(
            with_keys(u, keys, b),
            x,
        ) == id_for(with_keys(u, keys, a), x),
    decreases b - a,
{
    if a < b {
        lemma_with_keys(u, keys, x, a, (b - 1) as nat);
        lemma_lengths(u, keys, (b - 1) as nat);
        lemma_keeps_place(with_keys(u, keys, (b - 1) as nat), keys[b - 1], x);
    }
}

// ===== What is written =====

/// Experiments are numbered on from the larger of the number of rows and the
/// largest number in use.
pub proof fn experiments_go_on_from_the_largest(t: TableView)
    ensures
        t.experiment_col is None ==> next_experiment_of(t) is None,
        t.experiment_col matches Some(c) ==> {
            let n = next_experiment_of(t)->0 - 1;
            let used = numbers_in(t, c);
            &&& next_experiment_of(t) is Some
            &&& t.rows.len() <= n
            &&& forall|i: int| 0 <= i < used.len() && (#[trigger] used[i]) is Some ==> used[i]->0 <= n
            &&& n == t.rows.len() || exists|i: int|
                0 <= i < used.len() && (#[trigger] used[i]) == Some(n as nat)
        },
{
    if let Some(c) = t.experiment_col {
        lemma_top_of(numbers_in(t, c), t.rows.len(), t.rows.len());
    }
}

/// The rows of the table are written first and in their order, then one for each
/// added cell.
pub proof fn added_rows_come_last(
    t: TableView,
    l: Layout,
    cells: Seq<CellView>,
    plan: IdView,
    units: Seq<Option<Seq<char>>>,
)
    ensures
        ({
            let all = written_records(t, l, cells, plan, units);
            &&& all.len() == t.rows.len() + cells.len()
            &&& plan.rewritten is None ==> forall|i: int|
                0 <= i < t.rows.len() ==> #[trigger] all[i] == t.rows[i]
            &&& forall|k: int|
                0 <= k < cells.len() ==> #[trigger] all[t.rows.len() + k] == new_record(
                    t,
                    l,
                    cells[k],
                    k as nat,
                    plan,
                    units[k],
                )
        }),
{
}

/// A target is one term: a formula of more or less is refused.
pub proof fn targets_are_single_terms(src: Seq<char>, names: Seq<Seq<char>>)
    ensures
        target_of(src, names) is Ok <==> model_of(src, names) is Ok && model_of(
            src,
            names,
        )->Ok_0.terms.len() == 1,
        target_of(src, names) matches Ok(label) ==> label == term_label(
            model_of(src, names)->Ok_0.terms[0],
            names,
        ),
{
}

/// All targets are met where one is and the others are; no target is met at once.
pub proof fn targets_are_met_one_by_one(e: EstimabilityView, terms: Seq<usize>, t: usize)
    ensures
        super::progress::all_met(e, Seq::empty()),
        super::progress::all_met(e, terms.push(t)) <==> super::progress::all_met(e, terms)
            && e.terms[t as int].estimable,
{
    let more = terms.push(t);
    if super::progress::all_met(e, more) {
        assert(more[terms.len() as int] == t);
        assert(e.terms[more[terms.len() as int] as int].estimable);
        assert forall|k: int| 0 <= k < terms.len() implies e.terms[#[trigger] terms[k] as int].estimable by {
            assert(more[k] == terms[k]);
            assert(e.terms[more[k] as int].estimable);
        }
    }
}

/// A combination is a cell of its first places, the factors, and the others, the
/// roles.
pub proof fn combinations_hold_factors_first(a: Seq<usize>, b: Seq<usize>)
    ensures
        super::candidates::split(a + b, a.len()) == (CellView { factors: a, roles: b }),
{
    assert((a + b).take(a.len() as int) =~= a);
    assert((a + b).skip(a.len() as int) =~= b);
}

/// A unit's key has the levels of the factors and roles that it names, in its own
/// order.
pub proof fn unit_keys_have_the_named_levels(
    c: CellView,
    unit: UnitView,
    factors: Seq<FactorView>,
    roles: Seq<RoleView>,
    k: int,
    n: int,
)
    requires
        0 <= k < unit.key.len(),
    ensures
        key_for(c, unit, factors, roles).len() == unit.key.len(),
        0 <= n < factors.len() && factors[n].name == unit.key[k] && (forall|f: int|
            0 <= f < n ==> (#[trigger] factors[f]).name != unit.key[k]) ==> key_for(
            c,
            unit,
            factors,
            roles,
        )[k] == c.factors[n],
        0 <= n < roles.len() && roles[n].name == unit.key[k] && (forall|r: int|
            0 <= r < n ==> (#[trigger] roles[r]).name != unit.key[k]) && (forall|f: int|
            0 <= f < factors.len() ==> (#[trigger] factors[f]).name != unit.key[k]) ==> key_for(
            c,
            unit,
            factors,
            roles,
        )[k] == c.roles[n],
{
    let fnames = factor_names(factors);
    let rnames = role_names(roles);
    let name = unit.key[k];
    names_are_found_first(fnames, name, 0);
    names_are_found_first(rnames, name, 0);
    assert forall|f: int| 0 <= f < factors.len() implies #[trigger] fnames[f] == factors[f].name by {}
    assert forall|r: int| 0 <= r < roles.len() implies #[trigger] rnames[r] == roles[r].name by {}
    if 0 <= n < factors.len() {
        assert(fnames[n] == factors[n].name);
    }
    if 0 <= n < roles.len() {
        assert(rnames[n] == roles[n].name);
    }
    if let Some(f) = name_index(fnames, name, 0) {
        assert(fnames[f as int] == factors[f as int].name);
    }
    if let Some(r) = name_index(rnames, name, 0) {
        assert(rnames[r as int] == roles[r as int].name);
    }
}

/// A run is looked up by its id: the last that has it, and none only where none
/// has.
pub proof fn runs_are_found_by_their_id(runs: Seq<RunView>, id: Seq<char>, n: nat)
    requires
        n <= runs.len(),
    ensures
        super::ids::run_with_id(runs, id, n) is None <==> forall|i: int|
            0 <= i < n ==> (#[trigger] runs[i]).run_id != id,
        super::ids::run_with_id(runs, id, n) matches Some(run) ==> run.run_id == id && exists|i: int|
            0 <= i < n && #[trigger] runs[i] == run && forall|j: int|
                i < j < n ==> (#[trigger] runs[j]).run_id != id,
    decreases n,
{
    if n > 0 {
        runs_are_found_by_their_id(runs, id, (n - 1) as nat);
        if runs[n - 1].run_id == id {
            assert(runs[n - 1] == runs[n - 1]);
        }
    }
}

} // verus!
