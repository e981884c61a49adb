//! The rows and runs that an augmentation writes.
use vstd::prelude::*;

use super::ids::{
    id_for, key_for, numbers_in, parse_id, repadded, top_in_column, top_of, unit_key, with_keys,
    IdPlan, IdView, Units, UnitsView,
};
use super::table::{layout_of, table_wf, Layout, Table, TableView};
use crate::construct::plan::{
    factor_settings, role_settings, settings_of_factors, settings_of_roles,
};
use crate::construct::types::{
    optional_text, optional_unit, run_views, Augmentation, Design, Run, RunView, Setting, setting_views,
};
use crate::factor::{factor_views, value_text, Factor, FactorView};
use crate::model::estimability::{Estimability, EstimabilityView, TermView};
use crate::model::formula::{factor_names, term_label, term_wf};
use crate::model::matrix::{
    cell_views, cell_wf, cells_wf, role_views, Cell, CellView, ReplicateRole, RoleView, Unit,
    UnitView,
};
use crate::text::{
    decimal, decimal_text, join, left_aligned, padded, padded_text, push_decimal, push_left_aligned,
    push_right_aligned, right_aligned, separated, views,
};

verus! {

/// The experiment number of the first added row, where the table numbers its
/// rows.
pub open spec fn next_experiment_of(t: TableView) -> Option<nat> {
    match t.experiment_col {
        Some(c) => Some(top_of(numbers_in(t, c), t.rows.len(), t.rows.len()) + 1),
        None => None,
    }
}

/// The experiment numbers of added rows fit the machine.
pub open spec fn experiments_fit(t: TableView, added: nat) -> bool {
    next_experiment_of(t) matches Some(n) ==> n + added <= usize::MAX
}

/// Whether the experiment numbers of added rows fit the machine.
pub fn experiments_in_range(table: &Table, n_add: usize) -> (r: bool)
    ensures
        r == experiments_fit(table@, n_add as nat),
{
    match table.experiment_col {
        Some(c) => {
            let top: usize = top_in_column(table, c);
            n_add < usize::MAX && top < usize::MAX - n_add
        },
        None => true,
    }
}

/// The experiment number of the first added row.
pub fn next_experiment(table: &Table) -> (r: Option<usize>)
    requires
        experiments_fit(table@, 0),
    ensures
        match r {
            Some(n) => next_experiment_of(table@) == Some(n as nat),
            None => next_experiment_of(table@) is None,
        },
{
    match table.experiment_col {
        Some(c) => Some(top_in_column(table, c) + 1),
        None => None,
    }
}

/// The first place of a column in a list, from `i` on.
pub open spec fn place_of(cols: Seq<usize>, col: usize, i: nat) -> Option<nat>
    decreases cols.len() - i,
{
    if i >= cols.len() {
        None
    } else if cols[i as int] == col {
        Some(i)
    } else {
        place_of(cols, col, i + 1)
    }
}

/// What an added row shows in a column. Result cells stay empty, and so does any
/// column that the design does not own.
pub open spec fn new_text(
    t: TableView,
    l: Layout,
    cell: CellView,
    col: usize,
    k: nat,
    plan: IdView,
    unit: Option<Seq<char>>,
) -> Seq<char> {
    if t.run_id_col == Some(col) {
        plan.new_ids[k as int]
    } else if t.order_col == Some(col) {
        decimal(plan.new_orders[k as int] as nat)
    } else if t.experiment_col == Some(col) {
        decimal((next_experiment_of(t)->0 + k) as nat)
    } else if t.unit_col == Some(col) {
        match unit {
            Some(s) => s,
            None => Seq::empty(),
        }
    } else {
        match place_of(t.factor_col, col, 0) {
            Some(f) => value_text(l.factors[f as int].values[cell.factors[f as int] as int]),
            None => match place_of(t.role_col, col, 0) {
                Some(r) => value_text(l.roles[r as int].levels[cell.roles[r as int] as int]),
                None => Seq::empty(),
            },
        }
    }
}

/// An added row.
pub open spec fn new_record(
    t: TableView,
    l: Layout,
    cell: CellView,
    k: nat,
    plan: IdView,
    unit: Option<Seq<char>>,
) -> Seq<Seq<char>> {
    Seq::new(t.headers.len(), |c: int| new_text(t, l, cell, c as usize, k, plan, unit))
}

/// A row that was there before: as it was, but for its run id where the ids were
/// widened.
pub open spec fn kept_record(t: TableView, plan: IdView, row: int) -> Seq<Seq<char>> {
    match (plan.rewritten, t.run_id_col) {
        (Some(ids), Some(col)) => if col < t.rows[row].len() {
            t.rows[row].update(col as int, ids[row])
        } else {
            t.rows[row]
        },
        _ => t.rows[row],
    }
}

/// Unless ids are widened, every row that was there before is written as it was.
pub proof fn rows_are_kept_verbatim(t: TableView, plan: IdView, row: int)
    requires
        plan.rewritten is None,
    ensures
        kept_record(t, plan, row) == t.rows[row],
{
}

/// Widening changes no cell but the run id.
pub proof fn widening_changes_ids_only(t: TableView, plan: IdView, row: int, col: int)
    requires
        0 <= col < t.rows[row].len(),
        t.run_id_col != Some(col as usize) || col > usize::MAX,
    ensures
        kept_record(t, plan, row).len() == t.rows[row].len(),
        kept_record(t, plan, row)[col] == t.rows[row][col],
{
}

fn find_place(cols: &Vec<usize>, col: usize) -> (r: Option<usize>)
    ensures
        match r {
            Some(i) => place_of(cols@, col, 0) == Some(i as nat) && i < cols@.len(),
            None => place_of(cols@, col, 0) is None,
        },
{
    let mut i: usize = 0;
    while i < cols.len()
        invariant
            i <= cols@.len(),
            place_of(cols@, col, 0) == place_of(cols@, col, i as nat),
        decreases cols@.len() - i,
    {
        if cols[i] == col {
            return Some(i);
        }
        i = i + 1;
    }
    None
}

fn is_column(c: Option<usize>, col: usize) -> (r: bool)
    ensures
        r == (c == Some(col)),
{
    match c {
        Some(x) => x == col,
        None => false,
    }
}

/// What an added row shows in a column.
pub fn new_cell_text(
    table: &Table,
    design: &Design,
    cell: &Cell,
    col: usize,
    k: usize,
    plan: &IdPlan,
    unit: &Option<String>,
) -> (s: String)
    requires
        table_wf(table@, layout_of(*design)),
        cell_wf(cell@, layout_of(*design).factors, layout_of(*design).roles),
        k < plan.new_ids@.len(),
        k < plan.new_orders@.len(),
        experiments_fit(table@, k as nat),
    ensures
        s@ == new_text(
            table@,
            layout_of(*design),
            cell@,
            col,
            k as nat,
            plan@,
            optional_text(*unit),
        ),
{
    let ghost (tv, l) = (table@, layout_of(*design));
    if is_column(table.run_id_col, col) {
        assert(plan@.new_ids[k as int] == plan.new_ids@[k as int]@);
        return plan.new_ids[k].clone();
    }
    if is_column(table.order_col, col) {
        return decimal_text(plan.new_orders[k]);
    }
    if is_column(table.experiment_col, col) {
        return match next_experiment(table) {
            Some(n) => decimal_text(n + k),
            None => String::new(),
        };
    }
    if is_column(table.unit_col, col) {
        return match unit {
            Some(u) => u.clone(),
            None => {
                let s: String = String::new();
                assert(s@ =~= Seq::empty());
                s
            },
        };
    }
    match find_place(&table.factor_col, col) {
        Some(f) => {
            assert(l.factors[f as int] == design.factors@[f as int]@);
            assert(cell@.factors[f as int] < l.factors[f as int].values.len());
            design.factors[f].values[cell.factor_levels[f]].to_text()
        },
        None => match find_place(&table.role_col, col) {
            Some(r) => {
                assert(l.roles[r as int] == design.replicates@[r as int]@);
                assert(cell@.roles[r as int] < l.roles[r as int].levels.len());
                design.replicates[r].levels[cell.replicate_levels[r]].to_text()
            },
            None => {
                let s: String = String::new();
                assert(s@ =~= Seq::empty());
                s
            },
        },
    }
}

/// An added row.
pub fn added_record(
    table: &Table,
    design: &Design,
    cell: &Cell,
    k: usize,
    plan: &IdPlan,
    unit: &Option<String>,
) -> (out: Vec<String>)
    requires
        table_wf(table@, layout_of(*design)),
        cell_wf(cell@, layout_of(*design).factors, layout_of(*design).roles),
        k < plan.new_ids@.len(),
        k < plan.new_orders@.len(),
        experiments_fit(table@, k as nat),
    ensures
        views(out@) == new_record(
            table@,
            layout_of(*design),
            cell@,
            k as nat,
            plan@,
            optional_text(*unit),
        ),
{
    let ghost (tv, l) = (table@, layout_of(*design));
    let mut out: Vec<String> = Vec::new();
    let mut c: usize = 0;
    while c < table.headers.len()
        invariant
            c <= table.headers@.len(),
            tv == table@,
            l == layout_of(*design),
            table_wf(tv, l),
            cell_wf(cell@, l.factors, l.roles),
            k < plan.new_ids@.len(),
            k < plan.new_orders@.len(),
            experiments_fit(tv, k as nat),
            out@.len() == c,
            forall|j: int|
                0 <= j < c ==> (#[trigger] out@[j])@ == new_text(
                    tv,
                    l,
                    cell@,
                    j as usize,
                    k as nat,
                    plan@,
                    optional_text(*unit),
                ),
        decreases table.headers@.len() - c,
    {
        out.push(new_cell_text(table, design, cell, c, k, plan, unit));
        c = c + 1;
    }
    assert(views(out@) =~= new_record(tv, l, cell@, k as nat, plan@, optional_text(*unit)));
    out
}

fn copy_texts(row: &Vec<String>) -> (out: Vec<String>)
    ensures
        views(out@) == views(row@),
{
    let mut out: Vec<String> = Vec::new();
    let mut i: usize = 0;
    while i < row.len()
        invariant
            i <= row@.len(),
            out@.len() == i,
            forall|k: int| 0 <= k < i ==> (#[trigger] out@[k])@ == row@[k]@,
        decreases row@.len() - i,
    {
        out.push(row[i].clone());
        i = i + 1;
    }
    assert(views(out@) =~= views(row@));
    out
}

/// A row that was there before.
pub fn original_record(table: &Table, plan: &IdPlan, row: usize) -> (out: Vec<String>)
    requires
        row < table.rows@.len(),
        plan.rewritten matches Some(ids) ==> ids@.len() == table.rows@.len(),
    ensures
        views(out@) == kept_record(table@, plan@, row as int),
{
    let ghost tv = table@;
    assert(tv.rows[row as int] == views(table.rows@[row as int]@));
    let mut out: Vec<String> = copy_texts(&table.rows[row]);
    assert(views(out@).len() == out@.len());
    match (&plan.rewritten, table.run_id_col) {
        (Some(ids), Some(col)) => {
            if col < out.len() {
                let ghost before = views(out@);
                assert(plan@.rewritten->0[row as int] == ids@[row as int]@);
                out.set(col, ids[row].clone());
                assert(views(out@) =~= before.update(col as int, ids@[row as int]@));
            }
        },
        _ => {},
    }
    out
}

/// The keys of the added cells.
pub open spec fn keys_of(
    cells: Seq<CellView>,
    unit: UnitView,
    factors: Seq<FactorView>,
    roles: Seq<RoleView>,
) -> Seq<Seq<usize>> {
    cells.map_values(|c: CellView| key_for(c, unit, factors, roles))
}

/// The unit of the `k`-th added cell: one that is in use where the key has one.
pub open spec fn added_unit(
    units: UnitsView,
    cells: Seq<CellView>,
    unit: Option<UnitView>,
    factors: Seq<FactorView>,
    roles: Seq<RoleView>,
    k: int,
) -> Option<Seq<char>> {
    match unit {
        None => None,
        Some(u) => {
            let keys = keys_of(cells, u, factors, roles);
            Some(id_for(with_keys(units, keys, k as nat), keys[k]))
        },
    }
}

/// The units of the added cells.
pub fn assign_units(
    units: Units,
    cells: &Vec<Cell>,
    unit: &Option<Unit>,
    factors: &[Factor],
    roles: &[ReplicateRole],
) -> (out: Vec<Option<String>>)
    requires
        units.wf(),
        unit is Some ==> units.next + cells@.len() < usize::MAX,
        cells_wf(cell_views(cells@), factor_views(factors@), role_views(roles@)),
    ensures
        out@.len() == cells@.len(),
        forall|k: int|
            0 <= k < out@.len() ==> optional_text(#[trigger] out@[k]) == added_unit(
                units@,
                cell_views(cells@),
                optional_unit(*unit),
                factor_views(factors@),
                role_views(roles@),
                k,
            ),
{
    let ghost (cv, fv, rv) = (cell_views(cells@), factor_views(factors@), role_views(roles@));
    let ghost start = units@;
    let ghost first = units.next;
    let mut units: Units = units;
    let mut out: Vec<Option<String>> = Vec::new();
    match unit {
        None => {
            let mut k: usize = 0;
            while k < cells.len()
                invariant
                    k <= cells@.len(),
                    out@.len() == k,
                    forall|j: int| 0 <= j < k ==> optional_text(#[trigger] out@[j]) is None,
                decreases cells@.len() - k,
            {
                out.push(None);
                k = k + 1;
            }
        },
        Some(u) => {
            let ghost keys = keys_of(cv, u@, fv, rv);
            let mut k: usize = 0;
            while k < cells.len()
                invariant
                    k <= cells@.len(),
                    cv == cell_views(cells@),
                    fv == factor_views(factors@),
                    rv == role_views(roles@),
                    keys == keys_of(cv, u@, fv, rv),
                    cells_wf(cv, fv, rv),
                    units.wf(),
                    units.next <= first + k,
                    first + cells@.len() < usize::MAX,
                    units@ == with_keys(start, keys, k as nat),
                    out@.len() == k,
                    forall|j: int|
                        0 <= j < k ==> optional_text(#[trigger] out@[j]) == added_unit(
                            start,
                            cv,
                            Some(u@),
                            fv,
                            rv,
                            j,
                        ),
                decreases cells@.len() - k,
            {
                assert(cv[k as int] == cells@[k as int]@);
                assert(cell_wf(cv[k as int], fv, rv));
                let key: Vec<usize> = unit_key(&cells[k], u, factors, roles);
                assert(key@ == keys[k as int]);
                let id: String = units.get_or_make(key);
                out.push(Some(id));
                k = k + 1;
            }
        },
    }
    out
}

/// The rows of the augmented table: those that were there, then the added ones.
pub fn augmented_records(
    table: &Table,
    design: &Design,
    cells: &Vec<Cell>,
    plan: &IdPlan,
    units: &Vec<Option<String>>,
) -> (out: Vec<Vec<String>>)
    requires
        table_wf(table@, layout_of(*design)),
        cells_wf(
            cell_views(cells@),
            layout_of(*design).factors,
            layout_of(*design).roles,
        ),
        plan.new_ids@.len() == cells@.len(),
        plan.new_orders@.len() == cells@.len(),
        units@.len() == cells@.len(),
        plan.rewritten matches Some(ids) ==> ids@.len() == table.rows@.len(),
        experiments_fit(table@, cells@.len()),
    ensures
        out@.len() == table.rows@.len() + cells@.len(),
        forall|i: int|
            0 <= i < table.rows@.len() ==> views((#[trigger] out@[i])@) == kept_record(
                table@,
                plan@,
                i,
            ),
        forall|k: int|
            0 <= k < cells@.len() ==> views((#[trigger] out@[table.rows@.len() + k])@)
                == new_record(
                table@,
                layout_of(*design),
                cell_views(cells@)[k],
                k as nat,
                plan@,
                optional_text(units@[k]),
            ),
{
    let ghost (tv, l, cv) = (table@, layout_of(*design), cell_views(cells@));
    let n: usize = table.rows.len();
    let mut out: Vec<Vec<String>> = Vec::new();
    let mut i: usize = 0;
    while i < n
        invariant
            i <= n,
            n == table.rows@.len(),
            tv == table@,
            plan.rewritten matches Some(ids) ==> ids@.len() == table.rows@.len(),
            out@.len() == i,
            forall|j: int|
                0 <= j < i ==> views((#[trigger] out@[j])@) == kept_record(tv, plan@, j),
        decreases n - i,
    {
        out.push(original_record(table, plan, i));
        i = i + 1;
    }
    let mut k: usize = 0;
    while k < cells.len()
        invariant
            k <= cells@.len(),
            n == table.rows@.len(),
            tv == table@,
            l == layout_of(*design),
            cv == cell_views(cells@),
            table_wf(tv, l),
            cells_wf(cv, l.factors, l.roles),
            plan.new_ids@.len() == cells@.len(),
            plan.new_orders@.len() == cells@.len(),
            units@.len() == cells@.len(),
            experiments_fit(tv, cells@.len()),
            out@.len() == n + k,
            forall|j: int|
                0 <= j < n ==> views((#[trigger] out@[j])@) == kept_record(tv, plan@, j),
            forall|j: int|
                0 <= j < k ==> views((#[trigger] out@[n + j])@) == new_record(
                    tv,
                    l,
                    cv[j],
                    j as nat,
                    plan@,
                    optional_text(units@[j]),
                ),
        decreases cells@.len() - k,
    {
        assert(cv[k as int] == cells@[k as int]@);
        assert(cell_wf(cv[k as int], l.factors, l.roles));
        out.push(added_record(table, design, &cells[k], k, plan, &units[k]));
        k = k + 1;
    }
    out
}

// ===== Runs =====

/// An added run.
pub open spec fn new_run(
    l: Layout,
    cell: CellView,
    k: nat,
    plan: IdView,
    unit: Option<Seq<char>>,
) -> RunView {
    RunView {
        run_id: plan.new_ids[k as int],
        order: plan.new_orders[k as int] as nat,
        design_row: usize::MAX as nat,
        factors: factor_settings(l.factors, cell.factors),
        replicates: role_settings(l.roles, cell.roles),
        unit,
    }
}

/// A run that was there before, its id in the new width where ids were widened.
pub open spec fn kept_run(run: RunView, plan: IdView) -> RunView {
    if plan.rewritten is Some {
        RunView { run_id: repadded(run.run_id, plan.width), ..run }
    } else {
        run
    }
}

/// The runs of the design with the added ones behind.
pub open spec fn augmented_runs(
    runs: Seq<RunView>,
    l: Layout,
    cells: Seq<CellView>,
    plan: IdView,
    units: Seq<Option<Seq<char>>>,
) -> Seq<RunView> {
    runs.map_values(|r: RunView| kept_run(r, plan)) + Seq::new(
        cells.len(),
        |k: int| new_run(l, cells[k], k as nat, plan, units[k]),
    )
}

pub open spec fn unit_texts(units: Seq<Option<String>>) -> Seq<Option<Seq<char>>> {
    units.map_values(|u: Option<String>| optional_text(u))
}

fn copy_optional(s: &Option<String>) -> (out: Option<String>)
    ensures
        optional_text(out) == optional_text(*s),
{
    match s {
        Some(t) => Some(t.clone()),
        None => None,
    }
}

/// Records an augmentation in the design: the added runs, ids in the new width
/// where they were widened, and what was added for which targets.
pub fn record_augmentation(
    design: Design,
    cells: &Vec<Cell>,
    plan: &IdPlan,
    units: &Vec<Option<String>>,
    seed: u64,
    targets: Vec<String>,
) -> (d: Design)
    requires
        cells_wf(
            cell_views(cells@),
            layout_of(design).factors,
            layout_of(design).roles,
        ),
        plan.new_ids@.len() == cells@.len(),
        plan.new_orders@.len() == cells@.len(),
        units@.len() == cells@.len(),
    ensures
        run_views(d.runs@) == augmented_runs(
            run_views(design.runs@),
            layout_of(design),
            cell_views(cells@),
            plan@,
            unit_texts(units@),
        ),
        d.augmentations@.len() == design.augmentations@.len() + 1,
        d.augmentations@.drop_last() == design.augmentations@,
        d.augmentations@.last().seed == seed,
        d.augmentations@.last().targets == targets,
        views(d.augmentations@.last().run_ids@) == plan@.new_ids,
        d.version == design.version,
        d.factors == design.factors,
        d.results == design.results,
        d.models == design.models,
        d.replicates == design.replicates,
        d.unit == design.unit,
        d.array == design.array,
        d.randomization_seed == design.randomization_seed,
        d.estimability == design.estimability,
{
    let ghost l = layout_of(design);
    let ghost old_runs = run_views(design.runs@);
    let ghost cv = cell_views(cells@);
    let ghost pv = plan@;
    let mut d: Design = design;
    let widened: bool = plan.rewritten.is_some();
    let ghost original = d.runs@;
    let mut runs: Vec<Run> = Vec::new();
    let mut i: usize = 0;
    while i < d.runs.len()
        invariant
            i <= d.runs@.len(),
            d == design,
            pv == plan@,
            widened == (pv.rewritten is Some),
            old_runs == run_views(d.runs@),
            runs@.len() == i,
            forall|k: int| 0 <= k < i ==> (#[trigger] runs@[k])@ == kept_run(old_runs[k], pv),
        decreases d.runs@.len() - i,
    {
        let run: &Run = &d.runs[i];
        assert(old_runs[i as int] == run@);
        let run_id: String = if widened {
            match parse_id('r', run.run_id.as_str()) {
                Some((n, _)) => {
                    let mut s: String = String::new();
                    s.append("r");
                    let t: String = padded_text(n as u64, plan.width);
                    s.append(t.as_str());
                    assert(s@ =~= "r"@ + padded(n as nat, pv.width));
                    s
                },
                None => run.run_id.clone(),
            }
        } else {
            run.run_id.clone()
        };
        let kept: Run = Run {
            run_id,
            order: run.order,
            design_row: run.design_row,
            factors: copy_settings(&run.factors),
            replicates: copy_settings(&run.replicates),
            unit: copy_optional(&run.unit),
        };
        assert(kept@ =~= kept_run(old_runs[i as int], pv));
        runs.push(kept);
        i = i + 1;
    }
    let ghost kept_views = old_runs.map_values(|r: RunView| kept_run(r, pv));
    assert(run_views(runs@) =~= kept_views);
    let ghost added = Seq::new(
        cv.len(),
        |k: int| new_run(l, cv[k], k as nat, pv, unit_texts(units@)[k]),
    );
    let mut k: usize = 0;
    assert(kept_views + added.take(0) =~= kept_views);
    while k < cells.len()
        invariant
            k <= cells@.len(),
            d == design,
            l == layout_of(d),
            cv == cell_views(cells@),
            pv == plan@,
            cells_wf(cv, l.factors, l.roles),
            plan.new_ids@.len() == cells@.len(),
            plan.new_orders@.len() == cells@.len(),
            units@.len() == cells@.len(),
            added == Seq::new(
                cv.len(),
                |k: int| new_run(l, cv[k], k as nat, pv, unit_texts(units@)[k]),
            ),
            run_views(runs@) == kept_views + added.take(k as int),
        decreases cells@.len() - k,
    {
        let cell: &Cell = &cells[k];
        assert(cv[k as int] == cell@);
        assert(cell_wf(cv[k as int], l.factors, l.roles));
        assert(pv.new_ids[k as int] == plan.new_ids@[k as int]@);
        assert forall|i: int| 0 <= i < d.factors@.len() implies (
        #[trigger] cell.factor_levels@[i]) < factor_views(d.factors@)[i].values.len() by {
            assert(cell@.factors[i] < l.factors[i].values.len());
        }
        assert forall|i: int| 0 <= i < d.replicates@.len() implies (
        #[trigger] cell.replicate_levels@[i]) < role_views(d.replicates@)[i].levels.len() by {
            assert(cell@.roles[i] < l.roles[i].levels.len());
        }
        let run: Run = Run {
            run_id: plan.new_ids[k].clone(),
            order: plan.new_orders[k],
            design_row: usize::MAX,
            factors: settings_of_factors(&d.factors, &cell.factor_levels),
            replicates: settings_of_roles(&d.replicates, &cell.replicate_levels),
            unit: copy_optional(&units[k]),
        };
        assert(run@ =~= added[k as int]);
        let ghost before = run_views(runs@);
        let ghost v = run@;
        runs.push(run);
        assert(run_views(runs@) =~= before.push(v));
        assert(kept_views + added.take(k + 1) =~= (kept_views + added.take(k as int)).push(
            added[k as int],
        ));
        k = k + 1;
    }
    assert(added.take(k as int) =~= added);
    let run_ids: Vec<String> = copy_texts(&plan.new_ids);
    d.runs = runs;
    let ghost before = d.augmentations@;
    d.augmentations.push(Augmentation { seed, targets, run_ids });
    assert(d.augmentations@.drop_last() =~= before);
    d
}

/// Equal settings.
pub fn copy_settings(s: &Vec<Setting>) -> (out: Vec<Setting>)
    ensures
        setting_views(out@) == setting_views(s@),
{
    let mut out: Vec<Setting> = Vec::new();
    let mut i: usize = 0;
    while i < s.len()
        invariant
            i <= s@.len(),
            out@.len() == i,
            forall|k: int| 0 <= k < i ==> (#[trigger] out@[k])@ == s@[k]@,
        decreases s@.len() - i,
    {
        out.push(
            Setting { name: s[i].name.clone(), value: s[i].value.copy() },
        );
        i = i + 1;
    }
    assert(setting_views(out@)
        =~= setting_views(s@));
    out
}

// ===== The report =====

/// The line of a term.
pub open spec fn status_line(t: TermView, names: Seq<Seq<char>>) -> Seq<char> {
    "  "@ + left_aligned(term_label(t.term, names), 16) + right_aligned(decimal(t.df), 3) + "  "@
        + left_aligned(
        if t.estimable {
            "yes"@
        } else {
            "no"@
        },
        9,
    ) + "  "@ + separated(t.aliased_with, ", "@) + "\n"@
}

/// The lines of the first `n` terms.
pub open spec fn status_lines(terms: Seq<TermView>, names: Seq<Seq<char>>, n: nat) -> Seq<char>
    decreases n,
{
    if n == 0 {
        Seq::empty()
    } else {
        status_lines(terms, names, (n - 1) as nat) + status_line(terms[n - 1], names)
    }
}

/// The report of what a design estimates.
pub open spec fn status_of(
    title: Seq<char>,
    e: EstimabilityView,
    names: Seq<Seq<char>>,
    has_blocks: bool,
) -> Seq<char> {
    title + "\nParams:   "@ + decimal(e.n_params) + "   rank: "@ + decimal(e.rank)
        + "   residual df: "@ + decimal(e.residual_df) + "   rows: "@ + decimal(e.n_rows) + "\n"@ + (
    if has_blocks {
        "Blocks:   "@ + (if e.blocks_estimable {
            "estimable"@
        } else {
            "not estimable"@
        }) + "\n"@
    } else {
        Seq::empty()
    }) + "  "@ + left_aligned("term"@, 16) + right_aligned("df"@, 3) + "  "@ + left_aligned(
        "estimable"@,
        9,
    ) + "  aliased with\n"@ + status_lines(e.terms, names, e.terms.len())
}

/// The report of what a design estimates.
pub fn estimability_text(title: &str, est: &Estimability, factors: &[Factor], has_blocks: bool) -> (out:
    String)
    requires
        forall|i: int|
            0 <= i < est@.terms.len() ==> term_wf((#[trigger] est@.terms[i]).term, factors@.len()),
    ensures
        out@ == status_of(title@, est@, factor_names(factor_views(factors@)), has_blocks),
{
    let ghost names = factor_names(factor_views(factors@));
    let ghost e = est@;
    let mut out: String = String::new();
    out.append(title);
    out.append("\nParams:   ");
    push_decimal(&mut out, est.n_params as u64);
    out.append("   rank: ");
    push_decimal(&mut out, est.rank as u64);
    out.append("   residual df: ");
    push_decimal(&mut out, est.residual_df as u64);
    out.append("   rows: ");
    push_decimal(&mut out, est.n_rows as u64);
    out.append("\n");
    if has_blocks {
        out.append("Blocks:   ");
        if est.blocks_estimable {
            out.append("estimable");
        } else {
            out.append("not estimable");
        }
        out.append("\n");
    }
    out.append("  ");
    push_left_aligned(&mut out, "term", 16);
    push_right_aligned(&mut out, "df", 3);
    out.append("  ");
    push_left_aligned(&mut out, "estimable", 9);
    out.append("  aliased with\n");
    let ghost head = out@;
    let mut i: usize = 0;
    assert(head + status_lines(e.terms, names, 0) =~= head);
    while i < est.terms.len()
        invariant
            i <= est.terms@.len(),
            e == est@,
            names == factor_names(factor_views(factors@)),
            forall|k: int|
                0 <= k < e.terms.len() ==> term_wf((#[trigger] e.terms[k]).term, factors@.len()),
            out@ == head + status_lines(e.terms, names, i as nat),
        decreases est.terms@.len() - i,
    {
        assert(e.terms[i as int] == est.terms@[i as int]@);
        assert(term_wf(e.terms[i as int].term, factors@.len()));
        let ghost before = out@;
        out.append("  ");
        let label: String = est.terms[i].term.label(factors);
        push_left_aligned(&mut out, label.as_str(), 16);
        let df: String = decimal_text(est.terms[i].df);
        push_right_aligned(&mut out, df.as_str(), 3);
        out.append("  ");
        if est.terms[i].estimable {
            push_left_aligned(&mut out, "yes", 9);
        } else {
            push_left_aligned(&mut out, "no", 9);
        }
        out.append("  ");
        let aliases: String = join(&est.terms[i].aliased_with, ", ");
        out.append(aliases.as_str());
        out.append("\n");
        assert(out@ =~= before + status_line(e.terms[i as int], names));
        assert(out@ =~= head + status_lines(e.terms, names, (i + 1) as nat));
        i = i + 1;
    }
    assert(out@ =~= status_of(title@, e, names, has_blocks));
    out
}

} // verus!
