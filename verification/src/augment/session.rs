//! The two ends of an augmentation: what it builds on, and what it writes.
use vstd::prelude::*;

use super::ids::{
    collect_units, next_number, plan_ids, plan_of, sequence_fits, top_order, unit_numbers_fit,
    unit_numbers_in_range, units_of, IdPlan, IdView, Units, UnitsView,
};
use super::output::{
    added_unit, assign_units, augmented_records, augmented_runs, experiments_fit,
    experiments_in_range, kept_record, new_record, record_augmentation, unit_texts,
};
use super::table::{base_cells, base_of, layout_of, near_views, table_wf, Layout, Table, TableView};
use super::targets::{
    added_terms, target_labels, targets_of, undeclared, union_model, working_model,
};
use crate::construct::types::{optional_text, optional_unit, run_views, Design, RunView};
use crate::error::Error;
use crate::model::formula::{factor_names, model_views, model_wf, Model, ModelView};
use crate::model::matrix::{cell_views, cells_wf, Cell, CellView, UnitView};
use crate::text::views;

verus! {

/// What an augmentation builds on.
pub struct Opening {
    /// The cells of the rows that count.
    pub base: Vec<Cell>,
    /// How many rows await their results.
    pub pending: usize,
    /// The labels of the requested terms.
    pub labels: Vec<String>,
    pub model: Model,
    /// The requested terms that no formula of the design asks for.
    pub noted: Vec<String>,
}

/// The model of an opening.
#[verifier::ext_equal]
pub struct OpeningView {
    pub base: Seq<CellView>,
    pub pending: nat,
    pub labels: Seq<Seq<char>>,
    pub model: ModelView,
    pub noted: Seq<Seq<char>>,
}

impl View for Opening {
    type V = OpeningView;

    open spec fn view(&self) -> OpeningView {
        OpeningView {
            base: cell_views(self.base@),
            pending: self.pending as nat,
            labels: views(self.labels@),
            model: self.model@,
            noted: views(self.noted@),
        }
    }
}

/// The opening of an augmentation, or the first message: of a row that cannot be
/// read, then of a requested term, then of the model.
pub open spec fn opening_for(
    t: TableView,
    l: Layout,
    near: Seq<Seq<Seq<bool>>>,
    models: Seq<ModelView>,
    targets: Seq<Seq<char>>,
    with_pending: bool,
) -> Result<OpeningView, Seq<char>> {
    let names = factor_names(l.factors);
    match base_of(t, l, near, with_pending, t.rows.len()) {
        Err(m) => Err(m),
        Ok((base, pending)) => match targets_of(targets, names, targets.len()) {
            Err(m) => Err(m),
            Ok(labels) => match working_model(models, names, labels) {
                Err(m) => Err(m),
                Ok(model) => Ok(
                    OpeningView {
                        base,
                        pending,
                        labels,
                        model,
                        noted: if models.len() == 0 {
                            Seq::empty()
                        } else {
                            undeclared(labels, models, names, labels.len())
                        },
                    },
                ),
            },
        },
    }
}

/// Reads what an augmentation builds on. Completed rows form the base; pending
/// rows join only on request. A design without formulas has none to note.
pub fn open_augmentation(
    table: &Table,
    design: &Design,
    near: &Vec<Vec<Vec<bool>>>,
    targets: &Vec<String>,
    with_pending: bool,
) -> (r: Result<Opening, Error>)
    requires
        table_wf(table@, layout_of(*design)),
        forall|i: int|
            0 <= i < design.models@.len() ==> model_wf(
                #[trigger] model_views(design.models@)[i],
                design.factors@.len(),
            ),
    ensures
        match r {
            Ok(o) => opening_for(
                table@,
                layout_of(*design),
                near_views(near@),
                model_views(design.models@),
                views(targets@),
                with_pending,
            ) == Ok::<OpeningView, Seq<char>>(o@) && model_wf(o.model@, design.factors@.len())
                && cells_wf(
                cell_views(o.base@),
                layout_of(*design).factors,
                layout_of(*design).roles,
            ),
            Err(e) => opening_for(
                table@,
                layout_of(*design),
                near_views(near@),
                model_views(design.models@),
                views(targets@),
                with_pending,
            ) == Err::<OpeningView, Seq<char>>(e@),
        },
{
    assert(table@.rows.len() == table.rows@.len());
    assert(views(targets@).len() == targets@.len());
    assert(model_views(design.models@).len() == design.models@.len());
    let (base, pending) = match base_cells(table, design, near, with_pending) {
        Err(e) => {
            return Err(e);
        },
        Ok(b) => b,
    };
    let labels: Vec<String> = match target_labels(targets, &design.factors) {
        Err(e) => {
            return Err(e);
        },
        Ok(l) => l,
    };
    let model: Model = match union_model(&design.models, &design.factors, &labels) {
        Err(e) => {
            return Err(e);
        },
        Ok(m) => m,
    };
    assert(views(labels@).len() == labels@.len());
    let noted: Vec<String> = if design.models.len() == 0 {
        Vec::new()
    } else {
        added_terms(&labels, &design.models, &design.factors)
    };
    assert(design.models@.len() == 0 ==> views(noted@) =~= Seq::empty());
    Ok(Opening { base, pending, labels, model, noted })
}

/// The machine can number the runs, the units and the rows that are added.
pub open spec fn room_for(t: TableView, runs: Seq<RunView>, units: bool, added: nat) -> bool {
    &&& next_number(t, runs) + added <= usize::MAX
    &&& top_order(t, runs) + added < usize::MAX
    &&& experiments_fit(t, added)
    &&& units ==> unit_numbers_fit(t, runs, added)
}

/// Whether the machine can number what is added.
pub fn has_room(table: &Table, design: &Design, n_add: usize) -> (r: bool)
    ensures
        r == room_for(table@, run_views(design.runs@), design.unit is Some, n_add as nat),
{
    sequence_fits(table, &design.runs, n_add) && experiments_in_range(table, n_add) && (
    design.unit.is_none() || unit_numbers_in_range(table, &design.runs, n_add))
}

/// What an augmentation writes.
pub struct WriteUp {
    /// The rows of the table, the kept ones first.
    pub records: Vec<Vec<String>>,
    pub plan: IdPlan,
    /// The design with the added runs.
    pub design: Design,
}

/// The units of the added cells.
pub open spec fn added_units(
    units: UnitsView,
    cells: Seq<CellView>,
    unit: Option<UnitView>,
    l: Layout,
) -> Seq<Option<Seq<char>>> {
    Seq::new(cells.len(), |k: int| added_unit(units, cells, unit, l.factors, l.roles, k))
}

/// The rows that are written: every row of the table, then one for each added
/// cell.
pub open spec fn written_records(
    t: TableView,
    l: Layout,
    cells: Seq<CellView>,
    plan: IdView,
    units: Seq<Option<Seq<char>>>,
) -> Seq<Seq<Seq<char>>> {
    Seq::new(t.rows.len(), |i: int| kept_record(t, plan, i)) + Seq::new(
        cells.len(),
        |k: int| new_record(t, l, cells[k], k as nat, plan, units[k]),
    )
}

/// The ids and the units that an augmentation writes, or the first message: of
/// the run ids, then of the units.
pub open spec fn numbering(
    t: TableView,
    l: Layout,
    near: Seq<Seq<Seq<bool>>>,
    runs: Seq<RunView>,
    unit: Option<UnitView>,
    cells: Seq<CellView>,
) -> Result<(IdView, Seq<Option<Seq<char>>>), Seq<char>> {
    match plan_of(t, runs, cells.len()) {
        Err(m) => Err(m),
        Ok(plan) => match units_of(t, l, runs, near, unit) {
            Err(m) => Err(m),
            Ok(units) => Ok((plan, added_units(units, cells, unit, l))),
        },
    }
}

/// The views of written rows.
pub open spec fn record_views(records: Seq<Vec<String>>) -> Seq<Seq<Seq<char>>> {
    records.map_values(|r: Vec<String>| views(r@))
}

/// Writes an augmentation up: numbers the added runs, gives them units, and
/// appends them to the table and to the design.
pub fn write_up(
    table: &Table,
    design: Design,
    near: &Vec<Vec<Vec<bool>>>,
    cells: &Vec<Cell>,
    seed: u64,
    targets: Vec<String>,
) -> (r: Result<WriteUp, Error>)
    requires
        table_wf(table@, layout_of(design)),
        cells_wf(cell_views(cells@), layout_of(design).factors, layout_of(design).roles),
        room_for(table@, run_views(design.runs@), design.unit is Some, cells@.len()),
    ensures
        match (
            r,
            numbering(
                table@,
                layout_of(design),
                near_views(near@),
                run_views(design.runs@),
                optional_unit(design.unit),
                cell_views(cells@),
            ),
        ) {
            (Ok(w), Ok((plan, units))) => {
                let d = w.design;
                &&& w.plan@ == plan
                &&& record_views(w.records@) == written_records(
                    table@,
                    layout_of(design),
                    cell_views(cells@),
                    plan,
                    units,
                )
                &&& run_views(d.runs@) == augmented_runs(
                    run_views(design.runs@),
                    layout_of(design),
                    cell_views(cells@),
                    plan,
                    units,
                )
                &&& d.augmentations@.len() == design.augmentations@.len() + 1
                &&& d.augmentations@.drop_last() == design.augmentations@
                &&& d.augmentations@.last().seed == seed
                &&& d.augmentations@.last().targets == targets
                &&& views(d.augmentations@.last().run_ids@) == plan.new_ids
                &&& d.version == design.version
                &&& d.factors == design.factors
                &&& d.results == design.results
                &&& d.models == design.models
                &&& d.replicates == design.replicates
                &&& d.unit == design.unit
                &&& d.array == design.array
                &&& d.randomization_seed == design.randomization_seed
                &&& d.estimability == design.estimability
            },
            (Err(e), Err(m)) => e@ == m,
            _ => false,
        },
{
    let ghost (tv, l, cv) = (table@, layout_of(design), cell_views(cells@));
    assert(tv.rows.len() == table.rows@.len());
    assert(cv.len() == cells@.len());
    let plan: IdPlan = match plan_ids(table, &design.runs, cells.len()) {
        Err(e) => {
            return Err(e);
        },
        Ok(p) => p,
    };
    assert(plan@.new_ids.len() == plan.new_ids@.len());
    assert(plan.rewritten matches Some(ids) ==> views(ids@).len() == ids@.len());
    let known: Units = match collect_units(table, &design, near) {
        Err(e) => {
            return Err(e);
        },
        Ok(u) => u,
    };
    let ghost kv = known@;
    let units: Vec<Option<String>> = assign_units(
        known,
        cells,
        &design.unit,
        &design.factors,
        &design.replicates,
    );
    let ghost uv = added_units(kv, cv, optional_unit(design.unit), l);
    assert(unit_texts(units@) =~= uv);
    let records: Vec<Vec<String>> = augmented_records(table, &design, cells, &plan, &units);
    assert(record_views(records@) =~= written_records(tv, l, cv, plan@, uv)) by {
        assert forall|k: int| 0 <= k < cv.len() implies optional_text(units@[k]) == uv[k] by {
            assert(unit_texts(units@)[k] == uv[k]);
        }
        assert forall|j: int| 0 <= j < records@.len() implies record_views(records@)[j]
            == written_records(tv, l, cv, plan@, uv)[j] by {
            if j >= tv.rows.len() {
                assert(records@[tv.rows.len() + (j - tv.rows.len())] == records@[j]);
            }
        }
    }
    let design: Design = record_augmentation(design, cells, &plan, &units, seed, targets);
    Ok(WriteUp { records, plan, design })
}

} // verus!
