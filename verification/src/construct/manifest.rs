//! What the table of a plan shows: stable run ids, and the cells of the design.
use vstd::prelude::*;

use super::plan::{
    header_of, lemma_setting_is_last, names_of_roles, record_of, run_of, runs_of, setting_text,
};
use super::types::{ParsedView, RunView};
use crate::augment::table::{
    axes_of, axis_columns, cell_text, column_of, columns_of, flag, flags_at, level_shown,
    row_levels, row_shown, shows, table_of, Layout,
};
use crate::csv_text::{rereadable, same_width, with_header};
use crate::factor::{value_text, ValueView};
use crate::model::formula::name_index;
use crate::model::matrix::{cells_wf, CellView};
use crate::text::{lemma_padded_value, padded, trimmed};

verus! {

/// A run id names the same cell of the design whatever the execution order: runs
/// of two plans have the same id exactly if they execute the same cell, and then
/// they agree in all but the position.
pub proof fn run_ids_are_stable(
    p: ParsedView,
    cells: Seq<CellView>,
    base: nat,
    first: Seq<usize>,
    second: Seq<usize>,
    i: int,
    j: int,
)
    requires
        0 <= i < first.len(),
        0 <= j < second.len(),
    ensures
        ({
            let a = runs_of(p, cells, base, first)[i];
            let b = runs_of(p, cells, base, second)[j];
            &&& a.run_id == b.run_id <==> first[i] == second[j]
            &&& a.run_id == b.run_id ==> a.design_row == b.design_row && a.factors == b.factors
                && a.replicates == b.replicates && a.unit == b.unit
        }),
{
    let a = runs_of(p, cells, base, first)[i];
    let b = runs_of(p, cells, base, second)[j];
    let width = super::plan::id_width(cells.len());
    let (x, y) = ((first[i] + 1) as nat, (second[j] + 1) as nat);
    lemma_padded_value(x, width);
    lemma_padded_value(y, width);
    reveal_strlit("r");
    assert(a.run_id.skip(1) =~= padded(x, width));
    assert(b.run_id.skip(1) =~= padded(y, width));
}

/// The rows of a plan are as wide as its header, so that the table can be written
/// and reads back.
pub proof fn planned_tables_can_be_written(p: ParsedView, runs: Seq<RunView>)
    ensures
        ({
            let rows = runs.map_values(|r: RunView| record_of(p, r));
            same_width(with_header(header_of(p), rows)) && rereadable(
                with_header(header_of(p), rows),
            )
        }),
{
    let rows = runs.map_values(|r: RunView| record_of(p, r));
    let all = with_header(header_of(p), rows);
    assert forall|i: int| 0 <= i < all.len() implies (#[trigger] all[i]).len() == all[0].len() by {
        if i > 0 {
            assert(all[i] == record_of(p, runs[i - 1]));
        }
    }
    reveal_strlit("run_id");
    assert(header_of(p)[0] == "run_id"@);
}

// ===== The cells that a row shows =====

/// The layout of a parsed design.
pub open spec fn parsed_layout(p: ParsedView) -> Layout {
    Layout {
        factors: p.factors,
        roles: p.replicates,
        results: p.results,
        unit: match p.unit {
            Some(u) => Some(u.name),
            None => None,
        },
    }
}

/// The factors and roles have names of their own, which are not those of the
/// first two columns.
pub open spec fn columns_apart(p: ParsedView) -> bool {
    forall|i: int, j: int|
        0 <= i < j < 2 + p.factors.len() + p.replicates.len() ==> #[trigger] header_of(p)[i]
            != #[trigger] header_of(p)[j]
}

/// The text of a level has no white space at its ends and shows no earlier level.
pub open spec fn told_apart(levels: Seq<ValueView>, near: Seq<bool>, i: int) -> bool {
    let text = value_text(levels[i]);
    &&& trimmed(text) == text
    &&& forall|j: int| 0 <= j < i ==> !shows(#[trigger] levels[j], text, flag(near, j))
}

/// The levels of a cell, first of the factors and then of the roles.
pub open spec fn levels_of(c: CellView) -> Seq<usize> {
    c.factors + c.roles
}

proof fn lemma_level_shown(levels: Seq<ValueView>, near: Seq<bool>, i: int, from: nat)
    requires
        from <= i < levels.len(),
        told_apart(levels, near, i),
    ensures
        level_shown(levels, value_text(levels[i]), near, from) == Some(i as nat),
    decreases i - from,
{
    if from < i {
        assert(!shows(levels[from as int], value_text(levels[i]), flag(near, from as int)));
        lemma_level_shown(levels, near, i, from + 1);
    }
}

proof fn lemma_name_found(names: Seq<Seq<char>>, i: int, from: nat)
    requires
        from <= i < names.len(),
    ensures
        name_index(names, names[i], from) is Some,
        (forall|k: int| from <= k < i ==> #[trigger] names[k] != names[i]) ==> name_index(
            names,
            names[i],
            from,
        ) == Some(i as nat),
    decreases i - from,
{
    if names[from as int] != names[i] {
        lemma_name_found(names, i, from + 1);
    }
}

proof fn lemma_columns_found(
    headers: Seq<Seq<char>>,
    kind: Seq<char>,
    names: Seq<Seq<char>>,
    n: nat,
)
    requires
        n <= names.len(),
        forall|i: int| 0 <= i < n ==> column_of(headers, #[trigger] names[i]) is Some,
    ensures
        columns_of(headers, kind, names, n) is Ok,
        columns_of(headers, kind, names, n)->Ok_0.len() == n,
        forall|i: int|
            0 <= i < n ==> Some(#[trigger] columns_of(headers, kind, names, n)->Ok_0[i])
                == column_of(headers, names[i]),
    decreases n,
{
    if n > 0 {
        lemma_columns_found(headers, kind, names, (n - 1) as nat);
        assert(column_of(headers, names[n - 1]) is Some);
    }
}

/// The table of a plan has the columns of its design: the factors and the roles
/// stand where they were written.
proof fn lemma_planned_columns(p: ParsedView, rows: Seq<Seq<Seq<char>>>)
    requires
        columns_apart(p),
        header_of(p).len() <= usize::MAX,
    ensures
        table_of(header_of(p), rows, parsed_layout(p)) is Ok,
        ({
            let t = table_of(header_of(p), rows, parsed_layout(p))->Ok_0;
            &&& t.rows == rows
            &&& axis_columns(t).len() == p.factors.len() + p.replicates.len()
            &&& forall|k: int|
                0 <= k < axis_columns(t).len() ==> #[trigger] axis_columns(t)[k] == k + 2
        }),
{
    let header = header_of(p);
    let l = parsed_layout(p);
    let (nf, nr) = (p.factors.len() as int, p.replicates.len() as int);
    let unit = match p.unit {
        Some(u) => seq![u.name],
        None => Seq::<Seq<char>>::empty(),
    };
    let factors = crate::augment::table::names_of(l.factors);
    let roles = crate::augment::table::names_of_roles(l.roles);
    assert(header.len() == 2 + nf + nr + unit.len() + p.results.len());
    assert forall|i: int| 0 <= i < nf implies column_of(header, #[trigger] factors[i]) == Some(
        (i + 2) as usize,
    ) by {
        assert(header[i + 2] == factors[i]);
        lemma_name_found(header, i + 2, 0);
    }
    assert forall|i: int| 0 <= i < nr implies column_of(header, #[trigger] roles[i]) == Some(
        (i + nf + 2) as usize,
    ) by {
        assert(header[i + nf + 2] == roles[i]);
        lemma_name_found(header, i + nf + 2, 0);
    }
    assert forall|i: int| 0 <= i < p.results.len() implies column_of(
        header,
        #[trigger] p.results[i],
    ) is Some by {
        let at = 2 + nf + nr + unit.len() + i;
        assert(header[at] == p.results[i]);
        lemma_name_found(header, at, 0);
    }
    lemma_columns_found(header, "factor column '"@, factors, l.factors.len());
    lemma_columns_found(header, "replicate column '"@, roles, l.roles.len());
    lemma_columns_found(header, "result column '"@, l.results, l.results.len());
    let t = table_of(header, rows, l)->Ok_0;
    assert forall|k: int| 0 <= k < axis_columns(t).len() implies #[trigger] axis_columns(t)[k] == k
        + 2 by {
        if k < nf {
            assert(axis_columns(t)[k] == t.factor_col[k]);
            assert(column_of(header, factors[k]) == Some((k + 2) as usize));
        } else {
            assert(axis_columns(t)[k] == t.role_col[k - nf]);
            assert(column_of(header, roles[k - nf]) == Some((k + 2) as usize));
        }
    }
}

/// The cell of a row of a planned table, in the column of an axis.
proof fn lemma_planned_text(
    p: ParsedView,
    cells: Seq<CellView>,
    base: nat,
    position: int,
    cell: int,
    k: int,
)
    requires
        columns_apart(p),
        cells_wf(cells, p.factors, p.replicates),
        0 <= cell < cells.len(),
        0 <= k < p.factors.len() + p.replicates.len(),
    ensures
        record_of(p, run_of(p, cells, base, position, cell))[k + 2] == value_text(
            axes_of(parsed_layout(p))[k].levels[levels_of(cells[cell])[k] as int],
        ),
{
    let run = run_of(p, cells, base, position, cell);
    let nf = p.factors.len() as int;
    let header = header_of(p);
    assert forall|a: int, b: int| 0 <= a < b < nf implies (#[trigger] p.factors[a]).name != (
    #[trigger] p.factors[b]).name by {
        assert(header[a + 2] == p.factors[a].name && header[b + 2] == p.factors[b].name);
    }
    assert forall|a: int, b: int| 0 <= a < b < p.replicates.len() implies (
    #[trigger] p.replicates[a]).name != (#[trigger] p.replicates[b]).name by {
        assert(header[a + nf + 2] == p.replicates[a].name);
        assert(header[b + nf + 2] == p.replicates[b].name);
    }
    if k < nf {
        lemma_setting_is_last(run.factors, k, run.factors.len());
        assert(record_of(p, run)[k + 2] == setting_text(run.factors, p.factors[k].name));
    } else {
        lemma_setting_is_last(run.replicates, k - nf, run.replicates.len());
        assert(record_of(p, run)[k + 2] == setting_text(
            run.replicates,
            p.replicates[k - nf].name,
        ));
    }
}

/// A planned table shows the cells of the design: the row of a run reads back as
/// the cell that it executes.
pub proof fn planned_rows_show_their_cells(
    p: ParsedView,
    cells: Seq<CellView>,
    base: nat,
    position: int,
    cell: int,
    rows: Seq<Seq<Seq<char>>>,
    near: Seq<Seq<Seq<bool>>>,
)
    requires
        columns_apart(p),
        header_of(p).len() <= usize::MAX,
        cells_wf(cells, p.factors, p.replicates),
        0 <= cell < cells.len(),
        0 <= position < rows.len(),
        rows[position] == record_of(p, run_of(p, cells, base, position, cell)),
        forall|k: int|
            0 <= k < p.factors.len() + p.replicates.len() ==> told_apart(
                (#[trigger] axes_of(parsed_layout(p))[k]).levels,
                flags_at(near, position, k),
                levels_of(cells[cell])[k] as int,
            ),
    ensures
        table_of(header_of(p), rows, parsed_layout(p)) matches Ok(t) && row_shown(
            t,
            parsed_layout(p),
            near,
            position,
        ) == Ok::<CellView, nat>(cells[cell]),
{
    let l = parsed_layout(p);
    lemma_planned_columns(p, rows);
    let t = table_of(header_of(p), rows, l)->Ok_0;
    let c = cells[cell];
    let n = p.factors.len() + p.replicates.len();
    assert(axes_of(l).len() == n);
    assert(levels_of(c).len() == n);
    lemma_planned_levels(p, cells, base, position, cell, rows, near, n);
    assert(levels_of(c).take(n as int) =~= levels_of(c));
    assert(levels_of(c).take(p.factors.len() as int) =~= c.factors);
    assert(levels_of(c).skip(p.factors.len() as int) =~= c.roles);
}

proof fn lemma_planned_levels(
    p: ParsedView,
    cells: Seq<CellView>,
    base: nat,
    position: int,
    cell: int,
    rows: Seq<Seq<Seq<char>>>,
    near: Seq<Seq<Seq<bool>>>,
    n: nat,
)
    requires
        columns_apart(p),
        header_of(p).len() <= usize::MAX,
        cells_wf(cells, p.factors, p.replicates),
        0 <= cell < cells.len(),
        0 <= position < rows.len(),
        rows[position] == record_of(p, run_of(p, cells, base, position, cell)),
        n <= p.factors.len() + p.replicates.len(),
        forall|k: int|
            0 <= k < p.factors.len() + p.replicates.len() ==> told_apart(
                (#[trigger] axes_of(parsed_layout(p))[k]).levels,
                flags_at(near, position, k),
                levels_of(cells[cell])[k] as int,
            ),
    ensures
        row_levels(
            table_of(header_of(p), rows, parsed_layout(p))->Ok_0,
            parsed_layout(p),
            near,
            position,
            n,
        ) == Ok::<Seq<usize>, nat>(levels_of(cells[cell]).take(n as int)),
    decreases n,
{
    let l = parsed_layout(p);
    lemma_planned_columns(p, rows);
    let t = table_of(header_of(p), rows, l)->Ok_0;
    let c = cells[cell];
    assert(levels_of(c).len() == p.factors.len() + p.replicates.len());
    if n == 0 {
        assert(levels_of(c).take(0) =~= Seq::<usize>::empty());
    } else {
        let k = n - 1;
        lemma_planned_levels(p, cells, base, position, cell, rows, near, k as nat);
        lemma_planned_text(p, cells, base, position, cell, k);
        let axis = axes_of(l)[k];
        let level = levels_of(c)[k] as int;
        assert(0 <= level < axis.levels.len()) by {
            if k < p.factors.len() {
                assert(axis.levels == p.factors[k].values);
                assert(c.factors[k] < p.factors[k].values.len());
            } else {
                let r = k - p.factors.len();
                assert(axis.levels == p.replicates[r].levels);
                assert(c.roles[r] < p.replicates[r].levels.len());
            }
        }
        assert(axis_columns(t)[k] == k + 2);
        let text = value_text(axis.levels[level]);
        assert(told_apart(axis.levels, flags_at(near, position, k), level));
        assert(cell_text(t.rows[position], k + 2) == text);
        lemma_level_shown(axis.levels, flags_at(near, position, k), level, 0);
        assert(levels_of(c).take(k).push(levels_of(c)[k]) =~= levels_of(c).take(n as int));
    }
}

} // verus!
