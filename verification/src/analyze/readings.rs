//! What the rows of a table come to as readings.
use vstd::prelude::*;

use super::observe::{
    absent, checked_row, first_unreadable, first_unknown, number_at, observed, read_as, readable,
    report_of, row_cells, row_id, row_ids, unfilled,
};
use crate::augment::laws::columns_are_found_first;
use crate::augment::table::{names_of, names_of_roles, row_shown, Layout, TableView};
use crate::construct::types::RunView;
use crate::model::laws::names_are_found_first;
use crate::model::matrix::CellView;
use crate::text::{decimal, trimmed};

verus! {

/// A result cell of a row is filled: there is something else than white space.
pub open spec fn filled(t: TableView, row: int, k: int) -> bool {
    t.result_col[k] < t.rows[row].len() && trimmed(t.rows[row][t.result_col[k] as int]).len() > 0
}

/// A number is finite exactly where its exponent is not the largest.
pub proof fn infinities_have_the_largest_exponent(x: u64)
    ensures
        super::observe::finite(x) <==> (x >> 52u64) & 0x7ffu64 != 0x7ffu64,
{
    assert((x & 0x7fff_ffff_ffff_ffffu64) < 0x7ff0_0000_0000_0000u64 <==> (x >> 52u64) & 0x7ffu64
        != 0x7ffu64) by (bit_vector);
    assert((x & 0x7fff_ffff_ffff_ffffu64) == (if x >= 0x8000_0000_0000_0000u64 {
        x - 0x8000_0000_0000_0000u64
    } else {
        x as int
    })) by (bit_vector);
}

proof fn lemma_unreadable(t: TableView, numbers: Seq<Seq<Option<u64>>>, row: int, k: nat)
    requires
        k <= t.result_col.len(),
    ensures
        first_unreadable(t, numbers, row, k) is None <==> forall|j: int|
            k <= j < t.result_col.len() ==> #[trigger] filled(t, row, j) ==> readable(
                numbers,
                row,
                j,
            ),
    decreases t.result_col.len() - k,
{
    if k < t.result_col.len() {
        lemma_unreadable(t, numbers, row, k + 1);
        assert(filled(t, row, k as int) <==> super::observe::result_text(t, row, k as int).len() > 0);
        if first_unreadable(t, numbers, row, k) is None {
            assert forall|j: int|
                k <= j < t.result_col.len() && #[trigger] filled(t, row, j) implies readable(
                numbers,
                row,
                j,
            ) by {}
        }
    }
}

/// A row is accepted exactly where its id is there and new, every factor and role
/// shows a level, and every filled result cell reads as a finite number.
pub proof fn rows_are_accepted_as_a_whole(
    t: TableView,
    l: Layout,
    near: Seq<Seq<Seq<bool>>>,
    numbers: Seq<Seq<Option<u64>>>,
    ids: Seq<Seq<char>>,
    row: int,
)
    ensures
        checked_row(t, l, near, numbers, ids, row) is Ok <==> row_id(t, row).len() > 0 && !ids.contains(
            row_id(t, row),
        ) && row_shown(t, l, near, row) is Ok && forall|k: int|
            0 <= k < t.result_col.len() ==> #[trigger] filled(t, row, k) ==> (number_at(
                numbers,
                row,
                k,
            ) is Some && super::observe::finite(number_at(numbers, row, k)->0)),
        checked_row(t, l, near, numbers, ids, row) matches Ok(c) ==> row_shown(t, l, near, row) == Ok::<
            CellView,
            nat,
        >(c),
{
    lemma_unreadable(t, numbers, row, 0);
    if checked_row(t, l, near, numbers, ids, row) is Ok {
        assert forall|k: int|
            0 <= k < t.result_col.len() && #[trigger] filled(t, row, k) implies number_at(
            numbers,
            row,
            k,
        ) is Some && super::observe::finite(number_at(numbers, row, k)->0) by {
            assert(readable(numbers, row, k));
        }
    } else if forall|k: int|
        0 <= k < t.result_col.len() ==> #[trigger] filled(t, row, k) ==> (number_at(numbers, row, k)
            is Some && super::observe::finite(number_at(numbers, row, k)->0)) {
        assert forall|j: int|
            0 <= j < t.result_col.len() && #[trigger] filled(t, row, j) implies readable(
            numbers,
            row,
            j,
        ) by {}
    }
}

/// In a table that is accepted every row shows its cell, no row is without an id,
/// and no two rows have the same.
pub proof fn accepted_tables_name_every_row_once(
    t: TableView,
    l: Layout,
    near: Seq<Seq<Seq<bool>>>,
    numbers: Seq<Seq<Option<u64>>>,
    n: nat,
)
    requires
        row_cells(t, l, near, numbers, n) is Ok,
    ensures
        row_cells(t, l, near, numbers, n)->Ok_0.len() == n,
        forall|r: int|
            0 <= r < n ==> row_shown(t, l, near, r) == Ok::<CellView, nat>(
                #[trigger] row_cells(t, l, near, numbers, n)->Ok_0[r],
            ),
        forall|r: int| 0 <= r < n ==> (#[trigger] row_id(t, r)).len() > 0,
        forall|r: int, q: int| 0 <= r < q < n ==> #[trigger] row_id(t, r) != #[trigger] row_id(t, q),
        forall|r: int, k: int|
            0 <= r < n && 0 <= k < t.result_col.len() && #[trigger] filled(t, r, k) ==> number_at(
                numbers,
                r,
                k,
            ) is Some && super::observe::finite(number_at(numbers, r, k)->0),
    decreases n,
{
    if n > 0 {
        accepted_tables_name_every_row_once(t, l, near, numbers, (n - 1) as nat);
        let ids = row_ids(t, (n - 1) as nat);
        rows_are_accepted_as_a_whole(t, l, near, numbers, ids, n - 1);
        assert forall|r: int, q: int| 0 <= r < q < n implies #[trigger] row_id(t, r)
            != #[trigger] row_id(t, q) by {
            if q == n - 1 {
                assert(ids[r] == row_id(t, r));
                assert(ids.contains(ids[r]));
            }
        }
    }
}

/// The observations of a result are its filled cells, in the order of the rows:
/// each with the cell of its row and the number that stands there.
pub proof fn observations_are_the_filled_cells(
    t: TableView,
    cells: Seq<CellView>,
    numbers: Seq<Seq<Option<u64>>>,
    k: int,
    n: nat,
) -> (rows: Seq<int>)
    requires
        0 <= k < t.result_col.len(),
        n <= t.rows.len(),
    ensures
        observed(t, cells, numbers, k, n).len() == rows.len(),
        forall|i: int, j: int| 0 <= i < j < rows.len() ==> #[trigger] rows[i] < #[trigger] rows[j],
        forall|i: int|
            0 <= i < rows.len() ==> 0 <= #[trigger] rows[i] < n && observed(t, cells, numbers, k, n)[i]
                == (cells[rows[i]], number_at(numbers, rows[i], k)->0),
        forall|r: int| 0 <= r < n ==> (#[trigger] rows.contains(r) <==> filled(t, r, k)),
    decreases n,
{
    if n == 0 {
        Seq::empty()
    } else {
        let before = observations_are_the_filled_cells(t, cells, numbers, k, (n - 1) as nat);
        assert(filled(t, n - 1, k) <==> super::observe::result_text(t, n - 1, k).len() > 0);
        let rows = if filled(t, n - 1, k) {
            before.push(n - 1)
        } else {
            before
        };
        lemma_kept(before, rows, n, filled(t, n - 1, k));
        assert forall|r: int| 0 <= r < n implies (#[trigger] rows.contains(r) <==> filled(t, r, k)) by {
            if r < n - 1 {
                assert(before.contains(r) <==> filled(t, r, k));
            }
        }
        rows
    }
}

proof fn lemma_kept(before: Seq<int>, rows: Seq<int>, n: nat, taken: bool)
    requires
        n > 0,
        forall|i: int| 0 <= i < before.len() ==> 0 <= #[trigger] before[i] < n - 1,
        rows == (if taken {
            before.push(n - 1)
        } else {
            before
        }),
    ensures
        rows.contains(n - 1) <==> taken,
        forall|r: int| 0 <= r < n - 1 ==> (#[trigger] rows.contains(r) <==> before.contains(r)),
{
    if taken {
        assert(rows[before.len() as int] == n - 1);
    } else if rows.contains(n - 1) {
        let i = choose|i: int| 0 <= i < rows.len() && rows[i] == n - 1;
        assert(before[i] < n - 1);
    }
    assert forall|r: int| 0 <= r < n - 1 implies (#[trigger] rows.contains(r) <==> before.contains(r)) by {
        if before.contains(r) {
            let i = choose|i: int| 0 <= i < before.len() && before[i] == r;
            assert(rows[i] == r);
        }
        if rows.contains(r) {
            let i = choose|i: int| 0 <= i < rows.len() && rows[i] == r;
            assert(before[i] == r);
        }
    }
}

/// The rows that are listed as missing a result are those whose cell is not
/// filled, by their ids and in their order.
pub proof fn unfilled_cells_are_missing(t: TableView, k: int, n: nat) -> (rows: Seq<int>)
    requires
        0 <= k < t.result_col.len(),
        n <= t.rows.len(),
    ensures
        unfilled(t, k, n).len() == rows.len(),
        forall|i: int, j: int| 0 <= i < j < rows.len() ==> #[trigger] rows[i] < #[trigger] rows[j],
        forall|i: int|
            0 <= i < rows.len() ==> 0 <= #[trigger] rows[i] < n && unfilled(t, k, n)[i] == row_id(
                t,
                rows[i],
            ),
        forall|r: int| 0 <= r < n ==> (#[trigger] rows.contains(r) <==> !filled(t, r, k)),
    decreases n,
{
    if n == 0 {
        Seq::empty()
    } else {
        let before = unfilled_cells_are_missing(t, k, (n - 1) as nat);
        assert(filled(t, n - 1, k) <==> super::observe::result_text(t, n - 1, k).len() > 0);
        let rows = if !filled(t, n - 1, k) {
            before.push(n - 1)
        } else {
            before
        };
        lemma_kept(before, rows, n, !filled(t, n - 1, k));
        assert forall|r: int| 0 <= r < n implies (#[trigger] rows.contains(r) <==> !filled(t, r, k)) by {
            if r < n - 1 {
                assert(before.contains(r) <==> !filled(t, r, k));
            }
        }
        rows
    }
}

/// A row is known by its run id, without white space around it; in a table without
/// run ids by its line, the header being the first.
pub proof fn rows_are_known_by_their_ids(t: TableView, row: int)
    requires
        0 <= row < t.rows.len(),
    ensures
        t.run_id_col is Some && t.run_id_col->0 < t.rows[row].len() ==> row_id(t, row) == trimmed(
            t.rows[row][t.run_id_col->0 as int],
        ),
        t.run_id_col is None ==> row_id(t, row) == decimal((row + 2) as nat),
{
}

proof fn lemma_absent(runs: Seq<RunView>, ids: Seq<Seq<char>>, n: nat)
    requires
        n <= runs.len(),
    ensures
        forall|i: int|
            0 <= i < absent(runs, ids, n).len() ==> !ids.contains(#[trigger] absent(runs, ids, n)[i]),
        forall|i: int|
            0 <= i < n && !ids.contains((#[trigger] runs[i]).run_id) ==> absent(
                runs,
                ids,
                n,
            ).contains(runs[i].run_id),
    decreases n,
{
    if n > 0 {
        lemma_absent(runs, ids, (n - 1) as nat);
        let before = absent(runs, ids, (n - 1) as nat);
        let now = absent(runs, ids, n);
        assert forall|i: int| 0 <= i < n && !ids.contains((#[trigger] runs[i]).run_id) implies now.contains(
            runs[i].run_id,
        ) by {
            if i == n - 1 {
                assert(now[now.len() - 1] == runs[i].run_id);
            } else {
                let k = choose|k: int| 0 <= k < before.len() && before[k] == runs[i].run_id;
                assert(now[k] == runs[i].run_id);
            }
        }
    }
}

/// What is reported of a result speaks of every row and every run: the filled
/// cells are its data; the rows that are not filled are missing, and so is every
/// run that the table does not hold, where it names its runs.
pub proof fn reports_speak_of_every_row(
    t: TableView,
    l: Layout,
    near: Seq<Seq<Seq<bool>>>,
    numbers: Seq<Seq<Option<u64>>>,
    runs: Seq<RunView>,
    k: int,
)
    requires
        report_of(t, l, near, numbers, runs) is Ok,
        0 <= k < l.results.len(),
        t.result_col.len() == l.results.len(),
    ensures
        ({
            let d = report_of(t, l, near, numbers, runs)->Ok_0[k];
            &&& report_of(t, l, near, numbers, runs)->Ok_0.len() == l.results.len()
            &&& d.data.len() <= t.rows.len()
            &&& t.run_id_col is None ==> d.data.len() + d.missing.len() == t.rows.len()
            &&& d.data.len() + d.missing.len() >= t.rows.len()
            &&& forall|r: int|
                0 <= r < t.rows.len() && !#[trigger] filled(t, r, k) ==> d.missing.contains(
                    row_id(t, r),
                )
            &&& t.run_id_col is Some ==> forall|i: int|
                0 <= i < runs.len() && (forall|r: int|
                    0 <= r < t.rows.len() ==> #[trigger] row_id(t, r) != (#[trigger] runs[i]).run_id)
                    ==> d.missing.contains(runs[i].run_id)
        }),
{
    let d = report_of(t, l, near, numbers, runs)->Ok_0[k];
    super::observe::rows_are_observed_or_missing(
        t,
        row_cells(t, l, near, numbers, t.rows.len())->Ok_0,
        numbers,
        k,
        t.rows.len(),
    );
    let rows = unfilled_cells_are_missing(t, k, t.rows.len());
    let part = unfilled(t, k, t.rows.len());
    let more = super::observe::absent_runs(t, runs);
    assert forall|r: int| 0 <= r < t.rows.len() && !#[trigger] filled(t, r, k) implies d.missing.contains(
        row_id(t, r),
    ) by {
        assert(rows.contains(r));
        let i = choose|i: int| 0 <= i < rows.len() && rows[i] == r;
        assert(part[i] == row_id(t, rows[i]));
        assert(d.missing[i] == row_id(t, r));
    }
    if t.run_id_col is Some {
        let ids = row_ids(t, t.rows.len());
        lemma_absent(runs, ids, runs.len());
        assert forall|i: int|
            0 <= i < runs.len() && (forall|r: int|
                0 <= r < t.rows.len() ==> #[trigger] row_id(t, r) != (#[trigger] runs[i]).run_id) implies d.missing.contains(
            runs[i].run_id,
        ) by {
            let id = runs[i].run_id;
            if ids.contains(id) {
                let r = choose|r: int| 0 <= r < ids.len() && ids[r] == id;
                assert(row_id(t, r) == id);
            }
            let j = choose|j: int| 0 <= j < more.len() && more[j] == id;
            assert(d.missing[part.len() + j] == id);
        }
    }
}

/// A run that is listed as missing for its absence is absent.
pub proof fn only_absent_runs_are_missing(t: TableView, runs: Seq<RunView>, i: int)
    requires
        0 <= i < super::observe::absent_runs(t, runs).len(),
    ensures
        t.run_id_col is Some,
        forall|r: int|
            0 <= r < t.rows.len() ==> #[trigger] row_id(t, r) != super::observe::absent_runs(t, runs)[i],
{
    let ids = row_ids(t, t.rows.len());
    lemma_absent(runs, ids, runs.len());
    assert forall|r: int| 0 <= r < t.rows.len() implies #[trigger] row_id(t, r)
        != super::observe::absent_runs(t, runs)[i] by {
        assert(ids[r] == row_id(t, r));
        assert(ids.contains(ids[r]));
    }
}

/// A table is read exactly where every factor, role and result has a column, each
/// from the first column of its name.
pub proof fn readings_have_their_columns(
    headers: Seq<Seq<char>>,
    rows: Seq<Seq<Seq<char>>>,
    l: Layout,
)
    requires
        headers.len() <= usize::MAX,
    ensures
        read_as(headers, rows, l) is Ok <==> (forall|i: int|
            0 <= i < l.factors.len() ==> headers.contains(#[trigger] names_of(l.factors)[i])) && (
        forall|i: int|
            0 <= i < l.roles.len() ==> headers.contains(#[trigger] names_of_roles(l.roles)[i])) && (
        forall|i: int| 0 <= i < l.results.len() ==> headers.contains(#[trigger] l.results[i])),
        read_as(headers, rows, l) matches Ok(t) ==> {
            &&& t.headers == headers
            &&& t.rows == rows
            &&& t.factor_col.len() == l.factors.len()
            &&& t.role_col.len() == l.roles.len()
            &&& t.result_col.len() == l.results.len()
            &&& forall|i: int|
                0 <= i < l.factors.len() ==> (#[trigger] t.factor_col[i]) < headers.len()
                    && headers[t.factor_col[i] as int] == l.factors[i].name
            &&& forall|i: int|
                0 <= i < l.roles.len() ==> (#[trigger] t.role_col[i]) < headers.len()
                    && headers[t.role_col[i] as int] == l.roles[i].name
            &&& forall|i: int|
                0 <= i < l.results.len() ==> (#[trigger] t.result_col[i]) < headers.len()
                    && headers[t.result_col[i] as int] == l.results[i]
            &&& t.run_id_col is Some <==> headers.contains("run_id"@)
            &&& t.run_id_col matches Some(c) ==> c < headers.len() && headers[c as int] == "run_id"@
        },
{
    columns_are_found_first(headers, "column '"@, names_of(l.factors), l.factors.len());
    columns_are_found_first(headers, "column '"@, names_of_roles(l.roles), l.roles.len());
    columns_are_found_first(headers, "column '"@, l.results, l.results.len());
    names_are_found_first(headers, "run_id"@, 0);
    if headers.contains("run_id"@) {
        let k = choose|k: int| 0 <= k < headers.len() && headers[k] == "run_id"@;
        assert(headers[k] == "run_id"@);
    }
}

/// The first name that is no result is found, where there is one.
pub proof fn unknown_results_are_found(names: Seq<Seq<char>>, results: Seq<Seq<char>>, i: nat)
    requires
        i <= names.len(),
    ensures
        first_unknown(names, results, i) is None <==> forall|k: int|
            i <= k < names.len() ==> results.contains(#[trigger] names[k]),
        first_unknown(names, results, i) matches Some(name) ==> !results.contains(name)
            && names.contains(name),
    decreases names.len() - i,
{
    if i < names.len() {
        unknown_results_are_found(names, results, i + 1);
        if !results.contains(names[i as int]) {
            assert(names.contains(names[i as int]));
        }
    }
}

} // verus!
