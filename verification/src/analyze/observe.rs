//! What a table reports of a design: the observations of each result, and the
//! runs whose result is missing.
use vstd::prelude::*;

use crate::augment::table::{
    axes_of, axis_columns, cell_text, columns_of, find_column, find_columns, layout_of,
    lemma_columns_len, names_of, names_of_roles, near_views, row_shown, row_views, shown_cell,
    table_wf, text_at, Layout, Table, TableView,
};
use crate::construct::types::{run_views, Design, Run, RunView};
use crate::error::Error;
use crate::float::{magnitude, INFINITY, SIGN};
use crate::model::formula::name_index;
use crate::model::matrix::{cell_views, cell_wf, Cell, CellView};
use crate::text::{big_decimal_text, char_count, decimal, equal, views};

verus! {

/// The pattern of one.
pub const ONE: u64 = 0x3ff0_0000_0000_0000;

/// The pattern stands for a number, and that is no infinity.
pub open spec fn finite(x: u64) -> bool {
    magnitude(x) < INFINITY
}

pub(crate) fn is_finite(x: u64) -> (r: bool)
    ensures
        r == finite(x),
{
    if x >= SIGN {
        x - SIGN < INFINITY
    } else {
        x < INFINITY
    }
}

/// Checks the level of significance: between zero and one.
pub fn check_alpha(alpha: u64) -> (r: Result<(), Error>)
    ensures
        match r {
            Ok(_) => 0 < alpha < ONE,
            Err(e) => !(0 < alpha < ONE) && e@ == "alpha must be between 0 and 1"@,
        },
{
    if 0 < alpha && alpha < ONE {
        Ok(())
    } else {
        Err(Error::new("alpha must be between 0 and 1"))
    }
}

/// Checks the tolerated noise: finite, and not negative.
pub fn check_noise(noise: Option<u64>) -> (r: Result<(), Error>)
    ensures
        match r {
            Ok(_) => noise matches Some(s) ==> s < INFINITY || s == SIGN,
            Err(e) => noise is Some && !(noise->0 < INFINITY || noise->0 == SIGN) && e@
                == "tolerate-noise must be finite and nonnegative"@,
        },
{
    match noise {
        Some(s) => {
            if s < INFINITY || s == SIGN {
                Ok(())
            } else {
                Err(Error::new("tolerate-noise must be finite and nonnegative"))
            }
        },
        None => Ok(()),
    }
}

/// Whether a list holds a text.
pub fn names_it(list: &Vec<String>, name: &str) -> (r: bool)
    ensures
        r == views(list@).contains(name@),
{
    let ghost lv = views(list@);
    let mut i: usize = 0;
    while i < list.len()
        invariant
            i <= list@.len(),
            lv == views(list@),
            forall|k: int| 0 <= k < i ==> #[trigger] lv[k] != name@,
        decreases list@.len() - i,
    {
        assert(lv[i as int] == list@[i as int]@);
        if equal(list[i].as_str(), name) {
            return true;
        }
        i = i + 1;
    }
    assert(lv.len() == list@.len());
    false
}

/// The first name, from `i` on, that is no result.
pub open spec fn first_unknown(names: Seq<Seq<char>>, results: Seq<Seq<char>>, i: nat) -> Option<
    Seq<char>,
>
    decreases names.len() - i,
{
    if i >= names.len() {
        None
    } else if !results.contains(names[i as int]) {
        Some(names[i as int])
    } else {
        first_unknown(names, results, i + 1)
    }
}

/// Checks that every named result is a result of the design.
pub fn check_names(names: &Vec<String>, results: &Vec<String>) -> (r: Result<(), Error>)
    ensures
        match r {
            Ok(_) => first_unknown(views(names@), views(results@), 0) is None,
            Err(e) => first_unknown(views(names@), views(results@), 0) is Some && e@
                == "unknown result '"@ + first_unknown(views(names@), views(results@), 0)->0 + "'"@,
        },
{
    let ghost (nv, rv) = (views(names@), views(results@));
    let mut i: usize = 0;
    while i < names.len()
        invariant
            i <= names@.len(),
            nv == views(names@),
            rv == views(results@),
            first_unknown(nv, rv, 0) == first_unknown(nv, rv, i as nat),
        decreases names@.len() - i,
    {
        assert(nv[i as int] == names@[i as int]@);
        if !names_it(results, names[i].as_str()) {
            return Err(Error::of3("unknown result '", names[i].as_str(), "'"));
        }
        i = i + 1;
    }
    Ok(())
}

// ===== Columns =====

/// The table as the analysis reads it, or the message for a missing column.
pub open spec fn read_as(
    headers: Seq<Seq<char>>,
    rows: Seq<Seq<Seq<char>>>,
    l: Layout,
) -> Result<TableView, Seq<char>> {
    match columns_of(headers, "column '"@, names_of(l.factors), l.factors.len()) {
        Err(m) => Err(m),
        Ok(factor_col) => match columns_of(
            headers,
            "column '"@,
            names_of_roles(l.roles),
            l.roles.len(),
        ) {
            Err(m) => Err(m),
            Ok(role_col) => match columns_of(headers, "column '"@, l.results, l.results.len()) {
                Err(m) => Err(m),
                Ok(result_col) => Ok(
                    TableView {
                        headers,
                        rows,
                        factor_col,
                        role_col,
                        result_col,
                        run_id_col: match name_index(headers, "run_id"@, 0) {
                            Some(i) => Some(i as usize),
                            None => None,
                        },
                        order_col: None,
                        unit_col: None,
                        experiment_col: None,
                    },
                ),
            },
        },
    }
}

/// Finds the columns that the analysis reads.
pub fn find_observed(headers: Vec<String>, rows: Vec<Vec<String>>, design: &Design) -> (r: Result<
    Table,
    Error,
>)
    ensures
        match r {
            Ok(t) => read_as(views(headers@), row_views(rows@), layout_of(*design)) == Ok::<
                TableView,
                Seq<char>,
            >(t@) && table_wf(t@, layout_of(*design)),
            Err(e) => read_as(views(headers@), row_views(rows@), layout_of(*design)) == Err::<
                TableView,
                Seq<char>,
            >(e@),
        },
{
    let ghost l = layout_of(*design);
    let ghost hv = views(headers@);
    let mut factor_names: Vec<String> = Vec::new();
    let mut i: usize = 0;
    while i < design.factors.len()
        invariant
            i <= design.factors@.len(),
            factor_names@.len() == i,
            forall|k: int| 0 <= k < i ==> (#[trigger] factor_names@[k])@ == design.factors@[k].name@,
        decreases design.factors@.len() - i,
    {
        factor_names.push(design.factors[i].name.clone());
        i = i + 1;
    }
    assert(views(factor_names@) =~= names_of(l.factors));
    let mut role_names: Vec<String> = Vec::new();
    let mut k: usize = 0;
    while k < design.replicates.len()
        invariant
            k <= design.replicates@.len(),
            role_names@.len() == k,
            forall|j: int|
                0 <= j < k ==> (#[trigger] role_names@[j])@ == design.replicates@[j].name@,
        decreases design.replicates@.len() - k,
    {
        role_names.push(design.replicates[k].name.clone());
        k = k + 1;
    }
    assert(views(role_names@) =~= names_of_roles(l.roles));
    assert(l.results.len() == design.results@.len());
    match find_columns(&headers, "column '", &factor_names) {
        Err(e) => Err(e),
        Ok(factor_col) => match find_columns(&headers, "column '", &role_names) {
            Err(e) => Err(e),
            Ok(role_col) => match find_columns(&headers, "column '", &design.results) {
                Err(e) => Err(e),
                Ok(result_col) => {
                    proof {
                        lemma_columns_len(hv, "column '"@, names_of(l.factors), l.factors.len());
                        lemma_columns_len(hv, "column '"@, names_of_roles(l.roles), l.roles.len());
                        lemma_columns_len(hv, "column '"@, l.results, l.results.len());
                    }
                    let run_id_col: Option<usize> = find_column(&headers, "run_id");
                    let t: Table = Table {
                        headers,
                        rows,
                        factor_col,
                        role_col,
                        result_col,
                        run_id_col,
                        order_col: None,
                        unit_col: None,
                        experiment_col: None,
                    };
                    assert(t@ =~= read_as(hv, row_views(rows@), l)->Ok_0);
                    Ok(t)
                },
            },
        },
    }
}

// ===== Rows =====

/// The id of a row: its run id, or its number in the file where the table has
/// none.
pub open spec fn row_id(t: TableView, row: int) -> Seq<char> {
    match t.run_id_col {
        Some(c) => cell_text(t.rows[row], c as int),
        None => decimal((row + 2) as nat),
    }
}

/// The text of a row in a column as it stands.
pub open spec fn raw_text(row: Seq<Seq<char>>, col: int) -> Seq<char> {
    if 0 <= col < row.len() {
        row[col]
    } else {
        Seq::empty()
    }
}

/// The text of a result in a row.
pub open spec fn result_text(t: TableView, row: int, k: int) -> Seq<char> {
    cell_text(t.rows[row], t.result_col[k] as int)
}

/// The number that a result cell reads as.
pub open spec fn number_at(numbers: Seq<Seq<Option<u64>>>, row: int, k: int) -> Option<u64> {
    if 0 <= row < numbers.len() && 0 <= k < numbers[row].len() {
        numbers[row][k]
    } else {
        None
    }
}

/// A result cell holds a finite number.
pub open spec fn readable(numbers: Seq<Seq<Option<u64>>>, row: int, k: int) -> bool {
    number_at(numbers, row, k) matches Some(x) && finite(x)
}

/// The first result, from `k` on, whose cell is filled with something that is no
/// finite number.
pub open spec fn first_unreadable(
    t: TableView,
    numbers: Seq<Seq<Option<u64>>>,
    row: int,
    k: nat,
) -> Option<nat>
    decreases t.result_col.len() - k,
{
    if k >= t.result_col.len() {
        None
    } else if result_text(t, row, k as int).len() > 0 && !readable(numbers, row, k as int) {
        Some(k)
    } else {
        first_unreadable(t, numbers, row, k + 1)
    }
}

pub open spec fn repeated_id(row: int, id: Seq<char>) -> Seq<char> {
    "row "@ + decimal((row + 2) as nat) + ": empty or duplicate run_id '"@ + id + "'"@
}

pub open spec fn unknown_level(row: int, name: Seq<char>, text: Seq<char>) -> Seq<char> {
    "row "@ + decimal((row + 2) as nat) + ": column '"@ + name + "' value '"@ + text
        + "' not in design levels"@
}

pub open spec fn unreadable(row: int, name: Seq<char>, text: Seq<char>) -> Seq<char> {
    "row "@ + decimal((row + 2) as nat) + ": column '"@ + name
        + "' must contain a finite number, got '"@ + text + "'"@
}

/// The cell that a row shows, given the ids of the rows before, or the message
/// for what is wrong with the row.
pub open spec fn checked_row(
    t: TableView,
    l: Layout,
    near: Seq<Seq<Seq<bool>>>,
    numbers: Seq<Seq<Option<u64>>>,
    ids: Seq<Seq<char>>,
    row: int,
) -> Result<CellView, Seq<char>> {
    let id = row_id(t, row);
    if id.len() == 0 || ids.contains(id) {
        Err(repeated_id(row, id))
    } else {
        match row_shown(t, l, near, row) {
            Err(k) => Err(
                unknown_level(
                    row,
                    axes_of(l)[k as int].name,
                    raw_text(t.rows[row], axis_columns(t)[k as int] as int),
                ),
            ),
            Ok(cell) => match first_unreadable(t, numbers, row, 0) {
                Some(k) => Err(
                    unreadable(row, l.results[k as int], result_text(t, row, k as int)),
                ),
                None => Ok(cell),
            },
        }
    }
}

/// The ids of the first `n` rows.
pub open spec fn row_ids(t: TableView, n: nat) -> Seq<Seq<char>> {
    Seq::new(n, |i: int| row_id(t, i))
}

/// The cells of the first `n` rows, or the message for the first bad row.
pub open spec fn row_cells(
    t: TableView,
    l: Layout,
    near: Seq<Seq<Seq<bool>>>,
    numbers: Seq<Seq<Option<u64>>>,
    n: nat,
) -> Result<Seq<CellView>, Seq<char>>
    decreases n,
{
    if n == 0 {
        Ok(Seq::empty())
    } else {
        match row_cells(t, l, near, numbers, (n - 1) as nat) {
            Err(m) => Err(m),
            Ok(cells) => match checked_row(
                t,
                l,
                near,
                numbers,
                row_ids(t, (n - 1) as nat),
                n - 1,
            ) {
                Err(m) => Err(m),
                Ok(c) => Ok(cells.push(c)),
            },
        }
    }
}

/// One observation: the cell, and the bits of the number observed there.
#[derive(Debug)]
pub struct Observation {
    pub cell: Cell,
    pub y: u64,
}

impl View for Observation {
    type V = (CellView, u64);

    open spec fn view(&self) -> (CellView, u64) {
        (self.cell@, self.y)
    }
}

pub open spec fn observation_views(list: Seq<Observation>) -> Seq<(CellView, u64)> {
    list.map_values(|o: Observation| o@)
}

/// The observations of a result in the first `n` rows.
pub open spec fn observed(
    t: TableView,
    cells: Seq<CellView>,
    numbers: Seq<Seq<Option<u64>>>,
    k: int,
    n: nat,
) -> Seq<(CellView, u64)>
    decreases n,
{
    if n == 0 {
        Seq::empty()
    } else {
        let before = observed(t, cells, numbers, k, (n - 1) as nat);
        if result_text(t, n - 1, k).len() > 0 {
            before.push((cells[n - 1], number_at(numbers, n - 1, k)->0))
        } else {
            before
        }
    }
}

/// The ids of those of the first `n` rows in which a result is missing.
pub open spec fn unfilled(t: TableView, k: int, n: nat) -> Seq<Seq<char>>
    decreases n,
{
    if n == 0 {
        Seq::empty()
    } else {
        let before = unfilled(t, k, (n - 1) as nat);
        if result_text(t, n - 1, k).len() > 0 {
            before
        } else {
            before.push(row_id(t, n - 1))
        }
    }
}

/// The ids of those of the first `n` runs that no row has.
pub open spec fn absent(runs: Seq<RunView>, ids: Seq<Seq<char>>, n: nat) -> Seq<Seq<char>>
    decreases n,
{
    if n == 0 {
        Seq::empty()
    } else {
        let before = absent(runs, ids, (n - 1) as nat);
        if ids.contains(runs[n - 1].run_id) {
            before
        } else {
            before.push(runs[n - 1].run_id)
        }
    }
}

/// The runs that the table does not hold; none where the table has no run ids.
pub open spec fn absent_runs(t: TableView, runs: Seq<RunView>) -> Seq<Seq<char>> {
    if t.run_id_col is Some {
        absent(runs, row_ids(t, t.rows.len()), runs.len())
    } else {
        Seq::empty()
    }
}

/// What a table reports of one result.
#[derive(Debug)]
pub struct ResultData {
    pub data: Vec<Observation>,
    pub missing: Vec<String>,
}

#[verifier::ext_equal]
pub struct DataView {
    pub data: Seq<(CellView, u64)>,
    pub missing: Seq<Seq<char>>,
}

impl View for ResultData {
    type V = DataView;

    open spec fn view(&self) -> DataView {
        DataView { data: observation_views(self.data@), missing: views(self.missing@) }
    }
}

pub open spec fn data_views(list: Seq<ResultData>) -> Seq<DataView> {
    list.map_values(|r: ResultData| r@)
}

/// What a table reports of the `k`-th result.
pub open spec fn result_data(
    t: TableView,
    cells: Seq<CellView>,
    numbers: Seq<Seq<Option<u64>>>,
    runs: Seq<RunView>,
    k: int,
) -> DataView {
    DataView {
        data: observed(t, cells, numbers, k, t.rows.len()),
        missing: unfilled(t, k, t.rows.len()) + absent_runs(t, runs),
    }
}

/// What a table reports of every result, or the message for its first bad row.
pub open spec fn report_of(
    t: TableView,
    l: Layout,
    near: Seq<Seq<Seq<bool>>>,
    numbers: Seq<Seq<Option<u64>>>,
    runs: Seq<RunView>,
) -> Result<Seq<DataView>, Seq<char>> {
    match row_cells(t, l, near, numbers, t.rows.len()) {
        Err(m) => Err(m),
        Ok(cells) => Ok(
            Seq::new(l.results.len(), |k: int| result_data(t, cells, numbers, runs, k)),
        ),
    }
}

/// Every run of the design is observed or missing: what a table with run ids
/// does not hold is listed as missing for every result.
pub proof fn deleted_runs_are_missing(t: TableView, runs: Seq<RunView>, i: int)
    requires
        0 <= i < runs.len(),
        t.run_id_col is Some,
        !row_ids(t, t.rows.len()).contains(runs[i].run_id),
    ensures
        absent_runs(t, runs).contains(runs[i].run_id),
{
    lemma_absent(runs, row_ids(t, t.rows.len()), i, runs.len());
}

proof fn lemma_absent(runs: Seq<RunView>, ids: Seq<Seq<char>>, i: int, n: nat)
    requires
        0 <= i < n <= runs.len(),
        !ids.contains(runs[i].run_id),
    ensures
        absent(runs, ids, n).contains(runs[i].run_id),
    decreases n,
{
    let before = absent(runs, ids, (n - 1) as nat);
    let now = absent(runs, ids, n);
    if i == n - 1 {
        assert(now[before.len() as int] == runs[i].run_id);
    } else {
        lemma_absent(runs, ids, i, (n - 1) as nat);
        let j = choose|j: int| 0 <= j < before.len() && before[j] == runs[i].run_id;
        assert(now[j] == runs[i].run_id);
    }
}

/// Each row counts once for each result: it is observed or its id is missing.
pub proof fn rows_are_observed_or_missing(
    t: TableView,
    cells: Seq<CellView>,
    numbers: Seq<Seq<Option<u64>>>,
    k: int,
    n: nat,
)
    ensures
        observed(t, cells, numbers, k, n).len() + unfilled(t, k, n).len() == n,
    decreases n,
{
    if n > 0 {
        rows_are_observed_or_missing(t, cells, numbers, k, (n - 1) as nat);
    }
}

pub open spec fn number_views(numbers: Seq<Vec<Option<u64>>>) -> Seq<Seq<Option<u64>>> {
    numbers.map_values(|r: Vec<Option<u64>>| r@)
}

fn read_number(numbers: &Vec<Vec<Option<u64>>>, row: usize, k: usize) -> (r: Option<u64>)
    ensures
        r == number_at(number_views(numbers@), row as int, k as int),
{
    if row < numbers.len() && k < numbers[row].len() {
        assert(number_views(numbers@)[row as int] == numbers@[row as int]@);
        numbers[row][k]
    } else {
        proof {
            if row < numbers@.len() {
                assert(number_views(numbers@)[row as int] == numbers@[row as int]@);
            }
        }
        None
    }
}

fn id_of_row(table: &Table, row: usize) -> (s: String)
    requires
        row < table.rows@.len(),
    ensures
        s@ == row_id(table@, row as int),
{
    assert(table@.rows[row as int] == views(table.rows@[row as int]@));
    match table.run_id_col {
        Some(c) => text_at(&table.rows[row], c),
        None => big_decimal_text(row as u128 + 2),
    }
}

fn raw_at(row: &Vec<String>, col: usize) -> (s: String)
    ensures
        s@ == raw_text(views(row@), col as int),
{
    if col < row.len() {
        assert(views(row@)[col as int] == row@[col as int]@);
        row[col].clone()
    } else {
        let s: String = String::new();
        assert(s@ =~= Seq::empty());
        s
    }
}

fn row_error(row: usize, a: &str, name: &str, b: &str, text: &str, c: &str) -> (e: Error)
    ensures
        e@ == "row "@ + decimal((row + 2) as nat) + a@ + name@ + b@ + text@ + c@,
{
    let mut message: String = String::new();
    message.append("row ");
    let n: String = big_decimal_text(row as u128 + 2);
    message.append(n.as_str());
    message.append(a);
    message.append(name);
    message.append(b);
    message.append(text);
    message.append(c);
    assert(message@ =~= "row "@ + decimal((row + 2) as nat) + a@ + name@ + b@ + text@ + c@);
    Error { message }
}

fn check_row(
    table: &Table,
    design: &Design,
    near: &Vec<Vec<Vec<bool>>>,
    numbers: &Vec<Vec<Option<u64>>>,
    ids: &Vec<String>,
    id: &str,
    row: usize,
) -> (r: Result<Cell, Error>)
    requires
        table_wf(table@, layout_of(*design)),
        row < table.rows@.len(),
        id@ == row_id(table@, row as int),
    ensures
        match r {
            Ok(c) => checked_row(
                table@,
                layout_of(*design),
                near_views(near@),
                number_views(numbers@),
                views(ids@),
                row as int,
            ) == Ok::<CellView, Seq<char>>(c@) && cell_wf(
                c@,
                layout_of(*design).factors,
                layout_of(*design).roles,
            ),
            Err(e) => checked_row(
                table@,
                layout_of(*design),
                near_views(near@),
                number_views(numbers@),
                views(ids@),
                row as int,
            ) == Err::<CellView, Seq<char>>(e@),
        },
{
    let ghost (tv, l, xv) = (table@, layout_of(*design), number_views(numbers@));
    assert(tv.rows[row as int] == views(table.rows@[row as int]@));
    if char_count(id) == 0 || names_it(ids, id) {
        let e: Error = row_error(row, ": empty or duplicate run_id '", id, "'", "", "");
        proof {
            reveal_strlit("");
            assert(e@ =~= repeated_id(row as int, id@));
        }
        return Err(e);
    }
    let cell: Cell = match shown_cell(table, design, row, near) {
        Ok(c) => c,
        Err((of_role, i)) => {
            if of_role {
                let raw: String = raw_at(&table.rows[row], table.role_col[i]);
                assert(axes_of(l)[l.factors.len() + i].name == design.replicates@[i as int].name@);
                return Err(
                    row_error(
                        row,
                        ": column '",
                        design.replicates[i].name.as_str(),
                        "' value '",
                        raw.as_str(),
                        "' not in design levels",
                    ),
                );
            } else {
                let raw: String = raw_at(&table.rows[row], table.factor_col[i]);
                assert(axes_of(l)[i as int].name == design.factors@[i as int].name@);
                return Err(
                    row_error(
                        row,
                        ": column '",
                        design.factors[i].name.as_str(),
                        "' value '",
                        raw.as_str(),
                        "' not in design levels",
                    ),
                );
            }
        },
    };
    let mut k: usize = 0;
    while k < table.result_col.len()
        invariant
            k <= table.result_col@.len(),
            row < table.rows@.len(),
            tv == table@,
            l == layout_of(*design),
            xv == number_views(numbers@),
            table_wf(tv, l),
            tv.rows[row as int] == views(table.rows@[row as int]@),
            id@ == row_id(tv, row as int),
            id@.len() > 0,
            !views(ids@).contains(id@),
            row_shown(tv, l, near_views(near@), row as int) == Ok::<CellView, nat>(cell@),
            first_unreadable(tv, xv, row as int, 0) == first_unreadable(
                tv,
                xv,
                row as int,
                k as nat,
            ),
        decreases table.result_col@.len() - k,
    {
        let raw: String = text_at(&table.rows[row], table.result_col[k]);
        let good: bool = match read_number(numbers, row, k) {
            Some(x) => is_finite(x),
            None => false,
        };
        assert(good == readable(xv, row as int, k as int));
        if char_count(raw.as_str()) > 0 && !good {
            assert(l.results[k as int] == design.results@[k as int]@);
            return Err(
                row_error(
                    row,
                    ": column '",
                    design.results[k].as_str(),
                    "' must contain a finite number, got '",
                    raw.as_str(),
                    "'",
                ),
            );
        }
        k = k + 1;
    }
    Ok(cell)
}

proof fn lemma_cells_error(
    t: TableView,
    l: Layout,
    near: Seq<Seq<Seq<bool>>>,
    numbers: Seq<Seq<Option<u64>>>,
    n: nat,
    m: nat,
)
    requires
        n <= m,
        row_cells(t, l, near, numbers, n) is Err,
    ensures
        row_cells(t, l, near, numbers, m) == row_cells(t, l, near, numbers, n),
    decreases m - n,
{
    if n < m {
        lemma_cells_error(t, l, near, numbers, n, (m - 1) as nat);
    }
}

impl Cell {
    /// A copy of the cell.
    pub fn copy(&self) -> (c: Cell)
        ensures
            c@ == self@,
    {
        let c: Cell = Cell {
            factor_levels: self.factor_levels.clone(),
            replicate_levels: self.replicate_levels.clone(),
        };
        assert(c@ =~= self@);
        c
    }
}

fn collect_absent(ids: &Vec<String>, runs: &Vec<Run>) -> (out: Vec<String>)
    ensures
        views(out@) == absent(run_views(runs@), views(ids@), runs@.len()),
{
    let ghost (rv, iv) = (run_views(runs@), views(ids@));
    let mut out: Vec<String> = Vec::new();
    assert(views(out@) =~= Seq::empty());
    let mut i: usize = 0;
    while i < runs.len()
        invariant
            i <= runs@.len(),
            rv == run_views(runs@),
            iv == views(ids@),
            views(out@) == absent(rv, iv, i as nat),
        decreases runs@.len() - i,
    {
        assert(rv[i as int] == runs@[i as int]@);
        if !names_it(ids, runs[i].run_id.as_str()) {
            let ghost before = views(out@);
            out.push(runs[i].run_id.clone());
            assert(views(out@) =~= before.push(runs@[i as int].run_id@));
        }
        i = i + 1;
    }
    out
}

fn collect_result(
    table: &Table,
    cells: &Vec<Cell>,
    numbers: &Vec<Vec<Option<u64>>>,
    ids: &Vec<String>,
    absentees: &Vec<String>,
    k: usize,
    Ghost(runs): Ghost<Seq<RunView>>,
) -> (out: ResultData)
    requires
        k < table.result_col@.len(),
        cells@.len() == table.rows@.len(),
        views(ids@) == row_ids(table@, table.rows@.len()),
        views(absentees@) == absent_runs(table@, runs),
        forall|row: int|
            0 <= row < table.rows@.len() && result_text(table@, row, k as int).len() > 0
                ==> number_at(number_views(numbers@), row, k as int) is Some,
    ensures
        out@ == result_data(
            table@,
            cell_views(cells@),
            number_views(numbers@),
            runs,
            k as int,
        ),
{
    let ghost (tv, cv, xv) = (
        table@,
        cell_views(cells@),
        number_views(numbers@),
    );
    let mut data: Vec<Observation> = Vec::new();
    let mut missing: Vec<String> = Vec::new();
    assert(observation_views(data@) =~= Seq::empty());
    assert(views(missing@) =~= Seq::empty());
    assert(views(ids@).len() == ids@.len());
    assert(tv.rows.len() == table.rows@.len());
    let mut row: usize = 0;
    while row < table.rows.len()
        invariant
            row <= table.rows@.len(),
            k < table.result_col@.len(),
            cells@.len() == table.rows@.len(),
            ids@.len() == table.rows@.len(),
            tv == table@,
            cv == cell_views(cells@),
            xv == number_views(numbers@),
            views(ids@) == row_ids(tv, tv.rows.len()),
            tv.rows.len() == table.rows@.len(),
            forall|row: int|
                0 <= row < table.rows@.len() && result_text(tv, row, k as int).len() > 0
                    ==> number_at(xv, row, k as int) is Some,
            observation_views(data@) == observed(tv, cv, xv, k as int, row as nat),
            views(missing@) == unfilled(tv, k as int, row as nat),
        decreases table.rows@.len() - row,
    {
        assert(tv.rows[row as int] == views(table.rows@[row as int]@));
        let raw: String = text_at(&table.rows[row], table.result_col[k]);
        assert(raw@ == result_text(tv, row as int, k as int));
        if char_count(raw.as_str()) > 0 {
            match read_number(numbers, row, k) {
                Some(y) => {
                    let o: Observation = Observation { cell: cells[row].copy(), y };
                    assert(cv[row as int] == cells@[row as int]@);
                    let ghost before = observation_views(data@);
                    let ghost v = o@;
                    data.push(o);
                    assert(observation_views(data@) =~= before.push(v));
                },
                None => {},
            }
        } else {
            let ghost before = views(missing@);
            assert(views(ids@)[row as int] == ids@[row as int]@);
            missing.push(ids[row].clone());
            assert(views(missing@) =~= before.push(row_id(tv, row as int)));
        }
        row = row + 1;
    }
    let ghost filled = views(missing@);
    let ghost av = views(absentees@);
    let mut i: usize = 0;
    assert(filled + av.take(0) =~= filled);
    while i < absentees.len()
        invariant
            i <= absentees@.len(),
            av == views(absentees@),
            views(missing@) == filled + av.take(i as int),
        decreases absentees@.len() - i,
    {
        assert(av[i as int] == absentees@[i as int]@);
        let ghost before = views(missing@);
        missing.push(absentees[i].clone());
        assert(views(missing@) =~= before.push(av[i as int]));
        assert(filled + av.take(i + 1) =~= (filled + av.take(i as int)).push(av[i as int]));
        i = i + 1;
    }
    assert(av.len() == absentees@.len());
    assert(av.take(i as int) =~= av);
    let out: ResultData = ResultData { data, missing };
    assert(out@ =~= result_data(tv, cv, xv, runs, k as int));
    out
}

proof fn lemma_readable(t: TableView, numbers: Seq<Seq<Option<u64>>>, row: int, from: nat, k: int)
    requires
        from <= k < t.result_col.len(),
        first_unreadable(t, numbers, row, from) is None,
        result_text(t, row, k).len() > 0,
    ensures
        readable(numbers, row, k),
    decreases t.result_col.len() - from,
{
    if from < k {
        lemma_readable(t, numbers, row, from + 1, k);
    }
}

/// Reads the observations of every result. `near` tells of every cell of a
/// factor or a role which levels it reads as a number close to, `numbers` what
/// every result cell reads as. An empty result cell is a missing run; so is, for
/// every result, a run of the design that the table does not hold.
pub fn read_observations(
    table: &Table,
    design: &Design,
    near: &Vec<Vec<Vec<bool>>>,
    numbers: &Vec<Vec<Option<u64>>>,
) -> (r: Result<Vec<ResultData>, Error>)
    requires
        table_wf(table@, layout_of(*design)),
    ensures
        match r {
            Ok(out) => report_of(
                table@,
                layout_of(*design),
                near_views(near@),
                number_views(numbers@),
                run_views(design.runs@),
            ) == Ok::<Seq<DataView>, Seq<char>>(data_views(out@)),
            Err(e) => report_of(
                table@,
                layout_of(*design),
                near_views(near@),
                number_views(numbers@),
                run_views(design.runs@),
            ) == Err::<Seq<DataView>, Seq<char>>(e@),
        },
{
    let ghost (tv, l, nv, xv, rv) = (
        table@,
        layout_of(*design),
        near_views(near@),
        number_views(numbers@),
        run_views(design.runs@),
    );
    let mut ids: Vec<String> = Vec::new();
    let mut cells: Vec<Cell> = Vec::new();
    assert(cell_views(cells@) =~= Seq::empty());
    assert(views(ids@) =~= row_ids(tv, 0));
    assert(tv.rows.len() == table.rows@.len());
    let mut row: usize = 0;
    while row < table.rows.len()
        invariant
            row <= table.rows@.len(),
            tv == table@,
            l == layout_of(*design),
            nv == near_views(near@),
            xv == number_views(numbers@),
            rv == run_views(design.runs@),
            tv.rows.len() == table.rows@.len(),
            table_wf(tv, l),
            cells@.len() == row,
            views(ids@) == row_ids(tv, row as nat),
            row_cells(tv, l, nv, xv, row as nat) == Ok::<Seq<CellView>, Seq<char>>(
                cell_views(cells@),
            ),
            forall|i: int, k: int|
                0 <= i < row && 0 <= k < tv.result_col.len() && result_text(tv, i, k).len() > 0
                    ==> #[trigger] number_at(xv, i, k) is Some,
        decreases table.rows@.len() - row,
    {
        let id: String = id_of_row(table, row);
        match check_row(table, design, near, numbers, &ids, id.as_str(), row) {
            Err(e) => {
                proof {
                    lemma_cells_error(tv, l, nv, xv, (row + 1) as nat, tv.rows.len());
                }
                return Err(e);
            },
            Ok(c) => {
                proof {
                    assert forall|i: int, k: int|
                        0 <= i < row + 1 && 0 <= k < tv.result_col.len() && result_text(
                            tv,
                            i,
                            k,
                        ).len() > 0 implies #[trigger] number_at(xv, i, k) is Some by {
                        if i == row {
                            lemma_readable(tv, xv, i, 0, k);
                        }
                    }
                }
                let ghost before = cell_views(cells@);
                let ghost v = c@;
                cells.push(c);
                assert(cell_views(cells@) =~= before.push(v));
            },
        }
        let ghost known = views(ids@);
        let ghost text = id@;
        ids.push(id);
        assert(views(ids@) =~= known.push(text));
        assert(row_ids(tv, (row + 1) as nat) =~= row_ids(tv, row as nat).push(
            row_id(tv, row as int),
        ));
        row = row + 1;
    }
    let absentees: Vec<String> = if table.run_id_col.is_some() {
        collect_absent(&ids, &design.runs)
    } else {
        let none: Vec<String> = Vec::new();
        assert(views(none@) =~= Seq::empty());
        none
    };
    let ghost cv = cell_views(cells@);
    assert(rv.len() == design.runs@.len());
    assert(views(absentees@) =~= absent_runs(tv, rv));
    let mut out: Vec<ResultData> = Vec::new();
    let mut k: usize = 0;
    while k < table.result_col.len()
        invariant
            k <= table.result_col@.len(),
            tv == table@,
            xv == number_views(numbers@),
            cv == cell_views(cells@),
            cells@.len() == table.rows@.len(),
            tv.rows.len() == table.rows@.len(),
            views(ids@) == row_ids(tv, tv.rows.len()),
            views(absentees@) == absent_runs(tv, rv),
            forall|i: int, k: int|
                0 <= i < table.rows@.len() && 0 <= k < tv.result_col.len() && result_text(
                    tv,
                    i,
                    k,
                ).len() > 0 ==> #[trigger] number_at(xv, i, k) is Some,
            out@.len() == k,
            forall|j: int| 0 <= j < k ==> (#[trigger] out@[j])@ == result_data(tv, cv, xv, rv, j),
        decreases table.result_col@.len() - k,
    {
        out.push(collect_result(table, &cells, numbers, &ids, &absentees, k, Ghost(rv)));
        k = k + 1;
    }
    assert(data_views(out@) =~= Seq::new(
        l.results.len(),
        |k: int| result_data(tv, cv, xv, rv, k),
    ));
    Ok(out)
}

} // verus!
