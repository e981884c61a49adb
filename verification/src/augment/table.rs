//! The table of a design that has been run: where its columns stand and which
//! cells its rows show.
use vstd::prelude::*;

use crate::construct::Design;
use crate::error::Error;
use crate::factor::{factor_views, value_text, value_views, FactorValue, FactorView, ValueView};
use crate::model::matrix::{cell_views, cell_wf, cells_wf, role_views, Cell, CellView, RoleView};
use crate::model::formula::name_index;
use crate::text::{
    chars_of, decimal, equal, parse_i64, signed_value, string_of, trim, trimmed, views,
};

verus! {

/// Column positions in the table. First-version tables carry `experiment`
/// instead of `run_id` and `order`; both shapes are accepted.
#[derive(Debug)]
pub struct Table {
    pub headers: Vec<String>,
    pub rows: Vec<Vec<String>>,
    pub factor_col: Vec<usize>,
    pub role_col: Vec<usize>,
    pub result_col: Vec<usize>,
    pub run_id_col: Option<usize>,
    pub order_col: Option<usize>,
    pub unit_col: Option<usize>,
    pub experiment_col: Option<usize>,
}

#[verifier::ext_equal]
pub struct TableView {
    pub headers: Seq<Seq<char>>,
    pub rows: Seq<Seq<Seq<char>>>,
    pub factor_col: Seq<usize>,
    pub role_col: Seq<usize>,
    pub result_col: Seq<usize>,
    pub run_id_col: Option<usize>,
    pub order_col: Option<usize>,
    pub unit_col: Option<usize>,
    pub experiment_col: Option<usize>,
}

pub open spec fn row_views(rows: Seq<Vec<String>>) -> Seq<Seq<Seq<char>>> {
    rows.map_values(|r: Vec<String>| views(r@))
}

impl View for Table {
    type V = TableView;

    open spec fn view(&self) -> TableView {
        TableView {
            headers: views(self.headers@),
            rows: row_views(self.rows@),
            factor_col: self.factor_col@,
            role_col: self.role_col@,
            result_col: self.result_col@,
            run_id_col: self.run_id_col,
            order_col: self.order_col,
            unit_col: self.unit_col,
            experiment_col: self.experiment_col,
        }
    }
}

/// What a design says about its table.
#[verifier::ext_equal]
pub struct Layout {
    pub factors: Seq<FactorView>,
    pub roles: Seq<RoleView>,
    pub results: Seq<Seq<char>>,
    pub unit: Option<Seq<char>>,
}

/// The layout of a design.
pub open spec fn layout_of(d: Design) -> Layout {
    Layout {
        factors: factor_views(d.factors@),
        roles: role_views(d.replicates@),
        results: views(d.results@),
        unit: match d.unit {
            Some(u) => Some(u.name@),
            None => None,
        },
    }
}

/// The column of a name.
pub open spec fn column_of(headers: Seq<Seq<char>>, name: Seq<char>) -> Option<usize> {
    match name_index(headers, name, 0) {
        Some(i) => Some(i as usize),
        None => None,
    }
}

/// The columns of the first `n` names, or the message, which begins with
/// `kind`, for the first that has none.
pub open spec fn columns_of(
    headers: Seq<Seq<char>>,
    kind: Seq<char>,
    names: Seq<Seq<char>>,
    n: nat,
) -> Result<Seq<usize>, Seq<char>>
    decreases n,
{
    if n == 0 {
        Ok(Seq::empty())
    } else {
        match columns_of(headers, kind, names, (n - 1) as nat) {
            Err(m) => Err(m),
            Ok(cols) => match column_of(headers, names[n - 1]) {
                Some(c) => Ok(cols.push(c)),
                None => Err(kind + names[n - 1] + "' not in CSV"@),
            },
        }
    }
}

pub open spec fn names_of(factors: Seq<FactorView>) -> Seq<Seq<char>> {
    factors.map_values(|f: FactorView| f.name)
}

pub open spec fn names_of_roles(roles: Seq<RoleView>) -> Seq<Seq<char>> {
    roles.map_values(|r: RoleView| r.name)
}

/// The column of a name, unless the design uses it otherwise.
pub open spec fn free_column(
    headers: Seq<Seq<char>>,
    taken: Seq<usize>,
    name: Seq<char>,
) -> Option<usize> {
    match column_of(headers, name) {
        Some(c) => if taken.contains(c) {
            None
        } else {
            Some(c)
        },
        None => None,
    }
}

/// The table of a header and rows, or the message where a column is missing.
pub open spec fn table_of(
    headers: Seq<Seq<char>>,
    rows: Seq<Seq<Seq<char>>>,
    l: Layout,
) -> Result<TableView, Seq<char>> {
    match columns_of(headers, "factor column '"@, names_of(l.factors), l.factors.len()) {
        Err(m) => Err(m),
        Ok(factor_col) => match columns_of(
            headers,
            "replicate column '"@,
            names_of_roles(l.roles),
            l.roles.len(),
        ) {
            Err(m) => Err(m),
            Ok(role_col) => match columns_of(headers, "result column '"@, l.results, l.results.len()) {
                Err(m) => Err(m),
                Ok(result_col) => {
                    let unit_col = match l.unit {
                        Some(u) => column_of(headers, u),
                        None => None,
                    };
                    let taken = factor_col + role_col + result_col + (match unit_col {
                        Some(c) => seq![c],
                        None => Seq::empty(),
                    });
                    let run_id_col = free_column(headers, taken, "run_id"@);
                    Ok(
                        TableView {
                            headers,
                            rows,
                            factor_col,
                            role_col,
                            result_col,
                            run_id_col,
                            order_col: free_column(headers, taken, "order"@),
                            unit_col,
                            experiment_col: if run_id_col is None {
                                free_column(headers, taken, "experiment"@)
                            } else {
                                None
                            },
                        },
                    )
                },
            },
        },
    }
}

/// The column of a name.
pub fn find_column(headers: &Vec<String>, name: &str) -> (r: Option<usize>)
    ensures
        r == column_of(views(headers@), name@),
        r matches Some(c) ==> c < headers@.len(),
{
    let ghost hv = views(headers@);
    let mut i: usize = 0;
    while i < headers.len()
        invariant
            i <= headers@.len(),
            hv == views(headers@),
            name_index(hv, name@, 0) == name_index(hv, name@, i as nat),
        decreases headers@.len() - i,
    {
        assert(hv[i as int] == headers@[i as int]@);
        if equal(headers[i].as_str(), name) {
            return Some(i);
        }
        i = i + 1;
    }
    None
}

proof fn lemma_columns_error(
    headers: Seq<Seq<char>>,
    kind: Seq<char>,
    names: Seq<Seq<char>>,
    n: nat,
    m: nat,
)
    requires
        n <= m,
        columns_of(headers, kind, names, n) is Err,
    ensures
        columns_of(headers, kind, names, m) == columns_of(headers, kind, names, n),
    decreases m - n,
{
    if n < m {
        lemma_columns_error(headers, kind, names, n, (m - 1) as nat);
    }
}

/// The columns of names; `kind` begins the message for a name that has none.
pub(crate) fn find_columns(headers: &Vec<String>, kind: &str, names: &Vec<String>) -> (r: Result<
    Vec<usize>,
    Error,
>)
    ensures
        match r {
            Ok(cols) => columns_of(views(headers@), kind@, views(names@), names@.len()) == Ok::<
                Seq<usize>,
                Seq<char>,
            >(cols@) && forall|i: int| 0 <= i < cols@.len() ==> #[trigger] cols@[i] < headers@.len(),
            Err(e) => columns_of(views(headers@), kind@, views(names@), names@.len()) == Err::<
                Seq<usize>,
                Seq<char>,
            >(e@),
        },
{
    let ghost (hv, nv) = (views(headers@), views(names@));
    let mut cols: Vec<usize> = Vec::new();
    let mut i: usize = 0;
    assert(cols@ =~= Seq::empty());
    while i < names.len()
        invariant
            i <= names@.len(),
            hv == views(headers@),
            nv == views(names@),
            columns_of(hv, kind@, nv, i as nat) == Ok::<Seq<usize>, Seq<char>>(cols@),
            forall|k: int| 0 <= k < cols@.len() ==> #[trigger] cols@[k] < headers@.len(),
        decreases names@.len() - i,
    {
        assert(nv[i as int] == names@[i as int]@);
        match find_column(headers, names[i].as_str()) {
            Some(c) => {
                cols.push(c);
            },
            None => {
                proof {
                    lemma_columns_error(hv, kind@, nv, (i + 1) as nat, nv.len());
                }
                return Err(Error::of3(kind, names[i].as_str(), "' not in CSV"));
            },
        }
        i = i + 1;
    }
    Ok(cols)
}

fn holds(list: &Vec<usize>, x: usize) -> (r: bool)
    ensures
        r == list@.contains(x),
{
    let mut i: usize = 0;
    while i < list.len()
        invariant
            i <= list@.len(),
            forall|k: int| 0 <= k < i ==> #[trigger] list@[k] != x,
        decreases list@.len() - i,
    {
        if list[i] == x {
            assert(list@[i as int] == x);
            return true;
        }
        i = i + 1;
    }
    false
}

fn find_free(headers: &Vec<String>, taken: &Vec<usize>, name: &str) -> (r: Option<usize>)
    ensures
        r == free_column(views(headers@), taken@, name@),
        r matches Some(c) ==> c < headers@.len(),
{
    match find_column(headers, name) {
        Some(c) => if holds(taken, c) {
            None
        } else {
            Some(c)
        },
        None => None,
    }
}

fn append_all(out: &mut Vec<usize>, more: &Vec<usize>)
    ensures
        final(out)@ == old(out)@ + more@,
{
    let ghost start = out@;
    let mut i: usize = 0;
    assert(start + more@.take(0) =~= start);
    while i < more.len()
        invariant
            i <= more@.len(),
            out@ == start + more@.take(i as int),
        decreases more@.len() - i,
    {
        out.push(more[i]);
        assert(start + more@.take(i + 1) =~= (start + more@.take(i as int)).push(more@[i as int]));
        i = i + 1;
    }
    assert(more@.take(i as int) =~= more@);
}

/// Every column of the table has a header.
pub open spec fn table_wf(t: TableView, l: Layout) -> bool {
    &&& t.factor_col.len() == l.factors.len()
    &&& t.role_col.len() == l.roles.len()
    &&& t.result_col.len() == l.results.len()
    &&& forall|i: int| 0 <= i < t.factor_col.len() ==> #[trigger] t.factor_col[i] < t.headers.len()
    &&& forall|i: int| 0 <= i < t.role_col.len() ==> #[trigger] t.role_col[i] < t.headers.len()
    &&& forall|i: int| 0 <= i < t.result_col.len() ==> #[trigger] t.result_col[i] < t.headers.len()
}

/// A table has one column for each name.
pub proof fn lemma_columns_len(headers: Seq<Seq<char>>, kind: Seq<char>, names: Seq<Seq<char>>, n: nat)
    requires
        columns_of(headers, kind, names, n) is Ok,
    ensures
        columns_of(headers, kind, names, n)->Ok_0.len() == n,
    decreases n,
{
    if n > 0 {
        lemma_columns_len(headers, kind, names, (n - 1) as nat);
    }
}

/// Finds the columns of a table. A factor or result may be named like one of
/// the columns that the table owns; it is not taken for it then.
pub fn read_table(headers: Vec<String>, rows: Vec<Vec<String>>, design: &Design) -> (r: Result<
    Table,
    Error,
>)
    ensures
        match r {
            Ok(t) => table_of(views(headers@), row_views(rows@), layout_of(*design)) == Ok::<
                TableView,
                Seq<char>,
            >(t@) && table_wf(t@, layout_of(*design)),
            Err(e) => table_of(views(headers@), row_views(rows@), layout_of(*design)) == Err::<
                TableView,
                Seq<char>,
            >(e@),
        },
{
    let ghost l = layout_of(*design);
    let ghost hv = views(headers@);
    let mut factor_names: Vec<String> = Vec::new();
    let mut i: usize = 0;
    while i < design.factors.len()
        invariant
            i <= design.factors@.len(),
            factor_names@.len() == i,
            forall|k: int| 0 <= k < i ==> (#[trigger] factor_names@[k])@ == design.factors@[k].name@,
        decreases design.factors@.len() - i,
    {
        factor_names.push(design.factors[i].name.clone());
        i = i + 1;
    }
    assert(views(factor_names@) =~= names_of(l.factors));
    let factor_col: Vec<usize> = match find_columns(&headers, "factor column '", &factor_names) {
        Err(e) => {
            return Err(e);
        },
        Ok(c) => c,
    };
    let mut role_names: Vec<String> = Vec::new();
    let mut k: usize = 0;
    while k < design.replicates.len()
        invariant
            k <= design.replicates@.len(),
            role_names@.len() == k,
            forall|j: int|
                0 <= j < k ==> (#[trigger] role_names@[j])@ == design.replicates@[j].name@,
        decreases design.replicates@.len() - k,
    {
        role_names.push(design.replicates[k].name.clone());
        k = k + 1;
    }
    assert(views(role_names@) =~= names_of_roles(l.roles));
    let role_col: Vec<usize> = match find_columns(&headers, "replicate column '", &role_names) {
        Err(e) => {
            return Err(e);
        },
        Ok(c) => c,
    };
    assert(l.results.len() == design.results@.len());
    let result_col: Vec<usize> = match find_columns(&headers, "result column '", &design.results) {
        Err(e) => {
            return Err(e);
        },
        Ok(c) => c,
    };
    let unit_col: Option<usize> = match &design.unit {
        Some(u) => find_column(&headers, u.name.as_str()),
        None => None,
    };
    let mut taken: Vec<usize> = Vec::new();
    assert(taken@ =~= Seq::empty());
    append_all(&mut taken, &factor_col);
    append_all(&mut taken, &role_col);
    append_all(&mut taken, &result_col);
    match unit_col {
        Some(c) => {
            taken.push(c);
        },
        None => {},
    }
    assert(taken@ =~= factor_col@ + role_col@ + result_col@ + (match unit_col {
        Some(c) => seq![c],
        None => Seq::empty(),
    }));
    let run_id_col: Option<usize> = find_free(&headers, &taken, "run_id");
    let order_col: Option<usize> = find_free(&headers, &taken, "order");
    let experiment_col: Option<usize> = if run_id_col.is_none() {
        find_free(&headers, &taken, "experiment")
    } else {
        None
    };
    proof {
        lemma_columns_len(hv, "factor column '"@, names_of(l.factors), l.factors.len());
        lemma_columns_len(hv, "replicate column '"@, names_of_roles(l.roles), l.roles.len());
        lemma_columns_len(hv, "result column '"@, l.results, l.results.len());
    }
    let t: Table = Table {
        headers,
        rows,
        factor_col,
        role_col,
        result_col,
        run_id_col,
        order_col,
        unit_col,
        experiment_col,
    };
    assert(t@ =~= table_of(hv, row_views(rows@), l)->Ok_0);
    Ok(t)
}

// ===== Cells =====

/// A cell's text shows a level: it is the level's text, or it reads as the
/// level's number. `near` tells whether it reads as a number that is close
/// enough to the level.
pub open spec fn shows(v: ValueView, cell: Seq<char>, near: bool) -> bool {
    value_text(v) == cell || match v {
        ValueView::Text(s) => s == cell,
        ValueView::Int(n) => signed_value(cell) == Some(n) || near,
        ValueView::Float { .. } => near,
    }
}

/// The flag at a place; false where there is none.
pub open spec fn flag(near: Seq<bool>, i: int) -> bool {
    0 <= i < near.len() && near[i]
}

/// The first level, from `i` on, that a cell shows.
pub open spec fn level_shown(values: Seq<ValueView>, cell: Seq<char>, near: Seq<bool>, i: nat) -> Option<
    nat,
>
    decreases values.len() - i,
{
    if i >= values.len() {
        None
    } else if shows(values[i as int], cell, flag(near, i as int)) {
        Some(i)
    } else {
        level_shown(values, cell, near, i + 1)
    }
}

/// Whether a cell's text shows a level.
pub fn value_matches(v: &FactorValue, cell: &str, near: bool) -> (r: bool)
    ensures
        r == shows(v@, cell@, near),
{
    let t: String = v.to_text();
    if equal(t.as_str(), cell) {
        return true;
    }
    match v {
        FactorValue::Text(s) => equal(s.as_str(), cell),
        FactorValue::Int(n) => {
            let c: Vec<char> = chars_of(cell);
            match parse_i64(&c) {
                Some(m) => m == *n || near,
                None => near,
            }
        },
        FactorValue::Float(_) => near,
    }
}

/// The level number that a cell shows. Every statistic downstream uses these
/// numbers, never the raw text.
pub fn level_index(values: &Vec<FactorValue>, cell: &str, near: &[bool]) -> (r: Option<usize>)
    ensures
        match r {
            Some(i) => level_shown(value_views(values@), cell@, near@, 0) == Some(i as nat) && i
                < values@.len(),
            None => level_shown(value_views(values@), cell@, near@, 0) is None,
        },
{
    let ghost vv = value_views(values@);
    let mut i: usize = 0;
    while i < values.len()
        invariant
            i <= values@.len(),
            vv == value_views(values@),
            level_shown(vv, cell@, near@, 0) == level_shown(vv, cell@, near@, i as nat),
        decreases values@.len() - i,
    {
        assert(vv[i as int] == values@[i as int]@);
        let close: bool = i < near.len() && near[i];
        if value_matches(&values[i], cell, close) {
            return Some(i);
        }
        i = i + 1;
    }
    None
}

/// The text of a row in a column; empty where there is none.
pub open spec fn cell_text(row: Seq<Seq<char>>, col: int) -> Seq<char> {
    if 0 <= col < row.len() {
        trimmed(row[col])
    } else {
        Seq::empty()
    }
}

/// The text of a row in a column, without white space at its ends.
pub fn text_at(row: &Vec<String>, col: usize) -> (s: String)
    ensures
        s@ == cell_text(views(row@), col as int),
{
    if col < row.len() {
        let raw: Vec<char> = chars_of(row[col].as_str());
        let t: Vec<char> = trim(&raw);
        assert(views(row@)[col as int] == raw@);
        string_of(&t)
    } else {
        let s: String = String::new();
        assert(s@ =~= Seq::empty());
        s
    }
}

/// The message for a cell that shows no level; rows are numbered as in the
/// file, from two on.
pub open spec fn no_level(row: nat, name: Seq<char>, text: Seq<char>) -> Seq<char> {
    "row "@ + decimal(row + 2) + ": '"@ + name + "' value '"@ + text
        + "' is not one of the design levels"@
}

/// For every row, factor or role, and level: whether the cell reads as a number
/// close to the level. The roles follow the factors.
pub open spec fn near_views(near: Seq<Vec<Vec<bool>>>) -> Seq<Seq<Seq<bool>>> {
    near.map_values(|r: Vec<Vec<bool>>| r@.map_values(|c: Vec<bool>| c@))
}

/// The flags of a factor or role in a row.
pub open spec fn flags_at(near: Seq<Seq<Seq<bool>>>, row: int, k: int) -> Seq<bool> {
    if 0 <= row < near.len() && 0 <= k < near[row].len() {
        near[row][k]
    } else {
        Seq::empty()
    }
}

/// One name with its levels.
#[verifier::ext_equal]
pub struct Axis {
    pub name: Seq<char>,
    pub levels: Seq<ValueView>,
}

/// The axes of a layout: factors, then roles.
pub open spec fn axes_of(l: Layout) -> Seq<Axis> {
    l.factors.map_values(|f: FactorView| Axis { name: f.name, levels: f.values })
        + l.roles.map_values(|r: RoleView| Axis { name: r.name, levels: r.levels })
}

/// The columns of the axes.
pub open spec fn axis_columns(t: TableView) -> Seq<usize> {
    t.factor_col + t.role_col
}

/// The level numbers that a row shows on the first `n` axes, or the first axis on
/// which it shows none.
pub open spec fn row_levels(
    t: TableView,
    l: Layout,
    near: Seq<Seq<Seq<bool>>>,
    row: int,
    n: nat,
) -> Result<Seq<usize>, nat>
    decreases n,
{
    if n == 0 {
        Ok(Seq::empty())
    } else {
        match row_levels(t, l, near, row, (n - 1) as nat) {
            Err(k) => Err(k),
            Ok(before) => {
                let axis = axes_of(l)[n - 1];
                let text = cell_text(t.rows[row], axis_columns(t)[n - 1] as int);
                match level_shown(axis.levels, text, flags_at(near, row, n - 1), 0) {
                    Some(i) => Ok(before.push(i as usize)),
                    None => Err((n - 1) as nat),
                }
            },
        }
    }
}

/// The cell that a row shows, or the first axis on which it shows no level.
pub open spec fn row_shown(t: TableView, l: Layout, near: Seq<Seq<Seq<bool>>>, row: int) -> Result<
    CellView,
    nat,
> {
    match row_levels(t, l, near, row, axes_of(l).len()) {
        Err(k) => Err(k),
        Ok(levels) => Ok(
            CellView {
                factors: levels.take(l.factors.len() as int),
                roles: levels.skip(l.factors.len() as int),
            },
        ),
    }
}

/// The cell that a row shows, or the message for the first cell that shows no
/// level.
pub open spec fn row_cell_of(t: TableView, l: Layout, near: Seq<Seq<Seq<bool>>>, row: int) -> Result<
    CellView,
    Seq<char>,
> {
    match row_shown(t, l, near, row) {
        Err(k) => Err(
            no_level(
                row as nat,
                axes_of(l)[k as int].name,
                cell_text(t.rows[row], axis_columns(t)[k as int] as int),
            ),
        ),
        Ok(c) => Ok(c),
    }
}

fn no_level_error(index: usize, name: &str, text: &str) -> (e: Error)
    ensures
        e@ == no_level(index as nat, name@, text@),
{
    let mut message: String = String::new();
    message.append("row ");
    let n: String = crate::text::big_decimal_text(index as u128 + 2);
    message.append(n.as_str());
    message.append(": '");
    message.append(name);
    message.append("' value '");
    message.append(text);
    message.append("' is not one of the design levels");
    assert(message@ =~= no_level(index as nat, name@, text@));
    Error { message }
}

proof fn lemma_row_error(
    t: TableView,
    l: Layout,
    near: Seq<Seq<Seq<bool>>>,
    row: int,
    n: nat,
    m: nat,
)
    requires
        n <= m,
        row_levels(t, l, near, row, n) is Err,
    ensures
        row_levels(t, l, near, row, m) == row_levels(t, l, near, row, n),
    decreases m - n,
{
    if n < m {
        lemma_row_error(t, l, near, row, n, (m - 1) as nat);
    }
}

/// The place of a factor, or of a role, among the axes.
pub(crate) open spec fn axis_place(of_role: bool, i: usize, factors: nat) -> nat {
    if of_role {
        factors + i as nat
    } else {
        i as nat
    }
}

/// The cell that a row of the table shows, or the first factor or role whose
/// level it does not show: whether it is a role, and its number.
pub(crate) fn shown_cell(
    table: &Table,
    design: &Design,
    index: usize,
    near: &Vec<Vec<Vec<bool>>>,
) -> (r: Result<Cell, (bool, usize)>)
    requires
        table_wf(table@, layout_of(*design)),
        index < table.rows@.len(),
    ensures
        match r {
            Ok(c) => row_shown(table@, layout_of(*design), near_views(near@), index as int) == Ok::<
                CellView,
                nat,
            >(c@) && cell_wf(c@, layout_of(*design).factors, layout_of(*design).roles),
            Err((of_role, i)) => row_shown(
                table@,
                layout_of(*design),
                near_views(near@),
                index as int,
            ) == Err::<CellView, nat>(axis_place(of_role, i, design.factors@.len())) && i < if of_role {
                design.replicates@.len()
            } else {
                design.factors@.len()
            },
        },
{
    let ghost l = layout_of(*design);
    let ghost tv = table@;
    let ghost nv = near_views(near@);
    let ghost axes = axes_of(l);
    let ghost nf = l.factors.len();
    let row: &Vec<String> = &table.rows[index];
    assert(tv.rows[index as int] == views(row@));
    let none: Vec<bool> = Vec::new();
    let mut factor_levels: Vec<usize> = Vec::new();
    let mut f: usize = 0;
    while f < design.factors.len()
        invariant
            f <= design.factors@.len(),
            index < table.rows@.len(),
            l == layout_of(*design),
            tv == table@,
            nv == near_views(near@),
            axes == axes_of(l),
            nf == l.factors.len(),
            nf == design.factors@.len(),
            table_wf(tv, l),
            row@ == table.rows@[index as int]@,
            tv.rows[index as int] == views(row@),
            none@.len() == 0,
            factor_levels@.len() == f,
            row_levels(tv, l, nv, index as int, f as nat) == Ok::<Seq<usize>, nat>(
                factor_levels@,
            ),
            forall|k: int|
                0 <= k < f ==> #[trigger] factor_levels@[k] < l.factors[k].values.len(),
        decreases design.factors@.len() - f,
    {
        let col: usize = table.factor_col[f];
        let text: String = text_at(row, col);
        let flags: &Vec<bool> = if index < near.len() && f < near[index].len() {
            &near[index][f]
        } else {
            &none
        };
        proof {
            assert(l.factors[f as int] == design.factors@[f as int]@);
            assert(axes[f as int].levels == value_views(design.factors@[f as int].values@));
            assert(axis_columns(tv)[f as int] == col);
            if index < near@.len() {
                assert(nv[index as int] == near@[index as int]@.map_values(|c: Vec<bool>| c@));
            }
            assert(flags@ =~= flags_at(nv, index as int, f as int));
        }
        match level_index(&design.factors[f].values, text.as_str(), flags) {
            Some(i) => {
                factor_levels.push(i);
            },
            None => {
                proof {
                    lemma_row_error(tv, l, nv, index as int, (f + 1) as nat, axes.len());
                }
                return Err((false, f));
            },
        }
        f = f + 1;
    }
    let mut replicate_levels: Vec<usize> = Vec::new();
    let mut k: usize = 0;
    assert(factor_levels@ + replicate_levels@ =~= factor_levels@);
    while k < design.replicates.len()
        invariant
            k <= design.replicates@.len(),
            index < table.rows@.len(),
            l == layout_of(*design),
            tv == table@,
            nv == near_views(near@),
            axes == axes_of(l),
            nf == l.factors.len(),
            nf == design.factors@.len(),
            table_wf(tv, l),
            row@ == table.rows@[index as int]@,
            tv.rows[index as int] == views(row@),
            none@.len() == 0,
            factor_levels@.len() == nf,
            replicate_levels@.len() == k,
                row_levels(tv, l, nv, index as int, nf + k as nat) == Ok::<Seq<usize>, nat>(
                factor_levels@ + replicate_levels@,
            ),
            forall|j: int|
                0 <= j < k ==> #[trigger] replicate_levels@[j] < l.roles[j].levels.len(),
        decreases design.replicates@.len() - k,
    {
        let col: usize = table.role_col[k];
        let text: String = text_at(row, col);
        let n: usize = design.factors.len();
        let flags: &Vec<bool> = if index < near.len() && k < near[index].len() && n
            < near[index].len() - k {
            &near[index][n + k]
        } else {
            &none
        };
        proof {
            assert(l.roles[k as int] == design.replicates@[k as int]@);
            assert(axes[nf + k as int] == Axis {
                name: l.roles[k as int].name,
                levels: l.roles[k as int].levels,
            });
            assert(axis_columns(tv)[nf + k as int] == col);
            if index < near@.len() {
                assert(nv[index as int] == near@[index as int]@.map_values(|c: Vec<bool>| c@));
            }
            assert(flags@ =~= flags_at(nv, index as int, nf + k as int));
        }
        match level_index(&design.replicates[k].levels, text.as_str(), flags) {
            Some(i) => {
                let ghost before = factor_levels@ + replicate_levels@;
                replicate_levels.push(i);
                assert(factor_levels@ + replicate_levels@ =~= before.push(i));
            },
            None => {
                proof {
                    lemma_row_error(tv, l, nv, index as int, nf + k as nat + 1, axes.len());
                }
                return Err((true, k));
            },
        }
        k = k + 1;
    }
    let ghost all = factor_levels@ + replicate_levels@;
    assert(axes.len() == nf + l.roles.len());
    assert(all.take(nf as int) =~= factor_levels@);
    assert(all.skip(nf as int) =~= replicate_levels@);
    Ok(Cell { factor_levels, replicate_levels })
}

/// The cell that a row of the table shows.
pub fn row_cell(table: &Table, design: &Design, index: usize, near: &Vec<Vec<Vec<bool>>>) -> (r: Result<
    Cell,
    Error,
>)
    requires
        table_wf(table@, layout_of(*design)),
        index < table.rows@.len(),
    ensures
        match r {
            Ok(c) => row_cell_of(table@, layout_of(*design), near_views(near@), index as int) == Ok::<
                CellView,
                Seq<char>,
            >(c@) && cell_wf(c@, layout_of(*design).factors, layout_of(*design).roles),
            Err(e) => row_cell_of(table@, layout_of(*design), near_views(near@), index as int)
                == Err::<CellView, Seq<char>>(e@),
        },
{
    match shown_cell(table, design, index, near) {
        Ok(c) => Ok(c),
        Err((of_role, i)) => {
            let ghost l = layout_of(*design);
            assert(table@.rows[index as int] == views(table.rows@[index as int]@));
            if of_role {
                let text: String = text_at(&table.rows[index], table.role_col[i]);
                assert(axes_of(l)[l.factors.len() + i].name == design.replicates@[i as int].name@);
                Err(no_level_error(index, design.replicates[i].name.as_str(), text.as_str()))
            } else {
                let text: String = text_at(&table.rows[index], table.factor_col[i]);
                assert(axes_of(l)[i as int].name == design.factors@[i as int].name@);
                Err(no_level_error(index, design.factors[i].name.as_str(), text.as_str()))
            }
        },
    }
}

/// Every result cell of the row is filled.
pub open spec fn complete(t: TableView, row: int) -> bool {
    forall|i: int|
        0 <= i < t.result_col.len() ==> cell_text(t.rows[row], #[trigger] t.result_col[i] as int).len()
            > 0
}

/// Whether every result cell of a row is filled.
pub fn is_complete(table: &Table, index: usize) -> (r: bool)
    requires
        index < table.rows@.len(),
    ensures
        r == complete(table@, index as int),
{
    let row: &Vec<String> = &table.rows[index];
    assert(table@.rows[index as int] == views(row@));
    let mut i: usize = 0;
    while i < table.result_col.len()
        invariant
            i <= table.result_col@.len(),
            table@.rows[index as int] == views(row@),
            forall|k: int|
                0 <= k < i ==> cell_text(
                    table@.rows[index as int],
                    #[trigger] table@.result_col[k] as int,
                ).len() > 0,
        decreases table.result_col@.len() - i,
    {
        let t: String = text_at(row, table.result_col[i]);
        if crate::text::char_count(t.as_str()) == 0 {
            assert(cell_text(table@.rows[index as int], table@.result_col[i as int] as int).len() == 0);
            return false;
        }
        i = i + 1;
    }
    true
}

/// The cells of the first `n` rows that form the base, and how many rows are
/// pending.
pub open spec fn base_of(
    t: TableView,
    l: Layout,
    near: Seq<Seq<Seq<bool>>>,
    include_pending: bool,
    n: nat,
) -> Result<(Seq<CellView>, nat), Seq<char>>
    decreases n,
{
    if n == 0 {
        Ok((Seq::empty(), 0))
    } else {
        match base_of(t, l, near, include_pending, (n - 1) as nat) {
            Err(m) => Err(m),
            Ok((cells, pending)) => {
                let more = if complete(t, n - 1) {
                    pending
                } else {
                    pending + 1
                };
                if complete(t, n - 1) || include_pending {
                    match row_cell_of(t, l, near, n - 1) {
                        Err(m) => Err(m),
                        Ok(c) => Ok((cells.push(c), more)),
                    }
                } else {
                    Ok((cells, more))
                }
            },
        }
    }
}

proof fn lemma_base_error(
    t: TableView,
    l: Layout,
    near: Seq<Seq<Seq<bool>>>,
    include_pending: bool,
    n: nat,
    m: nat,
)
    requires
        n <= m,
        base_of(t, l, near, include_pending, n) is Err,
    ensures
        base_of(t, l, near, include_pending, m) == base_of(t, l, near, include_pending, n),
    decreases m - n,
{
    if n < m {
        lemma_base_error(t, l, near, include_pending, n, (m - 1) as nat);
    }
}

/// The completed rows form the base; pending rows join on request only.
pub fn base_cells(
    table: &Table,
    design: &Design,
    near: &Vec<Vec<Vec<bool>>>,
    with_pending: bool,
) -> (r: Result<(Vec<Cell>, usize), Error>)
    requires
        table_wf(table@, layout_of(*design)),
    ensures
        match r {
            Ok((cells, pending)) => base_of(
                table@,
                layout_of(*design),
                near_views(near@),
                with_pending,
                table.rows@.len(),
            ) == Ok::<(Seq<CellView>, nat), Seq<char>>((cell_views(cells@), pending as nat))
                && cells_wf(
                cell_views(cells@),
                layout_of(*design).factors,
                layout_of(*design).roles,
            ),
            Err(e) => base_of(
                table@,
                layout_of(*design),
                near_views(near@),
                with_pending,
                table.rows@.len(),
            ) == Err::<(Seq<CellView>, nat), Seq<char>>(e@),
        },
{
    let ghost (tv, l, nv) = (table@, layout_of(*design), near_views(near@));
    let mut cells: Vec<Cell> = Vec::new();
    let mut pending: usize = 0;
    assert(cell_views(cells@) =~= Seq::empty());
    let mut i: usize = 0;
    while i < table.rows.len()
        invariant
            i <= table.rows@.len(),
            tv == table@,
            l == layout_of(*design),
            nv == near_views(near@),
            table_wf(tv, l),
                pending <= i,
            base_of(tv, l, nv, with_pending, i as nat) == Ok::<(Seq<CellView>, nat), Seq<char>>(
                (cell_views(cells@), pending as nat),
            ),
            cells_wf(cell_views(cells@), l.factors, l.roles),
        decreases table.rows@.len() - i,
    {
        let done: bool = is_complete(table, i);
        if !done {
            pending = pending + 1;
        }
        if done || with_pending {
            match row_cell(table, design, i, near) {
                Err(e) => {
                    proof {
                        lemma_base_error(tv, l, nv, with_pending, (i + 1) as nat, tv.rows.len());
                    }
                    return Err(e);
                },
                Ok(c) => {
                    let ghost before = cell_views(cells@);
                    let ghost v = c@;
                    cells.push(c);
                    assert(cell_views(cells@) =~= before.push(v));
                },
            }
        }
        i = i + 1;
    }
    Ok((cells, pending))
}

} // verus!
