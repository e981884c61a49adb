//! Run ids and unit ids that continue those in use.
use vstd::prelude::*;

use super::table::{
    cell_text, layout_of, near_views, row_cell, row_cell_of, table_wf, text_at, Layout, Table,
    TableView,
};
use crate::construct::types::{optional_text, run_views, RunView};
use crate::construct::{Design, Run};
use crate::error::Error;
use crate::factor::{factor_views, Factor, FactorView};
use crate::model::formula::{factor_names, find_factor, name_index, same_term};
use crate::model::matrix::{
    find_role, role_names, role_views, Cell, CellView, ReplicateRole, RoleView, Unit, UnitView,
};
use crate::text::{
    char_count, chars_of, decimal, decimal_text, digit_text, digits_value, equal, is_ascii_digit,
    lemma_padded_value, padded, padded_text, parse_usize, part, unsigned_value, views,
};

verus! {

// ===== Ids =====

/// The number of an id and how many digits it has: a prefix and digits.
pub open spec fn id_of(prefix: char, s: Seq<char>) -> Option<(nat, nat)> {
    if s.len() > 0 && s[0] == prefix && digit_text(s.drop_first()) && digits_value(s.drop_first())
        <= usize::MAX {
        Some((digits_value(s.drop_first()), (s.len() - 1) as nat))
    } else {
        None
    }
}

/// The number of an id and how many digits it has.
pub fn parse_id(prefix: char, s: &str) -> (r: Option<(usize, usize)>)
    ensures
        match r {
            Some((n, w)) => id_of(prefix, s@) == Some((n as nat, w as nat)),
            None => id_of(prefix, s@) is None,
        },
{
    let all: Vec<char> = chars_of(s);
    if all.len() == 0 || all[0] != prefix {
        return None;
    }
    let digits: Vec<char> = part(&all, 1, all.len());
    assert(digits@ =~= s@.drop_first());
    if digits.len() == 0 {
        return None;
    }
    let mut i: usize = 0;
    while i < digits.len()
        invariant
            i <= digits@.len(),
            digits@ == s@.drop_first(),
            forall|k: int| 0 <= k < i ==> crate::text::ascii_digit(#[trigger] digits@[k]),
        decreases digits@.len() - i,
    {
        if !is_ascii_digit(digits[i]) {
            assert(!crate::text::ascii_digit(digits@[i as int]));
            return None;
        }
        i = i + 1;
    }
    assert(digit_text(digits@));
    assert(crate::text::ascii_digit(digits@[0]));
    assert(crate::text::without_plus(digits@) == digits@);
    match parse_usize(&digits) {
        Some(n) => Some((n, digits.len())),
        None => None,
    }
}

/// A padded number behind a letter is an id of that number.
pub proof fn lemma_id_of_padded(prefix: char, n: nat, width: nat)
    requires
        n <= usize::MAX,
    ensures
        id_of(prefix, seq![prefix] + padded(n, width)) == Some((n, padded(n, width).len())),
{
    lemma_padded_value(n, width);
    let s = seq![prefix] + padded(n, width);
    assert(s.drop_first() =~= padded(n, width));
}

/// The larger of two numbers.
pub open spec fn larger(a: nat, b: nat) -> nat {
    if a > b {
        a
    } else {
        b
    }
}

/// The largest number among the first `n` ids, and at least `least`.
pub open spec fn top_number(ids: Seq<Seq<char>>, prefix: char, least: nat, n: nat) -> nat
    decreases n,
{
    if n == 0 {
        least
    } else {
        let before = top_number(ids, prefix, least, (n - 1) as nat);
        match id_of(prefix, ids[n - 1]) {
            Some((m, _)) => larger(before, m),
            None => before,
        }
    }
}

/// The largest width among the first `n` ids, and at least `least`.
pub open spec fn top_width(ids: Seq<Seq<char>>, prefix: char, least: nat, n: nat) -> nat
    decreases n,
{
    if n == 0 {
        least
    } else {
        let before = top_width(ids, prefix, least, (n - 1) as nat);
        match id_of(prefix, ids[n - 1]) {
            Some((_, w)) => larger(before, w),
            None => before,
        }
    }
}

/// The largest of the first `n` numbers, and at least `least`.
pub open spec fn top_of(numbers: Seq<Option<nat>>, least: nat, n: nat) -> nat
    decreases n,
{
    if n == 0 {
        least
    } else {
        let before = top_of(numbers, least, (n - 1) as nat);
        match numbers[n - 1] {
            Some(m) => larger(before, m),
            None => before,
        }
    }
}

/// The run ids in use: those of the table, otherwise those of the design.
pub open spec fn ids_in_use(t: TableView, runs: Seq<RunView>) -> Seq<Seq<char>> {
    match t.run_id_col {
        Some(c) => t.rows.map_values(|r: Seq<Seq<char>>| cell_text(r, c as int)),
        None => runs.map_values(|r: RunView| r.run_id),
    }
}

/// The execution orders in use: those of the table, otherwise those of the
/// design.
pub open spec fn orders_in_use(t: TableView, runs: Seq<RunView>) -> Seq<Option<nat>> {
    match t.order_col {
        Some(c) => t.rows.map_values(
            |r: Seq<Seq<char>>| unsigned_value(cell_text(r, c as int), usize::MAX as nat),
        ),
        None => runs.map_values(|r: RunView| Some(r.order)),
    }
}

/// The numbers in a column.
pub open spec fn numbers_in(t: TableView, col: usize) -> Seq<Option<nat>> {
    t.rows.map_values(|r: Seq<Seq<char>>| unsigned_value(cell_text(r, col as int), usize::MAX as nat))
}

/// The first id, from `i` on, that cannot be continued.
pub open spec fn first_foreign(ids: Seq<Seq<char>>, i: nat) -> Option<nat>
    decreases ids.len() - i,
{
    if i >= ids.len() {
        None
    } else if id_of('r', ids[i as int]) is None {
        Some(i)
    } else {
        first_foreign(ids, i + 1)
    }
}

/// An id in another width.
pub open spec fn repadded(id: Seq<char>, width: nat) -> Seq<char> {
    match id_of('r', id) {
        Some((n, _)) => "r"@ + padded(n, width),
        None => id,
    }
}

/// Ids and orders of added runs.
#[derive(Debug)]
pub struct IdPlan {
    pub new_ids: Vec<String>,
    pub new_orders: Vec<usize>,
    /// Set where the width grew: the ids of the table's rows in the new width.
    pub rewritten: Option<Vec<String>>,
    pub width: usize,
}

#[verifier::ext_equal]
pub struct IdView {
    pub new_ids: Seq<Seq<char>>,
    pub new_orders: Seq<usize>,
    pub rewritten: Option<Seq<Seq<char>>>,
    pub width: nat,
}

impl View for IdPlan {
    type V = IdView;

    open spec fn view(&self) -> IdView {
        IdView {
            new_ids: views(self.new_ids@),
            new_orders: self.new_orders@,
            rewritten: match self.rewritten {
                Some(v) => Some(views(v@)),
                None => None,
            },
            width: self.width as nat,
        }
    }
}

/// The number of the first added run.
pub open spec fn next_number(t: TableView, runs: Seq<RunView>) -> nat {
    let ids = ids_in_use(t, runs);
    top_number(ids, 'r', t.rows.len(), ids.len()) + 1
}

/// The largest order in use.
pub open spec fn top_order(t: TableView, runs: Seq<RunView>) -> nat {
    let orders = orders_in_use(t, runs);
    top_of(orders, t.rows.len(), orders.len())
}

/// The width of the ids with the added runs.
pub open spec fn final_width(t: TableView, runs: Seq<RunView>, added: nat) -> nat {
    let ids = ids_in_use(t, runs);
    let last = next_number(t, runs) + (if added == 0 {
        0
    } else {
        (added - 1) as nat
    });
    larger(top_width(ids, 'r', 4, ids.len()), decimal(last).len())
}

/// Some id in use does not have the final width.
pub open spec fn uneven(ids: Seq<Seq<char>>, width: nat) -> bool {
    exists|i: int|
        0 <= i < ids.len() && (id_of('r', #[trigger] ids[i]) matches Some((_, w)) && w != width)
}

/// The plan for added runs, or the message where the ids cannot be continued.
pub open spec fn plan_of(t: TableView, runs: Seq<RunView>, added: nat) -> Result<IdView, Seq<char>> {
    let ids = ids_in_use(t, runs);
    let width = final_width(t, runs, added);
    match first_foreign(ids, 0) {
        Some(i) if t.run_id_col is Some => Err(
            "run_id '"@ + ids[i as int]
                + "' is not of the form r<digits>, so the sequence cannot be continued"@,
        ),
        _ => Ok(
            IdView {
                new_ids: Seq::new(
                    added,
                    |i: int| "r"@ + padded((next_number(t, runs) + i) as nat, width),
                ),
                new_orders: Seq::new(added, |i: int| (top_order(t, runs) + 1 + i) as usize),
                rewritten: if t.run_id_col is Some && uneven(ids, width) {
                    Some(ids.map_values(|id: Seq<char>| repadded(id, width)))
                } else {
                    None
                },
                width,
            },
        ),
    }
}

fn read_ids(table: &Table, runs: &Vec<Run>) -> (out: Vec<String>)
    ensures
        views(out@) == ids_in_use(table@, run_views(runs@)),
{
    let ghost tv = table@;
    let mut out: Vec<String> = Vec::new();
    let mut i: usize = 0;
    match table.run_id_col {
        Some(c) => {
            while i < table.rows.len()
                invariant
                    i <= table.rows@.len(),
                    tv == table@,
                    out@.len() == i,
                    forall|k: int|
                        0 <= k < i ==> (#[trigger] out@[k])@ == cell_text(tv.rows[k], c as int),
                decreases table.rows@.len() - i,
            {
                assert(tv.rows[i as int] == views(table.rows@[i as int]@));
                out.push(text_at(&table.rows[i], c));
                i = i + 1;
            }
        },
        None => {
            while i < runs.len()
                invariant
                    i <= runs@.len(),
                    out@.len() == i,
                    forall|k: int| 0 <= k < i ==> (#[trigger] out@[k])@ == runs@[k].run_id@,
                decreases runs@.len() - i,
            {
                out.push(runs[i].run_id.clone());
                i = i + 1;
            }
        },
    }
    assert(views(out@) =~= ids_in_use(tv, run_views(runs@)));
    out
}

/// The largest number in a column of the table, and at least the number of rows.
pub fn top_in_column(table: &Table, col: usize) -> (n: usize)
    ensures
        n == top_of(numbers_in(table@, col), table@.rows.len(), table@.rows.len()),
{
    let ghost nums = numbers_in(table@, col);
    let ghost tv = table@;
    assert(tv.rows.len() == table.rows@.len());
    let mut n: usize = table.rows.len();
    let mut i: usize = 0;
    while i < table.rows.len()
        invariant
            i <= table.rows@.len(),
            tv == table@,
            nums == numbers_in(tv, col),
            n == top_of(nums, tv.rows.len(), i as nat),
        decreases table.rows@.len() - i,
    {
        assert(tv.rows[i as int] == views(table.rows@[i as int]@));
        let s: String = text_at(&table.rows[i], col);
        let t: Vec<char> = chars_of(s.as_str());
        match parse_usize(&t) {
            Some(m) => {
                if m > n {
                    n = m;
                }
            },
            None => {},
        }
        i = i + 1;
    }
    n
}

fn read_top_order(table: &Table, runs: &Vec<Run>) -> (n: usize)
    ensures
        n == top_order(table@, run_views(runs@)),
{
    match table.order_col {
        Some(c) => {
            assert(orders_in_use(table@, run_views(runs@)) =~= numbers_in(table@, c));
            top_in_column(table, c)
        },
        None => {
            let ghost rv = run_views(runs@);
            let ghost nums = orders_in_use(table@, rv);
            let mut n: usize = table.rows.len();
            assert(table@.rows.len() == table.rows@.len());
            let mut i: usize = 0;
            while i < runs.len()
                invariant
                    i <= runs@.len(),
                    rv == run_views(runs@),
                    table.order_col is None,
                    nums == orders_in_use(table@, rv),
                    n == top_of(nums, table@.rows.len(), i as nat),
                decreases runs@.len() - i,
            {
                assert(rv[i as int] == runs@[i as int]@);
                assert(nums[i as int] == Some(runs@[i as int].order as nat));
                if runs[i].order > n {
                    n = runs[i].order;
                }
                i = i + 1;
            }
            n
        },
    }
}

/// Whether ids and orders of added runs fit the machine.
pub fn sequence_fits(table: &Table, runs: &Vec<Run>, n_add: usize) -> (r: bool)
    ensures
        r == (next_number(table@, run_views(runs@)) + n_add <= usize::MAX && top_order(
            table@,
            run_views(runs@),
        ) + n_add < usize::MAX),
{
    let ghost (tv, rv) = (table@, run_views(runs@));
    let source: Vec<String> = read_ids(table, runs);
    let ghost ids = views(source@);
    let mut top: usize = table.rows.len();
    assert(tv.rows.len() == top);
    let mut i: usize = 0;
    while i < source.len()
        invariant
            i <= source@.len(),
            ids == views(source@),
            top == top_number(ids, 'r', tv.rows.len(), i as nat),
        decreases source@.len() - i,
    {
        assert(ids[i as int] == source@[i as int]@);
        match parse_id('r', source[i].as_str()) {
            Some((n, _)) => {
                if n > top {
                    top = n;
                }
            },
            None => {},
        }
        i = i + 1;
    }
    assert(ids.len() == source@.len());
    let highest: usize = read_top_order(table, runs);
    n_add < usize::MAX && top < usize::MAX - n_add && highest < usize::MAX - n_add
}

fn numbered(n: u64, width: usize) -> (s: String)
    ensures
        s@ == "r"@ + padded(n as nat, width as nat),
{
    let mut s: String = String::new();
    s.append("r");
    let d: String = padded_text(n, width);
    s.append(d.as_str());
    assert(s@ =~= "r"@ + padded(n as nat, width as nat));
    s
}

/// Plans ids and orders of added runs. An id of the table that cannot be read
/// would make the continued sequence a guess; it is refused.
pub fn plan_ids(table: &Table, runs: &Vec<Run>, n_add: usize) -> (r: Result<IdPlan, Error>)
    requires
        next_number(table@, run_views(runs@)) + n_add <= usize::MAX,
        top_order(table@, run_views(runs@)) + n_add < usize::MAX,
    ensures
        match r {
            Ok(p) => plan_of(table@, run_views(runs@), n_add as nat) == Ok::<IdView, Seq<char>>(p@),
            Err(e) => plan_of(table@, run_views(runs@), n_add as nat) == Err::<IdView, Seq<char>>(
                e@,
            ),
        },
{
    let ghost (tv, rv) = (table@, run_views(runs@));
    let from_table: bool = table.run_id_col.is_some();
    let source: Vec<String> = read_ids(table, runs);
    let ghost ids = views(source@);
    let rows: usize = table.rows.len();
    assert(tv.rows.len() == rows);
    let mut top: usize = rows;
    let mut width: usize = 4;
    let mut i: usize = 0;
    while i < source.len()
        invariant
            i <= source@.len(),
            tv == table@,
            rv == run_views(runs@),
            ids == views(source@),
            ids == ids_in_use(tv, rv),
            from_table == (tv.run_id_col is Some),
            top == top_number(ids, 'r', tv.rows.len(), i as nat),
            width == top_width(ids, 'r', 4, i as nat),
            from_table ==> first_foreign(ids, 0) == first_foreign(ids, i as nat),
        decreases source@.len() - i,
    {
        assert(ids[i as int] == source@[i as int]@);
        match parse_id('r', source[i].as_str()) {
            Some((n, w)) => {
                if n > top {
                    top = n;
                }
                if w > width {
                    width = w;
                }
            },
            None => {
                if from_table {
                    assert(first_foreign(ids, 0) == Some(i as nat));
                    return Err(
                        Error::of3(
                            "run_id '",
                            source[i].as_str(),
                            "' is not of the form r<digits>, so the sequence cannot be continued",
                        ),
                    );
                }
            },
        }
        i = i + 1;
    }
    assert(ids.len() == source@.len());
    let next: usize = top + 1;
    let last: usize = if n_add == 0 {
        next
    } else {
        next + (n_add - 1)
    };
    let digits: String = decimal_text(last);
    let len: usize = char_count(digits.as_str());
    let wide: usize = if width > len { width } else { len };
    assert(wide == final_width(tv, rv, n_add as nat));
    let mut odd: bool = false;
    let mut k: usize = 0;
    while k < source.len()
        invariant
            k <= source@.len(),
            ids == views(source@),
            odd ==> uneven(ids, wide as nat),
            !odd ==> forall|j: int|
                0 <= j < k ==> !(id_of('r', #[trigger] ids[j]) matches Some((_, w)) && w != wide),
        decreases source@.len() - k,
    {
        assert(ids[k as int] == source@[k as int]@);
        match parse_id('r', source[k].as_str()) {
            Some((_, w)) => {
                if w != wide {
                    assert(id_of('r', ids[k as int]) matches Some((_, x)) && x != wide);
                    odd = true;
                }
            },
            None => {},
        }
        k = k + 1;
    }
    assert(odd == uneven(ids, wide as nat));
    let rewritten: Option<Vec<String>> = if odd && from_table {
        let mut out: Vec<String> = Vec::new();
        let mut j: usize = 0;
        while j < source.len()
            invariant
                j <= source@.len(),
                ids == views(source@),
                out@.len() == j,
                forall|m: int| 0 <= m < j ==> (#[trigger] out@[m])@ == repadded(ids[m], wide as nat),
            decreases source@.len() - j,
        {
            assert(ids[j as int] == source@[j as int]@);
            let s: String = match parse_id('r', source[j].as_str()) {
                Some((n, _)) => numbered(n as u64, wide),
                None => source[j].clone(),
            };
            out.push(s);
            j = j + 1;
        }
        assert(views(out@) =~= ids.map_values(|id: Seq<char>| repadded(id, wide as nat)));
        Some(out)
    } else {
        None
    };
    let highest: usize = read_top_order(table, runs);
    let mut new_ids: Vec<String> = Vec::new();
    let mut new_orders: Vec<usize> = Vec::new();
    let mut a: usize = 0;
    while a < n_add
        invariant
            a <= n_add,
            next + n_add <= usize::MAX,
            highest + n_add < usize::MAX,
            new_ids@.len() == a,
            new_orders@.len() == a,
            forall|m: int|
                0 <= m < a ==> (#[trigger] new_ids@[m])@ == "r"@ + padded(
                    (next + m) as nat,
                    wide as nat,
                ),
            forall|m: int| 0 <= m < a ==> #[trigger] new_orders@[m] == highest + 1 + m,
        decreases n_add - a,
    {
        new_ids.push(numbered((next + a) as u64, wide));
        new_orders.push(highest + 1 + a);
        a = a + 1;
    }
    let p: IdPlan = IdPlan { new_ids, new_orders, rewritten, width: wide };
    proof {
        let want = plan_of(tv, rv, n_add as nat);
        if from_table {
            assert(first_foreign(ids, 0) is None);
        }
        assert(p@.new_ids =~= want->Ok_0.new_ids);
        assert(p@.new_orders =~= want->Ok_0.new_orders);
        assert(p@ =~= want->Ok_0);
    }
    Ok(p)
}

proof fn lemma_top_number(ids: Seq<Seq<char>>, prefix: char, least: nat, n: nat, i: int)
    requires
        n <= ids.len(),
    ensures
        least <= top_number(ids, prefix, least, n),
        0 <= i < n ==> (id_of(prefix, ids[i]) matches Some((m, _)) ==> m <= top_number(
            ids,
            prefix,
            least,
            n,
        )),
    decreases n,
{
    if n > 0 {
        lemma_top_number(ids, prefix, least, (n - 1) as nat, i);
    }
}

/// The run ids continue the sequence: every new id has a number of its own, above
/// that of every id in use, so no id is given twice.
pub proof fn new_ids_are_fresh(t: TableView, runs: Seq<RunView>, added: nat, k: int, i: int)
    requires
        plan_of(t, runs, added) is Ok,
        0 <= k < added,
        0 <= i < ids_in_use(t, runs).len(),
        next_number(t, runs) + added <= usize::MAX,
    ensures
        ({
            let new_id = plan_of(t, runs, added)->Ok_0.new_ids[k];
            let old_id = ids_in_use(t, runs)[i];
            &&& id_of('r', new_id) matches Some((n, _)) && n == next_number(t, runs) + k
            &&& id_of('r', old_id) matches Some((m, _)) ==> m < next_number(t, runs) + k
            &&& new_id != old_id
        }),
{
    let ids = ids_in_use(t, runs);
    let width = final_width(t, runs, added);
    let n = (next_number(t, runs) + k) as nat;
    lemma_id_of_padded('r', n, width);
    reveal_strlit("r");
    assert("r"@ =~= seq!['r']);
    lemma_top_number(ids, 'r', t.rows.len(), ids.len(), i);
}

/// New execution orders follow all that are in use.
pub proof fn new_orders_follow(t: TableView, runs: Seq<RunView>, added: nat, k: int)
    requires
        plan_of(t, runs, added) is Ok,
        0 <= k < added,
        top_order(t, runs) + added < usize::MAX,
    ensures
        plan_of(t, runs, added)->Ok_0.new_orders[k] == top_order(t, runs) + 1 + k,
        t.rows.len() <= top_order(t, runs),
{
    let orders = orders_in_use(t, runs);
    lemma_top_of(orders, t.rows.len(), orders.len());
}

proof fn lemma_top_of(numbers: Seq<Option<nat>>, least: nat, n: nat)
    ensures
        least <= top_of(numbers, least, n),
    decreases n,
{
    if n > 0 {
        lemma_top_of(numbers, least, (n - 1) as nat);
    }
}

// ===== Units =====

/// Unit ids in use with their keys.
#[derive(Debug)]
pub struct Units {
    pub keys: Vec<Vec<usize>>,
    pub ids: Vec<String>,
    pub next: usize,
    pub width: usize,
}

#[verifier::ext_equal]
pub struct UnitsView {
    pub keys: Seq<Seq<usize>>,
    pub ids: Seq<Seq<char>>,
    pub next: nat,
    pub width: nat,
}

impl View for Units {
    type V = UnitsView;

    open spec fn view(&self) -> UnitsView {
        UnitsView {
            keys: crate::tuples::lists(self.keys@),
            ids: views(self.ids@),
            next: self.next as nat,
            width: self.width as nat,
        }
    }
}

/// The place of a key, from `i` on.
pub open spec fn key_place(keys: Seq<Seq<usize>>, key: Seq<usize>, i: nat) -> Option<nat>
    decreases keys.len() - i,
{
    if i >= keys.len() {
        None
    } else if keys[i as int] == key {
        Some(i)
    } else {
        key_place(keys, key, i + 1)
    }
}

/// The id of the next new unit.
pub open spec fn fresh_id(u: UnitsView) -> Seq<char> {
    "u"@ + padded(u.next, u.width)
}

/// The units once a key has an id.
pub open spec fn with_key(u: UnitsView, key: Seq<usize>) -> UnitsView {
    match key_place(u.keys, key, 0) {
        Some(_) => u,
        None => UnitsView {
            keys: u.keys.push(key),
            ids: u.ids.push(fresh_id(u)),
            next: u.next + 1,
            width: u.width,
        },
    }
}

/// The id of a key: the one in use, otherwise a new one.
pub open spec fn id_for(u: UnitsView, key: Seq<usize>) -> Seq<char> {
    match key_place(u.keys, key, 0) {
        Some(i) => u.ids[i as int],
        None => fresh_id(u),
    }
}

/// Every id of the form `u<digits>` has a number below the next one.
pub open spec fn numbered_below(u: UnitsView) -> bool {
    forall|i: int|
        0 <= i < u.ids.len() ==> (id_of('u', #[trigger] u.ids[i]) matches Some((m, _)) ==> m
            < u.next)
}

impl Units {
    pub open spec fn wf(&self) -> bool {
        self.keys@.len() == self.ids@.len()
    }

    fn find(&self, key: &Vec<usize>) -> (r: Option<usize>)
        ensures
            match r {
                Some(i) => key_place(self@.keys, key@, 0) == Some(i as nat) && i < self.keys@.len(),
                None => key_place(self@.keys, key@, 0) is None,
            },
    {
        let ghost kv = self@.keys;
        let mut i: usize = 0;
        while i < self.keys.len()
            invariant
                i <= self.keys@.len(),
                kv == self@.keys,
                key_place(kv, key@, 0) == key_place(kv, key@, i as nat),
            decreases self.keys@.len() - i,
        {
            assert(kv[i as int] == self.keys@[i as int]@);
            if same_term(&self.keys[i], key) {
                return Some(i);
            }
            i = i + 1;
        }
        None
    }

    /// The id of a key: the one in use, otherwise a new one.
    pub fn get_or_make(&mut self, key: Vec<usize>) -> (id: String)
        requires
            old(self).wf(),
            old(self)@.keys.contains(key@) || old(self).next < usize::MAX,
        ensures
            final(self).wf(),
            final(self)@ == with_key(old(self)@, key@),
            id@ == id_for(old(self)@, key@),
            numbered_below(old(self)@) ==> numbered_below(final(self)@),
            numbered_below(old(self)@) && !old(self)@.keys.contains(key@) ==> !old(
                self,
            )@.ids.contains(id@),
    {
        let ghost before = self@;
        proof {
            lemma_key_place(before.keys, key@, 0);
            if numbered_below(before) {
                unit_ids_are_unique(before, key@);
            }
        }
        match self.find(&key) {
            Some(i) => {
                assert(before.ids[i as int] == self.ids@[i as int]@);
                self.ids[i].clone()
            },
            None => {
                let mut id: String = String::new();
                id.append("u");
                let d: String = padded_text(self.next as u64, self.width);
                id.append(d.as_str());
                assert(id@ =~= fresh_id(before));
                let ghost kv = key@;
                self.next = self.next + 1;
                self.keys.push(key);
                self.ids.push(id.clone());
                assert(self@.keys =~= before.keys.push(kv));
                assert(self@.ids =~= before.ids.push(id@));
                assert(self@ =~= with_key(before, kv));
                id
            },
        }
    }
}

/// A key that has an id keeps it, and gets no other.
pub proof fn unit_ids_are_reused(u: UnitsView, key: Seq<usize>)
    requires
        u.keys.len() == u.ids.len(),
    ensures
        id_for(with_key(u, key), key) == id_for(u, key),
        with_key(with_key(u, key), key) == with_key(u, key),
        key_place(u.keys, key, 0) is Some ==> with_key(u, key) == u,
{
    if key_place(u.keys, key, 0) is None {
        lemma_key_appended(u.keys, key, 0);
    }
}

/// The first place of a key holds it, and a key without a place is not there.
proof fn lemma_key_place(keys: Seq<Seq<usize>>, key: Seq<usize>, i: nat)
    requires
        i <= keys.len(),
    ensures
        match key_place(keys, key, i) {
            Some(k) => i <= k < keys.len() && keys[k as int] == key,
            None => forall|k: int| i <= k < keys.len() ==> #[trigger] keys[k] != key,
        },
    decreases keys.len() - i,
{
    if i < keys.len() {
        lemma_key_place(keys, key, i + 1);
    }
}

/// Where every id is numbered below the next one: a key in use keeps its id and
/// changes nothing; another key gets the next number, which no id has, and the
/// ids are numbered below the next one again. Asked for once more, a key gets the
/// same id.
pub proof fn unit_ids_are_unique(u: UnitsView, key: Seq<usize>)
    requires
        u.keys.len() == u.ids.len(),
        numbered_below(u),
        u.next <= usize::MAX,
    ensures
        u.keys.contains(key) ==> with_key(u, key) == u && exists|i: int|
            0 <= i < u.keys.len() && #[trigger] u.keys[i] == key && id_for(u, key) == u.ids[i],
        !u.keys.contains(key) ==> {
            &&& id_for(u, key) == "u"@ + padded(u.next, u.width)
            &&& !u.ids.contains(id_for(u, key))
            &&& with_key(u, key).keys == u.keys.push(key)
            &&& with_key(u, key).ids == u.ids.push(id_for(u, key))
            &&& with_key(u, key).next == u.next + 1
            &&& with_key(u, key).width == u.width
        },
        id_for(with_key(u, key), key) == id_for(u, key),
        with_key(with_key(u, key), key) == with_key(u, key),
        numbered_below(with_key(u, key)),
{
    unit_ids_are_reused(u, key);
    lemma_key_place(u.keys, key, 0);
    match key_place(u.keys, key, 0) {
        Some(i) => {
            assert(u.keys[i as int] == key && id_for(u, key) == u.ids[i as int]);
        },
        None => {
            let id = fresh_id(u);
            lemma_id_of_padded('u', u.next, u.width);
            reveal_strlit("u");
            assert("u"@ =~= seq!['u']);
            assert(id_of('u', id) matches Some((m, _)) && m == u.next);
            let v = with_key(u, key);
            assert forall|i: int| 0 <= i < v.ids.len() implies (id_of(
                'u',
                #[trigger] v.ids[i],
            ) matches Some((m, _)) ==> m < v.next) by {
                if i < u.ids.len() {
                    assert(v.ids[i] == u.ids[i]);
                } else {
                    assert(v.ids[i] == id);
                }
            }
            assert forall|i: int| 0 <= i < u.ids.len() implies #[trigger] u.ids[i] != id by {
                assert(id_of('u', u.ids[i]) matches Some((m, _)) ==> m < u.next);
            }
        },
    }
}

proof fn lemma_key_appended(keys: Seq<Seq<usize>>, key: Seq<usize>, i: nat)
    requires
        i <= keys.len(),
        key_place(keys, key, i) is None,
    ensures
        key_place(keys.push(key), key, i) == Some(keys.len()),
    decreases keys.len() - i,
{
    if i < keys.len() {
        lemma_key_appended(keys, key, i + 1);
    }
}

/// The level that a cell has for a key name; the largest number where the name
/// is neither a factor nor a role.
pub open spec fn level_for(
    c: CellView,
    name: Seq<char>,
    factors: Seq<FactorView>,
    roles: Seq<RoleView>,
) -> usize {
    match name_index(factor_names(factors), name, 0) {
        Some(f) => c.factors[f as int],
        None => match name_index(role_names(roles), name, 0) {
            Some(r) => c.roles[r as int],
            None => usize::MAX,
        },
    }
}

/// The key of a cell's unit, in the unit's declared order.
pub open spec fn key_for(
    c: CellView,
    unit: UnitView,
    factors: Seq<FactorView>,
    roles: Seq<RoleView>,
) -> Seq<usize> {
    Seq::new(unit.key.len(), |i: int| level_for(c, unit.key[i], factors, roles))
}

/// The key of a cell's unit.
pub fn unit_key(cell: &Cell, unit: &Unit, factors: &[Factor], roles: &[ReplicateRole]) -> (key: Vec<
    usize,
>)
    requires
        cell@.factors.len() == factors@.len(),
        cell@.roles.len() == roles@.len(),
    ensures
        key@ == key_for(cell@, unit@, factor_views(factors@), role_views(roles@)),
{
    let ghost (fv, rv) = (factor_views(factors@), role_views(roles@));
    let mut key: Vec<usize> = Vec::new();
    let mut i: usize = 0;
    while i < unit.key.len()
        invariant
            i <= unit.key@.len(),
            fv == factor_views(factors@),
            rv == role_views(roles@),
            cell@.factors.len() == factors@.len(),
            cell@.roles.len() == roles@.len(),
            key@.len() == i,
            forall|k: int|
                0 <= k < i ==> #[trigger] key@[k] == level_for(cell@, unit@.key[k], fv, rv),
        decreases unit.key@.len() - i,
    {
        let name: Vec<char> = chars_of(unit.key[i].as_str());
        assert(unit@.key[i as int] == name@);
        let level: usize = match find_factor(factors, &name) {
            Some(f) => cell.factor_levels[f],
            None => match find_role(roles, &name) {
                Some(r) => cell.replicate_levels[r],
                None => usize::MAX,
            },
        };
        key.push(level);
        i = i + 1;
    }
    assert(key@ =~= key_for(cell@, unit@, fv, rv));
    key
}

/// The last run, among the first `n`, with an id.
pub open spec fn run_with_id(runs: Seq<RunView>, id: Seq<char>, n: nat) -> Option<RunView>
    decreases n,
{
    if n == 0 {
        None
    } else if runs[n - 1].run_id == id {
        Some(runs[n - 1])
    } else {
        run_with_id(runs, id, (n - 1) as nat)
    }
}

/// The unit id that a row has already: in the table, otherwise in the design.
pub open spec fn known_unit(t: TableView, runs: Seq<RunView>, row: int) -> Option<Seq<char>> {
    let shown = match t.unit_col {
        Some(c) => cell_text(t.rows[row], c as int),
        None => Seq::empty(),
    };
    if shown.len() > 0 {
        Some(shown)
    } else {
        let run = match t.run_id_col {
            Some(c) => run_with_id(runs, cell_text(t.rows[row], c as int), runs.len()),
            None => if row < runs.len() {
                Some(runs[row])
            } else {
                None
            },
        };
        match run {
            Some(r) => r.unit,
            None => None,
        }
    }
}

/// The units once a row with a known id has been read.
pub open spec fn with_known(u: UnitsView, key: Seq<usize>, id: Seq<char>) -> UnitsView {
    let numbered = match id_of('u', id) {
        Some((n, w)) => UnitsView {
            next: larger(u.next, n + 1),
            width: larger(u.width, w),
            ..u
        },
        None => u,
    };
    match key_place(u.keys, key, 0) {
        Some(_) => numbered,
        None => UnitsView {
            keys: u.keys.push(key),
            ids: u.ids.push(id),
            ..numbered
        },
    }
}

/// The units of the first `n` rows with known ids, and the keys of the others.
pub open spec fn known_units(
    t: TableView,
    l: Layout,
    runs: Seq<RunView>,
    near: Seq<Seq<Seq<bool>>>,
    unit: UnitView,
    n: nat,
) -> Result<(UnitsView, Seq<Seq<usize>>), Seq<char>>
    decreases n,
{
    if n == 0 {
        Ok(
            (
                UnitsView { keys: Seq::empty(), ids: Seq::empty(), next: 1, width: 4 },
                Seq::empty(),
            ),
        )
    } else {
        match known_units(t, l, runs, near, unit, (n - 1) as nat) {
            Err(m) => Err(m),
            Ok((u, pending)) => match row_cell_of(t, l, near, n - 1) {
                Err(m) => Err(m),
                Ok(c) => {
                    let key = key_for(c, unit, l.factors, l.roles);
                    match known_unit(t, runs, n - 1) {
                        Some(id) => Ok((with_known(u, key, id), pending)),
                        None => Ok((u, pending.push(key))),
                    }
                },
            },
        }
    }
}

/// The units once the first `n` keys have ids.
pub open spec fn with_keys(u: UnitsView, keys: Seq<Seq<usize>>, n: nat) -> UnitsView
    decreases n,
{
    if n == 0 {
        u
    } else {
        with_key(with_keys(u, keys, (n - 1) as nat), keys[n - 1])
    }
}

/// The units of a table. New ids are made only once every known id has been
/// read, so they cannot collide.
pub open spec fn units_of(
    t: TableView,
    l: Layout,
    runs: Seq<RunView>,
    near: Seq<Seq<Seq<bool>>>,
    unit: Option<UnitView>,
) -> Result<UnitsView, Seq<char>> {
    match unit {
        None => Ok(UnitsView { keys: Seq::empty(), ids: Seq::empty(), next: 1, width: 4 }),
        Some(x) => match known_units(t, l, runs, near, x, t.rows.len()) {
            Err(m) => Err(m),
            Ok((u, pending)) => Ok(with_keys(u, pending, pending.len())),
        },
    }
}

/// One more than the largest number among the unit ids that the first `n` rows
/// have already, and at least one.
pub open spec fn top_unit(t: TableView, runs: Seq<RunView>, n: nat) -> nat
    decreases n,
{
    if n == 0 {
        1
    } else {
        let rest = top_unit(t, runs, (n - 1) as nat);
        match known_unit(t, runs, n - 1) {
            Some(id) => match id_of('u', id) {
                Some((m, _)) => larger(rest, m + 1),
                None => rest,
            },
            None => rest,
        }
    }
}

/// Whether the machine can number one unit more for each row and for each of
/// `added` new runs.
pub open spec fn unit_numbers_fit(t: TableView, runs: Seq<RunView>, added: nat) -> bool {
    top_unit(t, runs, t.rows.len()) + t.rows.len() + added < usize::MAX
}

proof fn lemma_top_unit(t: TableView, runs: Seq<RunView>, n: nat, m: nat)
    requires
        n <= m,
    ensures
        1 <= top_unit(t, runs, n) <= top_unit(t, runs, m),
    decreases m,
{
    if m > 0 {
        lemma_top_unit(
            t,
            runs,
            if n < m {
                n
            } else {
                (n - 1) as nat
            },
            (m - 1) as nat,
        );
    }
}

/// Whether every known unit id leaves room for new ones.
pub fn unit_numbers_in_range(table: &Table, runs: &Vec<Run>, n_add: usize) -> (r: bool)
    ensures
        r == unit_numbers_fit(table@, run_views(runs@), n_add as nat),
{
    let ghost (tv, rv) = (table@, run_views(runs@));
    assert(tv.rows.len() == table.rows@.len());
    let n_rows: usize = table.rows.len();
    let mut top: usize = 1;
    let mut i: usize = 0;
    while i < n_rows
        invariant
            i <= n_rows,
            n_rows == table.rows@.len(),
            tv == table@,
            rv == run_views(runs@),
            tv.rows.len() == n_rows,
            top == top_unit(tv, rv, i as nat),
        decreases n_rows - i,
    {
        match read_known_unit(table, runs, i) {
            Some(id) => {
                assert(known_unit(tv, rv, i as int) == Some(id@));
                match parse_id('u', id.as_str()) {
                    Some((n, _)) => {
                        if n == usize::MAX {
                            proof {
                                lemma_top_unit(tv, rv, (i + 1) as nat, n_rows as nat);
                            }
                            return false;
                        }
                        if n + 1 > top {
                            top = n + 1;
                        }
                    },
                    None => {},
                }
            },
            None => {},
        }
        i = i + 1;
    }
    let room: usize = usize::MAX - top;
    n_rows < room && n_add < room - n_rows
}

fn read_known_unit(table: &Table, runs: &Vec<Run>, index: usize) -> (r: Option<String>)
    requires
        index < table.rows@.len(),
    ensures
        optional_text(r) == known_unit(table@, run_views(runs@), index as int),
{
    let ghost (tv, rv) = (table@, run_views(runs@));
    let row: &Vec<String> = &table.rows[index];
    assert(tv.rows[index as int] == views(row@));
    match table.unit_col {
        Some(c) => {
            let s: String = text_at(row, c);
            if char_count(s.as_str()) > 0 {
                return Some(s);
            }
        },
        None => {},
    }
    match table.run_id_col {
        Some(c) => {
            let id: String = text_at(row, c);
            let mut n: usize = runs.len();
            while n > 0
                invariant
                    n <= runs@.len(),
                    index < table.rows@.len(),
                    tv == table@,
                    rv == run_views(runs@),
                    tv.run_id_col == Some(c),
                    id@ == cell_text(tv.rows[index as int], c as int),
                    (match tv.unit_col {
                        Some(u) => cell_text(tv.rows[index as int], u as int),
                        None => Seq::empty(),
                    }).len() == 0,
                    run_with_id(rv, id@, rv.len()) == run_with_id(rv, id@, n as nat),
                decreases n,
            {
                assert(rv[n - 1] == runs@[n - 1]@);
                if equal(runs[n - 1].run_id.as_str(), id.as_str()) {
                    return match &runs[n - 1].unit {
                        Some(u) => Some(u.clone()),
                        None => None,
                    };
                }
                n = n - 1;
            }
            None
        },
        None => {
            if index < runs.len() {
                assert(rv[index as int] == runs@[index as int]@);
                match &runs[index].unit {
                    Some(u) => Some(u.clone()),
                    None => None,
                }
            } else {
                None
            }
        },
    }
}

proof fn lemma_known_error(
    t: TableView,
    l: Layout,
    runs: Seq<RunView>,
    near: Seq<Seq<Seq<bool>>>,
    unit: UnitView,
    n: nat,
    m: nat,
)
    requires
        n <= m,
        known_units(t, l, runs, near, unit, n) is Err,
    ensures
        known_units(t, l, runs, near, unit, m) == known_units(t, l, runs, near, unit, n),
    decreases m - n,
{
    if n < m {
        lemma_known_error(t, l, runs, near, unit, n, (m - 1) as nat);
    }
}

proof fn lemma_known_numbered(u: UnitsView, key: Seq<usize>, id: Seq<char>)
    requires
        numbered_below(u),
    ensures
        numbered_below(with_known(u, key, id)),
{
    let v = with_known(u, key, id);
    assert forall|i: int| 0 <= i < v.ids.len() implies (id_of('u', #[trigger] v.ids[i]) matches Some(
        (m, _),
    ) ==> m < v.next) by {
        if i < u.ids.len() {
            assert(v.ids[i] == u.ids[i]);
        } else {
            assert(v.ids[i] == id);
        }
    }
}

proof fn lemma_keys_next(u: UnitsView, keys: Seq<Seq<usize>>, n: nat)
    ensures
        u.next <= with_keys(u, keys, n).next <= u.next + n,
        with_keys(u, keys, n).keys.len() - with_keys(u, keys, n).ids.len() == u.keys.len()
            - u.ids.len(),
    decreases n,
{
    if n > 0 {
        lemma_keys_next(u, keys, (n - 1) as nat);
    }
}

/// The unit ids in use with their keys.
pub fn collect_units(
    table: &Table,
    design: &Design,
    near: &Vec<Vec<Vec<bool>>>,
) -> (r: Result<Units, Error>)
    requires
        table_wf(table@, layout_of(*design)),
        design.unit is Some ==> unit_numbers_fit(table@, run_views(design.runs@), 0),
    ensures
        match r {
            Ok(u) => units_of(
                table@,
                layout_of(*design),
                run_views(design.runs@),
                near_views(near@),
                crate::construct::types::optional_unit(design.unit),
            ) == Ok::<UnitsView, Seq<char>>(u@) && u.wf() && numbered_below(u@) && u.next <= top_unit(
                table@,
                run_views(design.runs@),
                table.rows@.len(),
            ) + table.rows@.len(),
            Err(e) => units_of(
                table@,
                layout_of(*design),
                run_views(design.runs@),
                near_views(near@),
                crate::construct::types::optional_unit(design.unit),
            ) == Err::<UnitsView, Seq<char>>(e@),
        },
{
    let ghost (tv, l, rv, nv) = (
        table@,
        layout_of(*design),
        run_views(design.runs@),
        near_views(near@),
    );
    let ghost limit = top_unit(tv, rv, tv.rows.len());
    proof {
        lemma_top_unit(tv, rv, 0, tv.rows.len());
    }
    let mut units: Units = Units { keys: Vec::new(), ids: Vec::new(), next: 1, width: 4 };
    assert(tv.rows.len() == table.rows@.len());
    assert(units@ =~= UnitsView { keys: Seq::empty(), ids: Seq::empty(), next: 1, width: 4 });
    let unit: &Unit = match &design.unit {
        None => {
            return Ok(units);
        },
        Some(u) => u,
    };
    let mut pending: Vec<Vec<usize>> = Vec::new();
    assert(crate::tuples::lists(pending@) =~= Seq::empty());
    let mut i: usize = 0;
    while i < table.rows.len()
        invariant
            i <= table.rows@.len(),
            tv == table@,
            l == layout_of(*design),
            rv == run_views(design.runs@),
            nv == near_views(near@),
            table_wf(tv, l),
            design.unit == Some(*unit),
            limit == top_unit(tv, rv, tv.rows.len()),
            tv.rows.len() == table.rows@.len(),
            units.wf(),
            numbered_below(units@),
            1 <= units.next <= limit,
            limit + table.rows@.len() < usize::MAX,
            pending@.len() <= i,
            known_units(tv, l, rv, nv, unit@, i as nat) == Ok::<
                (UnitsView, Seq<Seq<usize>>),
                Seq<char>,
            >((units@, crate::tuples::lists(pending@))),
        decreases table.rows@.len() - i,
    {
        let cell: Cell = match row_cell(table, design, i, near) {
            Err(e) => {
                proof {
                    lemma_known_error(tv, l, rv, nv, unit@, (i + 1) as nat, tv.rows.len());
                }
                return Err(e);
            },
            Ok(c) => c,
        };
        let key: Vec<usize> = unit_key(&cell, unit, &design.factors, &design.replicates);
        let ghost before = units@;
        let ghost kv = key@;
        match read_known_unit(table, &design.runs, i) {
            Some(id) => {
                assert(known_unit(tv, rv, i as int) == Some(id@));
                proof {
                    lemma_top_unit(tv, rv, (i + 1) as nat, tv.rows.len());
                }
                match parse_id('u', id.as_str()) {
                    Some((n, w)) => {
                        if n + 1 > units.next {
                            units.next = n + 1;
                        }
                        if w > units.width {
                            units.width = w;
                        }
                    },
                    None => {},
                }
                if units.find(&key).is_none() {
                    let ghost iv = id@;
                    units.keys.push(key);
                    units.ids.push(id);
                    assert(units@.keys =~= before.keys.push(kv));
                    assert(units@.ids =~= before.ids.push(iv));
                }
                assert(units@ =~= with_known(before, kv, known_unit(tv, rv, i as int)->0));
                proof {
                    lemma_known_numbered(before, kv, known_unit(tv, rv, i as int)->0);
                }
            },
            None => {
                let ghost old_pending = crate::tuples::lists(pending@);
                pending.push(key);
                assert(crate::tuples::lists(pending@) =~= old_pending.push(kv));
            },
        }
        i = i + 1;
    }
    let ghost known = units@;
    let ghost keys = crate::tuples::lists(pending@);
    let mut k: usize = 0;
    while k < pending.len()
        invariant
            k <= pending@.len(),
            pending@.len() <= table.rows@.len(),
            keys == crate::tuples::lists(pending@),
            units.wf(),
            numbered_below(units@),
            known.next <= limit,
            units@ == with_keys(known, keys, k as nat),
            limit + table.rows@.len() < usize::MAX,
        decreases pending@.len() - k,
    {
        let key: Vec<usize> = pending[k].clone();
        assert(key@ =~= keys[k as int]);
        proof {
            lemma_keys_next(known, keys, k as nat);
        }
        units.get_or_make(key);
        k = k + 1;
    }
    proof {
        lemma_keys_next(known, keys, keys.len());
        assert(keys.len() == pending@.len());
    }
    Ok(units)
}

} // verus!
