//! The deviation-coded model matrix.
//!
//! For a factor (or role) with L levels, columns j = 0..L-2 take value 1 at
//! level j, −1 at level L−1, 0 otherwise. Interaction columns are the products
//! of one column from each participating factor, in nested order.
use vstd::prelude::*;

use super::formula::{factor_names, find_factor, name_index, terms_wf, term_views, Model, Term};
use crate::factor::{factor_views, value_text, value_views, Factor, FactorValue, FactorView, ValueView};
use crate::text::{chars_of, is_text, join, padded, padded_text, separated, views};
use crate::tuples::{all_tuples, distinct, lemma_distinct, lemma_tuple_at, lists, tuple_count, tuples};

verus! {

/// A blocking variable that is not a factor.
#[derive(Debug)]
pub struct ReplicateRole {
    pub name: String,
    pub levels: Vec<FactorValue>,
}

/// The identity of the experimental unit: a key of factor and role names.
#[derive(Debug)]
pub struct Unit {
    pub name: String,
    pub key: Vec<String>,
}

/// One observation's position in the design: level numbers of the factors and
/// of the replicate roles, in declaration order.
#[derive(Debug, PartialEq, Eq, Hash)]
pub struct Cell {
    pub factor_levels: Vec<usize>,
    pub replicate_levels: Vec<usize>,
}

/// What a column belongs to.
#[derive(Debug, Clone, Copy, PartialEq, Eq, Structural)]
pub enum ColumnSource {
    Intercept,
    Block { role: usize },
    Term { term: usize },
    Unit,
}

/// The origin and the label of a column.
#[derive(Debug)]
pub struct ColumnInfo {
    pub source: ColumnSource,
    pub label: String,
}

/// The coded matrix, one row per observation.
#[derive(Debug)]
pub struct ModelMatrix {
    pub columns: Vec<ColumnInfo>,
    pub data: Vec<Vec<i64>>,
}

/// What a role holds.
#[verifier::ext_equal]
pub struct RoleView {
    pub name: Seq<char>,
    pub levels: Seq<ValueView>,
}

/// What a unit holds.
#[verifier::ext_equal]
pub struct UnitView {
    pub name: Seq<char>,
    pub key: Seq<Seq<char>>,
}

/// What a cell holds.
#[verifier::ext_equal]
pub struct CellView {
    pub factors: Seq<usize>,
    pub roles: Seq<usize>,
}

impl View for ReplicateRole {
    type V = RoleView;

    open spec fn view(&self) -> RoleView {
        RoleView { name: self.name@, levels: value_views(self.levels@) }
    }
}

impl View for Unit {
    type V = UnitView;

    open spec fn view(&self) -> UnitView {
        UnitView { name: self.name@, key: views(self.key@) }
    }
}

impl View for Cell {
    type V = CellView;

    open spec fn view(&self) -> CellView {
        CellView { factors: self.factor_levels@, roles: self.replicate_levels@ }
    }
}

pub open spec fn role_views(roles: Seq<ReplicateRole>) -> Seq<RoleView> {
    roles.map_values(|r: ReplicateRole| r@)
}

pub open spec fn cell_views(cells: Seq<Cell>) -> Seq<CellView> {
    cells.map_values(|c: Cell| c@)
}

pub open spec fn role_names(roles: Seq<RoleView>) -> Seq<Seq<char>> {
    roles.map_values(|r: RoleView| r.name)
}

/// A cell gives a level of every factor and of every role.
pub open spec fn cell_wf(c: CellView, factors: Seq<FactorView>, roles: Seq<RoleView>) -> bool {
    &&& c.factors.len() == factors.len()
    &&& c.roles.len() == roles.len()
    &&& forall|f: int| 0 <= f < factors.len() ==> #[trigger] c.factors[f] < factors[f].values.len()
    &&& forall|r: int| 0 <= r < roles.len() ==> #[trigger] c.roles[r] < roles[r].levels.len()
}

pub open spec fn cells_wf(
    cells: Seq<CellView>,
    factors: Seq<FactorView>,
    roles: Seq<RoleView>,
) -> bool {
    forall|i: int| 0 <= i < cells.len() ==> cell_wf(#[trigger] cells[i], factors, roles)
}

// ===== Coding =====

/// Deviation code of a level in column `j` of a factor with `count` levels.
pub open spec fn code_of(level: int, j: int, count: int) -> int {
    if level == count - 1 {
        -1
    } else if level == j {
        1
    } else {
        0
    }
}

/// Sum of the codes of the levels below `n` in column `j`.
pub open spec fn code_sum(n: nat, j: int, count: int) -> int
    decreases n,
{
    if n == 0 {
        0
    } else {
        code_sum((n - 1) as nat, j, count) + code_of(n - 1, j, count)
    }
}

proof fn lemma_code_sum(n: nat, j: int, count: int)
    requires
        0 <= j < count - 1,
        n <= count,
    ensures
        code_sum(n, j, count) == (if n > j {
            1int
        } else {
            0
        }) + (if n == count {
            -1int
        } else {
            0
        }),
    decreases n,
{
    if n > 0 {
        lemma_code_sum((n - 1) as nat, j, count);
    }
}

/// The codes of every column of a factor sum to zero over its levels.
pub proof fn codes_sum_to_zero(j: int, count: int)
    requires
        0 <= j < count - 1,
    ensures
        code_sum(count as nat, j, count) == 0,
{
    lemma_code_sum(count as nat, j, count);
}

/// A column of the matrix.
#[verifier::ext_equal]
pub enum Column {
    Intercept,
    Block { role: int, j: int },
    Term { term: int, combo: Seq<usize> },
    Unit { j: int },
}

/// Number of columns per factor of a term.
pub open spec fn term_dims(t: Seq<usize>, factors: Seq<FactorView>) -> Seq<usize> {
    Seq::new(t.len(), |i: int| (factors[t[i] as int].values.len() - 1) as usize)
}

/// The columns of the first `n` roles.
pub open spec fn block_columns(roles: Seq<RoleView>, n: nat) -> Seq<Column>
    decreases n,
{
    if n == 0 {
        Seq::empty()
    } else {
        let count = roles[n - 1].levels.len();
        block_columns(roles, (n - 1) as nat) + Seq::new(
            if count == 0 {
                0
            } else {
                (count - 1) as nat
            },
            |j: int| Column::Block { role: n - 1, j },
        )
    }
}

/// The columns of the first `n` terms.
pub open spec fn term_columns(
    terms: Seq<Seq<usize>>,
    factors: Seq<FactorView>,
    n: nat,
) -> Seq<Column>
    decreases n,
{
    if n == 0 {
        Seq::empty()
    } else {
        let combos = tuples(term_dims(terms[n - 1], factors));
        term_columns(terms, factors, (n - 1) as nat) + Seq::new(
            combos.len(),
            |i: int| Column::Term { term: n - 1, combo: combos[i] },
        )
    }
}

/// The columns of `count` units.
pub open spec fn unit_columns(count: nat) -> Seq<Column> {
    Seq::new(
        if count == 0 {
            0
        } else {
            (count - 1) as nat
        },
        |j: int| Column::Unit { j },
    )
}

/// The level that a cell has for a key name.
pub open spec fn key_level(
    c: CellView,
    name: Seq<char>,
    factors: Seq<FactorView>,
    roles: Seq<RoleView>,
) -> usize {
    match name_index(factor_names(factors), name, 0) {
        Some(f) => c.factors[f as int],
        None => c.roles[name_index(role_names(roles), name, 0)->0 as int],
    }
}

/// The key of a cell's unit.
pub open spec fn unit_key(
    c: CellView,
    unit: UnitView,
    factors: Seq<FactorView>,
    roles: Seq<RoleView>,
) -> Seq<usize> {
    Seq::new(unit.key.len(), |i: int| key_level(c, unit.key[i], factors, roles))
}

/// The keys of cells.
pub open spec fn unit_keys(
    cells: Seq<CellView>,
    unit: UnitView,
    factors: Seq<FactorView>,
    roles: Seq<RoleView>,
) -> Seq<Seq<usize>> {
    cells.map_values(|c: CellView| unit_key(c, unit, factors, roles))
}

/// Every key name is the name of a factor or of a role.
pub open spec fn unit_wf(unit: UnitView, factors: Seq<FactorView>, roles: Seq<RoleView>) -> bool {
    forall|i: int|
        0 <= i < unit.key.len() ==> name_index(factor_names(factors), #[trigger] unit.key[i], 0)
            is Some || name_index(role_names(roles), unit.key[i], 0) is Some
}

/// The columns of the matrix: intercept, blocks, terms and units.
pub open spec fn column_list(
    factors: Seq<FactorView>,
    roles: Seq<RoleView>,
    terms: Seq<Seq<usize>>,
    units: nat,
) -> Seq<Column> {
    seq![Column::Intercept] + block_columns(roles, roles.len()) + term_columns(
        terms,
        factors,
        terms.len(),
    ) + unit_columns(units)
}

/// Product of the codes of the first `n` factors of a term.
pub open spec fn code_product(
    c: CellView,
    t: Seq<usize>,
    combo: Seq<usize>,
    factors: Seq<FactorView>,
    n: nat,
) -> int
    decreases n,
{
    if n == 0 {
        1
    } else {
        code_product(c, t, combo, factors, (n - 1) as nat) * code_of(
            c.factors[t[n - 1] as int] as int,
            combo[n - 1] as int,
            factors[t[n - 1] as int].values.len() as int,
        )
    }
}

/// The entry of a column for a cell in unit `unit` of `units`.
pub open spec fn entry_of(
    col: Column,
    c: CellView,
    factors: Seq<FactorView>,
    roles: Seq<RoleView>,
    terms: Seq<Seq<usize>>,
    unit: int,
    units: int,
) -> int {
    match col {
        Column::Intercept => 1,
        Column::Block { role, j } => code_of(
            c.roles[role] as int,
            j,
            roles[role].levels.len() as int,
        ),
        Column::Term { term, combo } => code_product(
            c,
            terms[term],
            combo,
            factors,
            terms[term].len(),
        ),
        Column::Unit { j } => code_of(unit, j, units),
    }
}

/// Every entry of a coded matrix is −1, 0 or 1.
pub proof fn entries_are_signs(
    col: Column,
    c: CellView,
    factors: Seq<FactorView>,
    roles: Seq<RoleView>,
    terms: Seq<Seq<usize>>,
    unit: int,
    units: int,
)
    ensures
        -1 <= entry_of(col, c, factors, roles, terms, unit, units) <= 1,
{
    if let Column::Term { term, combo } = col {
        lemma_code_product(c, terms[term], combo, factors, terms[term].len());
    }
}

proof fn lemma_code_product(
    c: CellView,
    t: Seq<usize>,
    combo: Seq<usize>,
    factors: Seq<FactorView>,
    n: nat,
)
    ensures
        -1 <= code_product(c, t, combo, factors, n) <= 1,
    decreases n,
{
    if n > 0 {
        lemma_code_product(c, t, combo, factors, (n - 1) as nat);
        let x = code_product(c, t, combo, factors, (n - 1) as nat);
        let y = code_of(
            c.factors[t[n - 1] as int] as int,
            combo[n - 1] as int,
            factors[t[n - 1] as int].values.len() as int,
        );
        assert(-1 <= x * y <= 1) by (nonlinear_arith)
            requires
                -1 <= x <= 1,
                -1 <= y <= 1,
        ;
    }
}

/// A name with one of its levels.
pub open spec fn level_label(name: Seq<char>, value: ValueView) -> Seq<char> {
    name + "["@ + value_text(value) + "]"@
}

/// The labels of the factors of a term in a column.
pub open spec fn combo_labels(t: Seq<usize>, combo: Seq<usize>, factors: Seq<FactorView>) -> Seq<
    Seq<char>,
> {
    Seq::new(
        t.len(),
        |i: int|
            level_label(
                factors[t[i] as int].name,
                factors[t[i] as int].values[combo[i] as int],
            ),
    )
}

/// The label of a column.
pub open spec fn column_label(
    col: Column,
    factors: Seq<FactorView>,
    roles: Seq<RoleView>,
    terms: Seq<Seq<usize>>,
) -> Seq<char> {
    match col {
        Column::Intercept => "(Intercept)"@,
        Column::Block { role, j } => level_label(roles[role].name, roles[role].levels[j]),
        Column::Term { term, combo } => separated(combo_labels(terms[term], combo, factors), ":"@),
        Column::Unit { j } => "unit[u"@ + padded((j + 1) as nat, 3) + "]"@,
    }
}

/// What a column belongs to.
pub open spec fn column_source(col: Column) -> ColumnSource {
    match col {
        Column::Intercept => ColumnSource::Intercept,
        Column::Block { role, j } => ColumnSource::Block { role: role as usize },
        Column::Term { term, combo } => ColumnSource::Term { term: term as usize },
        Column::Unit { j } => ColumnSource::Unit,
    }
}

/// Numbers of the cells' units; zero units where there is no unit.
pub open spec fn unit_count(
    cells: Seq<CellView>,
    unit: Option<UnitView>,
    factors: Seq<FactorView>,
    roles: Seq<RoleView>,
) -> nat {
    match unit {
        None => 0,
        Some(u) => distinct(unit_keys(cells, u, factors, roles)).len(),
    }
}

pub open spec fn unit_number(
    cells: Seq<CellView>,
    unit: Option<UnitView>,
    factors: Seq<FactorView>,
    roles: Seq<RoleView>,
    r: int,
) -> int {
    match unit {
        None => 0,
        Some(u) => {
            let keys = unit_keys(cells, u, factors, roles);
            distinct(keys).index_of(keys[r])
        },
    }
}

/// `mm` is the coded matrix of the cells.
pub open spec fn is_matrix(
    mm: ModelMatrix,
    factors: Seq<FactorView>,
    roles: Seq<RoleView>,
    terms: Seq<Seq<usize>>,
    cells: Seq<CellView>,
    unit: Option<UnitView>,
) -> bool {
    let units = unit_count(cells, unit, factors, roles);
    let cols = column_list(factors, roles, terms, units);
    &&& mm.columns@.len() == cols.len()
    &&& forall|c: int|
        0 <= c < cols.len() ==> (#[trigger] mm.columns@[c]).source == column_source(cols[c])
            && mm.columns@[c].label@ == column_label(cols[c], factors, roles, terms)
    &&& mm.data@.len() == cells.len()
    &&& forall|r: int| 0 <= r < cells.len() ==> (#[trigger] mm.data@[r])@.len() == cols.len()
    &&& forall|r: int, c: int|
        0 <= r < cells.len() && 0 <= c < cols.len() ==> #[trigger] mm.data@[r]@[c] == entry_of(
            cols[c],
            cells[r],
            factors,
            roles,
            terms,
            unit_number(cells, unit, factors, roles, r),
            units as int,
        )
}

// ===== Construction =====

/// A column before its entries are computed.
enum Plan {
    Intercept,
    Block { role: usize, j: usize },
    Term { term: usize, combo: Vec<usize> },
    Unit { j: usize },
}

impl View for Plan {
    type V = Column;

    closed spec fn view(&self) -> Column {
        match self {
            Plan::Intercept => Column::Intercept,
            Plan::Block { role, j } => Column::Block { role: *role as int, j: *j as int },
            Plan::Term { term, combo } => Column::Term { term: *term as int, combo: combo@ },
            Plan::Unit { j } => Column::Unit { j: *j as int },
        }
    }
}

spec fn plan_views(plans: Seq<Plan>) -> Seq<Column> {
    plans.map_values(|p: Plan| p@)
}

fn push_plan(plans: &mut Vec<Plan>, p: Plan)
    ensures
        plan_views(final(plans)@) == plan_views(old(plans)@).push(p@),
{
    let ghost before = plan_views(plans@);
    let ghost v = p@;
    plans.push(p);
    assert(plan_views(plans@) =~= before.push(v));
}

/// The columns of every term fit the machine.
pub open spec fn terms_fit(terms: Seq<Seq<usize>>, factors: Seq<FactorView>) -> bool {
    forall|t: int, k: int|
        0 <= t < terms.len() && 0 <= k <= terms[t].len() ==> tuple_count(
            #[trigger] term_dims(terms[t], factors).take(k),
        ) <= usize::MAX
}

/// Whether the columns of every term fit the machine.
pub fn terms_in_range(terms: &Vec<Term>, factors: &[Factor]) -> (r: bool)
    requires
        terms_wf(term_views(terms@), factors@.len()),
        forall|f: int| 0 <= f < factors@.len() ==> (#[trigger] factors@[f]).values@.len() > 0,
    ensures
        r == terms_fit(term_views(terms@), factor_views(factors@)),
{
    let ghost (tv, fv) = (term_views(terms@), factor_views(factors@));
    let mut t: usize = 0;
    while t < terms.len()
        invariant
            t <= terms@.len(),
            tv == term_views(terms@),
            fv == factor_views(factors@),
            terms_wf(tv, factors@.len()),
            forall|f: int| 0 <= f < factors@.len() ==> (#[trigger] factors@[f]).values@.len() > 0,
            forall|i: int, k: int|
                0 <= i < t && 0 <= k <= tv[i].len() ==> tuple_count(
                    #[trigger] term_dims(tv[i], fv).take(k),
                ) <= usize::MAX,
        decreases terms@.len() - t,
    {
        assert(tv[t as int] == terms@[t as int]@);
        assert(crate::model::formula::term_wf(tv[t as int], factors@.len()));
        let dims: Vec<usize> = dims_of(&terms[t].0, factors);
        match crate::tuples::count_tuples(&dims) {
            Some(_) => {},
            None => {
                proof {
                    let k = choose|k: int|
                        0 <= k <= dims@.len() && tuple_count(#[trigger] dims@.take(k)) > usize::MAX;
                    assert(tuple_count(term_dims(tv[t as int], fv).take(k)) > usize::MAX);
                }
                return false;
            },
        }
        t = t + 1;
    }
    true
}

/// Numbers of columns per factor of a term.
pub fn dims_of(t: &Vec<usize>, factors: &[Factor]) -> (dims: Vec<usize>)
    requires
        forall|i: int| 0 <= i < t@.len() ==> #[trigger] t@[i] < factors@.len(),
        forall|f: int| 0 <= f < factors@.len() ==> (#[trigger] factors@[f]).values@.len() > 0,
    ensures
        dims@ == term_dims(t@, factor_views(factors@)),
{
    let ghost fv = factor_views(factors@);
    let mut dims: Vec<usize> = Vec::new();
    let mut i: usize = 0;
    while i < t.len()
        invariant
            i <= t@.len(),
            fv == factor_views(factors@),
            dims@.len() == i,
            forall|k: int| 0 <= k < t@.len() ==> #[trigger] t@[k] < factors@.len(),
            forall|f: int| 0 <= f < factors@.len() ==> (#[trigger] factors@[f]).values@.len() > 0,
            forall|k: int| 0 <= k < i ==> #[trigger] dims@[k] == fv[t@[k] as int].values.len() - 1,
        decreases t@.len() - i,
    {
        let f: usize = t[i];
        assert(fv[f as int] == factors@[f as int]@);
        assert(factors@[f as int].values@.len() > 0);
        dims.push(factors[f].level_count() - 1);
        i = i + 1;
    }
    assert(dims@ =~= term_dims(t@, fv));
    dims
}

fn plan_columns(factors: &[Factor], roles: &[ReplicateRole], model: &Model, units: usize) -> (plans:
    Vec<Plan>)
    requires
        terms_wf(model@.terms, factors@.len()),
        forall|f: int| 0 <= f < factors@.len() ==> (#[trigger] factors@[f]).values@.len() > 0,
        terms_fit(model@.terms, factor_views(factors@)),
    ensures
        plan_views(plans@) == column_list(
            factor_views(factors@),
            role_views(roles@),
            model@.terms,
            units as nat,
        ),
{
    let ghost (fv, rv, tv) = (factor_views(factors@), role_views(roles@), model@.terms);
    let mut plans: Vec<Plan> = Vec::new();
    assert(plan_views(plans@) =~= Seq::empty());
    push_plan(&mut plans, Plan::Intercept);
    let ghost head = seq![Column::Intercept];
    assert(plan_views(plans@) =~= head + block_columns(rv, 0));
    let mut r: usize = 0;
    while r < roles.len()
        invariant
            r <= roles@.len(),
            rv == role_views(roles@),
            plan_views(plans@) =~= head + block_columns(rv, r as nat),
        decreases roles@.len() - r,
    {
        let count: usize = roles[r].levels.len();
        assert(rv[r as int].levels.len() == count);
        let n: usize = if count == 0 { 0 } else { count - 1 };
        let ghost before = plan_views(plans@);
        let ghost block = Seq::new(n as nat, |j: int| Column::Block { role: r as int, j });
        let mut j: usize = 0;
        while j < n
            invariant
                j <= n,
                block == Seq::new(n as nat, |j: int| Column::Block { role: r as int, j }),
                plan_views(plans@) =~= before + block.take(j as int),
            decreases n - j,
        {
            push_plan(&mut plans, Plan::Block { role: r, j });
            assert(block.take(j + 1) =~= block.take(j as int).push(block[j as int]));
            j = j + 1;
        }
        assert(block.take(n as int) =~= block);
        assert(before + block =~= head + block_columns(rv, (r + 1) as nat));
        r = r + 1;
    }
    let ghost head2 = head + block_columns(rv, rv.len());
    assert(head2 + term_columns(tv, fv, 0) =~= head2);
    let mut t: usize = 0;
    while t < model.terms.len()
        invariant
            t <= model.terms@.len(),
            fv == factor_views(factors@),
            tv == model@.terms,
            terms_wf(tv, factors@.len()),
            terms_fit(tv, fv),
            forall|f: int| 0 <= f < factors@.len() ==> (#[trigger] factors@[f]).values@.len() > 0,
            plan_views(plans@) =~= head2 + term_columns(tv, fv, t as nat),
        decreases model.terms@.len() - t,
    {
        let term: &Term = &model.terms[t];
        assert(tv[t as int] == term@);
        let dims: Vec<usize> = dims_of(&term.0, factors);
        proof {
            assert forall|k: int| 0 <= k <= dims@.len() implies tuple_count(
                #[trigger] dims@.take(k),
            ) <= usize::MAX by {
                assert(term_dims(tv[t as int], fv).take(k) == dims@.take(k));
            }
            assert(dims@.take(dims@.len() as int) =~= dims@);
        }
        let combos: Vec<Vec<usize>> = all_tuples(&dims);
        let ghost cs = tuples(dims@);
        let ghost before = plan_views(plans@);
        let ghost block = Seq::new(
            cs.len(),
            |i: int| Column::Term { term: t as int, combo: cs[i] },
        );
        let mut i: usize = 0;
        while i < combos.len()
            invariant
                i <= combos@.len(),
                cs == lists(combos@),
                block == Seq::new(
                    cs.len(),
                    |i: int| Column::Term { term: t as int, combo: cs[i] },
                ),
                plan_views(plans@) =~= before + block.take(i as int),
            decreases combos@.len() - i,
        {
            assert(cs[i as int] == combos@[i as int]@);
            let combo: Vec<usize> = combos[i].clone();
            assert(combo@ =~= cs[i as int]);
            push_plan(&mut plans, Plan::Term { term: t, combo });
            assert(block.take(i + 1) =~= block.take(i as int).push(block[i as int]));
            i = i + 1;
        }
        assert(lists(combos@).len() == combos@.len());
        assert(block.take(i as int) =~= block);
        assert(before + block =~= head2 + term_columns(tv, fv, (t + 1) as nat));
        t = t + 1;
    }
    let ghost head3 = head2 + term_columns(tv, fv, tv.len());
    let n: usize = if units == 0 { 0 } else { units - 1 };
    let ghost block = unit_columns(units as nat);
    let mut j: usize = 0;
    while j < n
        invariant
            j <= n,
            n == block.len(),
            block == unit_columns(units as nat),
            plan_views(plans@) =~= head3 + block.take(j as int),
        decreases n - j,
    {
        push_plan(&mut plans, Plan::Unit { j });
        assert(block.take(j + 1) =~= block.take(j as int).push(block[j as int]));
        j = j + 1;
    }
    assert(block.take(n as int) =~= block);
    plans
}

fn code(level: usize, j: usize, count: usize) -> (c: i64)
    requires
        level < count,
    ensures
        c == code_of(level as int, j as int, count as int),
        -1 <= c <= 1,
{
    if level == count - 1 {
        -1
    } else if level == j {
        1
    } else {
        0
    }
}

/// The first role with a name.
pub fn find_role(roles: &[ReplicateRole], name: &[char]) -> (r: Option<usize>)
    ensures
        match r {
            Some(i) => name_index(role_names(role_views(roles@)), name@, 0) == Some(i as nat) && i
                < roles@.len() && roles@[i as int].name@ == name@,
            None => name_index(role_names(role_views(roles@)), name@, 0) is None,
        },
{
    let ghost names = role_names(role_views(roles@));
    let mut i: usize = 0;
    while i < roles.len()
        invariant
            i <= roles@.len(),
            names == role_names(role_views(roles@)),
            name_index(names, name@, 0) == name_index(names, name@, i as nat),
        decreases roles@.len() - i,
    {
        assert(names[i as int] == roles@[i as int].name@);
        if is_text(name, roles[i].name.as_str()) {
            return Some(i);
        }
        i = i + 1;
    }
    None
}

/// The key of a cell's unit.
pub fn key_of(cell: &Cell, unit: &Unit, factors: &[Factor], roles: &[ReplicateRole]) -> (key: Vec<
    usize,
>)
    requires
        unit_wf(unit@, factor_views(factors@), role_views(roles@)),
        cell@.factors.len() == factors@.len(),
        cell@.roles.len() == roles@.len(),
    ensures
        key@ == unit_key(cell@, unit@, factor_views(factors@), role_views(roles@)),
{
    let ghost (fv, rv) = (factor_views(factors@), role_views(roles@));
    let mut key: Vec<usize> = Vec::new();
    let mut i: usize = 0;
    while i < unit.key.len()
        invariant
            i <= unit.key@.len(),
            fv == factor_views(factors@),
            rv == role_views(roles@),
            unit_wf(unit@, fv, rv),
            cell@.factors.len() == factors@.len(),
            cell@.roles.len() == roles@.len(),
            key@.len() == i,
            forall|k: int|
                0 <= k < i ==> #[trigger] key@[k] == key_level(cell@, unit@.key[k], fv, rv),
        decreases unit.key@.len() - i,
    {
        let name: Vec<char> = chars_of(unit.key[i].as_str());
        assert(unit@.key[i as int] == name@);
        let level: usize = match find_factor(factors, &name) {
            Some(f) => cell.factor_levels[f],
            None => match find_role(roles, &name) {
                Some(r) => cell.replicate_levels[r],
                None => 0,
            },
        };
        key.push(level);
        i = i + 1;
    }
    assert(key@ =~= unit_key(cell@, unit@, fv, rv));
    key
}

/// The place of a key in a list, where it is there.
fn find_key(list: &Vec<Vec<usize>>, key: &Vec<usize>) -> (r: Option<usize>)
    ensures
        match r {
            Some(i) => i < list@.len() && lists(list@)[i as int] == key@ && forall|k: int|
                0 <= k < i ==> #[trigger] lists(list@)[k] != key@,
            None => !lists(list@).contains(key@),
        },
{
    let ghost l = lists(list@);
    let mut i: usize = 0;
    while i < list.len()
        invariant
            i <= list@.len(),
            l == lists(list@),
            forall|k: int| 0 <= k < i ==> #[trigger] l[k] != key@,
        decreases list@.len() - i,
    {
        assert(l[i as int] == list@[i as int]@);
        if super::formula::same_term(&list[i], key) {
            return Some(i);
        }
        i = i + 1;
    }
    None
}

/// The numbers of the cells' units, in the order of first appearance, and how
/// many units there are.
pub fn number_units(
    cells: &[Cell],
    unit: &Unit,
    factors: &[Factor],
    roles: &[ReplicateRole],
) -> (r: (Vec<usize>, usize))
    requires
        unit_wf(unit@, factor_views(factors@), role_views(roles@)),
        forall|i: int|
            0 <= i < cells@.len() ==> (#[trigger] cells@[i])@.factors.len() == factors@.len()
                && cells@[i]@.roles.len() == roles@.len(),
    ensures
        ({
            let keys = unit_keys(
                cell_views(cells@),
                unit@,
                factor_views(factors@),
                role_views(roles@),
            );
            &&& r.1 == distinct(keys).len()
            &&& r.0@.len() == cells@.len()
            &&& forall|i: int|
                0 <= i < cells@.len() ==> #[trigger] r.0@[i] == distinct(keys).index_of(keys[i])
                    && r.0@[i] < r.1
        }),
{
    let ghost keys = unit_keys(
        cell_views(cells@),
        unit@,
        factor_views(factors@),
        role_views(roles@),
    );
    let mut known: Vec<Vec<usize>> = Vec::new();
    let mut out: Vec<usize> = Vec::new();
    let mut i: usize = 0;
    assert(lists(known@) =~= distinct(keys.take(0)));
    while i < cells.len()
        invariant
            i <= cells@.len(),
            keys == unit_keys(
                cell_views(cells@),
                unit@,
                factor_views(factors@),
                role_views(roles@),
            ),
            keys.len() == cells@.len(),
            unit_wf(unit@, factor_views(factors@), role_views(roles@)),
            forall|k: int|
                0 <= k < cells@.len() ==> (#[trigger] cells@[k])@.factors.len() == factors@.len()
                    && cells@[k]@.roles.len() == roles@.len(),
            lists(known@) == distinct(keys.take(i as int)),
            out@.len() == i,
            forall|k: int|
                0 <= k < i ==> #[trigger] out@[k] < known@.len() && lists(known@)[out@[k] as int]
                    == keys[k],
        decreases cells@.len() - i,
    {
        assert(cells@[i as int]@.factors.len() == factors@.len());
        let key: Vec<usize> = key_of(&cells[i], unit, factors, roles);
        assert(cell_views(cells@)[i as int] == cells@[i as int]@);
        assert(keys[i as int] == key@);
        assert(keys.take(i + 1).drop_last() =~= keys.take(i as int));
        assert(keys.take(i + 1).last() == keys[i as int]);
        let ghost before = lists(known@);
        match find_key(&known, &key) {
            Some(n) => {
                assert(before[n as int] == key@);
                out.push(n);
            },
            None => {
                let n: usize = known.len();
                let ghost kv = key@;
                known.push(key);
                assert(lists(known@) =~= before.push(kv));
                out.push(n);
                assert forall|k: int| 0 <= k < i + 1 implies #[trigger] out@[k] < known@.len()
                    && lists(known@)[out@[k] as int] == keys[k] by {
                    if k < i {
                        assert(lists(known@)[out@[k] as int] == before[out@[k] as int]);
                    }
                }
            },
        }
        i = i + 1;
    }
    assert(keys.take(i as int) =~= keys);
    proof {
        lemma_distinct(keys);
        let d = distinct(keys);
        assert forall|k: int| 0 <= k < cells@.len() implies #[trigger] out@[k] == d.index_of(keys[k])
            && out@[k] < known@.len() by {
            assert(d[out@[k] as int] == keys[k]);
            assert(d.contains(keys[k]));
            let e = d.index_of(keys[k]);
            assert(0 <= e < d.len() && d[e] == keys[k]);
        }
    }
    (out, known.len())
}

fn label_of(plan: &Plan, factors: &[Factor], roles: &[ReplicateRole], model: &Model) -> (s: String)
    requires
        plan_wf(plan@, factor_views(factors@), role_views(roles@), model@.terms),
        terms_wf(model@.terms, factors@.len()),
    ensures
        s@ == column_label(plan@, factor_views(factors@), role_views(roles@), model@.terms),
{
    let ghost (fv, rv, tv) = (factor_views(factors@), role_views(roles@), model@.terms);
    match plan {
        Plan::Intercept => "(Intercept)".to_owned(),
        Plan::Block { role, j } => {
            assert(rv[*role as int] == roles@[*role as int]@);
            level_text(roles[*role].name.as_str(), &roles[*role].levels[*j])
        },
        Plan::Term { term, combo } => {
            let t: &Vec<usize> = &model.terms[*term].0;
            assert(tv[*term as int] == t@);
            let mut parts: Vec<String> = Vec::new();
            let mut i: usize = 0;
            while i < t.len()
                invariant
                    i <= t@.len(),
                    fv == factor_views(factors@),
                    combo@.len() == t@.len(),
                    forall|k: int|
                        0 <= k < t@.len() ==> #[trigger] t@[k] < factors@.len() && combo@[k]
                            < fv[t@[k] as int].values.len(),
                    parts@.len() == i,
                    forall|k: int|
                        0 <= k < i ==> (#[trigger] parts@[k])@ == combo_labels(t@, combo@, fv)[k],
                decreases t@.len() - i,
            {
                let f: usize = t[i];
                assert(fv[f as int] == factors@[f as int]@);
                parts.push(level_text(factors[f].name.as_str(), &factors[f].values[combo[i]]));
                i = i + 1;
            }
            assert(views(parts@) =~= combo_labels(t@, combo@, fv));
            join(&parts, ":")
        },
        Plan::Unit { j } => {
            let mut s: String = String::new();
            s.append("unit[u");
            let n: String = padded_text(*j as u64 + 1, 3);
            s.append(n.as_str());
            s.append("]");
            assert(s@ =~= "unit[u"@ + padded((*j + 1) as nat, 3) + "]"@);
            s
        },
    }
}

fn level_text(name: &str, value: &FactorValue) -> (s: String)
    ensures
        s@ == level_label(name@, value@),
{
    let mut s: String = String::new();
    s.append(name);
    s.append("[");
    let v: String = value.to_text();
    s.append(v.as_str());
    s.append("]");
    assert(s@ =~= level_label(name@, value@));
    s
}

/// The indices of a column are those of its role or term.
pub open spec fn plan_wf(
    col: Column,
    factors: Seq<FactorView>,
    roles: Seq<RoleView>,
    terms: Seq<Seq<usize>>,
) -> bool {
    match col {
        Column::Intercept => true,
        Column::Block { role, j } => 0 <= role < roles.len() && 0 <= j < roles[role].levels.len(),
        Column::Term { term, combo } => 0 <= term < terms.len() && combo.len() == terms[term].len()
            && forall|k: int|
            0 <= k < combo.len() ==> terms[term][k] < factors.len() && #[trigger] combo[k]
                < factors[terms[term][k] as int].values.len(),
        Column::Unit { j } => 0 <= j < usize::MAX,
    }
}

proof fn lemma_block_columns_wf(
    factors: Seq<FactorView>,
    roles: Seq<RoleView>,
    terms: Seq<Seq<usize>>,
    n: nat,
    c: int,
)
    requires
        n <= roles.len(),
        0 <= c < block_columns(roles, n).len(),
    ensures
        plan_wf(block_columns(roles, n)[c], factors, roles, terms),
    decreases n,
{
    let before = block_columns(roles, (n - 1) as nat);
    if c < before.len() {
        lemma_block_columns_wf(factors, roles, terms, (n - 1) as nat, c);
    }
}

proof fn lemma_term_columns_wf(
    factors: Seq<FactorView>,
    roles: Seq<RoleView>,
    terms: Seq<Seq<usize>>,
    n: nat,
    c: int,
)
    requires
        n <= terms.len(),
        terms_wf(terms, factors.len()),
        forall|f: int| 0 <= f < factors.len() ==> 0 < (#[trigger] factors[f]).values.len() <= usize::MAX,
        0 <= c < term_columns(terms, factors, n).len(),
    ensures
        plan_wf(term_columns(terms, factors, n)[c], factors, roles, terms),
    decreases n,
{
    let before = term_columns(terms, factors, (n - 1) as nat);
    if c < before.len() {
        lemma_term_columns_wf(factors, roles, terms, (n - 1) as nat, c);
    } else {
        let t = terms[n - 1];
        let dims = term_dims(t, factors);
        let i = c - before.len();
        lemma_tuple_at(dims, i);
        let combo = tuples(dims)[i];
        assert(super::formula::term_wf(t, factors.len()));
        assert forall|k: int| 0 <= k < combo.len() implies t[k] < factors.len()
            && #[trigger] combo[k] < factors[t[k] as int].values.len() by {
            assert(combo[k] < dims[k]);
            assert(t[k] < factors.len());
            assert(factors[t[k] as int].values.len() > 0);
        }
    }
}

/// Every column of the list belongs to a role, a term or a unit.
pub proof fn lemma_columns_wf(
    factors: Seq<FactorView>,
    roles: Seq<RoleView>,
    terms: Seq<Seq<usize>>,
    units: nat,
)
    requires
        terms_wf(terms, factors.len()),
        forall|f: int| 0 <= f < factors.len() ==> 0 < (#[trigger] factors[f]).values.len() <= usize::MAX,
        units <= usize::MAX,
    ensures
        forall|c: int|
            0 <= c < column_list(factors, roles, terms, units).len() ==> plan_wf(
                #[trigger] column_list(factors, roles, terms, units)[c],
                factors,
                roles,
                terms,
            ),
{
    let cols = column_list(factors, roles, terms, units);
    let b = block_columns(roles, roles.len());
    let t = term_columns(terms, factors, terms.len());
    let u = unit_columns(units);
    assert forall|c: int| 0 <= c < cols.len() implies plan_wf(
        #[trigger] cols[c],
        factors,
        roles,
        terms,
    ) by {
        if c == 0 {
            assert(cols[c] == Column::Intercept);
        } else if c < 1 + b.len() {
            assert(cols[c] == b[c - 1]);
            lemma_block_columns_wf(factors, roles, terms, roles.len(), c - 1);
        } else if c < 1 + b.len() + t.len() {
            assert(cols[c] == t[c - 1 - b.len()]);
            lemma_term_columns_wf(factors, roles, terms, terms.len(), c - 1 - b.len());
        } else {
            assert(cols[c] == u[c - 1 - b.len() - t.len()]);
        }
    }
}

/// The entry of a planned column.
fn entry(
    plan: &Plan,
    cell: &Cell,
    factors: &[Factor],
    roles: &[ReplicateRole],
    model: &Model,
    unit: usize,
    units: usize,
) -> (x: i64)
    requires
        plan_wf(plan@, factor_views(factors@), role_views(roles@), model@.terms),
        cell_wf(cell@, factor_views(factors@), role_views(roles@)),
        plan@ is Unit ==> unit < units,
    ensures
        x == entry_of(
            plan@,
            cell@,
            factor_views(factors@),
            role_views(roles@),
            model@.terms,
            unit as int,
            units as int,
        ),
{
    let ghost (fv, rv, tv) = (factor_views(factors@), role_views(roles@), model@.terms);
    match plan {
        Plan::Intercept => 1,
        Plan::Block { role, j } => {
            assert(rv[*role as int] == roles@[*role as int]@);
            assert(cell@.roles[*role as int] < rv[*role as int].levels.len());
            code(cell.replicate_levels[*role], *j, roles[*role].levels.len())
        },
        Plan::Term { term, combo } => {
            let t: &Vec<usize> = &model.terms[*term].0;
            assert(tv[*term as int] == t@);
            assert forall|k: int| 0 <= k < t@.len() implies #[trigger] t@[k] < factors@.len() by {
                assert(combo@[k] < fv[t@[k] as int].values.len());
            }
            let mut x: i64 = 1;
            let mut n: usize = 0;
            while n < t.len()
                invariant
                    n <= t@.len(),
                    fv == factor_views(factors@),
                    cell_wf(cell@, fv, role_views(roles@)),
                    combo@.len() == t@.len(),
                    forall|k: int| 0 <= k < t@.len() ==> #[trigger] t@[k] < factors@.len(),
                    -1 <= x <= 1,
                    x == code_product(cell@, t@, combo@, fv, n as nat),
                decreases t@.len() - n,
            {
                let f: usize = t[n];
                assert(fv[f as int] == factors@[f as int]@);
                assert(cell@.factors[f as int] < fv[f as int].values.len());
                let y: i64 = code(cell.factor_levels[f], combo[n], factors[f].level_count());
                assert(-1 <= x * y <= 1) by (nonlinear_arith)
                    requires
                        -1 <= x <= 1,
                        -1 <= y <= 1,
                ;
                x = x * y;
                n = n + 1;
            }
            x
        },
        Plan::Unit { j } => code(unit, *j, units),
    }
}

/// The optional unit of a design.
pub open spec fn unit_view(unit: Option<&Unit>) -> Option<UnitView> {
    match unit {
        Some(u) => Some(u@),
        None => None,
    }
}

/// The coded matrix of cells: intercept, replicate blocks, the terms of the
/// model and, where a unit is given, the units.
pub fn model_matrix(
    factors: &[Factor],
    roles: &[ReplicateRole],
    model: &Model,
    cells: &[Cell],
    include_unit: Option<&Unit>,
) -> (mm: ModelMatrix)
    requires
        terms_wf(model@.terms, factors@.len()),
        forall|f: int| 0 <= f < factors@.len() ==> (#[trigger] factors@[f]).values@.len() > 0,
        terms_fit(model@.terms, factor_views(factors@)),
        cells_wf(cell_views(cells@), factor_views(factors@), role_views(roles@)),
        include_unit matches Some(u) ==> unit_wf(u@, factor_views(factors@), role_views(roles@)),
    ensures
        is_matrix(
            mm,
            factor_views(factors@),
            role_views(roles@),
            model@.terms,
            cell_views(cells@),
            unit_view(include_unit),
        ),
{
    let ghost (fv, rv, tv, cv) = (
        factor_views(factors@),
        role_views(roles@),
        model@.terms,
        cell_views(cells@),
    );
    let ghost uv = unit_view(include_unit);
    assert forall|i: int| 0 <= i < cells@.len() implies cell_wf((#[trigger] cells@[i])@, fv, rv) by {
        assert(cv[i] == cells@[i]@);
    }
    let (numbers, units): (Vec<usize>, usize) = match include_unit {
        Some(u) => number_units(cells, u, factors, roles),
        None => (vec![0; cells.len()], 0),
    };
    let plans: Vec<Plan> = plan_columns(factors, roles, model, units);
    let ghost cols = column_list(fv, rv, tv, units as nat);
    proof {
        assert forall|f: int| 0 <= f < fv.len() implies 0 < (#[trigger] fv[f]).values.len()
            <= usize::MAX by {
            assert(fv[f] == factors@[f]@);
            assert(factors@[f].values@.len() > 0);
            assert(factors@[f].values.len() <= usize::MAX);
        }
        lemma_columns_wf(fv, rv, tv, units as nat);
    }
    let p: usize = plans.len();
    let mut columns: Vec<ColumnInfo> = Vec::new();
    let mut c: usize = 0;
    while c < p
        invariant
            p == plans@.len(),
            c <= p,
            cols == plan_views(plans@),
            fv == factor_views(factors@),
            rv == role_views(roles@),
            tv == model@.terms,
            terms_wf(tv, factors@.len()),
            forall|k: int| 0 <= k < cols.len() ==> plan_wf(#[trigger] cols[k], fv, rv, tv),
            columns@.len() == c,
            forall|k: int|
                0 <= k < c ==> (#[trigger] columns@[k]).source == column_source(cols[k])
                    && columns@[k].label@ == column_label(cols[k], fv, rv, tv),
        decreases p - c,
    {
        let plan: &Plan = &plans[c];
        assert(cols[c as int] == plan@);
        let source: ColumnSource = match plan {
            Plan::Intercept => ColumnSource::Intercept,
            Plan::Block { role, .. } => ColumnSource::Block { role: *role },
            Plan::Term { term, .. } => ColumnSource::Term { term: *term },
            Plan::Unit { .. } => ColumnSource::Unit,
        };
        columns.push(ColumnInfo { source, label: label_of(plan, factors, roles, model) });
        c = c + 1;
    }
    let mut data: Vec<Vec<i64>> = Vec::new();
    let mut r: usize = 0;
    while r < cells.len()
        invariant
            r <= cells@.len(),
            p == plans@.len(),
            cols == plan_views(plans@),
            fv == factor_views(factors@),
            rv == role_views(roles@),
            tv == model@.terms,
            cv == cell_views(cells@),
            numbers@.len() == cells@.len(),
            units > 0 ==> forall|k: int| 0 <= k < numbers@.len() ==> #[trigger] numbers@[k] < units,
            cols == column_list(fv, rv, tv, units as nat),
            forall|k: int| 0 <= k < cols.len() ==> plan_wf(#[trigger] cols[k], fv, rv, tv),
            forall|k: int| 0 <= k < cells@.len() ==> cell_wf((#[trigger] cells@[k])@, fv, rv),
            data@.len() == r,
            forall|s: int| 0 <= s < r ==> (#[trigger] data@[s])@.len() == p,
            forall|s: int, k: int|
                0 <= s < r && 0 <= k < p ==> #[trigger] data@[s]@[k] == entry_of(
                    cols[k],
                    cv[s],
                    fv,
                    rv,
                    tv,
                    numbers@[s] as int,
                    units as int,
                ),
        decreases cells@.len() - r,
    {
        let cell: &Cell = &cells[r];
        assert(cv[r as int] == cell@);
        let mut row: Vec<i64> = Vec::new();
        let mut c: usize = 0;
        while c < p
            invariant
                c <= p,
                p == plans@.len(),
                r < numbers@.len(),
                cols == plan_views(plans@),
                fv == factor_views(factors@),
                rv == role_views(roles@),
                tv == model@.terms,
                units > 0 ==> numbers@[r as int] < units,
                cols == column_list(fv, rv, tv, units as nat),
                forall|k: int| 0 <= k < cols.len() ==> plan_wf(#[trigger] cols[k], fv, rv, tv),
                cell_wf(cell@, fv, rv),
                row@.len() == c,
                forall|k: int|
                    0 <= k < c ==> #[trigger] row@[k] == entry_of(
                        cols[k],
                        cell@,
                        fv,
                        rv,
                        tv,
                        numbers@[r as int] as int,
                        units as int,
                    ),
            decreases p - c,
        {
            assert(cols[c as int] == plans@[c as int]@);
            proof {
                if cols[c as int] is Unit {
                    lemma_unit_column(fv, rv, tv, units as nat, c as int);
                }
            }
            row.push(entry(&plans[c], cell, factors, roles, model, numbers[r], units));
            c = c + 1;
        }
        data.push(row);
        r = r + 1;
    }
    ModelMatrix { columns, data }
}

proof fn lemma_no_unit_blocks(roles: Seq<RoleView>, n: nat, c: int)
    requires
        0 <= c < block_columns(roles, n).len(),
    ensures
        block_columns(roles, n)[c] is Block,
    decreases n,
{
    let before = block_columns(roles, (n - 1) as nat);
    if c < before.len() {
        lemma_no_unit_blocks(roles, (n - 1) as nat, c);
    }
}

proof fn lemma_no_unit_terms(terms: Seq<Seq<usize>>, factors: Seq<FactorView>, n: nat, c: int)
    requires
        0 <= c < term_columns(terms, factors, n).len(),
    ensures
        term_columns(terms, factors, n)[c] is Term,
    decreases n,
{
    let before = term_columns(terms, factors, (n - 1) as nat);
    if c < before.len() {
        lemma_no_unit_terms(terms, factors, (n - 1) as nat, c);
    }
}

proof fn lemma_unit_column(
    factors: Seq<FactorView>,
    roles: Seq<RoleView>,
    terms: Seq<Seq<usize>>,
    units: nat,
    c: int,
)
    requires
        0 <= c < column_list(factors, roles, terms, units).len(),
        column_list(factors, roles, terms, units)[c] is Unit,
    ensures
        units > 0,
{
    let cols = column_list(factors, roles, terms, units);
    let b = block_columns(roles, roles.len());
    let t = term_columns(terms, factors, terms.len());
    if c == 0 {
        assert(cols[c] == Column::Intercept);
    } else if c < 1 + b.len() {
        assert(cols[c] == b[c - 1]);
        lemma_no_unit_blocks(roles, roles.len(), c - 1);
    } else if c < 1 + b.len() + t.len() {
        assert(cols[c] == t[c - 1 - b.len()]);
        lemma_no_unit_terms(terms, factors, terms.len(), c - 1 - b.len());
    }
}

} // verus!
