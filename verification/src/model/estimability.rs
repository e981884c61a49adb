//! What a design can estimate, told from the ranks of its model matrix.
//!
//! The ranks and the supports of the null vectors are numerical results; they
//! come in as a [`RankReport`]. Which terms are estimable, and what the others
//! are aliased with, is decided here.
use vstd::prelude::*;

use super::formula::{factor_names, term_label, term_wf, terms_wf, Model, Term};
use super::matrix::{
    column_label, column_list, column_source, is_matrix, lemma_columns_wf, plan_wf, CellView, Column,
    ColumnInfo, ColumnSource, ModelMatrix, RoleView,
};
use crate::factor::{factor_views, Factor, FactorView};
use crate::text::{chars_of, equal, string_of, views};
use crate::tuples::{distinct, lemma_distinct};

verus! {

/// The numerical facts about a model matrix.
#[derive(Debug)]
pub struct RankReport {
    /// Rank of the whole matrix.
    pub rank: usize,
    /// Rank without the columns of each term.
    pub without_terms: Vec<usize>,
    /// Rank without the block columns.
    pub without_blocks: usize,
    /// One null vector per dependent column: where its entries are not zero.
    pub null_supports: Vec<Vec<bool>>,
}

/// What a design estimates.
#[derive(Debug)]
pub struct Estimability {
    pub n_rows: usize,
    pub n_params: usize,
    pub rank: usize,
    pub residual_df: usize,
    pub terms: Vec<TermEstimability>,
    pub blocks_estimable: bool,
}

/// What a design tells about a term.
#[derive(Debug)]
pub struct TermEstimability {
    pub term: Term,
    pub df: usize,
    pub estimable: bool,
    pub aliased_with: Vec<String>,
}

/// The form in which a report carries it.
pub type EstimabilityReport = Estimability;

#[verifier::ext_equal]
pub struct RanksView {
    pub rank: nat,
    pub without_terms: Seq<usize>,
    pub without_blocks: nat,
    pub null_supports: Seq<Seq<bool>>,
}

#[verifier::ext_equal]
pub struct EstimabilityView {
    pub n_rows: nat,
    pub n_params: nat,
    pub rank: nat,
    pub residual_df: nat,
    pub terms: Seq<TermView>,
    pub blocks_estimable: bool,
}

#[verifier::ext_equal]
pub struct TermView {
    pub term: Seq<usize>,
    pub df: nat,
    pub estimable: bool,
    pub aliased_with: Seq<Seq<char>>,
}

#[verifier::ext_equal]
pub struct ColumnView {
    pub source: ColumnSource,
    pub label: Seq<char>,
}

impl View for RankReport {
    type V = RanksView;

    open spec fn view(&self) -> RanksView {
        RanksView {
            rank: self.rank as nat,
            without_terms: self.without_terms@,
            without_blocks: self.without_blocks as nat,
            null_supports: self.null_supports@.map_values(|v: Vec<bool>| v@),
        }
    }
}

impl View for TermEstimability {
    type V = TermView;

    open spec fn view(&self) -> TermView {
        TermView {
            term: self.term@,
            df: self.df as nat,
            estimable: self.estimable,
            aliased_with: views(self.aliased_with@),
        }
    }
}

impl View for Estimability {
    type V = EstimabilityView;

    open spec fn view(&self) -> EstimabilityView {
        EstimabilityView {
            n_rows: self.n_rows as nat,
            n_params: self.n_params as nat,
            rank: self.rank as nat,
            residual_df: self.residual_df as nat,
            terms: self.terms@.map_values(|t: TermEstimability| t@),
            blocks_estimable: self.blocks_estimable,
        }
    }
}

pub open spec fn column_views(columns: Seq<ColumnInfo>) -> Seq<ColumnView> {
    columns.map_values(|c: ColumnInfo| ColumnView { source: c.source, label: c.label@ })
}

/// The source of a column is a block.
pub open spec fn is_block(c: ColumnView) -> bool {
    c.source is Block
}

/// The numbers of the first `n` columns that belong to term `t`.
pub open spec fn columns_of(columns: Seq<ColumnView>, t: usize, n: nat) -> Seq<usize>
    decreases n,
{
    if n == 0 {
        Seq::empty()
    } else {
        let rest = columns_of(columns, t, (n - 1) as nat);
        if columns[n - 1].source == (ColumnSource::Term { term: t }) {
            rest.push((n - 1) as usize)
        } else {
            rest
        }
    }
}

/// The numbers of the first `n` columns that belong to blocks.
pub open spec fn blocks_of(columns: Seq<ColumnView>, n: nat) -> Seq<usize>
    decreases n,
{
    if n == 0 {
        Seq::empty()
    } else {
        let rest = blocks_of(columns, (n - 1) as nat);
        if is_block(columns[n - 1]) {
            rest.push((n - 1) as usize)
        } else {
            rest
        }
    }
}

/// The row without the entries of the given columns.
pub open spec fn row_without(row: Seq<i64>, drop: Seq<usize>, n: nat) -> Seq<i64>
    decreases n,
{
    if n == 0 {
        Seq::empty()
    } else {
        let rest = row_without(row, drop, (n - 1) as nat);
        if drop.contains((n - 1) as usize) {
            rest
        } else {
            rest.push(row[n - 1])
        }
    }
}

/// The text before the first `[`, or all of it.
pub open spec fn role_of_label(label: Seq<char>) -> Seq<char> {
    match crate::factor::position(label, '[', 0) {
        Some(i) => label.take(i as int),
        None => label,
    }
}

/// How an alias names the source of a column.
pub open spec fn source_label(
    c: ColumnView,
    terms: Seq<Seq<usize>>,
    factors: Seq<FactorView>,
) -> Seq<char> {
    match c.source {
        ColumnSource::Intercept => "(Intercept)"@,
        ColumnSource::Block { role } => role_of_label(c.label),
        ColumnSource::Term { term } => term_label(terms[term as int], factor_names(factors)),
        ColumnSource::Unit => "unit"@,
    }
}

/// The first column from `i` on with a source.
pub open spec fn first_with(columns: Seq<ColumnView>, s: ColumnSource, i: nat) -> nat
    decreases columns.len() - i,
{
    if i >= columns.len() || columns[i as int].source == s {
        i
    } else {
        first_with(columns, s, i + 1)
    }
}

/// A null vector has an entry in a column of term `t`.
pub open spec fn touches(columns: Seq<ColumnView>, support: Seq<bool>, t: usize) -> bool {
    exists|c: int|
        0 <= c < columns.len() && #[trigger] support[c] && columns[c].source
            == (ColumnSource::Term { term: t })
}

/// The names of the other sources in the first `n` columns of a null vector.
pub open spec fn other_sources(
    columns: Seq<ColumnView>,
    support: Seq<bool>,
    t: usize,
    terms: Seq<Seq<usize>>,
    factors: Seq<FactorView>,
    n: nat,
) -> Seq<Seq<char>>
    decreases n,
{
    if n == 0 {
        Seq::empty()
    } else {
        let rest = other_sources(columns, support, t, terms, factors, (n - 1) as nat);
        if support[n - 1] && columns[n - 1].source != (ColumnSource::Term { term: t }) {
            rest.push(
                source_label(
                    columns[first_with(columns, columns[n - 1].source, 0) as int],
                    terms,
                    factors,
                ),
            )
        } else {
            rest
        }
    }
}

/// The names that the first `n` null vectors tie to term `t`.
pub open spec fn tied(
    columns: Seq<ColumnView>,
    nulls: Seq<Seq<bool>>,
    t: usize,
    terms: Seq<Seq<usize>>,
    factors: Seq<FactorView>,
    n: nat,
) -> Seq<Seq<char>>
    decreases n,
{
    if n == 0 {
        Seq::empty()
    } else {
        let rest = tied(columns, nulls, t, terms, factors, (n - 1) as nat);
        if touches(columns, nulls[n - 1], t) {
            rest + other_sources(columns, nulls[n - 1], t, terms, factors, columns.len())
        } else {
            rest
        }
    }
}

/// What the ranks tell about term `t`: it is estimable if the rank falls by all
/// of its columns without them.
pub open spec fn term_verdict(
    columns: Seq<ColumnView>,
    terms: Seq<Seq<usize>>,
    factors: Seq<FactorView>,
    ranks: RanksView,
    t: int,
) -> TermView {
    let df = columns_of(columns, t as usize, columns.len()).len();
    let estimable = ranks.rank == ranks.without_terms[t] + df;
    TermView {
        term: terms[t],
        df,
        estimable,
        aliased_with: if estimable {
            Seq::empty()
        } else {
            distinct(
                tied(
                    columns,
                    ranks.null_supports,
                    t as usize,
                    terms,
                    factors,
                    ranks.null_supports.len(),
                ),
            )
        },
    }
}

/// What the ranks tell about a design.
pub open spec fn verdict(
    columns: Seq<ColumnView>,
    n_rows: nat,
    terms: Seq<Seq<usize>>,
    factors: Seq<FactorView>,
    ranks: RanksView,
) -> EstimabilityView {
    EstimabilityView {
        n_rows,
        n_params: columns.len(),
        rank: ranks.rank,
        residual_df: (n_rows - ranks.rank) as nat,
        terms: Seq::new(terms.len(), |t: int| term_verdict(columns, terms, factors, ranks, t)),
        blocks_estimable: ranks.rank == ranks.without_blocks + blocks_of(
            columns,
            columns.len(),
        ).len(),
    }
}

/// The report speaks of a matrix with these columns.
pub open spec fn ranks_wf(
    ranks: RanksView,
    columns: nat,
    n_rows: nat,
    terms: nat,
) -> bool {
    &&& ranks.rank <= n_rows
    &&& ranks.without_terms.len() == terms
    &&& forall|i: int|
        0 <= i < ranks.null_supports.len() ==> (#[trigger] ranks.null_supports[i]).len() == columns
}

/// The columns name terms of the model.
pub open spec fn columns_wf(columns: Seq<ColumnView>, terms: nat) -> bool {
    forall|c: int|
        0 <= c < columns.len() ==> ((#[trigger] columns[c]).source matches ColumnSource::Term {
            term,
        } ==> term < terms)
}

/// The columns of the matrix of a model without units.
pub open spec fn matrix_columns(
    factors: Seq<FactorView>,
    roles: Seq<RoleView>,
    terms: Seq<Seq<usize>>,
) -> Seq<ColumnView> {
    column_list(factors, roles, terms, 0).map_values(
        |c: Column|
            ColumnView {
                source: column_source(c),
                label: column_label(c, factors, roles, terms),
            },
    )
}

/// The columns of a coded matrix are those of its model.
pub proof fn lemma_matrix_columns(
    mm: ModelMatrix,
    factors: Seq<FactorView>,
    roles: Seq<RoleView>,
    terms: Seq<Seq<usize>>,
    cells: Seq<CellView>,
)
    requires
        is_matrix(mm, factors, roles, terms, cells, None),
        terms_wf(terms, factors.len()),
        terms.len() <= usize::MAX,
        forall|f: int|
            0 <= f < factors.len() ==> 0 < (#[trigger] factors[f]).values.len() <= usize::MAX,
    ensures
        column_views(mm.columns@) == matrix_columns(factors, roles, terms),
        columns_wf(column_views(mm.columns@), terms.len()),
{
    let cols = column_list(factors, roles, terms, 0);
    let cv = column_views(mm.columns@);
    assert forall|c: int| 0 <= c < cols.len() implies #[trigger] cv[c] == matrix_columns(
        factors,
        roles,
        terms,
    )[c] by {
        assert(mm.columns@[c].source == column_source(cols[c]));
    }
    assert(cv =~= matrix_columns(factors, roles, terms));
    lemma_columns_wf(factors, roles, terms, 0);
    assert forall|c: int| 0 <= c < cv.len() implies ((#[trigger] cv[c]).source matches ColumnSource::Term {
        term,
    } ==> term < terms.len()) by {
        assert(plan_wf(cols[c], factors, roles, terms));
    }
}

proof fn lemma_other_sources(
    columns: Seq<ColumnView>,
    support: Seq<bool>,
    t: usize,
    terms: Seq<Seq<usize>>,
    factors: Seq<FactorView>,
    d: int,
    n: nat,
)
    requires
        0 <= d < n <= columns.len(),
        support[d],
        columns[d].source != (ColumnSource::Term { term: t }),
    ensures
        other_sources(columns, support, t, terms, factors, n).contains(
            source_label(
                columns[first_with(columns, columns[d].source, 0) as int],
                terms,
                factors,
            ),
        ),
    decreases n,
{
    let name = source_label(
        columns[first_with(columns, columns[d].source, 0) as int],
        terms,
        factors,
    );
    let all = other_sources(columns, support, t, terms, factors, n);
    if d == n - 1 {
        assert(all[all.len() - 1] == name);
    } else {
        lemma_other_sources(columns, support, t, terms, factors, d, (n - 1) as nat);
        let rest = other_sources(columns, support, t, terms, factors, (n - 1) as nat);
        let k = choose|k: int| 0 <= k < rest.len() && rest[k] == name;
        assert(all[k] == name);
    }
}

proof fn lemma_tied(
    columns: Seq<ColumnView>,
    nulls: Seq<Seq<bool>>,
    t: usize,
    terms: Seq<Seq<usize>>,
    factors: Seq<FactorView>,
    i: int,
    name: Seq<char>,
    n: nat,
)
    requires
        0 <= i < n <= nulls.len(),
        touches(columns, nulls[i], t),
        other_sources(columns, nulls[i], t, terms, factors, columns.len()).contains(name),
    ensures
        tied(columns, nulls, t, terms, factors, n).contains(name),
    decreases n,
{
    let all = tied(columns, nulls, t, terms, factors, n);
    let rest = tied(columns, nulls, t, terms, factors, (n - 1) as nat);
    if i == n - 1 {
        let more = other_sources(columns, nulls[i], t, terms, factors, columns.len());
        let k = choose|k: int| 0 <= k < more.len() && more[k] == name;
        assert(all[rest.len() + k] == name);
    } else {
        lemma_tied(columns, nulls, t, terms, factors, i, name, (n - 1) as nat);
        let k = choose|k: int| 0 <= k < rest.len() && rest[k] == name;
        assert(all[k] == name);
    }
}

/// Aliases are named: where a null vector has entries in a column of a term and in
/// a column of another source, a term that is not estimable is aliased with that
/// source. No source is named twice, and an estimable term has no alias.
pub proof fn aliases_are_named(
    columns: Seq<ColumnView>,
    terms: Seq<Seq<usize>>,
    factors: Seq<FactorView>,
    ranks: RanksView,
    t: usize,
    i: int,
    c: int,
    d: int,
)
    requires
        0 <= i < ranks.null_supports.len(),
        0 <= c < columns.len(),
        0 <= d < columns.len(),
        ranks.null_supports[i][c],
        ranks.null_supports[i][d],
        columns[c].source == (ColumnSource::Term { term: t }),
        columns[d].source != (ColumnSource::Term { term: t }),
    ensures
        ({
            let v = term_verdict(columns, terms, factors, ranks, t as int);
            &&& v.estimable ==> v.aliased_with.len() == 0
            &&& !v.estimable ==> v.aliased_with.contains(
                source_label(
                    columns[first_with(columns, columns[d].source, 0) as int],
                    terms,
                    factors,
                ),
            )
            &&& v.aliased_with.no_duplicates()
        }),
{
    let nulls = ranks.null_supports;
    let name = source_label(
        columns[first_with(columns, columns[d].source, 0) as int],
        terms,
        factors,
    );
    assert(touches(columns, nulls[i], t));
    lemma_other_sources(columns, nulls[i], t, terms, factors, d, columns.len());
    lemma_tied(columns, nulls, t, terms, factors, i, name, nulls.len());
    lemma_distinct(tied(columns, nulls, t, terms, factors, nulls.len()));
}

/// The numbers of the columns of a term.
pub fn term_column_numbers(mm: &ModelMatrix, t: usize) -> (out: Vec<usize>)
    ensures
        out@ == columns_of(column_views(mm.columns@), t, mm.columns@.len()),
{
    let mut out: Vec<usize> = Vec::new();
    let mut c: usize = 0;
    while c < mm.columns.len()
        invariant
            c <= mm.columns@.len(),
            out@ == columns_of(column_views(mm.columns@), t, c as nat),
        decreases mm.columns@.len() - c,
    {
        if mm.columns[c].source == (ColumnSource::Term { term: t }) {
            out.push(c);
        }
        c = c + 1;
    }
    out
}

/// The numbers of the block columns.
pub fn block_column_numbers(mm: &ModelMatrix) -> (out: Vec<usize>)
    ensures
        out@ == blocks_of(column_views(mm.columns@), mm.columns@.len()),
{
    let mut out: Vec<usize> = Vec::new();
    let mut c: usize = 0;
    while c < mm.columns.len()
        invariant
            c <= mm.columns@.len(),
            out@ == blocks_of(column_views(mm.columns@), c as nat),
        decreases mm.columns@.len() - c,
    {
        match mm.columns[c].source {
            ColumnSource::Block { .. } => {
                out.push(c);
            },
            _ => {},
        }
        c = c + 1;
    }
    out
}

fn holds(list: &[usize], x: usize) -> (r: bool)
    ensures
        r == list@.contains(x),
{
    let mut i: usize = 0;
    while i < list.len()
        invariant
            i <= list@.len(),
            forall|k: int| 0 <= k < i ==> #[trigger] list@[k] != x,
        decreases list@.len() - i,
    {
        if list[i] == x {
            assert(list@[i as int] == x);
            return true;
        }
        i = i + 1;
    }
    false
}

/// The matrix without the given columns.
pub fn matrix_without(mm: &ModelMatrix, drop: &[usize]) -> (out: Vec<Vec<i64>>)
    ensures
        out@.len() == mm.data@.len(),
        forall|r: int|
            0 <= r < out@.len() ==> (#[trigger] out@[r])@ == row_without(
                mm.data@[r]@,
                drop@,
                mm.data@[r]@.len(),
            ),
{
    let mut out: Vec<Vec<i64>> = Vec::new();
    let mut r: usize = 0;
    while r < mm.data.len()
        invariant
            r <= mm.data@.len(),
            out@.len() == r,
            forall|s: int|
                0 <= s < r ==> (#[trigger] out@[s])@ == row_without(
                    mm.data@[s]@,
                    drop@,
                    mm.data@[s]@.len(),
                ),
        decreases mm.data@.len() - r,
    {
        let row: &Vec<i64> = &mm.data[r];
        let mut kept: Vec<i64> = Vec::new();
        let mut c: usize = 0;
        while c < row.len()
            invariant
                c <= row@.len(),
                kept@ == row_without(row@, drop@, c as nat),
            decreases row@.len() - c,
        {
            if !holds(drop, c) {
                kept.push(row[c]);
            }
            c = c + 1;
        }
        out.push(kept);
        r = r + 1;
    }
    out
}

fn label_of_source(mm: &ModelMatrix, c: usize, model: &Model, factors: &[Factor]) -> (s: String)
    requires
        c < mm.columns@.len(),
        columns_wf(column_views(mm.columns@), model@.terms.len()),
        terms_wf(model@.terms, factors@.len()),
    ensures
        s@ == source_label(
            column_views(mm.columns@)[first_with(
                column_views(mm.columns@),
                mm.columns@[c as int].source,
                0,
            ) as int],
            model@.terms,
            factor_views(factors@),
        ),
{
    let ghost cv = column_views(mm.columns@);
    let source: ColumnSource = mm.columns[c].source;
    let mut i: usize = 0;
    while mm.columns[i].source != source
        invariant
            i <= c < mm.columns@.len(),
            source == mm.columns@[c as int].source,
            cv == column_views(mm.columns@),
            first_with(cv, source, 0) == first_with(cv, source, i as nat),
        decreases c - i,
    {
        assert(cv[i as int].source != source);
        i = i + 1;
    }
    assert(cv[i as int].source == source);
    assert(first_with(cv, source, 0) == i);
    match source {
        ColumnSource::Intercept => "(Intercept)".to_owned(),
        ColumnSource::Block { .. } => {
            let label: Vec<char> = chars_of(mm.columns[i].label.as_str());
            match crate::factor::find_char(&label, '[') {
                Some(at) => {
                    let part: Vec<char> = crate::text::part(&label, 0, at);
                    assert(label@.take(at as int) =~= label@.subrange(0, at as int));
                    string_of(&part)
                },
                None => string_of(&label),
            }
        },
        ColumnSource::Term { term } => {
            assert(cv[i as int].source == source);
            assert(model@.terms[term as int] == model.terms@[term as int]@);
            assert(term_wf(model@.terms[term as int], factors@.len()));
            model.terms[term].label(factors)
        },
        ColumnSource::Unit => "unit".to_owned(),
    }
}

fn holds_text(list: &Vec<String>, s: &str) -> (r: bool)
    ensures
        r == views(list@).contains(s@),
{
    let mut i: usize = 0;
    while i < list.len()
        invariant
            i <= list@.len(),
            forall|k: int| 0 <= k < i ==> #[trigger] views(list@)[k] != s@,
        decreases list@.len() - i,
    {
        if equal(list[i].as_str(), s) {
            assert(views(list@)[i as int] == s@);
            return true;
        }
        i = i + 1;
    }
    false
}

/// Appends a text that is not yet in a list.
pub(crate) fn push_distinct(list: &mut Vec<String>, s: String, Ghost(all): Ghost<Seq<Seq<char>>>)
    requires
        views(old(list)@) == distinct(all),
    ensures
        views(final(list)@) == distinct(all.push(s@)),
{
    let ghost before = list@;
    proof {
        assert(all.push(s@).drop_last() =~= all);
    }
    if !holds_text(list, s.as_str()) {
        let ghost v = s@;
        list.push(s);
        assert(views(list@) =~= views(before).push(v));
    }
}

fn does_touch(mm: &ModelMatrix, support: &Vec<bool>, t: usize) -> (r: bool)
    requires
        support@.len() == mm.columns@.len(),
    ensures
        r == touches(column_views(mm.columns@), support@, t),
{
    let ghost cv = column_views(mm.columns@);
    let mut c: usize = 0;
    while c < support.len()
        invariant
            c <= support@.len(),
            support@.len() == mm.columns@.len(),
            cv == column_views(mm.columns@),
            forall|k: int|
                0 <= k < c ==> !(#[trigger] support@[k] && cv[k].source == (ColumnSource::Term {
                    term: t,
                })),
        decreases support@.len() - c,
    {
        if support[c] && mm.columns[c].source == (ColumnSource::Term { term: t }) {
            assert(support@[c as int] && cv[c as int].source == (ColumnSource::Term { term: t }));
            return true;
        }
        c = c + 1;
    }
    false
}

fn alias_names(
    mm: &ModelMatrix,
    model: &Model,
    factors: &[Factor],
    ranks: &RankReport,
    t: usize,
) -> (out: Vec<String>)
    requires
        columns_wf(column_views(mm.columns@), model@.terms.len()),
        terms_wf(model@.terms, factors@.len()),
        forall|i: int|
            0 <= i < ranks.null_supports@.len() ==> (#[trigger] ranks.null_supports@[i])@.len()
                == mm.columns@.len(),
    ensures
        views(out@) == distinct(
            tied(
                column_views(mm.columns@),
                ranks@.null_supports,
                t,
                model@.terms,
                factor_views(factors@),
                ranks@.null_supports.len(),
            ),
        ),
{
    let ghost (cv, ns, tv, fv) = (
        column_views(mm.columns@),
        ranks@.null_supports,
        model@.terms,
        factor_views(factors@),
    );
    let mut out: Vec<String> = Vec::new();
    assert(views(out@) =~= distinct(tied(cv, ns, t, tv, fv, 0)));
    let mut n: usize = 0;
    while n < ranks.null_supports.len()
        invariant
            n <= ranks.null_supports@.len(),
            cv == column_views(mm.columns@),
            ns == ranks@.null_supports,
            tv == model@.terms,
            fv == factor_views(factors@),
            columns_wf(cv, tv.len()),
            terms_wf(tv, factors@.len()),
            forall|i: int|
                0 <= i < ranks.null_supports@.len() ==> (#[trigger] ranks.null_supports@[i])@.len()
                    == mm.columns@.len(),
            views(out@) == distinct(tied(cv, ns, t, tv, fv, n as nat)),
        decreases ranks.null_supports@.len() - n,
    {
        let support: &Vec<bool> = &ranks.null_supports[n];
        assert(ns[n as int] == support@);
        assert(support@.len() == mm.columns@.len());
        if does_touch(mm, support, t) {
            let ghost rest = tied(cv, ns, t, tv, fv, n as nat);
            assert(rest + other_sources(cv, support@, t, tv, fv, 0) =~= rest);
            let mut c: usize = 0;
            while c < mm.columns.len()
                invariant
                    c <= mm.columns@.len(),
                    support@.len() == mm.columns@.len(),
                    cv == column_views(mm.columns@),
                    tv == model@.terms,
                    fv == factor_views(factors@),
                    columns_wf(cv, tv.len()),
                    terms_wf(tv, factors@.len()),
                    views(out@) == distinct(
                        rest + other_sources(cv, support@, t, tv, fv, c as nat),
                    ),
                decreases mm.columns@.len() - c,
            {
                let ghost so_far = rest + other_sources(cv, support@, t, tv, fv, c as nat);
                assert(cv[c as int].source == mm.columns@[c as int].source);
                if support[c] && mm.columns[c].source != (ColumnSource::Term { term: t }) {
                    let s: String = label_of_source(mm, c, model, factors);
                    assert(rest + other_sources(cv, support@, t, tv, fv, (c + 1) as nat)
                        =~= so_far.push(s@));
                    push_distinct(&mut out, s, Ghost(so_far));
                }
                c = c + 1;
            }
        }
        n = n + 1;
    }
    out
}

/// The rank falls by `n` to `reduced`.
fn falls_by(rank: usize, reduced: usize, n: usize) -> (r: bool)
    ensures
        r == (rank == reduced + n),
{
    rank >= reduced && rank - reduced == n
}

/// What a design estimates: reads the verdict on every term, and on the blocks,
/// from the ranks of its model matrix.
pub fn estimability(
    mm: &ModelMatrix,
    model: &Model,
    factors: &[Factor],
    ranks: &RankReport,
) -> (e: Estimability)
    requires
        columns_wf(column_views(mm.columns@), model@.terms.len()),
        terms_wf(model@.terms, factors@.len()),
        ranks_wf(ranks@, mm.columns@.len(), mm.data@.len(), model@.terms.len()),
    ensures
        e@ == verdict(
            column_views(mm.columns@),
            mm.data@.len(),
            model@.terms,
            factor_views(factors@),
            ranks@,
        ),
{
    let ghost (cv, tv, fv) = (column_views(mm.columns@), model@.terms, factor_views(factors@));
    let n_params: usize = mm.columns.len();
    let mut terms: Vec<TermEstimability> = Vec::new();
    let mut t: usize = 0;
    while t < model.terms.len()
        invariant
            t <= model.terms@.len(),
            n_params == mm.columns@.len(),
            cv == column_views(mm.columns@),
            tv == model@.terms,
            fv == factor_views(factors@),
            columns_wf(cv, tv.len()),
            terms_wf(tv, factors@.len()),
            ranks_wf(ranks@, mm.columns@.len(), mm.data@.len(), tv.len()),
            terms@.len() == t,
            forall|k: int|
                0 <= k < t ==> (#[trigger] terms@[k])@ == term_verdict(cv, tv, fv, ranks@, k),
        decreases model.terms@.len() - t,
    {
        let df: usize = term_column_numbers(mm, t).len();
        let estimable: bool = falls_by(ranks.rank, ranks.without_terms[t], df);
        assert forall|i: int| 0 <= i < ranks.null_supports@.len() implies (
        #[trigger] ranks.null_supports@[i])@.len() == mm.columns@.len() by {
            assert(ranks@.null_supports[i] == ranks.null_supports@[i]@);
        }
        let aliased_with: Vec<String> = if estimable {
            Vec::new()
        } else {
            alias_names(mm, model, factors, ranks, t)
        };
        let term: Term = model.terms[t].copy();
        assert(tv[t as int] == term@);
        let entry: TermEstimability = TermEstimability { term, df, estimable, aliased_with };
        assert(entry@ =~= term_verdict(cv, tv, fv, ranks@, t as int));
        terms.push(entry);
        t = t + 1;
    }
    let blocks: usize = block_column_numbers(mm).len();
    let n_rows: usize = mm.data.len();
    let e: Estimability = Estimability {
        n_rows,
        n_params,
        rank: ranks.rank,
        residual_df: n_rows - ranks.rank,
        terms,
        blocks_estimable: falls_by(ranks.rank, ranks.without_blocks, blocks),
    };
    assert(e@.terms =~= verdict(cv, n_rows as nat, tv, fv, ranks@).terms);
    e
}

} // verus!
