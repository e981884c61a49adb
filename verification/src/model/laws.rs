//! What formulas, matrices and verdicts on estimability come to.
use vstd::prelude::*;
use vstd::set_lib::set_int_range;

use super::estimability::{
    aliases_are_named, blocks_of, columns_of, first_with, matrix_columns, other_sources,
    role_of_label, row_without, source_label, tied, verdict, ColumnView, RanksView,
};
use super::formula::{
    ascending, atom_at, cross_from, crossed, expr_at, first_general, first_named, hierarchy_message,
    hierarchy_messages, inter_at, interaction_from, lower_messages, main_effects_of, name_index,
    ordered_is_canonical, place_of, prod_at, product_from, response_of, result_model, shares,
    single_terms, sum_from, term_label, token_is, union_term, valid_name, ModelView,
};
use super::matrix::{
    block_columns, code_of, code_product, column_list, entry_of, level_label, term_columns,
    term_dims, unit_columns, CellView, Column, ColumnSource, RoleView,
};
use crate::factor::{FactorView, ValueView};
use crate::text::trimmed;
use crate::tuples::{lemma_distinct, tuple_count, tuples};

verus! {

// ===== Estimability =====

proof fn lemma_columns_of(columns: Seq<ColumnView>, t: usize, n: nat)
    requires
        n <= columns.len(),
    ensures
        Set::new(|c: int| 0 <= c < n && columns[c].source == ColumnSource::Term { term: t }).finite(),
        columns_of(columns, t, n).len() == Set::new(
            |c: int| 0 <= c < n && columns[c].source == ColumnSource::Term { term: t },
        ).len(),
    decreases n,
{
    let now = Set::new(|c: int| 0 <= c < n && columns[c].source == ColumnSource::Term { term: t });
    if n == 0 {
        assert(now =~= Set::empty());
    } else {
        let m = (n - 1) as nat;
        let before = Set::new(
            |c: int| 0 <= c < m && columns[c].source == ColumnSource::Term { term: t },
        );
        lemma_columns_of(columns, t, m);
        if columns[n - 1].source == (ColumnSource::Term { term: t }) {
            assert(now =~= before.insert(n - 1));
        } else {
            assert(now =~= before);
        }
    }
}

proof fn lemma_blocks_of(columns: Seq<ColumnView>, n: nat)
    requires
        n <= columns.len(),
    ensures
        Set::new(|c: int| 0 <= c < n && columns[c].source is Block).finite(),
        blocks_of(columns, n).len() == Set::new(
            |c: int| 0 <= c < n && columns[c].source is Block,
        ).len(),
    decreases n,
{
    let now = Set::new(|c: int| 0 <= c < n && columns[c].source is Block);
    if n == 0 {
        assert(now =~= Set::empty());
    } else {
        let m = (n - 1) as nat;
        let before = Set::new(|c: int| 0 <= c < m && columns[c].source is Block);
        lemma_blocks_of(columns, m);
        if columns[n - 1].source is Block {
            assert(now =~= before.insert(n - 1));
        } else {
            assert(now =~= before);
        }
    }
}

/// A term is estimable exactly where leaving out its columns lowers the rank by
/// the number of those columns: where the rank falls by less, only a part of the
/// term is there, and the term is not estimable.
pub proof fn terms_are_estimable_as_a_whole(
    columns: Seq<ColumnView>,
    n_rows: nat,
    terms: Seq<Seq<usize>>,
    factors: Seq<FactorView>,
    ranks: RanksView,
    t: usize,
)
    requires
        t < terms.len(),
    ensures
        ({
            let v = verdict(columns, n_rows, terms, factors, ranks).terms[t as int];
            let own = Set::new(
                |c: int| 0 <= c < columns.len() && columns[c].source == ColumnSource::Term { term: t },
            );
            &&& v.term == terms[t as int]
            &&& v.df == own.len()
            &&& v.estimable <==> ranks.rank - ranks.without_terms[t as int] == own.len()
            &&& ranks.rank < ranks.without_terms[t as int] + own.len() ==> !v.estimable
            &&& v.estimable ==> v.aliased_with.len() == 0
        }),
{
    lemma_columns_of(columns, t, columns.len());
}

/// The blocks are estimable exactly where leaving them out lowers the rank by
/// their number. The rank and the residual degrees of freedom make up the rows,
/// and every column is a parameter.
pub proof fn ranks_and_residuals_make_up_the_rows(
    columns: Seq<ColumnView>,
    n_rows: nat,
    terms: Seq<Seq<usize>>,
    factors: Seq<FactorView>,
    ranks: RanksView,
)
    requires
        ranks.rank <= n_rows,
    ensures
        ({
            let e = verdict(columns, n_rows, terms, factors, ranks);
            let blocks = Set::new(|c: int| 0 <= c < columns.len() && columns[c].source is Block);
            &&& e.blocks_estimable <==> ranks.rank - ranks.without_blocks == blocks.len()
            &&& e.rank + e.residual_df == n_rows
            &&& e.rank == ranks.rank
            &&& e.n_rows == n_rows
            &&& e.n_params == columns.len()
            &&& e.terms.len() == terms.len()
        }),
{
    lemma_blocks_of(columns, columns.len());
}

proof fn lemma_other_source(
    columns: Seq<ColumnView>,
    support: Seq<bool>,
    t: usize,
    terms: Seq<Seq<usize>>,
    factors: Seq<FactorView>,
    n: nat,
    k: int,
) -> (d: int)
    requires
        n <= columns.len(),
        0 <= k < other_sources(columns, support, t, terms, factors, n).len(),
    ensures
        0 <= d < n,
        support[d],
        columns[d].source != (ColumnSource::Term { term: t }),
        other_sources(columns, support, t, terms, factors, n)[k] == source_label(
            columns[first_with(columns, columns[d].source, 0) as int],
            terms,
            factors,
        ),
    decreases n,
{
    let before = other_sources(columns, support, t, terms, factors, (n - 1) as nat);
    if k < before.len() {
        lemma_other_source(columns, support, t, terms, factors, (n - 1) as nat, k)
    } else {
        n - 1
    }
}

proof fn lemma_tied_source(
    columns: Seq<ColumnView>,
    nulls: Seq<Seq<bool>>,
    t: usize,
    terms: Seq<Seq<usize>>,
    factors: Seq<FactorView>,
    n: nat,
    k: int,
) -> (r: (int, int, int))
    requires
        n <= nulls.len(),
        0 <= k < tied(columns, nulls, t, terms, factors, n).len(),
    ensures
        0 <= r.0 < n,
        0 <= r.1 < columns.len(),
        0 <= r.2 < columns.len(),
        nulls[r.0][r.1],
        nulls[r.0][r.2],
        columns[r.1].source == (ColumnSource::Term { term: t }),
        columns[r.2].source != (ColumnSource::Term { term: t }),
        tied(columns, nulls, t, terms, factors, n)[k] == source_label(
            columns[first_with(columns, columns[r.2].source, 0) as int],
            terms,
            factors,
        ),
    decreases n,
{
    let m = (n - 1) as nat;
    let before = tied(columns, nulls, t, terms, factors, m);
    if k < before.len() {
        lemma_tied_source(columns, nulls, t, terms, factors, m, k)
    } else {
        let c = choose|c: int|
            0 <= c < columns.len() && #[trigger] nulls[n - 1][c] && columns[c].source
                == (ColumnSource::Term { term: t });
        let d = lemma_other_source(
            columns,
            nulls[n - 1],
            t,
            terms,
            factors,
            columns.len(),
            k - before.len(),
        );
        (n - 1, c, d)
    }
}

/// Every alias is real: some null vector has an entry in a column of the term and
/// in a column of the source that is named, which is not the term itself.
pub proof fn aliases_share_a_null_vector(
    columns: Seq<ColumnView>,
    n_rows: nat,
    terms: Seq<Seq<usize>>,
    factors: Seq<FactorView>,
    ranks: RanksView,
    t: usize,
    k: int,
) -> (r: (int, int, int))
    requires
        t < terms.len(),
        0 <= k < verdict(columns, n_rows, terms, factors, ranks).terms[t as int].aliased_with.len(),
    ensures
        0 <= r.0 < ranks.null_supports.len(),
        0 <= r.1 < columns.len(),
        0 <= r.2 < columns.len(),
        ranks.null_supports[r.0][r.1],
        ranks.null_supports[r.0][r.2],
        columns[r.1].source == (ColumnSource::Term { term: t }),
        columns[r.2].source != (ColumnSource::Term { term: t }),
        verdict(columns, n_rows, terms, factors, ranks).terms[t as int].aliased_with[k]
            == source_label(
            columns[first_with(columns, columns[r.2].source, 0) as int],
            terms,
            factors,
        ),
{
    let nulls = ranks.null_supports;
    let all = tied(columns, nulls, t, terms, factors, nulls.len());
    let v = verdict(columns, n_rows, terms, factors, ranks).terms[t as int].aliased_with;
    lemma_distinct(all);
    assert(v.contains(v[k]));
    assert(all.contains(v[k]));
    let j = choose|j: int| 0 <= j < all.len() && all[j] == v[k];
    lemma_tied_source(columns, nulls, t, terms, factors, nulls.len(), j)
}

/// A term that a null vector ties to another source has an alias, where it is not
/// estimable.
pub proof fn tied_terms_have_an_alias(
    columns: Seq<ColumnView>,
    n_rows: nat,
    terms: Seq<Seq<usize>>,
    factors: Seq<FactorView>,
    ranks: RanksView,
    t: usize,
    i: int,
    c: int,
    d: int,
)
    requires
        t < terms.len(),
        0 <= i < ranks.null_supports.len(),
        0 <= c < columns.len(),
        0 <= d < columns.len(),
        ranks.null_supports[i][c],
        ranks.null_supports[i][d],
        columns[c].source == (ColumnSource::Term { term: t }),
        columns[d].source != (ColumnSource::Term { term: t }),
    ensures
        verdict(columns, n_rows, terms, factors, ranks).terms[t as int].aliased_with.len() == 0 <==> (
        ranks.rank - ranks.without_terms[t as int] == Set::new(
            |c: int| 0 <= c < columns.len() && columns[c].source == ColumnSource::Term { term: t },
        ).len()),
{
    aliases_are_named(columns, terms, factors, ranks, t, i, c, d);
    lemma_columns_of(columns, t, columns.len());
}

/// A source is named by what it is: the intercept, a unit, the label of a term, or
/// the name of a role whose block it is.
pub proof fn sources_have_their_names(
    term: usize,
    role: usize,
    name: Seq<char>,
    value: ValueView,
    label: Seq<char>,
    terms: Seq<Seq<usize>>,
    factors: Seq<FactorView>,
)
    requires
        !name.contains('['),
    ensures
        source_label(ColumnView { source: ColumnSource::Intercept, label }, terms, factors)
            == "(Intercept)"@,
        source_label(ColumnView { source: ColumnSource::Unit, label }, terms, factors) == "unit"@,
        source_label(ColumnView { source: ColumnSource::Term { term }, label }, terms, factors)
            == term_label(terms[term as int], factors.map_values(|f: FactorView| f.name)),
        source_label(
            ColumnView { source: ColumnSource::Block { role }, label: level_label(name, value) },
            terms,
            factors,
        ) == name,
{
    let text = level_label(name, value);
    reveal_strlit("[");
    assert(text[name.len() as int] == '[');
    assert forall|i: int| 0 <= i < name.len() implies #[trigger] text[i] != '[' by {
        assert(text[i] == name[i]);
        assert(name.contains(name[i]));
    }
    lemma_position_at(text, 0, name.len());
    assert(text.take(name.len() as int) =~= name);
    assert(role_of_label(text) == name);
}

proof fn lemma_position_at(s: Seq<char>, i: nat, at: nat)
    requires
        i <= at < s.len(),
        s[at as int] == '[',
        forall|k: int| i <= k < at ==> #[trigger] s[k] != '[',
    ensures
        crate::factor::position(s, '[', i) == Some(at),
    decreases at - i,
{
    if i < at {
        assert(s[i as int] != '[');
        lemma_position_at(s, i + 1, at);
    }
}

/// Leaving columns out keeps exactly the others, in their order.
pub proof fn other_columns_are_kept(row: Seq<i64>, drop: Seq<usize>, n: nat) -> (kept: Seq<int>)
    requires
        n <= row.len() <= usize::MAX,
    ensures
        kept.len() == row_without(row, drop, n).len(),
        forall|k: int|
            0 <= k < kept.len() ==> 0 <= #[trigger] kept[k] < n && row_without(row, drop, n)[k]
                == row[kept[k]],
        forall|k: int, l: int| 0 <= k < l < kept.len() ==> #[trigger] kept[k] < #[trigger] kept[l],
        forall|c: int| 0 <= c < n ==> (kept.contains(c) <==> !#[trigger] drop.contains(c as usize)),
    decreases n,
{
    if n == 0 {
        Seq::empty()
    } else {
        let before = other_columns_are_kept(row, drop, (n - 1) as nat);
        if drop.contains((n - 1) as usize) {
            assert forall|c: int| 0 <= c < n implies (before.contains(c) <==> !#[trigger] drop.contains(
                c as usize,
            )) by {}
            before
        } else {
            let kept = before.push(n - 1);
            assert forall|c: int| 0 <= c < n implies (kept.contains(c) <==> !#[trigger] drop.contains(
                c as usize,
            )) by {
                if c == n - 1 {
                    assert(kept[before.len() as int] == c);
                } else {
                    if before.contains(c) {
                        let k = choose|k: int| 0 <= k < before.len() && before[k] == c;
                        assert(kept[k] == c);
                    }
                    if kept.contains(c) {
                        let k = choose|k: int| 0 <= k < kept.len() && kept[k] == c;
                        assert(before[k] == c);
                    }
                }
            }
            kept
        }
    }
}

// ===== Coding =====

/// Deviation coding: a level has one in its own column, minus one in every column
/// where it is the last, and zero elsewhere.
pub proof fn levels_are_coded_by_deviation(level: int, j: int, count: int)
    requires
        0 <= level < count,
        0 <= j < count - 1,
    ensures
        code_of(level, j, count) == 1 <==> level == j,
        code_of(level, j, count) == -1 <==> level == count - 1,
        code_of(level, j, count) == 0 <==> level != j && level < count - 1,
{
}

/// A factor has one degree of freedom less than levels, and an interaction has the
/// product of those of its parts.
pub proof fn interactions_multiply_degrees_of_freedom(
    a: Seq<usize>,
    b: Seq<usize>,
    f: usize,
    factors: Seq<FactorView>,
)
    requires
        f < factors.len(),
        0 < factors[f as int].values.len() <= usize::MAX,
    ensures
        tuple_count(term_dims(seq![f], factors)) == factors[f as int].values.len() - 1,
        tuple_count(term_dims(a + b, factors)) == tuple_count(term_dims(a, factors)) * tuple_count(
            term_dims(b, factors),
        ),
    decreases b.len(),
{
    let one = term_dims(seq![f], factors);
    assert(one.drop_last() =~= Seq::empty());
    assert(tuple_count(one.drop_last()) == 1);
    assert(one.last() == factors[f as int].values.len() - 1);
    assert(1 * (one.last() as nat) == one.last() as nat) by (nonlinear_arith);
    if b.len() == 0 {
        assert(a + b =~= a);
        assert(tuple_count(term_dims(b, factors)) == 1);
        assert(tuple_count(term_dims(a, factors)) * 1 == tuple_count(term_dims(a, factors)));
    } else {
        let less = b.drop_last();
        interactions_multiply_degrees_of_freedom(a, less, f, factors);
        let (da, db, dab) = (
            term_dims(a, factors),
            term_dims(b, factors),
            term_dims(a + b, factors),
        );
        assert(db.drop_last() =~= term_dims(less, factors));
        assert(dab.drop_last() =~= term_dims(a + less, factors));
        assert(dab.last() == db.last());
        let (x, y, z) = (tuple_count(da), tuple_count(db.drop_last()), db.last() as nat);
        assert((x * y) * z == x * (y * z)) by (nonlinear_arith);
    }
}

proof fn lemma_blocks(roles: Seq<RoleView>, n: nat)
    requires
        n <= roles.len(),
    ensures
        forall|c: int|
            0 <= c < block_columns(roles, n).len() ==> #[trigger] block_columns(roles, n)[c] is Block,
    decreases n,
{
    if n > 0 {
        lemma_blocks(roles, (n - 1) as nat);
    }
}

proof fn lemma_term_place(
    terms: Seq<Seq<usize>>,
    factors: Seq<FactorView>,
    n: nat,
    t: nat,
)
    requires
        t < n <= terms.len(),
    ensures
        ({
            let all = term_columns(terms, factors, n);
            let from = term_columns(terms, factors, t).len();
            let count = tuple_count(term_dims(terms[t as int], factors));
            &&& from + count <= all.len()
            &&& forall|c: int|
                0 <= c < all.len() ==> (#[trigger] all[c]) is Term && (all[c]->term == t <==> from <= c
                    < from + count) && 0 <= all[c]->term < n
        }),
    decreases n,
{
    let all = term_columns(terms, factors, n);
    let before = term_columns(terms, factors, (n - 1) as nat);
    assert(tuples(term_dims(terms[n - 1], factors)).len() == tuple_count(
        term_dims(terms[n - 1], factors),
    ));
    if n >= 2 {
        lemma_term_place(terms, factors, (n - 1) as nat, if t < n - 1 {
            t
        } else {
            0
        });
    }
    let from = term_columns(terms, factors, t).len();
    let count = tuple_count(term_dims(terms[t as int], factors));
    assert forall|c: int| 0 <= c < all.len() implies (#[trigger] all[c]) is Term && (all[c]->term == t
        <==> from <= c < from + count) && 0 <= all[c]->term < n by {
        if c < before.len() {
            assert(all[c] == before[c]);
        }
    }
}

/// A term has as many columns in the matrix as it has degrees of freedom.
pub proof fn terms_have_their_columns(
    factors: Seq<FactorView>,
    roles: Seq<RoleView>,
    terms: Seq<Seq<usize>>,
    t: usize,
)
    requires
        t < terms.len() <= usize::MAX,
    ensures
        Set::new(
            |c: int|
                0 <= c < matrix_columns(factors, roles, terms).len() && matrix_columns(
                    factors,
                    roles,
                    terms,
                )[c].source == ColumnSource::Term { term: t },
        ).len() == tuple_count(term_dims(terms[t as int], factors)),
{
    let list = column_list(factors, roles, terms, 0);
    let cols = matrix_columns(factors, roles, terms);
    let blocks = block_columns(roles, roles.len());
    let all = term_columns(terms, factors, terms.len());
    lemma_blocks(roles, roles.len());
    lemma_term_place(terms, factors, terms.len(), t as nat);
    let from = 1 + blocks.len() + term_columns(terms, factors, t as nat).len();
    let count = tuple_count(term_dims(terms[t as int], factors));
    let own = Set::new(
        |c: int| 0 <= c < cols.len() && cols[c].source == ColumnSource::Term { term: t },
    );
    assert(list.len() == 1 + blocks.len() + all.len());
    assert forall|c: int| 0 <= c < cols.len() implies (#[trigger] cols[c].source
        == ColumnSource::Term { term: t } <==> from <= c < from + count) by {
        if c == 0 {
            assert(list[0] == Column::Intercept);
        } else if c < 1 + blocks.len() {
            assert(list[c] == blocks[c - 1]);
        } else {
            assert(list[c] == all[c - 1 - blocks.len()]);
        }
    }
    assert(own =~= set_int_range(from as int, (from + count) as int));
    vstd::set_lib::lemma_int_range(from as int, (from + count) as int);
}

// ===== Formulas =====

proof fn lemma_place_of(t: Seq<usize>, x: usize, i: nat)
    requires
        i <= t.len(),
        ascending(t),
        forall|k: int| 0 <= k < i ==> #[trigger] t[k] < x,
    ensures
        i <= place_of(t, x, i) <= t.len(),
        forall|k: int| 0 <= k < place_of(t, x, i) ==> #[trigger] t[k] < x,
        forall|k: int| place_of(t, x, i) <= k < t.len() ==> x <= #[trigger] t[k],
    decreases t.len() - i,
{
    if i < t.len() && t[i as int] < x {
        lemma_place_of(t, x, i + 1);
    } else if i < t.len() {
        assert forall|k: int| i <= k < t.len() implies x <= #[trigger] t[k] by {
            if k > i {
                assert(t[i as int] < t[k]);
            }
        }
    }
}

/// The interaction of two terms without a common factor has exactly the factors of
/// both, ascending.
pub proof fn interactions_join_factors(a: Seq<usize>, b: Seq<usize>, n: nat)
    requires
        n <= b.len(),
        ascending(a),
        ascending(b),
        !shares(a, b),
    ensures
        union_term(a, b, n).len() == a.len() + n,
        forall|i: int, j: int|
            0 <= i < j < union_term(a, b, n).len() ==> (#[trigger] union_term(a, b, n)[i]) < (
            #[trigger] union_term(a, b, n)[j]),
        forall|x: usize|
            #[trigger] union_term(a, b, n).contains(x) <==> a.contains(x) || b.take(
                n as int,
            ).contains(x),
    decreases n,
{
    if n == 0 {
        assert(b.take(0) =~= Seq::empty());
    } else {
        let m = (n - 1) as nat;
        interactions_join_factors(a, b, m);
        let u = union_term(a, b, m);
        let x = b[n - 1];
        assert(ascending(u));
        lemma_place_of(u, x, 0);
        let p = place_of(u, x, 0) as int;
        let v = u.insert(p, x);
        let (less, more) = (b.take(m as int), b.take(n as int));
        assert(more =~= less.push(x));
        assert(!u.contains(x)) by {
            if u.contains(x) {
                if a.contains(x) {
                    let i = choose|i: int| 0 <= i < a.len() && a[i] == x;
                    assert(b.contains(a[i])) by {
                        assert(b[n - 1] == x);
                    }
                } else {
                    let k = choose|k: int| 0 <= k < less.len() && less[k] == x;
                    assert(b[k] < b[n - 1]);
                }
            }
        }
        assert forall|i: int, j: int| 0 <= i < j < v.len() implies (#[trigger] v[i]) < (
        #[trigger] v[j]) by {
            let i2 = if i < p {
                i
            } else {
                i - 1
            };
            let j2 = if j < p {
                j
            } else {
                j - 1
            };
            if i == p {
                assert(v[j] == u[j2]);
                assert(u.contains(u[j2]));
            } else if j == p {
                assert(v[i] == u[i2]);
            } else {
                assert(v[i] == u[i2] && v[j] == u[j2]);
            }
        }
        assert forall|y: usize| #[trigger] v.contains(y) <==> a.contains(y) || more.contains(y) by {
            if v.contains(y) {
                let k = choose|k: int| 0 <= k < v.len() && v[k] == y;
                if k == p {
                    assert(more[n - 1] == y);
                } else {
                    let k2 = if k < p {
                        k
                    } else {
                        k - 1
                    };
                    assert(u[k2] == y);
                    assert(u.contains(y));
                    if less.contains(y) {
                        let l = choose|l: int| 0 <= l < less.len() && less[l] == y;
                        assert(more[l] == y);
                    }
                }
            }
            if a.contains(y) || more.contains(y) {
                if y == x {
                    assert(v[p] == y);
                } else {
                    if more.contains(y) && !a.contains(y) {
                        let l = choose|l: int| 0 <= l < more.len() && more[l] == y;
                        assert(less[l] == y);
                        assert(less.contains(y));
                    }
                    assert(u.contains(y));
                    let k = choose|k: int| 0 <= k < u.len() && u[k] == y;
                    assert(v[if k < p {
                        k
                    } else {
                        k + 1
                    }] == y);
                }
            }
        }
    }
}

proof fn lemma_cross(
    left: Seq<Seq<usize>>,
    right: Seq<Seq<usize>>,
    i: nat,
    j: nat,
    acc: Seq<Seq<usize>>,
)
    requires
        j <= right.len(),
    ensures
        cross_from(left, right, i, j, acc) is Ok <==> forall|a: int, b: int|
            (i < a < left.len() && 0 <= b < right.len() || a == i < left.len() && j <= b < right.len())
                ==> !shares(#[trigger] left[a], #[trigger] right[b]),
        cross_from(left, right, i, j, acc) matches Ok(all) ==> {
            &&& acc.len() <= all.len()
            &&& forall|k: int| 0 <= k < acc.len() ==> all[k] == #[trigger] acc[k]
            &&& forall|a: int, b: int|
                (i < a < left.len() && 0 <= b < right.len() || a == i < left.len() && j <= b
                    < right.len()) ==> all.contains(
                    union_term(#[trigger] left[a], #[trigger] right[b], right[b].len()),
                )
        },
    decreases left.len() - i, right.len() - j,
{
    if i < left.len() {
        if j >= right.len() {
            lemma_cross(left, right, i + 1, 0, acc);
        } else if shares(left[i as int], right[j as int]) {
            assert(shares(left[i as int], right[j as int]));
        } else {
            let u = union_term(left[i as int], right[j as int], right[j as int].len());
            let more = acc.push(u);
            lemma_cross(left, right, i, j + 1, more);
            if let Ok(all) = cross_from(left, right, i, j, acc) {
                assert(all[acc.len() as int] == more[acc.len() as int]);
                assert forall|k: int| 0 <= k < acc.len() implies all[k] == #[trigger] acc[k] by {
                    assert(all[k] == more[k]);
                }
                assert(all.contains(u));
            }
        }
    }
}

/// Crossing two sums gives the interaction of each term of one with each of the
/// other; it fails exactly where two of them share a factor.
pub proof fn crossing_takes_every_pair(left: Seq<Seq<usize>>, right: Seq<Seq<usize>>)
    ensures
        crossed(left, right) is Ok <==> forall|a: int, b: int|
            0 <= a < left.len() && 0 <= b < right.len() ==> !shares(
                #[trigger] left[a],
                #[trigger] right[b],
            ),
        crossed(left, right) matches Ok(all) ==> forall|a: int, b: int|
            0 <= a < left.len() && 0 <= b < right.len() ==> all.contains(
                union_term(#[trigger] left[a], #[trigger] right[b], right[b].len()),
            ),
{
    lemma_cross(left, right, 0, 0, Seq::empty());
}

proof fn lemma_cross_source(
    left: Seq<Seq<usize>>,
    right: Seq<Seq<usize>>,
    i: nat,
    j: nat,
    acc: Seq<Seq<usize>>,
    k: int,
) -> (r: (int, int))
    requires
        j <= right.len(),
        cross_from(left, right, i, j, acc) is Ok,
        acc.len() <= k < cross_from(left, right, i, j, acc)->Ok_0.len(),
    ensures
        0 <= r.0 < left.len(),
        0 <= r.1 < right.len(),
        cross_from(left, right, i, j, acc)->Ok_0[k] == union_term(
            left[r.0],
            right[r.1],
            right[r.1].len(),
        ),
    decreases left.len() - i, right.len() - j,
{
    if i >= left.len() {
        (0, 0)
    } else if j >= right.len() {
        lemma_cross_source(left, right, i + 1, 0, acc, k)
    } else {
        let u = union_term(left[i as int], right[j as int], right[j as int].len());
        let more = acc.push(u);
        if k == acc.len() {
            lemma_cross(left, right, i, j + 1, more);
            assert(more[k] == u);
            (i as int, j as int)
        } else {
            lemma_cross_source(left, right, i, j + 1, more, k)
        }
    }
}

/// Nothing else comes of a crossing.
pub proof fn crossed_terms_come_from_pairs(
    left: Seq<Seq<usize>>,
    right: Seq<Seq<usize>>,
    k: int,
) -> (r: (int, int))
    requires
        crossed(left, right) is Ok,
        0 <= k < crossed(left, right)->Ok_0.len(),
    ensures
        0 <= r.0 < left.len(),
        0 <= r.1 < right.len(),
        crossed(left, right)->Ok_0[k] == union_term(left[r.0], right[r.1], right[r.1].len()),
{
    lemma_cross_source(left, right, 0, 0, Seq::empty(), k)
}

/// A product stands for both sides and all their interactions, an interaction for
/// the interactions alone, and a sum for its sides. The operators bind in that
/// order, the interaction first.
pub proof fn operators_expand(
    tokens: Seq<Seq<char>>,
    pos: nat,
    next: nat,
    names: Seq<Seq<char>>,
    acc: Seq<Seq<usize>>,
    t: Seq<Seq<usize>>,
    x: Seq<Seq<usize>>,
)
    requires
        pos < next <= tokens.len(),
        crossed(acc, t) == Ok::<Seq<Seq<usize>>, Seq<char>>(x),
        !token_is(tokens, next, '+'),
        !token_is(tokens, next, '*'),
        !token_is(tokens, next, ':'),
    ensures
        tokens[pos as int] == seq!['+'] && prod_at(tokens, pos + 1, names) == Ok::<
            (Seq<Seq<usize>>, nat),
            Seq<char>,
        >((t, next)) ==> sum_from(tokens, pos, names, acc) == Ok::<
            (Seq<Seq<usize>>, nat),
            Seq<char>,
        >((acc + t, next)),
        tokens[pos as int] == seq!['*'] && inter_at(tokens, pos + 1, names) == Ok::<
            (Seq<Seq<usize>>, nat),
            Seq<char>,
        >((t, next)) ==> product_from(tokens, pos, names, acc) == Ok::<
            (Seq<Seq<usize>>, nat),
            Seq<char>,
        >((acc + t + x, next)),
        tokens[pos as int] == seq![':'] && atom_at(tokens, pos + 1, names) == Ok::<
            (Seq<Seq<usize>>, nat),
            Seq<char>,
        >((t, next)) ==> interaction_from(tokens, pos, names, acc) == Ok::<
            (Seq<Seq<usize>>, nat),
            Seq<char>,
        >((x, next)),
{
    assert(sum_from(tokens, next, names, acc + t) == Ok::<(Seq<Seq<usize>>, nat), Seq<char>>(
        (acc + t, next),
    ));
    assert(product_from(tokens, next, names, acc + t + x) == Ok::<
        (Seq<Seq<usize>>, nat),
        Seq<char>,
    >((acc + t + x, next)));
    assert(interaction_from(tokens, next, names, x) == Ok::<(Seq<Seq<usize>>, nat), Seq<char>>(
        (x, next),
    ));
}

/// A name is looked up at its first place, and nowhere only where it is not there.
pub proof fn names_are_found_first(names: Seq<Seq<char>>, name: Seq<char>, i: nat)
    requires
        i <= names.len(),
    ensures
        name_index(names, name, i) is None <==> forall|k: int|
            i <= k < names.len() ==> #[trigger] names[k] != name,
        name_index(names, name, i) matches Some(c) ==> i <= c < names.len() && names[c as int] == name
            && forall|k: int| i <= k < c ==> #[trigger] names[k] != name,
    decreases names.len() - i,
{
    if i < names.len() {
        if names[i as int] != name {
            names_are_found_first(names, name, i + 1);
        }
    }
}

// ===== Hierarchy =====

proof fn lemma_lower(
    terms: Seq<Seq<usize>>,
    t: Seq<usize>,
    names: Seq<Seq<char>>,
    m: nat,
)
    requires
        m <= t.len(),
    ensures
        forall|k: int|
            t.len() - m <= k < t.len() && !terms.contains(#[trigger] t.remove(k))
                ==> lower_messages(terms, t, names, m).contains(
                hierarchy_message(t, t.remove(k), names),
            ),
        forall|i: int|
            0 <= i < lower_messages(terms, t, names, m).len() ==> exists|k: int|
                t.len() - m <= k < t.len() && !terms.contains(#[trigger] t.remove(k))
                    && #[trigger] lower_messages(terms, t, names, m)[i] == hierarchy_message(
                    t,
                    t.remove(k),
                    names,
                ),
    decreases m,
{
    if m > 0 {
        lemma_lower(terms, t, names, (m - 1) as nat);
        let before = lower_messages(terms, t, names, (m - 1) as nat);
        let now = lower_messages(terms, t, names, m);
        let at = t.len() - m;
        assert forall|k: int|
            t.len() - m <= k < t.len() && !terms.contains(#[trigger] t.remove(k)) implies now.contains(
            hierarchy_message(t, t.remove(k), names),
        ) by {
            let text = hierarchy_message(t, t.remove(k), names);
            if k == at {
                assert(now[now.len() - 1] == text);
            } else {
                assert(before.contains(text));
                let i = choose|i: int| 0 <= i < before.len() && before[i] == text;
                assert(now[i] == text);
            }
        }
        assert forall|i: int| 0 <= i < now.len() implies exists|k: int|
            t.len() - m <= k < t.len() && !terms.contains(#[trigger] t.remove(k))
                && #[trigger] now[i] == hierarchy_message(t, t.remove(k), names) by {
            if i < before.len() {
                let k = choose|k: int|
                    t.len() - (m - 1) <= k < t.len() && !terms.contains(#[trigger] t.remove(k))
                        && before[i] == hierarchy_message(t, t.remove(k), names);
                assert(!terms.contains(t.remove(k)));
            } else {
                assert(!terms.contains(t.remove(at)));
            }
        }
    }
}

/// An interaction that a model holds without a term that lacks just one of its
/// factors is warned of.
pub proof fn missing_lower_terms_are_warned_of(
    terms: Seq<Seq<usize>>,
    names: Seq<Seq<char>>,
    n: nat,
)
    requires
        n <= terms.len(),
    ensures
        forall|t: int, k: int|
            0 <= t < n && 2 <= terms[t].len() && 0 <= k < terms[t].len() && !terms.contains(
                #[trigger] terms[t].remove(k),
            ) ==> hierarchy_messages(terms, names, n).contains(
                hierarchy_message(terms[t], terms[t].remove(k), names),
            ),
    decreases n,
{
    if n > 0 {
        missing_lower_terms_are_warned_of(terms, names, (n - 1) as nat);
        let before = hierarchy_messages(terms, names, (n - 1) as nat);
        let now = hierarchy_messages(terms, names, n);
        let last = terms[n - 1];
        lemma_lower(terms, last, names, last.len());
        let more = lower_messages(terms, last, names, last.len());
        assert forall|t: int, k: int|
            0 <= t < n && 2 <= terms[t].len() && 0 <= k < terms[t].len() && !terms.contains(
                #[trigger] terms[t].remove(k),
            ) implies now.contains(hierarchy_message(terms[t], terms[t].remove(k), names)) by {
            let text = hierarchy_message(terms[t], terms[t].remove(k), names);
            if t == n - 1 {
                assert(more.contains(text));
                let i = choose|i: int| 0 <= i < more.len() && more[i] == text;
                assert(now[before.len() + i] == text);
            } else {
                assert(before.contains(text));
                let i = choose|i: int| 0 <= i < before.len() && before[i] == text;
                assert(now[i] == text);
            }
        }
    }
}

/// Every warning is of such an interaction: a hierarchical model has none.
pub proof fn warnings_are_of_missing_lower_terms(
    terms: Seq<Seq<usize>>,
    names: Seq<Seq<char>>,
    n: nat,
    i: int,
) -> (r: (int, int))
    requires
        n <= terms.len(),
        0 <= i < hierarchy_messages(terms, names, n).len(),
    ensures
        0 <= r.0 < n,
        2 <= terms[r.0].len(),
        0 <= r.1 < terms[r.0].len(),
        !terms.contains(terms[r.0].remove(r.1)),
        hierarchy_messages(terms, names, n)[i] == hierarchy_message(
            terms[r.0],
            terms[r.0].remove(r.1),
            names,
        ),
    decreases n,
{
    let before = hierarchy_messages(terms, names, (n - 1) as nat);
    if i < before.len() {
        warnings_are_of_missing_lower_terms(terms, names, (n - 1) as nat, i)
    } else {
        let last = terms[n - 1];
        lemma_lower(terms, last, names, last.len());
        let more = lower_messages(terms, last, names, last.len());
        let j = i - before.len();
        let k = choose|k: int|
            0 <= k < last.len() && !terms.contains(#[trigger] last.remove(k)) && more[j]
                == hierarchy_message(last, last.remove(k), names);
        (n - 1, k)
    }
}

// ===== Entries =====

/// The column of a main effect has one where the cell has the column's level, minus
/// one where it has the last, and zero elsewhere; the intercept has one everywhere.
pub proof fn main_effects_are_coded_by_level(
    c: CellView,
    factors: Seq<FactorView>,
    roles: Seq<RoleView>,
    f: usize,
    j: usize,
    unit: int,
    units: int,
)
    requires
        f < factors.len(),
        c.factors[f as int] < factors[f as int].values.len(),
        j + 1 < factors[f as int].values.len(),
    ensures
        ({
            let level = c.factors[f as int];
            let x = entry_of(
                Column::Term { term: 0, combo: seq![j] },
                c,
                factors,
                roles,
                seq![seq![f]],
                unit,
                units,
            );
            &&& x == 1 <==> level == j
            &&& x == -1 <==> level == factors[f as int].values.len() - 1
            &&& x == 0 <==> level != j && level != factors[f as int].values.len() - 1
        }),
        entry_of(Column::Intercept, c, factors, roles, seq![seq![f]], unit, units) == 1,
{
    let t: Seq<usize> = seq![f];
    assert(seq![seq![f]][0int] == t);
    reveal_with_fuel(code_product, 2);
    let x = code_of(c.factors[f as int] as int, j as int, factors[f as int].values.len() as int);
    assert(1 * x == x) by (nonlinear_arith);
}

/// The entry of an interaction is the product of the entries of its parts.
pub proof fn interactions_multiply_entries(
    c: CellView,
    factors: Seq<FactorView>,
    roles: Seq<RoleView>,
    t: Seq<usize>,
    combo: Seq<usize>,
    f: usize,
    j: usize,
    unit: int,
    units: int,
)
    requires
        combo.len() == t.len(),
    ensures
        entry_of(
            Column::Term { term: 0, combo: combo.push(j) },
            c,
            factors,
            roles,
            seq![t.push(f)],
            unit,
            units,
        ) == entry_of(
            Column::Term { term: 0, combo },
            c,
            factors,
            roles,
            seq![t],
            unit,
            units,
        ) * entry_of(
            Column::Term { term: 0, combo: seq![j] },
            c,
            factors,
            roles,
            seq![seq![f]],
            unit,
            units,
        ),
{
    let one: Seq<usize> = seq![f];
    assert(seq![seq![f]][0int] == one);
    assert(seq![t.push(f)][0int] == t.push(f));
    reveal_with_fuel(code_product, 2);
    lemma_same_product(c, t, t.push(f), combo, combo.push(j), factors, t.len());
    let x = code_of(c.factors[f as int] as int, j as int, factors[f as int].values.len() as int);
    assert(1 * x == x) by (nonlinear_arith);
}

proof fn lemma_same_product(
    c: CellView,
    a: Seq<usize>,
    b: Seq<usize>,
    p: Seq<usize>,
    q: Seq<usize>,
    factors: Seq<FactorView>,
    n: nat,
)
    requires
        n <= a.len(),
        n <= b.len(),
        forall|k: int| 0 <= k < n ==> #[trigger] a[k] == b[k],
        forall|k: int| 0 <= k < n ==> #[trigger] p[k] == q[k],
    ensures
        code_product(c, a, p, factors, n) == code_product(c, b, q, factors, n),
    decreases n,
{
    if n > 0 {
        lemma_same_product(c, a, b, p, q, factors, (n - 1) as nat);
        assert(a[n - 1] == b[n - 1] && p[n - 1] == q[n - 1]);
    }
}

/// A role has one block column less than levels, and units one column less than
/// their number.
pub proof fn blocks_and_units_leave_one_out(roles: Seq<RoleView>, role: RoleView, units: nat)
    requires
        role.levels.len() > 0,
        units > 0,
    ensures
        block_columns(Seq::empty(), 0).len() == 0,
        block_columns(roles.push(role), roles.len() + 1).len() == block_columns(
            roles,
            roles.len(),
        ).len() + role.levels.len() - 1,
        unit_columns(units).len() == units - 1,
{
    lemma_same_blocks(roles, role, roles.len());
}

proof fn lemma_same_blocks(roles: Seq<RoleView>, role: RoleView, n: nat)
    requires
        n <= roles.len(),
    ensures
        block_columns(roles.push(role), n) == block_columns(roles, n),
    decreases n,
{
    if n > 0 {
        lemma_same_blocks(roles, role, (n - 1) as nat);
        assert(roles.push(role)[n - 1] == roles[n - 1]);
    }
}

// ===== Models =====

/// Without a formula every factor is a term of its own, and there are no others.
pub proof fn main_effects_are_the_factors(names: Seq<Seq<char>>, t: Seq<usize>)
    requires
        names.len() <= usize::MAX,
    ensures
        main_effects_of(names).terms.contains(t) <==> t.len() == 1 && t[0] < names.len(),
        main_effects_of(names).response is None,
{
    let all = single_terms(names.len());
    ordered_is_canonical(all);
    if all.contains(t) {
        let i = choose|i: int| 0 <= i < all.len() && all[i] == t;
        assert(t.len() == 1 && t[0] == i);
    }
    if t.len() == 1 && t[0] < names.len() {
        assert(all[t[0] as int] =~= t);
    }
}

/// A formula for a named result comes before one for all results; the other results
/// have the one for all.
pub proof fn named_models_come_first(models: Seq<ModelView>, result: Seq<char>)
    ensures
        result_model(models, result) is None <==> forall|i: int|
            0 <= i < models.len() ==> (#[trigger] models[i]).response is Some && models[i].response
                != Some(result),
        result_model(models, result) matches Some(m) ==> models.contains(m) && (m.response == Some(
            result,
        ) || m.response is None && forall|i: int|
            0 <= i < models.len() ==> (#[trigger] models[i]).response != Some(result)),
{
    lemma_named(models, result, 0);
    lemma_general(models, 0);
}

proof fn lemma_named(models: Seq<ModelView>, result: Seq<char>, i: nat)
    requires
        i <= models.len(),
    ensures
        first_named(models, result, i) is None <==> forall|k: int|
            i <= k < models.len() ==> (#[trigger] models[k]).response != Some(result),
        first_named(models, result, i) matches Some(m) ==> models.contains(m) && m.response == Some(
            result,
        ),
    decreases models.len() - i,
{
    if i < models.len() {
        lemma_named(models, result, i + 1);
        assert(models.contains(models[i as int]));
    }
}

proof fn lemma_general(models: Seq<ModelView>, i: nat)
    requires
        i <= models.len(),
    ensures
        first_general(models, i) is None <==> forall|k: int|
            i <= k < models.len() ==> (#[trigger] models[k]).response is Some,
        first_general(models, i) matches Some(m) ==> models.contains(m) && m.response is None,
    decreases models.len() - i,
{
    if i < models.len() {
        lemma_general(models, i + 1);
        assert(models.contains(models[i as int]));
    }
}

/// A name alone is its factor, whatever operators follow, and brackets change
/// nothing.
pub proof fn names_and_brackets_are_atoms(
    tokens: Seq<Seq<char>>,
    pos: nat,
    next: nat,
    names: Seq<Seq<char>>,
    t: Seq<Seq<usize>>,
)
    requires
        pos < tokens.len(),
    ensures
        valid_name(tokens[pos as int]) && tokens[pos as int] != seq!['('] ==> (atom_at(
            tokens,
            pos,
            names,
        ) is Ok <==> names.contains(tokens[pos as int])),
        valid_name(tokens[pos as int]) && tokens[pos as int] != seq!['('] ==> (atom_at(
            tokens,
            pos,
            names,
        ) matches Ok((terms, p)) ==> p == pos + 1 && terms.len() == 1 && terms[0].len() == 1
            && names[terms[0][0] as int] == tokens[pos as int] || names.len() > usize::MAX),
        token_is(tokens, pos, '(') && expr_at(tokens, pos + 1, names) == Ok::<
            (Seq<Seq<usize>>, nat),
            Seq<char>,
        >((t, next)) && token_is(tokens, next, ')') ==> atom_at(tokens, pos, names) == Ok::<
            (Seq<Seq<usize>>, nat),
            Seq<char>,
        >((t, next + 1)),
{
    let name = tokens[pos as int];
    names_are_found_first(names, name, 0);
    if names.contains(name) {
        let k = choose|k: int| 0 <= k < names.len() && names[k] == name;
        assert(names[k] == name);
    }
    if let Some(i) = name_index(names, name, 0) {
        assert(names[i as int] == name);
    }
}

/// What stands before a tilde is the response: a name is that of a result, a dot
/// stands for all, and so does nothing.
pub proof fn responses_stand_before_the_tilde(r: Seq<char>, rest: Seq<char>)
    requires
        !r.contains('~'),
    ensures
        valid_name(trimmed(r)) && trimmed(r) != "."@ ==> response_of(r + seq!['~'] + rest) == Ok::<
            (Option<Seq<char>>, Seq<char>),
            Seq<char>,
        >((Some(trimmed(r)), rest)),
        trimmed(r) == "."@ ==> response_of(r + seq!['~'] + rest) == Ok::<
            (Option<Seq<char>>, Seq<char>),
            Seq<char>,
        >((None, rest)),
        response_of(r) == Ok::<(Option<Seq<char>>, Seq<char>), Seq<char>>((None, r)),
{
    let s = r + seq!['~'] + rest;
    assert(s[r.len() as int] == '~');
    lemma_char_at(s, r, 0);
    lemma_no_char(r, 0);
    assert(s.take(r.len() as int) =~= r);
    assert(s.skip(r.len() as int + 1) =~= rest);
}

proof fn lemma_char_at(s: Seq<char>, r: Seq<char>, i: nat)
    requires
        i <= r.len() < s.len(),
        s[r.len() as int] == '~',
        !r.contains('~'),
        forall|k: int| 0 <= k < r.len() ==> #[trigger] s[k] == r[k],
    ensures
        crate::factor::position(s, '~', i) == Some(r.len()),
    decreases r.len() - i,
{
    if i < r.len() {
        assert(r.contains(r[i as int]));
        assert(s[i as int] == r[i as int]);
        lemma_char_at(s, r, i + 1);
    }
}

proof fn lemma_no_char(r: Seq<char>, i: nat)
    requires
        i <= r.len(),
        !r.contains('~'),
    ensures
        crate::factor::position(r, '~', i) is None,
    decreases r.len() - i,
{
    if i < r.len() {
        assert(r.contains(r[i as int]));
        lemma_no_char(r, i + 1);
    }
}

} // verus!
