//! The requested model, the full factorial and the cells of a replicated array.
use vstd::arithmetic::div_mod::{
    lemma_fundamental_div_mod, lemma_fundamental_div_mod_converse, lemma_mod_add_multiples_vanish,
    lemma_mod_bound, lemma_small_mod,
};
use vstd::prelude::*;

use crate::factor::{factor_views, Factor, FactorView};
use crate::model::formula::{
    canonical, factor_names, main_effects_of, model_views, model_wf, ordered_is_canonical,
    push_term, term_views, term_wf, terms_wf, Model, ModelView, Term,
};
use crate::model::matrix::{
    cell_views, cell_wf, cells_wf, dims_of, role_views, term_dims, Cell, CellView, ReplicateRole,
    RoleView,
};
use crate::oa::counting::{lemma_tally_injection, tally};
use crate::oa::strength::{
    balanced, cells_in_range, grid, lemma_balanced, lemma_entry_join, lemma_entry_split, pair_code,
    pair_count, strength2,
};
use crate::oa::{counts, level_counts_of, ArrayInfo, Selected, SelectedView};
use crate::text::{decimal, push_decimal};
use crate::tuples::{
    all_tuples, count_tuples, lemma_tuple_at, lemma_tuple_index, lemma_tuple_injective, lists,
    tuple_at, tuple_count, tuple_index, tuples,
};

verus! {

// ===== The requested model =====

/// The terms of the first `n` models, one after another.
pub open spec fn all_terms(models: Seq<ModelView>, n: nat) -> Seq<Seq<usize>>
    decreases n,
{
    if n == 0 {
        Seq::empty()
    } else {
        all_terms(models, (n - 1) as nat) + models[n - 1].terms
    }
}

/// The model of all requested terms; all main effects where none is requested.
pub open spec fn union_of(models: Seq<ModelView>, names: Seq<Seq<char>>) -> ModelView {
    if models.len() == 0 {
        main_effects_of(names)
    } else {
        canonical(None, all_terms(models, models.len()), names)
    }
}

pub open spec fn models_wf(models: Seq<ModelView>, n: nat) -> bool {
    forall|i: int| 0 <= i < models.len() ==> model_wf(#[trigger] models[i], n)
}

proof fn lemma_all_terms(models: Seq<ModelView>, n: nat, x: Seq<usize>)
    requires
        n <= models.len(),
    ensures
        all_terms(models, n).contains(x) <==> exists|i: int|
            0 <= i < n && (#[trigger] models[i]).terms.contains(x),
    decreases n,
{
    if n > 0 {
        let before = all_terms(models, (n - 1) as nat);
        let last = models[n - 1].terms;
        lemma_all_terms(models, (n - 1) as nat, x);
        if all_terms(models, n).contains(x) {
            let k = choose|k: int| 0 <= k < all_terms(models, n).len() && all_terms(models, n)[k] == x;
            if k < before.len() {
                assert(before[k] == x);
            } else {
                assert(last[k - before.len()] == x);
                assert(models[n - 1].terms.contains(x));
            }
        }
        if last.contains(x) {
            let k = choose|k: int| 0 <= k < last.len() && last[k] == x;
            assert(all_terms(models, n)[before.len() + k] == x);
        }
        if before.contains(x) {
            let k = choose|k: int| 0 <= k < before.len() && before[k] == x;
            assert(all_terms(models, n)[k] == x);
        }
    }
}

/// The union holds exactly the terms that some formula asks for, in order and
/// each once.
pub proof fn union_holds_requested_terms(models: Seq<ModelView>, names: Seq<Seq<char>>)
    requires
        models.len() > 0,
    ensures
        forall|x: Seq<usize>|
            #[trigger] union_of(models, names).terms.contains(x) <==> exists|i: int|
                0 <= i < models.len() && (#[trigger] models[i]).terms.contains(x),
        crate::model::formula::in_order(union_of(models, names).terms),
{
    let all = all_terms(models, models.len());
    ordered_is_canonical(all);
    assert forall|x: Seq<usize>|
        #[trigger] union_of(models, names).terms.contains(x) <==> exists|i: int|
            0 <= i < models.len() && (#[trigger] models[i]).terms.contains(x) by {
        lemma_all_terms(models, models.len(), x);
    }
}

/// The union of every formula's terms. With no formula this is the default
/// model of all main effects.
pub fn union_model(models: &[Model], factors: &[Factor]) -> (m: Model)
    requires
        models_wf(model_views(models@), factors@.len()),
    ensures
        m@ == union_of(model_views(models@), factor_names(factor_views(factors@))),
        model_wf(m@, factors@.len()),
{
    if models.len() == 0 {
        return Model::main_effects(factors);
    }
    let ghost mv = model_views(models@);
    let mut terms: Vec<Term> = Vec::new();
    assert(term_views(terms@) =~= all_terms(mv, 0));
    let mut i: usize = 0;
    while i < models.len()
        invariant
            i <= models@.len(),
            mv == model_views(models@),
            models_wf(mv, factors@.len()),
            term_views(terms@) == all_terms(mv, i as nat),
            terms_wf(term_views(terms@), factors@.len()),
        decreases models@.len() - i,
    {
        let ghost before = term_views(terms@);
        let ghost own = models@[i as int]@.terms;
        assert(mv[i as int] == models@[i as int]@);
        assert(model_wf(mv[i as int], factors@.len()));
        assert(before + own.take(0) =~= before);
        let mut k: usize = 0;
        while k < models[i].terms.len()
            invariant
                i < models@.len(),
                own == models@[i as int]@.terms,
                k <= own.len(),
                terms_wf(own, factors@.len()),
                term_views(terms@) == before + own.take(k as int),
                terms_wf(term_views(terms@), factors@.len()),
            decreases own.len() - k,
        {
            let t: Term = models[i].terms[k].copy();
            assert(own[k as int] == t@);
            assert(term_wf(own[k as int], factors@.len()));
            push_term(&mut terms, t);
            assert(before + own.take(k + 1) =~= (before + own.take(k as int)).push(own[k as int]));
            k = k + 1;
        }
        assert(own.take(own.len() as int) =~= own);
        i = i + 1;
    }
    Model::canonical(None, terms, factors)
}

/// Degrees of freedom of a term.
pub open spec fn df_of(t: Seq<usize>, factors: Seq<FactorView>) -> nat {
    tuple_count(term_dims(t, factors))
}

/// Degrees of freedom of the first `n` terms.
pub open spec fn df_sum(terms: Seq<Seq<usize>>, factors: Seq<FactorView>, n: nat) -> nat
    decreases n,
{
    if n == 0 {
        0
    } else {
        df_sum(terms, factors, (n - 1) as nat) + df_of(terms[n - 1], factors)
    }
}

/// Degrees of freedom a term contributes under deviation coding.
pub fn term_df(term: &Term, factors: &[Factor]) -> (df: usize)
    requires
        forall|i: int| 0 <= i < term@.len() ==> #[trigger] term@[i] < factors@.len(),
        forall|f: int| 0 <= f < factors@.len() ==> (#[trigger] factors@[f]).values@.len() > 0,
        forall|k: int|
            0 <= k <= term@.len() ==> tuple_count(
                #[trigger] term_dims(term@, factor_views(factors@)).take(k),
            ) <= usize::MAX,
    ensures
        df == df_of(term@, factor_views(factors@)),
{
    let dims: Vec<usize> = dims_of(&term.0, factors);
    match count_tuples(&dims) {
        Some(n) => n,
        None => 0,
    }
}

// ===== Replication =====

/// The numbers of levels of roles.
pub open spec fn role_dims(roles: Seq<RoleView>) -> Seq<usize> {
    Seq::new(roles.len(), |i: int| roles[i].levels.len() as usize)
}

/// The combinations of replicate levels fit the machine.
pub open spec fn roles_fit(roles: Seq<RoleView>) -> bool {
    forall|k: int|
        0 <= k <= roles.len() ==> tuple_count(#[trigger] role_dims(roles).take(k)) <= usize::MAX
}

fn level_counts_of_roles(roles: &[ReplicateRole]) -> (dims: Vec<usize>)
    ensures
        dims@ == role_dims(role_views(roles@)),
{
    let mut dims: Vec<usize> = Vec::new();
    let mut i: usize = 0;
    while i < roles.len()
        invariant
            i <= roles@.len(),
            dims@.len() == i,
            forall|k: int|
                0 <= k < i ==> #[trigger] dims@[k] == roles@[k].levels@.len() as usize,
        decreases roles@.len() - i,
    {
        dims.push(roles[i].levels.len());
        i = i + 1;
    }
    assert(dims@ =~= role_dims(role_views(roles@)));
    dims
}

/// How many combinations of replicate levels there are.
pub fn replicate_count(roles: &[ReplicateRole]) -> (n: usize)
    requires
        roles_fit(role_views(roles@)),
    ensures
        n == tuple_count(role_dims(role_views(roles@))),
{
    let dims: Vec<usize> = level_counts_of_roles(roles);
    match count_tuples(&dims) {
        Some(n) => n,
        None => 0,
    }
}

/// Every combination of replicate levels, in level order, last role fastest.
/// With no roles this is one empty combination.
pub fn replicate_combinations(roles: &[ReplicateRole]) -> (out: Vec<Vec<usize>>)
    requires
        roles_fit(role_views(roles@)),
    ensures
        lists(out@) == tuples(role_dims(role_views(roles@))),
{
    let dims: Vec<usize> = level_counts_of_roles(roles);
    assert(dims@.take(dims@.len() as int) =~= dims@);
    all_tuples(&dims)
}

/// A row of an array as level numbers of the factors.
pub open spec fn folded(row: Seq<usize>, levels: Seq<usize>) -> Seq<usize> {
    Seq::new(levels.len(), |j: int| (row[j] % levels[j]) as usize)
}

/// The rows under every combination, one block of all rows per combination.
pub open spec fn cells_of(
    array: Seq<Seq<usize>>,
    levels: Seq<usize>,
    combinations: Seq<Seq<usize>>,
) -> Seq<CellView> {
    Seq::new(
        combinations.len() * array.len(),
        |i: int|
            CellView {
                factors: folded(array[i % array.len() as int], levels),
                roles: combinations[i / array.len() as int],
            },
    )
}

/// The cells of the first `n` blocks; an equal list, block by block.
spec fn blocks(
    array: Seq<Seq<usize>>,
    levels: Seq<usize>,
    combinations: Seq<Seq<usize>>,
    n: nat,
) -> Seq<CellView>
    decreases n,
{
    if n == 0 {
        Seq::empty()
    } else {
        blocks(array, levels, combinations, (n - 1) as nat) + Seq::new(
            array.len(),
            |r: int|
                CellView { factors: folded(array[r], levels), roles: combinations[n - 1] },
        )
    }
}

proof fn lemma_blocks(
    array: Seq<Seq<usize>>,
    levels: Seq<usize>,
    combinations: Seq<Seq<usize>>,
    n: nat,
)
    requires
        n <= combinations.len(),
    ensures
        blocks(array, levels, combinations, n) == cells_of(
            array,
            levels,
            combinations.take(n as int),
        ),
    decreases n,
{
    let rows = array.len() as int;
    let part = combinations.take(n as int);
    if n == 0 {
        assert(0 * rows == 0) by (nonlinear_arith);
        assert(blocks(array, levels, combinations, n) =~= cells_of(array, levels, part));
    } else {
        let before = combinations.take(n - 1);
        lemma_blocks(array, levels, combinations, (n - 1) as nat);
        assert(n * rows == (n - 1) * rows + rows) by (nonlinear_arith);
        let c = cells_of(array, levels, part);
        let b = blocks(array, levels, combinations, n);
        let a = cells_of(array, levels, before);
        assert(b.len() == c.len());
        assert forall|i: int| 0 <= i < c.len() implies #[trigger] b[i] == c[i] by {
            if i < (n - 1) * rows {
                assert(b[i] == a[i]);
                assert(0 <= i / rows < n - 1) by (nonlinear_arith)
                    requires
                        0 <= i < (n - 1) * rows,
                        rows >= 0,
                ;
                assert(part[i / rows] == before[i / rows]);
            } else {
                let r = i - (n - 1) * rows;
                assert(i == (n - 1) * rows + r);
                lemma_fundamental_div_mod_converse(i, rows, n - 1, r);
            }
        }
        assert(b =~= c);
    }
}

/// Base rows under every combination of replicate levels, block by block: one
/// contiguous block per combination, so execution order can shuffle inside a
/// block. Array cells are folded to resolved level numbers here, once.
pub fn build_cells(selected: &Selected, factors: &[Factor], roles: &[ReplicateRole]) -> (cells: Vec<
    Cell,
>)
    requires
        selected.wf(),
        selected.column_levels@.len() == factors@.len(),
        forall|f: int| 0 <= f < factors@.len() ==> (#[trigger] factors@[f]).values@.len() > 0,
        roles_fit(role_views(roles@)),
    ensures
        cell_views(cells@) == cells_of(
            selected@.array,
            counts(factors@),
            tuples(role_dims(role_views(roles@))),
        ),
        cells_wf(cell_views(cells@), factor_views(factors@), role_views(roles@)),
{
    let combinations: Vec<Vec<usize>> = replicate_combinations(roles);
    let levels: Vec<usize> = level_counts_of(factors);
    let ghost (fv, rv) = (factor_views(factors@), role_views(roles@));
    let ghost dims = role_dims(rv);
    let ghost cs = lists(combinations@);
    let ghost g = grid(selected.array@);
    let mut cells: Vec<Cell> = Vec::new();
    assert(cell_views(cells@) =~= Seq::empty());
    let mut b: usize = 0;
    while b < combinations.len()
        invariant
            b <= combinations@.len(),
            g == grid(selected.array@),
            cs == lists(combinations@),
            cs == tuples(dims),
            fv == factor_views(factors@),
            rv == role_views(roles@),
            dims == role_dims(rv),
            levels@ == counts(factors@),
            selected.wf(),
            selected.column_levels@.len() == factors@.len(),
            forall|f: int| 0 <= f < factors@.len() ==> (#[trigger] factors@[f]).values@.len() > 0,
            cell_views(cells@) == blocks(g, levels@, cs, b as nat),
            cells_wf(cell_views(cells@), fv, rv),
        decreases combinations@.len() - b,
    {
        let ghost before = cell_views(cells@);
        let ghost block = Seq::new(
            g.len(),
            |r: int| CellView { factors: folded(g[r], levels@), roles: cs[b as int] },
        );
        assert(before + block.take(0) =~= before);
        let mut r: usize = 0;
        while r < selected.array.len()
            invariant
                r <= selected.array@.len(),
                b < combinations@.len(),
                g == grid(selected.array@),
                cs == lists(combinations@),
                cs == tuples(dims),
                fv == factor_views(factors@),
                rv == role_views(roles@),
                dims == role_dims(rv),
                levels@ == counts(factors@),
                selected.wf(),
                selected.column_levels@.len() == factors@.len(),
                forall|f: int|
                    0 <= f < factors@.len() ==> (#[trigger] factors@[f]).values@.len() > 0,
                block == Seq::new(
                    g.len(),
                    |r: int| CellView { factors: folded(g[r], levels@), roles: cs[b as int] },
                ),
                cell_views(cells@) == before + block.take(r as int),
                cells_wf(cell_views(cells@), fv, rv),
            decreases selected.array@.len() - r,
        {
            let row: &Vec<usize> = &selected.array[r];
            assert(g[r as int] == row@);
            let mut factor_levels: Vec<usize> = Vec::new();
            let mut j: usize = 0;
            while j < levels.len()
                invariant
                    j <= levels@.len(),
                    row@.len() == levels@.len(),
                    levels@ == counts(factors@),
                    forall|f: int|
                        0 <= f < factors@.len() ==> (#[trigger] factors@[f]).values@.len() > 0,
                    factor_levels@.len() == j,
                    forall|k: int|
                        0 <= k < j ==> #[trigger] factor_levels@[k] == row@[k] % levels@[k]
                            && factor_levels@[k] < levels@[k],
                decreases levels@.len() - j,
            {
                assert(factors@[j as int].values@.len() > 0);
                assert(factors@[j as int].values.len() <= usize::MAX);
                assert(levels@[j as int] > 0);
                factor_levels.push(row[j] % levels[j]);
                j = j + 1;
            }
            let replicate_levels: Vec<usize> = combinations[b].clone();
            assert(replicate_levels@ =~= cs[b as int]);
            let cell: Cell = Cell { factor_levels, replicate_levels };
            assert(cell@ =~= block[r as int]);
            proof {
                assert(cs.len() == combinations@.len());
                assert(cs[b as int] == tuple_at(dims, b as int));
                lemma_tuple_at(dims, b as int);
                assert forall|f: int| 0 <= f < fv.len() implies #[trigger] cell@.factors[f]
                    < fv[f].values.len() by {
                    assert(fv[f] == factors@[f]@);
                    assert(factors@[f].values.len() <= usize::MAX);
                }
                assert forall|k: int| 0 <= k < rv.len() implies #[trigger] cell@.roles[k]
                    < rv[k].levels.len() by {
                    assert(rv[k] == roles@[k]@);
                    assert(roles@[k].levels.len() <= usize::MAX);
                    assert(dims[k] == rv[k].levels.len());
                }
                assert(cell_wf(cell@, fv, rv));
            }
            let ghost v = cell@;
            let ghost old_views = cell_views(cells@);
            cells.push(cell);
            assert(cell_views(cells@) =~= old_views.push(v));
            assert(before + block.take(r + 1) =~= (before + block.take(r as int)).push(
                block[r as int],
            ));
            r = r + 1;
        }
        assert(block.take(g.len() as int) =~= block);
        b = b + 1;
    }
    proof {
        lemma_blocks(g, levels@, cs, cs.len());
        assert(cs.take(cs.len() as int) =~= cs);
    }
    cells
}

// ===== The full factorial =====

/// The full factorial of the level counts.
pub open spec fn factorial_of(levels: Seq<usize>) -> SelectedView {
    SelectedView {
        rows: tuple_count(levels),
        cols: levels.len(),
        label: "L"@ + decimal(tuple_count(levels)) + " (full factorial)"@,
        method: "Full factorial"@,
        array: tuples(levels),
        column_levels: levels,
    }
}

/// The full factorial, rows in lexicographic level order (last factor fastest).
pub fn full_factorial(factors: &[Factor]) -> (s: Selected)
    requires
        forall|k: int|
            0 <= k <= factors@.len() ==> tuple_count(#[trigger] counts(factors@).take(k))
                <= usize::MAX,
    ensures
        s@ == factorial_of(counts(factors@)),
        s.wf(),
{
    let levels: Vec<usize> = level_counts_of(factors);
    assert(levels@.take(levels@.len() as int) =~= levels@);
    let array: Vec<Vec<usize>> = all_tuples(&levels);
    let rows: usize = array.len();
    assert(lists(array@).len() == rows);
    let mut label: String = String::new();
    label.append("L");
    push_decimal(&mut label, rows as u64);
    label.append(" (full factorial)");
    assert(label@ =~= factorial_of(levels@).label);
    proof {
        assert(grid(array@) =~= lists(array@));
        assert forall|r: int, j: int|
            0 <= r < rows && 0 <= j < levels@.len() implies #[trigger] grid(array@)[r][j]
            < levels@[j] by {
            lemma_tuple_at(levels@, r);
        }
        assert forall|r: int| 0 <= r < rows implies (#[trigger] grid(array@)[r]).len()
            == levels@.len() by {
            lemma_tuple_at(levels@, r);
        }
    }
    let info: ArrayInfo = ArrayInfo {
        rows,
        cols: levels.len(),
        label,
        method: "Full factorial".to_owned(),
    };
    Selected { info, array, column_levels: levels }
}

/// A value moved on by `d` places, round and round below `q`.
spec fn turned(x: usize, d: int, q: int) -> usize {
    ((x + d) % q) as usize
}

proof fn lemma_turned(x: int, y: int, q: int)
    requires
        0 <= x < q <= usize::MAX,
        0 <= y < q,
    ensures
        turned(x as usize, y - x + q, q) == y,
{
    assert(((x + (y - x + q)) % q) == y) by {
        lemma_mod_add_multiples_vanish(y, q);
        lemma_small_mod(y as nat, q as nat);
    }
}

proof fn lemma_turned_injective(x: usize, y: usize, d: int, q: int)
    requires
        x < q <= usize::MAX,
        y < q,
        turned(x, d, q) == turned(y, d, q),
    ensures
        x == y,
{
    let (a, b) = (x + d, y + d);
    lemma_fundamental_div_mod(a, q);
    lemma_fundamental_div_mod(b, q);
    assert(0 <= a % q < q && 0 <= b % q < q) by (nonlinear_arith)
        requires
            q > 0,
    ;
    let k = a / q - b / q;
    assert(a - b == q * k) by (nonlinear_arith)
        requires
            a == q * (a / q) + a % q,
            b == q * (b / q) + b % q,
            a % q == b % q,
            k == a / q - b / q,
    ;
    assert(k == 0) by (nonlinear_arith)
        requires
            a - b == q * k,
            -q < a - b < q,
            q > 0,
    ;
    assert(q * k == 0) by (nonlinear_arith)
        requires
            k == 0,
    ;
}

/// The row with two cells moved on.
spec fn moved(levels: Seq<usize>, i: int, j: int, di: int, dj: int, r: int) -> Seq<usize> {
    let t = tuple_at(levels, r);
    t.update(i, turned(t[i], di, levels[i] as int)).update(j, turned(t[j], dj, levels[j] as int))
}

proof fn lemma_moved(levels: Seq<usize>, i: int, j: int, di: int, dj: int, r: int)
    requires
        0 <= i < j < levels.len(),
        0 <= r < tuple_count(levels),
    ensures
        ({
            let t = tuple_at(levels, r);
            let m = moved(levels, i, j, di, dj, r);
            &&& m.len() == levels.len()
            &&& forall|k: int| 0 <= k < levels.len() ==> #[trigger] m[k] < levels[k]
            &&& m[i] == turned(t[i], di, levels[i] as int)
            &&& m[j] == turned(t[j], dj, levels[j] as int)
        }),
{
    lemma_tuple_at(levels, r);
    let t = tuple_at(levels, r);
    assert(t[i] < levels[i] && t[j] < levels[j]);
    let (qi, qj) = (levels[i] as int, levels[j] as int);
    lemma_mod_bound(t[i] + di, qi);
    lemma_mod_bound(t[j] + dj, qj);
}

/// The full factorial has strength 2.
pub proof fn factorial_has_strength2(levels: Seq<usize>)
    ensures
        strength2(factorial_of(levels).array, levels),
        cells_in_range(factorial_of(levels).array, levels),
{
    let g = tuples(levels);
    let n = g.len();
    assert forall|r: int| 0 <= r < n implies #[trigger] g[r].len() == levels.len() by {
        lemma_tuple_at(levels, r);
    }
    assert forall|r: int, c: int| 0 <= r < n && 0 <= c < levels.len() implies #[trigger] g[r][c]
        < levels[c] by {
        lemma_tuple_at(levels, r);
        assert(tuple_at(levels, r)[c] < levels[c]);
    }
    assert forall|i: int, j: int| 0 <= i < j < levels.len() implies #[trigger] balanced(
        g,
        i,
        j,
        levels[i] as int,
        levels[j] as int,
    ) by {
        lemma_factorial_pair(levels, i, j);
    }
}

proof fn lemma_factorial_pair(levels: Seq<usize>, i: int, j: int)
    requires
        0 <= i < j < levels.len(),
    ensures
        balanced(tuples(levels), i, j, levels[i] as int, levels[j] as int),
{
    let g = tuples(levels);
    let n = g.len();
    let (qi, qj) = (levels[i] as int, levels[j] as int);
    assert forall|r: int| 0 <= r < n implies #[trigger] g[r][i] < qi && g[r][j] < qj by {
        lemma_tuple_at(levels, r);
        assert(tuple_at(levels, r)[j] < levels[j]);
    }
    if n == 0 {
        assert forall|x: int, y: int| 0 <= x < qi && 0 <= y < qj implies #[trigger] pair_count(
            g,
            i,
            j,
            x,
            y,
        ) * (qi * qj) == g.len() by {
            assert(0 * (qi * qj) == 0) by (nonlinear_arith);
        }
    } else {
        assert(g[0][i] < qi && g[0][j] < qj);
        let f = pair_code(g, i, j, qj);
        assert forall|v: int, w: int| 0 <= v < qi * qj && 0 <= w < qi * qj implies #[trigger] tally(
            f,
            n,
            v,
        ) <= #[trigger] tally(f, n, w) by {
            lemma_entry_split(v, qi, qj);
            lemma_entry_split(w, qi, qj);
            let (di, dj) = (w / qj - v / qj + qi, w % qj - v % qj + qj);
            let shift = |r: int| tuple_index(levels, moved(levels, i, j, di, dj, r));
            assert forall|r: int| 0 <= r < n && f(r) == v implies 0 <= #[trigger] shift(r) < n && f(
                shift(r),
            ) == w by {
                let t = tuple_at(levels, r);
                assert(g[r] == t);
                assert(g[r][i] < qi && g[r][j] < qj);
                lemma_entry_join(t[i] as int, t[j] as int, qi, qj);
                lemma_moved(levels, i, j, di, dj, r);
                let m = moved(levels, i, j, di, dj, r);
                lemma_tuple_index(levels, m);
                lemma_turned(v / qj, w / qj, qi);
                lemma_turned(v % qj, w % qj, qj);
                assert(g[shift(r)] == m);
                assert(m[i] == w / qj && m[j] == w % qj);
            }
            assert forall|r: int, s: int|
                0 <= r < n && 0 <= s < n && #[trigger] shift(r) == #[trigger] shift(s) implies r
                == s by {
                lemma_moved(levels, i, j, di, dj, r);
                lemma_moved(levels, i, j, di, dj, s);
                let (a, b) = (moved(levels, i, j, di, dj, r), moved(levels, i, j, di, dj, s));
                lemma_tuple_index(levels, a);
                lemma_tuple_index(levels, b);
                assert(a == b);
                lemma_tuple_at(levels, r);
                lemma_tuple_at(levels, s);
                let (t, u) = (tuple_at(levels, r), tuple_at(levels, s));
                assert(t[i] < levels[i] && u[i] < levels[i]);
                assert(t[j] < levels[j] && u[j] < levels[j]);
                lemma_turned_injective(t[i], u[i], di, qi);
                lemma_turned_injective(t[j], u[j], dj, qj);
                assert forall|k: int| 0 <= k < t.len() implies t[k] == u[k] by {
                    if k != i && k != j {
                        assert(a[k] == t[k] && b[k] == u[k]);
                    }
                }
                assert(t =~= u);
                lemma_tuple_injective(levels, r, s);
            }
            lemma_tally_injection(f, n, v, w, shift);
        }
        lemma_balanced(g, i, j, qi, qj);
    }
}

} // verus!
