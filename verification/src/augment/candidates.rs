//! The runs that can be added: all combinations of levels, or a sample of them.
use std::collections::HashSet;
use vstd::prelude::*;

use crate::design_select::candidates::lemma_product_bound;
use crate::design_select::cells::role_dims;
use crate::factor::{factor_views, Factor};
use crate::model::matrix::{cell_views, cell_wf, cells_wf, role_views, Cell, CellView, ReplicateRole};
use crate::oa::{counts, level_counts_of};
use crate::rng::{drawn, drawn_state, Rng};
use crate::tuples::{
    all_tuples, distinct, lemma_distinct, lemma_tuple_at, lemma_tuple_index, lists, tuple_at,
    tuple_count, tuple_index, tuples,
};

verus! {

/// The candidates are sampled above this number of combinations.
pub const CANDIDATE_CAP: usize = 200_000;

/// The first `n` places of a drawn tuple and the generator's state behind them.
pub open spec fn drawn_tuple(state: u64, dims: Seq<usize>, n: nat) -> (Seq<usize>, u64)
    decreases n,
{
    if n == 0 {
        (Seq::empty(), state)
    } else {
        let before = drawn_tuple(state, dims, (n - 1) as nat);
        let d = dims[n - 1] as u64;
        (before.0.push(drawn(before.1, d) as usize), drawn_state(before.1, d))
    }
}

/// The first `n` drawn tuples and the generator's state behind them.
pub open spec fn draws(state: u64, dims: Seq<usize>, n: nat) -> (Seq<Seq<usize>>, u64)
    decreases n,
{
    if n == 0 {
        (Seq::empty(), state)
    } else {
        let before = draws(state, dims, (n - 1) as nat);
        let one = drawn_tuple(before.1, dims, dims.len());
        (before.0.push(one.0), one.1)
    }
}

/// The combinations to choose from: all in enumeration order, or above the cap
/// the different ones among as many uniform draws, in draw order.
pub open spec fn combinations(state: u64, dims: Seq<usize>) -> Seq<Seq<usize>> {
    if tuple_count(dims) <= CANDIDATE_CAP {
        tuples(dims)
    } else {
        distinct(draws(state, dims, CANDIDATE_CAP as nat).0)
    }
}

/// A combination as a cell: factors first, then roles.
pub open spec fn split(t: Seq<usize>, n_factors: nat) -> CellView {
    CellView { factors: t.take(n_factors as int), roles: t.skip(n_factors as int) }
}

/// The cells to choose from.
#[derive(Debug)]
pub struct Candidates {
    pub cells: Vec<Cell>,
    /// Set where the combinations exceed the cap: kept and total.
    pub sampled: Option<(usize, u128)>,
}

fn split_cell(t: &Vec<usize>, n_factors: usize) -> (c: Cell)
    requires
        n_factors <= t@.len(),
    ensures
        c@ == split(t@, n_factors as nat),
{
    let mut factor_levels: Vec<usize> = Vec::new();
    let mut i: usize = 0;
    while i < n_factors
        invariant
            i <= n_factors <= t@.len(),
            factor_levels@ =~= t@.take(i as int),
        decreases n_factors - i,
    {
        factor_levels.push(t[i]);
        i = i + 1;
    }
    let mut replicate_levels: Vec<usize> = Vec::new();
    while i < t.len()
        invariant
            n_factors <= i <= t@.len(),
            replicate_levels@ =~= t@.subrange(n_factors as int, i as int),
        decreases t@.len() - i,
    {
        replicate_levels.push(t[i]);
        i = i + 1;
    }
    assert(replicate_levels@ =~= t@.skip(n_factors as int));
    Cell { factor_levels, replicate_levels }
}

/// Every place of a tuple is below its dimension.
pub open spec fn within(t: Seq<usize>, dims: Seq<usize>) -> bool {
    t.len() == dims.len() && forall|k: int| 0 <= k < dims.len() ==> #[trigger] t[k] < dims[k]
}

fn draw_tuple(dims: &Vec<usize>, rng: &mut Rng) -> (t: Vec<usize>)
    requires
        forall|k: int| 0 <= k < dims@.len() ==> #[trigger] dims@[k] > 0,
    ensures
        (t@, final(rng)@) == drawn_tuple(old(rng)@, dims@, dims@.len()),
        within(t@, dims@),
{
    let ghost start = rng@;
    let mut t: Vec<usize> = Vec::new();
    let mut k: usize = 0;
    while k < dims.len()
        invariant
            k <= dims@.len(),
            forall|j: int| 0 <= j < dims@.len() ==> #[trigger] dims@[j] > 0,
            (t@, rng@) == drawn_tuple(start, dims@, k as nat),
            t@.len() == k,
            forall|j: int| 0 <= j < k ==> #[trigger] t@[j] < dims@[j],
        decreases dims@.len() - k,
    {
        assert(dims@[k as int] > 0);
        let v: u64 = rng.below(dims[k] as u64);
        t.push(v as usize);
        k = k + 1;
    }
    t
}

fn index_of(dims: &Vec<usize>, t: &Vec<usize>) -> (n: u128)
    requires
        within(t@, dims@),
        tuple_count(dims@) <= u128::MAX,
        forall|k: int| 0 <= k < dims@.len() ==> #[trigger] dims@[k] > 0,
    ensures
        n == tuple_index(dims@, t@),
{
    let mut n: u128 = 0;
    let mut k: usize = 0;
    assert(dims@.take(0) =~= Seq::empty());
    while k < dims.len()
        invariant
            k <= dims@.len(),
            within(t@, dims@),
            tuple_count(dims@) <= u128::MAX,
            forall|j: int| 0 <= j < dims@.len() ==> #[trigger] dims@[j] > 0,
            n == tuple_index(dims@.take(k as int), t@.take(k as int)),
        decreases dims@.len() - k,
    {
        proof {
            let (da, ta) = (dims@.take(k + 1), t@.take(k + 1));
            assert(da.drop_last() =~= dims@.take(k as int));
            assert(ta.drop_last() =~= t@.take(k as int));
            assert forall|j: int| 0 <= j < da.len() implies #[trigger] ta[j] < da[j] by {
                assert(t@[j] < dims@[j]);
            }
            lemma_tuple_index(da, ta);
            lemma_product_bound(dims@, k + 1);
            let (x, y) = (n as int, dims@[k as int] as int);
            assert(0 <= x * y) by (nonlinear_arith)
                requires
                    x >= 0,
                    y >= 0,
            ;
        }
        n = n * dims[k] as u128 + t[k] as u128;
        k = k + 1;
    }
    assert(dims@.take(k as int) =~= dims@);
    assert(t@.take(k as int) =~= t@);
    n
}

fn sample(dims: &Vec<usize>, rng: &mut Rng) -> (out: Vec<Vec<usize>>)
    requires
        tuple_count(dims@) <= u128::MAX,
        forall|k: int| 0 <= k < dims@.len() ==> #[trigger] dims@[k] > 0,
    ensures
        lists(out@) == distinct(draws(old(rng)@, dims@, CANDIDATE_CAP as nat).0),
        final(rng)@ == draws(old(rng)@, dims@, CANDIDATE_CAP as nat).1,
        forall|i: int| 0 <= i < out@.len() ==> within((#[trigger] out@[i])@, dims@),
{
    broadcast use vstd::std_specs::hash::group_hash_axioms;

    let ghost start = rng@;
    let mut seen: HashSet<u128> = HashSet::new();
    let mut out: Vec<Vec<usize>> = Vec::new();
    assert(lists(out@) =~= distinct(draws(start, dims@, 0).0));
    let mut n: usize = 0;
    while n < CANDIDATE_CAP
        invariant
            n <= CANDIDATE_CAP,
            tuple_count(dims@) <= u128::MAX,
            forall|k: int| 0 <= k < dims@.len() ==> #[trigger] dims@[k] > 0,
            lists(out@) == distinct(draws(start, dims@, n as nat).0),
            rng@ == draws(start, dims@, n as nat).1,
            forall|i: int| 0 <= i < out@.len() ==> within((#[trigger] out@[i])@, dims@),
            forall|x: u128| #[trigger] seen@.contains(x) ==> exists|i: int|
                0 <= i < out@.len() && tuple_index(dims@, (#[trigger] out@[i])@) == x,
            forall|i: int|
                0 <= i < out@.len() ==> #[trigger] seen@.contains(
                    tuple_index(dims@, out@[i]@) as u128,
                ),
        decreases CANDIDATE_CAP - n,
    {
        let t: Vec<usize> = draw_tuple(dims, rng);
        let ghost before = lists(out@);
        let ghost tv = t@;
        let ghost drawn_before = draws(start, dims@, n as nat).0;
        let ghost drawn_now = draws(start, dims@, (n + 1) as nat).0;
        assert(drawn_now == drawn_before.push(tv));
        assert(drawn_now.drop_last() =~= drawn_before);
        let key: u128 = index_of(dims, &t);
        let ghost seen_before = seen@;
        let fresh: bool = seen.insert(key);
        proof {
            lemma_tuple_index(dims@, tv);
            if before.contains(tv) {
                let i = choose|i: int| 0 <= i < before.len() && before[i] == tv;
                assert(out@[i]@ == tv);
                assert(seen_before.contains(tuple_index(dims@, out@[i]@) as u128));
                assert(!fresh);
            } else if !fresh {
                let i = choose|i: int|
                    0 <= i < out@.len() && tuple_index(dims@, (#[trigger] out@[i])@) == key;
                lemma_tuple_index(dims@, out@[i]@);
                assert(before[i] == tv);
            }
        }
        if fresh {
            let ghost old_out = out@;
            out.push(t);
            proof {
                assert(lists(out@) =~= before.push(tv));
                assert forall|x: u128| #[trigger] seen@.contains(x) implies exists|i: int|
                    0 <= i < out@.len() && tuple_index(dims@, (#[trigger] out@[i])@) == x by {
                    if x == key {
                        assert(out@[old_out.len() as int]@ == tv);
                    } else {
                        let i = choose|i: int|
                            0 <= i < old_out.len() && tuple_index(
                                dims@,
                                (#[trigger] old_out[i])@,
                            ) == x;
                        assert(out@[i] == old_out[i]);
                    }
                }
                assert forall|i: int| 0 <= i < out@.len() implies #[trigger] seen@.contains(
                    tuple_index(dims@, out@[i]@) as u128,
                ) by {
                    if i < old_out.len() {
                        assert(out@[i] == old_out[i]);
                        assert(seen_before.contains(tuple_index(dims@, old_out[i]@) as u128));
                    }
                }
            }
        }
        n = n + 1;
    }
    out
}

/// The cells that can be added to a design, and whether they are a sample.
pub fn candidate_cells(factors: &[Factor], roles: &[ReplicateRole], rng: &mut Rng) -> (c: Candidates)
    requires
        tuple_count(counts(factors@) + role_dims(role_views(roles@))) <= u128::MAX,
    ensures
        ({
            let dims = counts(factors@) + role_dims(role_views(roles@));
            &&& cell_views(c.cells@) == combinations(old(rng)@, dims).map_values(
                |t: Seq<usize>| split(t, factors@.len()),
            )
            &&& final(rng)@ == (if tuple_count(dims) <= CANDIDATE_CAP {
                old(rng)@
            } else {
                draws(old(rng)@, dims, CANDIDATE_CAP as nat).1
            })
            &&& match c.sampled {
                None => tuple_count(dims) <= CANDIDATE_CAP,
                Some((kept, total)) => tuple_count(dims) > CANDIDATE_CAP && kept == c.cells@.len()
                    && total == tuple_count(dims),
            }
        }),
        cells_wf(cell_views(c.cells@), factor_views(factors@), role_views(roles@)),
{
    let ghost start = rng@;
    let n_factors: usize = factors.len();
    let mut dims: Vec<usize> = level_counts_of(factors);
    let mut r: usize = 0;
    let ghost rd = role_dims(role_views(roles@));
    let ghost cf = counts(factors@);
    assert(cf + rd.take(0) =~= cf);
    while r < roles.len()
        invariant
            r <= roles@.len(),
            rd == role_dims(role_views(roles@)),
            dims@ == cf + rd.take(r as int),
        decreases roles@.len() - r,
    {
        dims.push(roles[r].levels.len());
        assert(rd[r as int] == roles@[r as int].levels@.len() as usize);
        assert(cf + rd.take(r + 1) =~= (cf + rd.take(r as int)).push(rd[r as int]));
        r = r + 1;
    }
    assert(rd.take(r as int) =~= rd);
    let ghost dv = cf + rd;
    assert(dims@ == dv);
    let mut empty: bool = false;
    let mut total: u128 = 1;
    let mut k: usize = 0;
    assert(dims@.take(0) =~= Seq::empty());
    while k < dims.len()
        invariant
            k <= dims@.len(),
            tuple_count(dims@) <= u128::MAX,
            empty ==> exists|j: int| 0 <= j < dims@.len() && #[trigger] dims@[j] == 0,
            !empty ==> forall|j: int| 0 <= j < k ==> #[trigger] dims@[j] > 0,
        decreases dims@.len() - k,
    {
        if dims[k] == 0 {
            assert(dims@[k as int] == 0);
            empty = true;
        }
        k = k + 1;
    }
    if empty {
        proof {
            let j = choose|j: int| 0 <= j < dims@.len() && #[trigger] dims@[j] == 0;
            lemma_zero_count(dims@, j);
            assert(combinations(start, dv).len() == 0);
        }
        let cells: Vec<Cell> = Vec::new();
        assert(cell_views(cells@) =~= combinations(start, dv).map_values(
            |t: Seq<usize>| split(t, factors@.len()),
        ));
        return Candidates { cells, sampled: None };
    }
    let mut m: usize = 0;
    while m < dims.len()
        invariant
            m <= dims@.len(),
            tuple_count(dims@) <= u128::MAX,
            forall|j: int| 0 <= j < dims@.len() ==> #[trigger] dims@[j] > 0,
            total == tuple_count(dims@.take(m as int)),
        decreases dims@.len() - m,
    {
        proof {
            assert(dims@.take(m + 1).drop_last() =~= dims@.take(m as int));
            lemma_product_bound(dims@, m + 1);
        }
        total = total * dims[m] as u128;
        m = m + 1;
    }
    assert(dims@.take(m as int) =~= dims@);
    let ghost list = combinations(start, dv);
    let sampled: bool = total > CANDIDATE_CAP as u128;
    let found: Vec<Vec<usize>> = if sampled {
        sample(&dims, rng)
    } else {
        proof {
            assert forall|j: int| 0 <= j <= dims@.len() implies tuple_count(
                #[trigger] dims@.take(j),
            ) <= usize::MAX by {
                lemma_product_bound(dims@, j);
            }
        }
        all_tuples(&dims)
    };
    proof {
        if !sampled {
            assert(lists(found@) == tuples(dims@));
            assert(lists(found@).len() == found@.len());
            assert forall|i: int| 0 <= i < found@.len() implies within(
                (#[trigger] found@[i])@,
                dims@,
            ) by {
                assert(lists(found@)[i] == tuple_at(dims@, i));
                lemma_tuple_at(dims@, i);
            }
        }
    }
    let mut cells: Vec<Cell> = Vec::new();
    let mut i: usize = 0;
    while i < found.len()
        invariant
            i <= found@.len(),
            lists(found@) == list,
            n_factors == factors@.len(),
            dims@ == counts(factors@) + role_dims(role_views(roles@)),
            forall|j: int| 0 <= j < found@.len() ==> within((#[trigger] found@[j])@, dims@),
            cells@.len() == i,
            forall|j: int|
                0 <= j < i ==> (#[trigger] cells@[j])@ == split(list[j], factors@.len()),
            cells_wf(cell_views(cells@), factor_views(factors@), role_views(roles@)),
        decreases found@.len() - i,
    {
        let c: Cell = split_cell(&found[i], n_factors);
        assert(list[i as int] == found@[i as int]@);
        proof {
            let (fv, rv) = (factor_views(factors@), role_views(roles@));
            let t = found@[i as int]@;
            assert(within(t, dims@));
            assert forall|f: int| 0 <= f < fv.len() implies #[trigger] c@.factors[f]
                < fv[f].values.len() by {
                assert(t[f] < dims@[f]);
                assert(fv[f] == factors@[f]@);
                assert(factors@[f].values.len() <= usize::MAX);
            }
            assert forall|k: int| 0 <= k < rv.len() implies #[trigger] c@.roles[k]
                < rv[k].levels.len() by {
                assert(t[fv.len() + k] < dims@[fv.len() + k]);
                assert(rv[k] == roles@[k]@);
                assert(roles@[k].levels.len() <= usize::MAX);
            }
            assert(cell_wf(c@, fv, rv));
        }
        let ghost before = cell_views(cells@);
        let ghost v = c@;
        cells.push(c);
        assert(cell_views(cells@) =~= before.push(v));
        i = i + 1;
    }
    assert(lists(found@).len() == found@.len());
    assert(cell_views(cells@) =~= list.map_values(|t: Seq<usize>| split(t, factors@.len())));
    let kept: usize = cells.len();
    Candidates { cells, sampled: if sampled { Some((kept, total)) } else { None } }
}

proof fn lemma_zero_count(dims: Seq<usize>, j: int)
    requires
        0 <= j < dims.len(),
        dims[j] == 0,
    ensures
        tuple_count(dims) == 0,
    decreases dims.len(),
{
    if j < dims.len() - 1 {
        lemma_zero_count(dims.drop_last(), j);
        assert(0 * (dims.last() as int) == 0);
    } else {
        let x = tuple_count(dims.drop_last()) as int;
        assert(x * 0 == 0);
    }
}

/// No candidate stands twice.
pub proof fn candidates_are_different(state: u64, dims: Seq<usize>)
    ensures
        combinations(state, dims).no_duplicates(),
{
    if tuple_count(dims) <= CANDIDATE_CAP {
        let all = tuples(dims);
        assert forall|i: int, j: int| 0 <= i < all.len() && 0 <= j < all.len() && i != j implies all[i]
            != all[j] by {
            if all[i] == all[j] {
                crate::tuples::lemma_tuple_injective(dims, i, j);
            }
        }
    } else {
        lemma_distinct(draws(state, dims, CANDIDATE_CAP as nat).0);
    }
}

} // verus!
