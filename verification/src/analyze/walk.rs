//! The walk through the grid of predictions.
use vstd::prelude::*;

use super::grid::{
    advance, advance_walks_the_grid, grid_dims, grid_exceeds_cap, on_grid, visited, walk_wf,
    walked, Visit, Walk, GRID_CAP,
};
use crate::factor::{factor_views, Factor};
use crate::model::formula::same_term;
use crate::tuples::{lemma_tuple_at, lemma_tuple_index, lists, tuple_at, tuple_count, tuple_index};

verus! {

/// A prediction that `predict` may give for a combination of levels.
pub open spec fn predicts<F: Fn(&Vec<usize>) -> (u64, bool)>(predict: F, v: Visit) -> bool {
    exists|l: Vec<usize>|
        l@ == v.levels && #[trigger] call_ensures(predict, (&l,), (v.mean, v.estimable))
}

/// The visits are those of the whole grid, in order, with what `predict` says of
/// each cell.
pub open spec fn visits_of<F: Fn(&Vec<usize>) -> (u64, bool)>(
    predict: F,
    dims: Seq<usize>,
    measured: Seq<Seq<usize>>,
    visits: Seq<Visit>,
    n: nat,
) -> bool {
    &&& visits.len() == n
    &&& forall|i: int|
        0 <= i < n ==> {
            &&& (#[trigger] visits[i]).levels == tuple_at(dims, i)
            &&& visits[i].measured == measured.contains(visits[i].levels)
            &&& predicts(predict, visits[i])
        }
}

proof fn lemma_first_tuple(dims: Seq<usize>)
    requires
        forall|i: int| 0 <= i < dims.len() ==> #[trigger] dims[i] > 0,
    ensures
        tuple_count(dims) > 0,
        tuple_at(dims, 0) == Seq::new(dims.len(), |i: int| 0usize),
{
    let zeros = Seq::new(dims.len(), |i: int| 0usize);
    lemma_zero_index(dims, zeros);
    lemma_tuple_index(dims, zeros);
}

proof fn lemma_zero_index(dims: Seq<usize>, zeros: Seq<usize>)
    requires
        zeros.len() == dims.len(),
        forall|i: int| 0 <= i < zeros.len() ==> #[trigger] zeros[i] == 0,
    ensures
        tuple_index(dims, zeros) == 0,
    decreases dims.len(),
{
    if dims.len() > 0 {
        lemma_zero_index(dims.drop_last(), zeros.drop_last());
    }
}

proof fn lemma_walk_stays(capped: bool, dims: Seq<usize>, visits: Seq<Visit>, n: nat)
    requires
        n <= visits.len(),
        forall|i: int| 0 <= i < n ==> on_grid((#[trigger] visits[i]).levels, dims),
    ensures
        walk_wf(walked(capped, visits, n), dims),
    decreases n,
{
    if n > 0 {
        lemma_walk_stays(capped, dims, visits, (n - 1) as nat);
        assert(on_grid(visits[n - 1].levels, dims));
    }
}

proof fn lemma_walked_prefix(capped: bool, a: Seq<Visit>, b: Seq<Visit>, n: nat)
    requires
        n <= a.len(),
        n <= b.len(),
        forall|i: int| 0 <= i < n ==> #[trigger] a[i] == b[i],
    ensures
        walked(capped, a, n) == walked(capped, b, n),
    decreases n,
{
    if n > 0 {
        lemma_walked_prefix(capped, a, b, (n - 1) as nat);
        assert(a[n - 1] == b[n - 1]);
    }
}

fn is_listed(list: &Vec<Vec<usize>>, levels: &Vec<usize>) -> (r: bool)
    ensures
        r == lists(list@).contains(levels@),
{
    let mut i: usize = 0;
    while i < list.len()
        invariant
            i <= list@.len(),
            forall|k: int| 0 <= k < i ==> (#[trigger] list@[k])@ != levels@,
        decreases list@.len() - i,
    {
        if same_term(&list[i], levels) {
            assert(lists(list@)[i as int] == levels@);
            return true;
        }
        i = i + 1;
    }
    assert forall|k: int| 0 <= k < lists(list@).len() implies lists(list@)[k] != levels@ by {
        assert(lists(list@)[k] == list@[k]@);
    }
    false
}

/// Walks through the whole grid: `predict` gives the mean of a cell, as bits, and
/// whether it is estimable; `measured` lists the cells with observations.
pub fn walk_grid<F: Fn(&Vec<usize>) -> (u64, bool)>(
    factors: &[Factor],
    measured: &Vec<Vec<usize>>,
    predict: &F,
) -> (w: Walk)
    requires
        forall|f: int| 0 <= f < factors@.len() ==> (#[trigger] factors@[f]).values@.len() > 0,
        forall|l: &Vec<usize>|
            on_grid(l@, grid_dims(factor_views(factors@))) ==> #[trigger] call_requires(
                *predict,
                (l,),
            ),
    ensures
        exists|visits: Seq<Visit>|
            #[trigger] visits_of(
                *predict,
                grid_dims(factor_views(factors@)),
                lists(measured@),
                visits,
                tuple_count(grid_dims(factor_views(factors@))),
            ) && w@ == walked(
                tuple_count(grid_dims(factor_views(factors@))) > GRID_CAP,
                visits,
                visits.len(),
            ),
        walk_wf(w@, grid_dims(factor_views(factors@))),
{
    let ghost dims = grid_dims(factor_views(factors@));
    let ghost count = tuple_count(dims);
    let ghost known = lists(measured@);
    let capped: bool = grid_exceeds_cap(factors);
    let mut walk: Walk = Walk::start(capped);
    let mut levels: Vec<usize> = Vec::new();
    while levels.len() < factors.len()
        invariant
            levels@.len() <= factors@.len(),
            forall|i: int| 0 <= i < levels@.len() ==> #[trigger] levels@[i] == 0,
        decreases factors@.len() - levels@.len(),
    {
        levels.push(0);
    }
    proof {
        assert forall|i: int| 0 <= i < dims.len() implies #[trigger] dims[i] > 0 by {
            assert(factor_views(factors@)[i] == factors@[i]@);
            assert(factors@[i].values@.len() > 0);
            assert(factors@[i].values.len() == factors@[i].values@.len());
        }
        lemma_first_tuple(dims);
        assert(levels@ =~= tuple_at(dims, 0));
    }
    let ghost mut visits = Seq::<Visit>::empty();
    let mut more: bool = true;
    while more
        invariant
            dims == grid_dims(factor_views(factors@)),
            count == tuple_count(dims),
            known == lists(measured@),
            capped == (count > GRID_CAP),
            forall|l: &Vec<usize>|
                on_grid(l@, dims) ==> #[trigger] call_requires(*predict, (l,)),
            visits.len() <= count,
            more == (visits.len() < count),
            more ==> levels@ == tuple_at(dims, visits.len() as int),
            visits_of(*predict, dims, known, visits, visits.len()),
            walk@ == walked(capped, visits, visits.len()),
        decreases count - visits.len(),
    {
        proof {
            lemma_tuple_at(dims, visits.len() as int);
            advance_walks_the_grid(dims, visits.len() as int);
        }
        assert(on_grid(levels@, dims));
        let (mean, estimable) = predict(&levels);
        let seen: bool = is_listed(measured, &levels);
        walk.visit(&levels, mean, estimable, seen);
        proof {
            let v = Visit { levels: levels@, mean, estimable, measured: seen };
            let next = visits.push(v);
            assert(predicts(*predict, v));
            lemma_walked_prefix(capped, visits, next, visits.len());
            assert(visited(walked(capped, next, visits.len()), next[visits.len() as int]) == walk@);
            visits = next;
        }
        more = advance(&mut levels, factors);
    }
    proof {
        assert forall|i: int| 0 <= i < visits.len() implies on_grid(
            (#[trigger] visits[i]).levels,
            dims,
        ) by {
            lemma_tuple_at(dims, i);
        }
        lemma_walk_stays(capped, dims, visits, visits.len());
        assert(visits_of(*predict, dims, known, visits, count));
    }
    walk
}

} // verus!
