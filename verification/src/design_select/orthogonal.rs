//! Every selected array has strength 2.
use vstd::arithmetic::power::pow;
use vstd::prelude::*;

use super::assign::{assignments_are_ordered_injections, is_assignment, ASSIGNMENT_CAP};
use super::candidates::{
    bush_candidate, bush_candidates_of, bush_grid, by_rows, candidate_assignments, candidate_wf,
    candidates_ascend, catalog_candidates, factorial_candidate, lemma_supplying, listed, taken,
    Candidate, Source,
};
use super::cells::factorial_has_strength2;
use super::search::{
    all_trials, candidate_trials, chosen, ended, lemma_catalog_candidates, listable, probed,
    resolved, spared, trials, within_limits, Request, SelectionView,
};
use crate::model::{ModelMatrix, RankReport};
use crate::oa::bush::{bush_capacity, bush_has_strength2, capacity, depth, directions, is_bush};
use crate::oa::bush::{lemma_cell_range, uniform};
use crate::oa::gf::{lemma_field_shape, supported};
use crate::oa::kronecker::{field_for, lemma_depth_range, lemma_field_for};
use crate::oa::lookup::{picked_has_strength2, picked_levels, supplying, EntryView};
use crate::oa::strength::{cells_in_range, strength2};
use crate::oa::SelectedView;

verus! {

/// An array of strength 2.
pub open spec fn orthogonal(s: SelectedView) -> bool {
    strength2(s.array, s.column_levels)
}

/// The entries of the catalog have strength 2.
pub open spec fn catalog_orthogonal(catalog: Seq<EntryView>) -> bool {
    forall|i: int|
        0 <= i < catalog.len() ==> (#[trigger] catalog[i]).columns.len() <= usize::MAX
            && cells_in_range(catalog[i].array, catalog[i].columns) && strength2(
            catalog[i].array,
            catalog[i].columns,
        )
}

proof fn lemma_bush_grid(q: usize, k: nat)
    requires
        supported(q as int),
        pow(q as int, k) <= usize::MAX,
    ensures
        ({
            let g = bush_grid(q as int, k);
            let levels = Seq::new(capacity(q as int, k) as nat, |i: int| q);
            strength2(g, levels) && cells_in_range(g, levels) && levels.len() <= usize::MAX
        }),
{
    lemma_field_shape(q as int);
    bush_capacity(q as int, k);
    let g = bush_grid(q as int, k);
    let cols = directions(q as int, k, k).len() as int;
    let levels = Seq::new(capacity(q as int, k) as nat, |i: int| q);
    vstd::arithmetic::power::lemma_pow_positive(q as int, k);
    assert forall|r: int, c: int| 0 <= r < g.len() && 0 <= c < cols implies #[trigger] g[r][c]
        == crate::oa::bush::cell(q as int, k, directions(q as int, k, k)[c], r) by {
        lemma_cell_range(q as int, k, c, r);
    }
    assert(is_bush(g, q as int, k, cols));
    bush_has_strength2(g, q as int, k, cols, levels);
}

/// The array of a candidate under one of its assignments.
proof fn lemma_taken(src: Source, c: Candidate, a: Seq<usize>)
    requires
        candidate_wf(src, c),
        orthogonal(src.base),
        catalog_orthogonal(src.catalog),
        candidate_assignments(src, c).contains(a),
    ensures
        orthogonal(taken(src, c, a)),
{
    let list = candidate_assignments(src, c);
    let i = choose|i: int| 0 <= i < list.len() && list[i] == a;
    match c {
        Candidate::Base => {},
        Candidate::Factorial => {
            factorial_has_strength2(src.levels);
        },
        Candidate::Catalog { entry } => {
            let e = src.catalog[entry as int];
            assert(cells_in_range(e.array, e.columns));
            assignments_are_ordered_injections(
                e.columns,
                src.levels,
                false,
                ASSIGNMENT_CAP as nat,
            );
            assert(is_assignment(e.columns, src.levels, false, list[i]));
            picked_has_strength2(e.array, e.columns, a);
        },
        Candidate::Bush { q, k } => {
            lemma_bush_grid(q, k as nat);
            let columns = Seq::new(capacity(q as int, k as nat) as nat, |i: int| q);
            assignments_are_ordered_injections(columns, src.levels, true, ASSIGNMENT_CAP as nat);
            assert(is_assignment(columns, src.levels, true, list[i]));
            picked_has_strength2(bush_grid(q as int, k as nat), columns, a);
            assert(picked_levels(columns, a) =~= Seq::new(a.len(), |i: int| q));
        },
    }
}

proof fn lemma_candidate_trials(req: Request, c: Candidate, i: int)
    requires
        candidate_wf(req.src, c),
        orthogonal(req.src.base),
        catalog_orthogonal(req.src.catalog),
        0 <= i < candidate_trials(req, c).len(),
    ensures
        orthogonal(candidate_trials(req, c)[i].selected),
{
    let list = candidate_assignments(req.src, c);
    assert(list.contains(list[i]));
    lemma_taken(req.src, c, list[i]);
}

proof fn lemma_trials(req: Request, cands: Seq<Candidate>, n: nat, i: int)
    requires
        n <= cands.len(),
        forall|k: int| 0 <= k < cands.len() ==> candidate_wf(req.src, #[trigger] cands[k]),
        orthogonal(req.src.base),
        catalog_orthogonal(req.src.catalog),
        0 <= i < trials(req, cands, n).len(),
    ensures
        orthogonal(trials(req, cands, n)[i].selected),
    decreases n,
{
    let before = trials(req, cands, (n - 1) as nat);
    if i < before.len() {
        lemma_trials(req, cands, (n - 1) as nat, i);
    } else {
        lemma_candidate_trials(req, cands[n - 1], i - before.len());
    }
}

proof fn lemma_bush_candidates(levels: Seq<usize>, k: int)
    requires
        levels.len() > 0,
        uniform(levels) ==> levels[0] <= 49,
        0 <= k < bush_candidates_of(levels).len(),
    ensures
        bush_candidates_of(levels)[k] matches Candidate::Bush { q, k: d } && supported(q as int)
            && pow(q as int, d as nat) <= usize::MAX,
{
    let q = field_for(levels[0] as int);
    lemma_field_for(levels[0] as int);
    let d = depth(q, levels.len() as int)->0;
    lemma_depth_range(q, levels.len() as int, 2);
    let first = bush_candidate(levels, q, d + 1);
    let second = bush_candidate(levels, q, d + 2);
    if k < first.len() {
        assert(bush_candidates_of(levels)[k] == first[k]);
    } else {
        assert(bush_candidates_of(levels)[k] == second[k - first.len()]);
    }
}

/// Every candidate that is tried can be built.
proof fn lemma_candidates(req: Request, k: int)
    requires
        req.src.levels.len() > 0,
        uniform(req.src.levels) ==> req.src.levels[0] <= 49,
        req.src.catalog.len() <= usize::MAX,
        0 <= k < by_rows(req.src, listed(req.src)).len(),
    ensures
        candidate_wf(req.src, by_rows(req.src, listed(req.src))[k]),
{
    let src = req.src;
    let cands = by_rows(src, listed(src));
    let positions = supplying(src.catalog, src.levels, src.catalog.len());
    lemma_supplying(src.catalog, src.levels, src.catalog.len());
    lemma_catalog_candidates(src, positions, positions.len());
    candidates_ascend(src, listed(src));
    assert(cands.contains(cands[k]));
    assert(listed(src).contains(cands[k]));
    let m = choose|m: int| 0 <= m < listed(src).len() && listed(src)[m] == cands[k];
    let part = catalog_candidates(src, positions, positions.len());
    let bush = bush_candidates_of(src.levels);
    if m == 0 {
        assert(cands[k] == Candidate::Base);
    } else if m < 1 + part.len() {
        assert(part[m - 1] == cands[k]);
    } else if m < 1 + part.len() + bush.len() {
        assert(bush[m - 1 - part.len()] == cands[k]);
        lemma_bush_candidates(src.levels, m - 1 - part.len());
    } else {
        assert(factorial_candidate(src.levels)[m - 1 - part.len() - bush.len()] == cands[k]);
    }
}

/// Every selected array has strength 2, where the base array and the entries of
/// the catalog have.
pub proof fn selections_have_strength2<P: Fn(&ModelMatrix) -> RankReport>(
    probe: P,
    req: Request,
    sel: SelectionView,
)
    requires
        resolved(probe, req, Ok(sel)),
        listable(req) || spared(probe, req),
        req.src.levels.len() > 0,
        req.src.catalog.len() <= usize::MAX,
        orthogonal(req.src.base),
        catalog_orthogonal(req.src.catalog),
    ensures
        orthogonal(sel.selected),
{
    if req.models.len() == 0 && exists|first: RankReport| #[trigger]
        probed(probe, req, req.src.base, first) && within_limits(req, first@) && Ok::<
            SelectionView,
            Seq<char>,
        >(sel) == Ok::<SelectionView, Seq<char>>(chosen(req, req.src.base, first@)) {
    } else {
        let answers = choose|answers: Seq<RankReport>| #[trigger] ended(probe, req, answers, Ok(sel));
        let list = all_trials(req);
        let last = answers.len() - 1;
        let cands = by_rows(req.src, listed(req.src));
        assert forall|k: int| 0 <= k < cands.len() implies candidate_wf(
            req.src,
            #[trigger] cands[k],
        ) by {
            lemma_candidates(req, k);
        }
        lemma_trials(req, cands, cands.len(), last);
        lemma_trials(req, cands, cands.len(), 0);
    }
}

} // verus!
