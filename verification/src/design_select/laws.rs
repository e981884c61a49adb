//! What a selected design comes to among all that there are.
use vstd::arithmetic::power::pow;
use vstd::prelude::*;

use super::assign::{assignments_are_ordered_injections, is_assignment};
use super::candidates::{
    by_rows, candidate_assignments, candidates_ascend, catalog_candidates, lemma_supplying, listed,
    taken, Candidate, Source,
};
use super::cells::{cells_of, df_sum, role_dims};
use super::search::{
    all_trials, arrays_ascend, catalog_wf, chosen, ended, fallback, lemma_catalog_entries,
    lemma_trials_grow, lemma_trials_measured, probed, resolved, trial_cells, trial_verdict, trials,
    unmet_labels, Request, SelectionView, Trial,
};
use crate::factor::FactorView;
use crate::model::estimability::{matrix_columns, RankReport, RanksView, TermView};
use crate::model::formula::term_label;
use crate::model::laws::{
    ranks_and_residuals_make_up_the_rows, terms_are_estimable_as_a_whole, terms_have_their_columns,
};
use crate::model::matrix::{term_dims, CellView, ModelMatrix, RoleView};
use crate::oa::bush::{capacity, depth_from, uniform};
use crate::oa::kronecker::field_for;
use crate::oa::lookup::{supplies, supplying, EntryView};
use crate::oa::SelectedView;
use crate::tuples::{lemma_tuple_index, tuple_count, tuple_index, tuples};

verus! {

/// The array carries the request: it has no more runs than allowed, leaving out a
/// term lowers the rank by the degrees of freedom of the term, and enough degrees
/// of freedom are left over.
pub open spec fn carries(req: Request, s: SelectedView, ranks: RanksView) -> bool {
    let runs = trial_cells(req, s).len();
    &&& req.opts.max_runs matches Some(max) ==> runs <= max
    &&& forall|t: int|
        0 <= t < req.model.terms.len() ==> ranks.rank - #[trigger] ranks.without_terms[t]
            == tuple_count(term_dims(req.model.terms[t], req.factors))
    &&& runs - ranks.rank >= req.opts.min_residual_df
}

/// The verdict on an array says whether the ranks carry the request.
proof fn lemma_carries(req: Request, t: Trial, ranks: RanksView)
    requires
        req.model.terms.len() <= usize::MAX,
        ranks.rank <= trial_cells(req, t.selected).len(),
        t.over == (req.opts.max_runs matches Some(max) && trial_cells(req, t.selected).len() > max),
    ensures
        carries(req, t.selected, ranks) <==> super::search::wins(req, t, ranks),
{
    let (terms, factors) = (req.model.terms, req.factors);
    let columns = matrix_columns(factors, req.roles, terms);
    let n = trial_cells(req, t.selected).len();
    let e = trial_verdict(req, t.selected, ranks);
    ranks_and_residuals_make_up_the_rows(columns, n, terms, factors, ranks);
    assert forall|k: int| 0 <= k < terms.len() implies ((#[trigger] e.terms[k]).estimable <==> (
    ranks.rank - ranks.without_terms[k] == tuple_count(term_dims(terms[k], factors)))) by {
        terms_are_estimable_as_a_whole(columns, n, terms, factors, ranks, k as usize);
        terms_have_their_columns(factors, req.roles, terms, k as usize);
    }
    if super::search::estimates_all(e) {
        assert forall|k: int| 0 <= k < terms.len() implies ranks.rank
            - #[trigger] ranks.without_terms[k] == tuple_count(term_dims(terms[k], factors)) by {
            assert(e.terms[k].estimable);
        }
    }
    if carries(req, t.selected, ranks) {
        assert forall|k: int| 0 <= k < e.terms.len() implies (#[trigger] e.terms[k]).estimable by {
            assert(ranks.rank - ranks.without_terms[k] == tuple_count(term_dims(terms[k], factors)));
        }
    }
}

/// Every array of every candidate within the run limit is looked at, so long as
/// it has as many runs as the model and the residual degrees of freedom take.
pub proof fn sufficient_arrays_are_looked_at(req: Request, c: Candidate, a: Seq<usize>) -> (i: int)
    requires
        catalog_wf(req.src.catalog),
        req.src.catalog.len() <= usize::MAX,
        listed(req.src).contains(c),
        candidate_assignments(req.src, c).contains(a),
        trial_cells(req, taken(req.src, c, a)).len() <= usize::MAX,
        req.opts.max_runs matches Some(max) ==> trial_cells(req, taken(req.src, c, a)).len() <= max,
        trial_cells(req, taken(req.src, c, a)).len() >= 1 + df_sum(
            req.model.terms,
            req.factors,
            req.model.terms.len(),
        ) + req.opts.min_residual_df,
    ensures
        0 <= i < all_trials(req).len(),
        all_trials(req)[i].selected == taken(req.src, c, a),
        !all_trials(req)[i].over,
{
    let src = req.src;
    let cands = by_rows(src, listed(src));
    candidates_ascend(src, listed(src));
    lemma_catalog_entries(req);
    assert(cands.contains(c));
    let k = choose|k: int| 0 <= k < cands.len() && cands[k] == c;
    let list = candidate_assignments(src, c);
    let j = choose|j: int| 0 <= j < list.len() && list[j] == a;
    let s = taken(src, c, a);
    assert(s.array.len() == super::candidates::rows_of(src, c));
    let (x, y) = (s.array.len() as int, super::search::replicates(req) as int);
    assert(x * y == y * x) by (nonlinear_arith);
    let before = trials(req, cands, k as nat);
    let upto = trials(req, cands, (k + 1) as nat);
    let part = super::search::candidate_trials(req, c);
    assert(upto == before + part);
    assert(part[j].selected == s);
    lemma_trials_grow(req, cands, (k + 1) as nat, cands.len());
    assert(upto[before.len() + j] == part[j]);
    before.len() + j
}

/// An array with fewer runs cannot carry the request, where the ranks are those
/// of a matrix whose terms are all estimable beside the intercept.
pub proof fn smaller_arrays_cannot_win(req: Request, s: SelectedView, ranks: RanksView)
    requires
        trial_cells(req, s).len() < 1 + df_sum(
            req.model.terms,
            req.factors,
            req.model.terms.len(),
        ) + req.opts.min_residual_df,
        ranks.rank >= 1 + df_sum(req.model.terms, req.factors, req.model.terms.len()),
    ensures
        !carries(req, s, ranks),
{
}

/// Each term takes the product of the levels of its factors, less one each.
pub proof fn each_term_adds_its_degrees(
    terms: Seq<Seq<usize>>,
    t: Seq<usize>,
    factors: Seq<FactorView>,
    n: nat,
)
    requires
        n <= terms.len(),
    ensures
        df_sum(terms, factors, 0) == 0,
        df_sum(terms.push(t), factors, n) == df_sum(terms, factors, n),
        df_sum(terms.push(t), factors, terms.len() + 1) == df_sum(terms, factors, terms.len())
            + tuple_count(term_dims(t, factors)),
    decreases n,
{
    if n > 0 {
        each_term_adds_its_degrees(terms, t, factors, (n - 1) as nat);
        assert(terms.push(t)[n - 1] == terms[n - 1]);
    }
    lemma_df_push(terms, t, factors, terms.len());
}

proof fn lemma_df_push(terms: Seq<Seq<usize>>, t: Seq<usize>, factors: Seq<FactorView>, n: nat)
    requires
        n <= terms.len(),
    ensures
        df_sum(terms.push(t), factors, n) == df_sum(terms, factors, n),
    decreases n,
{
    if n > 0 {
        lemma_df_push(terms, t, factors, (n - 1) as nat);
        assert(terms.push(t)[n - 1] == terms[n - 1]);
    }
}

/// What is selected, and not marked as aliased, carries the request.
pub proof fn selections_carry_the_request<P: Fn(&ModelMatrix) -> RankReport>(
    probe: P,
    req: Request,
    answers: Seq<RankReport>,
    sel: SelectionView,
)
    requires
        catalog_wf(req.src.catalog),
        req.src.catalog.len() <= usize::MAX,
        req.model.terms.len() <= usize::MAX,
        ended(probe, req, answers, Ok(sel)),
        !sel.aliased,
        answers.last()@.rank <= sel.cells.len(),
    ensures
        carries(req, sel.selected, answers.last()@),
        sel.cells == trial_cells(req, sel.selected),
        probed(probe, req, sel.selected, answers.last()),
{
    let list = all_trials(req);
    let last = answers.len() - 1;
    let cands = by_rows(req.src, listed(req.src));
    lemma_catalog_entries(req);
    lemma_trials_measured(req, cands, cands.len(), last);
    if super::search::wins(req, list[last], answers[last]@) {
        assert(sel == chosen(req, list[last].selected, answers[last]@));
        lemma_carries(req, list[last], answers[last]@);
    } else {
        assert(fallback(req, list[0].selected, answers[0]@) == Ok::<SelectionView, Seq<char>>(sel));
        assert(sel.aliased);
    }
}

/// No array of a candidate has fewer rows than the selected one and carries the
/// request: each that has enough runs was looked at and does not.
pub proof fn no_smaller_array_would_do<P: Fn(&ModelMatrix) -> RankReport>(
    probe: P,
    req: Request,
    answers: Seq<RankReport>,
    sel: SelectionView,
    c: Candidate,
    a: Seq<usize>,
) -> (i: int)
    requires
        catalog_wf(req.src.catalog),
        req.src.catalog.len() <= usize::MAX,
        req.model.terms.len() <= usize::MAX,
        ended(probe, req, answers, Ok(sel)),
        !sel.aliased,
        forall|k: int|
            0 <= k < answers.len() ==> (#[trigger] answers[k])@.rank <= trial_cells(
                req,
                all_trials(req)[k].selected,
            ).len(),
        listed(req.src).contains(c),
        candidate_assignments(req.src, c).contains(a),
        taken(req.src, c, a).array.len() < sel.selected.array.len(),
        trial_cells(req, taken(req.src, c, a)).len() <= usize::MAX,
        trial_cells(req, taken(req.src, c, a)).len() >= 1 + df_sum(
            req.model.terms,
            req.factors,
            req.model.terms.len(),
        ) + req.opts.min_residual_df,
    ensures
        (req.opts.max_runs matches Some(max) && trial_cells(req, taken(req.src, c, a)).len() > max) || (
        0 <= i < answers.len() - 1 && probed(probe, req, taken(req.src, c, a), answers[i])
            && !carries(req, taken(req.src, c, a), answers[i]@)),
{
    let list = all_trials(req);
    let last = answers.len() - 1;
    let cands = by_rows(req.src, listed(req.src));
    lemma_catalog_entries(req);
    if req.opts.max_runs matches Some(max) && trial_cells(req, taken(req.src, c, a)).len() > max {
        0
    } else {
        let i = sufficient_arrays_are_looked_at(req, c, a);
        if !super::search::wins(req, list[last], answers[last]@) {
            assert(fallback(req, list[0].selected, answers[0]@) == Ok::<SelectionView, Seq<char>>(
                sel,
            ));
            assert(sel.aliased);
        }
        assert(sel == chosen(req, list[last].selected, answers[last]@));
        if i == last {
        } else if last < i {
            arrays_ascend(req, last, i);
        }
        assert(i < last);
        lemma_trials_measured(req, cands, cands.len(), i);
        assert(answers[i]@.rank <= trial_cells(req, list[i].selected).len());
        lemma_carries(req, list[i], answers[i]@);
        assert(!super::search::wins(req, list[i], answers[i]@));
        i
    }
}

/// A request is refused, or an aliased array kept, only where every array was
/// looked at and none carries it. An aliased array is kept only where that is
/// allowed, and it is the smallest.
pub proof fn refusals_have_no_way_out<P: Fn(&ModelMatrix) -> RankReport>(
    probe: P,
    req: Request,
    answers: Seq<RankReport>,
    r: Result<SelectionView, Seq<char>>,
    i: int,
)
    requires
        catalog_wf(req.src.catalog),
        req.src.catalog.len() <= usize::MAX,
        req.model.terms.len() <= usize::MAX,
        ended(probe, req, answers, r),
        r matches Ok(sel) ==> sel.aliased,
        0 <= i < all_trials(req).len(),
        forall|k: int|
            0 <= k < answers.len() ==> (#[trigger] answers[k])@.rank <= trial_cells(
                req,
                all_trials(req)[k].selected,
            ).len(),
    ensures
        i < answers.len(),
        probed(probe, req, all_trials(req)[i].selected, answers[i]),
        !carries(req, all_trials(req)[i].selected, answers[i]@),
        r is Ok <==> req.opts.allow_aliased && (req.opts.max_runs matches Some(max) ==> trial_cells(
            req,
            all_trials(req)[0].selected,
        ).len() <= max),
        r matches Ok(sel) ==> sel.selected == all_trials(req)[0].selected,
{
    let list = all_trials(req);
    let last = answers.len() - 1;
    let cands = by_rows(req.src, listed(req.src));
    lemma_catalog_entries(req);
    if super::search::wins(req, list[last], answers[last]@) {
        assert(r == Ok::<SelectionView, Seq<char>>(
            chosen(req, list[last].selected, answers[last]@),
        ));
        assert(false);
    }
    assert(answers[i] == answers[i]);
    lemma_trials_measured(req, cands, cands.len(), i);
    assert(answers[i]@.rank <= trial_cells(req, list[i].selected).len());
    lemma_carries(req, list[i], answers[i]@);
}

/// Without formulas the built array is kept wherever the limits allow it.
pub proof fn unmodelled_arrays_are_kept_within_the_limits<P: Fn(&ModelMatrix) -> RankReport>(
    probe: P,
    req: Request,
    r: Result<SelectionView, Seq<char>>,
)
    requires
        resolved(probe, req, r),
        req.models.len() == 0,
        req.opts.max_runs matches Some(max) ==> trial_cells(req, req.src.base).len() <= max,
        forall|first: RankReport|
            #[trigger] probed(probe, req, req.src.base, first) ==> first@.rank
                + req.opts.min_residual_df <= trial_cells(req, req.src.base).len(),
    ensures
        r matches Ok(sel) && sel.selected == req.src.base && sel.cells == trial_cells(
            req,
            req.src.base,
        ) && !sel.aliased,
{
}

proof fn lemma_supplying_complete(list: Seq<EntryView>, levels: Seq<usize>, n: nat)
    requires
        n <= list.len(),
    ensures
        forall|e: int|
            #[trigger] supplying(list, levels, n).contains(e) <==> 0 <= e < n && supplies(
                list[e].columns,
                levels,
            ),
    decreases n,
{
    if n > 0 {
        lemma_supplying_complete(list, levels, (n - 1) as nat);
        let before = supplying(list, levels, (n - 1) as nat);
        let now = supplying(list, levels, n);
        assert forall|e: int|
            #[trigger] now.contains(e) <==> 0 <= e < n && supplies(list[e].columns, levels) by {
            if before.contains(e) {
                let k = choose|k: int| 0 <= k < before.len() && before[k] == e;
                assert(now[k] == e);
            }
            if now.contains(e) {
                let k = choose|k: int| 0 <= k < now.len() && now[k] == e;
                if k < before.len() {
                    assert(before[k] == e);
                    assert(before.contains(e));
                }
            }
            if e == n - 1 && supplies(list[e].columns, levels) {
                assert(now[now.len() - 1] == e);
            }
        }
    }
}

proof fn lemma_catalog_complete(src: Source, positions: Seq<int>, n: nat)
    requires
        n <= positions.len(),
        src.catalog.len() <= usize::MAX,
        forall|k: int| 0 <= k < positions.len() ==> 0 <= #[trigger] positions[k] < src.catalog.len(),
    ensures
        forall|e: usize|
            #[trigger] catalog_candidates(src, positions, n).contains(
                Candidate::Catalog { entry: e },
            ) <==> positions.take(n as int).contains(e as int) && src.catalog[e as int].n_runs
                <= tuple_count(src.levels) && src.catalog[e as int].n_runs <= usize::MAX,
    decreases n,
{
    if n > 0 {
        lemma_catalog_complete(src, positions, (n - 1) as nat);
        let before = catalog_candidates(src, positions, (n - 1) as nat);
        let now = catalog_candidates(src, positions, n);
        let (less, more) = (positions.take(n - 1), positions.take(n as int));
        assert(more =~= less.push(positions[n - 1]));
        assert forall|e: usize|
            #[trigger] now.contains(Candidate::Catalog { entry: e }) <==> more.contains(e as int)
                && src.catalog[e as int].n_runs <= tuple_count(src.levels)
                && src.catalog[e as int].n_runs <= usize::MAX by {
            let c = Candidate::Catalog { entry: e };
            if before.contains(c) {
                let k = choose|k: int| 0 <= k < before.len() && before[k] == c;
                assert(now[k] == c);
            }
            if now.contains(c) {
                let k = choose|k: int| 0 <= k < now.len() && now[k] == c;
                if k < before.len() {
                    assert(before[k] == c);
                    assert(before.contains(c));
                }
            }
            if less.contains(e as int) {
                let k = choose|k: int| 0 <= k < less.len() && less[k] == e;
                assert(more[k] == e);
            }
            if more.contains(e as int) {
                let k = choose|k: int| 0 <= k < more.len() && more[k] == e;
                if k < n - 1 {
                    assert(less[k] == e);
                    assert(less.contains(e as int));
                } else {
                    assert(positions[n - 1] == e);
                    if src.catalog[e as int].n_runs <= tuple_count(src.levels)
                        && src.catalog[e as int].n_runs <= usize::MAX {
                        assert(now[now.len() - 1] == c);
                    }
                }
            }
            if positions[n - 1] == e {
                assert(more[n - 1] == e);
            }
        }
    } else {
        assert(positions.take(0) =~= Seq::empty());
    }
}

/// The candidates are the built array, the full factorial where it fits, and every
/// catalog entry that supplies the level counts with no more rows than that.
pub proof fn every_serving_array_is_a_candidate(src: Source)
    requires
        src.catalog.len() <= usize::MAX,
    ensures
        listed(src).contains(Candidate::Base),
        tuple_count(src.levels) <= usize::MAX ==> listed(src).contains(Candidate::Factorial),
        forall|e: usize|
            e < src.catalog.len() && supplies(src.catalog[e as int].columns, src.levels)
                && src.catalog[e as int].n_runs <= tuple_count(src.levels)
                && src.catalog[e as int].n_runs <= usize::MAX ==> #[trigger] listed(src).contains(
                Candidate::Catalog { entry: e },
            ),
{
    let positions = supplying(src.catalog, src.levels, src.catalog.len());
    let part = catalog_candidates(src, positions, positions.len());
    let list = listed(src);
    lemma_supplying(src.catalog, src.levels, src.catalog.len());
    lemma_supplying_complete(src.catalog, src.levels, src.catalog.len());
    lemma_catalog_complete(src, positions, positions.len());
    assert(positions.take(positions.len() as int) =~= positions);
    assert(list[0] == Candidate::Base);
    if tuple_count(src.levels) <= usize::MAX {
        assert(list[list.len() - 1] == Candidate::Factorial);
    }
    assert forall|e: usize|
        e < src.catalog.len() && supplies(src.catalog[e as int].columns, src.levels)
            && src.catalog[e as int].n_runs <= tuple_count(src.levels)
            && src.catalog[e as int].n_runs <= usize::MAX implies #[trigger] list.contains(
        Candidate::Catalog { entry: e },
    ) by {
        let c = Candidate::Catalog { entry: e };
        assert(positions.contains(e as int));
        assert(part.contains(c));
        let k = choose|k: int| 0 <= k < part.len() && part[k] == c;
        assert(list[1 + k] == c);
    }
}

proof fn lemma_depth(q: int, n: int, k: nat, d: nat)
    requires
        k <= d <= 10,
        capacity(q, d) >= n,
        forall|e: nat| k <= e < d ==> #[trigger] capacity(q, e) < n,
    ensures
        depth_from(q, n, k) == Some(d),
    decreases d - k,
{
    if k < d {
        assert(capacity(q, k) < n);
        lemma_depth(q, n, k + 1, d);
    }
}

/// Equal level counts have two deeper Bush arrays as candidates: with `d` the
/// least depth that has columns enough, those of the next two depths.
pub proof fn deeper_bush_arrays_are_candidates(src: Source, d: nat, more: nat)
    requires
        src.levels.len() > 0,
        uniform(src.levels),
        2 <= d <= 10,
        1 <= more <= 2,
        2 <= field_for(src.levels[0] as int) <= usize::MAX,
        capacity(field_for(src.levels[0] as int), d) >= src.levels.len(),
        forall|e: nat|
            2 <= e < d ==> #[trigger] capacity(field_for(src.levels[0] as int), e)
                < src.levels.len(),
        pow(field_for(src.levels[0] as int), d + more) <= tuple_count(src.levels),
        pow(field_for(src.levels[0] as int), d + more) <= usize::MAX,
    ensures
        listed(src).contains(
            Candidate::Bush { q: field_for(src.levels[0] as int) as usize, k: (d + more) as usize },
        ),
{
    let q = field_for(src.levels[0] as int);
    lemma_depth(q, src.levels.len() as int, 2, d);
    let positions = supplying(src.catalog, src.levels, src.catalog.len());
    let part = catalog_candidates(src, positions, positions.len());
    let deep = super::candidates::bush_candidates_of(src.levels);
    let c = Candidate::Bush { q: q as usize, k: (d + more) as usize };
    let first = super::candidates::bush_candidate(src.levels, q, d + 1);
    let second = super::candidates::bush_candidate(src.levels, q, d + 2);
    assert(deep == first + second);
    let j = if more == 1 {
        0int
    } else {
        first.len() as int
    };
    assert(deep[j] == c);
    assert(listed(src)[1 + part.len() + j] == c);
}

/// Every row of the array stands under every combination of replicate levels, and
/// there are no other cells.
pub proof fn every_row_has_every_replicate(
    array: Seq<Seq<usize>>,
    levels: Seq<usize>,
    roles: Seq<RoleView>,
    r: int,
    t: Seq<usize>,
) -> (i: int)
    requires
        0 <= r < array.len(),
        array[r].len() == levels.len(),
        forall|j: int| 0 <= j < levels.len() ==> #[trigger] array[r][j] < levels[j],
        t.len() == roles.len(),
        forall|k: int| 0 <= k < roles.len() ==> #[trigger] roles[k].levels.len() <= usize::MAX,
        forall|k: int| 0 <= k < roles.len() ==> #[trigger] t[k] < roles[k].levels.len(),
    ensures
        cells_of(array, levels, tuples(role_dims(roles))).len() == tuple_count(role_dims(roles))
            * array.len(),
        0 <= i < cells_of(array, levels, tuples(role_dims(roles))).len(),
        cells_of(array, levels, tuples(role_dims(roles)))[i] == (CellView {
            factors: array[r],
            roles: t,
        }),
{
    let dims = role_dims(roles);
    assert forall|k: int| 0 <= k < dims.len() implies #[trigger] t[k] < dims[k] by {
        assert(roles[k].levels.len() <= usize::MAX);
    }
    lemma_tuple_index(dims, t);
    let b = tuple_index(dims, t);
    let n = array.len() as int;
    let i = b * n + r;
    vstd::arithmetic::div_mod::lemma_fundamental_div_mod_converse(i, n, b, r);
    assert(b * n + r < tuple_count(dims) * n) by (nonlinear_arith)
        requires
            0 <= b < tuple_count(dims),
            0 <= r < n,
    ;
    assert(0 <= b * n) by (nonlinear_arith)
        requires
            0 <= b,
            0 <= n,
    ;
    assert forall|j: int| 0 <= j < levels.len() implies super::cells::folded(
        array[r],
        levels,
    )[j] == #[trigger] array[r][j] by {
        vstd::arithmetic::div_mod::lemma_small_mod(array[r][j] as nat, levels[j] as nat);
    }
    assert(super::cells::folded(array[r], levels) =~= array[r]);
    i
}

/// The labels in a refusal are those of the terms that are not estimable.
pub proof fn refusals_name_the_terms_that_fail(
    terms: Seq<TermView>,
    names: Seq<Seq<char>>,
    n: nat,
)
    requires
        n <= terms.len(),
    ensures
        Set::new(|t: int| 0 <= t < n && !terms[t].estimable).finite(),
        unmet_labels(terms, names, n).len() == Set::new(
            |t: int| 0 <= t < n && !terms[t].estimable,
        ).len(),
        forall|t: int|
            0 <= t < n && !(#[trigger] terms[t]).estimable ==> unmet_labels(terms, names, n).contains(
                term_label(terms[t].term, names),
            ),
    decreases n,
{
    let now = Set::new(|t: int| 0 <= t < n && !terms[t].estimable);
    if n == 0 {
        assert(now =~= Set::empty());
    } else {
        let m = (n - 1) as nat;
        refusals_name_the_terms_that_fail(terms, names, m);
        let before = Set::new(|t: int| 0 <= t < m && !terms[t].estimable);
        let (list, all) = (unmet_labels(terms, names, m), unmet_labels(terms, names, n));
        if terms[n - 1].estimable {
            assert(now =~= before);
        } else {
            assert(now =~= before.insert(n - 1));
        }
        assert forall|t: int| 0 <= t < n && !(#[trigger] terms[t]).estimable implies all.contains(
            term_label(terms[t].term, names),
        ) by {
            let text = term_label(terms[t].term, names);
            if t == n - 1 {
                assert(all[all.len() - 1] == text);
            } else {
                let k = choose|k: int| 0 <= k < list.len() && list[k] == text;
                assert(all[k] == text);
            }
        }
    }
}

/// A catalog array gives a factor a column of exactly its level count; a Bush array
/// one of as many levels or more. Five thousand assignments are looked at, at most,
/// and all where there are fewer.
pub proof fn columns_serve_their_factors(src: Source, c: Candidate, a: Seq<usize>)
    requires
        c matches Candidate::Catalog { entry } ==> src.catalog[entry as int].columns.len() <= usize::MAX,
        c matches Candidate::Bush { q, k } ==> 0 <= capacity(q as int, k as nat) <= usize::MAX,
    ensures
        !(c is Base || c is Factorial) ==> candidate_assignments(src, c).len() <= 5000,
        c matches Candidate::Catalog { entry } ==> (candidate_assignments(src, c).contains(a)
            ==> a.len() == src.levels.len() && forall|f: int|
            0 <= f < a.len() ==> (#[trigger] a[f]) < src.catalog[entry as int].columns.len()
                && src.catalog[entry as int].columns[a[f] as int] == src.levels[f]),
        c matches Candidate::Bush { q, k } ==> (candidate_assignments(src, c).contains(a) ==> a.len()
            == src.levels.len() && forall|f: int|
            0 <= f < a.len() ==> (#[trigger] a[f]) < capacity(q as int, k as nat) && q
                >= src.levels[f]),
        c matches Candidate::Catalog { entry } ==> candidate_assignments(src, c).len() < 5000 && a.len()
            == src.levels.len() && a.no_duplicates() && (forall|f: int|
            0 <= f < a.len() ==> (#[trigger] a[f]) < src.catalog[entry as int].columns.len()
                && src.catalog[entry as int].columns[a[f] as int] == src.levels[f])
            ==> candidate_assignments(src, c).contains(a),
{
    let list = candidate_assignments(src, c);
    match c {
        Candidate::Catalog { entry } => {
            let columns = src.catalog[entry as int].columns;
            assignments_are_ordered_injections(columns, src.levels, false, 5000);
            if list.contains(a) {
                let i = choose|i: int| 0 <= i < list.len() && list[i] == a;
                assert(is_assignment(columns, src.levels, false, list[i]));
            }
            if a.len() == src.levels.len() && a.no_duplicates() && (forall|f: int|
                0 <= f < a.len() ==> (#[trigger] a[f]) < columns.len() && columns[a[f] as int]
                    == src.levels[f]) {
                assert(is_assignment(columns, src.levels, false, a));
            }
        },
        Candidate::Bush { q, k } => {
            let columns = Seq::new(capacity(q as int, k as nat) as nat, |i: int| q);
            assignments_are_ordered_injections(columns, src.levels, true, 5000);
            if list.contains(a) {
                let i = choose|i: int| 0 <= i < list.len() && list[i] == a;
                assert(is_assignment(columns, src.levels, true, list[i]));
            }
        },
        _ => {},
    }
}

} // verus!
