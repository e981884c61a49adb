//! The search for a design that estimates the requested model.
use vstd::prelude::*;

use super::assign::capped;
use super::candidates::{
    by_rows, candidate_assignments, catalog_candidates, lemma_supplying, candidate_rows, candidate_wf, candidates_ascend, listed,
    ranked_candidates, rows_of, source_of, taken, Candidate, Pool, Source,
};
use super::cells::{
    build_cells, cells_of, df_sum, models_wf, replicate_count, role_dims, roles_fit, term_df,
    union_model, union_of,
};
use super::guard::can_list;
use super::render::{est_wf, render, report_of};
use crate::error::Error;
use crate::factor::{factor_views, Factor, FactorView};
use crate::model::estimability::{
    estimability, lemma_matrix_columns, matrix_columns, ranks_wf, verdict, Estimability,
    EstimabilityView, RankReport, RanksView, TermView,
};
use crate::model::formula::{
    factor_names, main_effects_of, model_views, model_wf, term_label, term_wf, terms_wf, Model, ModelView,
};
use crate::model::matrix::{
    cell_views, is_matrix, model_matrix, role_views, terms_fit, Cell, CellView, ModelMatrix,
    ReplicateRole, RoleView, Unit,
};
use crate::oa::bush::uniform;
use crate::oa::lookup::{entries, supplying, CatalogEntry, EntryView};
use crate::oa::{
    all_methods_spec, build_array, build_message, buildable, built_array_is_unique, counts, declined, first_given, too_few,
    Selected, SelectedView,
};
use crate::text::{decimal, join, push_decimal, separated, views};
use crate::tuples::{lists, tuple_count, tuples};

verus! {

/// Construct-time limits.
#[derive(Debug, Clone, Copy)]
pub struct SelectOpts {
    /// Refuse designs above this many runs, counted after replication.
    pub max_runs: Option<usize>,
    pub min_residual_df: usize,
    /// Keep the smallest candidate even when a requested term is not estimable.
    pub allow_aliased: bool,
}

impl Default for SelectOpts {
    /// No limits.
    fn default() -> (o: SelectOpts)
        ensures
            o.max_runs is None,
            o.min_residual_df == 0,
            !o.allow_aliased,
    {
        SelectOpts { max_runs: None, min_residual_df: 0, allow_aliased: false }
    }
}

/// No candidate design estimates the requested model within the limits. Holds
/// the report of the smallest candidate and the reason.
#[derive(Debug)]
pub struct Refusal(pub String);

/// Why no design is selected.
#[derive(Debug)]
pub enum SelectError {
    /// No base array can be built.
    Build(Error),
    /// No candidate stays within the limits.
    Refused(Refusal),
}

impl SelectError {
    /// The message.
    pub open spec fn text(&self) -> Seq<char> {
        match self {
            SelectError::Build(e) => e@,
            SelectError::Refused(r) => r.0@,
        }
    }

    /// The message.
    pub fn to_text(&self) -> (s: String)
        ensures
            s@ == self.text(),
    {
        match self {
            SelectError::Build(e) => e.to_text(),
            SelectError::Refused(r) => r.0.clone(),
        }
    }
}

/// The chosen design: array, replicated cell list, and what it can estimate.
#[derive(Debug)]
pub struct Selection {
    pub selected: Selected,
    /// Name of the array with the chosen column assignment.
    pub label: String,
    /// Base rows under every combination of replicate levels, block by block.
    pub cells: Vec<Cell>,
    pub estimability: Estimability,
    /// The union of every requested formula's terms; what was checked.
    pub model: Model,
    /// The construct-time report.
    pub report: String,
    /// A design with a term that is not estimable was kept.
    pub aliased: bool,
}

#[verifier::ext_equal]
pub struct SelectionView {
    pub selected: SelectedView,
    pub label: Seq<char>,
    pub cells: Seq<CellView>,
    pub estimability: EstimabilityView,
    pub model: ModelView,
    pub report: Seq<char>,
    pub aliased: bool,
}

impl View for Selection {
    type V = SelectionView;

    open spec fn view(&self) -> SelectionView {
        SelectionView {
            selected: self.selected@,
            label: self.label@,
            cells: cell_views(self.cells@),
            estimability: self.estimability@,
            model: self.model@,
            report: self.report@,
            aliased: self.aliased,
        }
    }
}

/// What is asked for.
#[verifier::ext_equal]
pub struct Request {
    pub factors: Seq<FactorView>,
    pub models: Seq<ModelView>,
    pub roles: Seq<RoleView>,
    pub model: ModelView,
    pub opts: SelectOpts,
    pub src: Source,
}

/// One array to look at.
#[verifier::ext_equal]
pub struct Trial {
    pub selected: SelectedView,
    pub over: bool,
}

/// Number of replicates of every row.
pub open spec fn replicates(req: Request) -> nat {
    tuple_count(role_dims(req.roles))
}

/// The cells of an array.
pub open spec fn trial_cells(req: Request, s: SelectedView) -> Seq<CellView> {
    cells_of(s.array, req.src.levels, tuples(role_dims(req.roles)))
}

/// What an array estimates, given its ranks.
pub open spec fn trial_verdict(req: Request, s: SelectedView, ranks: RanksView) -> EstimabilityView {
    verdict(
        matrix_columns(req.factors, req.roles, req.model.terms),
        trial_cells(req, s).len(),
        req.model.terms,
        req.factors,
        ranks,
    )
}

/// `ranks` is an answer of the probe on the matrix of an array.
pub open spec fn probed<P: Fn(&ModelMatrix) -> RankReport>(
    probe: P,
    req: Request,
    s: SelectedView,
    ranks: RankReport,
) -> bool {
    exists|mm: ModelMatrix| #[trigger]
        call_ensures(probe, (&mm,), ranks) && is_matrix(
            mm,
            req.factors,
            req.roles,
            req.model.terms,
            trial_cells(req, s),
            None,
        )
}

/// Fewer rows cannot carry the model and the residual degrees of freedom.
pub open spec fn floor_of(req: Request) -> nat {
    1 + df_sum(req.model.terms, req.factors, req.model.terms.len()) + req.opts.min_residual_df as nat
}

/// More runs than allowed.
pub open spec fn over_max(req: Request, runs: nat) -> bool {
    req.opts.max_runs matches Some(max) && runs > max
}

/// The arrays of a candidate; of one that is too large only the first.
pub open spec fn candidate_trials(req: Request, c: Candidate) -> Seq<Trial> {
    let over = over_max(req, rows_of(req.src, c) * replicates(req));
    let list = candidate_assignments(req.src, c);
    (if over {
        capped(list, 1)
    } else {
        list
    }).map_values(|a: Seq<usize>| Trial { selected: taken(req.src, c, a), over })
}

/// All arrays that the first `n` candidates give to look at. Once one array is
/// on record, candidates that are too large or too small are passed over.
pub open spec fn trials(req: Request, cands: Seq<Candidate>, n: nat) -> Seq<Trial>
    decreases n,
{
    if n == 0 {
        Seq::empty()
    } else {
        let before = trials(req, cands, (n - 1) as nat);
        let c = cands[n - 1];
        let runs = rows_of(req.src, c) * replicates(req);
        if runs > usize::MAX {
            before
        } else if before.len() > 0 && (over_max(req, runs) || runs < floor_of(req)) {
            before
        } else {
            before + candidate_trials(req, c)
        }
    }
}

/// All arrays to look at, in order.
pub open spec fn all_trials(req: Request) -> Seq<Trial> {
    let cands = by_rows(req.src, listed(req.src));
    trials(req, cands, cands.len())
}

/// Every term is estimable.
pub open spec fn estimates_all(e: EstimabilityView) -> bool {
    forall|t: int| 0 <= t < e.terms.len() ==> (#[trigger] e.terms[t]).estimable
}

/// The array is within the limits and estimates every term.
pub open spec fn wins(req: Request, t: Trial, ranks: RanksView) -> bool {
    let e = trial_verdict(req, t.selected, ranks);
    !t.over && estimates_all(e) && e.residual_df >= req.opts.min_residual_df
}

/// The report on an array.
pub open spec fn trial_report(req: Request, s: SelectedView, e: EstimabilityView) -> Seq<char> {
    report_of(
        factor_names(req.factors),
        req.models,
        req.model,
        s.label,
        req.roles,
        e,
        trial_cells(req, s).len(),
    )
}

/// The selection of an array.
pub open spec fn chosen(req: Request, s: SelectedView, ranks: RanksView) -> SelectionView {
    let e = trial_verdict(req, s, ranks);
    SelectionView {
        selected: s,
        label: s.label,
        cells: trial_cells(req, s),
        estimability: e,
        model: req.model,
        report: trial_report(req, s, e),
        aliased: false,
    }
}

/// The labels of the terms that are not estimable, among the first `n`.
pub open spec fn unmet_labels(terms: Seq<TermView>, names: Seq<Seq<char>>, n: nat) -> Seq<Seq<char>>
    decreases n,
{
    if n == 0 {
        Seq::empty()
    } else {
        let before = unmet_labels(terms, names, (n - 1) as nat);
        if terms[n - 1].estimable {
            before
        } else {
            before.push(term_label(terms[n - 1].term, names))
        }
    }
}

/// Why the smallest candidate is not good enough.
pub open spec fn reason_of(req: Request, e: EstimabilityView, runs: nat) -> Seq<char> {
    let unmet = unmet_labels(e.terms, factor_names(req.factors), e.terms.len());
    if over_max(req, runs) {
        "the smallest candidate is "@ + decimal(runs) + " runs, above --max-runs "@ + decimal(
            req.opts.max_runs->0 as nat,
        )
    } else if unmet.len() == 0 {
        "no candidate design reaches residual df "@ + decimal(req.opts.min_residual_df as nat)
            + " within the limits"@
    } else {
        "no candidate design within the limits estimates: "@ + separated(unmet, ", "@)
    }
}

/// What the user can do about it.
pub open spec fn advice_of(req: Request, runs: nat) -> Seq<char> {
    if over_max(req, runs) {
        "Raise --max-runs, or ask for a model the budget can carry."@
    } else {
        "Raise --max-runs, add --replicate, relax --min-residual-df, or pass --allow-aliased to write it anyway."@
    }
}

/// What becomes of the smallest candidate where no array wins: it is kept if
/// that is allowed and the run budget carries it, and refused otherwise.
pub open spec fn fallback(req: Request, s: SelectedView, ranks: RanksView) -> Result<
    SelectionView,
    Seq<char>,
> {
    let e = trial_verdict(req, s, ranks);
    let runs = trial_cells(req, s).len();
    let report = trial_report(req, s, e);
    let reason = reason_of(req, e, runs);
    if req.opts.allow_aliased && !over_max(req, runs) {
        Ok(
            SelectionView {
                report: report + "warning: "@ + reason + "; --allow-aliased kept it\n"@,
                aliased: true,
                ..chosen(req, s, ranks)
            },
        )
    } else {
        Err(report + "refused: "@ + reason + ". "@ + advice_of(req, runs))
    }
}

/// The first answers of the probe, none of which wins but perhaps the last, and
/// the result that they lead to.
pub open spec fn ended<P: Fn(&ModelMatrix) -> RankReport>(
    probe: P,
    req: Request,
    answers: Seq<RankReport>,
    r: Result<SelectionView, Seq<char>>,
) -> bool {
    let list = all_trials(req);
    let last = answers.len() - 1;
    &&& 0 < answers.len() <= list.len()
    &&& forall|i: int|
        0 <= i < answers.len() ==> probed(probe, req, list[i].selected, #[trigger] answers[i])
    &&& forall|i: int| 0 <= i < last ==> !wins(req, list[i], (#[trigger] answers[i])@)
    &&& if wins(req, list[last], answers[last]@) {
        r == Ok::<SelectionView, Seq<char>>(chosen(req, list[last].selected, answers[last]@))
    } else {
        answers.len() == list.len() && r == fallback(req, list[0].selected, answers[0]@)
    }
}

/// `r` is a result of the search: some answers of the probe lead to it.
pub open spec fn searched<P: Fn(&ModelMatrix) -> RankReport>(
    probe: P,
    req: Request,
    r: Result<SelectionView, Seq<char>>,
) -> bool {
    exists|answers: Seq<RankReport>| #[trigger] ended(probe, req, answers, r)
}

/// The limits allow the array that is built without a model.
pub open spec fn within_limits(req: Request, ranks: RanksView) -> bool {
    !over_max(req, trial_cells(req, req.src.base).len()) && trial_verdict(
        req,
        req.src.base,
        ranks,
    ).residual_df >= req.opts.min_residual_df
}

/// `r` is what the request leads to. With no formula the base array is kept so
/// long as the limits allow it; otherwise the search decides.
pub open spec fn resolved<P: Fn(&ModelMatrix) -> RankReport>(
    probe: P,
    req: Request,
    r: Result<SelectionView, Seq<char>>,
) -> bool {
    if req.models.len() == 0 {
        exists|first: RankReport|
            {
                &&& #[trigger] probed(probe, req, req.src.base, first)
                &&& if within_limits(req, first@) {
                    r == Ok::<SelectionView, Seq<char>>(chosen(req, req.src.base, first@))
                } else {
                    searched(probe, req, r)
                }
            }
    } else {
        searched(probe, req, r)
    }
}

/// The request for a base array.
pub open spec fn request_of(
    factors: Seq<Factor>,
    models: Seq<Model>,
    roles: Seq<ReplicateRole>,
    opts: SelectOpts,
    catalog: Seq<CatalogEntry>,
    base: SelectedView,
) -> Request {
    Request {
        factors: factor_views(factors),
        models: model_views(models),
        roles: role_views(roles),
        model: union_of(model_views(models), factor_names(factor_views(factors))),
        opts,
        src: Source { levels: counts(factors), catalog: entries(catalog), base },
    }
}

/// The request can be worked on: the factors have levels, the terms name them,
/// and the sizes that are computed fit the machine.
pub open spec fn request_wf(req: Request) -> bool {
    &&& models_wf(req.models, req.factors.len())
    &&& forall|f: int| 0 <= f < req.factors.len() ==> (#[trigger] req.factors[f]).values.len() > 0
    &&& roles_fit(req.roles)
    &&& terms_fit(req.model.terms, req.factors)
}

/// Candidates can be listed for the request: the fields that they need exist, and
/// the rows that the model needs fit the machine.
pub open spec fn listable(req: Request) -> bool {
    &&& floor_of(req) <= usize::MAX
    &&& uniform(req.src.levels) ==> req.src.levels.len() > 0 ==> req.src.levels[0] <= 49
        && req.src.levels.len() * 2401 <= usize::MAX
}

/// No candidates are listed for the request: it has no formula, and the limits
/// allow the base array.
pub open spec fn spared<P: Fn(&ModelMatrix) -> RankReport>(probe: P, req: Request) -> bool {
    req.models.len() == 0 && forall|first: RankReport| #[trigger]
        probed(probe, req, req.src.base, first) ==> within_limits(req, first@)
}

/// The request takes candidates, and none can be listed for it.
pub open spec fn unlisted<P: Fn(&ModelMatrix) -> RankReport>(probe: P, req: Request) -> bool {
    !listable(req) && (req.models.len() == 0 ==> exists|first: RankReport| #[trigger]
        probed(probe, req, req.src.base, first) && !within_limits(req, first@))
}

/// The request can be worked on to its end: candidates can be listed for it, or
/// none are, and the cells of the base array fit the machine.
pub open spec fn workable<P: Fn(&ModelMatrix) -> RankReport>(probe: P, req: Request) -> bool {
    &&& request_wf(req)
    &&& listable(req) || spared(probe, req)
    &&& req.src.base.array.len() * replicates(req) <= usize::MAX
}

/// Every answer of the probe speaks of the matrix that it was given.
pub open spec fn probe_wf<P: Fn(&ModelMatrix) -> RankReport>(probe: P, terms: nat) -> bool {
    &&& forall|mm: &ModelMatrix| #[trigger] call_requires(probe, (mm,))
    &&& forall|mm: &ModelMatrix, r: RankReport| #[trigger]
        call_ensures(probe, (mm,), r) ==> ranks_wf(
            r@,
            mm.columns@.len(),
            mm.data@.len(),
            terms,
        )
}

/// No selection has more runs than allowed, whatever else is waived.
pub proof fn max_runs_is_absolute<P: Fn(&ModelMatrix) -> RankReport>(
    probe: P,
    req: Request,
    sel: SelectionView,
    max: usize,
)
    requires
        resolved(probe, req, Ok(sel)),
        req.opts.max_runs == Some(max),
        catalog_wf(req.src.catalog),
        req.src.catalog.len() <= usize::MAX,
    ensures
        sel.cells.len() <= max,
{
    if req.models.len() == 0 && exists|first: RankReport| #[trigger]
        probed(probe, req, req.src.base, first) && within_limits(req, first@) && Ok::<
            SelectionView,
            Seq<char>,
        >(sel) == Ok::<SelectionView, Seq<char>>(chosen(req, req.src.base, first@)) {
    } else {
        let answers = choose|answers: Seq<RankReport>| #[trigger] ended(probe, req, answers, Ok(sel));
        let list = all_trials(req);
        let last = answers.len() - 1;
        if wins(req, list[last], answers[last]@) {
            let cands = by_rows(req.src, listed(req.src));
            lemma_catalog_entries(req);
            lemma_trials_measured(req, cands, cands.len(), last);
        }
    }
}

/// Every catalog entry has the rows that it records.
pub open spec fn catalog_wf(catalog: Seq<EntryView>) -> bool {
    forall|i: int| 0 <= i < catalog.len() ==> (#[trigger] catalog[i]).array.len() == catalog[i].n_runs
}

proof fn lemma_candidate_measured(req: Request, c: Candidate, i: int)
    requires
        catalog_wf(req.src.catalog),
        c matches Candidate::Catalog { entry } ==> entry < req.src.catalog.len(),
        0 <= i < candidate_trials(req, c).len(),
    ensures
        candidate_trials(req, c)[i].over == over_max(
            req,
            trial_cells(req, candidate_trials(req, c)[i].selected).len(),
        ),
{
    let s = candidate_trials(req, c)[i].selected;
    assert(s.array.len() == rows_of(req.src, c));
    let (x, y) = (s.array.len() as int, replicates(req) as int);
    assert(x * y == y * x) by (nonlinear_arith);
}

pub proof fn lemma_trials_measured(req: Request, cands: Seq<Candidate>, n: nat, i: int)
    requires
        catalog_wf(req.src.catalog),
        n <= cands.len(),
        forall|k: int|
            0 <= k < cands.len() ==> ((#[trigger] cands[k]) matches Candidate::Catalog { entry }
                ==> entry < req.src.catalog.len()),
        0 <= i < trials(req, cands, n).len(),
    ensures
        trials(req, cands, n)[i].over == over_max(
            req,
            trial_cells(req, trials(req, cands, n)[i].selected).len(),
        ),
    decreases n,
{
    let before = trials(req, cands, (n - 1) as nat);
    if i < before.len() {
        lemma_trials_measured(req, cands, (n - 1) as nat, i);
    } else {
        lemma_candidate_measured(req, cands[n - 1], i - before.len());
    }
}

pub proof fn lemma_catalog_candidates(src: Source, positions: Seq<int>, n: nat)
    requires
        n <= positions.len(),
        src.catalog.len() <= usize::MAX,
        forall|k: int| 0 <= k < positions.len() ==> 0 <= #[trigger] positions[k] < src.catalog.len(),
    ensures
        forall|k: int|
            0 <= k < catalog_candidates(src, positions, n).len() ==> (
            (#[trigger] catalog_candidates(src, positions, n)[k]) matches Candidate::Catalog { entry }
                && entry < src.catalog.len()),
    decreases n,
{
    if n > 0 {
        lemma_catalog_candidates(src, positions, (n - 1) as nat);
        let before = catalog_candidates(src, positions, (n - 1) as nat);
        let all = catalog_candidates(src, positions, n);
        assert forall|k: int| 0 <= k < all.len() implies ((#[trigger] all[k]) matches Candidate::Catalog {
            entry,
        } && entry < src.catalog.len()) by {
            if k < before.len() {
                assert(all[k] == before[k]);
            }
        }
    }
}

/// A selection for requested formulas that is not marked as aliased estimates
/// every term and leaves the residual degrees of freedom asked for.
pub proof fn selection_estimates_all<P: Fn(&ModelMatrix) -> RankReport>(
    probe: P,
    req: Request,
    sel: SelectionView,
)
    requires
        resolved(probe, req, Ok(sel)),
        req.models.len() > 0,
        !sel.aliased,
    ensures
        estimates_all(sel.estimability),
        sel.estimability.residual_df >= req.opts.min_residual_df,
{
    let answers = choose|answers: Seq<RankReport>| #[trigger] ended(probe, req, answers, Ok(sel));
    let list = all_trials(req);
    let last = answers.len() - 1;
    assert(wins(req, list[last], answers[last]@));
}

/// The chosen design has the fewest rows that the search allows: every array
/// that was looked at before it does not win.
pub proof fn earlier_arrays_do_not_win<P: Fn(&ModelMatrix) -> RankReport>(
    probe: P,
    req: Request,
    answers: Seq<RankReport>,
    r: Result<SelectionView, Seq<char>>,
    i: int,
)
    requires
        ended(probe, req, answers, r),
        0 <= i < answers.len() - 1,
    ensures
        !wins(req, all_trials(req)[i], answers[i]@),
        probed(probe, req, all_trials(req)[i].selected, answers[i]),
{
    assert(!wins(req, all_trials(req)[i], answers[i]@));
}

proof fn lemma_trials_ascend(req: Request, cands: Seq<Candidate>, n: nat)
    requires
        catalog_wf(req.src.catalog),
        n <= cands.len(),
        forall|k: int|
            0 <= k < cands.len() ==> ((#[trigger] cands[k]) matches Candidate::Catalog { entry }
                ==> entry < req.src.catalog.len()),
        forall|i: int, j: int|
            0 <= i < j < cands.len() ==> rows_of(req.src, #[trigger] cands[i]) <= rows_of(
                req.src,
                #[trigger] cands[j],
            ),
    ensures
        forall|i: int|
            0 <= i < trials(req, cands, n).len() ==> n > 0 && (#[trigger] trials(
                req,
                cands,
                n,
            )[i]).selected.array.len() <= rows_of(req.src, cands[n - 1]),
        forall|i: int, j: int|
            0 <= i < j < trials(req, cands, n).len() ==> (#[trigger] trials(
                req,
                cands,
                n,
            )[i]).selected.array.len() <= (#[trigger] trials(
                req,
                cands,
                n,
            )[j]).selected.array.len(),
    decreases n,
{
    if n > 0 {
        lemma_trials_ascend(req, cands, (n - 1) as nat);
        let before = trials(req, cands, (n - 1) as nat);
        let all = trials(req, cands, n);
        let c = cands[n - 1];
        let rows = rows_of(req.src, c);
        assert forall|i: int| 0 <= i < all.len() implies (#[trigger] all[i]).selected.array.len()
            <= rows && (i >= before.len() ==> all[i].selected.array.len() == rows) by {
            if i < before.len() {
                assert(all[i] == before[i]);
                assert(rows_of(req.src, cands[n - 2]) <= rows_of(req.src, cands[n - 1]));
            } else {
                assert(all[i] == candidate_trials(req, c)[i - before.len()]);
            }
        }
        assert forall|i: int, j: int| 0 <= i < j < all.len() implies (
        #[trigger] all[i]).selected.array.len() <= (#[trigger] all[j]).selected.array.len() by {
            if j < before.len() {
                assert(all[i] == before[i] && all[j] == before[j]);
            }
        }
    }
}

/// Arrays are looked at by ascending size: the first, which is kept or refused
/// where none wins, is the smallest.
pub proof fn arrays_ascend(req: Request, i: int, j: int)
    requires
        catalog_wf(req.src.catalog),
        req.src.catalog.len() <= usize::MAX,
        0 <= i < j < all_trials(req).len(),
    ensures
        all_trials(req)[i].selected.array.len() <= all_trials(req)[j].selected.array.len(),
{
    let src = req.src;
    let cands = by_rows(src, listed(src));
    lemma_catalog_entries(req);
    candidates_ascend(src, listed(src));
    lemma_trials_ascend(req, cands, cands.len());
}

/// Every catalog candidate names an entry of the catalog.
pub proof fn lemma_catalog_entries(req: Request)
    requires
        req.src.catalog.len() <= usize::MAX,
    ensures
        forall|k: int|
            0 <= k < by_rows(req.src, listed(req.src)).len() ==> ((#[trigger] by_rows(
                req.src,
                listed(req.src),
            )[k]) matches Candidate::Catalog { entry } ==> entry < req.src.catalog.len()),
{
    let src = req.src;
    let cands = by_rows(src, listed(src));
    let positions = supplying(src.catalog, src.levels, src.catalog.len());
    lemma_supplying(src.catalog, src.levels, src.catalog.len());
    lemma_catalog_candidates(src, positions, positions.len());
    candidates_ascend(src, listed(src));
    assert forall|k: int| 0 <= k < cands.len() implies ((
    #[trigger] cands[k]) matches Candidate::Catalog { entry } ==> entry < src.catalog.len()) by {
        assert(cands.contains(cands[k]));
        assert(listed(src).contains(cands[k]));
        let m = choose|m: int| 0 <= m < listed(src).len() && listed(src)[m] == cands[k];
        let part = catalog_candidates(src, positions, positions.len());
        if 1 <= m < 1 + part.len() {
            assert(part[m - 1] == cands[k]);
        }
    }
}

/// Without formulas and without limits the array that is built for the factors is
/// the design.
pub proof fn unmodelled_designs_keep_the_array<P: Fn(&ModelMatrix) -> RankReport>(
    probe: P,
    req: Request,
    r: Result<SelectionView, Seq<char>>,
)
    requires
        resolved(probe, req, r),
        req.models.len() == 0,
        req.opts.max_runs is None,
        req.opts.min_residual_df == 0,
    ensures
        r matches Ok(sel) && sel.selected == req.src.base && sel.cells == trial_cells(
            req,
            req.src.base,
        ) && sel.model == req.model && !sel.aliased,
{
}

/// `sel` is the array with its cells, under the model of all main effects, whether
/// or not it estimates them.
pub open spec fn kept_as_built(
    sel: SelectionView,
    built: SelectedView,
    factors: Seq<Factor>,
    roles: Seq<ReplicateRole>,
) -> bool {
    &&& sel.selected == built
    &&& sel.cells == cells_of(built.array, counts(factors), tuples(role_dims(role_views(roles))))
    &&& sel.model == main_effects_of(factor_names(factor_views(factors)))
    &&& !sel.aliased
}

/// Without formulas and without limits, what is selected is the array that is
/// built for the factors, with its cells and the model of all main effects.
pub proof fn unmodelled_requests_get_the_built_array<P: Fn(&ModelMatrix) -> RankReport>(
    probe: P,
    factors: Seq<Factor>,
    models: Seq<Model>,
    roles: Seq<ReplicateRole>,
    opts: SelectOpts,
    catalog: Seq<CatalogEntry>,
    built: Selected,
    base: Selected,
    r: Result<SelectionView, Seq<char>>,
)
    requires
        models.len() == 0,
        opts.max_runs is None,
        opts.min_residual_df == 0,
        first_given(all_methods_spec(), entries(catalog), counts(factors), built),
        first_given(all_methods_spec(), entries(catalog), counts(factors), base),
        resolved(probe, request_of(factors, models, roles, opts, catalog, base@), r),
    ensures
        r matches Ok(sel) && kept_as_built(sel, built@, factors, roles),
{
    let req = request_of(factors, models, roles, opts, catalog, base@);
    assert(model_views(models).len() == 0);
    unmodelled_designs_keep_the_array(probe, req, r);
    built_array_is_unique(all_methods_spec(), entries(catalog), counts(factors), built, base);
}

// ===== Execution =====

spec fn inputs_of(
    req: Request,
    factors: Seq<Factor>,
    models: Seq<Model>,
    roles: Seq<ReplicateRole>,
    model: Model,
    opts: SelectOpts,
) -> bool {
    &&& req.factors == factor_views(factors)
    &&& req.models == model_views(models)
    &&& req.roles == role_views(roles)
    &&& req.model == model@
    &&& req.opts == opts
    &&& req.src.levels == counts(factors)
    &&& model_wf(model@, factors.len())
    &&& request_wf(req)
}

/// The cells of an array and what it estimates.
fn evaluate<P: Fn(&ModelMatrix) -> RankReport>(
    selected: &Selected,
    factors: &[Factor],
    models: &[Model],
    roles: &[ReplicateRole],
    model: &Model,
    opts: &SelectOpts,
    probe: &P,
    Ghost(req): Ghost<Request>,
) -> (r: (Vec<Cell>, Estimability, Ghost<RankReport>))
    requires
        inputs_of(req, factors@, models@, roles@, *model, *opts),
        probe_wf(*probe, req.model.terms.len()),
        selected.wf(),
        selected.column_levels@.len() == factors@.len(),
    ensures
        cell_views(r.0@) == trial_cells(req, selected@),
        r.1@ == trial_verdict(req, selected@, r.2@@),
        probed(*probe, req, selected@, r.2@),
        est_wf(r.1@, factors@.len()),
{
    proof {
        assert forall|f: int| 0 <= f < factors@.len() implies (#[trigger] factors@[f]).values@.len()
            > 0 by {
            assert(req.factors[f] == factors@[f]@);
        }
    }
    let cells: Vec<Cell> = build_cells(selected, factors, roles);
    let mm: ModelMatrix = model_matrix(factors, roles, model, &cells, None);
    let ranks: RankReport = probe(&mm);
    proof {
        assert forall|f: int| 0 <= f < req.factors.len() implies 0 < (
        #[trigger] req.factors[f]).values.len() <= usize::MAX by {
            assert(req.factors[f] == factors@[f]@);
            assert(factors@[f].values.len() <= usize::MAX);
        }
        assert(model.terms.len() <= usize::MAX);
        lemma_matrix_columns(mm, req.factors, req.roles, req.model.terms, cell_views(cells@));
        assert(call_ensures(*probe, (&mm,), ranks));
        assert(ranks_wf(ranks@, mm.columns@.len(), mm.data@.len(), req.model.terms.len()));
    }
    let est: Estimability = estimability(&mm, model, factors, &ranks);
    proof {
        assert(mm.data@.len() == trial_cells(req, selected@).len());
        assert forall|t: int| 0 <= t < est@.terms.len() implies term_wf(
            (#[trigger] est@.terms[t]).term,
            factors@.len(),
        ) by {
            assert(term_wf(req.model.terms[t], factors@.len()));
        }
    }
    let ghost answer = ranks;
    (cells, est, Ghost(answer))
}

fn all_estimable(est: &Estimability) -> (r: bool)
    ensures
        r == estimates_all(est@),
{
    let mut i: usize = 0;
    while i < est.terms.len()
        invariant
            i <= est.terms@.len(),
            forall|t: int| 0 <= t < i ==> (#[trigger] est@.terms[t]).estimable,
        decreases est.terms@.len() - i,
    {
        assert(est@.terms[i as int] == est.terms@[i as int]@);
        if !est.terms[i].estimable {
            return false;
        }
        i = i + 1;
    }
    true
}

fn exceeds(opts: &SelectOpts, runs: usize) -> (r: bool)
    ensures
        r == (opts.max_runs matches Some(max) && runs > max),
{
    match opts.max_runs {
        Some(max) => runs > max,
        None => false,
    }
}

fn conclude(
    selected: Selected,
    cells: Vec<Cell>,
    est: Estimability,
    factors: &[Factor],
    models: &[Model],
    roles: &[ReplicateRole],
    model: &Model,
    opts: &SelectOpts,
    Ghost(req): Ghost<Request>,
    Ghost(ranks): Ghost<RanksView>,
) -> (sel: Selection)
    requires
        inputs_of(req, factors@, models@, roles@, *model, *opts),
        cell_views(cells@) == trial_cells(req, selected@),
        est@ == trial_verdict(req, selected@, ranks),
        est_wf(est@, factors@.len()),
    ensures
        sel@ == chosen(req, selected@, ranks),
{
    assert(cell_views(cells@).len() == cells@.len());
    let report: String = render(
        factors,
        models,
        model,
        selected.info.label.as_str(),
        roles,
        &est,
        cells.len(),
    );
    let label: String = selected.info.label.clone();
    let sel: Selection = Selection {
        selected,
        label,
        cells,
        estimability: est,
        model: model.copy(),
        report,
        aliased: false,
    };
    assert(sel@ =~= chosen(req, selected@, ranks));
    sel
}

fn unmet_list(est: &Estimability, factors: &[Factor]) -> (out: Vec<String>)
    requires
        est_wf(est@, factors@.len()),
    ensures
        views(out@) == unmet_labels(
            est@.terms,
            factor_names(factor_views(factors@)),
            est@.terms.len(),
        ),
{
    let ghost names = factor_names(factor_views(factors@));
    let mut out: Vec<String> = Vec::new();
    assert(views(out@) =~= Seq::empty());
    let mut i: usize = 0;
    while i < est.terms.len()
        invariant
            i <= est.terms@.len(),
            est_wf(est@, factors@.len()),
            names == factor_names(factor_views(factors@)),
            views(out@) == unmet_labels(est@.terms, names, i as nat),
        decreases est.terms@.len() - i,
    {
        assert(est@.terms[i as int] == est.terms@[i as int]@);
        assert(term_wf(est@.terms[i as int].term, factors@.len()));
        if !est.terms[i].estimable {
            let ghost before = views(out@);
            let label: String = est.terms[i].term.label(factors);
            let ghost v = label@;
            out.push(label);
            assert(views(out@) =~= before.push(v));
        }
        i = i + 1;
    }
    out
}

fn reason_text(
    est: &Estimability,
    runs: usize,
    factors: &[Factor],
    opts: &SelectOpts,
    Ghost(req): Ghost<Request>,
) -> (s: String)
    requires
        req.factors == factor_views(factors@),
        req.opts == *opts,
        est_wf(est@, factors@.len()),
    ensures
        s@ == reason_of(req, est@, runs as nat),
{
    let mut s: String = String::new();
    match opts.max_runs {
        Some(max) => {
            if runs > max {
                s.append("the smallest candidate is ");
                push_decimal(&mut s, runs as u64);
                s.append(" runs, above --max-runs ");
                push_decimal(&mut s, max as u64);
                assert(s@ =~= reason_of(req, est@, runs as nat));
                return s;
            }
        },
        None => {},
    }
    let unmet: Vec<String> = unmet_list(est, factors);
    assert(views(unmet@).len() == unmet@.len());
    if unmet.len() == 0 {
        s.append("no candidate design reaches residual df ");
        push_decimal(&mut s, opts.min_residual_df as u64);
        s.append(" within the limits");
    } else {
        s.append("no candidate design within the limits estimates: ");
        let list: String = join(&unmet, ", ");
        s.append(list.as_str());
    }
    assert(s@ =~= reason_of(req, est@, runs as nat));
    s
}

/// What becomes of the smallest candidate where no array wins.
fn fall_back(
    selected: Selected,
    cells: Vec<Cell>,
    est: Estimability,
    factors: &[Factor],
    models: &[Model],
    roles: &[ReplicateRole],
    model: &Model,
    opts: &SelectOpts,
    Ghost(req): Ghost<Request>,
    Ghost(ranks): Ghost<RanksView>,
) -> (r: Result<Selection, Refusal>)
    requires
        inputs_of(req, factors@, models@, roles@, *model, *opts),
        cell_views(cells@) == trial_cells(req, selected@),
        est@ == trial_verdict(req, selected@, ranks),
        est_wf(est@, factors@.len()),
    ensures
        match r {
            Ok(sel) => fallback(req, selected@, ranks) == Ok::<SelectionView, Seq<char>>(sel@),
            Err(e) => fallback(req, selected@, ranks) == Err::<SelectionView, Seq<char>>(e.0@),
        },
{
    assert(cell_views(cells@).len() == cells@.len());
    let runs: usize = cells.len();
    let reason: String = reason_text(&est, runs, factors, opts, Ghost(req));
    let over: bool = exceeds(opts, runs);
    let mut sel: Selection = conclude(
        selected,
        cells,
        est,
        factors,
        models,
        roles,
        model,
        opts,
        Ghost(req),
        Ghost(ranks),
    );
    let ghost plain = sel@;
    let mut report: String = sel.report.clone();
    if opts.allow_aliased && !over {
        report.append("warning: ");
        report.append(reason.as_str());
        report.append("; --allow-aliased kept it\n");
        sel.report = report;
        sel.aliased = true;
        let ghost want = fallback(req, selected@, ranks)->Ok_0;
        assert(sel@ =~= want);
        return Ok(sel);
    }
    report.append("refused: ");
    report.append(reason.as_str());
    report.append(". ");
    if over {
        report.append("Raise --max-runs, or ask for a model the budget can carry.");
    } else {
        report.append(
            "Raise --max-runs, add --replicate, relax --min-residual-df, or pass --allow-aliased to write it anyway.",
        );
    }
    assert(report@ =~= fallback(req, selected@, ranks)->Err_0);
    Err(Refusal(report))
}

/// Degrees of freedom of a model with its intercept and the residual that is
/// asked for.
fn floor(model: &Model, factors: &[Factor], opts: &SelectOpts, Ghost(req): Ghost<Request>) -> (n:
    usize)
    requires
        req.factors == factor_views(factors@),
        req.model == model@,
        req.opts == *opts,
        terms_wf(model@.terms, factors@.len()),
        request_wf(req),
        listable(req),
    ensures
        n == floor_of(req),
{
    let mut n: usize = 0;
    let mut t: usize = 0;
    while t < model.terms.len()
        invariant
            t <= model.terms@.len(),
            req.factors == factor_views(factors@),
            req.model == model@,
            terms_wf(model@.terms, factors@.len()),
            request_wf(req),
            listable(req),
            n == df_sum(model@.terms, req.factors, t as nat),
        decreases model.terms@.len() - t,
    {
        assert(model@.terms[t as int] == model.terms@[t as int]@);
        assert(term_wf(model@.terms[t as int], factors@.len()));
        proof {
            assert forall|f: int| 0 <= f < factors@.len() implies (
            #[trigger] factors@[f]).values@.len() > 0 by {
                assert(req.factors[f] == factors@[f]@);
            }
            lemma_df_sum(model@.terms, req.factors, (t + 1) as nat, model@.terms.len());
        }
        n = n + term_df(&model.terms[t], factors);
        t = t + 1;
    }
    1 + n + opts.min_residual_df
}

/// More terms have no fewer degrees of freedom.
pub proof fn lemma_df_sum(terms: Seq<Seq<usize>>, factors: Seq<FactorView>, a: nat, b: nat)
    requires
        a <= b,
    ensures
        df_sum(terms, factors, a) <= df_sum(terms, factors, b),
    decreases b - a,
{
    if a < b {
        lemma_df_sum(terms, factors, a, (b - 1) as nat);
    }
}

/// A candidate with the base array gives a trial unless one is on record.
proof fn lemma_base_gives_trial(req: Request, cands: Seq<Candidate>, n: nat)
    requires
        0 < n <= cands.len(),
        cands[n - 1] == Candidate::Base,
        req.src.base.array.len() * replicates(req) <= usize::MAX,
    ensures
        trials(req, cands, n).len() > 0,
{
    let list = candidate_assignments(req.src, Candidate::Base);
    assert(list.len() == 1);
    assert(candidate_trials(req, Candidate::Base).len() == 1);
}

pub proof fn lemma_trials_grow(req: Request, cands: Seq<Candidate>, a: nat, b: nat)
    requires
        a <= b,
    ensures
        trials(req, cands, a).len() <= trials(req, cands, b).len(),
        forall|i: int|
            0 <= i < trials(req, cands, a).len() ==> #[trigger] trials(req, cands, b)[i] == trials(
                req,
                cands,
                a,
            )[i],
    decreases b - a,
{
    if a < b {
        lemma_trials_grow(req, cands, a, (b - 1) as nat);
    }
}

/// Looks at the arrays of the candidates in turn.
#[verifier::rlimit(60)]
#[verifier::spinoff_prover]
fn search<P: Fn(&ModelMatrix) -> RankReport>(
    base: &Selected,
    factors: &[Factor],
    models: &[Model],
    roles: &[ReplicateRole],
    model: &Model,
    opts: &SelectOpts,
    catalog: &[CatalogEntry],
    probe: &P,
    Ghost(req): Ghost<Request>,
) -> (r: Result<Selection, Refusal>)
    requires
        inputs_of(req, factors@, models@, roles@, *model, *opts),
        listable(req),
        probe_wf(*probe, req.model.terms.len()),
        source_of(req.src, factors@, catalog@, *base),
        factors@.len() > 0,
        base.array@.len() * replicates(req) <= usize::MAX,
    ensures
        match r {
            Ok(sel) => searched(*probe, req, Ok::<SelectionView, Seq<char>>(sel@)),
            Err(e) => searched(*probe, req, Err::<SelectionView, Seq<char>>(e.0@)),
        },
{
    let ghost src = req.src;
    let cands: Vec<Candidate> = ranked_candidates(factors, catalog, base, Ghost(src));
    let least: usize = floor(model, factors, opts, Ghost(req));
    let times: usize = replicate_count(roles);
    let ghost all = all_trials(req);
    proof {
        assert(all == trials(req, cands@, cands@.len()));
    }
    let mut smallest: Option<(Selected, Vec<Cell>, Estimability)> = None;
    let ghost mut answers = Seq::<RankReport>::empty();
    let mut n: usize = 0;
    while n < cands.len()
        invariant
            n <= cands@.len(),
            inputs_of(req, factors@, models@, roles@, *model, *opts),
            probe_wf(*probe, req.model.terms.len()),
            source_of(src, factors@, catalog@, *base),
            src == req.src,
            all == all_trials(req),
            all == trials(req, cands@, cands@.len()),
            least == floor_of(req),
            times == replicates(req),
            base.array@.len() * replicates(req) <= usize::MAX,
            forall|i: int| 0 <= i < cands@.len() ==> candidate_wf(src, #[trigger] cands@[i]),
            answers.len() == trials(req, cands@, n as nat).len(),
            forall|i: int|
                0 <= i < answers.len() ==> probed(
                    *probe,
                    req,
                    all[i].selected,
                    #[trigger] answers[i],
                ) && !wins(req, all[i], answers[i]@),
            smallest is Some <==> answers.len() > 0,
            smallest matches Some((s, cells, est)) ==> s@ == all[0].selected && cell_views(cells@)
                == trial_cells(req, s@) && est@ == trial_verdict(req, s@, answers[0]@) && est_wf(
                est@,
                factors@.len(),
            ),
            forall|i: int|
                0 <= i < n && #[trigger] cands@[i] == Candidate::Base ==> answers.len() > 0,
        decreases cands@.len() - n,
    {
        let c: Candidate = cands[n];
        assert(candidate_wf(src, cands@[n as int]));
        let rows: usize = candidate_rows(c, factors, catalog, base, Ghost(src));
        let ghost before = trials(req, cands@, n as nat);
        let ghost here = trials(req, cands@, (n + 1) as nat);
        proof {
            lemma_trials_grow(req, cands@, (n + 1) as nat, cands@.len());
            if c == Candidate::Base {
                lemma_base_gives_trial(req, cands@, (n + 1) as nat);
            }
        }
        match rows.checked_mul(times) {
            None => {},
            Some(runs) => {
                let over: bool = exceeds(opts, runs);
                if smallest.is_some() && (over || runs < least) {
                } else {
                    let ghost list = candidate_trials(req, c);
                    assert(here == before + list);
                    let pool: Pool = Pool::of(c, Ghost(src));
                    let found: Vec<Vec<usize>> = pool.assignment_list(
                        factors,
                        catalog,
                        Ghost(src),
                        Ghost(c),
                        Ghost(*base),
                    );
                    let ghost asgs = candidate_assignments(src, c);
                    assert(lists(found@).len() == found@.len());
                    let count: usize = if over && found.len() > 1 { 1 } else { found.len() };
                    assert(count == list.len());
                    let mut i: usize = 0;
                    while i < count
                        invariant
                            i <= count <= found@.len(),
                            count == list.len(),
                            n < cands@.len(),
                            c == cands@[n as int],
                            candidate_wf(src, c),
                            inputs_of(req, factors@, models@, roles@, *model, *opts),
                            probe_wf(*probe, req.model.terms.len()),
                            source_of(src, factors@, catalog@, *base),
                            src == req.src,
                            all == all_trials(req),
                            pool.is_of(c),
                            asgs == candidate_assignments(src, c),
                            asgs == lists(found@),
                            list == candidate_trials(req, c),
                            here == before + list,
                            here.len() <= all.len(),
                            forall|k: int| 0 <= k < here.len() ==> #[trigger] all[k] == here[k],
                            over == over_max(req, rows_of(src, c) * replicates(req)),
                            answers.len() == before.len() + i,
                            forall|k: int|
                                0 <= k < answers.len() ==> probed(
                                    *probe,
                                    req,
                                    all[k].selected,
                                    #[trigger] answers[k],
                                ) && !wins(req, all[k], answers[k]@),
                            smallest is Some <==> answers.len() > 0,
                            smallest matches Some((s, cells, est)) ==> s@ == all[0].selected
                                && cell_views(cells@) == trial_cells(req, s@) && est@
                                == trial_verdict(req, s@, answers[0]@) && est_wf(
                                est@,
                                factors@.len(),
                            ),
                        decreases count - i,
                    {
                        let ghost at = (before.len() + i) as int;
                        assert(asgs[i as int] == found@[i as int]@);
                        assert(asgs.contains(found@[i as int]@));
                        let selected: Selected = pool.take(
                            &found[i],
                            factors,
                            catalog,
                            base,
                            Ghost(src),
                            Ghost(c),
                        );
                        proof {
                            assert(all[at] == here[at]);
                            assert(here[at] == list[i as int]);
                            assert(list[i as int].selected == selected@);
                            assert(list[i as int].over == over);
                        }
                        let (cells, est, ranks): (Vec<Cell>, Estimability, Ghost<RankReport>) =
                            evaluate(
                            &selected,
                            factors,
                            models,
                            roles,
                            model,
                            opts,
                            probe,
                            Ghost(req),
                        );
                        let ghost answer = ranks@;
                        let ghost extended = answers.push(answer);
                        if !over && all_estimable(&est) && est.residual_df >= opts.min_residual_df {
                            let ghost sv = selected@;
                            let sel: Selection = conclude(
                                selected,
                                cells,
                                est,
                                factors,
                                models,
                                roles,
                                model,
                                opts,
                                Ghost(req),
                                Ghost(answer@),
                            );
                            proof {
                                assert(ended(
                                    *probe,
                                    req,
                                    extended,
                                    Ok::<SelectionView, Seq<char>>(sel@),
                                ));
                            }
                            return Ok(sel);
                        }
                        assert(!wins(req, all[at], answer@));
                        if smallest.is_none() {
                            assert(at == 0);
                            smallest = Some((selected, cells, est));
                        }
                        proof {
                            assert forall|k: int| 0 <= k < extended.len() implies probed(
                                *probe,
                                req,
                                all[k].selected,
                                #[trigger] extended[k],
                            ) && !wins(req, all[k], extended[k]@) by {
                                if k < answers.len() {
                                    assert(extended[k] == answers[k]);
                                }
                            }
                            answers = extended;
                        }
                        i = i + 1;
                    }
                }
            },
        }
        n = n + 1;
    }
    proof {
        candidates_ascend(src, listed(src));
        assert(listed(src)[0] == Candidate::Base);
        assert(listed(src).contains(Candidate::Base));
        assert(cands@.contains(Candidate::Base));
        let k = choose|k: int| 0 <= k < cands@.len() && cands@[k] == Candidate::Base;
        assert(cands@[k] == Candidate::Base);
        assert(answers.len() > 0);
        assert(answers.len() == all.len());
    }
    match smallest {
        Some((selected, cells, est)) => {
            let ghost sv = selected@;
            let r: Result<Selection, Refusal> = fall_back(
                selected,
                cells,
                est,
                factors,
                models,
                roles,
                model,
                opts,
                Ghost(req),
                Ghost(answers[0]@),
            );
            proof {
                let out = fallback(req, sv, answers[0]@);
                assert(ended(*probe, req, answers, out));
            }
            r
        },
        None => Err(Refusal(String::new())),
    }
}

/// What the request leads to for a base array that is at hand; nothing where it
/// takes candidates and none can be listed.
pub fn attempt_from<P: Fn(&ModelMatrix) -> RankReport>(
    base: Selected,
    factors: &[Factor],
    models: &[Model],
    roles: &[ReplicateRole],
    opts: &SelectOpts,
    catalog: &[CatalogEntry],
    probe: &P,
) -> (r: Option<Result<Selection, Refusal>>)
    requires
        request_wf(request_of(factors@, models@, roles@, *opts, catalog@, base@)),
        probe_wf(
            *probe,
            request_of(factors@, models@, roles@, *opts, catalog@, base@).model.terms.len(),
        ),
        factors@.len() > 0,
        forall|i: int| 0 <= i < catalog@.len() ==> (#[trigger] catalog@[i]).wf(),
        base.wf(),
        base.column_levels@.len() == factors@.len(),
        base.array@.len() * replicates(
            request_of(factors@, models@, roles@, *opts, catalog@, base@),
        ) <= usize::MAX,
    ensures
        match r {
            Some(Ok(sel)) => resolved(
                *probe,
                request_of(factors@, models@, roles@, *opts, catalog@, base@),
                Ok::<SelectionView, Seq<char>>(sel@),
            ),
            Some(Err(e)) => resolved(
                *probe,
                request_of(factors@, models@, roles@, *opts, catalog@, base@),
                Err::<SelectionView, Seq<char>>(e.0@),
            ),
            None => unlisted(
                *probe,
                request_of(factors@, models@, roles@, *opts, catalog@, base@),
            ),
        },
        r is Some ==> listable(request_of(factors@, models@, roles@, *opts, catalog@, base@))
            || models@.len() == 0 && exists|first: RankReport|
            #[trigger] probed(
                *probe,
                request_of(factors@, models@, roles@, *opts, catalog@, base@),
                base@,
                first,
            ) && within_limits(
                request_of(factors@, models@, roles@, *opts, catalog@, base@),
                first@,
            ),
{
    let model: Model = union_model(models, factors);
    let ghost req = request_of(factors@, models@, roles@, *opts, catalog@, base@);
    proof {
        assert forall|f: int| 0 <= f < factors@.len() implies (#[trigger] factors@[f]).values@.len()
            > 0 by {
            assert(req.factors[f] == factors@[f]@);
        }
        assert(inputs_of(req, factors@, models@, roles@, model, *opts));
        assert(source_of(req.src, factors@, catalog@, base));
    }
    if models.len() == 0 {
        let (cells, est, ranks): (Vec<Cell>, Estimability, Ghost<RankReport>) = evaluate(
            &base,
            factors,
            models,
            roles,
            &model,
            opts,
            probe,
            Ghost(req),
        );
        assert(cell_views(cells@).len() == cells@.len());
        let ghost first = ranks@;
        assert(probed(*probe, req, req.src.base, first));
        if !exceeds(opts, cells.len()) && est.residual_df >= opts.min_residual_df {
            assert(within_limits(req, first@));
            let sel: Selection = conclude(
                base,
                cells,
                est,
                factors,
                models,
                roles,
                &model,
                opts,
                Ghost(req),
                Ghost(first@),
            );
            return Some(Ok(sel));
        }
        assert(!within_limits(req, first@));
    }
    if !can_list(&base, factors, models, roles, opts, catalog) {
        return None;
    }
    Some(search(&base, factors, models, roles, &model, opts, catalog, probe, Ghost(req)))
}

/// What the request leads to for a base array that is at hand.
pub fn select_from<P: Fn(&ModelMatrix) -> RankReport>(
    base: Selected,
    factors: &[Factor],
    models: &[Model],
    roles: &[ReplicateRole],
    opts: &SelectOpts,
    catalog: &[CatalogEntry],
    probe: &P,
) -> (r: Result<Selection, Refusal>)
    requires
        request_wf(request_of(factors@, models@, roles@, *opts, catalog@, base@)),
        listable(request_of(factors@, models@, roles@, *opts, catalog@, base@)) || spared(
            *probe,
            request_of(factors@, models@, roles@, *opts, catalog@, base@),
        ),
        probe_wf(
            *probe,
            request_of(factors@, models@, roles@, *opts, catalog@, base@).model.terms.len(),
        ),
        factors@.len() > 0,
        forall|i: int| 0 <= i < catalog@.len() ==> (#[trigger] catalog@[i]).wf(),
        base.wf(),
        base.column_levels@.len() == factors@.len(),
        base.array@.len() * replicates(
            request_of(factors@, models@, roles@, *opts, catalog@, base@),
        ) <= usize::MAX,
    ensures
        match r {
            Ok(sel) => resolved(
                *probe,
                request_of(factors@, models@, roles@, *opts, catalog@, base@),
                Ok::<SelectionView, Seq<char>>(sel@),
            ),
            Err(e) => resolved(
                *probe,
                request_of(factors@, models@, roles@, *opts, catalog@, base@),
                Err::<SelectionView, Seq<char>>(e.0@),
            ),
        },
{
    let ghost req = request_of(factors@, models@, roles@, *opts, catalog@, base@);
    match attempt_from(base, factors, models, roles, opts, catalog, probe) {
        Some(r) => r,
        None => {
            assert(unlisted(*probe, req));
            Err(Refusal(String::new()))
        },
    }
}

/// Selects a base array that estimates every requested term.
///
/// `unit` takes no part in the search: the matrix carries blocks and the union
/// model only. It is accepted here so callers pass the whole design description
/// in one place. `probe` gives the ranks of a model matrix.
pub fn select<P: Fn(&ModelMatrix) -> RankReport>(
    factors: &[Factor],
    models: &[Model],
    roles: &[ReplicateRole],
    unit: Option<&Unit>,
    opts: &SelectOpts,
    catalog: &[CatalogEntry],
    probe: &P,
) -> (r: Result<Selection, SelectError>)
    requires
        forall|i: int| 0 <= i < catalog@.len() ==> (#[trigger] catalog@[i]).wf(),
        buildable(all_methods_spec(), entries(catalog@), counts(factors@)),
        factors@.len() > 0 && !too_few(counts(factors@)) ==> forall|base: Selected| #[trigger]
            first_given(all_methods_spec(), entries(catalog@), counts(factors@), base)
                ==> workable(
                *probe,
                request_of(factors@, models@, roles@, *opts, catalog@, base@),
            ),
        probe_wf(
            *probe,
            union_of(model_views(models@), factor_names(factor_views(factors@))).terms.len(),
        ),
    ensures
        r matches Err(SelectError::Build(_)) <==> (factors@.len() == 0 || too_few(counts(factors@))
            || declined(all_methods_spec(), entries(catalog@), counts(factors@), 4)),
        match r {
            Err(SelectError::Build(e)) => e@ == build_message(all_methods_spec(), counts(factors@)),
            Err(SelectError::Refused(e)) => exists|base: Selected| #[trigger]
                first_given(all_methods_spec(), entries(catalog@), counts(factors@), base)
                    && resolved(
                    *probe,
                    request_of(factors@, models@, roles@, *opts, catalog@, base@),
                    Err::<SelectionView, Seq<char>>(e.0@),
                ),
            Ok(sel) => exists|base: Selected| #[trigger]
                first_given(all_methods_spec(), entries(catalog@), counts(factors@), base)
                    && resolved(
                    *probe,
                    request_of(factors@, models@, roles@, *opts, catalog@, base@),
                    Ok::<SelectionView, Seq<char>>(sel@),
                ),
        },
        models@.len() == 0 && opts.max_runs is None && opts.min_residual_df == 0 ==> match r {
            Ok(sel) => forall|built: Selected| #[trigger]
                first_given(all_methods_spec(), entries(catalog@), counts(factors@), built)
                    ==> kept_as_built(sel@, built@, factors@, roles@),
            Err(e) => e is Build,
        },
{
    match build_array(factors, catalog) {
        Err(e) => Err(SelectError::Build(e)),
        Ok(base) => {
            let ghost b = base;
            proof {
                assert(first_given(all_methods_spec(), entries(catalog@), counts(factors@), b));
                assert(workable(
                    *probe,
                    request_of(factors@, models@, roles@, *opts, catalog@, b@),
                ));
            }
            match select_from(base, factors, models, roles, opts, catalog, probe) {
                Ok(sel) => {
                    proof {
                        if models@.len() == 0 && opts.max_runs is None && opts.min_residual_df == 0 {
                            assert forall|built: Selected| #[trigger]
                                first_given(
                                    all_methods_spec(),
                                    entries(catalog@),
                                    counts(factors@),
                                    built,
                                ) implies kept_as_built(sel@, built@, factors@, roles@) by {
                                unmodelled_requests_get_the_built_array(
                                    *probe,
                                    factors@,
                                    models@,
                                    roles@,
                                    *opts,
                                    catalog@,
                                    built,
                                    b,
                                    Ok(sel@),
                                );
                            }
                        }
                    }
                    Ok(sel)
                },
                Err(e) => {
                    proof {
                        if models@.len() == 0 && opts.max_runs is None && opts.min_residual_df == 0 {
                            unmodelled_requests_get_the_built_array(
                                *probe,
                                factors@,
                                models@,
                                roles@,
                                *opts,
                                catalog@,
                                b,
                                b,
                                Err(e.0@),
                            );
                        }
                    }
                    Err(SelectError::Refused(e))
                },
            }
        },
    }
}

} // verus!
