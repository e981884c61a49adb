//! The greedy choice of the runs to add.
use vstd::prelude::*;

use crate::error::Error;
use crate::factor::{factor_views, Factor, FactorView};
use crate::float::{float_less, is_less, not_a_number};
use crate::model::estimability::{
    column_views, columns_wf, estimability, ranks_wf, verdict, ColumnView, Estimability,
    EstimabilityView, RankReport, RanksView,
};
use crate::model::formula::{terms_wf, Model};
use crate::model::matrix::{ColumnInfo, ColumnSource, ModelMatrix};

verus! {

/// What a candidate run brings.
#[derive(Debug, Clone, Copy)]
pub struct Gain {
    /// Its row is not in the row space of the current matrix.
    pub new_row: bool,
    /// Its row, without the columns of the targets, is not in the row space of
    /// the current matrix without them.
    pub new_rest: bool,
    /// Gain of the log determinant, as bits of a floating-point number.
    pub d_gain: u64,
}

/// By how much a candidate raises the rank of the targets' columns.
pub open spec fn rank_gain(g: Gain, aimed: bool) -> int {
    if !aimed {
        0
    } else {
        (if g.new_row {
            1int
        } else {
            0
        }) - (if g.new_rest {
            1int
        } else {
            0
        })
    }
}

/// `a` is strictly better than `b`.
pub open spec fn better(a: Gain, b: Gain, aimed: bool) -> bool {
    rank_gain(a, aimed) > rank_gain(b, aimed) || (rank_gain(a, aimed) == rank_gain(b, aimed)
        && float_less(b.d_gain, a.d_gain))
}

/// The best of the first `n` candidates; ties keep enumeration order.
pub open spec fn best_of(gains: Seq<Gain>, aimed: bool, n: nat) -> int
    decreases n,
{
    if n <= 1 {
        0
    } else {
        let b = best_of(gains, aimed, (n - 1) as nat);
        if better(gains[n - 1], gains[b], aimed) {
            n - 1
        } else {
            b
        }
    }
}

/// No candidate is better than the chosen one, and every earlier candidate is
/// worse.
pub proof fn best_is_first_of_the_best(gains: Seq<Gain>, aimed: bool, n: nat, k: int)
    requires
        0 <= k < n <= gains.len(),
        forall|i: int| 0 <= i < gains.len() ==> !not_a_number((#[trigger] gains[i]).d_gain),
    ensures
        0 <= best_of(gains, aimed, n) < n,
        !better(gains[k], gains[best_of(gains, aimed, n)], aimed),
        k < best_of(gains, aimed, n) ==> better(
            gains[best_of(gains, aimed, n)],
            gains[k],
            aimed,
        ),
    decreases n,
{
    if n > 1 {
        let b = best_of(gains, aimed, (n - 1) as nat);
        best_is_first_of_the_best(gains, aimed, (n - 1) as nat, if k < n - 1 {
            k
        } else {
            0
        });
    }
}

fn gain_of(g: &Gain, aimed: bool) -> (r: i32)
    ensures
        r == rank_gain(*g, aimed),
{
    if !aimed {
        0
    } else {
        (if g.new_row {
            1i32
        } else {
            0
        }) - (if g.new_rest {
            1i32
        } else {
            0
        })
    }
}

/// The best candidate: by rank gain, then by the gain of the determinant.
pub fn best_candidate(gains: &Vec<Gain>, aimed: bool) -> (pick: usize)
    requires
        gains@.len() > 0,
    ensures
        pick == best_of(gains@, aimed, gains@.len()),
        pick < gains@.len(),
{
    let mut b: usize = 0;
    let mut i: usize = 1;
    while i < gains.len()
        invariant
            1 <= i <= gains@.len(),
            b < i,
            b == best_of(gains@, aimed, i as nat),
        decreases gains@.len() - i,
    {
        let (x, y): (i32, i32) = (gain_of(&gains[i], aimed), gain_of(&gains[b], aimed));
        if x > y || (x == y && is_less(gains[b].d_gain, gains[i].d_gain)) {
            b = i;
        }
        i = i + 1;
    }
    b
}

// ===== Columns =====

/// A column belongs to one of the targets.
pub open spec fn is_aimed(c: ColumnView, targets: Seq<usize>) -> bool {
    c.source matches ColumnSource::Term { term } && targets.contains(term)
}

/// The numbers of the targets' columns among the first `n`.
pub open spec fn aimed_columns(columns: Seq<ColumnView>, targets: Seq<usize>, n: nat) -> Seq<usize>
    decreases n,
{
    if n == 0 {
        Seq::empty()
    } else {
        let before = aimed_columns(columns, targets, (n - 1) as nat);
        if is_aimed(columns[n - 1], targets) {
            before.push((n - 1) as usize)
        } else {
            before
        }
    }
}

fn holds(list: &Vec<usize>, x: usize) -> (r: bool)
    ensures
        r == list@.contains(x),
{
    let mut i: usize = 0;
    while i < list.len()
        invariant
            i <= list@.len(),
            forall|k: int| 0 <= k < i ==> #[trigger] list@[k] != x,
        decreases list@.len() - i,
    {
        if list[i] == x {
            assert(list@[i as int] == x);
            return true;
        }
        i = i + 1;
    }
    false
}

/// The numbers of the targets' columns.
pub fn target_columns(mm: &ModelMatrix, targets: &Vec<usize>) -> (out: Vec<usize>)
    ensures
        out@ == aimed_columns(column_views(mm.columns@), targets@, mm.columns@.len()),
{
    let ghost cv = column_views(mm.columns@);
    let mut out: Vec<usize> = Vec::new();
    let mut c: usize = 0;
    while c < mm.columns.len()
        invariant
            c <= mm.columns@.len(),
            cv == column_views(mm.columns@),
            out@ == aimed_columns(cv, targets@, c as nat),
        decreases mm.columns@.len() - c,
    {
        assert(cv[c as int].source == mm.columns@[c as int].source);
        match mm.columns[c].source {
            ColumnSource::Term { term } => {
                if holds(targets, term) {
                    out.push(c);
                }
            },
            _ => {},
        }
        c = c + 1;
    }
    out
}

// ===== The loop =====

/// The rows of a matrix.
pub open spec fn data_of(mm: ModelMatrix) -> Seq<Seq<i64>> {
    mm.data@.map_values(|r: Vec<i64>| r@)
}

/// The rows of the base followed by the chosen candidates.
pub open spec fn rows_with(base: Seq<Seq<i64>>, cand: Seq<Seq<i64>>, picks: Seq<usize>) -> Seq<Seq<i64>> {
    base + picks.map_values(|i: usize| cand[i as int])
}

/// `mm` is the matrix of the base and the chosen candidates.
pub open spec fn grown(mm: ModelMatrix, base: ModelMatrix, cand: ModelMatrix, picks: Seq<usize>) -> bool {
    &&& column_views(mm.columns@) == column_views(base.columns@)
    &&& data_of(mm) == rows_with(data_of(base), data_of(cand), picks)
}

/// What the loop works on.
#[verifier::ext_equal]
pub struct Aim {
    pub columns: Seq<ColumnView>,
    pub terms: Seq<Seq<usize>>,
    pub factors: Seq<FactorView>,
    pub base_rows: nat,
    pub targets: Seq<usize>,
    pub runs: Option<usize>,
}

/// What the design estimates behind `k` added runs.
pub open spec fn verdict_at(a: Aim, k: nat, ranks: RanksView) -> EstimabilityView {
    verdict(a.columns, a.base_rows + k, a.terms, a.factors, ranks)
}

/// Every target is estimable.
pub open spec fn reached(a: Aim, e: EstimabilityView) -> bool {
    forall|i: int| 0 <= i < a.targets.len() ==> e.terms[#[trigger] a.targets[i] as int].estimable
}

/// The loop adds at most the number of runs asked for, or else as many as there
/// are parameters.
pub open spec fn run_cap(a: Aim) -> nat {
    match a.runs {
        Some(n) => n as nat,
        None => a.columns.len(),
    }
}

/// The loop ends behind `k` added runs.
pub open spec fn ends(a: Aim, k: nat, ranks: RanksView) -> bool {
    let done = reached(a, verdict_at(a, k, ranks));
    let enough = match a.runs {
        Some(n) => k >= n,
        None => done,
    };
    (done && enough) || k >= run_cap(a)
}

/// The answers of both functions along the chosen runs.
pub open spec fn walked<P: Fn(&ModelMatrix) -> RankReport, S: Fn(
    &ModelMatrix,
    &ModelMatrix,
    &Vec<usize>,
) -> Result<Vec<Gain>, Error>>(
    probe: P,
    score: S,
    a: Aim,
    base: ModelMatrix,
    cand: ModelMatrix,
    aimed: Vec<usize>,
    picks: Seq<usize>,
    ranks: Seq<RankReport>,
    gains: Seq<Vec<Gain>>,
) -> bool {
    &&& ranks.len() == picks.len() + 1
    &&& gains.len() == picks.len()
    &&& forall|k: int|
        0 <= k <= picks.len() ==> probed_at(probe, base, cand, picks.take(k), #[trigger] ranks[k])
    &&& forall|k: int|
        0 <= k < picks.len() ==> !ends(a, k as nat, (#[trigger] ranks[k])@)
    &&& forall|k: int|
        0 <= k < picks.len() ==> scored_at(
            score,
            base,
            cand,
            aimed,
            picks.take(k),
            Ok(#[trigger] gains[k]),
        )
    &&& forall|k: int|
        0 <= k < picks.len() ==> (#[trigger] gains[k])@.len() == cand.data@.len() && picks[k]
            == best_of(gains[k]@, aimed@.len() > 0, gains[k]@.len())
}

/// `ranks` is an answer on the matrix behind the chosen runs.
pub open spec fn probed_at<P: Fn(&ModelMatrix) -> RankReport>(
    probe: P,
    base: ModelMatrix,
    cand: ModelMatrix,
    picks: Seq<usize>,
    ranks: RankReport,
) -> bool {
    exists|mm: ModelMatrix| #[trigger]
        call_ensures(probe, (&mm,), ranks) && grown(mm, base, cand, picks)
}

/// `gains` is an answer on the candidates behind the chosen runs.
pub open spec fn scored_at<S: Fn(&ModelMatrix, &ModelMatrix, &Vec<usize>) -> Result<
    Vec<Gain>,
    Error,
>>(
    score: S,
    base: ModelMatrix,
    cand: ModelMatrix,
    aimed: Vec<usize>,
    picks: Seq<usize>,
    gains: Result<Vec<Gain>, Error>,
) -> bool {
    exists|mm: ModelMatrix| #[trigger]
        call_ensures(score, (&mm, &cand, &aimed), gains) && grown(mm, base, cand, picks)
}

/// Every answer of the probe speaks of the matrix that it was given, and every
/// answer of the score of all candidates.
pub open spec fn answers_wf<P: Fn(&ModelMatrix) -> RankReport, S: Fn(
    &ModelMatrix,
    &ModelMatrix,
    &Vec<usize>,
) -> Result<Vec<Gain>, Error>>(probe: P, score: S, terms: nat) -> bool {
    &&& forall|mm: &ModelMatrix| #[trigger] call_requires(probe, (mm,))
    &&& forall|mm: &ModelMatrix, r: RankReport| #[trigger]
        call_ensures(probe, (mm,), r) ==> ranks_wf(r@, mm.columns@.len(), mm.data@.len(), terms)
    &&& forall|mm: &ModelMatrix, c: &ModelMatrix, t: &Vec<usize>| #[trigger]
        call_requires(score, (mm, c, t))
    &&& forall|mm: &ModelMatrix, c: &ModelMatrix, t: &Vec<usize>, r: Result<Vec<Gain>, Error>|
        #[trigger] call_ensures(score, (mm, c, t), r) ==> (r matches Ok(v) ==> v@.len()
            == c.data@.len())
}

fn copy_row(row: &Vec<i64>) -> (out: Vec<i64>)
    ensures
        out@ == row@,
{
    let out: Vec<i64> = row.clone();
    assert(out@ =~= row@);
    out
}

fn copy_matrix(mm: &ModelMatrix) -> (out: ModelMatrix)
    ensures
        column_views(out.columns@) == column_views(mm.columns@),
        data_of(out) == data_of(*mm),
{
    let mut columns: Vec<ColumnInfo> = Vec::new();
    let mut c: usize = 0;
    while c < mm.columns.len()
        invariant
            c <= mm.columns@.len(),
            columns@.len() == c,
            forall|k: int|
                0 <= k < c ==> (#[trigger] columns@[k]).source == mm.columns@[k].source
                    && columns@[k].label@ == mm.columns@[k].label@,
        decreases mm.columns@.len() - c,
    {
        columns.push(
            ColumnInfo { source: mm.columns[c].source, label: mm.columns[c].label.clone() },
        );
        c = c + 1;
    }
    assert(column_views(columns@) =~= column_views(mm.columns@));
    let mut data: Vec<Vec<i64>> = Vec::new();
    let mut r: usize = 0;
    while r < mm.data.len()
        invariant
            r <= mm.data@.len(),
            data@.len() == r,
            forall|k: int| 0 <= k < r ==> (#[trigger] data@[k])@ == mm.data@[k]@,
        decreases mm.data@.len() - r,
    {
        data.push(copy_row(&mm.data[r]));
        r = r + 1;
    }
    let out: ModelMatrix = ModelMatrix { columns, data };
    assert(data_of(out) =~= data_of(*mm));
    out
}

fn all_reached(est: &Estimability, targets: &Vec<usize>) -> (r: bool)
    requires
        forall|i: int| 0 <= i < targets@.len() ==> #[trigger] targets@[i] < est@.terms.len(),
    ensures
        r == forall|i: int|
            0 <= i < targets@.len() ==> est@.terms[#[trigger] targets@[i] as int].estimable,
{
    let mut i: usize = 0;
    while i < targets.len()
        invariant
            i <= targets@.len(),
            forall|k: int| 0 <= k < targets@.len() ==> #[trigger] targets@[k] < est@.terms.len(),
            forall|k: int|
                0 <= k < i ==> est@.terms[#[trigger] targets@[k] as int].estimable,
        decreases targets@.len() - i,
    {
        let t: usize = targets[i];
        assert(est@.terms.len() == est.terms@.len());
        assert(est@.terms[t as int] == est.terms@[t as int]@);
        if !est.terms[t].estimable {
            assert(!est@.terms[targets@[i as int] as int].estimable);
            return false;
        }
        i = i + 1;
    }
    true
}

/// What the loop chose.
#[derive(Debug)]
pub struct Choice {
    /// The chosen candidates, in order.
    pub picks: Vec<usize>,
    /// What the design estimates with them.
    pub after: Estimability,
    /// The matrix with them.
    pub matrix: ModelMatrix,
}

/// The aim of a loop.
pub open spec fn aim_of(
    base: ModelMatrix,
    model: Model,
    factors: Seq<Factor>,
    targets: Seq<usize>,
    runs: Option<usize>,
) -> Aim {
    Aim {
        columns: column_views(base.columns@),
        terms: model@.terms,
        factors: factor_views(factors),
        base_rows: base.data@.len(),
        targets,
        runs,
    }
}

/// `choice` is what the loop ends with: some answers lead to it.
pub open spec fn chosen<P: Fn(&ModelMatrix) -> RankReport, S: Fn(
    &ModelMatrix,
    &ModelMatrix,
    &Vec<usize>,
) -> Result<Vec<Gain>, Error>>(
    probe: P,
    score: S,
    a: Aim,
    base: ModelMatrix,
    cand: ModelMatrix,
    choice: Choice,
) -> bool {
    exists|aimed: Vec<usize>, ranks: Seq<RankReport>, gains: Seq<Vec<Gain>>|
        {
            &&& #[trigger] walked(
                probe,
                score,
                a,
                base,
                cand,
                aimed,
                choice.picks@,
                ranks,
                gains,
            )
            &&& aimed@ == aimed_columns(a.columns, a.targets, a.columns.len())
            &&& ends(a, choice.picks@.len(), ranks.last()@)
            &&& choice.after@ == verdict_at(a, choice.picks@.len(), ranks.last()@)
            &&& grown(choice.matrix, base, cand, choice.picks@)
        }
}

/// The loop fails with the error of the score behind some answers.
pub open spec fn failed<P: Fn(&ModelMatrix) -> RankReport, S: Fn(
    &ModelMatrix,
    &ModelMatrix,
    &Vec<usize>,
) -> Result<Vec<Gain>, Error>>(
    probe: P,
    score: S,
    a: Aim,
    base: ModelMatrix,
    cand: ModelMatrix,
    e: Error,
) -> bool {
    exists|
        aimed: Vec<usize>,
        picks: Seq<usize>,
        ranks: Seq<RankReport>,
        gains: Seq<Vec<Gain>>,
    |
        {
            &&& #[trigger] walked(probe, score, a, base, cand, aimed, picks, ranks, gains)
            &&& aimed@ == aimed_columns(a.columns, a.targets, a.columns.len())
            &&& !ends(a, picks.len(), ranks.last()@)
            &&& scored_at(score, base, cand, aimed, picks, Err(e))
        }
}

/// Adds candidate runs one by one, each the best at its turn, until every target
/// is estimable and the runs asked for are added. `probe` gives the ranks of a
/// matrix, `score` what each candidate brings.
pub fn choose_runs<P: Fn(&ModelMatrix) -> RankReport, S: Fn(
    &ModelMatrix,
    &ModelMatrix,
    &Vec<usize>,
) -> Result<Vec<Gain>, Error>>(
    base: &ModelMatrix,
    cand: &ModelMatrix,
    model: &Model,
    factors: &[Factor],
    targets: &Vec<usize>,
    runs: Option<usize>,
    probe: &P,
    score: &S,
) -> (r: Result<Choice, Error>)
    requires
        terms_wf(model@.terms, factors@.len()),
        columns_wf(column_views(base.columns@), model@.terms.len()),
        cand.data@.len() > 0,
        forall|i: int| 0 <= i < targets@.len() ==> #[trigger] targets@[i] < model@.terms.len(),
        answers_wf(*probe, *score, model@.terms.len()),
    ensures
        match r {
            Ok(choice) => chosen(
                *probe,
                *score,
                aim_of(*base, *model, factors@, targets@, runs),
                *base,
                *cand,
                choice,
            ),
            Err(e) => failed(
                *probe,
                *score,
                aim_of(*base, *model, factors@, targets@, runs),
                *base,
                *cand,
                e,
            ),
        },
        r matches Ok(choice) ==> forall|i: int|
            0 <= i < choice.picks@.len() ==> #[trigger] choice.picks@[i] < cand.data@.len(),
{
    let ghost a = aim_of(*base, *model, factors@, targets@, runs);
    let aimed: Vec<usize> = target_columns(base, targets);
    let mut current: ModelMatrix = copy_matrix(base);
    let mut picks: Vec<usize> = Vec::new();
    let ghost mut ranks_seen = Seq::<RankReport>::empty();
    let ghost mut gains_seen = Seq::<Vec<Gain>>::empty();
    let cap: usize = match runs {
        Some(n) => n,
        None => base.columns.len(),
    };
    assert(data_of(current) =~= rows_with(data_of(*base), data_of(*cand), picks@));
    loop
        invariant
            a == aim_of(*base, *model, factors@, targets@, runs),
            aimed@ == aimed_columns(a.columns, a.targets, a.columns.len()),
            terms_wf(model@.terms, factors@.len()),
            columns_wf(column_views(base.columns@), model@.terms.len()),
            cand.data@.len() > 0,
            forall|i: int| 0 <= i < targets@.len() ==> #[trigger] targets@[i] < model@.terms.len(),
            answers_wf(*probe, *score, model@.terms.len()),
            cap == run_cap(a),
            picks@.len() <= cap,
            grown(current, *base, *cand, picks@),
            forall|i: int| 0 <= i < picks@.len() ==> #[trigger] picks@[i] < cand.data@.len(),
            ranks_seen.len() == picks@.len(),
            gains_seen.len() == picks@.len(),
            forall|k: int|
                0 <= k < picks@.len() ==> probed_at(
                    *probe,
                    *base,
                    *cand,
                    picks@.take(k),
                    #[trigger] ranks_seen[k],
                ) && !ends(a, k as nat, ranks_seen[k]@),
            forall|k: int|
                0 <= k < picks@.len() ==> scored_at(
                    *score,
                    *base,
                    *cand,
                    aimed,
                    picks@.take(k),
                    Ok(#[trigger] gains_seen[k]),
                ) && gains_seen[k]@.len() == cand.data@.len() && picks@[k] == best_of(
                    gains_seen[k]@,
                    aimed@.len() > 0,
                    gains_seen[k]@.len(),
                ),
        decreases cap - picks@.len(),
    {
        let ranks: RankReport = probe(&current);
        let ghost so_far = picks@;
        proof {
            assert(call_ensures(*probe, (&current,), ranks));
            assert(current.columns@.len() == column_views(current.columns@).len());
            assert(data_of(current).len() == current.data@.len());
            assert(picks@.take(picks@.len() as int) =~= picks@);
            assert(probed_at(*probe, *base, *cand, picks@, ranks));
        }
        let est: Estimability = estimability(&current, model, factors, &ranks);
        assert(est@ == verdict_at(a, picks@.len(), ranks@));
        let done: bool = all_reached(&est, targets);
        assert(done == reached(a, est@));
        let enough: bool = match runs {
            Some(n) => picks.len() >= n,
            None => done,
        };
        let ghost ranks_now = ranks_seen.push(ranks);
        proof {
            assert forall|k: int| 0 <= k <= picks@.len() implies probed_at(
                *probe,
                *base,
                *cand,
                picks@.take(k),
                #[trigger] ranks_now[k],
            ) by {
                if k < picks@.len() {
                    assert(ranks_now[k] == ranks_seen[k]);
                }
            }
            assert forall|k: int| 0 <= k < picks@.len() implies !ends(
                a,
                k as nat,
                (#[trigger] ranks_now[k])@,
            ) by {
                assert(ranks_now[k] == ranks_seen[k]);
            }
            assert(walked(
                *probe,
                *score,
                a,
                *base,
                *cand,
                aimed,
                picks@,
                ranks_now,
                gains_seen,
            ));
            assert(ranks_now.last() == ranks);
        }
        if (done && enough) || picks.len() >= cap {
            assert(ends(a, picks@.len(), ranks@));
            let choice: Choice = Choice { picks, after: est, matrix: current };
            proof {
                assert(walked(
                    *probe,
                    *score,
                    a,
                    *base,
                    *cand,
                    aimed,
                    choice.picks@,
                    ranks_now,
                    gains_seen,
                ));
                assert(ends(a, choice.picks@.len(), ranks_now.last()@));
                assert(choice.after@ == verdict_at(a, choice.picks@.len(), ranks_now.last()@));
                assert(grown(choice.matrix, *base, *cand, choice.picks@));
                assert(chosen(*probe, *score, a, *base, *cand, choice));
            }
            return Ok(choice);
        }
        assert(!ends(a, picks@.len(), ranks@));
        let scored: Result<Vec<Gain>, Error> = score(&current, cand, &aimed);
        proof {
            assert(call_ensures(*score, (&current, cand, &aimed), scored));
            assert(scored_at(*score, *base, *cand, aimed, picks@, scored));
        }
        let gains: Vec<Gain> = match scored {
            Err(e) => {
                return Err(e);
            },
            Ok(g) => g,
        };
        let pick: usize = best_candidate(&gains, aimed.len() > 0);
        let row: Vec<i64> = copy_row(&cand.data[pick]);
        let ghost old_data = data_of(current);
        current.data.push(row);
        picks.push(pick);
        proof {
            let base_rows = data_of(*base);
            let cand_rows = data_of(*cand);
            assert(cand_rows[pick as int] == row@);
            assert(data_of(current) =~= old_data.push(row@));
            assert(rows_with(base_rows, cand_rows, picks@) =~= rows_with(
                base_rows,
                cand_rows,
                so_far,
            ).push(cand_rows[pick as int]));
            let gains_now = gains_seen.push(gains);
            assert forall|k: int| 0 <= k < picks@.len() implies probed_at(
                *probe,
                *base,
                *cand,
                picks@.take(k),
                #[trigger] ranks_now[k],
            ) && !ends(a, k as nat, ranks_now[k]@) by {
                assert(picks@.take(k) =~= so_far.take(k));
                if k == so_far.len() {
                    assert(so_far.take(k) =~= so_far);
                }
            }
            assert forall|k: int| 0 <= k < picks@.len() implies scored_at(
                *score,
                *base,
                *cand,
                aimed,
                picks@.take(k),
                Ok(#[trigger] gains_now[k]),
            ) && gains_now[k]@.len() == cand.data@.len() && picks@[k] == best_of(
                gains_now[k]@,
                aimed@.len() > 0,
                gains_now[k]@.len(),
            ) by {
                assert(picks@.take(k) =~= so_far.take(k));
                if k == so_far.len() {
                    assert(so_far.take(k) =~= so_far);
                } else {
                    assert(gains_now[k] == gains_seen[k]);
                    assert(picks@[k] == so_far[k]);
                }
            }
            ranks_seen = ranks_now;
            gains_seen = gains_now;
        }
    }
}

/// With a number of runs given, exactly that many are added.
pub proof fn runs_asked_for_are_added<P: Fn(&ModelMatrix) -> RankReport, S: Fn(
    &ModelMatrix,
    &ModelMatrix,
    &Vec<usize>,
) -> Result<Vec<Gain>, Error>>(
    probe: P,
    score: S,
    a: Aim,
    base: ModelMatrix,
    cand: ModelMatrix,
    choice: Choice,
    n: usize,
)
    requires
        chosen(probe, score, a, base, cand, choice),
        a.runs == Some(n),
    ensures
        choice.picks@.len() == n,
{
    let (aimed, ranks, gains) = choose|
        aimed: Vec<usize>,
        ranks: Seq<RankReport>,
        gains: Seq<Vec<Gain>>,
    |
        {
            &&& #[trigger] walked(
                probe,
                score,
                a,
                base,
                cand,
                aimed,
                choice.picks@,
                ranks,
                gains,
            )
            &&& ends(a, choice.picks@.len(), ranks.last()@)
        };
    let len = choice.picks@.len();
    if len > n {
        assert(!ends(a, (len - 1) as nat, ranks[len - 1]@));
    }
}

/// Without a number of runs, runs are added until every target is estimable or
/// there are as many as parameters, and no further.
pub proof fn runs_stop_at_the_targets<P: Fn(&ModelMatrix) -> RankReport, S: Fn(
    &ModelMatrix,
    &ModelMatrix,
    &Vec<usize>,
) -> Result<Vec<Gain>, Error>>(
    probe: P,
    score: S,
    a: Aim,
    base: ModelMatrix,
    cand: ModelMatrix,
    choice: Choice,
)
    requires
        chosen(probe, score, a, base, cand, choice),
        a.runs is None,
    ensures
        reached(a, choice.after@) || choice.picks@.len() == a.columns.len(),
        choice.picks@.len() <= a.columns.len(),
{
    let (aimed, ranks, gains) = choose|
        aimed: Vec<usize>,
        ranks: Seq<RankReport>,
        gains: Seq<Vec<Gain>>,
    |
        {
            &&& #[trigger] walked(
                probe,
                score,
                a,
                base,
                cand,
                aimed,
                choice.picks@,
                ranks,
                gains,
            )
            &&& ends(a, choice.picks@.len(), ranks.last()@)
            &&& choice.after@ == verdict_at(a, choice.picks@.len(), ranks.last()@)
        };
    let len = choice.picks@.len();
    if len > a.columns.len() {
        assert(!ends(a, (len - 1) as nat, ranks[len - 1]@));
    }
}

} // verus!
