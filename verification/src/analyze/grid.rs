//! The grid of predictions: the walk through all combinations of levels, the
//! cells that are kept, and the cells that are recommended.
use vstd::arithmetic::div_mod::{lemma_fundamental_div_mod, lemma_fundamental_div_mod_converse};
use vstd::prelude::*;

use super::groups::numbers_below;
use super::observe::names_it;
use crate::factor::{factor_views, value_text, Factor, FactorView};
use crate::float::{float_less, is_less, not_a_number};
use crate::model::formula::{terms_wf, Model};
use crate::model::matrix::{
    cell_views, column_list, column_source, entry_of, model_matrix, role_views, terms_fit, Cell,
    CellView, Column, ColumnSource, ModelMatrix, ReplicateRole, RoleView,
};
use crate::text::{equal, views};
use crate::tuples::{count_tuples, lists, tuple_at, tuple_count};

verus! {

/// The largest grid that is exported whole.
pub const GRID_CAP: usize = 100_000;

/// Numbers of levels of the factors.
pub open spec fn grid_dims(factors: Seq<FactorView>) -> Seq<usize> {
    Seq::new(factors.len(), |i: int| factors[i].values.len() as usize)
}

/// The levels, one per factor.
pub open spec fn on_grid(levels: Seq<usize>, dims: Seq<usize>) -> bool {
    levels.len() == dims.len() && forall|i: int|
        0 <= i < dims.len() ==> #[trigger] levels[i] < dims[i]
}

/// The combination of levels that follows; none behind the last.
pub open spec fn advanced(levels: Seq<usize>, dims: Seq<usize>) -> Option<Seq<usize>>
    decreases levels.len(),
{
    if levels.len() == 0 {
        None
    } else if levels.last() + 1 < dims.last() {
        Some(levels.drop_last().push((levels.last() + 1) as usize))
    } else {
        match advanced(levels.drop_last(), dims.drop_last()) {
            None => None,
            Some(l) => Some(l.push(0)),
        }
    }
}

/// Advancing walks through the whole grid in order: behind every combination
/// comes the next, and behind the last none.
pub proof fn advance_walks_the_grid(dims: Seq<usize>, i: int)
    requires
        0 <= i < tuple_count(dims),
    ensures
        advanced(tuple_at(dims, i), dims) == if i + 1 < tuple_count(dims) {
            Some(tuple_at(dims, i + 1))
        } else {
            None
        },
    decreases dims.len(),
{
    if dims.len() > 0 {
        let d = dims.last() as int;
        let head = dims.drop_last();
        let n = tuple_count(head) as int;
        assert(d > 0) by (nonlinear_arith)
            requires
                0 < n * d,
                d >= 0,
        ;
        lemma_fundamental_div_mod(i, d);
        let q = i / d;
        let r = i % d;
        assert(0 <= q < n) by (nonlinear_arith)
            requires
                i == d * q + r,
                0 <= r < d,
                0 <= i < n * d,
        ;
        let t = tuple_at(dims, i);
        assert(t.drop_last() =~= tuple_at(head, q));
        assert(t.last() == r);
        if r + 1 < d {
            lemma_fundamental_div_mod_converse(i + 1, d, q, r + 1);
            assert(i + 1 < n * d) by (nonlinear_arith)
                requires
                    i == d * q + r,
                    r + 1 < d,
                    q <= n - 1,
                    d > 0,
            ;
        } else {
            assert(i + 1 == d * (q + 1) + 0) by (nonlinear_arith)
                requires
                    i == d * q + r,
                    r + 1 == d,
            ;
            lemma_fundamental_div_mod_converse(i + 1, d, q + 1, 0);
            advance_walks_the_grid(head, q);
            if q + 1 < n {
                assert(i + 1 < n * d) by (nonlinear_arith)
                    requires
                        i + 1 == d * (q + 1),
                        q + 1 < n,
                        d > 0,
                ;
            } else {
                assert(i + 1 == n * d) by (nonlinear_arith)
                    requires
                        i + 1 == d * (q + 1),
                        q + 1 == n,
                ;
            }
        }
    } else {
        assert(i == 0);
    }
}

spec fn zeros(n: nat) -> Seq<usize> {
    Seq::new(n, |i: int| 0usize)
}

/// Steps to the next combination of levels; behind the last one all levels are
/// zero, and there is no next.
pub fn advance(levels: &mut Vec<usize>, factors: &[Factor]) -> (more: bool)
    requires
        on_grid(old(levels)@, grid_dims(factor_views(factors@))),
    ensures
        more == (advanced(old(levels)@, grid_dims(factor_views(factors@))) is Some),
        more ==> advanced(old(levels)@, grid_dims(factor_views(factors@))) == Some(final(levels)@),
        !more ==> final(levels)@ == Seq::new(factors@.len(), |i: int| 0usize),
        final(levels)@.len() == factors@.len(),
{
    let ghost dims = grid_dims(factor_views(factors@));
    let ghost start = levels@;
    let n: usize = levels.len();
    let mut i: usize = n;
    assert(start.take(n as int) =~= start);
    assert(dims.take(n as int) =~= dims);
    assert(start.take(n as int) + zeros(0) =~= levels@);
    assert(advanced(start, dims) == match advanced(start.take(n as int), dims.take(n as int)) {
        None => None,
        Some(l) => Some(l + zeros(0)),
    }) by {
        if advanced(start, dims) is Some {
            let l = advanced(start, dims)->0;
            assert(l + zeros(0) =~= l);
        }
    }
    while i > 0
        invariant
            i <= n,
            n == start.len(),
            dims == grid_dims(factor_views(factors@)),
            start == old(levels)@,
            on_grid(start, dims),
            levels@ == start.take(i as int) + zeros((n - i) as nat),
            advanced(start, dims) == match advanced(start.take(i as int), dims.take(i as int)) {
                None => None,
                Some(l) => Some(l + zeros((n - i) as nat)),
            },
        decreases i,
    {
        let ghost head = start.take(i as int);
        let ghost dh = dims.take(i as int);
        assert(head.last() == start[i - 1]);
        assert(dh.last() == dims[i - 1]);
        assert(head.drop_last() =~= start.take(i - 1));
        assert(dh.drop_last() =~= dims.take(i - 1));
        assert(factor_views(factors@)[i - 1] == factors@[i - 1]@);
        let count: usize = factors[i - 1].level_count();
        assert(levels@[i - 1] == start[i - 1]);
        let next: usize = levels[i - 1] + 1;
        if next < count {
            let ghost before = levels@;
            levels.set(i - 1, next);
            assert(levels@ =~= start.take(i - 1).push(next) + zeros((n - i) as nat));
            return true;
        }
        levels.set(i - 1, 0);
        proof {
            assert(levels@ =~= start.take(i - 1) + zeros((n - i + 1) as nat));
            if advanced(start.take(i - 1), dims.take(i - 1)) is Some {
                let l = advanced(start.take(i - 1), dims.take(i - 1))->0;
                assert(l.push(0) + zeros((n - i) as nat) =~= l + zeros((n - i + 1) as nat));
            }
        }
        i = i - 1;
    }
    assert(start.take(0) =~= Seq::empty());
    assert(levels@ =~= Seq::new(factors@.len(), |i: int| 0usize));
    false
}

proof fn lemma_count_grows(dims: Seq<usize>, k: int)
    requires
        0 <= k <= dims.len(),
        forall|i: int| 0 <= i < dims.len() ==> #[trigger] dims[i] > 0,
    ensures
        tuple_count(dims.take(k)) <= tuple_count(dims),
    decreases dims.len() - k,
{
    if k < dims.len() {
        let now = dims.take(k + 1);
        assert(now.drop_last() =~= dims.take(k));
        assert(now.last() == dims[k]);
        let (a, b) = (tuple_count(dims.take(k)), dims[k] as nat);
        assert(a <= a * b) by (nonlinear_arith)
            requires
                b >= 1,
                a >= 0,
        ;
        lemma_count_grows(dims, k + 1);
    } else {
        assert(dims.take(k) =~= dims);
    }
}

/// Whether the grid is too large to be exported whole.
pub fn grid_exceeds_cap(factors: &[Factor]) -> (r: bool)
    requires
        forall|f: int| 0 <= f < factors@.len() ==> (#[trigger] factors@[f]).values@.len() > 0,
    ensures
        r == (tuple_count(grid_dims(factor_views(factors@))) > GRID_CAP),
        r <==> tuple_count(grid_dims(factor_views(factors@))) > 100_000,
{
    let ghost dims = grid_dims(factor_views(factors@));
    let mut counts: Vec<usize> = Vec::new();
    let mut i: usize = 0;
    while i < factors.len()
        invariant
            i <= factors@.len(),
            dims == grid_dims(factor_views(factors@)),
            counts@ =~= dims.take(i as int),
        decreases factors@.len() - i,
    {
        let c: usize = factors[i].level_count();
        assert(factor_views(factors@)[i as int] == factors@[i as int]@);
        counts.push(c);
        i = i + 1;
    }
    assert(counts@ =~= dims);
    match count_tuples(&counts) {
        Some(n) => n > GRID_CAP,
        None => {
            proof {
                let k = choose|k: int|
                    0 <= k <= dims.len() && tuple_count(#[trigger] dims.take(k)) > usize::MAX;
                assert forall|j: int| 0 <= j < dims.len() implies #[trigger] dims[j] > 0 by {
                    assert(factors@[j].values@.len() > 0);
                    lemma_level_count(factors@, j);
                }
                lemma_count_grows(dims, k);
            }
            true
        },
    }
}

/// The warning for a grid that is not exported whole.
pub fn grid_warning() -> (s: String)
    ensures
        s@ == "prediction grid exceeds 100000 cells; exporting measured cells and recommendation cells"@,
{
    "prediction grid exceeds 100000 cells; exporting measured cells and recommendation cells".to_owned()
}

// ===== The walk =====

/// A cell with its predicted mean.
#[derive(Debug)]
pub struct Peak {
    pub levels: Vec<usize>,
    pub mean: u64,
}

#[verifier::ext_equal]
pub struct PeakView {
    pub levels: Seq<usize>,
    pub mean: u64,
}

impl View for Peak {
    type V = PeakView;

    open spec fn view(&self) -> PeakView {
        PeakView { levels: self.levels@, mean: self.mean }
    }
}

/// What is predicted of a cell.
#[verifier::ext_equal]
pub struct Visit {
    pub levels: Seq<usize>,
    pub mean: u64,
    pub estimable: bool,
    pub measured: bool,
}

/// What the walk has found: the cells to export, and the estimable cells with
/// the highest and the lowest mean.
#[derive(Debug)]
pub struct Walk {
    pub capped: bool,
    pub kept: Vec<Vec<usize>>,
    pub highest: Option<Peak>,
    pub lowest: Option<Peak>,
}

#[verifier::ext_equal]
pub struct WalkView {
    pub capped: bool,
    pub kept: Seq<Seq<usize>>,
    pub highest: Option<PeakView>,
    pub lowest: Option<PeakView>,
}

pub open spec fn peak_view(p: Option<Peak>) -> Option<PeakView> {
    match p {
        Some(x) => Some(x@),
        None => None,
    }
}

impl View for Walk {
    type V = WalkView;

    open spec fn view(&self) -> WalkView {
        WalkView {
            capped: self.capped,
            kept: lists(self.kept@),
            highest: peak_view(self.highest),
            lowest: peak_view(self.lowest),
        }
    }
}

/// The walk before its first cell.
pub open spec fn started(capped: bool) -> WalkView {
    WalkView { capped, kept: Seq::empty(), highest: None, lowest: None }
}

/// The walk behind one more cell. A peak gives way to a strictly better one
/// only, so the first of equals stays.
pub open spec fn visited(w: WalkView, v: Visit) -> WalkView {
    let peak = PeakView { levels: v.levels, mean: v.mean };
    WalkView {
        capped: w.capped,
        kept: if !w.capped || v.measured {
            w.kept.push(v.levels)
        } else {
            w.kept
        },
        highest: if v.estimable && (w.highest matches Some(p) ==> float_less(p.mean, v.mean)) {
            Some(peak)
        } else {
            w.highest
        },
        lowest: if v.estimable && (w.lowest matches Some(p) ==> float_less(v.mean, p.mean)) {
            Some(peak)
        } else {
            w.lowest
        },
    }
}

/// The walk behind the first `n` cells.
pub open spec fn walked(capped: bool, visits: Seq<Visit>, n: nat) -> WalkView
    decreases n,
{
    if n == 0 {
        started(capped)
    } else {
        visited(walked(capped, visits, (n - 1) as nat), visits[n - 1])
    }
}

/// The peaks are estimable cells of the walk, and no estimable cell is higher
/// than the highest or lower than the lowest.
pub proof fn peaks_are_extreme(capped: bool, visits: Seq<Visit>, n: nat, i: int)
    requires
        0 <= i < n <= visits.len(),
        visits[i].estimable,
        forall|k: int| 0 <= k < n ==> !not_a_number((#[trigger] visits[k]).mean),
    ensures
        walked(capped, visits, n).highest is Some,
        walked(capped, visits, n).lowest is Some,
        !not_a_number(walked(capped, visits, n).highest->0.mean),
        !not_a_number(walked(capped, visits, n).lowest->0.mean),
        !float_less(walked(capped, visits, n).highest->0.mean, visits[i].mean),
        !float_less(visits[i].mean, walked(capped, visits, n).lowest->0.mean),
    decreases n,
{
    let before = walked(capped, visits, (n - 1) as nat);
    if i < n - 1 {
        peaks_are_extreme(capped, visits, (n - 1) as nat, i);
    } else {
        lemma_peaks(capped, visits, (n - 1) as nat);
    }
    assert(!not_a_number(visits[n - 1].mean));
}

/// A peak is one of the estimable cells.
pub proof fn peaks_are_estimable(capped: bool, visits: Seq<Visit>, n: nat)
    requires
        n <= visits.len(),
    ensures
        walked(capped, visits, n).highest matches Some(p) ==> exists|i: int|
            0 <= i < n && (#[trigger] visits[i]).estimable && visits[i].levels == p.levels
                && visits[i].mean == p.mean,
        walked(capped, visits, n).lowest matches Some(p) ==> exists|i: int|
            0 <= i < n && (#[trigger] visits[i]).estimable && visits[i].levels == p.levels
                && visits[i].mean == p.mean,
    decreases n,
{
    if n > 0 {
        peaks_are_estimable(capped, visits, (n - 1) as nat);
        let v = visits[n - 1];
        let before = walked(capped, visits, (n - 1) as nat);
        let now = walked(capped, visits, n);
        if now.highest is Some && now.highest == before.highest {
            let p = before.highest->0;
            let i = choose|i: int|
                0 <= i < n - 1 && (#[trigger] visits[i]).estimable && visits[i].levels == p.levels
                    && visits[i].mean == p.mean;
            assert(visits[i].estimable);
        }
        if now.lowest is Some && now.lowest == before.lowest {
            let p = before.lowest->0;
            let i = choose|i: int|
                0 <= i < n - 1 && (#[trigger] visits[i]).estimable && visits[i].levels == p.levels
                    && visits[i].mean == p.mean;
            assert(visits[i].estimable);
        }
    }
}

proof fn lemma_peaks(capped: bool, visits: Seq<Visit>, n: nat)
    requires
        n <= visits.len(),
        forall|k: int| 0 <= k < n ==> !not_a_number((#[trigger] visits[k]).mean),
    ensures
        walked(capped, visits, n).highest matches Some(p) ==> !not_a_number(p.mean),
        walked(capped, visits, n).lowest matches Some(p) ==> !not_a_number(p.mean),
    decreases n,
{
    if n > 0 {
        lemma_peaks(capped, visits, (n - 1) as nat);
        assert(!not_a_number(visits[n - 1].mean));
    }
}

/// A grid that is not too large is exported whole, in order.
pub proof fn small_grids_are_kept(visits: Seq<Visit>, n: nat)
    requires
        n <= visits.len(),
    ensures
        walked(false, visits, n).kept == Seq::new(n, |i: int| visits[i].levels),
    decreases n,
{
    if n > 0 {
        small_grids_are_kept(visits, (n - 1) as nat);
        lemma_capped(false, visits, (n - 1) as nat);
    }
    assert(walked(false, visits, n).kept =~= Seq::new(n, |i: int| visits[i].levels));
}

proof fn lemma_capped(capped: bool, visits: Seq<Visit>, n: nat)
    ensures
        walked(capped, visits, n).capped == capped,
    decreases n,
{
    if n > 0 {
        lemma_capped(capped, visits, (n - 1) as nat);
    }
}

/// Every measured cell is exported, however large the grid is.
pub proof fn measured_cells_are_kept(capped: bool, visits: Seq<Visit>, n: nat, i: int)
    requires
        0 <= i < n <= visits.len(),
        visits[i].measured,
    ensures
        walked(capped, visits, n).kept.contains(visits[i].levels),
    decreases n,
{
    lemma_capped(capped, visits, (n - 1) as nat);
    let before = walked(capped, visits, (n - 1) as nat).kept;
    let now = walked(capped, visits, n).kept;
    if i == n - 1 {
        assert(now[before.len() as int] == visits[i].levels);
    } else {
        measured_cells_are_kept(capped, visits, (n - 1) as nat, i);
        let j = choose|j: int| 0 <= j < before.len() && before[j] == visits[i].levels;
        assert(now[j] == visits[i].levels);
    }
}

/// Two combinations show the same values.
pub open spec fn same_shown(a: Seq<usize>, b: Seq<usize>, factors: Seq<FactorView>) -> bool {
    forall|f: int|
        0 <= f < factors.len() ==> value_text(
            (#[trigger] factors[f]).values[a[f] as int],
        ) == value_text(factors[f].values[b[f] as int])
}

/// The first kept cell, from `i` on, that shows the values of `levels`.
pub open spec fn place_shown(
    kept: Seq<Seq<usize>>,
    levels: Seq<usize>,
    factors: Seq<FactorView>,
    i: nat,
) -> Option<nat>
    decreases kept.len() - i,
{
    if i >= kept.len() {
        None
    } else if same_shown(kept[i as int], levels, factors) {
        Some(i)
    } else {
        place_shown(kept, levels, factors, i + 1)
    }
}

/// The kept cells with a peak, unless one shows its values already.
pub open spec fn with_peak(
    kept: Seq<Seq<usize>>,
    peak: Option<PeakView>,
    factors: Seq<FactorView>,
) -> Seq<Seq<usize>> {
    match peak {
        Some(p) => if place_shown(kept, p.levels, factors, 0) is None {
            kept.push(p.levels)
        } else {
            kept
        },
        None => kept,
    }
}

/// The cells to export at the end of the walk: where the grid is too large, the
/// peaks join the measured cells.
pub open spec fn exported(w: WalkView, factors: Seq<FactorView>) -> Seq<Seq<usize>> {
    if w.capped {
        with_peak(with_peak(w.kept, w.highest, factors), w.lowest, factors)
    } else {
        w.kept
    }
}

/// The cells of the walk are cells of the grid.
pub open spec fn walk_wf(w: WalkView, dims: Seq<usize>) -> bool {
    &&& forall|i: int| 0 <= i < w.kept.len() ==> on_grid(#[trigger] w.kept[i], dims)
    &&& w.highest matches Some(p) ==> on_grid(p.levels, dims)
    &&& w.lowest matches Some(p) ==> on_grid(p.levels, dims)
}

fn shows_same(a: &Vec<usize>, b: &Vec<usize>, factors: &[Factor]) -> (r: bool)
    requires
        on_grid(a@, grid_dims(factor_views(factors@))),
        on_grid(b@, grid_dims(factor_views(factors@))),
    ensures
        r == same_shown(a@, b@, factor_views(factors@)),
{
    let ghost fv = factor_views(factors@);
    let mut f: usize = 0;
    while f < factors.len()
        invariant
            f <= factors@.len(),
            fv == factor_views(factors@),
            on_grid(a@, grid_dims(fv)),
            on_grid(b@, grid_dims(fv)),
            forall|k: int|
                0 <= k < f ==> value_text((#[trigger] fv[k]).values[a@[k] as int]) == value_text(
                    fv[k].values[b@[k] as int],
                ),
        decreases factors@.len() - f,
    {
        assert(fv[f as int] == factors@[f as int]@);
        let n: usize = factors[f].values.len();
        assert(grid_dims(fv)[f as int] == n);
        assert(a@[f as int] < n && b@[f as int] < n);
        let x: String = factors[f].values[a[f]].to_text();
        let y: String = factors[f].values[b[f]].to_text();
        if !equal(x.as_str(), y.as_str()) {
            assert(!same_shown(a@, b@, fv));
            return false;
        }
        f = f + 1;
    }
    true
}

/// The first cell of a list that shows the values of `levels`.
pub fn find_shown(kept: &Vec<Vec<usize>>, levels: &Vec<usize>, factors: &[Factor]) -> (r: Option<usize>)
    requires
        forall|i: int|
            0 <= i < kept@.len() ==> on_grid(
                (#[trigger] kept@[i])@,
                grid_dims(factor_views(factors@)),
            ),
        on_grid(levels@, grid_dims(factor_views(factors@))),
    ensures
        match r {
            Some(i) => place_shown(lists(kept@), levels@, factor_views(factors@), 0) == Some(
                i as nat,
            ) && i < kept@.len(),
            None => place_shown(lists(kept@), levels@, factor_views(factors@), 0) is None,
        },
{
    let ghost (kv, fv) = (lists(kept@), factor_views(factors@));
    let mut i: usize = 0;
    while i < kept.len()
        invariant
            i <= kept@.len(),
            kv == lists(kept@),
            fv == factor_views(factors@),
            forall|i: int| 0 <= i < kept@.len() ==> on_grid((#[trigger] kept@[i])@, grid_dims(fv)),
            on_grid(levels@, grid_dims(fv)),
            place_shown(kv, levels@, fv, 0) == place_shown(kv, levels@, fv, i as nat),
        decreases kept@.len() - i,
    {
        assert(kv[i as int] == kept@[i as int]@);
        if shows_same(&kept[i], levels, factors) {
            return Some(i);
        }
        i = i + 1;
    }
    None
}

impl Walk {
    /// The walk before its first cell.
    pub fn start(capped: bool) -> (w: Walk)
        ensures
            w@ == started(capped),
    {
        let w: Walk = Walk { capped, kept: Vec::new(), highest: None, lowest: None };
        assert(w@ =~= started(capped));
        w
    }

    /// Visits a cell.
    pub fn visit(&mut self, levels: &Vec<usize>, mean: u64, estimable: bool, measured: bool)
        ensures
            final(self)@ == visited(
                old(self)@,
                (Visit { levels: levels@, mean, estimable, measured }),
            ),
    {
        let ghost start = self@;
        let higher: bool = estimable && match &self.highest {
            Some(p) => is_less(p.mean, mean),
            None => true,
        };
        let lower: bool = estimable && match &self.lowest {
            Some(p) => is_less(mean, p.mean),
            None => true,
        };
        if higher {
            let copy: Vec<usize> = levels.clone();
            assert(copy@ =~= levels@);
            self.highest = Some(Peak { levels: copy, mean });
        }
        if lower {
            let copy: Vec<usize> = levels.clone();
            assert(copy@ =~= levels@);
            self.lowest = Some(Peak { levels: copy, mean });
        }
        if !self.capped || measured {
            let copy: Vec<usize> = levels.clone();
            assert(copy@ =~= levels@);
            let ghost before = lists(self.kept@);
            self.kept.push(copy);
            assert(lists(self.kept@) =~= before.push(levels@));
        }
        assert(self@ =~= visited(start, Visit { levels: levels@, mean, estimable, measured }));
    }

    /// The cells to export.
    pub fn finish(&self, factors: &[Factor]) -> (out: Vec<Vec<usize>>)
        requires
            walk_wf(self@, grid_dims(factor_views(factors@))),
        ensures
            lists(out@) == exported(self@, factor_views(factors@)),
    {
        let ghost (fv, w) = (factor_views(factors@), self@);
        let ghost dims = grid_dims(fv);
        let mut out: Vec<Vec<usize>> = Vec::new();
        let mut i: usize = 0;
        while i < self.kept.len()
            invariant
                i <= self.kept@.len(),
                w == self@,
                walk_wf(w, dims),
                out@.len() == i,
                forall|k: int| 0 <= k < i ==> (#[trigger] out@[k])@ == self.kept@[k]@,
                forall|k: int| 0 <= k < i ==> on_grid((#[trigger] out@[k])@, dims),
            decreases self.kept@.len() - i,
        {
            assert(w.kept[i as int] == self.kept@[i as int]@);
            let copy: Vec<usize> = self.kept[i].clone();
            assert(copy@ =~= self.kept@[i as int]@);
            out.push(copy);
            i = i + 1;
        }
        assert(lists(out@) =~= w.kept);
        if self.capped {
            add_peak(&mut out, &self.highest, factors);
            add_peak(&mut out, &self.lowest, factors);
        }
        out
    }
}

fn add_peak(kept: &mut Vec<Vec<usize>>, peak: &Option<Peak>, factors: &[Factor])
    requires
        forall|i: int|
            0 <= i < old(kept)@.len() ==> on_grid(
                (#[trigger] old(kept)@[i])@,
                grid_dims(factor_views(factors@)),
            ),
        peak_view(*peak) matches Some(p) ==> on_grid(
            p.levels,
            grid_dims(factor_views(factors@)),
        ),
    ensures
        lists(final(kept)@) == with_peak(
            lists(old(kept)@),
            peak_view(*peak),
            factor_views(factors@),
        ),
        forall|i: int|
            0 <= i < final(kept)@.len() ==> on_grid(
                (#[trigger] final(kept)@[i])@,
                grid_dims(factor_views(factors@)),
            ),
{
    match peak {
        Some(p) => {
            if find_shown(kept, &p.levels, factors).is_none() {
                let copy: Vec<usize> = p.levels.clone();
                assert(copy@ =~= p.levels@);
                let ghost before = lists(kept@);
                kept.push(copy);
                assert(lists(kept@) =~= before.push(p.levels@));
            }
        },
        None => {},
    }
}

// ===== Recommendation =====

/// The highest mean of a result is asked for: unless only its lowest is.
pub open spec fn wants_highest(
    name: Seq<char>,
    maximize: Seq<Seq<char>>,
    minimize: Seq<Seq<char>>,
) -> bool {
    maximize.contains(name) || !minimize.contains(name)
}

/// The places, among the exported cells, of the recommended ones: none without
/// evidence, otherwise the peaks that are asked for.
pub open spec fn recommended(
    evidence: bool,
    wanted: bool,
    peak: Option<PeakView>,
    kept: Seq<Seq<usize>>,
    factors: Seq<FactorView>,
) -> Option<nat> {
    if !evidence || !wanted {
        None
    } else {
        match peak {
            Some(p) => place_shown(kept, p.levels, factors, 0),
            None => None,
        }
    }
}

/// Whether the highest mean of a result is asked for. With the lists exchanged,
/// whether the lowest is.
pub fn is_wanted(name: &str, maximize: &Vec<String>, minimize: &Vec<String>) -> (r: bool)
    ensures
        r == wants_highest(name@, views(maximize@), views(minimize@)),
{
    names_it(maximize, name) || !names_it(minimize, name)
}

/// The place of the recommended cell among the exported ones.
pub fn recommend(
    evidence: bool,
    wanted: bool,
    peak: &Option<Peak>,
    kept: &Vec<Vec<usize>>,
    factors: &[Factor],
) -> (r: Option<usize>)
    requires
        forall|i: int|
            0 <= i < kept@.len() ==> on_grid(
                (#[trigger] kept@[i])@,
                grid_dims(factor_views(factors@)),
            ),
        peak_view(*peak) matches Some(p) ==> on_grid(
            p.levels,
            grid_dims(factor_views(factors@)),
        ),
    ensures
        match r {
            Some(i) => recommended(
                evidence,
                wanted,
                peak_view(*peak),
                lists(kept@),
                factor_views(factors@),
            ) == Some(i as nat) && i < kept@.len(),
            None => recommended(
                evidence,
                wanted,
                peak_view(*peak),
                lists(kept@),
                factor_views(factors@),
            ) is None,
        },
{
    if !evidence || !wanted {
        return None;
    }
    match peak {
        Some(p) => find_shown(kept, &p.levels, factors),
        None => None,
    }
}

proof fn lemma_place_found(
    kept: Seq<Seq<usize>>,
    levels: Seq<usize>,
    factors: Seq<FactorView>,
    i: nat,
    k: int,
)
    requires
        i <= k < kept.len(),
        same_shown(kept[k], levels, factors),
    ensures
        place_shown(kept, levels, factors, i) is Some,
    decreases k - i,
{
    if i < k && !same_shown(kept[i as int], levels, factors) {
        lemma_place_found(kept, levels, factors, i + 1, k);
    }
}

/// Where the grid is too large, a peak that was found is among the exported
/// cells all the same.
pub proof fn peaks_are_exported(w: WalkView, factors: Seq<FactorView>)
    requires
        w.capped,
    ensures
        w.highest matches Some(p) ==> place_shown(exported(w, factors), p.levels, factors, 0) is Some,
        w.lowest matches Some(p) ==> place_shown(exported(w, factors), p.levels, factors, 0) is Some,
{
    let first = with_peak(w.kept, w.highest, factors);
    let all = with_peak(first, w.lowest, factors);
    if w.highest is Some {
        lemma_peak_joins(w.kept, w.highest->0.levels, factors);
        let k = lemma_found_place(first, w.highest->0.levels, factors, 0);
        assert(all[k] == first[k]);
        lemma_place_found(all, w.highest->0.levels, factors, 0, k);
    }
    if w.lowest is Some {
        lemma_peak_joins(first, w.lowest->0.levels, factors);
    }
}

proof fn lemma_peak_joins(kept: Seq<Seq<usize>>, levels: Seq<usize>, factors: Seq<FactorView>)
    ensures
        place_shown(kept, levels, factors, 0) is None ==> place_shown(
            kept.push(levels),
            levels,
            factors,
            0,
        ) is Some,
{
    let all = kept.push(levels);
    assert(same_shown(all[kept.len() as int], levels, factors));
    lemma_place_found(all, levels, factors, 0, kept.len() as int);
}

proof fn lemma_found_place(
    kept: Seq<Seq<usize>>,
    levels: Seq<usize>,
    factors: Seq<FactorView>,
    i: nat,
) -> (k: int)
    requires
        place_shown(kept, levels, factors, i) is Some,
    ensures
        i <= k < kept.len(),
        same_shown(kept[k], levels, factors),
    decreases kept.len() - i,
{
    if same_shown(kept[i as int], levels, factors) {
        i as int
    } else {
        lemma_found_place(kept, levels, factors, i + 1)
    }
}

// ===== Rows =====

/// The entry of a predicted cell: blocks stand at their mean.
pub open spec fn predicted_entry(
    col: Column,
    levels: Seq<usize>,
    factors: Seq<FactorView>,
    roles: Seq<RoleView>,
    terms: Seq<Seq<usize>>,
) -> int {
    if col is Block {
        0
    } else {
        entry_of(
            col,
            CellView { factors: levels, roles: Seq::new(roles.len(), |i: int| 0usize) },
            factors,
            roles,
            terms,
            0,
            0,
        )
    }
}

/// The row of a predicted cell in the columns of a fit.
pub fn prediction_row(
    factors: &[Factor],
    roles: &[ReplicateRole],
    model: &Model,
    levels: &Vec<usize>,
    columns: &Vec<usize>,
) -> (out: Vec<i64>)
    requires
        terms_wf(model@.terms, factors@.len()),
        forall|f: int| 0 <= f < factors@.len() ==> (#[trigger] factors@[f]).values@.len() > 0,
        forall|r: int| 0 <= r < roles@.len() ==> (#[trigger] roles@[r]).levels@.len() > 0,
        terms_fit(model@.terms, factor_views(factors@)),
        on_grid(levels@, grid_dims(factor_views(factors@))),
        numbers_below(
            columns@,
            column_list(
                factor_views(factors@),
                role_views(roles@),
                model@.terms,
                0,
            ).len(),
        ),
    ensures
        out@.len() == columns@.len(),
        forall|k: int|
            0 <= k < out@.len() ==> #[trigger] out@[k] == predicted_entry(
                column_list(
                    factor_views(factors@),
                    role_views(roles@),
                    model@.terms,
                    0,
                )[columns@[k] as int],
                levels@,
                factor_views(factors@),
                role_views(roles@),
                model@.terms,
            ),
{
    let ghost (fv, rv, tv) = (factor_views(factors@), role_views(roles@), model@.terms);
    let ghost cols = column_list(fv, rv, tv, 0);
    let factor_levels: Vec<usize> = levels.clone();
    assert(factor_levels@ =~= levels@);
    let replicate_levels: Vec<usize> = vec![0; roles.len()];
    let cell: Cell = Cell { factor_levels, replicate_levels };
    let ghost cellv = cell@;
    proof {
        assert(cellv =~= CellView {
            factors: levels@,
            roles: Seq::new(rv.len(), |i: int| 0usize),
        });
        assert forall|f: int| 0 <= f < fv.len() implies #[trigger] cellv.factors[f]
            < fv[f].values.len() by {
            assert(fv[f] == factors@[f]@);
            lemma_level_count(factors@, f);
            assert(grid_dims(fv)[f] == fv[f].values.len());
        }
        assert forall|r: int| 0 <= r < rv.len() implies #[trigger] cellv.roles[r]
            < rv[r].levels.len() by {
            assert(rv[r] == roles@[r]@);
        }
    }
    let mut cells: Vec<Cell> = Vec::new();
    cells.push(cell);
    assert(cell_views(cells@) =~= seq![cellv]);
    let mm: ModelMatrix = model_matrix(factors, roles, model, &cells, None);
    assert(mm.data@[0]@.len() == cols.len());
    let mut out: Vec<i64> = Vec::new();
    let mut k: usize = 0;
    while k < columns.len()
        invariant
            k <= columns@.len(),
            fv == factor_views(factors@),
            rv == role_views(roles@),
            tv == model@.terms,
            cols == column_list(fv, rv, tv, 0),
            numbers_below(columns@, cols.len()),
            mm.data@.len() == 1,
            mm.data@[0]@.len() == cols.len(),
            mm.columns@.len() == cols.len(),
            cellv == (CellView {
                factors: levels@,
                roles: Seq::new(rv.len(), |i: int| 0usize),
            }),
            forall|c: int|
                0 <= c < cols.len() ==> (#[trigger] mm.columns@[c]).source == column_source(
                    cols[c],
                ),
            forall|c: int|
                0 <= c < cols.len() ==> #[trigger] mm.data@[0]@[c] == entry_of(
                    cols[c],
                    cellv,
                    fv,
                    rv,
                    tv,
                    0,
                    0,
                ),
            out@.len() == k,
            forall|j: int|
                0 <= j < k ==> #[trigger] out@[j] == predicted_entry(
                    cols[columns@[j] as int],
                    levels@,
                    fv,
                    rv,
                    tv,
                ),
        decreases columns@.len() - k,
    {
        let c: usize = columns[k];
        assert(mm.columns@[c as int].source == column_source(cols[c as int]));
        let in_block: bool = match mm.columns[c].source {
            ColumnSource::Block { role: _ } => true,
            _ => false,
        };
        if in_block {
            out.push(0);
        } else {
            out.push(mm.data[0][c]);
        }
        k = k + 1;
    }
    out
}

proof fn lemma_level_count(factors: Seq<Factor>, f: int)
    requires
        0 <= f < factors.len(),
    ensures
        grid_dims(factor_views(factors))[f] == factors[f].values@.len(),
{
    assert(factor_views(factors)[f] == factors[f]@);
    assert(factors[f].values.len() == factors[f].values@.len());
}

} // verus!
