//! Resampling of the groups of the first replicate role.
use vstd::prelude::*;

use super::groups::{group_views, numbers_below, Group, GroupView};
use crate::factor::{copy_values, FactorValue, FactorView, ValueView};
use crate::model::matrix::{
    block_columns, cell_views, column_list, role_views, Cell, CellView, ReplicateRole, RoleView,
};
use crate::rng::{drawn, drawn_state, Rng};
use crate::text::{decimal, decimal_text};

verus! {

/// How many resamples are asked for where nothing is said: a thousand where
/// there is a role to resample.
pub open spec fn asked(requested: Option<usize>, has_roles: bool) -> usize {
    match requested {
        Some(n) => n,
        None => if has_roles {
            1000
        } else {
            0
        },
    }
}

/// How many resamples are taken.
pub open spec fn resamples(requested: Option<usize>, has_roles: bool, groups: nat) -> usize {
    if !has_roles || groups == 0 {
        0
    } else {
        asked(requested, has_roles)
    }
}

/// The warning about the resampling, if any.
pub open spec fn resample_warning(requested: Option<usize>, has_roles: bool, groups: nat) -> Option<
    Seq<char>,
> {
    if asked(requested, has_roles) == 0 {
        None
    } else if !has_roles {
        Some("bootstrap requires a replicate role"@)
    } else if groups < 5 {
        Some(
            "bootstrap has fewer than 5 groups ("@ + decimal(groups)
                + "); intervals may be unreliable"@,
        )
    } else {
        None
    }
}

/// How many resamples are taken, and what is to be said about them.
pub fn plan_resamples(requested: Option<usize>, has_roles: bool, groups: usize) -> (r: (
    usize,
    Option<String>,
))
    ensures
        r.0 == resamples(requested, has_roles, groups as nat),
        match r.1 {
            Some(w) => resample_warning(requested, has_roles, groups as nat) == Some(w@),
            None => resample_warning(requested, has_roles, groups as nat) is None,
        },
{
    let count: usize = match requested {
        Some(n) => n,
        None => if has_roles {
            1000
        } else {
            0
        },
    };
    if count == 0 {
        return (0, None);
    }
    if !has_roles {
        return (0, Some("bootstrap requires a replicate role".to_owned()));
    }
    let taken: usize = if groups == 0 {
        0
    } else {
        count
    };
    if groups < 5 {
        let mut w: String = String::new();
        w.append("bootstrap has fewer than 5 groups (");
        let n: String = decimal_text(groups);
        w.append(n.as_str());
        w.append("); intervals may be unreliable");
        assert(w@ =~= "bootstrap has fewer than 5 groups ("@ + decimal(groups as nat)
            + "); intervals may be unreliable"@);
        (taken, Some(w))
    } else {
        (taken, None)
    }
}

/// The seed of the resampling: the one that is given, otherwise that of the
/// design, otherwise zero.
pub fn resample_seed(given: Option<u64>, of_design: Option<u64>) -> (s: u64)
    ensures
        s == match given {
            Some(x) => x,
            None => match of_design {
                Some(x) => x,
                None => 0,
            },
        },
{
    match given {
        Some(x) => x,
        None => match of_design {
            Some(x) => x,
            None => 0,
        },
    }
}

/// The first `k` of draws below `n`, and the generator's state behind them.
pub open spec fn draws(state: u64, n: u64, k: nat) -> (Seq<usize>, u64)
    decreases k,
{
    if k == 0 {
        (Seq::empty(), state)
    } else {
        let before = draws(state, n, (k - 1) as nat);
        (before.0.push(drawn(before.1, n) as usize), drawn_state(before.1, n))
    }
}

/// Draws as many groups as there are, with replacement.
pub fn draw_groups(rng: &mut Rng, groups: usize) -> (out: Vec<usize>)
    ensures
        (out@, final(rng)@) == draws(old(rng)@, groups as u64, groups as nat),
        out@.len() == groups,
        numbers_below(out@, groups as nat),
{
    let ghost start = rng@;
    let mut out: Vec<usize> = Vec::new();
    assert(out@ =~= Seq::empty());
    let mut k: usize = 0;
    while k < groups
        invariant
            k <= groups,
            start == old(rng)@,
            out@.len() == k,
            numbers_below(out@, groups as nat),
            (out@, rng@) == draws(start, groups as u64, k as nat),
        decreases groups - k,
    {
        let d: u64 = rng.below(groups as u64);
        out.push(d as usize);
        k = k + 1;
    }
    out
}

/// The observations of the first `n` drawn groups, whole and in draw order.
pub open spec fn resampled(groups: Seq<GroupView>, drawn: Seq<usize>, n: nat) -> Seq<usize>
    decreases n,
{
    if n == 0 {
        Seq::empty()
    } else {
        resampled(groups, drawn, (n - 1) as nat) + groups[drawn[n - 1] as int].rows
    }
}

/// The block of each of those observations: the number of the draw. A group that
/// is drawn twice is two blocks.
pub open spec fn blocks_of(groups: Seq<GroupView>, drawn: Seq<usize>, n: nat) -> Seq<usize>
    decreases n,
{
    if n == 0 {
        Seq::empty()
    } else {
        blocks_of(groups, drawn, (n - 1) as nat) + Seq::new(
            groups[drawn[n - 1] as int].rows.len(),
            |i: int| (n - 1) as usize,
        )
    }
}

/// A cell in another block of the first role.
pub open spec fn moved(cell: CellView, block: usize) -> CellView {
    CellView { factors: cell.factors, roles: cell.roles.update(0, block) }
}

/// The cells of a resample.
pub open spec fn moved_cells(cells: Seq<CellView>, rows: Seq<usize>, blocks: Seq<usize>) -> Seq<
    CellView,
> {
    Seq::new(rows.len(), |i: int| moved(cells[rows[i] as int], blocks[i]))
}

proof fn lemma_blocks_len(groups: Seq<GroupView>, drawn: Seq<usize>, n: nat)
    ensures
        blocks_of(groups, drawn, n).len() == resampled(groups, drawn, n).len(),
    decreases n,
{
    if n > 0 {
        lemma_blocks_len(groups, drawn, (n - 1) as nat);
    }
}

/// Groups stay whole: the observations of a drawn group all stand in the block
/// of the draw, in their order, and no other block takes them.
pub proof fn drawn_groups_stay_whole(groups: Seq<GroupView>, drawn: Seq<usize>, n: nat, d: int)
    requires
        0 <= d < n <= drawn.len(),
        n <= usize::MAX,
    ensures
        ({
            let rows = groups[drawn[d] as int].rows;
            let at = resampled(groups, drawn, d as nat).len() as int;
            &&& at + rows.len() <= resampled(groups, drawn, n).len()
            &&& resampled(groups, drawn, n).subrange(at, at + rows.len()) == rows
            &&& forall|i: int|
                0 <= i < blocks_of(groups, drawn, n).len() ==> (#[trigger] blocks_of(
                    groups,
                    drawn,
                    n,
                )[i] == d <==> at <= i < at + rows.len())
        }),
    decreases n,
{
    let rows = groups[drawn[d] as int].rows;
    let at = resampled(groups, drawn, d as nat).len() as int;
    let before = resampled(groups, drawn, (n - 1) as nat);
    let now = resampled(groups, drawn, n);
    let blocks_before = blocks_of(groups, drawn, (n - 1) as nat);
    let blocks = blocks_of(groups, drawn, n);
    lemma_blocks_len(groups, drawn, (n - 1) as nat);
    lemma_blocks_len(groups, drawn, n);
    if d == n - 1 {
        assert(now.subrange(at, at + rows.len()) =~= rows);
        lemma_blocks_below(groups, drawn, (n - 1) as nat);
        assert forall|i: int| 0 <= i < blocks.len() implies (#[trigger] blocks[i] == d <==> at <= i
            < at + rows.len()) by {
            if i < blocks_before.len() {
                assert(blocks[i] == blocks_before[i]);
            }
        }
    } else {
        drawn_groups_stay_whole(groups, drawn, (n - 1) as nat, d);
        assert(now.subrange(at, at + rows.len()) =~= before.subrange(at, at + rows.len()));
        assert forall|i: int| 0 <= i < blocks.len() implies (#[trigger] blocks[i] == d <==> at <= i
            < at + rows.len()) by {
            if i < blocks_before.len() {
                assert(blocks[i] == blocks_before[i]);
            }
        }
    }
}

proof fn lemma_blocks_below(groups: Seq<GroupView>, drawn: Seq<usize>, n: nat)
    requires
        n <= usize::MAX,
    ensures
        numbers_below(blocks_of(groups, drawn, n), n),
    decreases n,
{
    if n > 0 {
        lemma_blocks_below(groups, drawn, (n - 1) as nat);
        let before = blocks_of(groups, drawn, (n - 1) as nat);
        let now = blocks_of(groups, drawn, n);
        assert forall|i: int| 0 <= i < now.len() implies #[trigger] now[i] < n by {
            if i < before.len() {
                assert(now[i] == before[i]);
            }
        }
    }
}

/// The observations of a resample, and their cells.
#[derive(Debug)]
pub struct Resample {
    pub rows: Vec<usize>,
    pub cells: Vec<Cell>,
}

/// The groups hold numbers of observations.
pub open spec fn groups_wf(groups: Seq<GroupView>, n: nat) -> bool {
    forall|g: int| 0 <= g < groups.len() ==> numbers_below((#[trigger] groups[g]).rows, n)
}

/// Takes the observations of the drawn groups; every draw becomes a block of its
/// own.
pub fn take_resample(cells: &Vec<Cell>, groups: &Vec<Group>, drawn: &Vec<usize>) -> (out: Resample)
    requires
        forall|i: int| 0 <= i < cells@.len() ==> (#[trigger] cells@[i]).replicate_levels@.len() > 0,
        groups_wf(group_views(groups@), cells@.len()),
        numbers_below(drawn@, groups@.len()),
    ensures
        out.rows@ == resampled(group_views(groups@), drawn@, drawn@.len()),
        numbers_below(out.rows@, cells@.len()),
        cell_views(out.cells@) == moved_cells(
            cell_views(cells@),
            out.rows@,
            blocks_of(group_views(groups@), drawn@, drawn@.len()),
        ),
{
    let ghost (cv, gv) = (cell_views(cells@), group_views(groups@));
    let mut rows: Vec<usize> = Vec::new();
    let mut out: Vec<Cell> = Vec::new();
    let ghost mut blocks: Seq<usize> = Seq::empty();
    assert(cell_views(out@) =~= moved_cells(cv, rows@, blocks));
    let mut d: usize = 0;
    while d < drawn.len()
        invariant
            d <= drawn@.len(),
            cv == cell_views(cells@),
            gv == group_views(groups@),
            forall|i: int|
                0 <= i < cells@.len() ==> (#[trigger] cells@[i]).replicate_levels@.len() > 0,
            groups_wf(gv, cells@.len()),
            numbers_below(drawn@, groups@.len()),
            rows@ == resampled(gv, drawn@, d as nat),
            numbers_below(rows@, cells@.len()),
            blocks == blocks_of(gv, drawn@, d as nat),
            blocks.len() == rows@.len(),
            cell_views(out@) == moved_cells(cv, rows@, blocks),
        decreases drawn@.len() - d,
    {
        let g: &Group = &groups[drawn[d]];
        assert(gv[drawn@[d as int] as int] == g@);
        let ghost (rows_before, blocks_before) = (rows@, blocks);
        assert(rows_before + g.rows@.take(0) =~= rows_before);
        assert(blocks_before + Seq::new(0, |i: int| d) =~= blocks_before);
        let mut i: usize = 0;
        while i < g.rows.len()
            invariant
                i <= g.rows@.len(),
                cv == cell_views(cells@),
                forall|i: int|
                    0 <= i < cells@.len() ==> (#[trigger] cells@[i]).replicate_levels@.len() > 0,
                numbers_below(g.rows@, cells@.len()),
                numbers_below(rows@, cells@.len()),
                rows@ == rows_before + g.rows@.take(i as int),
                blocks == blocks_before + Seq::new(i as nat, |i: int| d),
                blocks.len() == rows@.len(),
                cell_views(out@) == moved_cells(cv, rows@, blocks),
            decreases g.rows@.len() - i,
        {
            let r: usize = g.rows[i];
            assert(g.rows@[i as int] == r);
            let mut cell: Cell = cells[r].copy();
            assert(cv[r as int] == cells@[r as int]@);
            assert(cell.replicate_levels@.len() > 0) by {
                assert(cell@.roles == cells@[r as int]@.roles);
            }
            cell.replicate_levels.set(0, d);
            assert(cell@ =~= moved(cv[r as int], d));
            let ghost (cells_before, v) = (cell_views(out@), cell@);
            let ghost (old_rows, old_blocks) = (rows@, blocks);
            rows.push(r);
            out.push(cell);
            proof {
                blocks = blocks.push(d);
                assert(cell_views(out@) =~= cells_before.push(v));
                assert(moved_cells(cv, rows@, blocks) =~= moved_cells(
                    cv,
                    old_rows,
                    old_blocks,
                ).push(moved(cv[r as int], d)));
                assert(g.rows@.take(i + 1) =~= g.rows@.take(i as int).push(r));
                assert(rows@ =~= rows_before + g.rows@.take(i + 1));
                assert(blocks =~= blocks_before + Seq::new((i + 1) as nat, |i: int| d));
            }
            i = i + 1;
        }
        assert(g.rows@.take(i as int) =~= g.rows@);
        assert(blocks =~= blocks_of(gv, drawn@, (d + 1) as nat));
        d = d + 1;
    }
    Resample { rows, cells: out }
}

/// The first role of a resample: as many levels as draws.
pub fn drawn_role(role: &ReplicateRole, draws: usize) -> (r: ReplicateRole)
    requires
        draws <= i64::MAX,
    ensures
        r.name@ == role.name@,
        r.levels@.len() == draws,
        forall|i: int| 0 <= i < draws ==> #[trigger] r.levels@[i] == FactorValue::Int((i + 1) as i64),
{
    let mut levels: Vec<FactorValue> = Vec::new();
    let mut i: usize = 0;
    while i < draws
        invariant
            i <= draws,
            draws <= i64::MAX,
            levels@.len() == i,
            forall|k: int|
                0 <= k < i ==> #[trigger] levels@[k] == FactorValue::Int((k + 1) as i64),
        decreases draws - i,
    {
        levels.push(FactorValue::Int(i as i64 + 1));
        i = i + 1;
    }
    ReplicateRole { name: role.name.clone(), levels }
}

/// The roles of a resample: the first with as many levels as draws.
pub fn drawn_roles(roles: &[ReplicateRole], draws: usize) -> (out: Vec<ReplicateRole>)
    requires
        roles@.len() > 0,
        draws <= i64::MAX,
    ensures
        role_views(out@) == with_draws(role_views(roles@), draws as nat),
{
    let ghost rv = role_views(roles@);
    let first: ReplicateRole = drawn_role(&roles[0], draws);
    assert(rv[0] == roles@[0]@);
    assert(first@ =~= RoleView { name: rv[0].name, levels: drawn_levels(draws as nat) });
    let mut out: Vec<ReplicateRole> = Vec::new();
    out.push(first);
    let mut i: usize = 1;
    while i < roles.len()
        invariant
            1 <= i <= roles@.len(),
            rv == role_views(roles@),
            out@.len() == i,
            out@[0]@ == (RoleView { name: rv[0].name, levels: drawn_levels(draws as nat) }),
            forall|k: int| 1 <= k < i ==> (#[trigger] out@[k])@ == rv[k],
        decreases roles@.len() - i,
    {
        assert(rv[i as int] == roles@[i as int]@);
        let r: ReplicateRole = ReplicateRole {
            name: roles[i].name.clone(),
            levels: copy_values(&roles[i].levels),
        };
        assert(r@ =~= rv[i as int]);
        out.push(r);
        i = i + 1;
    }
    assert(role_views(out@) =~= with_draws(rv, draws as nat));
    out
}

/// The levels of as many draws.
pub open spec fn drawn_levels(draws: nat) -> Seq<ValueView> {
    Seq::new(draws, |i: int| ValueView::Int(i + 1))
}

/// The roles with as many levels of the first as draws.
pub open spec fn with_draws(roles: Seq<RoleView>, draws: nat) -> Seq<RoleView> {
    roles.update(0, RoleView { name: roles[0].name, levels: drawn_levels(draws) })
}

/// The column of a resample that stands for column `j`, where the first role has
/// `levels` levels and the resample `draws`. Blocks are told apart by their place.
pub open spec fn drawn_place(j: nat, levels: nat, draws: nat) -> Option<nat> {
    if j < levels || levels == 0 {
        if j == 0 || j < draws {
            Some(j)
        } else {
            None
        }
    } else {
        Some((j - levels + draws) as nat)
    }
}

/// The column of a resample that stands for column `j`.
pub fn resampled_place(j: usize, levels: usize, draws: usize) -> (r: Option<usize>)
    requires
        levels > 0,
        draws > 0,
        j + draws <= usize::MAX,
    ensures
        match r {
            Some(k) => drawn_place(j as nat, levels as nat, draws as nat) == Some(k as nat),
            None => drawn_place(j as nat, levels as nat, draws as nat) is None,
        },
{
    if j < levels {
        if j == 0 || j < draws {
            Some(j)
        } else {
            None
        }
    } else {
        Some(j - levels + draws)
    }
}

proof fn lemma_block_columns(roles: Seq<RoleView>, draws: nat, n: nat)
    requires
        0 < n <= roles.len(),
        roles[0].levels.len() > 0,
        draws > 0,
    ensures
        ({
            let (a, b) = (block_columns(roles, n), block_columns(with_draws(roles, draws), n));
            let (x, y) = (roles[0].levels.len() - 1, draws - 1);
            &&& a.len() >= x
            &&& b.len() == a.len() - x + y
            &&& forall|k: int| x <= k < a.len() ==> #[trigger] a[k] == b[k - x + y]
        }),
    decreases n,
{
    let more = with_draws(roles, draws);
    let (a, b) = (block_columns(roles, n), block_columns(more, n));
    let (x, y) = (roles[0].levels.len() - 1, draws - 1);
    if n == 1 {
        assert(block_columns(roles, 0) =~= Seq::empty());
        assert(block_columns(more, 0) =~= Seq::empty());
    } else {
        lemma_block_columns(roles, draws, (n - 1) as nat);
        let front = block_columns(roles, (n - 1) as nat);
        assert(more[n - 1] == roles[n - 1]);
        assert forall|k: int| x <= k < a.len() implies #[trigger] a[k] == b[k - x + y] by {
            if k < front.len() {
                assert(a[k] == front[k]);
            }
        }
    }
}

/// Every column but the blocks of the first role has its own column in a resample.
pub proof fn resamples_keep_the_columns(
    factors: Seq<FactorView>,
    roles: Seq<RoleView>,
    terms: Seq<Seq<usize>>,
    draws: nat,
    j: nat,
)
    requires
        roles.len() > 0,
        roles[0].levels.len() > 0,
        draws > 0,
        j == 0 || roles[0].levels.len() <= j,
        j < column_list(factors, roles, terms, 0).len(),
    ensures
        drawn_place(j, roles[0].levels.len(), draws) matches Some(k) && k < column_list(
            factors,
            with_draws(roles, draws),
            terms,
            0,
        ).len() && column_list(factors, with_draws(roles, draws), terms, 0)[k as int]
            == column_list(factors, roles, terms, 0)[j as int],
{
    lemma_block_columns(roles, draws, roles.len());
    let a = block_columns(roles, roles.len());
    let b = block_columns(with_draws(roles, draws), roles.len());
    if j > 0 && j <= a.len() {
        assert(a[j - 1] == b[j - roles[0].levels.len() + draws - 1]);
    }
}

} // verus!
