//! The runs of a design in execution order, and the rows of its table.
use vstd::prelude::*;

use super::types::{
    find_setting, optional_text, optional_unit, run_views, setting_of, setting_views, Design,
    ParsedDesign, ParsedView, Run, RunView, Setting, SettingView,
};
use crate::factor::{factor_views, value_text, Factor, FactorView};
use crate::model::estimability::EstimabilityReport;
use crate::model::matrix::{
    cell_views, cell_wf, cells_wf, number_units, role_views, unit_keys, unit_wf, Cell, CellView,
    ReplicateRole, RoleView, Unit, UnitView,
};
use crate::oa::ArrayInfo;
use crate::rng::{shuffle_is_permutation, shuffled, Rng};
use crate::text::{
    char_count, chars_of, decimal, decimal_text, lemma_padded_value, padded, padded_text, part,
    string_of, views,
};
use crate::tuples::{distinct, lemma_distinct};

verus! {

// ===== Execution order =====

/// The cell numbers of a block.
pub open spec fn block_cells(base: nat, b: nat) -> Seq<usize> {
    Seq::new(base, |i: int| (b * base + i) as usize)
}

/// The execution order of a block and the generator's state behind it.
pub open spec fn block_order(state: u64, base: nat, b: nat, shuffle: bool) -> (Seq<usize>, u64) {
    if shuffle {
        shuffled(
            state,
            block_cells(base, b),
            if base == 0 {
                0
            } else {
                (base - 1) as nat
            },
        )
    } else {
        (block_cells(base, b), state)
    }
}

/// The execution order of the first `n` blocks: each block in an order of its
/// own, the blocks one after another.
pub open spec fn execution(state: u64, base: nat, n: nat, shuffle: bool) -> (Seq<usize>, u64)
    decreases n,
{
    if n == 0 {
        (Seq::empty(), state)
    } else {
        let before = execution(state, base, (n - 1) as nat, shuffle);
        let block = block_order(before.1, base, (n - 1) as nat, shuffle);
        (before.0 + block.0, block.1)
    }
}

proof fn lemma_execution_len(state: u64, base: nat, n: nat, shuffle: bool)
    requires
        base <= u64::MAX,
    ensures
        execution(state, base, n, shuffle).0.len() == n * base,
    decreases n,
{
    if n > 0 {
        lemma_execution_len(state, base, (n - 1) as nat, shuffle);
        let s = execution(state, base, (n - 1) as nat, shuffle).1;
        if shuffle {
            shuffle_is_permutation(
                s,
                block_cells(base, (n - 1) as nat),
                if base == 0 {
                    0
                } else {
                    (base - 1) as nat
                },
            );
        }
        assert(n * base == (n - 1) * base + base) by (nonlinear_arith);
    } else {
        assert(0 * base == 0) by (nonlinear_arith);
    }
}

/// Replicate blocks stay whole: the runs at the places of block `b` are exactly
/// the cells of block `b`, whatever the seed.
pub proof fn blocks_stay_whole(state: u64, base: nat, n: nat, shuffle: bool, b: nat)
    requires
        b < n,
        base <= u64::MAX,
    ensures
        0 <= b * base <= (b + 1) * base <= execution(state, base, n, shuffle).0.len(),
        execution(state, base, n, shuffle).0.subrange(
            (b * base) as int,
            ((b + 1) * base) as int,
        ).to_multiset() == block_cells(base, b).to_multiset(),
    decreases n,
{
    lemma_execution_len(state, base, n, shuffle);
    lemma_execution_len(state, base, (n - 1) as nat, shuffle);
    let all = execution(state, base, n, shuffle).0;
    let before = execution(state, base, (n - 1) as nat, shuffle);
    assert((b + 1) * base == b * base + base) by (nonlinear_arith);
    assert(b * base <= (n - 1) * base && (b + 1) * base <= n * base) by (nonlinear_arith)
        requires
            b < n,
            base >= 0,
    ;
    let (lo, hi) = ((b * base) as int, ((b + 1) * base) as int);
    if b == n - 1 {
        let block = block_order(before.1, base, b, shuffle).0;
        assert(n * base == (n - 1) * base + base) by (nonlinear_arith);
        assert(all.subrange(lo, hi) =~= block);
        if shuffle {
            shuffle_is_permutation(
                before.1,
                block_cells(base, b),
                if base == 0 {
                    0
                } else {
                    (base - 1) as nat
                },
            );
        }
    } else {
        blocks_stay_whole(state, base, (n - 1) as nat, shuffle, b);
        assert((b + 1) * base <= (n - 1) * base) by (nonlinear_arith)
            requires
                b + 1 <= n - 1,
                base >= 0,
        ;
        assert(all.subrange(lo, hi) =~= before.0.subrange(lo, hi));
    }
}

/// Without a shuffle the execution order is the design order.
pub proof fn unshuffled_is_design_order(state: u64, base: nat, n: nat, i: int)
    requires
        0 <= i < n * base,
        n * base <= usize::MAX,
        base <= u64::MAX,
    ensures
        execution(state, base, n, false).0.len() == n * base,
        execution(state, base, n, false).0[i] == i,
    decreases n,
{
    lemma_execution_len(state, base, n, false);
    assert(n > 0) by (nonlinear_arith)
        requires
            0 <= i < n * base,
            n >= 0,
            base >= 0,
    ;
    lemma_execution_len(state, base, (n - 1) as nat, false);
    assert(n * base == (n - 1) * base + base) by (nonlinear_arith);
    if i < (n - 1) * base {
        unshuffled_is_design_order(state, base, (n - 1) as nat, i);
    }
}

/// The execution order of a design: Fisher–Yates inside each replicate block,
/// blocks in level order.
pub fn execution_order(seed: u64, base_rows: usize, blocks: usize, shuffle: bool) -> (order: Vec<usize>)
    requires
        blocks * base_rows <= usize::MAX,
    ensures
        order@ == execution(seed, base_rows as nat, blocks as nat, shuffle).0,
        order@.len() == blocks * base_rows,
        forall|i: int| 0 <= i < order@.len() ==> #[trigger] order@[i] < blocks * base_rows,
{
    let mut rng: Rng = Rng::new(seed);
    let mut order: Vec<usize> = Vec::new();
    let ghost base = base_rows as nat;
    let mut b: usize = 0;
    while b < blocks
        invariant
            b <= blocks,
            base == base_rows,
            blocks * base_rows <= usize::MAX,
            (order@, rng@) == execution(seed, base, b as nat, shuffle),
            forall|i: int| 0 <= i < order@.len() ==> #[trigger] order@[i] < blocks * base_rows,
        decreases blocks - b,
    {
        proof {
            assert((b + 1) * base_rows == b * base_rows + base_rows) by (nonlinear_arith);
            assert((b + 1) * base_rows <= blocks * base_rows) by (nonlinear_arith)
                requires
                    b + 1 <= blocks,
                    base_rows >= 0,
            ;
            assert(b * base_rows >= 0) by (nonlinear_arith);
        }
        let start: usize = b * base_rows;
        let mut cells: Vec<usize> = Vec::new();
        let mut i: usize = 0;
        while i < base_rows
            invariant
                i <= base_rows,
                start == b * base_rows,
                start + base_rows <= usize::MAX,
                cells@.len() == i,
                forall|k: int| 0 <= k < i ==> #[trigger] cells@[k] == start + k,
            decreases base_rows - i,
        {
            cells.push(start + i);
            i = i + 1;
        }
        let ghost plain = cells@;
        assert(plain =~= block_cells(base, b as nat)) by {
            assert forall|k: int| 0 <= k < base implies plain[k] == block_cells(base, b as nat)[k] by {}
        }
        if shuffle {
            rng.shuffle(&mut cells);
        }
        proof {
            assert(cells@.to_multiset() == plain.to_multiset());
            broadcast use vstd::seq_lib::group_to_multiset_ensures;
            assert forall|k: int| 0 <= k < cells@.len() implies #[trigger] cells@[k] < blocks
                * base_rows by {
                assert(cells@.contains(cells@[k]));
                assert(cells@.to_multiset().count(cells@[k]) > 0);
                assert(plain.contains(cells@[k]));
                let m = choose|m: int| 0 <= m < plain.len() && plain[m] == cells@[k];
                assert(plain[m] == start + m);
            }
        }
        let ghost before = order@;
        let ghost block = cells@;
        order.append(&mut cells);
        assert(order@ =~= before + block);
        b = b + 1;
    }
    proof {
        lemma_execution_len(seed, base, blocks as nat, shuffle);
    }
    order
}

// ===== Units =====

/// The unit id of a cell: numbered by the first appearance of its key.
pub open spec fn unit_id(
    cells: Seq<CellView>,
    unit: Option<UnitView>,
    factors: Seq<FactorView>,
    roles: Seq<RoleView>,
    i: int,
) -> Option<Seq<char>> {
    match unit {
        None => None,
        Some(u) => {
            let keys = unit_keys(cells, u, factors, roles);
            Some("u"@ + padded((distinct(keys).index_of(keys[i]) + 1) as nat, 4))
        },
    }
}

/// Two cells share a unit id exactly if they share the key.
pub proof fn unit_ids_follow_keys(
    cells: Seq<CellView>,
    unit: UnitView,
    factors: Seq<FactorView>,
    roles: Seq<RoleView>,
    i: int,
    j: int,
)
    requires
        0 <= i < cells.len(),
        0 <= j < cells.len(),
    ensures
        unit_id(cells, Some(unit), factors, roles, i) == unit_id(
            cells,
            Some(unit),
            factors,
            roles,
            j,
        ) <==> unit_keys(cells, unit, factors, roles)[i] == unit_keys(
            cells,
            unit,
            factors,
            roles,
        )[j],
{
    let keys = unit_keys(cells, unit, factors, roles);
    let d = distinct(keys);
    lemma_distinct(keys);
    assert(keys.contains(keys[i]) && keys.contains(keys[j]));
    assert(d.contains(keys[i]) && d.contains(keys[j]));
    let (a, b) = (d.index_of(keys[i]), d.index_of(keys[j]));
    assert(0 <= a < d.len() && d[a] == keys[i]);
    assert(0 <= b < d.len() && d[b] == keys[j]);
    let (x, y) = (padded((a + 1) as nat, 4), padded((b + 1) as nat, 4));
    lemma_padded_value((a + 1) as nat, 4);
    lemma_padded_value((b + 1) as nat, 4);
    if "u"@ + x == "u"@ + y {
        assert(x =~= ("u"@ + x).skip("u"@.len() as int));
        assert(y =~= ("u"@ + y).skip("u"@.len() as int));
        assert(x == y);
    }
}

/// One unit id per cell, by first appearance of the key values; none where the
/// design declares no unit.
pub fn unit_ids(
    unit: &Option<Unit>,
    factors: &[Factor],
    replicates: &[ReplicateRole],
    cells: &[Cell],
) -> (ids: Vec<Option<String>>)
    requires
        cells_wf(cell_views(cells@), factor_views(factors@), role_views(replicates@)),
        unit matches Some(u) ==> unit_wf(u@, factor_views(factors@), role_views(replicates@)),
    ensures
        ids@.len() == cells@.len(),
        forall|i: int|
            0 <= i < ids@.len() ==> optional_text(#[trigger] ids@[i]) == unit_id(
                cell_views(cells@),
                optional_unit(*unit),
                factor_views(factors@),
                role_views(replicates@),
                i,
            ),
{
    let ghost (cv, fv, rv) = (cell_views(cells@), factor_views(factors@), role_views(replicates@));
    let mut ids: Vec<Option<String>> = Vec::new();
    match unit {
        None => {
            let mut i: usize = 0;
            while i < cells.len()
                invariant
                    i <= cells@.len(),
                    ids@.len() == i,
                    forall|k: int| 0 <= k < i ==> (#[trigger] ids@[k]) is None,
                decreases cells@.len() - i,
            {
                ids.push(None);
                i = i + 1;
            }
        },
        Some(u) => {
            proof {
                assert forall|i: int| 0 <= i < cells@.len() implies (
                #[trigger] cells@[i])@.factors.len() == factors@.len() && cells@[i]@.roles.len()
                    == replicates@.len() by {
                    assert(cv[i] == cells@[i]@);
                    assert(cell_wf(cv[i], fv, rv));
                }
            }
            let (numbers, count): (Vec<usize>, usize) = number_units(cells, u, factors, replicates);
            let ghost keys = unit_keys(cv, u@, fv, rv);
            let mut i: usize = 0;
            while i < cells.len()
                invariant
                    i <= cells@.len(),
                    numbers@.len() == cells@.len(),
                    keys == unit_keys(cv, u@, fv, rv),
                    forall|k: int|
                        0 <= k < cells@.len() ==> #[trigger] numbers@[k] == distinct(keys).index_of(
                            keys[k],
                        ) && numbers@[k] < count,
                    ids@.len() == i,
                    forall|k: int|
                        0 <= k < i ==> optional_text(#[trigger] ids@[k]) == unit_id(
                            cv,
                            Some(u@),
                            fv,
                            rv,
                            k,
                        ),
                decreases cells@.len() - i,
            {
                assert(numbers@[i as int] < count);
                let mut s: String = String::new();
                s.append("u");
                let n: String = padded_text(numbers[i] as u64 + 1, 4);
                s.append(n.as_str());
                assert(s@ =~= "u"@ + padded((numbers@[i as int] + 1) as nat, 4));
                ids.push(Some(s));
                i = i + 1;
            }
        },
    }
    ids
}

// ===== Runs =====

/// The settings of factors at level numbers.
pub open spec fn factor_settings(factors: Seq<FactorView>, levels: Seq<usize>) -> Seq<SettingView> {
    Seq::new(
        factors.len(),
        |i: int|
            SettingView { name: factors[i].name, value: factors[i].values[levels[i] as int] },
    )
}

/// The settings of roles at level numbers.
pub open spec fn role_settings(roles: Seq<RoleView>, levels: Seq<usize>) -> Seq<SettingView> {
    Seq::new(
        roles.len(),
        |i: int| SettingView { name: roles[i].name, value: roles[i].levels[levels[i] as int] },
    )
}

pub fn settings_of_factors(factors: &[Factor], levels: &Vec<usize>) -> (out: Vec<Setting>)
    requires
        levels@.len() == factors@.len(),
        forall|i: int|
            0 <= i < factors@.len() ==> #[trigger] levels@[i] < factor_views(
                factors@,
            )[i].values.len(),
    ensures
        setting_views(out@) == factor_settings(factor_views(factors@), levels@),
{
    let ghost fv = factor_views(factors@);
    let mut out: Vec<Setting> = Vec::new();
    let mut i: usize = 0;
    while i < factors.len()
        invariant
            i <= factors@.len(),
            fv == factor_views(factors@),
            levels@.len() == factors@.len(),
            forall|k: int| 0 <= k < factors@.len() ==> #[trigger] levels@[k] < fv[k].values.len(),
            out@.len() == i,
            forall|k: int|
                0 <= k < i ==> (#[trigger] out@[k])@ == factor_settings(fv, levels@)[k],
        decreases factors@.len() - i,
    {
        assert(fv[i as int] == factors@[i as int]@);
        assert(levels@[i as int] < fv[i as int].values.len());
        let s: Setting = Setting {
            name: factors[i].name.clone(),
            value: factors[i].values[levels[i]].copy(),
        };
        assert(s@ =~= factor_settings(fv, levels@)[i as int]);
        out.push(s);
        i = i + 1;
    }
    assert(setting_views(out@) =~= factor_settings(fv, levels@));
    out
}

pub fn settings_of_roles(roles: &[ReplicateRole], levels: &Vec<usize>) -> (out: Vec<Setting>)
    requires
        levels@.len() == roles@.len(),
        forall|i: int|
            0 <= i < roles@.len() ==> #[trigger] levels@[i] < role_views(roles@)[i].levels.len(),
    ensures
        setting_views(out@) == role_settings(role_views(roles@), levels@),
{
    let ghost rv = role_views(roles@);
    let mut out: Vec<Setting> = Vec::new();
    let mut i: usize = 0;
    while i < roles.len()
        invariant
            i <= roles@.len(),
            rv == role_views(roles@),
            levels@.len() == roles@.len(),
            forall|k: int| 0 <= k < roles@.len() ==> #[trigger] levels@[k] < rv[k].levels.len(),
            out@.len() == i,
            forall|k: int| 0 <= k < i ==> (#[trigger] out@[k])@ == role_settings(rv, levels@)[k],
        decreases roles@.len() - i,
    {
        assert(rv[i as int] == roles@[i as int]@);
        assert(levels@[i as int] < rv[i as int].levels.len());
        let s: Setting = Setting {
            name: roles[i].name.clone(),
            value: roles[i].levels[levels[i]].copy(),
        };
        assert(s@ =~= role_settings(rv, levels@)[i as int]);
        out.push(s);
        i = i + 1;
    }
    assert(setting_views(out@) =~= role_settings(rv, levels@));
    out
}

/// The number of digits of run ids.
pub open spec fn id_width(runs: nat) -> nat {
    if decimal(runs).len() > 4 {
        decimal(runs).len()
    } else {
        4
    }
}

/// The run that executes a cell at a position.
pub open spec fn run_of(
    p: ParsedView,
    cells: Seq<CellView>,
    base: nat,
    position: int,
    cell: int,
) -> RunView {
    RunView {
        run_id: "r"@ + padded((cell + 1) as nat, id_width(cells.len())),
        order: (position + 1) as nat,
        design_row: (cell % base as int) as nat,
        factors: factor_settings(p.factors, cells[cell].factors),
        replicates: role_settings(p.replicates, cells[cell].roles),
        unit: unit_id(cells, p.unit, p.factors, p.replicates, cell),
    }
}

/// The runs of a design in execution order.
pub open spec fn runs_of(
    p: ParsedView,
    cells: Seq<CellView>,
    base: nat,
    order: Seq<usize>,
) -> Seq<RunView> {
    Seq::new(order.len(), |k: int| run_of(p, cells, base, k, order[k] as int))
}

/// The runs of a design in the given execution order of its cells.
pub fn plan_runs(parsed: &ParsedDesign, cells: &[Cell], base_rows: usize, order: &Vec<usize>) -> (runs:
    Vec<Run>)
    requires
        cells_wf(cell_views(cells@), parsed@.factors, parsed@.replicates),
        parsed@.unit matches Some(u) ==> unit_wf(u, parsed@.factors, parsed@.replicates),
        base_rows > 0,
        forall|i: int| 0 <= i < order@.len() ==> #[trigger] order@[i] < cells@.len(),
    ensures
        run_views(runs@) == runs_of(parsed@, cell_views(cells@), base_rows as nat, order@),
{
    let ghost cv = cell_views(cells@);
    let ghost p = parsed@;
    let ids: Vec<Option<String>> = unit_ids(
        &parsed.unit,
        &parsed.factors,
        &parsed.replicates,
        cells,
    );
    let total: usize = cells.len();
    let digits: String = decimal_text(total);
    let len: usize = char_count(digits.as_str());
    let width: usize = if len > 4 { len } else { 4 };
    let mut runs: Vec<Run> = Vec::new();
    let mut k: usize = 0;
    while k < order.len()
        invariant
            k <= order@.len(),
            p == parsed@,
            cv == cell_views(cells@),
            total == cells@.len(),
            cells_wf(cv, p.factors, p.replicates),
            base_rows > 0,
            width == id_width(cv.len()),
            ids@.len() == cells@.len(),
            forall|i: int|
                0 <= i < ids@.len() ==> optional_text(#[trigger] ids@[i]) == unit_id(
                    cv,
                    p.unit,
                    p.factors,
                    p.replicates,
                    i,
                ),
            forall|i: int| 0 <= i < order@.len() ==> #[trigger] order@[i] < cells@.len(),
            runs@.len() == k,
            forall|i: int|
                0 <= i < k ==> (#[trigger] runs@[i])@ == run_of(
                    p,
                    cv,
                    base_rows as nat,
                    i,
                    order@[i] as int,
                ),
        decreases order@.len() - k,
    {
        let cell: usize = order[k];
        assert(order@[k as int] < cells@.len());
        let c: &Cell = &cells[cell];
        assert(cv[cell as int] == c@);
        assert(cell_wf(cv[cell as int], p.factors, p.replicates));
        let mut run_id: String = String::new();
        run_id.append("r");
        let number: String = padded_text(cell as u64 + 1, width);
        run_id.append(number.as_str());
        assert(run_id@ =~= "r"@ + padded((cell + 1) as nat, width as nat));
        let unit: Option<String> = match &ids[cell] {
            Some(s) => Some(s.clone()),
            None => None,
        };
        assert(optional_text(ids@[cell as int]) == unit_id(
            cv,
            p.unit,
            p.factors,
            p.replicates,
            cell as int,
        ));
        assert forall|i: int| 0 <= i < parsed.factors@.len() implies (
        #[trigger] c.factor_levels@[i]) < factor_views(parsed.factors@)[i].values.len() by {
            assert(c@.factors[i] < p.factors[i].values.len());
        }
        assert forall|i: int| 0 <= i < parsed.replicates@.len() implies (
        #[trigger] c.replicate_levels@[i]) < role_views(parsed.replicates@)[i].levels.len() by {
            assert(c@.roles[i] < p.replicates[i].levels.len());
        }
        let run: Run = Run {
            run_id,
            order: k + 1,
            design_row: cell % base_rows,
            factors: settings_of_factors(&parsed.factors, &c.factor_levels),
            replicates: settings_of_roles(&parsed.replicates, &c.replicate_levels),
            unit,
        };
        assert(run@ =~= run_of(p, cv, base_rows as nat, k as int, cell as int));
        runs.push(run);
        k = k + 1;
    }
    assert(run_views(runs@) =~= runs_of(p, cv, base_rows as nat, order@));
    runs
}

// ===== The table =====

/// The names of factors.
pub open spec fn names_of_factors(factors: Seq<FactorView>) -> Seq<Seq<char>> {
    factors.map_values(|f: FactorView| f.name)
}

/// The names of roles.
pub open spec fn names_of_roles(roles: Seq<RoleView>) -> Seq<Seq<char>> {
    roles.map_values(|r: RoleView| r.name)
}

/// The header of the table: run id, order, factors, roles, unit, results.
pub open spec fn header_of(p: ParsedView) -> Seq<Seq<char>> {
    seq!["run_id"@, "order"@] + names_of_factors(p.factors) + names_of_roles(p.replicates) + (
    match p.unit {
        Some(u) => seq![u.name],
        None => Seq::empty(),
    }) + p.results
}

/// The text of a setting.
pub open spec fn setting_text(s: Seq<SettingView>, name: Seq<char>) -> Seq<char> {
    value_text(setting_of(s, name, s.len())->0)
}

/// The row of a run: its result cells are empty.
pub open spec fn record_of(p: ParsedView, run: RunView) -> Seq<Seq<char>> {
    seq![run.run_id, decimal(run.order)] + Seq::new(
        p.factors.len(),
        |i: int| setting_text(run.factors, p.factors[i].name),
    ) + Seq::new(
        p.replicates.len(),
        |i: int| setting_text(run.replicates, p.replicates[i].name),
    ) + (match p.unit {
        Some(_) => seq![
            match run.unit {
                Some(s) => s,
                None => Seq::empty(),
            },
        ],
        None => Seq::empty(),
    }) + Seq::new(p.results.len(), |i: int| Seq::empty())
}

/// The run sets every factor and every role.
pub open spec fn run_complete(p: ParsedView, run: RunView) -> bool {
    &&& forall|i: int|
        0 <= i < p.factors.len() ==> setting_of(
            run.factors,
            (#[trigger] p.factors[i]).name,
            run.factors.len(),
        ) is Some
    &&& forall|i: int|
        0 <= i < p.replicates.len() ==> setting_of(
            run.replicates,
            (#[trigger] p.replicates[i]).name,
            run.replicates.len(),
        ) is Some
}

fn push_text(out: &mut Vec<String>, s: String)
    ensures
        views(final(out)@) == views(old(out)@).push(s@),
{
    let ghost before = views(out@);
    let ghost v = s@;
    out.push(s);
    assert(views(out@) =~= before.push(v));
}

/// The header of the table.
pub fn table_header(parsed: &ParsedDesign) -> (out: Vec<String>)
    ensures
        views(out@) == header_of(parsed@),
{
    let ghost p = parsed@;
    let mut out: Vec<String> = Vec::new();
    assert(views(out@) =~= Seq::empty());
    push_text(&mut out, "run_id".to_owned());
    push_text(&mut out, "order".to_owned());
    let ghost head = seq!["run_id"@, "order"@];
    assert(views(out@) =~= head);
    let ghost fn_all = names_of_factors(p.factors);
    let mut i: usize = 0;
    assert(head + fn_all.take(0) =~= head);
    while i < parsed.factors.len()
        invariant
            i <= parsed.factors@.len(),
            p == parsed@,
            fn_all == names_of_factors(p.factors),
            views(out@) == head + fn_all.take(i as int),
        decreases parsed.factors@.len() - i,
    {
        push_text(&mut out, parsed.factors[i].name.clone());
        assert(p.factors[i as int] == parsed.factors@[i as int]@);
        assert(head + fn_all.take(i + 1) =~= (head + fn_all.take(i as int)).push(fn_all[i as int]));
        i = i + 1;
    }
    assert(fn_all.take(i as int) =~= fn_all);
    let ghost head = head + fn_all;
    let ghost rn_all = names_of_roles(p.replicates);
    let mut r: usize = 0;
    assert(head + rn_all.take(0) =~= head);
    while r < parsed.replicates.len()
        invariant
            r <= parsed.replicates@.len(),
            p == parsed@,
            rn_all == names_of_roles(p.replicates),
            views(out@) == head + rn_all.take(r as int),
        decreases parsed.replicates@.len() - r,
    {
        push_text(&mut out, parsed.replicates[r].name.clone());
        assert(p.replicates[r as int] == parsed.replicates@[r as int]@);
        assert(head + rn_all.take(r + 1) =~= (head + rn_all.take(r as int)).push(rn_all[r as int]));
        r = r + 1;
    }
    assert(rn_all.take(r as int) =~= rn_all);
    match &parsed.unit {
        Some(u) => {
            push_text(&mut out, u.name.clone());
        },
        None => {},
    }
    let ghost head = views(out@);
    let mut k: usize = 0;
    assert(head + p.results.take(0) =~= head);
    while k < parsed.results.len()
        invariant
            k <= parsed.results@.len(),
            p == parsed@,
            views(out@) == head + p.results.take(k as int),
        decreases parsed.results@.len() - k,
    {
        push_text(&mut out, parsed.results[k].clone());
        assert(p.results[k as int] == parsed.results@[k as int]@);
        assert(head + p.results.take(k + 1) =~= (head + p.results.take(k as int)).push(
            p.results[k as int],
        ));
        k = k + 1;
    }
    assert(p.results.take(k as int) =~= p.results);
    assert(views(out@) =~= header_of(p));
    out
}

fn text_of_setting(s: &Vec<Setting>, name: &str) -> (t: String)
    requires
        setting_of(setting_views(s@), name@, s@.len()) is Some,
    ensures
        t@ == setting_text(setting_views(s@), name@),
{
    assert(setting_views(s@).len() == s@.len());
    match find_setting(s, name) {
        Some(i) => s[i].value.to_text(),
        None => String::new(),
    }
}

/// The row of a run.
pub fn table_record(parsed: &ParsedDesign, run: &Run) -> (out: Vec<String>)
    requires
        run_complete(parsed@, run@),
    ensures
        views(out@) == record_of(parsed@, run@),
{
    let ghost p = parsed@;
    let ghost rv = run@;
    let mut out: Vec<String> = Vec::new();
    assert(views(out@) =~= Seq::empty());
    push_text(&mut out, run.run_id.clone());
    push_text(&mut out, decimal_text(run.order));
    let ghost head = seq![rv.run_id, decimal(rv.order)];
    assert(views(out@) =~= head);
    let ghost fs = Seq::new(
        p.factors.len(),
        |i: int| setting_text(rv.factors, p.factors[i].name),
    );
    let mut i: usize = 0;
    assert(head + fs.take(0) =~= head);
    while i < parsed.factors.len()
        invariant
            i <= parsed.factors@.len(),
            p == parsed@,
            rv == run@,
            run_complete(p, rv),
            fs == Seq::new(
                p.factors.len(),
                |i: int| setting_text(rv.factors, p.factors[i].name),
            ),
            views(out@) == head + fs.take(i as int),
        decreases parsed.factors@.len() - i,
    {
        assert(p.factors[i as int] == parsed.factors@[i as int]@);
        assert(setting_views(run.factors@).len() == run.factors@.len());
        push_text(&mut out, text_of_setting(&run.factors, parsed.factors[i].name.as_str()));
        assert(head + fs.take(i + 1) =~= (head + fs.take(i as int)).push(fs[i as int]));
        i = i + 1;
    }
    assert(fs.take(i as int) =~= fs);
    let ghost head = head + fs;
    let ghost rs = Seq::new(
        p.replicates.len(),
        |i: int| setting_text(rv.replicates, p.replicates[i].name),
    );
    let mut r: usize = 0;
    assert(head + rs.take(0) =~= head);
    while r < parsed.replicates.len()
        invariant
            r <= parsed.replicates@.len(),
            p == parsed@,
            rv == run@,
            run_complete(p, rv),
            rs == Seq::new(
                p.replicates.len(),
                |i: int| setting_text(rv.replicates, p.replicates[i].name),
            ),
            views(out@) == head + rs.take(r as int),
        decreases parsed.replicates@.len() - r,
    {
        assert(p.replicates[r as int] == parsed.replicates@[r as int]@);
        assert(setting_views(run.replicates@).len() == run.replicates@.len());
        push_text(&mut out, text_of_setting(&run.replicates, parsed.replicates[r].name.as_str()));
        assert(head + rs.take(r + 1) =~= (head + rs.take(r as int)).push(rs[r as int]));
        r = r + 1;
    }
    assert(rs.take(r as int) =~= rs);
    if parsed.unit.is_some() {
        match &run.unit {
            Some(s) => {
                push_text(&mut out, s.clone());
            },
            None => {
                let none: String = String::new();
                assert(none@ =~= Seq::empty());
                push_text(&mut out, none);
            },
        }
    }
    let ghost head = views(out@);
    let ghost blanks = Seq::new(p.results.len(), |i: int| Seq::<char>::empty());
    let mut k: usize = 0;
    assert(head + blanks.take(0) =~= head);
    while k < parsed.results.len()
        invariant
            k <= parsed.results@.len(),
            p == parsed@,
            blanks == Seq::new(p.results.len(), |i: int| Seq::<char>::empty()),
            views(out@) == head + blanks.take(k as int),
        decreases parsed.results@.len() - k,
    {
        let none: String = String::new();
        assert(none@ =~= Seq::empty());
        push_text(&mut out, none);
        assert(head + blanks.take(k + 1) =~= (head + blanks.take(k as int)).push(blanks[k as int]));
        k = k + 1;
    }
    assert(blanks.take(k as int) =~= blanks);
    assert(views(out@) =~= record_of(p, rv));
    out
}

/// Every planned run sets every factor and every role.
pub proof fn planned_runs_are_complete(
    p: ParsedView,
    cells: Seq<CellView>,
    base: nat,
    position: int,
    cell: int,
)
    ensures
        run_complete(p, run_of(p, cells, base, position, cell)),
{
    let run = run_of(p, cells, base, position, cell);
    assert forall|i: int| 0 <= i < p.factors.len() implies setting_of(
        run.factors,
        (#[trigger] p.factors[i]).name,
        run.factors.len(),
    ) is Some by {
        lemma_setting_found(run.factors, i, run.factors.len());
    }
    assert forall|i: int| 0 <= i < p.replicates.len() implies setting_of(
        run.replicates,
        (#[trigger] p.replicates[i]).name,
        run.replicates.len(),
    ) is Some by {
        lemma_setting_found(run.replicates, i, run.replicates.len());
    }
}

proof fn lemma_setting_found(s: Seq<SettingView>, i: int, n: nat)
    requires
        0 <= i < n <= s.len(),
    ensures
        setting_of(s, s[i].name, n) is Some,
    decreases n,
{
    if s[n - 1].name != s[i].name {
        lemma_setting_found(s, i, (n - 1) as nat);
    }
}

/// Among settings with different names, each name has its own value.
pub proof fn lemma_setting_is_last(s: Seq<SettingView>, i: int, n: nat)
    requires
        0 <= i < n <= s.len(),
        forall|j: int| i < j < n ==> (#[trigger] s[j]).name != s[i].name,
    ensures
        setting_of(s, s[i].name, n) == Some(s[i].value),
    decreases n,
{
    if n - 1 > i {
        assert(s[n - 1].name != s[i].name);
        lemma_setting_is_last(s, i, (n - 1) as nat);
    }
}

/// The runs of a design with the table that shows them.
#[derive(Debug)]
pub struct DesignPlan {
    pub runs: Vec<Run>,
    pub header: Vec<String>,
    /// Row `k` shows run `k`.
    pub records: Vec<Vec<String>>,
}

/// Plans the runs of a design: execution order, run ids, units and the table.
pub fn plan_design(
    parsed: &ParsedDesign,
    cells: &[Cell],
    base_rows: usize,
    seed: u64,
    no_shuffle: bool,
) -> (plan: DesignPlan)
    requires
        cells_wf(cell_views(cells@), parsed@.factors, parsed@.replicates),
        parsed@.unit matches Some(u) ==> unit_wf(u, parsed@.factors, parsed@.replicates),
        base_rows > 0,
    ensures
        run_views(plan.runs@) == runs_of(
            parsed@,
            cell_views(cells@),
            base_rows as nat,
            execution(
                seed,
                base_rows as nat,
                (cells@.len() / base_rows as nat) as nat,
                !no_shuffle,
            ).0,
        ),
        views(plan.header@) == header_of(parsed@),
        plan.records@.len() == plan.runs@.len(),
        forall|k: int|
            0 <= k < plan.records@.len() ==> views((#[trigger] plan.records@[k])@) == record_of(
                parsed@,
                run_views(plan.runs@)[k],
            ),
{
    let total: usize = cells.len();
    let blocks: usize = total / base_rows;
    assert(blocks * base_rows <= total) by (nonlinear_arith)
        requires
            blocks == total / base_rows,
            base_rows > 0,
    ;
    let order: Vec<usize> = execution_order(seed, base_rows, blocks, !no_shuffle);
    let runs: Vec<Run> = plan_runs(parsed, cells, base_rows, &order);
    let ghost rv = run_views(runs@);
    let mut records: Vec<Vec<String>> = Vec::new();
    let mut k: usize = 0;
    while k < runs.len()
        invariant
            k <= runs@.len(),
            rv == run_views(runs@),
            rv.len() == runs@.len(),
            rv == runs_of(parsed@, cell_views(cells@), base_rows as nat, order@),
            records@.len() == k,
            forall|i: int|
                0 <= i < k ==> views((#[trigger] records@[i])@) == record_of(parsed@, rv[i]),
        decreases runs@.len() - k,
    {
        assert(rv[k as int] == runs@[k as int]@);
        proof {
            planned_runs_are_complete(
                parsed@,
                cell_views(cells@),
                base_rows as nat,
                k as int,
                order@[k as int] as int,
            );
        }
        assert(rv.len() == order@.len());
        assert(rv[k as int] == run_of(
            parsed@,
            cell_views(cells@),
            base_rows as nat,
            k as int,
            order@[k as int] as int,
        ));
        records.push(table_record(parsed, &runs[k]));
        k = k + 1;
    }
    DesignPlan { runs, header: table_header(parsed), records }
}

// ===== The design =====

/// The sidecar of a new design.
pub fn new_design(
    parsed: ParsedDesign,
    array: ArrayInfo,
    estimability: EstimabilityReport,
    seed: u64,
    runs: Vec<Run>,
) -> (d: Design)
    ensures
        d.version == 2,
        d.factors == parsed.factors,
        d.results == parsed.results,
        d.models == parsed.models,
        d.replicates == parsed.replicates,
        d.unit == parsed.unit,
        d.array == array,
        d.randomization_seed == Some(seed),
        d.estimability == Some(estimability),
        d.runs == runs,
        d.augmentations@.len() == 0,
{
    Design {
        version: 2,
        factors: parsed.factors,
        results: parsed.results,
        models: parsed.models,
        replicates: parsed.replicates,
        unit: parsed.unit,
        array,
        randomization_seed: Some(seed),
        estimability: Some(estimability),
        runs,
        augmentations: Vec::new(),
    }
}

// ===== Paths =====

/// The path without separators and current-directory marks at its end.
pub open spec fn without_tail(s: Seq<char>) -> Seq<char>
    decreases s.len(),
{
    if s.len() >= 2 && (s.last() == '/' || (s.last() == '.' && s[s.len() - 2] == '/')) {
        without_tail(s.drop_last())
    } else {
        s
    }
}

/// The last place of a character before `n`.
pub open spec fn last_place(s: Seq<char>, c: char, n: nat) -> Option<nat>
    decreases n,
{
    if n == 0 {
        None
    } else if s[n - 1] == c {
        Some((n - 1) as nat)
    } else {
        last_place(s, c, (n - 1) as nat)
    }
}

/// The last component of a path, where it names a file.
pub open spec fn file_name_of(s: Seq<char>) -> Option<Seq<char>> {
    let t = without_tail(s);
    let name = match last_place(t, '/', t.len()) {
        Some(i) => t.skip(i as int + 1),
        None => t,
    };
    if name.len() == 0 || name == "."@ || name == ".."@ {
        None
    } else {
        Some(name)
    }
}

/// The directory of a path: empty where it has none, `.` where it names nothing.
pub open spec fn directory_of(s: Seq<char>) -> Seq<char> {
    let t = without_tail(s);
    if t.len() == 0 || t == "/"@ {
        "."@
    } else {
        match last_place(t, '/', t.len()) {
            None => Seq::empty(),
            Some(i) => if i == 0 {
                "/"@
            } else {
                without_tail(t.take(i as int))
            },
        }
    }
}

/// A file name without its last extension.
pub open spec fn stem_of(name: Seq<char>) -> Seq<char> {
    match last_place(name, '.', name.len()) {
        Some(i) => if i == 0 {
            name
        } else {
            name.take(i as int)
        },
        None => name,
    }
}

/// The path of the sidecar next to a table.
pub open spec fn sidecar_of(path: Seq<char>) -> Seq<char> {
    let stem = match file_name_of(path) {
        Some(name) => stem_of(name),
        None => "design"@,
    };
    let dir = directory_of(path);
    let file = stem + ".design.json"@;
    if dir.len() == 0 {
        file
    } else if dir.last() == '/' {
        dir + file
    } else {
        dir + "/"@ + file
    }
}

fn cut_tail(s: &Vec<char>) -> (out: Vec<char>)
    ensures
        out@ == without_tail(s@),
{
    let mut n: usize = s.len();
    assert(s@.take(n as int) =~= s@);
    while n >= 2 && (s[n - 1] == '/' || (s[n - 1] == '.' && s[n - 2] == '/'))
        invariant
            n <= s@.len(),
            without_tail(s@) == without_tail(s@.take(n as int)),
        decreases n,
    {
        assert(s@.take(n as int).drop_last() =~= s@.take(n - 1));
        n = n - 1;
    }
    let out: Vec<char> = part(s, 0, n);
    assert(out@ =~= s@.take(n as int));
    out
}

fn find_last(s: &Vec<char>, c: char) -> (r: Option<usize>)
    ensures
        match r {
            Some(i) => last_place(s@, c, s@.len()) == Some(i as nat) && i < s@.len(),
            None => last_place(s@, c, s@.len()) is None,
        },
{
    let mut n: usize = s.len();
    while n > 0
        invariant
            n <= s@.len(),
            last_place(s@, c, s@.len()) == last_place(s@, c, n as nat),
        decreases n,
    {
        if s[n - 1] == c {
            return Some(n - 1);
        }
        n = n - 1;
    }
    None
}

/// The path of the sidecar next to a table; paths are separated by `/`.
pub fn sidecar_path(csv_path: &str) -> (out: String)
    ensures
        out@ == sidecar_of(csv_path@),
{
    let raw: Vec<char> = chars_of(csv_path);
    let t: Vec<char> = cut_tail(&raw);
    let slash: Option<usize> = find_last(&t, '/');
    let end: usize = t.len();
    let name: Vec<char> = match slash {
        Some(i) => part(&t, i + 1, end),
        None => part(&t, 0, end),
    };
    proof {
        match slash {
            Some(i) => {
                assert(name@ =~= t@.skip(i as int + 1));
            },
            None => {
                assert(name@ =~= t@);
            },
        }
    }
    let mut file: String = String::new();
    if name.len() == 0 || crate::text::is_text(&name, ".") || crate::text::is_text(&name, "..") {
        file.append("design");
    } else {
        let end: usize = match find_last(&name, '.') {
            Some(i) => if i == 0 {
                name.len()
            } else {
                i
            },
            None => name.len(),
        };
        let stem: Vec<char> = part(&name, 0, end);
        assert(stem@ =~= stem_of(name@));
        let s: String = string_of(&stem);
        file.append(s.as_str());
    }
    file.append(".design.json");
    let mut out: String = String::new();
    if t.len() == 0 || crate::text::is_text(&t, "/") {
        out.append(".");
        out.append("/");
        assert(directory_of(csv_path@) == "."@);
        proof {
            reveal_strlit(".");
        }
    } else {
        match slash {
            None => {},
            Some(i) => {
                if i == 0 {
                    out.append("/");
                    proof {
                        reveal_strlit("/");
                    }
                } else {
                    let head: Vec<char> = part(&t, 0, i);
                    assert(head@ =~= t@.take(i as int));
                    let dir: Vec<char> = cut_tail(&head);
                    let d: String = string_of(&dir);
                    out.append(d.as_str());
                    proof {
                        lemma_tail_nonempty(head@);
                    }
                    if dir[dir.len() - 1] != '/' {
                        out.append("/");
                    }
                }
            },
        }
    }
    out.append(file.as_str());
    assert(out@ =~= sidecar_of(csv_path@));
    out
}

proof fn lemma_tail_nonempty(s: Seq<char>)
    requires
        s.len() > 0,
    ensures
        without_tail(s).len() > 0,
    decreases s.len(),
{
    if s.len() >= 2 && (s.last() == '/' || (s.last() == '.' && s[s.len() - 2] == '/')) {
        lemma_tail_nonempty(s.drop_last());
    }
}

} // verus!
