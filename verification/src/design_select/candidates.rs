//! The candidate base arrays in ascending row count.
use vstd::arithmetic::power::pow;
use vstd::prelude::*;

use super::assign::{assignments, assignments_of, assignments_are_ordered_injections, is_assignment, ASSIGNMENT_CAP};
use super::cells::{factorial_of, full_factorial};
use crate::factor::Factor;
use crate::oa::bush::{
    bush_at, bush_capacity, capacity, cell, depth, directions, find_depth, lemma_next_field_unique,
    next_prime_power_at_least, uniform,
};
use crate::oa::gf::{lemma_field_shape, power, supported, Gf};
use crate::oa::kronecker::{field_for, lemma_field_for};
use crate::oa::lookup::{
    column_list, column_numbers, columns_label, entries, entries_supplying, lookup_method, pick,
    picked, picked_levels, select_columns, supplying, CatalogEntry, EntryView,
};
use crate::oa::strength::grid;
use crate::oa::{counts, level_counts_of, ArrayInfo, Selected, SelectedView};
use crate::text::{decimal, push_decimal, separated};
use crate::tuples::{count_tuples, lists, tuple_count};

verus! {

/// A candidate base array. Catalog and Bush candidates stand for all
/// assignments of factors to their columns.
#[derive(Debug, Clone, Copy, PartialEq, Eq, Structural)]
pub enum Candidate {
    /// The array that is built without a model.
    Base,
    /// The full factorial.
    Factorial,
    /// An entry of the catalog.
    Catalog { entry: usize },
    /// The Bush array over GF(q) of depth k.
    Bush { q: usize, k: usize },
}

/// What the candidates are taken from.
#[verifier::ext_equal]
pub struct Source {
    pub levels: Seq<usize>,
    pub catalog: Seq<EntryView>,
    pub base: SelectedView,
}

/// Number of rows of a candidate.
pub open spec fn rows_of(src: Source, c: Candidate) -> nat {
    match c {
        Candidate::Base => src.base.array.len(),
        Candidate::Factorial => tuple_count(src.levels),
        Candidate::Catalog { entry } => src.catalog[entry as int].n_runs,
        Candidate::Bush { q, k } => pow(q as int, k as nat) as nat,
    }
}

/// No candidate is larger than the full factorial, nor than the machine allows.
pub open spec fn ceiling(levels: Seq<usize>) -> nat {
    if tuple_count(levels) <= usize::MAX {
        tuple_count(levels)
    } else {
        usize::MAX as nat
    }
}

/// The catalog entries at the given positions that are not too large.
pub open spec fn catalog_candidates(src: Source, positions: Seq<int>, n: nat) -> Seq<Candidate>
    decreases n,
{
    if n == 0 {
        Seq::empty()
    } else {
        let before = catalog_candidates(src, positions, (n - 1) as nat);
        if src.catalog[positions[n - 1]].n_runs <= ceiling(src.levels) {
            before.push(Candidate::Catalog { entry: positions[n - 1] as usize })
        } else {
            before
        }
    }
}

/// The Bush array of depth `k`, where it is not too large.
pub open spec fn bush_candidate(levels: Seq<usize>, q: int, k: nat) -> Seq<Candidate> {
    if pow(q, k) <= ceiling(levels) {
        seq![Candidate::Bush { q: q as usize, k: k as usize }]
    } else {
        Seq::empty()
    }
}

/// The Bush arrays one and two deeper than the smallest that has enough columns.
/// Equal level counts only.
pub open spec fn bush_candidates_of(levels: Seq<usize>) -> Seq<Candidate> {
    if !uniform(levels) {
        Seq::empty()
    } else {
        let q = field_for(levels[0] as int);
        match depth(q, levels.len() as int) {
            None => Seq::empty(),
            Some(k) => bush_candidate(levels, q, k + 1) + bush_candidate(levels, q, k + 2),
        }
    }
}

/// The full factorial, where the machine can hold it.
pub open spec fn factorial_candidate(levels: Seq<usize>) -> Seq<Candidate> {
    if tuple_count(levels) <= usize::MAX {
        seq![Candidate::Factorial]
    } else {
        Seq::empty()
    }
}

/// All candidates in the order in which they are listed.
pub open spec fn listed(src: Source) -> Seq<Candidate> {
    let positions = supplying(src.catalog, src.levels, src.catalog.len());
    seq![Candidate::Base] + catalog_candidates(src, positions, positions.len())
        + bush_candidates_of(src.levels) + factorial_candidate(src.levels)
}

/// The place of a candidate: behind all that have no more rows.
pub open spec fn row_place(src: Source, list: Seq<Candidate>, rows: nat, i: nat) -> nat
    decreases list.len() - i,
{
    if i < list.len() && rows_of(src, list[i as int]) <= rows {
        row_place(src, list, rows, i + 1)
    } else {
        i
    }
}

/// The candidates by ascending row count; equal ones keep their order.
pub open spec fn by_rows(src: Source, list: Seq<Candidate>) -> Seq<Candidate>
    decreases list.len(),
{
    if list.len() == 0 {
        Seq::empty()
    } else {
        let front = by_rows(src, list.drop_last());
        let c = list.last();
        front.insert(row_place(src, front, rows_of(src, c), 0) as int, c)
    }
}

proof fn lemma_row_place(src: Source, list: Seq<Candidate>, rows: nat, i: nat)
    requires
        i <= list.len(),
    ensures
        i <= row_place(src, list, rows, i) <= list.len(),
        forall|k: int|
            i <= k < row_place(src, list, rows, i) ==> rows_of(src, #[trigger] list[k]) <= rows,
        row_place(src, list, rows, i) < list.len() ==> rows < rows_of(
            src,
            list[row_place(src, list, rows, i) as int],
        ),
    decreases list.len() - i,
{
    if i < list.len() && rows_of(src, list[i as int]) <= rows {
        lemma_row_place(src, list, rows, i + 1);
    }
}

/// The candidates are tried by ascending row count, each that is listed and no
/// other.
pub proof fn candidates_ascend(src: Source, list: Seq<Candidate>)
    ensures
        by_rows(src, list).len() == list.len(),
        forall|i: int, j: int|
            0 <= i < j < list.len() ==> rows_of(src, #[trigger] by_rows(src, list)[i]) <= rows_of(
                src,
                #[trigger] by_rows(src, list)[j],
            ),
        forall|c: Candidate| #[trigger] by_rows(src, list).contains(c) <==> list.contains(c),
    decreases list.len(),
{
    if list.len() > 0 {
        let rest = list.drop_last();
        candidates_ascend(src, rest);
        let front = by_rows(src, rest);
        let c = list.last();
        let p = row_place(src, front, rows_of(src, c), 0) as int;
        lemma_row_place(src, front, rows_of(src, c), 0);
        let all = by_rows(src, list);
        assert forall|i: int, j: int| 0 <= i < j < all.len() implies rows_of(src, #[trigger] all[i])
            <= rows_of(src, #[trigger] all[j]) by {
            let a = if i < p {
                front[i]
            } else if i == p {
                c
            } else {
                front[i - 1]
            };
            let b = if j < p {
                front[j]
            } else if j == p {
                c
            } else {
                front[j - 1]
            };
            assert(all[i] == a && all[j] == b);
            if i == p {
                assert(rows_of(src, front[p]) <= rows_of(src, front[j - 1]));
            }
        }
        assert forall|x: Candidate| #[trigger] all.contains(x) <==> list.contains(x) by {
            if all.contains(x) {
                let k = choose|k: int| 0 <= k < all.len() && all[k] == x;
                if k == p {
                    assert(list[list.len() - 1] == x);
                } else {
                    assert(front[if k < p {
                        k
                    } else {
                        k - 1
                    }] == x);
                    assert(front.contains(x));
                    let m = choose|m: int| 0 <= m < rest.len() && rest[m] == x;
                    assert(list[m] == x);
                }
            }
            if list.contains(x) {
                let m = choose|m: int| 0 <= m < list.len() && list[m] == x;
                if m == list.len() - 1 {
                    assert(all[p] == x);
                } else {
                    assert(rest[m] == x);
                    assert(front.contains(x));
                    let k = choose|k: int| 0 <= k < front.len() && front[k] == x;
                    assert(all[if k < p {
                        k
                    } else {
                        k + 1
                    }] == x);
                }
            }
        }
    }
}

// ===== The arrays of a candidate =====

/// All columns of the Bush array.
pub open spec fn bush_grid(q: int, k: nat) -> Seq<Seq<usize>> {
    Seq::new(
        pow(q, k) as nat,
        |r: int|
            Seq::new(
                directions(q, k, k).len(),
                |c: int| cell(q, k, directions(q, k, k)[c], r) as usize,
            ),
    )
}

/// How a Bush candidate was made.
pub open spec fn bush_text(q: nat, k: nat) -> Seq<char> {
    "Bush GF("@ + decimal(q) + ") k="@ + decimal(k)
}

/// The assignments of a candidate; a fixed array has one.
pub open spec fn candidate_assignments(src: Source, c: Candidate) -> Seq<Seq<usize>> {
    match c {
        Candidate::Base => seq![Seq::empty()],
        Candidate::Factorial => seq![Seq::empty()],
        Candidate::Catalog { entry } => assignments_of(
            src.catalog[entry as int].columns,
            src.levels,
            false,
            ASSIGNMENT_CAP as nat,
        ),
        Candidate::Bush { q, k } => assignments_of(
            Seq::new(capacity(q as int, k as nat) as nat, |i: int| q),
            src.levels,
            true,
            ASSIGNMENT_CAP as nat,
        ),
    }
}

/// The array of a candidate under an assignment.
pub open spec fn taken(src: Source, c: Candidate, a: Seq<usize>) -> SelectedView {
    match c {
        Candidate::Base => src.base,
        Candidate::Factorial => factorial_of(src.levels),
        Candidate::Catalog { entry } => {
            let e = src.catalog[entry as int];
            SelectedView {
                rows: e.n_runs,
                cols: a.len(),
                label: columns_label(e, a),
                method: lookup_method(e),
                array: picked(e.array, a),
                column_levels: picked_levels(e.columns, a),
            }
        },
        Candidate::Bush { q, k } => {
            let rows = pow(q as int, k as nat) as nat;
            SelectedView {
                rows,
                cols: a.len(),
                label: "L"@ + decimal(rows) + " ("@ + bush_text(q as nat, k as nat) + ", cols "@
                    + separated(column_numbers(a), ","@) + ")"@,
                method: bush_text(q as nat, k as nat),
                array: picked(bush_grid(q as int, k as nat), a),
                column_levels: Seq::new(a.len(), |i: int| q),
            }
        },
    }
}

/// A candidate that can be built.
pub open spec fn candidate_wf(src: Source, c: Candidate) -> bool {
    match c {
        Candidate::Base => true,
        Candidate::Factorial => tuple_count(src.levels) <= usize::MAX,
        Candidate::Catalog { entry } => entry < src.catalog.len(),
        Candidate::Bush { q, k } => supported(q as int) && pow(q as int, k as nat) <= usize::MAX,
    }
}

/// The source describes these factors, catalog and base array.
pub open spec fn source_of(
    src: Source,
    factors: Seq<Factor>,
    catalog: Seq<CatalogEntry>,
    base: Selected,
) -> bool {
    &&& src.levels == counts(factors)
    &&& src.catalog == entries(catalog)
    &&& src.base == base@
    &&& forall|i: int| 0 <= i < catalog.len() ==> (#[trigger] catalog[i]).wf()
    &&& forall|f: int| 0 <= f < factors.len() ==> (#[trigger] factors[f]).values@.len() > 0
    &&& base.wf()
    &&& base.column_levels@.len() == factors.len()
}

pub proof fn lemma_product_bound(dims: Seq<usize>, k: int)
    requires
        forall|i: int| 0 <= i < dims.len() ==> #[trigger] dims[i] > 0,
        0 <= k <= dims.len(),
    ensures
        tuple_count(dims.take(k)) <= tuple_count(dims),
    decreases dims.len(),
{
    if k == dims.len() {
        assert(dims.take(k) =~= dims);
    } else {
        let front = dims.drop_last();
        lemma_product_bound(front, k);
        assert(front.take(k) =~= dims.take(k));
        let (x, y) = (tuple_count(front) as int, dims.last() as int);
        assert(x <= x * y) by (nonlinear_arith)
            requires
                x >= 0,
                y >= 1,
        ;
    }
}

/// Number of rows of a candidate.
pub(crate) fn candidate_rows(
    c: Candidate,
    factors: &[Factor],
    catalog: &[CatalogEntry],
    base: &Selected,
    Ghost(src): Ghost<Source>,
) -> (rows: usize)
    requires
        source_of(src, factors@, catalog@, *base),
        candidate_wf(src, c),
    ensures
        rows == rows_of(src, c),
{
    match c {
        Candidate::Base => base.array.len(),
        Candidate::Factorial => {
            let levels: Vec<usize> = level_counts_of(factors);
            proof {
                lemma_levels_fit(factors@);
            }
            match count_tuples(&levels) {
                Some(n) => n,
                None => 0,
            }
        },
        Candidate::Catalog { entry } => {
            assert(src.catalog[entry as int] == catalog@[entry as int]@);
            catalog[entry].n_runs
        },
        Candidate::Bush { q, k } => {
            proof {
                lemma_field_shape(q as int);
            }
            power(q, k)
        },
    }
}

proof fn lemma_levels_fit(factors: Seq<Factor>)
    requires
        forall|f: int| 0 <= f < factors.len() ==> (#[trigger] factors[f]).values@.len() > 0,
    ensures
        forall|i: int| 0 <= i < factors.len() ==> #[trigger] counts(factors)[i] > 0,
        forall|k: int|
            0 <= k <= factors.len() ==> tuple_count(#[trigger] counts(factors).take(k))
                <= tuple_count(counts(factors)),
{
    let levels = counts(factors);
    assert forall|i: int| 0 <= i < factors.len() implies #[trigger] levels[i] > 0 by {
        assert(factors[i].values@.len() > 0);
        assert(factors[i].values.len() <= usize::MAX);
    }
    assert forall|k: int| 0 <= k <= factors.len() implies tuple_count(#[trigger] levels.take(k))
        <= tuple_count(levels) by {
        lemma_product_bound(levels, k);
    }
}

/// Puts a candidate behind all that have no more rows.
fn insert_candidate(
    list: &mut Vec<Candidate>,
    c: Candidate,
    factors: &[Factor],
    catalog: &[CatalogEntry],
    base: &Selected,
    Ghost(src): Ghost<Source>,
    Ghost(all): Ghost<Seq<Candidate>>,
)
    requires
        source_of(src, factors@, catalog@, *base),
        candidate_wf(src, c),
        forall|i: int| 0 <= i < old(list)@.len() ==> candidate_wf(src, #[trigger] old(list)@[i]),
        old(list)@ == by_rows(src, all),
    ensures
        final(list)@ == by_rows(src, all.push(c)),
        forall|i: int| 0 <= i < final(list)@.len() ==> candidate_wf(src, #[trigger] final(list)@[i]),
{
    let rows: usize = candidate_rows(c, factors, catalog, base, Ghost(src));
    let ghost front = list@;
    let mut p: usize = 0;
    while p < list.len() && candidate_rows(list[p], factors, catalog, base, Ghost(src)) <= rows
        invariant
            p <= list@.len(),
            list@ == front,
            rows == rows_of(src, c),
            source_of(src, factors@, catalog@, *base),
            forall|i: int| 0 <= i < list@.len() ==> candidate_wf(src, #[trigger] list@[i]),
            row_place(src, front, rows as nat, 0) == row_place(src, front, rows as nat, p as nat),
        decreases list@.len() - p,
    {
        p = p + 1;
    }
    list.insert(p, c);
    proof {
        assert(all.push(c).drop_last() =~= all);
        assert(list@ =~= by_rows(src, all.push(c)));
        assert forall|i: int| 0 <= i < list@.len() implies candidate_wf(src, #[trigger] list@[i]) by {
            if i < p {
                assert(list@[i] == front[i]);
            } else if i > p {
                assert(list@[i] == front[i - 1]);
            }
        }
    }
}

/// The Bush candidates one and two deeper than the smallest array that serves
/// the factors, where they are no larger than `limit`.
pub fn bush_candidates(levels: &[usize], limit: usize) -> (out: Vec<Candidate>)
    requires
        levels@.len() > 0,
        uniform(levels@) ==> levels@[0] <= 49 && levels@.len() * 2401 <= usize::MAX,
        limit == ceiling(levels@),
    ensures
        out@ == bush_candidates_of(levels@),
        forall|i: int|
            0 <= i < out@.len() ==> ((#[trigger] out@[i]) matches Candidate::Bush { q, k }
                && supported(q as int) && pow(q as int, k as nat) <= usize::MAX),
{
    let mut out: Vec<Candidate> = Vec::new();
    let mut i: usize = 0;
    while i < levels.len()
        invariant
            i <= levels@.len(),
            out@.len() == 0,
            forall|j: int| 0 <= j < i ==> #[trigger] levels@[j] == levels@[0],
        decreases levels@.len() - i,
    {
        if levels[i] != levels[0] {
            assert(!uniform(levels@));
            assert(out@ =~= bush_candidates_of(levels@));
            return out;
        }
        i = i + 1;
    }
    assert(uniform(levels@));
    let q: usize = next_prime_power_at_least(levels[0]);
    proof {
        lemma_field_for(levels@[0] as int);
        lemma_next_field_unique(levels@[0] as int, q as int, field_for(levels@[0] as int));
        lemma_field_shape(q as int);
    }
    match find_depth(q, levels.len()) {
        None => {
            assert(out@ =~= bush_candidates_of(levels@));
        },
        Some((k, _)) => {
            let size: usize = power(q, k);
            reveal(pow);
            let ghost k1: nat = (k + 1) as nat;
            let ghost k2: nat = (k + 2) as nat;
            assert(pow(q as int, k1) == q * pow(q as int, k as nat));
            assert(pow(q as int, k2) == q * pow(q as int, k1));
            proof {
                vstd::arithmetic::power::lemma_pow_positive(q as int, k as nat);
            }
            assert(size * q == q * size) by (nonlinear_arith);
            match size.checked_mul(q) {
                None => {
                    assert(pow(q as int, k1) > usize::MAX);
                    assert(pow(q as int, k2) > usize::MAX) by (nonlinear_arith)
                        requires
                            pow(q as int, k2) == q * pow(q as int, k1),
                            pow(q as int, k1) > usize::MAX,
                            q >= 2,
                    ;
                },
                Some(one) => {
                    if one <= limit {
                        out.push(Candidate::Bush { q, k: k + 1 });
                    }
                    assert(one * q == q * one) by (nonlinear_arith);
                    match one.checked_mul(q) {
                        None => {},
                        Some(two) => {
                            if two <= limit {
                                out.push(Candidate::Bush { q, k: k + 2 });
                            }
                        },
                    }
                },
            }
            assert(out@ =~= bush_candidates_of(levels@));
        },
    }
    out
}

/// All candidates by ascending row count.
pub(crate) fn ranked_candidates(
    factors: &[Factor],
    catalog: &[CatalogEntry],
    base: &Selected,
    Ghost(src): Ghost<Source>,
) -> (list: Vec<Candidate>)
    requires
        source_of(src, factors@, catalog@, *base),
        factors@.len() > 0,
        uniform(src.levels) ==> src.levels[0] <= 49 && src.levels.len() * 2401 <= usize::MAX,
    ensures
        list@ == by_rows(src, listed(src)),
        forall|i: int| 0 <= i < list@.len() ==> candidate_wf(src, #[trigger] list@[i]),
{
    let levels: Vec<usize> = level_counts_of(factors);
    proof {
        lemma_levels_fit(factors@);
        assert(levels@.take(levels@.len() as int) =~= levels@);
    }
    let full: Option<usize> = count_tuples(&levels);
    let limit: usize = match full {
        Some(n) => n,
        None => usize::MAX,
    };
    assert(limit == ceiling(src.levels));
    let mut list: Vec<Candidate> = Vec::new();
    let ghost mut all = Seq::<Candidate>::empty();
    assert(list@ =~= by_rows(src, all));
    insert_candidate(&mut list, Candidate::Base, factors, catalog, base, Ghost(src), Ghost(all));
    proof {
        all = all.push(Candidate::Base);
        assert(all =~= seq![Candidate::Base]);
    }
    let at: Vec<usize> = entries_supplying(catalog, &levels);
    let ghost f = |i: usize| i as int;
    let ghost positions = supplying(src.catalog, src.levels, src.catalog.len());
    assert(positions == at@.map_values(f));
    proof {
        lemma_supplying(src.catalog, src.levels, src.catalog.len());
    }
    let mut i: usize = 0;
    let ghost head = all;
    assert(head + catalog_candidates(src, positions, 0) =~= head);
    while i < at.len()
        invariant
            i <= at@.len(),
            source_of(src, factors@, catalog@, *base),
            f == (|i: usize| i as int),
            positions == at@.map_values(f),
            forall|k: int|
                0 <= k < positions.len() ==> 0 <= #[trigger] positions[k] < src.catalog.len(),
            limit == ceiling(src.levels),
            all == head + catalog_candidates(src, positions, i as nat),
            list@ == by_rows(src, all),
            forall|k: int| 0 <= k < list@.len() ==> candidate_wf(src, #[trigger] list@[k]),
        decreases at@.len() - i,
    {
        let entry: usize = at[i];
        assert(positions[i as int] == entry as int);
        assert(src.catalog[entry as int] == catalog@[entry as int]@);
        let ghost before = all;
        if catalog[entry].n_runs <= limit {
            let c: Candidate = Candidate::Catalog { entry };
            insert_candidate(&mut list, c, factors, catalog, base, Ghost(src), Ghost(all));
            proof {
                all = all.push(c);
            }
        }
        assert(all =~= head + catalog_candidates(src, positions, (i + 1) as nat));
        i = i + 1;
    }
    let deeper: Vec<Candidate> = bush_candidates(&levels, limit);
    let ghost head = all;
    assert(head + deeper@.take(0) =~= head);
    let mut b: usize = 0;
    while b < deeper.len()
        invariant
            b <= deeper@.len(),
            source_of(src, factors@, catalog@, *base),
            forall|k: int|
                0 <= k < deeper@.len() ==> ((#[trigger] deeper@[k]) matches Candidate::Bush { q, k }
                    && supported(q as int) && pow(q as int, k as nat) <= usize::MAX),
            all == head + deeper@.take(b as int),
            list@ == by_rows(src, all),
            forall|k: int| 0 <= k < list@.len() ==> candidate_wf(src, #[trigger] list@[k]),
        decreases deeper@.len() - b,
    {
        let c: Candidate = deeper[b];
        insert_candidate(&mut list, c, factors, catalog, base, Ghost(src), Ghost(all));
        proof {
            assert(head + deeper@.take(b + 1) =~= all.push(c));
            all = all.push(c);
        }
        b = b + 1;
    }
    assert(deeper@.take(deeper@.len() as int) =~= deeper@);
    if full.is_some() {
        let c: Candidate = Candidate::Factorial;
        insert_candidate(&mut list, c, factors, catalog, base, Ghost(src), Ghost(all));
        proof {
            all = all.push(c);
        }
    }
    assert(all =~= listed(src));
    list
}

/// The positions of supplying entries lie in the list.
pub proof fn lemma_supplying(list: Seq<EntryView>, levels: Seq<usize>, n: nat)
    requires
        n <= list.len(),
    ensures
        forall|k: int|
            0 <= k < supplying(list, levels, n).len() ==> 0 <= #[trigger] supplying(
                list,
                levels,
                n,
            )[k] < n,
    decreases n,
{
    if n > 0 {
        lemma_supplying(list, levels, (n - 1) as nat);
        let before = supplying(list, levels, (n - 1) as nat);
        let all = supplying(list, levels, n);
        assert forall|k: int| 0 <= k < all.len() implies 0 <= #[trigger] all[k] < n by {
            if k < before.len() {
                assert(all[k] == before[k]);
            }
        }
    }
}

/// A candidate with its column pool at hand.
pub(crate) enum Pool {
    Base,
    Factorial,
    Catalog { entry: usize },
    Bush { q: usize, k: usize, array: Vec<Vec<usize>> },
}

impl Pool {
    /// The pool belongs to the candidate.
    pub(crate) open spec fn is_of(&self, c: Candidate) -> bool {
        match self {
            Pool::Base => c == Candidate::Base,
            Pool::Factorial => c == Candidate::Factorial,
            Pool::Catalog { entry } => c == (Candidate::Catalog { entry: *entry }),
            Pool::Bush { q, k, array } => c == (Candidate::Bush { q: *q, k: *k }) && grid(array@)
                == bush_grid(*q as int, *k as nat),
        }
    }

    /// The pool of a candidate.
    pub(crate) fn of(c: Candidate, Ghost(src): Ghost<Source>) -> (p: Pool)
        requires
            candidate_wf(src, c),
        ensures
            p.is_of(c),
    {
        match c {
            Candidate::Base => Pool::Base,
            Candidate::Factorial => Pool::Factorial,
            Candidate::Catalog { entry } => Pool::Catalog { entry },
            Candidate::Bush { q, k } => {
                match Gf::new(q) {
                    Ok(gf) => {
                        let array: Vec<Vec<usize>> = bush_at(&gf, k);
                        proof {
                            lemma_field_shape(q as int);
                            bush_capacity(q as int, k as nat);
                            let g = grid(array@);
                            let full = bush_grid(q as int, k as nat);
                            assert forall|r: int| 0 <= r < g.len() implies #[trigger] g[r]
                                =~= full[r] by {
                                assert forall|x: int| 0 <= x < g[r].len() implies #[trigger] g[r][x]
                                    == full[r][x] by {
                                    assert(g[r][x] == cell(
                                        q as int,
                                        k as nat,
                                        directions(q as int, k as nat, k as nat)[x],
                                        r,
                                    ));
                                }
                            }
                            assert(g =~= full);
                        }
                        Pool::Bush { q, k, array }
                    },
                    Err(_) => Pool::Bush { q, k, array: Vec::new() },
                }
            },
        }
    }

    /// The assignments of the candidate.
    pub(crate) fn assignment_list(
        &self,
        factors: &[Factor],
        catalog: &[CatalogEntry],
        Ghost(src): Ghost<Source>,
        Ghost(c): Ghost<Candidate>,
        Ghost(base): Ghost<Selected>,
    ) -> (out: Vec<Vec<usize>>)
        requires
            self.is_of(c),
            source_of(src, factors@, catalog@, base),
            candidate_wf(src, c),
        ensures
            lists(out@) == candidate_assignments(src, c),
    {
        match self {
            Pool::Catalog { entry } => {
                let levels: Vec<usize> = level_counts_of(factors);
                assert(src.catalog[*entry as int] == catalog@[*entry as int]@);
                assignments(&catalog[*entry].columns, &levels, false, ASSIGNMENT_CAP)
            },
            Pool::Bush { q, k, array } => {
                let levels: Vec<usize> = level_counts_of(factors);
                proof {
                    lemma_field_shape(*q as int);
                    bush_capacity(*q as int, *k as nat);
                    vstd::arithmetic::power::lemma_pow_positive(*q as int, *k as nat);
                    let full = bush_grid(*q as int, *k as nat);
                    assert(grid(array@) == full);
                    assert(full.len() == pow(*q as int, *k as nat));
                    assert(grid(array@).len() == array@.len());
                    assert(full[0].len() == capacity(*q as int, *k as nat));
                    assert(grid(array@)[0] == array@[0]@);
                }
                let columns: Vec<usize> = vec![*q; array[0].len()];
                assert(columns@ =~= Seq::new(
                    capacity(*q as int, *k as nat) as nat,
                    |i: int| *q,
                ));
                assignments(&columns, &levels, true, ASSIGNMENT_CAP)
            },
            _ => {
                let mut out: Vec<Vec<usize>> = Vec::new();
                let none: Vec<usize> = Vec::new();
                assert(none@ =~= Seq::empty());
                out.push(none);
                assert(lists(out@) =~= seq![Seq::empty()]);
                out
            },
        }
    }

    /// The array of the candidate under an assignment.
    pub(crate) fn take(
        &self,
        assignment: &Vec<usize>,
        factors: &[Factor],
        catalog: &[CatalogEntry],
        base: &Selected,
        Ghost(src): Ghost<Source>,
        Ghost(c): Ghost<Candidate>,
    ) -> (s: Selected)
        requires
            self.is_of(c),
            source_of(src, factors@, catalog@, *base),
            candidate_wf(src, c),
            candidate_assignments(src, c).contains(assignment@),
        ensures
            s@ == taken(src, c, assignment@),
            s.wf(),
            s.column_levels@.len() == factors@.len(),
    {
        match self {
            Pool::Base => base.copy(),
            Pool::Factorial => {
                proof {
                    lemma_levels_fit(factors@);
                }
                full_factorial(factors)
            },
            Pool::Catalog { entry } => {
                let e: &CatalogEntry = &catalog[*entry];
                let width: usize = e.columns.len();
                proof {
                    assert(src.catalog[*entry as int] == e@);
                    lemma_listed_assignment(
                        e@.columns,
                        src.levels,
                        false,
                        ASSIGNMENT_CAP as nat,
                        assignment@,
                    );
                }
                let s: Selected = select_columns(e, assignment);
                assert(s@ =~= taken(src, c, assignment@));
                s
            },
            Pool::Bush { q, k, array } => {
                let ghost full = bush_grid(*q as int, *k as nat);
                let ghost columns = Seq::new(
                    capacity(*q as int, *k as nat) as nat,
                    |i: int| *q,
                );
                proof {
                    lemma_field_shape(*q as int);
                    bush_capacity(*q as int, *k as nat);
                    lemma_listed_assignment(
                        columns,
                        src.levels,
                        true,
                        ASSIGNMENT_CAP as nat,
                        assignment@,
                    );
                    assert(grid(array@) == full);
                    assert(grid(array@).len() == array@.len());
                    assert forall|r: int, p: int|
                        0 <= r < array@.len() && 0 <= p < assignment@.len() implies
                        #[trigger] assignment@[p] < (#[trigger] array@[r])@.len() by {
                        assert(grid(array@)[r] == array@[r]@);
                        assert(full[r].len() == capacity(*q as int, *k as nat));
                    }
                }
                let cells: Vec<Vec<usize>> = pick(array, assignment);
                let rows: usize = cells.len();
                assert(rows == full.len()) by {
                    assert(grid(array@).len() == array@.len());
                }
                let cols: String = column_list(assignment);
                let mut method: String = String::new();
                method.append("Bush GF(");
                push_decimal(&mut method, *q as u64);
                method.append(") k=");
                push_decimal(&mut method, *k as u64);
                assert(method@ =~= bush_text(*q as nat, *k as nat));
                let mut label: String = String::new();
                label.append("L");
                push_decimal(&mut label, rows as u64);
                label.append(" (");
                label.append(method.as_str());
                label.append(", cols ");
                label.append(cols.as_str());
                label.append(")");
                let column_levels: Vec<usize> = vec![*q; assignment.len()];
                assert(column_levels@ =~= Seq::new(assignment@.len(), |i: int| *q));
                proof {
                    vstd::arithmetic::power::lemma_pow_positive(*q as int, *k as nat);
                    assert(label@ =~= taken(src, c, assignment@).label);
                    let levels = Seq::new(
                        directions(*q as int, *k as nat, *k as nat).len(),
                        |i: int| *q,
                    );
                    lemma_bush_range(*q as int, *k as nat);
                    let h = grid(cells@);
                    assert forall|r: int, p: int|
                        0 <= r < h.len() && 0 <= p < assignment@.len() implies #[trigger] h[r][p]
                        < column_levels@[p] by {
                        assert(h[r][p] == full[r][assignment@[p] as int]);
                    }
                }
                let info: ArrayInfo = ArrayInfo { rows, cols: assignment.len(), label, method };
                let s: Selected = Selected { info, array: cells, column_levels };
                assert(s@ =~= taken(src, c, assignment@));
                s
            },
        }
    }
}

proof fn lemma_bush_range(q: int, k: nat)
    requires
        supported(q),
    ensures
        forall|r: int, x: int|
            0 <= r < bush_grid(q, k).len() && 0 <= x < directions(q, k, k).len() ==> (
            #[trigger] bush_grid(q, k)[r][x]) < q,
{
    lemma_field_shape(q);
    bush_capacity(q, k);
    let g = bush_grid(q, k);
    let cols = directions(q, k, k).len();
    assert forall|r: int, x: int| 0 <= r < g.len() && 0 <= x < cols implies (#[trigger] g[r][x])
        < q by {
        crate::oa::bush::lemma_cell_range(q, k, x, r);
    }
}

/// What stands in the list of assignments is an assignment.
proof fn lemma_listed_assignment(
    columns: Seq<usize>,
    levels: Seq<usize>,
    folds: bool,
    cap: nat,
    a: Seq<usize>,
)
    requires
        columns.len() <= usize::MAX,
        assignments_of(columns, levels, folds, cap).contains(a),
    ensures
        is_assignment(columns, levels, folds, a),
        a.len() == levels.len(),
        forall|i: int| 0 <= i < a.len() ==> #[trigger] a[i] < columns.len(),
{
    assignments_are_ordered_injections(columns, levels, folds, cap);
    let list = assignments_of(columns, levels, folds, cap);
    let k = choose|k: int| 0 <= k < list.len() && list[k] == a;
    assert(is_assignment(columns, levels, folds, list[k]));
}

} // verus!
