//! Kronecker (row-tensor) product across per-level Bush blocks.
//!
//! If factors split into groups by level count {q_i: k_i factors}, build a
//! Bush OA_i with q_i levels and k_i columns, then combine via row tensor:
//!   new_row_index = (i_1, i_2, …) ↦ concat(OA_1[i_1], OA_2[i_2], …)
//!
//! Total rows = ∏ N_i. Only fires when there are at least two distinct level
//! counts: a single group is a plain Bush array.
use vstd::arithmetic::div_mod::{lemma_fundamental_div_mod, lemma_fundamental_div_mod_converse};
use vstd::arithmetic::power::{lemma_pow_positive, pow};
use vstd::prelude::*;

use super::bush::{
    bush_at, bush_capacity, capacity, cell, depth, directions, find_depth, is_bush,
    lemma_cell_range, lemma_directions_range, lemma_move_pair, lemma_next_field_unique, lemma_shift,
    lemma_shift_injective, next_field, next_prime_power_at_least, shifted, uniform,
};
use super::counting::{lemma_tally_injection, tally};
use super::digits::all_digits;
use super::gf::{element, lemma_field_shape, supported, Gf, NotPrimePower};
use super::strength::{balanced, cells_in_range, grid, lemma_balanced, lemma_entry_join, lemma_entry_split, pair_code, pair_in_range, strength2};
use super::{ArrayInfo, Selected};
use crate::text::{decimal, join, push_decimal, separated, views};

verus! {

// ===== Mixed-radix row numbers =====

/// The digit of `r` with weight `s` and base `n`.
pub open spec fn digit_at(r: int, s: int, n: int) -> int {
    (r / s) % n
}

/// `r` with that digit replaced by `d`.
pub open spec fn with_digit(r: int, s: int, n: int, d: int) -> int {
    r + (d - digit_at(r, s, n)) * s
}

/// A row number is its part above a digit, the digit and the part below it.
proof fn lemma_split(r: int, s: int, n: int)
    requires
        s > 0,
        n > 0,
    ensures
        0 <= digit_at(r, s, n) < n,
        0 <= r % s < s,
        r == ((r / s / n) * n + digit_at(r, s, n)) * s + r % s,
{
    lemma_fundamental_div_mod(r, s);
    lemma_fundamental_div_mod(r / s, n);
    let (h, d, l) = (r / s / n, digit_at(r, s, n), r % s);
    assert(r == (h * n + d) * s + l) by (nonlinear_arith)
        requires
            r == s * (r / s) + l,
            r / s == n * h + d,
    ;
}

/// The parts determine the number.
proof fn lemma_join(h: int, d: int, l: int, s: int, n: int)
    requires
        s > 0,
        n > 0,
        0 <= d < n,
        0 <= l < s,
    ensures
        ({
            let r = (h * n + d) * s + l;
            r / s == h * n + d && r % s == l && r / s / n == h && digit_at(r, s, n) == d
        }),
{
    let r = (h * n + d) * s + l;
    lemma_fundamental_div_mod_converse(r, s, h * n + d, l);
    lemma_fundamental_div_mod_converse(h * n + d, n, h, d);
}

proof fn lemma_with_digit(r: int, s: int, n: int, d: int)
    requires
        s > 0,
        n > 0,
        0 <= d < n,
    ensures
        digit_at(with_digit(r, s, n, d), s, n) == d,
        with_digit(r, s, n, d) % s == r % s,
        with_digit(r, s, n, d) / s / n == r / s / n,
{
    lemma_split(r, s, n);
    let (h, e, l) = (r / s / n, digit_at(r, s, n), r % s);
    assert(with_digit(r, s, n, d) == (h * n + d) * s + l) by (nonlinear_arith)
        requires
            r == (h * n + e) * s + l,
            with_digit(r, s, n, d) == r + (d - e) * s,
    ;
    lemma_join(h, d, l, s, n);
}

/// Replacing a digit stays below a multiple of its place.
proof fn lemma_with_digit_range(r: int, s: int, n: int, d: int, total: int, c: int)
    requires
        s > 0,
        n > 0,
        0 <= d < n,
        total == (s * n) * c,
        0 <= r < total,
    ensures
        0 <= with_digit(r, s, n, d) < total,
{
    lemma_split(r, s, n);
    let (h, e, l) = (r / s / n, digit_at(r, s, n), r % s);
    let w = with_digit(r, s, n, d);
    assert(w == (h * n + d) * s + l) by (nonlinear_arith)
        requires
            r == (h * n + e) * s + l,
            w == r + (d - e) * s,
    ;
    assert(0 <= h) by (nonlinear_arith)
        requires
            r == (h * n + e) * s + l,
            0 <= r,
            0 <= e < n,
            0 <= l < s,
    ;
    assert(h < c) by (nonlinear_arith)
        requires
            r == (h * n + e) * s + l,
            r < (s * n) * c,
            0 <= e,
            0 <= l,
            s > 0,
            n > 0,
    ;
    assert(0 <= w < (s * n) * c) by (nonlinear_arith)
        requires
            w == (h * n + d) * s + l,
            0 <= h < c,
            0 <= d < n,
            0 <= l < s,
    ;
}

/// A digit above or below the replaced one keeps its value.
proof fn lemma_other_digit(r: int, s: int, n: int, d: int, s2: int, n2: int, c: int)
    requires
        s > 0,
        n > 0,
        0 <= d < n,
        s2 > 0,
        n2 > 0,
        c > 0,
        s2 == (s * n) * c || s == (s2 * n2) * c,
    ensures
        digit_at(with_digit(r, s, n, d), s2, n2) == digit_at(r, s2, n2),
{
    lemma_with_digit(r, s, n, d);
    let w = with_digit(r, s, n, d);
    if s2 == (s * n) * c {
        // r / s2 = ((r / s) / n) / c
        lemma_div_chain(r, s, n, c);
        lemma_div_chain(w, s, n, c);
    } else {
        // (r / s2) % n2 depends on r % s alone
        lemma_low_digit(r, s, s2, n2, c);
        lemma_low_digit(w, s, s2, n2, c);
    }
}

proof fn lemma_div_chain(r: int, s: int, n: int, c: int)
    requires
        s > 0,
        n > 0,
        c > 0,
    ensures
        r / ((s * n) * c) == r / s / n / c,
{
    assert(s * n > 0) by (nonlinear_arith)
        requires
            s > 0,
            n > 0,
    ;
    lemma_split(r, s, n);
    let (h, e, l) = (r / s / n, digit_at(r, s, n), r % s);
    lemma_fundamental_div_mod(h, c);
    let (a, b) = (h / c, h % c);
    let rest = (b * n + e) * s + l;
    assert(r == ((s * n) * c) * a + rest) by (nonlinear_arith)
        requires
            r == (h * n + e) * s + l,
            h == c * a + b,
            rest == (b * n + e) * s + l,
    ;
    assert(0 <= rest < (s * n) * c) by (nonlinear_arith)
        requires
            rest == (b * n + e) * s + l,
            0 <= b < c,
            0 <= e < n,
            0 <= l < s,
    ;
    lemma_fundamental_div_mod_converse(r, (s * n) * c, a, rest);
}

/// A digit below weight `s` is one of the rest modulo `s`.
proof fn lemma_low_digit(r: int, s: int, s2: int, n2: int, c: int)
    requires
        s2 > 0,
        n2 > 0,
        c > 0,
        s == (s2 * n2) * c,
    ensures
        digit_at(r, s2, n2) == digit_at(r % s, s2, n2),
{
    assert(s > 0) by (nonlinear_arith)
        requires
            s == (s2 * n2) * c,
            s2 > 0,
            n2 > 0,
            c > 0,
    ;
    lemma_fundamental_div_mod(r, s);
    let (a, l) = (r / s, r % s);
    lemma_split(l, s2, n2);
    let (h, e, m) = (l / s2 / n2, digit_at(l, s2, n2), l % s2);
    assert(r == ((c * a + h) * n2 + e) * s2 + m) by (nonlinear_arith)
        requires
            r == s * a + l,
            s == (s2 * n2) * c,
            l == (h * n2 + e) * s2 + m,
    ;
    lemma_join(c * a + h, e, m, s2, n2);
}

/// Where the new digit is an injective function of the old one, replacing it
/// keeps numbers apart.
proof fn lemma_with_digit_injective(r: int, t: int, s: int, n: int, d: int, e: int)
    requires
        s > 0,
        n > 0,
        0 <= d < n,
        0 <= e < n,
        with_digit(r, s, n, d) == with_digit(t, s, n, e),
    ensures
        d == e,
        digit_at(r, s, n) == digit_at(t, s, n) ==> r == t,
{
    lemma_with_digit(r, s, n, d);
    lemma_with_digit(t, s, n, e);
    lemma_split(r, s, n);
    lemma_split(t, s, n);
}

// ===== The tensor product =====

/// Number of factors with `l` levels.
pub open spec fn count_level(levels: Seq<usize>, l: int) -> nat
    decreases levels.len(),
{
    if levels.len() == 0 {
        0
    } else {
        count_level(levels.drop_last(), l) + (if levels.last() == l {
            1nat
        } else {
            0
        })
    }
}

/// Number of factors before `p` with as many levels as factor `p`.
pub open spec fn rank(levels: Seq<usize>, p: int) -> nat {
    count_level(levels.take(p), levels[p] as int)
}

/// The field over which the block of the factors with `l` levels is built.
pub open spec fn field_for(l: int) -> int {
    choose|q: int| next_field(l, q)
}

/// The depth of that block, where one up to 10 is deep enough.
pub open spec fn block_depth(levels: Seq<usize>, l: int) -> Option<nat> {
    depth(field_for(l), count_level(levels, l) as int)
}

/// Number of rows of the block of the factors with `l` levels; one where there
/// is none.
pub open spec fn block_rows(levels: Seq<usize>, l: int) -> int {
    if count_level(levels, l) == 0 {
        1
    } else {
        match block_depth(levels, l) {
            Some(k) => pow(field_for(l), k),
            None => 1,
        }
    }
}

/// Product of the numbers of rows of the blocks of fewer than `l` levels: the
/// weight of the block of `l` levels in a row number.
pub open spec fn stride(levels: Seq<usize>, l: nat) -> int
    decreases l,
{
    if l == 0 {
        1
    } else {
        stride(levels, (l - 1) as nat) * block_rows(levels, l - 1)
    }
}

/// Every block has a depth.
pub open spec fn feasible(levels: Seq<usize>) -> bool {
    forall|p: int| 0 <= p < levels.len() ==> #[trigger] block_depth(levels, levels[p] as int) is Some
}

/// Number of rows of the product.
pub open spec fn tensor_rows(levels: Seq<usize>) -> int {
    stride(levels, 50)
}

/// The row of the block of factor `p` that goes into row `r`.
pub open spec fn block_row(levels: Seq<usize>, p: int, r: int) -> int {
    digit_at(r, stride(levels, levels[p] as nat), block_rows(levels, levels[p] as int))
}

/// The cell of row `r` for factor `p`.
pub open spec fn tensor_cell(levels: Seq<usize>, p: int, r: int) -> int {
    let q = field_for(levels[p] as int);
    let k = block_depth(levels, levels[p] as int)->0;
    cell(q, k, directions(q, k, k)[rank(levels, p) as int], block_row(levels, p, r))
}

/// The level count of each column: the field sizes.
pub open spec fn tensor_levels(levels: Seq<usize>) -> Seq<usize> {
    Seq::new(levels.len(), |p: int| field_for(levels[p] as int) as usize)
}

/// `g` is the row tensor of the blocks.
pub open spec fn is_tensor(g: Seq<Seq<usize>>, levels: Seq<usize>) -> bool {
    &&& g.len() == tensor_rows(levels)
    &&& forall|r: int| 0 <= r < g.len() ==> #[trigger] g[r].len() == levels.len()
    &&& forall|r: int, p: int|
        0 <= r < g.len() && 0 <= p < levels.len() ==> #[trigger] g[r][p] == tensor_cell(levels, p, r)
}

/// A group of factors within the supported fields needs a block that is too deep.
pub open spec fn too_deep(levels: Seq<usize>) -> bool {
    exists|p: int|
        0 <= p < levels.len() && levels[p] <= 49 && #[trigger] block_depth(levels, levels[p] as int)
            is None
}

/// The product can be built, or found that there is none: it declines one level
/// count and blocks that are too deep; otherwise the fields exist and the product
/// has a machine size.
pub open spec fn tractable(levels: Seq<usize>) -> bool {
    ||| uniform(levels)
    ||| levels.len() * 2401 <= usize::MAX && (too_deep(levels) || in_reach(levels) && tensor_rows(
        levels,
    ) <= usize::MAX)
}

/// Level counts within the supported fields.
pub open spec fn in_reach(levels: Seq<usize>) -> bool {
    forall|p: int| 0 <= p < levels.len() ==> #[trigger] levels[p] <= 49
}

/// A product that is not declined has its fields, and a machine size.
pub proof fn lemma_tractable(levels: Seq<usize>)
    requires
        tractable(levels),
        !uniform(levels),
        feasible(levels),
    ensures
        in_reach(levels),
        tensor_rows(levels) <= usize::MAX,
{
}

pub proof fn lemma_field_for(l: int)
    requires
        0 <= l <= 49,
    ensures
        next_field(l, field_for(l)),
        supported(field_for(l)),
        2 <= field_for(l) <= 49,
{
    lemma_next_exists(l, super::bush::at_least_two(l));
    lemma_field_shape(field_for(l));
}

proof fn lemma_next_exists(l: int, m: int)
    requires
        0 <= l <= 49,
        super::bush::at_least_two(l) <= m <= 49,
        forall|x: int| super::bush::at_least_two(l) <= x < m ==> !#[trigger] supported(x),
    ensures
        exists|q: int| next_field(l, q),
    decreases 49 - m,
{
    if supported(m) {
        assert(next_field(l, m));
    } else {
        assert(supported(49));
        lemma_next_exists(l, m + 1);
    }
}

pub proof fn lemma_depth_range(q: int, n: int, k: nat)
    requires
        super::bush::depth_from(q, n, k) is Some,
    ensures
        k <= super::bush::depth_from(q, n, k)->0 <= 10,
        capacity(q, super::bush::depth_from(q, n, k)->0) >= n,
    decreases 11 - k,
{
    if capacity(q, k) < n {
        lemma_depth_range(q, n, k + 1);
    }
}

pub proof fn lemma_count_level_take(levels: Seq<usize>, p: int, l: int)
    requires
        0 <= p <= levels.len(),
    ensures
        count_level(levels.take(p), l) <= count_level(levels, l),
        p < levels.len() && levels[p] == l ==> count_level(levels.take(p), l) < count_level(levels, l),
    decreases levels.len(),
{
    if p < levels.len() {
        assert(levels.drop_last().take(p) =~= levels.take(p));
        lemma_count_level_take(levels.drop_last(), p, l);
    } else {
        assert(levels.take(p) =~= levels);
    }
}

/// Two factors with the same level count stand in different columns of their
/// block.
pub proof fn lemma_rank_increases(levels: Seq<usize>, p: int, p2: int)
    requires
        0 <= p < p2 < levels.len(),
        levels[p] == levels[p2],
    ensures
        rank(levels, p) < rank(levels, p2),
{
    let t = levels.take(p2);
    assert(t.take(p) =~= levels.take(p));
    lemma_count_level_take(t, p, levels[p] as int);
}

/// The block of a factor and its column in it.
proof fn lemma_block(levels: Seq<usize>, p: int)
    requires
        in_reach(levels),
        feasible(levels),
        0 <= p < levels.len(),
    ensures
        ({
            let l = levels[p] as int;
            let q = field_for(l);
            let k = block_depth(levels, l)->0;
            &&& block_depth(levels, l) is Some
            &&& supported(q)
            &&& 2 <= q <= 49
            &&& 2 <= k <= 10
            &&& count_level(levels, l) > 0
            &&& block_rows(levels, l) == pow(q, k)
            &&& pow(q, k) > 0
            &&& rank(levels, p) < count_level(levels, l)
            &&& count_level(levels, l) <= directions(q, k, k).len()
            &&& directions(q, k, k).len() >= 2
        }),
{
    let l = levels[p] as int;
    lemma_field_for(l);
    let q = field_for(l);
    assert(block_depth(levels, levels[p] as int) is Some);
    let k = block_depth(levels, l)->0;
    lemma_depth_range(q, count_level(levels, l) as int, 2);
    lemma_count_level_take(levels, p, l);
    lemma_pow_positive(q, k);
    bush_capacity(q, k);
    let n = directions(q, k, k).len() as int;
    vstd::arithmetic::power::lemma_pow_increases(q as nat, 2, k);
    vstd::arithmetic::power::lemma_square_is_pow2(q);
    assert(n >= 2) by (nonlinear_arith)
        requires
            n * (q - 1) == pow(q, k) - 1,
            pow(q, k) >= q * q,
            q >= 2,
    ;
}

proof fn lemma_block_rows_positive(levels: Seq<usize>, l: int)
    requires
        0 <= l <= 49,
    ensures
        block_rows(levels, l) >= 1,
{
    lemma_field_for(l);
    if count_level(levels, l) > 0 && block_depth(levels, l) is Some {
        lemma_pow_positive(field_for(l), block_depth(levels, l)->0);
    }
}

/// The weights divide each other: stride(b) = stride(a)·rows(a)·c.
proof fn lemma_stride(levels: Seq<usize>, a: nat, b: nat) -> (c: int)
    requires
        a < b <= 50,
    ensures
        c > 0,
        stride(levels, b) == (stride(levels, a) * block_rows(levels, a as int)) * c,
        stride(levels, a) > 0,
        stride(levels, b) > 0,
    decreases b,
{
    lemma_stride_positive(levels, a);
    lemma_stride_positive(levels, b);
    lemma_block_rows_positive(levels, b - 1);
    if a + 1 == b {
        assert(stride(levels, b) * 1 == stride(levels, b)) by (nonlinear_arith);
        1
    } else {
        let c = lemma_stride(levels, a, (b - 1) as nat);
        let x = stride(levels, a) * block_rows(levels, a as int);
        let y = block_rows(levels, b - 1);
        assert((x * c) * y == x * (c * y) && c * y > 0) by (nonlinear_arith)
            requires
                c > 0,
                y >= 1,
        ;
        c * y
    }
}

proof fn lemma_stride_positive(levels: Seq<usize>, a: nat)
    requires
        a <= 50,
    ensures
        stride(levels, a) > 0,
    decreases a,
{
    if a > 0 {
        lemma_stride_positive(levels, (a - 1) as nat);
        lemma_block_rows_positive(levels, a - 1);
        let (x, y) = (stride(levels, (a - 1) as nat), block_rows(levels, a - 1));
        assert(x * y > 0) by (nonlinear_arith)
            requires
                x > 0,
                y >= 1,
        ;
    }
}

proof fn lemma_tensor_cell_range(levels: Seq<usize>, p: int, r: int)
    requires
        in_reach(levels),
        feasible(levels),
        0 <= p < levels.len(),
    ensures
        element(field_for(levels[p] as int), tensor_cell(levels, p, r)),
        0 <= block_row(levels, p, r) < block_rows(levels, levels[p] as int),
{
    lemma_block(levels, p);
    lemma_stride_positive(levels, levels[p] as nat);
    let l = levels[p] as int;
    lemma_split(r, stride(levels, levels[p] as nat), block_rows(levels, l));
    lemma_cell_range(
        field_for(l),
        block_depth(levels, l)->0,
        rank(levels, p) as int,
        block_row(levels, p, r),
    );
}

/// Row `r` with the rows of the block of factor `p` shifted by `t`.
spec fn moved(levels: Seq<usize>, p: int, t: Seq<int>, r: int) -> int {
    let l = levels[p] as int;
    with_digit(
        r,
        stride(levels, levels[p] as nat),
        block_rows(levels, l),
        shifted(field_for(l), block_depth(levels, l)->0, t, block_row(levels, p, r)),
    )
}

proof fn lemma_moved(levels: Seq<usize>, p: int, t: Seq<int>, r: int)
    requires
        in_reach(levels),
        feasible(levels),
        0 <= p < levels.len(),
        0 <= r < tensor_rows(levels),
        t.len() == block_depth(levels, levels[p] as int)->0,
        all_digits(t, field_for(levels[p] as int)),
    ensures
        0 <= moved(levels, p, t, r) < tensor_rows(levels),
        block_row(levels, p, moved(levels, p, t, r)) == shifted(
            field_for(levels[p] as int),
            block_depth(levels, levels[p] as int)->0,
            t,
            block_row(levels, p, r),
        ),
        forall|p2: int|
            0 <= p2 < levels.len() && levels[p2] != levels[p] ==> #[trigger] block_row(
                levels,
                p2,
                moved(levels, p, t, r),
            ) == block_row(levels, p2, r),
{
    let l = levels[p] as int;
    let (q, k) = (field_for(l), block_depth(levels, l)->0);
    let (s, n) = (stride(levels, levels[p] as nat), block_rows(levels, l));
    lemma_block(levels, p);
    lemma_tensor_cell_range(levels, p, r);
    lemma_directions_range(q, k, rank(levels, p) as int);
    lemma_shift(q, k, t, directions(q, k, k)[rank(levels, p) as int], block_row(levels, p, r));
    let d = shifted(q, k, t, block_row(levels, p, r));
    let c = lemma_stride(levels, levels[p] as nat, 50);
    lemma_with_digit(r, s, n, d);
    lemma_with_digit_range(r, s, n, d, tensor_rows(levels), c);
    assert forall|p2: int| 0 <= p2 < levels.len() && levels[p2] != levels[p] implies #[trigger] block_row(
        levels,
        p2,
        moved(levels, p, t, r),
    ) == block_row(levels, p2, r) by {
        lemma_block(levels, p2);
        lemma_stride_positive(levels, levels[p2] as nat);
        let (s2, n2) = (stride(levels, levels[p2] as nat), block_rows(levels, levels[p2] as int));
        if levels[p] < levels[p2] {
            let e = lemma_stride(levels, levels[p] as nat, levels[p2] as nat);
            lemma_other_digit(r, s, n, d, s2, n2, e);
        } else {
            let e = lemma_stride(levels, levels[p2] as nat, levels[p] as nat);
            lemma_other_digit(r, s, n, d, s2, n2, e);
        }
    }
}

proof fn lemma_moved_injective(levels: Seq<usize>, p: int, t: Seq<int>, r: int, r2: int)
    requires
        in_reach(levels),
        feasible(levels),
        0 <= p < levels.len(),
        0 <= r < tensor_rows(levels),
        0 <= r2 < tensor_rows(levels),
        t.len() == block_depth(levels, levels[p] as int)->0,
        all_digits(t, field_for(levels[p] as int)),
        moved(levels, p, t, r) == moved(levels, p, t, r2),
    ensures
        r == r2,
{
    let l = levels[p] as int;
    let (q, k) = (field_for(l), block_depth(levels, l)->0);
    let (s, n) = (stride(levels, levels[p] as nat), block_rows(levels, l));
    lemma_block(levels, p);
    lemma_stride_positive(levels, levels[p] as nat);
    let (b, b2) = (block_row(levels, p, r), block_row(levels, p, r2));
    lemma_tensor_cell_range(levels, p, r);
    lemma_tensor_cell_range(levels, p, r2);
    let c = directions(q, k, k)[rank(levels, p) as int];
    lemma_directions_range(q, k, rank(levels, p) as int);
    lemma_shift(q, k, t, c, b);
    lemma_shift(q, k, t, c, b2);
    lemma_with_digit_injective(r, r2, s, n, shifted(q, k, t, b), shifted(q, k, t, b2));
    lemma_shift_injective(q, k, t, b, b2);
}

/// A column of a block other than column `i`.
spec fn another(i: int) -> int {
    if i == 0 {
        1
    } else {
        0
    }
}

/// No pair of levels appears in two columns more often than another pair.
proof fn lemma_tensor_tally(
    g: Seq<Seq<usize>>,
    levels: Seq<usize>,
    p: int,
    p2: int,
    v: int,
    w: int,
)
    requires
        in_reach(levels),
        feasible(levels),
        is_tensor(g, levels),
        0 <= p < p2 < levels.len(),
        0 <= v < field_for(levels[p] as int) * field_for(levels[p2] as int),
        0 <= w < field_for(levels[p] as int) * field_for(levels[p2] as int),
    ensures
        tally(pair_code(g, p, p2, field_for(levels[p2] as int)), g.len(), v) <= tally(
            pair_code(g, p, p2, field_for(levels[p2] as int)),
            g.len(),
            w,
        ),
{
    let n = g.len();
    let (l, l2) = (levels[p] as int, levels[p2] as int);
    let (q, q2) = (field_for(l), field_for(l2));
    let (k, k2) = (block_depth(levels, l)->0, block_depth(levels, l2)->0);
    let (i, i2) = (rank(levels, p) as int, rank(levels, p2) as int);
    let f = pair_code(g, p, p2, q2);
    lemma_block(levels, p);
    lemma_block(levels, p2);
    lemma_entry_split(v, q, q2);
    lemma_entry_split(w, q, q2);
    let (x, y, a, b) = (v / q2, v % q2, w / q2, w % q2);
    assert forall|r: int| 0 <= r < n && f(r) == v implies tensor_cell(levels, p, r) == x
        && tensor_cell(levels, p2, r) == y by {
        assert(g[r][p] == tensor_cell(levels, p, r));
        assert(g[r][p2] == tensor_cell(levels, p2, r));
        lemma_tensor_cell_range(levels, p, r);
        lemma_tensor_cell_range(levels, p2, r);
        lemma_entry_join(g[r][p] as int, g[r][p2] as int, q, q2);
    }
    if l == l2 {
        lemma_rank_increases(levels, p, p2);
        let t = lemma_move_pair(q, k, i, i2, x, y, a, b);
        let shift = |r: int| moved(levels, p, t, r);
        assert forall|r: int| 0 <= r < n && f(r) == v implies 0 <= #[trigger] shift(r) < n && f(
            shift(r),
        ) == w by {
            lemma_moved(levels, p, t, r);
            lemma_tensor_cell_range(levels, p, r);
            let m = moved(levels, p, t, r);
            assert(g[m][p] == tensor_cell(levels, p, m));
            assert(g[m][p2] == tensor_cell(levels, p2, m));
            assert(block_row(levels, p2, m) == block_row(levels, p, m));
            assert(block_row(levels, p2, r) == block_row(levels, p, r));
        }
        assert forall|r: int, s: int|
            0 <= r < n && 0 <= s < n && #[trigger] shift(r) == #[trigger] shift(s) implies r == s by {
            lemma_moved_injective(levels, p, t, r, s);
        }
        lemma_tally_injection(f, n, v, w, shift);
    } else {
        let t = lemma_move_pair(q, k, i, another(i), x, 0, a, 0);
        let t2 = lemma_move_pair(q2, k2, i2, another(i2), y, 0, b, 0);
        let shift = |r: int| moved(levels, p2, t2, moved(levels, p, t, r));
        assert forall|r: int| 0 <= r < n && f(r) == v implies 0 <= #[trigger] shift(r) < n && f(
            shift(r),
        ) == w by {
            lemma_moved(levels, p, t, r);
            let m = moved(levels, p, t, r);
            lemma_moved(levels, p2, t2, m);
            let m2 = moved(levels, p2, t2, m);
            lemma_tensor_cell_range(levels, p, r);
            lemma_tensor_cell_range(levels, p2, r);
            assert(block_row(levels, p2, m) == block_row(levels, p2, r));
            assert(block_row(levels, p, m2) == block_row(levels, p, m));
            assert(g[m2][p] == tensor_cell(levels, p, m2));
            assert(g[m2][p2] == tensor_cell(levels, p2, m2));
        }
        assert forall|r: int, s: int|
            0 <= r < n && 0 <= s < n && #[trigger] shift(r) == #[trigger] shift(s) implies r == s by {
            lemma_moved(levels, p, t, r);
            lemma_moved(levels, p, t, s);
            lemma_moved_injective(
                levels,
                p2,
                t2,
                moved(levels, p, t, r),
                moved(levels, p, t, s),
            );
            lemma_moved_injective(levels, p, t, r, s);
        }
        lemma_tally_injection(f, n, v, w, shift);
    }
}

/// Every product of Bush blocks has strength 2, within a block and across
/// blocks.
pub proof fn tensor_has_strength2(g: Seq<Seq<usize>>, levels: Seq<usize>)
    requires
        in_reach(levels),
        feasible(levels),
        is_tensor(g, levels),
    ensures
        strength2(g, tensor_levels(levels)),
        cells_in_range(g, tensor_levels(levels)),
{
    let cl = tensor_levels(levels);
    assert forall|r: int, p: int| 0 <= r < g.len() && 0 <= p < cl.len() implies #[trigger] g[r][p]
        < cl[p] by {
        lemma_tensor_cell_range(levels, p, r);
        lemma_block(levels, p);
    }
    assert forall|p: int, p2: int| 0 <= p < p2 < cl.len() implies #[trigger] balanced(
        g,
        p,
        p2,
        cl[p] as int,
        cl[p2] as int,
    ) by {
        lemma_block(levels, p);
        lemma_block(levels, p2);
        let (q, q2) = (field_for(levels[p] as int), field_for(levels[p2] as int));
        assert(pair_in_range(g, p, p2, q, q2)) by {
            assert forall|r: int| 0 <= r < g.len() implies #[trigger] g[r][p] < q && g[r][p2] < q2 by {
                assert(g[r][p] < cl[p] && g[r][p2] < cl[p2]);
            }
        }
        assert forall|v: int, w: int| 0 <= v < q * q2 && 0 <= w < q * q2 implies #[trigger] tally(
            pair_code(g, p, p2, q2),
            g.len(),
            v,
        ) <= #[trigger] tally(pair_code(g, p, p2, q2), g.len(), w) by {
            lemma_tensor_tally(g, levels, p, p2, v, w);
        }
        lemma_balanced(g, p, p2, q, q2);
    }
}

// ===== Construction =====

/// A block and the positions of its factors.
struct Block {
    q: usize,
    weight: usize,
    rows: Vec<Vec<usize>>,
}

/// What a block holds for the factors with `l` levels.
spec fn is_block(b: Block, levels: Seq<usize>, l: int) -> bool {
    let q = field_for(l);
    let k = block_depth(levels, l)->0;
    &&& b.q == q
    &&& b.weight == stride(levels, l as nat)
    &&& block_depth(levels, l) is Some
    &&& is_bush(grid(b.rows@), q, k, capacity(q, k))
    &&& b.rows@.len() == block_rows(levels, l)
}

/// The text for the block of the factors with `l` levels.
pub open spec fn block_text(levels: Seq<usize>, l: int) -> Seq<char> {
    decimal(field_for(l) as nat) + "^"@ + decimal(count_level(levels, l)) + "@"@ + decimal(
        block_rows(levels, l) as nat,
    )
}

/// The texts of the blocks of fewer than `l` levels.
pub open spec fn block_texts(levels: Seq<usize>, l: nat) -> Seq<Seq<char>>
    decreases l,
{
    if l == 0 {
        Seq::empty()
    } else if count_level(levels, l - 1) == 0 {
        block_texts(levels, (l - 1) as nat)
    } else {
        block_texts(levels, (l - 1) as nat).push(block_text(levels, l - 1))
    }
}

/// How the product was made.
pub open spec fn tensor_method(levels: Seq<usize>) -> Seq<char> {
    "Kronecker ["@ + separated(block_texts(levels, 50), " ⊗ "@) + "]"@
}

/// The name of the product.
pub open spec fn tensor_label(levels: Seq<usize>) -> Seq<char> {
    "L"@ + decimal(tensor_rows(levels) as nat) + " ("@ + tensor_method(levels) + ")"@
}

/// What the construction gives for the level counts: nothing where they are all
/// the same or a block has no depth up to 10; otherwise the tensor product.
pub open spec fn constructed(levels: Seq<usize>, r: Option<Selected>) -> bool {
    match r {
        None => uniform(levels) || !feasible(levels),
        Some(sel) => {
            &&& !uniform(levels)
            &&& feasible(levels)
            &&& is_tensor(grid(sel.array@), levels)
            &&& sel.column_levels@ == tensor_levels(levels)
            &&& sel.info.rows == sel.array@.len()
            &&& sel.info.cols == levels.len()
            &&& sel.info.method@ == tensor_method(levels)
            &&& sel.info.label@ == tensor_label(levels)
        },
    }
}

/// The product gives one array only.
pub proof fn constructed_is_unique(levels: Seq<usize>, a: Selected, b: Selected)
    requires
        constructed(levels, Some(a)),
        constructed(levels, Some(b)),
    ensures
        a@ == b@,
{
    let (g, h) = (grid(a.array@), grid(b.array@));
    assert forall|r: int| 0 <= r < g.len() implies g[r] == h[r] by {
        assert(g[r].len() == h[r].len());
        assert(g[r] =~= h[r]);
    }
    assert(g =~= h);
    assert(a@ =~= b@);
}

/// Number of factors with `l` levels.
fn count_of(levels: &[usize], l: usize) -> (n: usize)
    ensures
        n == count_level(levels@, l as int),
        n <= levels@.len(),
{
    let mut n: usize = 0;
    let mut i: usize = 0;
    while i < levels.len()
        invariant
            i <= levels@.len(),
            n <= i,
            n == count_level(levels@.take(i as int), l as int),
        decreases levels@.len() - i,
    {
        assert(levels@.take(i + 1).drop_last() =~= levels@.take(i as int));
        if levels[i] == l {
            n = n + 1;
        }
        i = i + 1;
    }
    assert(levels@.take(i as int) =~= levels@);
    n
}

proof fn lemma_count_level_positive(levels: Seq<usize>, l: int)
    requires
        count_level(levels, l) > 0,
    ensures
        exists|p: int| 0 <= p < levels.len() && #[trigger] levels[p] == l,
    decreases levels.len(),
{
    if levels.len() > 0 {
        if levels.last() == l {
            assert(levels[levels.len() - 1] == l);
        } else {
            lemma_count_level_positive(levels.drop_last(), l);
            let p = choose|p: int|
                0 <= p < levels.drop_last().len() && #[trigger] levels.drop_last()[p] == l;
            assert(levels[p] == l);
        }
    }
}

proof fn lemma_count_level_witness(levels: Seq<usize>, p: int)
    requires
        0 <= p < levels.len(),
    ensures
        count_level(levels, levels[p] as int) > 0,
{
    lemma_count_level_take(levels, p, levels[p] as int);
}

proof fn lemma_stride_bound(levels: Seq<usize>, a: nat, b: nat)
    requires
        a <= b <= 50,
    ensures
        0 < stride(levels, a) <= stride(levels, b),
{
    lemma_stride_positive(levels, a);
    lemma_stride_positive(levels, b);
    if a < b {
        let c = lemma_stride(levels, a, b);
        lemma_block_rows_positive(levels, a as int);
        let (x, y) = (stride(levels, a), block_rows(levels, a as int));
        assert(x <= (x * y) * c) by (nonlinear_arith)
            requires
                x > 0,
                y >= 1,
                c > 0,
        ;
    }
}

/// The block of the factors with `l` levels, or nothing where no depth up to 10
/// supplies a column for each of them.
fn build_block(levels: &[usize], l: usize, count: usize, weight: usize) -> (r: Result<
    Option<Block>,
    NotPrimePower,
>)
    requires
        l <= 49,
        count == count_level(levels@, l as int),
        count > 0,
        count <= levels@.len(),
        levels@.len() * 2401 <= usize::MAX,
        weight == stride(levels@, l as nat),
    ensures
        r is Ok,
        r->Ok_0 is None <==> block_depth(levels@, l as int) is None,
        r->Ok_0 matches Some(b) ==> is_block(b, levels@, l as int),
{
    let q: usize = next_prime_power_at_least(l);
    proof {
        lemma_field_for(l as int);
        lemma_next_field_unique(l as int, q as int, field_for(l as int));
        assert(count * 2401 <= usize::MAX) by (nonlinear_arith)
            requires
                count <= levels@.len(),
                levels@.len() * 2401 <= usize::MAX,
        ;
    }
    match find_depth(q, count) {
        None => Ok(None),
        Some((k, cap)) => {
            let gf: Gf = Gf::new(q)?;
            let rows: Vec<Vec<usize>> = bush_at(&gf, k);
            Ok(Some(Block { q, weight, rows }))
        },
    }
}

/// Row tensor of per-level Bush blocks. Declines where all factors share one
/// level count, and where a group needs a block deeper than 10.
pub fn try_construct(levels: &[usize]) -> (r: Result<Option<Selected>, NotPrimePower>)
    requires
        tractable(levels@),
    ensures
        r is Ok,
        constructed(levels@, r->Ok_0),
        r matches Ok(Some(sel)) ==> sel.wf() && strength2(grid(sel.array@), sel.column_levels@),
{
    let n: usize = levels.len();
    if is_uniform(levels) {
        return Ok(None);
    }
    // For each level count below `l`: its block, where factors have it.
    let mut blocks: Vec<Option<Block>> = Vec::new();
    let mut parts: Vec<String> = Vec::new();
    // Whether the blocks so far all have a depth, and the product of their rows.
    let mut weight: usize = 1;
    let mut l: usize = 0;
    if !has_depths(levels) {
        return Ok(None);
    }
    while l < 50
        invariant
            l <= 50,
            n == levels@.len(),
            in_reach(levels@),
            feasible(levels@),
            !uniform(levels@),
            tensor_rows(levels@) <= usize::MAX,
            levels@.len() * 2401 <= usize::MAX,
            blocks@.len() == l,
            weight == stride(levels@, l as nat),
            views(parts@) =~= block_texts(levels@, l as nat),
            forall|m: int|
                0 <= m < l ==> match #[trigger] blocks@[m] {
                    Some(b) => count_level(levels@, m) > 0 && is_block(b, levels@, m),
                    None => count_level(levels@, m) == 0,
                },
        decreases 50 - l,
    {
        let count: usize = count_of(levels, l);
        proof {
            lemma_stride_bound(levels@, (l + 1) as nat, 50);
            lemma_stride_positive(levels@, l as nat);
        }
        if count == 0 {
            blocks.push(None);
            assert(weight * 1 == weight) by (nonlinear_arith);
        } else {
            proof {
                lemma_count_level_positive(levels@, l as int);
                let p = choose|p: int| 0 <= p < levels@.len() && #[trigger] levels@[p] == l;
                assert(block_depth(levels@, levels@[p] as int) is Some);
            }
            match build_block(levels, l, count, weight)? {
                None => {
                    return Ok(None);
                },
                Some(b) => {
                    let size: usize = b.rows.len();
                    let mut part: String = String::new();
                    push_decimal(&mut part, b.q as u64);
                    part.append("^");
                    push_decimal(&mut part, count as u64);
                    part.append("@");
                    push_decimal(&mut part, size as u64);
                    assert(part@ =~= block_text(levels@, l as int));
                    let ghost before = parts@;
                    parts.push(part);
                    assert(views(parts@) =~= views(before).push(part@));
                    blocks.push(Some(b));
                    weight = weight * size;
                },
            }
        }
        l = l + 1;
    }
    let total: usize = weight;
    let array: Vec<Vec<usize>> = fill(levels, &blocks, total);
    let mut column_levels: Vec<usize> = Vec::new();
    let mut p: usize = 0;
    while p < n
        invariant
            n == levels@.len(),
            p <= n,
            in_reach(levels@),
            column_levels@.len() == p,
            forall|i: int|
                0 <= i < p ==> #[trigger] column_levels@[i] == field_for(levels@[i] as int),
        decreases n - p,
    {
        let q: usize = next_prime_power_at_least(levels[p]);
        proof {
            lemma_field_for(levels@[p as int] as int);
            lemma_next_field_unique(
                levels@[p as int] as int,
                q as int,
                field_for(levels@[p as int] as int),
            );
        }
        column_levels.push(q);
        p = p + 1;
    }
    assert(column_levels@ =~= tensor_levels(levels@));
    let joined: String = join(&parts, " ⊗ ");
    let mut method: String = String::new();
    method.append("Kronecker [");
    method.append(joined.as_str());
    method.append("]");
    let mut label: String = String::new();
    label.append("L");
    push_decimal(&mut label, total as u64);
    label.append(" (");
    label.append(method.as_str());
    label.append(")");
    proof {
        assert(method@ =~= tensor_method(levels@));
        assert(label@ =~= tensor_label(levels@));
        tensor_has_strength2(grid(array@), levels@);
    }
    let info: ArrayInfo = ArrayInfo { rows: total, cols: n, label, method };
    Ok(Some(Selected { info, array, column_levels }))
}

/// Whether all factors share one level count.
pub(crate) fn is_uniform(levels: &[usize]) -> (r: bool)
    ensures
        r == uniform(levels@),
{
    let mut i: usize = 0;
    while i < levels.len()
        invariant
            i <= levels@.len(),
            forall|j: int| 0 <= j < i ==> #[trigger] levels@[j] == levels@[0],
        decreases levels@.len() - i,
    {
        if levels[i] != levels[0] {
            return false;
        }
        i = i + 1;
    }
    true
}

/// Whether every group of factors within the supported fields has a block.
pub(crate) fn has_depths(levels: &[usize]) -> (r: bool)
    requires
        levels@.len() * 2401 <= usize::MAX,
    ensures
        r == !too_deep(levels@),
        r && in_reach(levels@) ==> feasible(levels@),
        !r ==> !feasible(levels@),
{
    let mut p: usize = 0;
    while p < levels.len()
        invariant
            p <= levels@.len(),
            levels@.len() * 2401 <= usize::MAX,
            forall|i: int|
                0 <= i < p && levels@[i] <= 49 ==> #[trigger] block_depth(levels@, levels@[i] as int)
                    is Some,
        decreases levels@.len() - p,
    {
        let l: usize = levels[p];
        if l <= 49 {
            let q: usize = next_prime_power_at_least(l);
            let count: usize = count_of(levels, l);
            proof {
                lemma_field_for(l as int);
                lemma_next_field_unique(l as int, q as int, field_for(l as int));
                assert(count * 2401 <= usize::MAX) by (nonlinear_arith)
                    requires
                        count <= levels@.len(),
                        levels@.len() * 2401 <= usize::MAX,
                ;
            }
            if find_depth(q, count).is_none() {
                assert(block_depth(levels@, levels@[p as int] as int) is None);
                return false;
            }
        }
        p = p + 1;
    }
    true
}

/// The cells of the product.
fn fill(levels: &[usize], blocks: &Vec<Option<Block>>, total: usize) -> (array: Vec<Vec<usize>>)
    requires
        in_reach(levels@),
        feasible(levels@),
        total == tensor_rows(levels@),
        blocks@.len() == 50,
        forall|m: int|
            0 <= m < 50 ==> match #[trigger] blocks@[m] {
                Some(b) => count_level(levels@, m) > 0 && is_block(b, levels@, m),
                None => count_level(levels@, m) == 0,
            },
    ensures
        is_tensor(grid(array@), levels@),
{
    let n: usize = levels.len();
    let mut ranks: Vec<usize> = Vec::new();
    let mut p: usize = 0;
    while p < n
        invariant
            n == levels@.len(),
            p <= n,
            ranks@.len() == p,
            forall|i: int| 0 <= i < p ==> #[trigger] ranks@[i] == rank(levels@, i),
        decreases n - p,
    {
        let mut c: usize = 0;
        let mut i: usize = 0;
        while i < p
            invariant
                p < n,
                n == levels@.len(),
                i <= p,
                c <= i,
                c == count_level(levels@.take(i as int), levels@[p as int] as int),
            decreases p - i,
        {
            assert(levels@.take(i + 1).drop_last() =~= levels@.take(i as int));
            if levels[i] == levels[p] {
                c = c + 1;
            }
            i = i + 1;
        }
        ranks.push(c);
        p = p + 1;
    }
    let mut array: Vec<Vec<usize>> = Vec::new();
    let mut r: usize = 0;
    while r < total
        invariant
            r <= total,
            n == levels@.len(),
            in_reach(levels@),
            feasible(levels@),
            blocks@.len() == 50,
            ranks@.len() == n,
            array@.len() == r,
            forall|i: int| 0 <= i < n ==> #[trigger] ranks@[i] == rank(levels@, i),
            forall|m: int|
                0 <= m < 50 ==> match #[trigger] blocks@[m] {
                    Some(b) => count_level(levels@, m) > 0 && is_block(b, levels@, m),
                    None => count_level(levels@, m) == 0,
                },
            forall|s: int| 0 <= s < r ==> (#[trigger] array@[s])@.len() == n,
            forall|s: int, c: int|
                0 <= s < r && 0 <= c < n ==> #[trigger] array@[s]@[c] == tensor_cell(levels@, c, s),
        decreases total - r,
    {
        let mut row: Vec<usize> = Vec::new();
        let mut p: usize = 0;
        while p < n
            invariant
                p <= n,
                n == levels@.len(),
                in_reach(levels@),
                feasible(levels@),
                blocks@.len() == 50,
                ranks@.len() == n,
                row@.len() == p,
                forall|i: int| 0 <= i < n ==> #[trigger] ranks@[i] == rank(levels@, i),
                forall|m: int|
                    0 <= m < 50 ==> match #[trigger] blocks@[m] {
                        Some(b) => count_level(levels@, m) > 0 && is_block(b, levels@, m),
                        None => count_level(levels@, m) == 0,
                    },
                forall|c: int|
                    0 <= c < p ==> #[trigger] row@[c] == tensor_cell(levels@, c, r as int),
            decreases n - p,
        {
            let l: usize = levels[p];
            proof {
                lemma_block(levels@, p as int);
                lemma_stride_positive(levels@, l as nat);
                lemma_count_level_witness(levels@, p as int);
                lemma_tensor_cell_range(levels@, p as int, r as int);
            }
            match &blocks[l] {
                Some(b) => {
                    proof {
                        let k = block_depth(levels@, l as int)->0;
                        bush_capacity(field_for(l as int), k);
                    }
                    let at: usize = (r / b.weight) % b.rows.len();
                    assert(grid(b.rows@)[at as int] == b.rows@[at as int]@);
                    let c: usize = ranks[p];
                    assert(grid(b.rows@)[at as int][c as int] == tensor_cell(
                        levels@,
                        p as int,
                        r as int,
                    ));
                    row.push(b.rows[at][c]);
                },
                None => {
                    assert(false);
                },
            }
            p = p + 1;
        }
        array.push(row);
        r = r + 1;
    }
    proof {
        let g = grid(array@);
        assert forall|s: int| 0 <= s < g.len() implies #[trigger] g[s].len() == n by {
            assert(g[s] == array@[s]@);
        }
        assert forall|s: int, c: int| 0 <= s < g.len() && 0 <= c < n implies #[trigger] g[s][c]
            == tensor_cell(levels@, c, s) by {
            assert(g[s][c] == array@[s]@[c]);
        }
        lemma_stride_positive(levels@, 50);
    }
    array
}

/// The number of rows of the product for the level counts, where it has one
/// and it fits the machine.
pub fn rows_needed(levels: &[usize]) -> (r: Option<usize>)
    requires
        in_reach(levels@),
        levels@.len() * 2401 <= usize::MAX,
    ensures
        match r {
            Some(n) => feasible(levels@) && n == tensor_rows(levels@),
            None => !feasible(levels@) || tensor_rows(levels@) > usize::MAX,
        },
{
    if !has_depths(levels) {
        return None;
    }
    let mut weight: usize = 1;
    let mut l: usize = 0;
    while l < 50
        invariant
            l <= 50,
            in_reach(levels@),
            feasible(levels@),
            levels@.len() * 2401 <= usize::MAX,
            weight == stride(levels@, l as nat),
        decreases 50 - l,
    {
        let count: usize = count_of(levels, l);
        assert(weight * 1 == weight) by (nonlinear_arith);
        if count > 0 {
            let q: usize = next_prime_power_at_least(l);
            proof {
                lemma_count_level_positive(levels@, l as int);
                let p = choose|p: int| 0 <= p < levels@.len() && #[trigger] levels@[p] == l;
                assert(block_depth(levels@, levels@[p] as int) is Some);
                lemma_field_for(l as int);
                lemma_next_field_unique(l as int, q as int, field_for(l as int));
                assert(count * 2401 <= usize::MAX) by (nonlinear_arith)
                    requires
                        count <= levels@.len(),
                        levels@.len() * 2401 <= usize::MAX,
                ;
                lemma_stride_bound(levels@, (l + 1) as nat, 50);
            }
            match find_depth(q, count) {
                None => {
                    return None;
                },
                Some((k, _)) => {
                    let size: usize = super::gf::power(q, k);
                    match weight.checked_mul(size) {
                        None => {
                            return None;
                        },
                        Some(w) => {
                            weight = w;
                        },
                    }
                },
            }
        }
        l = l + 1;
    }
    Some(weight)
}

} // verus!
