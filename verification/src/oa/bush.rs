//! Bush construction over GF(q): OA(q^k, (q^k-1)/(q-1), q, 2).
//!
//! Rows are k-tuples (a_0,…,a_{k-1}) ∈ GF(q)^k. Columns are canonical
//! representatives of 1-dimensional subspaces (vectors whose leading non-zero
//! entry is 1). Cell (a, c) = Σ_i c_i · a_i, with arithmetic in GF(q).
use vstd::arithmetic::power::{lemma_pow_increases, lemma_pow_positive, pow};
use vstd::prelude::*;

use super::counting::{lemma_tally_injection, tally};
use super::digits::{all_digits, digits, digits_of, lemma_digits, lemma_digits_injective, lemma_number, number};
use super::gf::{element, field_addition, field_division, field_multiplication, is_prime_power, lemma_field_shape, negation, power, product, sum, supported, Gf, NotPrimePower};
use super::{ArrayInfo, Selected};
use crate::text::{decimal, push_decimal};
use super::strength::{cells_in_range, grid, lemma_balanced, lemma_entry_split, lemma_entry_join, pair_code, pair_in_range, strength2};

verus! {

/// Σ_{i<n} c_i · a_i in GF(q).
pub open spec fn dot(q: int, c: Seq<int>, a: Seq<int>, n: nat) -> int
    decreases n,
{
    if n == 0 {
        0
    } else {
        sum(q, dot(q, c, a, (n - 1) as nat), product(q, c[n - 1], a[n - 1]))
    }
}

/// The direction whose leading one stands at `lead`, followed by the digits of
/// `combo`.
pub open spec fn direction(q: int, k: nat, lead: nat, combo: int) -> Seq<int> {
    Seq::new(
        k,
        |i: int|
            if i < lead {
                0
            } else if i == lead {
                1
            } else {
                digits(combo, q, (k - lead - 1) as nat)[i - lead - 1]
            },
    )
}

/// The directions with a leading one at `lead`.
pub open spec fn directions_at(q: int, k: nat, lead: nat) -> Seq<Seq<int>> {
    Seq::new(
        pow(q, (k - lead - 1) as nat) as nat,
        |combo: int| direction(q, k, lead, combo),
    )
}

/// The directions with a leading one below `leads`, in the order of the columns.
pub open spec fn directions(q: int, k: nat, leads: nat) -> Seq<Seq<int>>
    decreases leads,
{
    if leads == 0 {
        Seq::empty()
    } else {
        directions(q, k, (leads - 1) as nat) + directions_at(q, k, (leads - 1) as nat)
    }
}

/// The cell of row `r` in the column of direction `c`.
pub open spec fn cell(q: int, k: nat, c: Seq<int>, r: int) -> int {
    dot(q, c, digits(r, q, k), k)
}

/// Number of columns of the array of depth `k`.
pub open spec fn capacity(q: int, k: nat) -> int {
    (pow(q, k) - 1) / (q - 1)
}

/// `g` is the Bush array over GF(q) of depth `k`, cut to its first `cols` columns.
pub open spec fn is_bush(g: Seq<Seq<usize>>, q: int, k: nat, cols: int) -> bool {
    &&& g.len() == pow(q, k)
    &&& 0 <= cols <= directions(q, k, k).len()
    &&& forall|r: int| 0 <= r < g.len() ==> #[trigger] g[r].len() == cols
    &&& forall|r: int, c: int|
        0 <= r < g.len() && 0 <= c < cols ==> #[trigger] g[r][c] == cell(
            q,
            k,
            directions(q, k, k)[c],
            r,
        )
}

proof fn lemma_directions_len(q: int, k: nat, leads: nat)
    requires
        q >= 2,
        leads <= k,
    ensures
        directions(q, k, leads).len() * (q - 1) == pow(q, k) - pow(q, (k - leads) as nat),
    decreases leads,
{
    if leads == 0 {
        assert(0 * (q - 1) == 0) by (nonlinear_arith);
    } else {
        let rest = (k - leads) as nat;
        lemma_directions_len(q, k, (leads - 1) as nat);
        lemma_pow_positive(q, rest);
        reveal(pow);
        assert(pow(q, rest + 1) == q * pow(q, rest));
        let a = directions(q, k, (leads - 1) as nat).len();
        assert((a + pow(q, rest)) * (q - 1) == a * (q - 1) + q * pow(q, rest) - pow(q, rest))
            by (nonlinear_arith);
    }
}

/// The array of depth `k` has (q^k - 1) / (q - 1) columns.
pub proof fn bush_capacity(q: int, k: nat)
    requires
        q >= 2,
    ensures
        directions(q, k, k).len() == capacity(q, k),
        directions(q, k, k).len() * (q - 1) == pow(q, k) - 1,
        directions(q, k, k).len() < pow(q, k),
{
    lemma_directions_len(q, k, k);
    vstd::arithmetic::power::lemma_pow0(q);
    let n = directions(q, k, k).len() as int;
    vstd::arithmetic::div_mod::lemma_div_multiples_vanish(n, q - 1);
    assert((q - 1) * n == n * (q - 1)) by (nonlinear_arith);
    assert(n <= n * (q - 1)) by (nonlinear_arith)
        requires
            n >= 0,
            q >= 2,
    ;
}

/// Where column `i` of the array stands: its leading position and its number
/// among the directions that lead there.
pub open spec fn place(q: int, k: nat, leads: nat, i: int) -> (nat, int)
    decreases leads,
{
    if leads == 0 {
        (0, 0)
    } else {
        let n = directions(q, k, (leads - 1) as nat).len();
        if i >= n {
            ((leads - 1) as nat, i - n)
        } else {
            place(q, k, (leads - 1) as nat, i)
        }
    }
}

proof fn lemma_place(q: int, k: nat, leads: nat, i: int)
    requires
        q >= 2,
        leads <= k,
        0 <= i < directions(q, k, leads).len(),
    ensures
        ({
            let (lead, combo) = place(q, k, leads, i);
            &&& lead < leads
            &&& 0 <= combo < pow(q, (k - lead - 1) as nat)
            &&& directions(q, k, leads)[i] == direction(q, k, lead, combo)
        }),
    decreases leads,
{
    if leads > 0 {
        let n = directions(q, k, (leads - 1) as nat).len();
        lemma_pow_positive(q, (k - leads) as nat);
        if i < n {
            lemma_place(q, k, (leads - 1) as nat, i);
        }
    }
}

proof fn lemma_place_order(q: int, k: nat, leads: nat, i: int, j: int)
    requires
        q >= 2,
        leads <= k,
        0 <= i < j < directions(q, k, leads).len(),
    ensures
        ({
            let (li, ci) = place(q, k, leads, i);
            let (lj, cj) = place(q, k, leads, j);
            li < lj || (li == lj && ci < cj)
        }),
    decreases leads,
{
    if leads > 0 {
        let n = directions(q, k, (leads - 1) as nat).len();
        if j < n {
            lemma_place_order(q, k, (leads - 1) as nat, i, j);
        } else if i < n {
            lemma_place(q, k, (leads - 1) as nat, i);
        }
    }
}

proof fn lemma_direction_range(q: int, k: nat, lead: nat, combo: int)
    requires
        q >= 2,
        lead < k,
        combo >= 0,
    ensures
        direction(q, k, lead, combo).len() == k,
        all_digits(direction(q, k, lead, combo), q),
{
    lemma_digits(combo, q, (k - lead - 1) as nat);
    let c = direction(q, k, lead, combo);
    assert forall|i: int| 0 <= i < c.len() implies 0 <= #[trigger] c[i] < q by {
        if i > lead {
            assert(c[i] == digits(combo, q, (k - lead - 1) as nat)[i - lead - 1]);
        }
    }
}

proof fn lemma_dot_range(q: int, c: Seq<int>, a: Seq<int>, n: nat)
    requires
        supported(q),
        n <= c.len(),
        n <= a.len(),
        all_digits(c, q),
        all_digits(a, q),
    ensures
        element(q, dot(q, c, a, n)),
    decreases n,
{
    lemma_field_shape(q);
    if n > 0 {
        lemma_dot_range(q, c, a, (n - 1) as nat);
        field_multiplication(q, c[n - 1], a[n - 1], 0);
        field_addition(q, dot(q, c, a, (n - 1) as nat), product(q, c[n - 1], a[n - 1]), 0);
    }
}

/// Componentwise sum of two tuples in GF(q).
pub open spec fn tuple_sum(q: int, a: Seq<int>, b: Seq<int>) -> Seq<int> {
    Seq::new(a.len(), |i: int| sum(q, a[i], b[i]))
}

proof fn lemma_tuple_sum_range(q: int, a: Seq<int>, b: Seq<int>)
    requires
        supported(q),
        a.len() == b.len(),
        all_digits(a, q),
        all_digits(b, q),
    ensures
        all_digits(tuple_sum(q, a, b), q),
{
    assert forall|i: int| 0 <= i < a.len() implies 0 <= #[trigger] tuple_sum(q, a, b)[i] < q by {
        field_addition(q, a[i], b[i], 0);
    }
}

/// (a + b) + (c + d) = (a + c) + (b + d).
proof fn lemma_sum_exchange(q: int, a: int, b: int, c: int, d: int)
    requires
        supported(q),
        element(q, a),
        element(q, b),
        element(q, c),
        element(q, d),
    ensures
        sum(q, sum(q, a, b), sum(q, c, d)) == sum(q, sum(q, a, c), sum(q, b, d)),
{
    field_addition(q, a, b, 0);
    field_addition(q, c, d, 0);
    field_addition(q, b, d, 0);
    field_addition(q, a, c, 0);
    field_addition(q, a, b, sum(q, c, d));
    field_addition(q, b, c, d);
    field_addition(q, c, b, d);
    field_addition(q, a, c, sum(q, b, d));
}

/// x + w = y + w only where x = y.
proof fn lemma_sum_cancel(q: int, x: int, y: int, w: int)
    requires
        supported(q),
        element(q, x),
        element(q, y),
        element(q, w),
        sum(q, x, w) == sum(q, y, w),
    ensures
        x == y,
{
    field_addition(q, w, w, w);
    let n = negation(q, w);
    field_addition(q, x, w, n);
    field_addition(q, y, w, n);
}

/// (x - y) + y = x.
proof fn lemma_difference(q: int, x: int, y: int)
    requires
        supported(q),
        element(q, x),
        element(q, y),
    ensures
        element(q, sum(q, x, negation(q, y))),
        sum(q, sum(q, x, negation(q, y)), y) == x,
        sum(q, y, sum(q, x, negation(q, y))) == x,
{
    field_addition(q, y, y, y);
    let n = negation(q, y);
    field_addition(q, n, y, y);
    field_addition(q, x, n, y);
    field_addition(q, x, 0, 0);
    field_addition(q, y, sum(q, x, n), 0);
}

/// The dot product is additive in the tuple.
proof fn lemma_dot_sum(q: int, c: Seq<int>, a: Seq<int>, b: Seq<int>, n: nat)
    requires
        supported(q),
        n <= c.len(),
        n <= a.len(),
        a.len() == b.len(),
        all_digits(c, q),
        all_digits(a, q),
        all_digits(b, q),
    ensures
        dot(q, c, tuple_sum(q, a, b), n) == sum(q, dot(q, c, a, n), dot(q, c, b, n)),
    decreases n,
{
    lemma_field_shape(q);
    if n == 0 {
        field_addition(q, 0, 0, 0);
    } else {
        let m = (n - 1) as nat;
        lemma_dot_sum(q, c, a, b, m);
        lemma_dot_range(q, c, a, m);
        lemma_dot_range(q, c, b, m);
        field_multiplication(q, c[m as int], a[m as int], b[m as int]);
        field_multiplication(q, c[m as int], b[m as int], 0);
        lemma_sum_exchange(
            q,
            dot(q, c, a, m),
            dot(q, c, b, m),
            product(q, c[m as int], a[m as int]),
            product(q, c[m as int], b[m as int]),
        );
    }
}

/// The tuple with `s` at position `i`, `r` at position `m` and zeros elsewhere.
spec fn two_entries(k: nat, i: int, s: int, m: int, r: int) -> Seq<int> {
    Seq::new(
        k,
        |p: int|
            if p == i {
                s
            } else if p == m {
                r
            } else {
                0
            },
    )
}

proof fn lemma_dot_two_entries(q: int, c: Seq<int>, i: int, s: int, m: int, r: int, n: nat)
    requires
        supported(q),
        0 <= i < m < c.len(),
        n <= c.len(),
        all_digits(c, q),
        element(q, s),
        element(q, r),
    ensures
        dot(q, c, two_entries(c.len(), i, s, m, r), n) == if n <= i {
            0
        } else if n <= m {
            product(q, c[i], s)
        } else {
            sum(q, product(q, c[i], s), product(q, c[m], r))
        },
    decreases n,
{
    lemma_field_shape(q);
    if n > 0 {
        let t = two_entries(c.len(), i, s, m, r);
        let l = n - 1;
        lemma_dot_two_entries(q, c, i, s, m, r, l as nat);
        field_multiplication(q, c[i], s, 0);
        field_multiplication(q, c[m], r, 0);
        field_multiplication(q, c[l], 0, 0);
        field_addition(q, product(q, c[i], s), product(q, c[m], r), 0);
        field_addition(q, sum(q, product(q, c[i], s), product(q, c[m], r)), 0, 0);
        field_addition(q, 0, product(q, c[i], s), 0);
        field_addition(q, 0, 0, 0);
    }
}

/// For two columns and any two values there is a tuple that shows these values
/// in these columns.
proof fn lemma_solve(q: int, k: nat, i: int, j: int, u: int, v: int) -> (t: Seq<int>)
    requires
        supported(q),
        0 <= i < j < directions(q, k, k).len(),
        element(q, u),
        element(q, v),
    ensures
        t.len() == k,
        all_digits(t, q),
        dot(q, directions(q, k, k)[i], t, k) == u,
        dot(q, directions(q, k, k)[j], t, k) == v,
{
    lemma_field_shape(q);
    let (lc, nc) = place(q, k, k, i);
    let (ld, nd) = place(q, k, k, j);
    lemma_place(q, k, k, i);
    lemma_place(q, k, k, j);
    lemma_place_order(q, k, k, i, j);
    let c = directions(q, k, k)[i];
    let d = directions(q, k, k)[j];
    lemma_direction_range(q, k, lc, nc);
    lemma_direction_range(q, k, ld, nd);
    if lc < ld {
        let a = lc as int;
        let b = ld as int;
        let x = product(q, c[b], v);
        field_multiplication(q, c[b], v, 0);
        lemma_difference(q, u, x);
        let s = sum(q, u, negation(q, x));
        let t = two_entries(k, a, s, b, v);
        lemma_dot_two_entries(q, c, a, s, b, v, k);
        lemma_dot_two_entries(q, d, a, s, b, v, k);
        assert(c[a] == 1 && d[a] == 0 && d[b] == 1);
        field_multiplication(q, s, 1, 0);
        field_multiplication(q, s, 0, 0);
        field_multiplication(q, v, 1, 0);
        field_addition(q, 0, v, 0);
        field_addition(q, v, 0, 0);
        t
    } else {
        let a = lc as int;
        let rest = (k - lc - 1) as nat;
        lemma_digits(nc, q, rest);
        lemma_digits(nd, q, rest);
        if forall|p: int| 0 <= p < rest ==> digits(nc, q, rest)[p] == digits(nd, q, rest)[p] {
            assert(digits(nc, q, rest) =~= digits(nd, q, rest));
            lemma_digits_injective(nc, nd, q, rest);
        }
        let p = choose|p: int|
            0 <= p < rest && digits(nc, q, rest)[p] != digits(nd, q, rest)[p];
        let m = lc + 1 + p;
        assert(c[m] == digits(nc, q, rest)[p] && d[m] == digits(nd, q, rest)[p]);
        assert(c[a] == 1 && d[a] == 1);
        // g = c[m] - d[m] is not zero
        lemma_difference(q, c[m], d[m]);
        let g = sum(q, c[m], negation(q, d[m]));
        if g == 0 {
            field_addition(q, 0, d[m], 0);
            field_addition(q, d[m], 0, 0);
        }
        lemma_difference(q, u, v);
        let w = sum(q, u, negation(q, v));
        let r = field_division(q, g, w);
        let big = product(q, c[m], r);
        let small = product(q, d[m], r);
        field_multiplication(q, c[m], r, 0);
        field_multiplication(q, d[m], r, 0);
        // big = (g + d[m])·r = w + small
        field_multiplication(q, r, g, d[m]);
        field_multiplication(q, r, d[m], 0);
        field_multiplication(q, g, r, 0);
        assert(big == sum(q, w, small));
        lemma_difference(q, u, big);
        let s = sum(q, u, negation(q, big));
        let t = two_entries(k, a, s, m, r);
        lemma_dot_two_entries(q, c, a, s, m, r, k);
        lemma_dot_two_entries(q, d, a, s, m, r, k);
        field_multiplication(q, s, 1, 0);
        // (s + small) + w = s + big = u = v + w
        field_addition(q, s, small, w);
        field_addition(q, small, w, 0);
        field_addition(q, v, w, 0);
        field_addition(q, s, small, 0);
        lemma_sum_cancel(q, sum(q, s, small), v, w);
        t
    }
}

/// The row that stands `t` away from row `r`.
pub open spec fn shifted(q: int, k: nat, t: Seq<int>, r: int) -> int {
    number(tuple_sum(q, digits(r, q, k), t), q)
}

/// A shift of the rows stays among the rows, keeps them apart and adds the
/// cell of `t` to every cell of a column.
pub proof fn lemma_shift(q: int, k: nat, t: Seq<int>, c: Seq<int>, r: int)
    requires
        supported(q),
        t.len() == k,
        all_digits(t, q),
        c.len() == k,
        all_digits(c, q),
        0 <= r < pow(q, k),
    ensures
        0 <= shifted(q, k, t, r) < pow(q, k),
        cell(q, k, c, shifted(q, k, t, r)) == sum(q, cell(q, k, c, r), dot(q, c, t, k)),
{
    lemma_field_shape(q);
    let a = digits(r, q, k);
    lemma_digits(r, q, k);
    lemma_tuple_sum_range(q, a, t);
    lemma_number(tuple_sum(q, a, t), q);
    lemma_dot_sum(q, c, a, t, k);
}

pub proof fn lemma_shift_injective(q: int, k: nat, t: Seq<int>, r: int, s: int)
    requires
        supported(q),
        t.len() == k,
        all_digits(t, q),
        0 <= r < pow(q, k),
        0 <= s < pow(q, k),
        shifted(q, k, t, r) == shifted(q, k, t, s),
    ensures
        r == s,
{
    lemma_field_shape(q);
    let a = digits(r, q, k);
    let b = digits(s, q, k);
    lemma_digits(r, q, k);
    lemma_digits(s, q, k);
    lemma_tuple_sum_range(q, a, t);
    lemma_tuple_sum_range(q, b, t);
    lemma_number(tuple_sum(q, a, t), q);
    lemma_number(tuple_sum(q, b, t), q);
    assert(tuple_sum(q, a, t) == tuple_sum(q, b, t));
    assert forall|i: int| 0 <= i < k implies a[i] == b[i] by {
        assert(tuple_sum(q, a, t)[i] == tuple_sum(q, b, t)[i]);
        lemma_sum_cancel(q, a[i], b[i], t[i]);
    }
    assert(a =~= b);
    lemma_digits_injective(r, s, q, k);
}

/// Column directions are tuples of field elements.
pub proof fn lemma_directions_range(q: int, k: nat, i: int)
    requires
        q >= 2,
        0 <= i < directions(q, k, k).len(),
    ensures
        directions(q, k, k)[i].len() == k,
        all_digits(directions(q, k, k)[i], q),
{
    lemma_place(q, k, k, i);
    let (lead, combo) = place(q, k, k, i);
    lemma_direction_range(q, k, lead, combo);
}

/// A shift of the rows that moves every row with the values (x, y) in the
/// columns `i` and `j` to a row with the values (x2, y2) there.
pub proof fn lemma_move_pair(
    q: int,
    k: nat,
    i: int,
    j: int,
    x: int,
    y: int,
    x2: int,
    y2: int,
) -> (t: Seq<int>)
    requires
        supported(q),
        0 <= i < directions(q, k, k).len(),
        0 <= j < directions(q, k, k).len(),
        i != j,
        element(q, x),
        element(q, y),
        element(q, x2),
        element(q, y2),
    ensures
        t.len() == k,
        all_digits(t, q),
        forall|r: int|
            0 <= r < pow(q, k) && cell(q, k, directions(q, k, k)[i], r) == x ==> cell(
                q,
                k,
                directions(q, k, k)[i],
                #[trigger] shifted(q, k, t, r),
            ) == x2,
        forall|r: int|
            0 <= r < pow(q, k) && cell(q, k, directions(q, k, k)[j], r) == y ==> cell(
                q,
                k,
                directions(q, k, k)[j],
                #[trigger] shifted(q, k, t, r),
            ) == y2,
{
    lemma_field_shape(q);
    lemma_difference(q, x2, x);
    lemma_difference(q, y2, y);
    let u = sum(q, x2, negation(q, x));
    let v = sum(q, y2, negation(q, y));
    let t = if i < j {
        lemma_solve(q, k, i, j, u, v)
    } else {
        lemma_solve(q, k, j, i, v, u)
    };
    lemma_directions_range(q, k, i);
    lemma_directions_range(q, k, j);
    let c = directions(q, k, k)[i];
    let d = directions(q, k, k)[j];
    assert forall|r: int| 0 <= r < pow(q, k) && cell(q, k, c, r) == x implies cell(
        q,
        k,
        c,
        #[trigger] shifted(q, k, t, r),
    ) == x2 by {
        lemma_shift(q, k, t, c, r);
    }
    assert forall|r: int| 0 <= r < pow(q, k) && cell(q, k, d, r) == y implies cell(
        q,
        k,
        d,
        #[trigger] shifted(q, k, t, r),
    ) == y2 by {
        lemma_shift(q, k, t, d, r);
    }
    t
}

pub proof fn lemma_cell_range(q: int, k: nat, i: int, r: int)
    requires
        supported(q),
        0 <= i < directions(q, k, k).len(),
        0 <= r < pow(q, k),
    ensures
        element(q, cell(q, k, directions(q, k, k)[i], r)),
{
    lemma_field_shape(q);
    lemma_directions_range(q, k, i);
    lemma_digits(r, q, k);
    lemma_dot_range(q, directions(q, k, k)[i], digits(r, q, k), k);
}

/// Every Bush array has strength 2, in every number of its columns.
pub proof fn bush_has_strength2(g: Seq<Seq<usize>>, q: int, k: nat, cols: int, levels: Seq<usize>)
    requires
        supported(q),
        is_bush(g, q, k, cols),
        levels.len() == cols,
        forall|c: int| 0 <= c < cols ==> #[trigger] levels[c] == q,
    ensures
        strength2(g, levels),
        cells_in_range(g, levels),
{
    lemma_field_shape(q);
    assert forall|r: int, c: int| 0 <= r < g.len() && 0 <= c < cols implies #[trigger] g[r][c]
        < levels[c] by {
        lemma_cell_range(q, k, c, r);
    }
    assert forall|i: int, j: int| 0 <= i < j < cols implies #[trigger] super::strength::balanced(
        g,
        i,
        j,
        levels[i] as int,
        levels[j] as int,
    ) by {
        lemma_bush_pair(g, q, k, cols, i, j);
    }
}

proof fn lemma_bush_pair(g: Seq<Seq<usize>>, q: int, k: nat, cols: int, i: int, j: int)
    requires
        supported(q),
        is_bush(g, q, k, cols),
        0 <= i < j < cols,
    ensures
        super::strength::balanced(g, i, j, q, q),
{
    lemma_field_shape(q);
    let f = pair_code(g, i, j, q);
    let n = g.len();
    let c = directions(q, k, k)[i];
    let d = directions(q, k, k)[j];
    lemma_directions_range(q, k, i);
    lemma_directions_range(q, k, j);
    assert forall|r: int| 0 <= r < n implies #[trigger] g[r][i] < q && g[r][j] < q by {
        lemma_cell_range(q, k, i, r);
        lemma_cell_range(q, k, j, r);
        assert(g[r][j] == cell(q, k, d, r));
    }
    assert(pair_in_range(g, i, j, q, q));
    assert forall|v: int, w: int| 0 <= v < q * q && 0 <= w < q * q implies #[trigger] tally(f, n, v)
        <= #[trigger] tally(f, n, w) by {
        lemma_entry_split(v, q, q);
        lemma_entry_split(w, q, q);
        let t = lemma_move_pair(q, k, i, j, v / q, v % q, w / q, w % q);
        let shift = |r: int| shifted(q, k, t, r);
        assert forall|r: int| 0 <= r < n && f(r) == v implies 0 <= #[trigger] shift(r) < n && f(
            shift(r),
        ) == w by {
            assert(g[r][i] == cell(q, k, c, r));
            assert(g[r][j] == cell(q, k, d, r));
            lemma_entry_join(g[r][i] as int, g[r][j] as int, q, q);
            lemma_shift(q, k, t, c, r);
            let s = shifted(q, k, t, r);
            assert(g[s][i] == cell(q, k, c, s));
            assert(g[s][j] == cell(q, k, d, s));
        }
        assert forall|r: int, s: int|
            0 <= r < n && 0 <= s < n && #[trigger] shift(r) == #[trigger] shift(s) implies r == s by {
            lemma_shift_injective(q, k, t, r, s);
        }
        lemma_tally_injection(f, n, v, w, shift);
    }
    lemma_balanced(g, i, j, q, q);
}

/// A row of field elements as numbers.
pub open spec fn ints(v: Seq<usize>) -> Seq<int> {
    v.map_values(|x: usize| x as int)
}

/// All column directions, in the order of the columns.
fn enumerate_directions(q: usize, k: usize) -> (cols: Vec<Vec<usize>>)
    requires
        q >= 2,
        pow(q as int, k as nat) <= usize::MAX,
    ensures
        cols@.len() == directions(q as int, k as nat, k as nat).len(),
        forall|c: int|
            0 <= c < cols@.len() ==> ints(#[trigger] cols@[c]@) == directions(
                q as int,
                k as nat,
                k as nat,
            )[c],
{
    let ghost dirs = directions(q as int, k as nat, k as nat);
    let mut cols: Vec<Vec<usize>> = Vec::new();
    let mut lead: usize = 0;
    while lead < k
        invariant
            q >= 2,
            lead <= k,
            pow(q as int, k as nat) <= usize::MAX,
            cols@.len() == directions(q as int, k as nat, lead as nat).len(),
            forall|c: int|
                0 <= c < cols@.len() ==> ints(#[trigger] cols@[c]@) == directions(
                    q as int,
                    k as nat,
                    lead as nat,
                )[c],
        decreases k - lead,
    {
        let trailing: usize = k - lead - 1;
        proof {
            lemma_pow_increases(q as nat, trailing as nat, k as nat);
        }
        let combos: usize = power(q, trailing);
        let ghost before = directions(q as int, k as nat, lead as nat);
        let ghost block = directions_at(q as int, k as nat, lead as nat);
        let mut combo: usize = 0;
        while combo < combos
            invariant
                q >= 2,
                lead < k,
                trailing == k - lead - 1,
                combo <= combos,
                combos == block.len(),
                block == directions_at(q as int, k as nat, lead as nat),
                cols@.len() == before.len() + combo,
                forall|c: int|
                    0 <= c < cols@.len() ==> ints(#[trigger] cols@[c]@) == (before + block)[c],
            decreases combos - combo,
        {
            let tail: Vec<usize> = digits_of(combo, q, trailing);
            let mut c: Vec<usize> = Vec::new();
            let mut i: usize = 0;
            while i < k
                invariant
                    lead < k,
                    i <= k,
                    trailing == k - lead - 1,
                    c@.len() == i,
                    tail@.len() == trailing,
                    ints(tail@) == digits(combo as int, q as int, trailing as nat),
                    forall|m: int|
                        0 <= m < i ==> #[trigger] c@[m] == direction(
                            q as int,
                            k as nat,
                            lead as nat,
                            combo as int,
                        )[m],
                decreases k - i,
            {
                if i < lead {
                    c.push(0);
                } else if i == lead {
                    c.push(1);
                } else {
                    let x: usize = tail[i - lead - 1];
                    assert(ints(tail@)[i - lead - 1] == x);
                    c.push(x);
                }
                i = i + 1;
            }
            assert(ints(c@) =~= direction(q as int, k as nat, lead as nat, combo as int));
            cols.push(c);
            combo = combo + 1;
        }
        lead = lead + 1;
    }
    cols
}

/// Bush construction at a given field and depth `k`: the full
/// q^k × (q^k-1)/(q-1) array.
pub fn bush_at(gf: &Gf, k: usize) -> (oa: Vec<Vec<usize>>)
    requires
        gf.wf(),
        pow(gf.q as int, k as nat) <= usize::MAX,
    ensures
        is_bush(grid(oa@), gf.q as int, k as nat, capacity(gf.q as int, k as nat)),
        forall|levels: Seq<usize>|
            levels.len() == capacity(gf.q as int, k as nat) && (forall|c: int|
                0 <= c < levels.len() ==> #[trigger] levels[c] == gf.q) ==> #[trigger] strength2(
                grid(oa@),
                levels,
            ),
{
    let q: usize = gf.q;
    let ghost dirs = directions(q as int, k as nat, k as nat);
    proof {
        lemma_field_shape(q as int);
        bush_capacity(q as int, k as nat);
    }
    let cols: Vec<Vec<usize>> = enumerate_directions(q, k);
    let n_rows: usize = power(q, k);
    let mut oa: Vec<Vec<usize>> = Vec::new();
    let mut r: usize = 0;
    while r < n_rows
        invariant
            gf.wf(),
            q == gf.q,
            q >= 2,
            dirs == directions(q as int, k as nat, k as nat),
            n_rows == pow(q as int, k as nat),
            r <= n_rows,
            oa@.len() == r,
            cols@.len() == dirs.len(),
            forall|c: int| 0 <= c < cols@.len() ==> ints(#[trigger] cols@[c]@) == dirs[c],
            forall|s: int| 0 <= s < r ==> (#[trigger] oa@[s])@.len() == dirs.len(),
            forall|s: int, c: int|
                0 <= s < r && 0 <= c < dirs.len() ==> #[trigger] oa@[s]@[c] == cell(
                    q as int,
                    k as nat,
                    dirs[c],
                    s,
                ),
        decreases n_rows - r,
    {
        let a: Vec<usize> = digits_of(r, q, k);
        let mut row: Vec<usize> = Vec::new();
        let mut c: usize = 0;
        while c < cols.len()
            invariant
                gf.wf(),
                q == gf.q,
                q >= 2,
                dirs == directions(q as int, k as nat, k as nat),
                c <= cols@.len(),
                row@.len() == c,
                a@.len() == k,
                ints(a@) == digits(r as int, q as int, k as nat),
                forall|i: int| 0 <= i < k ==> #[trigger] a@[i] < q,
                cols@.len() == dirs.len(),
                forall|i: int| 0 <= i < cols@.len() ==> ints(#[trigger] cols@[i]@) == dirs[i],
                forall|i: int|
                    0 <= i < c ==> #[trigger] row@[i] == cell(q as int, k as nat, dirs[i], r as int),
            decreases cols@.len() - c,
        {
            let d: &Vec<usize> = &cols[c];
            proof {
                lemma_directions_range(q as int, k as nat, c as int);
                assert(ints(d@).len() == d@.len());
                lemma_digits(r as int, q as int, k as nat);
            }
            let mut acc: usize = 0;
            let mut i: usize = 0;
            while i < k
                invariant
                    gf.wf(),
                    q == gf.q,
                    q >= 2,
                    i <= k,
                    a@.len() == k,
                    d@.len() == k,
                    acc < q,
                    forall|m: int| 0 <= m < k ==> #[trigger] a@[m] < q,
                    all_digits(ints(d@), q as int),
                    acc == dot(q as int, ints(d@), ints(a@), i as nat),
                decreases k - i,
            {
                assert(ints(d@)[i as int] == d@[i as int] && ints(a@)[i as int] == a@[i as int]);
                acc = gf.add(acc, gf.mul(d[i], a[i]));
                i = i + 1;
            }
            row.push(acc);
            c = c + 1;
        }
        oa.push(row);
        r = r + 1;
    }
    proof {
        let g = grid(oa@);
        let width = capacity(q as int, k as nat);
        assert forall|s: int| 0 <= s < g.len() implies #[trigger] g[s].len() == width by {
            assert(g[s] == oa@[s]@);
        }
        assert forall|s: int, c: int| 0 <= s < g.len() && 0 <= c < width implies #[trigger] g[s][c]
            == cell(q as int, k as nat, dirs[c], s) by {
            assert(g[s][c] == oa@[s]@[c]);
        }
        assert(is_bush(g, q as int, k as nat, width));
        assert forall|levels: Seq<usize>|
            levels.len() == width && (forall|c: int|
                0 <= c < levels.len() ==> #[trigger] levels[c] == gf.q) implies #[trigger] strength2(
            g,
            levels,
        ) by {
            bush_has_strength2(g, q as int, k as nat, width, levels);
        }
    }
    oa
}

/// The larger of a level count and two.
pub open spec fn at_least_two(n: int) -> int {
    if n < 2 {
        2
    } else {
        n
    }
}

/// `q` is the smallest supported field size that is at least `n`.
pub open spec fn next_field(n: int, q: int) -> bool {
    &&& supported(q)
    &&& at_least_two(n) <= q
    &&& forall|m: int| at_least_two(n) <= m < q ==> !#[trigger] supported(m)
}

/// The smallest supported field size that is at least `n`. The largest
/// supported field has 49 elements.
pub fn next_prime_power_at_least(n: usize) -> (q: usize)
    requires
        n <= 49,
    ensures
        next_field(n as int, q as int),
        q <= 49,
{
    let mut m: usize = if n < 2 { 2 } else { n };
    while !is_prime_power(m)
        invariant
            n <= 49,
            at_least_two(n as int) <= m <= 49,
            forall|x: int| at_least_two(n as int) <= x < m ==> !#[trigger] supported(x),
        decreases 49 - m,
    {
        assert(supported(49));
        m = m + 1;
    }
    m
}

/// The smallest depth from `k` to 10 whose array has at least `n` columns.
pub open spec fn depth_from(q: int, n: int, k: nat) -> Option<nat>
    decreases 11 - k,
{
    if k > 10 {
        None
    } else if capacity(q, k) >= n {
        Some(k)
    } else {
        depth_from(q, n, k + 1)
    }
}

/// The depth of the array that supplies `n` columns over GF(q).
pub open spec fn depth(q: int, n: int) -> Option<nat> {
    depth_from(q, n, 2)
}

/// The depth of the array that supplies `n` columns over GF(q), with the
/// number of columns it has.
pub(crate) fn find_depth(q: usize, n: usize) -> (r: Option<(usize, usize)>)
    requires
        2 <= q <= 49,
        n * 2401 <= usize::MAX,
    ensures
        match r {
            Some((k, cap)) => depth(q as int, n as int) == Some(k as nat) && cap == capacity(
                q as int,
                k as nat,
            ) && pow(q as int, k as nat) <= usize::MAX && cap >= n && 2 <= k <= 10,
            None => depth(q as int, n as int) is None,
        },
{
    let mut k: usize = 2;
    proof {
        reveal_with_fuel(pow, 3);
        assert(pow(q as int, 2) == q * q);
        assert(q * q <= 2401) by (nonlinear_arith)
            requires
                q <= 49,
        ;
    }
    // q^k, kept within the limit by the bound on the number of columns.
    let mut size: usize = q * q;
    loop
        invariant
            2 <= q <= 49,
            2 <= k <= 10,
            n * 2401 <= usize::MAX,
            size == pow(q as int, k as nat),
            depth(q as int, n as int) == depth_from(q as int, n as int, k as nat),
        decreases 11 - k,
    {
        proof {
            lemma_pow_positive(q as int, k as nat);
            bush_capacity(q as int, k as nat);
        }
        let cap: usize = (size - 1) / (q - 1);
        if cap >= n {
            return Some((k, cap));
        }
        if k == 10 {
            assert(depth_from(q as int, n as int, 11) is None);
            return None;
        }
        proof {
            // size = cap·(q - 1) + 1 <= n·(q - 1), so q·size is within the limit
            bush_capacity(q as int, k as nat);
            assert(q * size <= n * 2401) by (nonlinear_arith)
                requires
                    cap * (q - 1) == size - 1,
                    cap < n,
                    2 <= q <= 49,
                    cap >= 0,
            ;
            reveal(pow);
            assert(pow(q as int, (k + 1) as nat) == q * pow(q as int, k as nat));
            assert(size * q == q * size) by (nonlinear_arith);
        }
        size = size * q;
        k = k + 1;
    }
}

/// The first `n` cells of each row.
pub(crate) fn take_columns(array: &Vec<Vec<usize>>, n: usize) -> (out: Vec<Vec<usize>>)
    requires
        forall|r: int| 0 <= r < array@.len() ==> n <= (#[trigger] array@[r])@.len(),
    ensures
        out@.len() == array@.len(),
        forall|r: int| 0 <= r < out@.len() ==> (#[trigger] out@[r])@ == array@[r]@.take(n as int),
{
    let mut out: Vec<Vec<usize>> = Vec::new();
    let mut r: usize = 0;
    while r < array.len()
        invariant
            r <= array@.len(),
            out@.len() == r,
            forall|s: int| 0 <= s < array@.len() ==> n <= (#[trigger] array@[s])@.len(),
            forall|s: int| 0 <= s < r ==> (#[trigger] out@[s])@ == array@[s]@.take(n as int),
        decreases array@.len() - r,
    {
        let src: &Vec<usize> = &array[r];
        let mut row: Vec<usize> = Vec::new();
        let mut c: usize = 0;
        while c < n
            invariant
                n <= src@.len(),
                c <= n,
                row@ == src@.take(c as int),
            decreases n - c,
        {
            row.push(src[c]);
            assert(row@ =~= src@.take(c + 1));
            c = c + 1;
        }
        out.push(row);
        r = r + 1;
    }
    out
}

/// The columns of a wider Bush array that stand first form a Bush array.
pub proof fn lemma_take_columns(g: Seq<Seq<usize>>, h: Seq<Seq<usize>>, q: int, k: nat, w: int, n: int)
    requires
        is_bush(g, q, k, w),
        0 <= n <= w,
        h.len() == g.len(),
        forall|r: int| 0 <= r < h.len() ==> #[trigger] h[r] == g[r].take(n),
    ensures
        is_bush(h, q, k, n),
{
    assert forall|r: int| 0 <= r < h.len() implies #[trigger] h[r].len() == n by {
        assert(g[r].len() == w);
    }
    assert forall|r: int, c: int| 0 <= r < h.len() && 0 <= c < n implies #[trigger] h[r][c] == cell(
        q,
        k,
        directions(q, k, k)[c],
        r,
    ) by {
        assert(g[r].len() == w);
        assert(h[r][c] == g[r][c]);
    }
}

/// All level counts are the same.
pub open spec fn uniform(levels: Seq<usize>) -> bool {
    forall|i: int| 0 <= i < levels.len() ==> #[trigger] levels[i] == levels[0]
}

/// How the array over GF(q) of depth `k` for factors of `level` levels was made.
pub open spec fn bush_method(level: int, q: int, k: nat) -> Seq<char> {
    if q != level {
        "Bush GF("@ + decimal(q as nat) + ") k="@ + decimal(k) + " with "@ + decimal(q as nat) + "→"@
            + decimal(level as nat) + " folding"@
    } else if super::gf::degree(q) == 1 {
        "Bush GF("@ + decimal(q as nat) + ") k="@ + decimal(k)
    } else {
        "Bush GF("@ + decimal(q as nat) + "="@ + decimal(super::gf::characteristic(q) as nat) + "^"@
            + decimal(super::gf::degree(q)) + ") k="@ + decimal(k)
    }
}

/// The name of that array.
pub open spec fn bush_label(level: int, q: int, k: nat) -> Seq<char> {
    "L"@ + decimal(pow(q, k) as nat) + " ("@ + bush_method(level, q, k) + ", cap "@ + decimal(
        capacity(q, k) as nat,
    ) + " factors)"@
}

fn method_text(level: usize, gf: &Gf, k: usize) -> (s: String)
    requires
        gf.wf(),
    ensures
        s@ == bush_method(level as int, gf.q as int, k as nat),
{
    let q: usize = gf.q;
    let mut s: String = String::new();
    s.append("Bush GF(");
    push_decimal(&mut s, q as u64);
    if q != level {
        s.append(") k=");
        push_decimal(&mut s, k as u64);
        s.append(" with ");
        push_decimal(&mut s, q as u64);
        s.append("→");
        push_decimal(&mut s, level as u64);
        s.append(" folding");
    } else if gf.k == 1 {
        s.append(") k=");
        push_decimal(&mut s, k as u64);
    } else {
        s.append("=");
        push_decimal(&mut s, gf.p as u64);
        s.append("^");
        push_decimal(&mut s, gf.k as u64);
        s.append(") k=");
        push_decimal(&mut s, k as u64);
    }
    assert(s@ =~= bush_method(level as int, q as int, k as nat));
    s
}

/// What the construction gives for the level counts: nothing where they differ
/// or no depth up to 10 supplies enough columns; otherwise the Bush array over
/// the next field, cut to one column per factor.
pub open spec fn constructed(levels: Seq<usize>, r: Option<Selected>) -> bool {
    match r {
        None => !uniform(levels) || forall|q: int|
            #[trigger] next_field(levels[0] as int, q) ==> depth(q, levels.len() as int) is None,
        Some(sel) => uniform(levels) && exists|q: int|
            {
                &&& #[trigger] next_field(levels[0] as int, q)
                &&& depth(q, levels.len() as int) matches Some(k)
                &&& is_bush(grid(sel.array@), q, k, levels.len() as int)
                &&& sel.column_levels@ == Seq::new(levels.len(), |i: int| q as usize)
                &&& sel.info.rows == sel.array@.len()
                &&& sel.info.cols == levels.len()
                &&& sel.info.method@ == bush_method(levels[0] as int, q, k)
                &&& sel.info.label@ == bush_label(levels[0] as int, q, k)
            },
    }
}

/// Two sizes that are both the next field are the same.
pub proof fn lemma_next_field_unique(n: int, a: int, b: int)
    requires
        next_field(n, a),
        next_field(n, b),
    ensures
        a == b,
{
}

/// The construction gives one array only, and not both an array and nothing.
pub proof fn constructed_is_unique(levels: Seq<usize>, a: Selected, r: Option<Selected>)
    requires
        constructed(levels, Some(a)),
        constructed(levels, r),
    ensures
        r matches Some(b) && a@ == b@,
{
    let q = choose|q: int|
        {
            &&& #[trigger] next_field(levels[0] as int, q)
            &&& depth(q, levels.len() as int) matches Some(k)
            &&& is_bush(grid(a.array@), q, k, levels.len() as int)
            &&& a.column_levels@ == Seq::new(levels.len(), |i: int| q as usize)
            &&& a.info.rows == a.array@.len()
            &&& a.info.cols == levels.len()
            &&& a.info.method@ == bush_method(levels[0] as int, q, k)
            &&& a.info.label@ == bush_label(levels[0] as int, q, k)
        };
    let b = r->0;
    let p = choose|q: int|
        {
            &&& #[trigger] next_field(levels[0] as int, q)
            &&& depth(q, levels.len() as int) matches Some(k)
            &&& is_bush(grid(b.array@), q, k, levels.len() as int)
            &&& b.column_levels@ == Seq::new(levels.len(), |i: int| q as usize)
            &&& b.info.rows == b.array@.len()
            &&& b.info.cols == levels.len()
            &&& b.info.method@ == bush_method(levels[0] as int, q, k)
            &&& b.info.label@ == bush_label(levels[0] as int, q, k)
        };
    lemma_next_field_unique(levels[0] as int, p, q);
    let (g, h) = (grid(a.array@), grid(b.array@));
    assert(g.len() == h.len());
    assert forall|r: int| 0 <= r < g.len() implies g[r] == h[r] by {
        assert(g[r].len() == h[r].len());
        assert(g[r] =~= h[r]);
    }
    assert(g =~= h);
    assert(a@ =~= b@);
}

/// Builds an array for the requested level structure with a single homogeneous
/// Bush array. Declines mixed level counts: it fires only when all factors
/// share the same level count.
pub fn try_construct(levels: &[usize]) -> (r: Result<Option<Selected>, NotPrimePower>)
    requires
        levels@.len() > 0,
        uniform(levels@) ==> levels@[0] <= 49 && levels@.len() * 2401 <= usize::MAX,
    ensures
        r is Ok,
        constructed(levels@, r->Ok_0),
        r matches Ok(Some(sel)) ==> sel.wf() && strength2(grid(sel.array@), sel.column_levels@),
{
    let n: usize = levels.len();
    let level: usize = levels[0];
    let mut i: usize = 1;
    while i < n
        invariant
            n == levels@.len(),
            1 <= i <= n,
            level == levels@[0],
            forall|j: int| 0 <= j < i ==> #[trigger] levels@[j] == level,
        decreases n - i,
    {
        if levels[i] != level {
            return Ok(None);
        }
        i = i + 1;
    }
    assert(uniform(levels@));
    let q: usize = next_prime_power_at_least(level);
    proof {
        assert forall|x: int| #[trigger] next_field(level as int, x) implies x == q by {
            lemma_next_field_unique(level as int, x, q as int);
        }
        lemma_field_shape(q as int);
    }
    let (k, cap): (usize, usize) = match find_depth(q, n) {
        None => {
            return Ok(None);
        },
        Some(found) => found,
    };
    let gf: Gf = Gf::new(q)?;
    let full: Vec<Vec<usize>> = bush_at(&gf, k);
    assert forall|r: int| 0 <= r < full@.len() implies n <= (#[trigger] full@[r])@.len() by {
        assert(grid(full@)[r].len() == cap);
    }
    let array: Vec<Vec<usize>> = take_columns(&full, n);
    let column_levels: Vec<usize> = vec![q; n];
    let method: String = method_text(level, &gf, k);
    let mut label: String = String::new();
    label.append("L");
    push_decimal(&mut label, array.len() as u64);
    label.append(" (");
    label.append(method.as_str());
    label.append(", cap ");
    push_decimal(&mut label, cap as u64);
    label.append(" factors)");
    proof {
        let g = grid(full@);
        let h = grid(array@);
        assert forall|r: int| 0 <= r < h.len() implies #[trigger] h[r] == g[r].take(n as int) by {
            assert(h[r] == array@[r]@);
            assert(g[r] == full@[r]@);
        }
        lemma_take_columns(g, h, q as int, k as nat, cap as int, n as int);
        bush_has_strength2(h, q as int, k as nat, n as int, column_levels@);
        assert(column_levels@ =~= Seq::new(levels@.len(), |i: int| q as usize));
        assert(label@ =~= bush_label(level as int, q as int, k as nat));
        assert(next_field(levels@[0] as int, q as int));
    }
    let info: ArrayInfo = ArrayInfo { rows: array.len(), cols: n, label, method };
    Ok(Some(Selected { info, array, column_levels }))
}

} // verus!
