//! Vectors of residues modulo `p`, the arithmetic under the extension fields.
use vstd::arithmetic::div_mod::{lemma_mod_bound, lemma_small_mod};
use vstd::prelude::*;

use super::digits::all_digits;

verus! {

/// The vector of `k` zeros.
pub open spec fn zeros(k: nat) -> Seq<int> {
    Seq::new(k, |i: int| 0)
}

/// Componentwise sum modulo `p`.
pub open spec fn vadd(p: int, u: Seq<int>, v: Seq<int>) -> Seq<int> {
    Seq::new(u.len(), |i: int| (u[i] + v[i]) % p)
}

/// Componentwise negation modulo `p`.
pub open spec fn vneg(p: int, u: Seq<int>) -> Seq<int> {
    Seq::new(u.len(), |i: int| (p - u[i]) % p)
}

/// Multiple of a vector modulo `p`.
pub open spec fn vscale(p: int, s: int, v: Seq<int>) -> Seq<int> {
    Seq::new(v.len(), |i: int| (s * v[i]) % p)
}

/// The residue of `-low[i]` modulo `p`.
pub open spec fn opposite(p: int, low: Seq<int>, i: int) -> int {
    (p - low[i] % p) % p
}

/// The polynomial with coefficients `v` times x, reduced by the monic
/// polynomial whose coefficients below the leading one are `low`.
pub open spec fn times_x(p: int, low: Seq<int>, v: Seq<int>) -> Seq<int> {
    Seq::new(
        v.len(),
        |i: int| ((if i == 0 { 0 } else { v[i - 1] }) + v[v.len() - 1] * opposite(p, low, i)) % p,
    )
}

/// The product of the polynomials `a` and `b`, without the terms of `a` below
/// x^i and divided by x^i: a[i]·b + x·(a[i+1]·b + x·(...)).
pub open spec fn partial_product(p: int, low: Seq<int>, a: Seq<int>, b: Seq<int>, i: nat) -> Seq<int>
    decreases a.len() - i,
{
    if i >= a.len() {
        zeros(b.len())
    } else {
        vadd(p, vscale(p, a[i as int], b), times_x(p, low, partial_product(p, low, a, b, i + 1)))
    }
}

/// A sum may be reduced before it is taken.
pub proof fn lemma_mod_sum(x: int, y: int, p: int)
    requires
        p > 0,
    ensures
        (x % p + y % p) % p == (x + y) % p,
        (x % p + y) % p == (x + y) % p,
        (x + y % p) % p == (x + y) % p,
        0 <= (x + y) % p < p,
{
    vstd::arithmetic::div_mod::lemma_add_mod_noop(x, y, p);
    vstd::arithmetic::div_mod::lemma_add_mod_noop_right(x, y, p);
    vstd::arithmetic::div_mod::lemma_add_mod_noop_right(y, x, p);
    lemma_mod_bound(x + y, p);
}

/// A product may be reduced before it is taken.
pub proof fn lemma_mod_product(x: int, y: int, p: int)
    requires
        p > 0,
    ensures
        ((x % p) * y) % p == (x * y) % p,
        (x * (y % p)) % p == (x * y) % p,
        0 <= (x * y) % p < p,
{
    vstd::arithmetic::div_mod::lemma_mul_mod_noop_general(x, y, p);
    lemma_mod_bound(x * y, p);
}

pub proof fn lemma_zeros(p: int, k: nat)
    requires
        p > 0,
    ensures
        all_digits(zeros(k), p),
{
}

pub proof fn lemma_vadd_range(p: int, u: Seq<int>, v: Seq<int>)
    requires
        p > 0,
    ensures
        all_digits(vadd(p, u, v), p),
{
    assert forall|i: int| 0 <= i < u.len() implies 0 <= #[trigger] vadd(p, u, v)[i] < p by {
        lemma_mod_bound(u[i] + v[i], p);
    }
}

pub proof fn lemma_partial_product_range(p: int, low: Seq<int>, a: Seq<int>, b: Seq<int>, i: nat)
    requires
        p > 0,
    ensures
        all_digits(partial_product(p, low, a, b, i), p),
        partial_product(p, low, a, b, i).len() == b.len(),
    decreases a.len() - i,
{
    if i < a.len() {
        lemma_partial_product_range(p, low, a, b, i + 1);
        lemma_vadd_range(
            p,
            vscale(p, a[i as int], b),
            times_x(p, low, partial_product(p, low, a, b, i + 1)),
        );
    }
}

pub proof fn lemma_vadd_commutes(p: int, u: Seq<int>, v: Seq<int>)
    requires
        u.len() == v.len(),
    ensures
        vadd(p, u, v) == vadd(p, v, u),
{
    assert(vadd(p, u, v) =~= vadd(p, v, u));
}

pub proof fn lemma_vadd_associates(p: int, u: Seq<int>, v: Seq<int>, w: Seq<int>)
    requires
        p > 0,
        u.len() == v.len() == w.len(),
    ensures
        vadd(p, vadd(p, u, v), w) == vadd(p, u, vadd(p, v, w)),
{
    assert forall|i: int| 0 <= i < u.len() implies #[trigger] vadd(p, vadd(p, u, v), w)[i] == vadd(
        p,
        u,
        vadd(p, v, w),
    )[i] by {
        lemma_mod_sum(u[i] + v[i], w[i], p);
        lemma_mod_sum(u[i], v[i] + w[i], p);
    }
    assert(vadd(p, vadd(p, u, v), w) =~= vadd(p, u, vadd(p, v, w)));
}

pub proof fn lemma_vadd_zeros(p: int, u: Seq<int>)
    requires
        p > 0,
        all_digits(u, p),
    ensures
        vadd(p, u, zeros(u.len())) == u,
{
    assert forall|i: int| 0 <= i < u.len() implies #[trigger] vadd(p, u, zeros(u.len()))[i]
        == u[i] by {
        lemma_small_mod(u[i] as nat, p as nat);
    }
    assert(vadd(p, u, zeros(u.len())) =~= u);
}

pub proof fn lemma_vadd_vneg(p: int, u: Seq<int>)
    requires
        p > 0,
    ensures
        vadd(p, u, vneg(p, u)) == zeros(u.len()),
        all_digits(vneg(p, u), p),
{
    assert forall|i: int| 0 <= i < u.len() implies #[trigger] vadd(p, u, vneg(p, u))[i] == 0 by {
        lemma_mod_sum(u[i], p - u[i], p);
        vstd::arithmetic::div_mod::lemma_mod_self_0(p);
    }
    assert forall|i: int| 0 <= i < u.len() implies 0 <= #[trigger] vneg(p, u)[i] < p by {
        lemma_mod_bound(p - u[i], p);
    }
    assert(vadd(p, u, vneg(p, u)) =~= zeros(u.len()));
}

/// (u + v) + (w + z) = (u + w) + (v + z).
pub proof fn lemma_vadd_exchange(p: int, u: Seq<int>, v: Seq<int>, w: Seq<int>, z: Seq<int>)
    requires
        p > 0,
        u.len() == v.len() == w.len() == z.len(),
    ensures
        vadd(p, vadd(p, u, v), vadd(p, w, z)) == vadd(p, vadd(p, u, w), vadd(p, v, z)),
{
    let l = vadd(p, vadd(p, u, v), vadd(p, w, z));
    let r = vadd(p, vadd(p, u, w), vadd(p, v, z));
    assert forall|i: int| 0 <= i < u.len() implies #[trigger] l[i] == r[i] by {
        lemma_mod_sum(u[i] + v[i], w[i] + z[i], p);
        lemma_mod_sum(u[i] + w[i], v[i] + z[i], p);
    }
    assert(l =~= r);
}

pub proof fn lemma_vscale_vadd(p: int, s: int, u: Seq<int>, v: Seq<int>)
    requires
        p > 0,
        u.len() == v.len(),
    ensures
        vscale(p, s, vadd(p, u, v)) == vadd(p, vscale(p, s, u), vscale(p, s, v)),
{
    let l = vscale(p, s, vadd(p, u, v));
    let r = vadd(p, vscale(p, s, u), vscale(p, s, v));
    assert forall|i: int| 0 <= i < u.len() implies #[trigger] l[i] == r[i] by {
        lemma_mod_product(s, u[i] + v[i], p);
        lemma_mod_sum(s * u[i], s * v[i], p);
        assert(s * (u[i] + v[i]) == s * u[i] + s * v[i]) by (nonlinear_arith);
    }
    assert(l =~= r);
}

pub proof fn lemma_vscale_vscale(p: int, s: int, t: int, u: Seq<int>)
    requires
        p > 0,
    ensures
        vscale(p, s, vscale(p, t, u)) == vscale(p, t, vscale(p, s, u)),
{
    let l = vscale(p, s, vscale(p, t, u));
    let r = vscale(p, t, vscale(p, s, u));
    assert forall|i: int| 0 <= i < u.len() implies #[trigger] l[i] == r[i] by {
        lemma_mod_product(s, t * u[i], p);
        lemma_mod_product(t, s * u[i], p);
        assert(s * (t * u[i]) == t * (s * u[i])) by (nonlinear_arith);
    }
    assert(l =~= r);
}

pub proof fn lemma_times_x_vadd(p: int, low: Seq<int>, u: Seq<int>, v: Seq<int>)
    requires
        p > 0,
        u.len() == v.len(),
    ensures
        times_x(p, low, vadd(p, u, v)) == vadd(p, times_x(p, low, u), times_x(p, low, v)),
{
    let w = vadd(p, u, v);
    let l = times_x(p, low, w);
    let r = vadd(p, times_x(p, low, u), times_x(p, low, v));
    let k = u.len();
    assert forall|i: int| 0 <= i < k implies #[trigger] l[i] == r[i] by {
        let n = opposite(p, low, i);
        let (ui, vi) = if i == 0 { (0int, 0int) } else { (u[i - 1], v[i - 1]) };
        let (ut, vt) = (u[k - 1], v[k - 1]);
        lemma_mod_sum(ui + ut * n, vi + vt * n, p);
        let s = (ut + vt) % p;
        lemma_mod_product(ut + vt, n, p);
        assert((ut + vt) * n == ut * n + vt * n) by (nonlinear_arith);
        lemma_mod_sum(ui + vi, (ut + vt) * n, p);
        lemma_mod_sum(ui + vi, s * n, p);
        if i > 0 {
            lemma_mod_sum(ui + vi, s * n, p);
            lemma_mod_sum(w[i - 1], s * n, p);
        }
    }
    assert(l =~= r);
}

pub proof fn lemma_times_x_vscale(p: int, low: Seq<int>, s: int, u: Seq<int>)
    requires
        p > 0,
    ensures
        times_x(p, low, vscale(p, s, u)) == vscale(p, s, times_x(p, low, u)),
{
    let w = vscale(p, s, u);
    let l = times_x(p, low, w);
    let r = vscale(p, s, times_x(p, low, u));
    let k = u.len();
    assert forall|i: int| 0 <= i < k implies #[trigger] l[i] == r[i] by {
        let n = opposite(p, low, i);
        let ui = if i == 0 { 0int } else { u[i - 1] };
        let ut = u[k - 1];
        lemma_mod_product(s, ui + ut * n, p);
        assert(s * (ui + ut * n) == s * ui + (s * ut) * n) by (nonlinear_arith);
        let t = (s * ut) % p;
        lemma_mod_product(s * ut, n, p);
        lemma_mod_sum(s * ui, (s * ut) * n, p);
        lemma_mod_sum(s * ui, t * n, p);
        if i > 0 {
            lemma_mod_sum(w[i - 1], t * n, p);
        }
    }
    assert(l =~= r);
}

pub proof fn lemma_times_x_zeros(p: int, low: Seq<int>, k: nat)
    requires
        p > 0,
    ensures
        times_x(p, low, zeros(k)) == zeros(k),
{
    assert forall|i: int| 0 <= i < k implies #[trigger] times_x(p, low, zeros(k))[i] == 0 by {
        let n = opposite(p, low, i);
        assert(0 * n == 0) by (nonlinear_arith);
        lemma_small_mod(0, p as nat);
    }
    assert(times_x(p, low, zeros(k)) =~= zeros(k));
}

/// The product is additive in its second factor.
pub proof fn lemma_product_vadd(p: int, low: Seq<int>, a: Seq<int>, b: Seq<int>, c: Seq<int>, i: nat)
    requires
        p > 0,
        b.len() == c.len(),
    ensures
        partial_product(p, low, a, vadd(p, b, c), i) == vadd(
            p,
            partial_product(p, low, a, b, i),
            partial_product(p, low, a, c, i),
        ),
    decreases a.len() - i,
{
    let k = b.len();
    if i >= a.len() {
        lemma_zeros(p, k);
        lemma_vadd_zeros(p, zeros(k));
    } else {
        let s = a[i as int];
        let hb = partial_product(p, low, a, b, i + 1);
        let hc = partial_product(p, low, a, c, i + 1);
        lemma_partial_product_range(p, low, a, b, i + 1);
        lemma_partial_product_range(p, low, a, c, i + 1);
        lemma_product_vadd(p, low, a, b, c, i + 1);
        lemma_times_x_vadd(p, low, hb, hc);
        lemma_vscale_vadd(p, s, b, c);
        lemma_vadd_exchange(
            p,
            vscale(p, s, b),
            vscale(p, s, c),
            times_x(p, low, hb),
            times_x(p, low, hc),
        );
    }
}

/// A multiple of the second factor gives that multiple of the product.
pub proof fn lemma_product_vscale(p: int, low: Seq<int>, a: Seq<int>, s: int, b: Seq<int>, i: nat)
    requires
        p > 0,
    ensures
        partial_product(p, low, a, vscale(p, s, b), i) == vscale(
            p,
            s,
            partial_product(p, low, a, b, i),
        ),
    decreases a.len() - i,
{
    let k = b.len();
    if i >= a.len() {
        assert forall|j: int| 0 <= j < k implies #[trigger] vscale(p, s, zeros(k))[j] == 0 by {
            assert(s * 0 == 0) by (nonlinear_arith);
            lemma_small_mod(0, p as nat);
        }
        assert(vscale(p, s, zeros(k)) =~= zeros(k));
    } else {
        let t = a[i as int];
        let h = partial_product(p, low, a, b, i + 1);
        lemma_partial_product_range(p, low, a, b, i + 1);
        lemma_product_vscale(p, low, a, s, b, i + 1);
        lemma_times_x_vscale(p, low, s, h);
        lemma_vscale_vscale(p, s, t, b);
        lemma_vscale_vadd(p, s, vscale(p, t, b), times_x(p, low, h));
    }
}

/// The product by x·b is x times the product by b.
pub proof fn lemma_product_times_x(p: int, low: Seq<int>, a: Seq<int>, b: Seq<int>, i: nat)
    requires
        p > 0,
    ensures
        partial_product(p, low, a, times_x(p, low, b), i) == times_x(
            p,
            low,
            partial_product(p, low, a, b, i),
        ),
    decreases a.len() - i,
{
    if i >= a.len() {
        lemma_times_x_zeros(p, low, b.len());
    } else {
        let t = a[i as int];
        let h = partial_product(p, low, a, b, i + 1);
        lemma_partial_product_range(p, low, a, b, i + 1);
        lemma_product_times_x(p, low, a, b, i + 1);
        lemma_times_x_vscale(p, low, t, b);
        lemma_times_x_vadd(p, low, vscale(p, t, b), times_x(p, low, h));
    }
}

/// a·(b·c) = b·(a·c), with b taken from its term x^i on.
pub proof fn lemma_product_exchange(
    p: int,
    low: Seq<int>,
    a: Seq<int>,
    b: Seq<int>,
    c: Seq<int>,
    i: nat,
)
    requires
        p > 0,
    ensures
        partial_product(p, low, a, partial_product(p, low, b, c, i), 0) == partial_product(
            p,
            low,
            b,
            partial_product(p, low, a, c, 0),
            i,
        ),
    decreases b.len() - i,
{
    let k = c.len();
    let ac = partial_product(p, low, a, c, 0);
    lemma_partial_product_range(p, low, a, c, 0);
    if i >= b.len() {
        lemma_product_zeros(p, low, a, k, 0);
    } else {
        let t = b[i as int];
        let h = partial_product(p, low, b, c, i + 1);
        lemma_partial_product_range(p, low, b, c, i + 1);
        lemma_product_exchange(p, low, a, b, c, i + 1);
        lemma_product_vadd(p, low, a, vscale(p, t, c), times_x(p, low, h), 0);
        lemma_product_vscale(p, low, a, t, c, 0);
        lemma_product_times_x(p, low, a, h, 0);
    }
}

pub proof fn lemma_product_zeros(p: int, low: Seq<int>, a: Seq<int>, k: nat, i: nat)
    requires
        p > 0,
    ensures
        partial_product(p, low, a, zeros(k), i) == zeros(k),
    decreases a.len() - i,
{
    if i < a.len() {
        lemma_product_zeros(p, low, a, k, i + 1);
        lemma_times_x_zeros(p, low, k);
        let s = a[i as int];
        assert forall|j: int| 0 <= j < k implies #[trigger] vscale(p, s, zeros(k))[j] == 0 by {
            assert(s * 0 == 0) by (nonlinear_arith);
            lemma_small_mod(0, p as nat);
        }
        assert(vscale(p, s, zeros(k)) =~= zeros(k));
        lemma_zeros(p, k);
        lemma_vadd_zeros(p, zeros(k));
    }
}

/// The constant polynomial one.
pub open spec fn one(k: nat) -> Seq<int> {
    Seq::new(k, |i: int| if i == 0 { 1 } else { 0 })
}

/// The product by one, from the term x^i on, is the shifted polynomial.
pub proof fn lemma_product_one(p: int, low: Seq<int>, a: Seq<int>, i: nat)
    requires
        p > 1,
        i <= a.len(),
        all_digits(a, p),
    ensures
        partial_product(p, low, a, one(a.len()), i) == Seq::new(
            a.len(),
            |j: int| if i + j < a.len() { a[i + j] } else { 0 },
        ),
    decreases a.len() - i,
{
    let k = a.len();
    let target = Seq::new(k, |j: int| if i + j < k { a[i + j] } else { 0 });
    if i == k {
        assert(partial_product(p, low, a, one(k), i) =~= target);
    } else {
        let h = partial_product(p, low, a, one(k), i + 1);
        lemma_product_one(p, low, a, i + 1);
        let t = a[i as int];
        let r = partial_product(p, low, a, one(k), i);
        assert forall|j: int| 0 <= j < k implies #[trigger] r[j] == target[j] by {
            let n = opposite(p, low, j);
            assert(h[k - 1] == 0);
            assert(0 * n == 0) by (nonlinear_arith);
            lemma_small_mod(0, p as nat);
            if j == 0 {
                assert(t * 1 == t) by (nonlinear_arith);
                lemma_small_mod(t as nat, p as nat);
            } else {
                assert(t * 0 == 0) by (nonlinear_arith);
                lemma_small_mod(h[j - 1] as nat, p as nat);
            }
        }
        assert(r =~= target);
    }
}

/// The coefficient of x^j in one step of the product, with one reduction.
pub proof fn lemma_product_step(p: int, low: Seq<int>, a: Seq<int>, b: Seq<int>, i: nat, j: int)
    requires
        p > 0,
        i < a.len(),
        0 <= j < b.len(),
    ensures
        ({
            let h = partial_product(p, low, a, b, i + 1);
            partial_product(p, low, a, b, i)[j] == (a[i as int] * b[j] + (if j == 0 {
                0
            } else {
                h[j - 1]
            }) + h[b.len() - 1] * opposite(p, low, j)) % p
        }),
{
    let h = partial_product(p, low, a, b, i + 1);
    lemma_partial_product_range(p, low, a, b, i + 1);
    let y = (if j == 0 { 0 } else { h[j - 1] }) + h[b.len() - 1] * opposite(p, low, j);
    lemma_mod_sum(a[i as int] * b[j], y, p);
}

} // verus!
