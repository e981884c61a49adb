//! Counting how often a function takes a value.
use vstd::prelude::*;
use vstd::set_lib::{lemma_len_subset, lemma_map_size};

verus! {

/// Number of arguments below `n` at which `f` is `v`.
pub open spec fn tally(f: spec_fn(int) -> int, n: nat, v: int) -> nat
    decreases n,
{
    if n == 0 {
        0
    } else {
        tally(f, (n - 1) as nat, v) + (if f(n - 1) == v {
            1nat
        } else {
            0
        })
    }
}

/// The arguments below `n` at which `f` is `v`.
pub open spec fn fibre(f: spec_fn(int) -> int, n: nat, v: int) -> Set<int> {
    Set::new(|r: int| 0 <= r < n && f(r) == v)
}

pub proof fn lemma_tally_fibre(f: spec_fn(int) -> int, n: nat, v: int)
    ensures
        fibre(f, n, v).finite(),
        fibre(f, n, v).len() == tally(f, n, v),
    decreases n,
{
    if n == 0 {
        assert(fibre(f, n, v) =~= Set::empty());
    } else {
        let less = fibre(f, (n - 1) as nat, v);
        lemma_tally_fibre(f, (n - 1) as nat, v);
        if f(n - 1) == v {
            assert(fibre(f, n, v) =~= less.insert(n - 1));
        } else {
            assert(fibre(f, n, v) =~= less);
        }
    }
}

/// An injection of a fibre of one function into a fibre of another shows that it
/// is no larger.
pub proof fn lemma_tally_carried(
    f: spec_fn(int) -> int,
    g: spec_fn(int) -> int,
    n: nat,
    v: int,
    w: int,
    shift: spec_fn(int) -> int,
)
    requires
        forall|r: int|
            0 <= r < n && f(r) == v ==> 0 <= #[trigger] shift(r) < n && g(shift(r)) == w,
        forall|r: int, s: int|
            0 <= r < n && 0 <= s < n && #[trigger] shift(r) == #[trigger] shift(s) ==> r == s,
    ensures
        tally(f, n, v) <= tally(g, n, w),
{
    let a = fibre(f, n, v);
    let b = fibre(g, n, w);
    lemma_tally_fibre(f, n, v);
    lemma_tally_fibre(g, n, w);
    let img = a.map(shift);
    assert forall|x: int| img.contains(x) implies b.contains(x) by {
        let r = choose|r: int| a.contains(r) && shift(r) == x;
        assert(a.contains(r));
    }
    lemma_map_size(a, img, shift);
    lemma_len_subset(img, b);
}

/// An injection of one fibre into another shows that it is no larger.
pub proof fn lemma_tally_injection(
    f: spec_fn(int) -> int,
    n: nat,
    v: int,
    w: int,
    shift: spec_fn(int) -> int,
)
    requires
        forall|r: int|
            0 <= r < n && f(r) == v ==> 0 <= #[trigger] shift(r) < n && f(shift(r)) == w,
        forall|r: int, s: int|
            0 <= r < n && 0 <= s < n && #[trigger] shift(r) == #[trigger] shift(s) ==> r == s,
    ensures
        tally(f, n, v) <= tally(f, n, w),
{
    lemma_tally_carried(f, f, n, v, w, shift);
}

/// Sum of the tallies of the values below `m`.
pub open spec fn total(f: spec_fn(int) -> int, n: nat, m: nat) -> nat
    decreases m,
{
    if m == 0 {
        0
    } else {
        total(f, n, (m - 1) as nat) + tally(f, n, m - 1)
    }
}

proof fn lemma_total_step(f: spec_fn(int) -> int, n: nat, m: nat)
    ensures
        total(f, n + 1, m) == total(f, n, m) + (if 0 <= f(n as int) < m {
            1nat
        } else {
            0
        }),
    decreases m,
{
    if m > 0 {
        lemma_total_step(f, n, (m - 1) as nat);
    }
}

proof fn lemma_total_zero(f: spec_fn(int) -> int, m: nat)
    ensures
        total(f, 0, m) == 0,
    decreases m,
{
    if m > 0 {
        lemma_total_zero(f, (m - 1) as nat);
    }
}

/// Where every value lies below `m`, the tallies add up to the number of
/// arguments.
pub proof fn lemma_total(f: spec_fn(int) -> int, n: nat, m: nat)
    requires
        forall|r: int| 0 <= r < n ==> 0 <= #[trigger] f(r) < m,
    ensures
        total(f, n, m) == n,
    decreases n,
{
    if n == 0 {
        lemma_total_zero(f, m);
    } else {
        lemma_total((f), (n - 1) as nat, m);
        lemma_total_step(f, (n - 1) as nat, m);
    }
}

/// The tallies of the values below `m` add up to the number of arguments that
/// have one of them.
pub proof fn lemma_total_parts(
    p: spec_fn(int) -> int,
    f: spec_fn(int) -> int,
    n: nat,
    m: nat,
    v: int,
)
    requires
        forall|r: int| 0 <= r < n ==> (0 <= #[trigger] p(r) < m <==> f(r) == v),
    ensures
        total(p, n, m) == tally(f, n, v),
    decreases n,
{
    if n == 0 {
        lemma_total_zero(p, m);
    } else {
        lemma_total_parts(p, f, (n - 1) as nat, m, v);
        lemma_total_step(p, (n - 1) as nat, m);
        assert(0 <= p(n - 1) < m <==> f(n - 1) == v);
    }
}

/// Where the values below `m` are taken `c` times each, the tallies add up to
/// `c * m`.
pub proof fn lemma_total_equal(f: spec_fn(int) -> int, n: nat, m: nat, c: nat)
    requires
        forall|v: int| 0 <= v < m ==> #[trigger] tally(f, n, v) == c,
    ensures
        total(f, n, m) == c * m,
    decreases m,
{
    if m > 0 {
        lemma_total_equal(f, n, (m - 1) as nat, c);
        assert(c * (m - 1) + c == c * m) by (nonlinear_arith);
    } else {
        assert(c * m == 0) by (nonlinear_arith)
            requires
                m == 0,
        ;
    }
}

/// Where every value lies below `m` and all are taken equally often, each is
/// taken n / m times.
pub proof fn lemma_uniform(f: spec_fn(int) -> int, n: nat, m: nat, v: int)
    requires
        forall|r: int| 0 <= r < n ==> 0 <= #[trigger] f(r) < m,
        forall|x: int, y: int|
            0 <= x < m && 0 <= y < m ==> #[trigger] tally(f, n, x) <= #[trigger] tally(f, n, y),
        0 <= v < m,
    ensures
        tally(f, n, v) * m == n,
{
    let c = tally(f, n, v);
    assert forall|x: int| 0 <= x < m implies #[trigger] tally(f, n, x) == c by {
        assert(tally(f, n, x) <= tally(f, n, v));
        assert(tally(f, n, v) <= tally(f, n, x));
    }
    lemma_total(f, n, m);
    lemma_total_equal(f, n, m, c);
}

/// Functions that agree below `n` have the same tallies.
pub proof fn lemma_tally_same(f: spec_fn(int) -> int, g: spec_fn(int) -> int, n: nat, v: int, w: int)
    requires
        forall|r: int| 0 <= r < n ==> (#[trigger] f(r) == v <==> g(r) == w),
    ensures
        tally(f, n, v) == tally(g, n, w),
    decreases n,
{
    if n > 0 {
        lemma_tally_same(f, g, (n - 1) as nat, v, w);
        assert(f(n - 1) == v <==> g(n - 1) == w);
    }
}

} // verus!
