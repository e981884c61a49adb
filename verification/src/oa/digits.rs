//! Positional digits of a number: the index of a tuple and the tuple.
use vstd::arithmetic::div_mod::{lemma_fundamental_div_mod, lemma_fundamental_div_mod_converse};
use vstd::arithmetic::power::pow;
use vstd::prelude::*;

verus! {

/// The `k` low digits of `n` in base `p`, lowest first.
pub open spec fn digits(n: int, p: int, k: nat) -> Seq<int>
    decreases k,
{
    if k == 0 {
        Seq::empty()
    } else {
        seq![n % p] + digits(n / p, p, (k - 1) as nat)
    }
}

/// The number whose digits in base `p`, lowest first, are `c`.
pub open spec fn number(c: Seq<int>, p: int) -> int
    decreases c.len(),
{
    if c.len() == 0 {
        0
    } else {
        c[0] + p * number(c.drop_first(), p)
    }
}

/// Every item of `c` is a digit in base `p`.
pub open spec fn all_digits(c: Seq<int>, p: int) -> bool {
    forall|i: int| 0 <= i < c.len() ==> 0 <= #[trigger] c[i] < p
}

pub proof fn lemma_digits(n: int, p: int, k: nat)
    requires
        p > 0,
        0 <= n,
    ensures
        digits(n, p, k).len() == k,
        all_digits(digits(n, p, k), p),
        n < pow(p, k) ==> number(digits(n, p, k), p) == n,
    decreases k,
{
    reveal(pow);
    if k > 0 {
        let rest = digits(n / p, p, (k - 1) as nat);
        lemma_fundamental_div_mod(n, p);
        assert(n / p >= 0) by (nonlinear_arith)
            requires
                n >= 0,
                p > 0,
        ;
        lemma_digits(n / p, p, (k - 1) as nat);
        let c = digits(n, p, k);
        assert(c.drop_first() =~= rest);
        assert forall|i: int| 0 <= i < c.len() implies 0 <= #[trigger] c[i] < p by {
            if i > 0 {
                assert(c[i] == rest[i - 1]);
            }
        }
        if n < pow(p, k) {
            assert(n / p < pow(p, (k - 1) as nat)) by (nonlinear_arith)
                requires
                    n == p * (n / p) + n % p,
                    0 <= n % p,
                    p > 0,
                    n < p * pow(p, (k - 1) as nat),
            ;
        }
    }
}

pub proof fn lemma_number(c: Seq<int>, p: int)
    requires
        p > 0,
        all_digits(c, p),
    ensures
        0 <= number(c, p) < pow(p, c.len()),
        digits(number(c, p), p, c.len()) == c,
    decreases c.len(),
{
    reveal(pow);
    if c.len() == 0 {
        assert(digits(number(c, p), p, c.len()) =~= c);
    } else {
        let rest = c.drop_first();
        assert(all_digits(rest, p)) by {
            assert forall|i: int| 0 <= i < rest.len() implies 0 <= #[trigger] rest[i] < p by {
                assert(rest[i] == c[i + 1]);
            }
        }
        lemma_number(rest, p);
        let v = number(rest, p);
        let n = number(c, p);
        lemma_fundamental_div_mod_converse(n, p, v, c[0]);
        assert(0 <= n < p * pow(p, rest.len())) by (nonlinear_arith)
            requires
                n == c[0] + p * v,
                0 <= c[0] < p,
                0 <= v < pow(p, rest.len()),
                p > 0,
        ;
        assert(digits(n, p, c.len()) =~= c);
    }
}

/// Two numbers below `p^k` with the same digits are the same number.
pub proof fn lemma_digits_injective(m: int, n: int, p: int, k: nat)
    requires
        p > 0,
        0 <= m < pow(p, k),
        0 <= n < pow(p, k),
        digits(m, p, k) == digits(n, p, k),
    ensures
        m == n,
{
    lemma_digits(m, p, k);
    lemma_digits(n, p, k);
}

/// The digits of `n` in base `p` as a vector.
pub fn digits_of(n: usize, p: usize, k: usize) -> (out: Vec<usize>)
    requires
        p > 0,
    ensures
        out@.len() == k,
        out@.map_values(|d: usize| d as int) == digits(n as int, p as int, k as nat),
        forall|i: int| 0 <= i < out@.len() ==> #[trigger] out@[i] < p,
{
    let mut out: Vec<usize> = Vec::new();
    let mut rest: usize = n;
    let mut i: usize = 0;
    while i < k
        invariant
            p > 0,
            i <= k,
            out@.len() == i,
            forall|j: int| 0 <= j < i ==> #[trigger] out@[j] < p,
            out@.map_values(|d: usize| d as int) + digits(rest as int, p as int, (k - i) as nat)
                =~= digits(n as int, p as int, k as nat),
        decreases k - i,
    {
        let ghost before = out@;
        let d: usize = rest % p;
        out.push(d);
        proof {
            let f = |d: usize| d as int;
            assert(out@.map_values(f) =~= before.map_values(f) + seq![rest as int % p as int]);
            let tail = digits(rest as int / p as int, p as int, (k - i - 1) as nat);
            assert(before.map_values(f) + (seq![rest as int % p as int] + tail) =~= out@.map_values(f) + tail);
        }
        rest = rest / p;
        i = i + 1;
    }
    assert(out@.map_values(|d: usize| d as int) + digits(rest as int, p as int, 0)
        =~= out@.map_values(|d: usize| d as int));
    out
}

/// The number with the given digits.
pub fn number_of(c: &Vec<usize>, p: usize) -> (n: usize)
    requires
        p > 0,
        forall|i: int| 0 <= i < c@.len() ==> #[trigger] c@[i] < p,
        pow(p as int, c@.len()) <= usize::MAX,
    ensures
        n == number(c@.map_values(|d: usize| d as int), p as int),
{
    let ghost all = c@.map_values(|d: usize| d as int);
    let mut n: usize = 0;
    let mut i: usize = c.len();
    while i > 0
        invariant
            p > 0,
            i <= c@.len(),
            all == c@.map_values(|d: usize| d as int),
            all_digits(all, p as int),
            n == number(all.subrange(i as int, all.len() as int), p as int),
            pow(p as int, c@.len()) <= usize::MAX,
        decreases i,
    {
        i = i - 1;
        proof {
            let tail = all.subrange(i as int, all.len() as int);
            assert(tail.drop_first() =~= all.subrange(i + 1, all.len() as int));
            assert(tail[0] == c@[i as int]);
            lemma_number(tail, p as int);
            vstd::arithmetic::power::lemma_pow_increases(p as nat, tail.len(), c@.len());
            assert(n * p == p * n) by (nonlinear_arith);
        }
        n = n * p + c[i];
    }
    assert(all.subrange(0, all.len() as int) =~= all);
    n
}

} // verus!
