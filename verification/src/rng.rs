//! Reproducible splitmix64 and Fisher–Yates randomization.
use vstd::arithmetic::div_mod::{lemma_fundamental_div_mod, lemma_fundamental_div_mod_converse};
use vstd::prelude::*;

verus! {

/// The increment of the generator's state.
pub const GAMMA: u64 = 0x9e3779b97f4a7c15;

/// The first multiplier of the output function.
pub const MIX_A: u64 = 0xbf58476d1ce4e5b9;

/// The second multiplier of the output function.
pub const MIX_B: u64 = 0x94d049bb133111eb;

/// Multiplicative inverse of `GAMMA` modulo 2^64.
pub const GAMMA_INVERSE: u64 = 0xf1de83e19937733d;

/// The state whose output is `u64::MAX`.
pub const TOP_STATE: u64 = 0xcf9a04affa6badc0;

/// The state that follows `s`.
pub open spec fn step(s: u64) -> u64 {
    s.wrapping_add(GAMMA)
}

/// The splitmix64 output function on a state.
pub open spec fn mix(s: u64) -> u64 {
    let a = (s ^ (s >> 30)).wrapping_mul(MIX_A);
    let b = (a ^ (a >> 27)).wrapping_mul(MIX_B);
    b ^ (b >> 31)
}

/// Number of outputs that must be rejected for a uniform draw below `n`:
/// 2^64 mod n.
pub open spec fn threshold(n: u64) -> u64 {
    ((0x1_0000_0000_0000_0000 - n) % (n as int)) as u64
}

/// Steps from `s` to the state whose output is the largest number.
pub open spec fn distance(s: u64) -> nat {
    (((TOP_STATE - s) * GAMMA_INVERSE) % 0x1_0000_0000_0000_0000) as nat
}

/// The first state, from `s` on, whose output reaches `t`.
pub open spec fn accepted(s: u64, t: u64) -> u64
    decreases distance(s),
{
    if mix(s) >= t {
        s
    } else {
        proof {
            lemma_mix_top();
            lemma_distance_step(s);
        }
        accepted(step(s), t)
    }
}

/// The state after a draw below `n` from a generator in state `s`.
pub open spec fn drawn_state(s: u64, n: u64) -> u64 {
    accepted(step(s), threshold(n))
}

/// The number drawn below `n` from a generator in state `s`.
pub open spec fn drawn(s: u64, n: u64) -> u64 {
    mix(drawn_state(s, n)) % n
}

/// `v` with the items at `i` and `j` exchanged.
pub open spec fn exchanged<T>(v: Seq<T>, i: int, j: int) -> Seq<T> {
    v.update(i, v[j]).update(j, v[i])
}

/// The Fisher–Yates walk from position `i` down to position 1: the items and
/// the generator's state at its end.
pub open spec fn shuffled<T>(s: u64, v: Seq<T>, i: nat) -> (Seq<T>, u64)
    decreases i,
{
    if i == 0 {
        (v, s)
    } else {
        let n = (i + 1) as u64;
        shuffled(drawn_state(s, n), exchanged(v, i as int, drawn(s, n) as int), (i - 1) as nat)
    }
}

/// The output at that state.
pub proof fn lemma_mix_top()
    ensures
        mix(TOP_STATE) == u64::MAX,
{
    assert(0xcf9a04affa6badc0u64 ^ (0xcf9a04affa6badc0u64 >> 30) == 0xcf9a04acc403bf7fu64)
        by (bit_vector);
    assert(0xcf9a04acc403bf7fu64.wrapping_mul(MIX_A) == 0xf027aa8c721dfdc7u64);
    assert(0xf027aa8c721dfdc7u64 ^ (0xf027aa8c721dfdc7u64 >> 27) == 0xf027aa9276e8ac49u64)
        by (bit_vector);
    assert(0xf027aa9276e8ac49u64.wrapping_mul(MIX_B) == 0xfffffffe00000003u64);
    assert(0xfffffffe00000003u64 ^ (0xfffffffe00000003u64 >> 31) == 0xffffffffffffffffu64)
        by (bit_vector);
}

/// The walk of the state passes through every value: one step brings it one
/// step nearer to the state with the largest output.
pub proof fn lemma_distance_step(s: u64)
    requires
        s != TOP_STATE,
    ensures
        distance(step(s)) < distance(s),
{
    let m = 0x1_0000_0000_0000_0000int;
    let g = GAMMA as int;
    let gi = GAMMA_INVERSE as int;
    let c = 10771413168148108919int;
    let d = TOP_STATE - s;
    assert(g * gi == 1 + m * c);
    let x = d * gi;
    let y = x / m;
    lemma_fundamental_div_mod(x, m);
    if x % m == 0 {
        assert(d == m * (y * g - d * c)) by (nonlinear_arith)
            requires
                d * gi == m * y,
                g * gi == 1 + m * c,
        ;
        let k = y * g - d * c;
        assert(k == 0) by (nonlinear_arith)
            requires
                d == m * k,
                -m < d < m,
                m > 0,
        ;
        assert(d == 0);
    }
    let d2 = TOP_STATE - step(s);
    let w = if s + g > u64::MAX { 1int } else { 0int };
    assert(d2 == d - g + w * m);
    assert(d2 * gi == m * (y - c + w * gi) + (x % m - 1)) by (nonlinear_arith)
        requires
            d2 == d - g + w * m,
            d * gi == m * y + x % m,
            g * gi == 1 + m * c,
    ;
    lemma_fundamental_div_mod_converse(d2 * gi, m, y - c + w * gi, x % m - 1);
}

proof fn lemma_accepted(s: u64, t: u64)
    ensures
        mix(accepted(s, t)) >= t,
    decreases distance(s),
{
    if mix(s) < t {
        lemma_mix_top();
        lemma_distance_step(s);
        lemma_accepted(step(s), t);
    }
}

/// The state `k` steps behind `s`.
pub open spec fn stepped(s: u64, k: nat) -> u64
    decreases k,
{
    if k == 0 {
        s
    } else {
        step(stepped(s, (k - 1) as nat))
    }
}

/// `k` steps behind `s` stands the first state, from the next one on, whose output
/// reaches `t`.
pub open spec fn first_reach(s: u64, t: u64, k: nat) -> bool {
    &&& k > 0
    &&& mix(stepped(s, k)) >= t
    &&& forall|j: nat| 0 < j < k ==> mix(#[trigger] stepped(s, j)) < t
}

proof fn lemma_stepped_on(s: u64, k: nat)
    ensures
        stepped(step(s), k) == stepped(s, k + 1),
    decreases k,
{
    if k > 0 {
        lemma_stepped_on(s, (k - 1) as nat);
    } else {
        assert(stepped(s, 0) == s);
        assert(stepped(s, 1) == step(stepped(s, 0)));
    }
}

proof fn lemma_first_reach(s: u64, t: u64) -> (k: nat)
    ensures
        first_reach(s, t, k),
        accepted(step(s), t) == stepped(s, k),
    decreases distance(step(s)),
{
    lemma_stepped_on(s, 0);
    let next = step(s);
    if mix(next) >= t {
        1
    } else {
        lemma_mix_top();
        lemma_distance_step(next);
        let m = lemma_first_reach(next, t);
        lemma_stepped_on(s, m);
        assert forall|j: nat| 0 < j < m + 1 implies mix(#[trigger] stepped(s, j)) < t by {
            if j > 1 {
                lemma_stepped_on(s, (j - 1) as nat);
                assert(mix(stepped(next, (j - 1) as nat)) < t);
            }
        }
        m + 1
    }
}

/// A draw reduces the first output that reaches 2^64 mod n: every earlier one is
/// below it.
pub proof fn draw_takes_the_first_output(s: u64, n: u64)
    ensures
        exists|k: nat| #[trigger]
            first_reach(s, threshold(n), k) && drawn_state(s, n) == stepped(s, k) && drawn(s, n)
                == mix(stepped(s, k)) % n,
{
    let k = lemma_first_reach(s, threshold(n));
    assert(first_reach(s, threshold(n), k));
}

/// A draw never reduces an output that would favour some numbers: outputs below
/// 2^64 mod n are passed over.
pub proof fn draw_passes_over_surplus(s: u64, n: u64)
    ensures
        mix(drawn_state(s, n)) >= threshold(n),
{
    lemma_accepted(step(s), threshold(n));
}

/// A shuffle keeps exactly the items it was given.
pub proof fn shuffle_is_permutation<T>(s: u64, v: Seq<T>, i: nat)
    requires
        i < v.len() || i == 0,
        v.len() <= u64::MAX,
    ensures
        shuffled(s, v, i).0.to_multiset() == v.to_multiset(),
        shuffled(s, v, i).0.len() == v.len(),
    decreases i,
{
    if i > 0 {
        let n = (i + 1) as u64;
        let j = drawn(s, n) as int;
        let w = exchanged(v, i as int, j);
        broadcast use vstd::seq_lib::group_to_multiset_ensures;
        vstd::seq_lib::to_multiset_update(v, i as int, v[j]);
        vstd::seq_lib::to_multiset_update(v.update(i as int, v[j]), j, v[i as int]);
        assert(w.to_multiset() =~= v.to_multiset());
        shuffle_is_permutation(drawn_state(s, n), w, (i - 1) as nat);
    }
}

/// A shuffle leaves the items beyond the starting position where they are.
pub proof fn shuffle_keeps_tail<T>(s: u64, v: Seq<T>, i: nat, k: int)
    requires
        i < k < v.len(),
        v.len() <= u64::MAX,
    ensures
        shuffled(s, v, i).0[k] == v[k],
    decreases i,
{
    if i > 0 {
        let n = (i + 1) as u64;
        shuffle_keeps_tail(drawn_state(s, n), exchanged(v, i as int, drawn(s, n) as int), (i - 1) as nat, k);
    }
}

/// `slice::swap` of the standard library: exchanges the items at two positions
/// and leaves the others as they are.
#[verifier::external_body]
pub(crate) fn swap_items<T>(v: &mut [T], a: usize, b: usize)
    requires
        a < old(v)@.len(),
        b < old(v)@.len(),
    ensures
        final(v)@ == exchanged(old(v)@, a as int, b as int),
{
    v.swap(a, b);
}

/// A splitmix64 generator.
pub struct Rng {
    state: u64,
}

impl View for Rng {
    type V = u64;

    closed spec fn view(&self) -> u64 {
        self.state
    }
}

impl Rng {
    /// A generator whose state is the seed.
    pub fn new(seed: u64) -> (r: Self)
        ensures
            r@ == seed,
    {
        Self { state: seed }
    }

    /// Advances the state and returns its output.
    pub fn next_u64(&mut self) -> (r: u64)
        ensures
            final(self)@ == step(old(self)@),
            r == mix(final(self)@),
    {
        self.state = self.state.wrapping_add(GAMMA);
        let mut z: u64 = self.state;
        z = (z ^ (z >> 30)).wrapping_mul(MIX_A);
        z = (z ^ (z >> 27)).wrapping_mul(MIX_B);
        z ^ (z >> 31)
    }

    /// A uniform draw from `0..n`: outputs below 2^64 mod n are rejected, the
    /// first other one is reduced.
    pub fn below(&mut self, n: u64) -> (r: u64)
        requires
            n > 0,
        ensures
            r < n,
            r == drawn(old(self)@, n),
            final(self)@ == drawn_state(old(self)@, n),
    {
        let t: u64 = 0u64.wrapping_sub(n) % n;
        assert(t == threshold(n)) by {
            assert(0u64.wrapping_sub(n) == 0x1_0000_0000_0000_0000 - n);
        }
        let mut r: u64 = self.next_u64();
        while r < t
            invariant
                r == mix(self@),
                t == threshold(n),
                n > 0,
                accepted(self@, t) == drawn_state(old(self)@, n),
            decreases distance(self@),
        {
            proof {
                lemma_mix_top();
                lemma_distance_step(self@);
            }
            r = self.next_u64();
        }
        r % n
    }

    /// Fisher–Yates shuffle driven by this generator.
    pub fn shuffle<T>(&mut self, v: &mut [T])
        ensures
            (final(v)@, final(self)@) == shuffled(
                old(self)@,
                old(v)@,
                if old(v)@.len() == 0 { 0 } else { (old(v)@.len() - 1) as nat },
            ),
            final(v)@.to_multiset() == old(v)@.to_multiset(),
    {
        let n: usize = v.len();
        let mut i: usize = if n == 0 { 0 } else { n - 1 };
        proof {
            shuffle_is_permutation(self@, v@, i as nat);
        }
        while i > 0
            invariant
                v@.len() == n,
                i < n || i == 0,
                shuffled(self@, v@, i as nat) == shuffled(
                    old(self)@,
                    old(v)@,
                    if old(v)@.len() == 0 { 0 } else { (old(v)@.len() - 1) as nat },
                ),
            decreases i,
        {
            let j: u64 = self.below(i as u64 + 1);
            swap_items(v, i, j as usize);
            i = i - 1;
        }
    }
}

} // verus!
