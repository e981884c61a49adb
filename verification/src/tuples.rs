//! Tuples of level numbers in lexicographic order, and lists without repetition.
use vstd::arithmetic::div_mod::lemma_fundamental_div_mod;
use vstd::prelude::*;

verus! {

/// Number of tuples with the given numbers of values per place.
pub open spec fn tuple_count(dims: Seq<usize>) -> nat
    decreases dims.len(),
{
    if dims.len() == 0 {
        1
    } else {
        tuple_count(dims.drop_last()) * dims.last() as nat
    }
}

/// Tuple number `i`; the last place runs fastest.
pub open spec fn tuple_at(dims: Seq<usize>, i: int) -> Seq<usize>
    decreases dims.len(),
{
    if dims.len() == 0 {
        Seq::empty()
    } else {
        let d = dims.last() as int;
        tuple_at(dims.drop_last(), i / d).push((i % d) as usize)
    }
}

/// All tuples in lexicographic order.
pub open spec fn tuples(dims: Seq<usize>) -> Seq<Seq<usize>> {
    Seq::new(tuple_count(dims), |i: int| tuple_at(dims, i))
}

/// A tuple has one value per place, below the number of values there.
pub proof fn lemma_tuple_at(dims: Seq<usize>, i: int)
    requires
        0 <= i < tuple_count(dims),
    ensures
        tuple_at(dims, i).len() == dims.len(),
        forall|k: int| 0 <= k < dims.len() ==> #[trigger] tuple_at(dims, i)[k] < dims[k],
    decreases dims.len(),
{
    if dims.len() > 0 {
        let d = dims.last() as int;
        let n = tuple_count(dims.drop_last()) as int;
        assert(d > 0) by (nonlinear_arith)
            requires
                0 < n * d,
                d >= 0,
        ;
        lemma_fundamental_div_mod(i, d);
        assert(0 <= i / d < n) by (nonlinear_arith)
            requires
                i == d * (i / d) + i % d,
                0 <= i % d < d,
                0 <= i < n * d,
        ;
        lemma_tuple_at(dims.drop_last(), i / d);
        let t = tuple_at(dims, i);
        assert forall|k: int| 0 <= k < dims.len() implies #[trigger] t[k] < dims[k] by {
            if k < dims.len() - 1 {
                assert(t[k] == tuple_at(dims.drop_last(), i / d)[k]);
                assert(dims.drop_last()[k] == dims[k]);
            }
        }
    }
}

/// The number of a tuple.
pub open spec fn tuple_index(dims: Seq<usize>, t: Seq<usize>) -> int
    decreases dims.len(),
{
    if dims.len() == 0 {
        0
    } else {
        tuple_index(dims.drop_last(), t.drop_last()) * dims.last() + t.last()
    }
}

/// Every tuple within the numbers of values is one of the tuples.
pub proof fn lemma_tuple_index(dims: Seq<usize>, t: Seq<usize>)
    requires
        t.len() == dims.len(),
        forall|k: int| 0 <= k < dims.len() ==> #[trigger] t[k] < dims[k],
    ensures
        0 <= tuple_index(dims, t) < tuple_count(dims),
        tuple_at(dims, tuple_index(dims, t)) == t,
    decreases dims.len(),
{
    if dims.len() == 0 {
        assert(t =~= Seq::empty());
    } else {
        let (front, tail) = (dims.drop_last(), t.drop_last());
        assert forall|k: int| 0 <= k < front.len() implies #[trigger] tail[k] < front[k] by {
            assert(t[k] < dims[k]);
        }
        lemma_tuple_index(front, tail);
        let (a, d, x) = (tuple_index(front, tail), dims.last() as int, t.last() as int);
        assert(t[dims.len() - 1] < dims[dims.len() - 1]);
        let n = tuple_count(front) as int;
        assert(0 <= a * d + x < n * d) by (nonlinear_arith)
            requires
                0 <= a < n,
                0 <= x < d,
        ;
        vstd::arithmetic::div_mod::lemma_fundamental_div_mod_converse(a * d + x, d, a, x);
        assert(tuple_at(dims, a * d + x) =~= t);
    }
}

/// Different numbers give different tuples.
pub proof fn lemma_tuple_injective(dims: Seq<usize>, i: int, j: int)
    requires
        0 <= i < tuple_count(dims),
        0 <= j < tuple_count(dims),
        tuple_at(dims, i) == tuple_at(dims, j),
    ensures
        i == j,
    decreases dims.len(),
{
    if dims.len() > 0 {
        let d = dims.last() as int;
        let n = tuple_count(dims.drop_last()) as int;
        assert(d > 0) by (nonlinear_arith)
            requires
                0 < n * d,
                d >= 0,
        ;
        lemma_fundamental_div_mod(i, d);
        lemma_fundamental_div_mod(j, d);
        assert(0 <= i / d < n && 0 <= j / d < n) by (nonlinear_arith)
            requires
                i == d * (i / d) + i % d,
                j == d * (j / d) + j % d,
                0 <= i % d < d,
                0 <= j % d < d,
                0 <= i < n * d,
                0 <= j < n * d,
        ;
        let (s, t) = (tuple_at(dims, i), tuple_at(dims, j));
        assert(s.drop_last() =~= tuple_at(dims.drop_last(), i / d));
        assert(t.drop_last() =~= tuple_at(dims.drop_last(), j / d));
        assert(s.last() == t.last());
        lemma_tuple_injective(dims.drop_last(), i / d, j / d);
    } else {
        assert(i == 0 && j == 0);
    }
}

/// The number of tuples, where it fits the machine.
pub fn count_tuples(dims: &[usize]) -> (r: Option<usize>)
    ensures
        match r {
            Some(n) => n == tuple_count(dims@) && forall|k: int|
                0 <= k <= dims@.len() ==> tuple_count(#[trigger] dims@.take(k)) <= usize::MAX,
            None => exists|k: int|
                0 <= k <= dims@.len() && tuple_count(#[trigger] dims@.take(k)) > usize::MAX,
        },
{
    let mut n: usize = 1;
    let mut i: usize = 0;
    assert(dims@.take(0) =~= Seq::<usize>::empty());
    while i < dims.len()
        invariant
            i <= dims@.len(),
            n == tuple_count(dims@.take(i as int)),
            forall|k: int|
                0 <= k <= i ==> tuple_count(#[trigger] dims@.take(k)) <= usize::MAX,
        decreases dims@.len() - i,
    {
        assert(dims@.take(i + 1).drop_last() =~= dims@.take(i as int));
        match n.checked_mul(dims[i]) {
            None => {
                assert(tuple_count(dims@.take(i + 1)) > usize::MAX);
                return None;
            },
            Some(m) => {
                n = m;
            },
        }
        i = i + 1;
    }
    assert(dims@.take(i as int) =~= dims@);
    Some(n)
}

/// Tuple number `i`.
pub fn tuple_of(dims: &[usize], i: usize) -> (t: Vec<usize>)
    requires
        0 <= i < tuple_count(dims@),
    ensures
        t@ == tuple_at(dims@, i as int),
{
    let n: usize = dims.len();
    let mut t: Vec<usize> = vec![0; n];
    let mut rest: usize = i;
    let mut k: usize = n;
    assert(dims@.take(n as int) =~= dims@);
    assert(t@.skip(n as int) =~= Seq::<usize>::empty());
    while k > 0
        invariant
            n == dims@.len(),
            k <= n,
            t@.len() == n,
            rest < tuple_count(dims@.take(k as int)),
            tuple_at(dims@.take(k as int), rest as int) + t@.skip(k as int) =~= tuple_at(
                dims@,
                i as int,
            ),
        decreases k,
    {
        k = k - 1;
        let d: usize = dims[k];
        let ghost before = t@;
        proof {
            let dk = dims@.take(k + 1);
            assert(dk.drop_last() =~= dims@.take(k as int));
            assert(dk.last() == d);
            let m = tuple_count(dims@.take(k as int)) as int;
            assert(d > 0) by (nonlinear_arith)
                requires
                    0 < m * d,
                    d >= 0,
            ;
            lemma_fundamental_div_mod(rest as int, d as int);
            assert(rest as int / (d as int) < m) by (nonlinear_arith)
                requires
                    rest as int == d * (rest as int / (d as int)) + rest as int % (d as int),
                    0 <= rest as int % (d as int),
                    rest < m * d,
                    d > 0,
            ;
        }
        t.set(k, rest % d);
        proof {
            let q = rest as int / (d as int);
            assert(tuple_at(dims@.take(k + 1), rest as int) =~= tuple_at(dims@.take(k as int), q).push(
                rest % d,
            ));
            assert(t@.skip(k as int) =~= seq![rest % d] + before.skip(k + 1));
            assert(tuple_at(dims@.take(k as int), q) + t@.skip(k as int) =~= tuple_at(
                dims@.take(k + 1),
                rest as int,
            ) + before.skip(k + 1));
        }
        rest = rest / d;
    }
    assert(dims@.take(0) =~= Seq::<usize>::empty());
    assert(t@.skip(0) =~= t@);
    t
}

/// The views of a list of number lists.
pub open spec fn lists(v: Seq<Vec<usize>>) -> Seq<Seq<usize>> {
    v.map_values(|x: Vec<usize>| x@)
}

/// All tuples in lexicographic order.
pub fn all_tuples(dims: &[usize]) -> (out: Vec<Vec<usize>>)
    requires
        tuple_count(dims@) <= usize::MAX,
        forall|k: int| 0 <= k <= dims@.len() ==> tuple_count(#[trigger] dims@.take(k)) <= usize::MAX,
    ensures
        lists(out@) == tuples(dims@),
{
    let n: usize = match count_tuples(dims) {
        Some(n) => n,
        None => 0,
    };
    let mut out: Vec<Vec<usize>> = Vec::new();
    let mut i: usize = 0;
    while i < n
        invariant
            n == tuple_count(dims@),
            i <= n,
            out@.len() == i,
            forall|k: int| 0 <= k < i ==> (#[trigger] out@[k])@ == tuple_at(dims@, k),
        decreases n - i,
    {
        out.push(tuple_of(dims, i));
        i = i + 1;
    }
    assert(lists(out@) =~= tuples(dims@));
    out
}

/// The different items of a list in the order in which they first appear.
pub open spec fn distinct<T>(s: Seq<T>) -> Seq<T>
    decreases s.len(),
{
    if s.len() == 0 {
        Seq::empty()
    } else {
        let d = distinct(s.drop_last());
        if d.contains(s.last()) {
            d
        } else {
            d.push(s.last())
        }
    }
}

/// The first appearances hold every item once.
pub proof fn lemma_distinct<T>(s: Seq<T>)
    ensures
        distinct(s).no_duplicates(),
        distinct(s).len() <= s.len(),
        forall|x: T| #[trigger] distinct(s).contains(x) <==> s.contains(x),
    decreases s.len(),
{
    if s.len() > 0 {
        let front = s.drop_last();
        lemma_distinct(front);
        let d = distinct(front);
        assert forall|x: T| #[trigger] distinct(s).contains(x) <==> s.contains(x) by {
            if s.contains(x) {
                let i = choose|i: int| 0 <= i < s.len() && s[i] == x;
                if i < front.len() {
                    assert(front[i] == x);
                    assert(d.contains(x));
                }
                if !d.contains(s.last()) {
                    assert(distinct(s) == d.push(s.last()));
                    if x == s.last() {
                        assert(distinct(s)[d.len() as int] == x);
                    } else {
                        let k = choose|k: int| 0 <= k < d.len() && d[k] == x;
                        assert(distinct(s)[k] == x);
                    }
                }
            }
            if distinct(s).contains(x) {
                if d.contains(x) {
                    assert(front.contains(x));
                    let i = choose|i: int| 0 <= i < front.len() && front[i] == x;
                    assert(s[i] == x);
                } else {
                    let k = choose|k: int| 0 <= k < distinct(s).len() && distinct(s)[k] == x;
                    if k < d.len() {
                        assert(d[k] == x);
                    }
                    assert(x == s.last());
                    assert(s[s.len() - 1] == x);
                }
            }
        }
    }
}

} // verus!
