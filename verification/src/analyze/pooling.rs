//! Pooling of terms into error, and the verdict on each term.
use vstd::prelude::*;

use crate::error::Error;
use crate::float::{comes_before, float_less, is_less, magnitude, total_rank, SIGN};
use crate::model::formula::name_index;
use crate::text::{equal, views};

verus! {

// ===== Pooling by name =====

/// The marks after the first `n` labels were pooled, or the message for the
/// first that is no term.
pub open spec fn named_pool(
    terms: Seq<Seq<char>>,
    pool: Seq<Seq<char>>,
    result: Seq<char>,
    n: nat,
) -> Result<Seq<bool>, Seq<char>>
    decreases n,
{
    if n == 0 {
        Ok(Seq::new(terms.len(), |i: int| false))
    } else {
        match named_pool(terms, pool, result, (n - 1) as nat) {
            Err(m) => Err(m),
            Ok(marks) => match name_index(terms, pool[n - 1], 0) {
                Some(i) => Ok(marks.update(i as int, true)),
                None => Err(
                    "pool term '"@ + pool[n - 1] + "' not in model for '"@ + result + "'"@,
                ),
            },
        }
    }
}

proof fn lemma_pool_error(
    terms: Seq<Seq<char>>,
    pool: Seq<Seq<char>>,
    result: Seq<char>,
    n: nat,
    m: nat,
)
    requires
        n <= m,
        named_pool(terms, pool, result, n) is Err,
    ensures
        named_pool(terms, pool, result, m) == named_pool(terms, pool, result, n),
    decreases m - n,
{
    if n < m {
        lemma_pool_error(terms, pool, result, n, (m - 1) as nat);
    }
}

fn find_term(terms: &Vec<String>, label: &str) -> (r: Option<usize>)
    ensures
        match r {
            Some(i) => name_index(views(terms@), label@, 0) == Some(i as nat) && i < terms@.len(),
            None => name_index(views(terms@), label@, 0) is None,
        },
{
    let ghost tv = views(terms@);
    let mut i: usize = 0;
    while i < terms.len()
        invariant
            i <= terms@.len(),
            tv == views(terms@),
            name_index(tv, label@, 0) == name_index(tv, label@, i as nat),
        decreases terms@.len() - i,
    {
        assert(tv[i as int] == terms@[i as int]@);
        if equal(terms[i].as_str(), label) {
            return Some(i);
        }
        i = i + 1;
    }
    None
}

/// Marks the terms that are named for pooling.
pub fn pool_named(terms: &Vec<String>, pool: &Vec<String>, result: &str) -> (r: Result<
    Vec<bool>,
    Error,
>)
    ensures
        match r {
            Ok(marks) => named_pool(views(terms@), views(pool@), result@, pool@.len()) == Ok::<
                Seq<bool>,
                Seq<char>,
            >(marks@) && marks@.len() == terms@.len(),
            Err(e) => named_pool(views(terms@), views(pool@), result@, pool@.len()) == Err::<
                Seq<bool>,
                Seq<char>,
            >(e@),
        },
{
    let ghost (tv, pv) = (views(terms@), views(pool@));
    let mut marks: Vec<bool> = vec![false; terms.len()];
    assert(marks@ =~= Seq::new(tv.len(), |i: int| false));
    let mut n: usize = 0;
    while n < pool.len()
        invariant
            n <= pool@.len(),
            tv == views(terms@),
            pv == views(pool@),
            marks@.len() == terms@.len(),
            named_pool(tv, pv, result@, n as nat) == Ok::<Seq<bool>, Seq<char>>(marks@),
        decreases pool@.len() - n,
    {
        assert(pv[n as int] == pool@[n as int]@);
        match find_term(terms, pool[n].as_str()) {
            Some(i) => {
                marks.set(i, true);
            },
            None => {
                proof {
                    lemma_pool_error(tv, pv, result@, (n + 1) as nat, pv.len());
                }
                return Err(
                    Error::of5(
                        "pool term '",
                        pool[n].as_str(),
                        "' not in model for '",
                        result,
                        "'",
                    ),
                );
            },
        }
        n = n + 1;
    }
    Ok(marks)
}

// ===== Pooling by size =====

/// The terms, among the first `n`, of a stratum.
pub open spec fn terms_in(strata: Seq<usize>, s: usize, n: nat) -> Seq<usize>
    decreases n,
{
    if n == 0 {
        Seq::empty()
    } else {
        let before = terms_in(strata, s, (n - 1) as nat);
        if strata[n - 1] == s {
            before.push((n - 1) as usize)
        } else {
            before
        }
    }
}

/// How many terms of a sorted list have no larger sum of squares.
pub open spec fn place_by_size(list: Seq<usize>, ss: Seq<u64>, x: u64, i: nat) -> nat
    decreases list.len() - i,
{
    if i < list.len() && total_rank(ss[list[i as int] as int]) <= total_rank(x) {
        place_by_size(list, ss, x, i + 1)
    } else {
        i
    }
}

/// The first `n` terms of a list by ascending sum of squares; equal ones stay in
/// order.
pub open spec fn by_size(list: Seq<usize>, ss: Seq<u64>, n: nat) -> Seq<usize>
    decreases n,
{
    if n == 0 {
        Seq::empty()
    } else {
        let before = by_size(list, ss, (n - 1) as nat);
        let t = list[n - 1];
        before.insert(place_by_size(before, ss, ss[t as int], 0) as int, t)
    }
}

proof fn lemma_place_by_size(list: Seq<usize>, ss: Seq<u64>, x: u64, i: nat)
    requires
        i <= list.len(),
    ensures
        i <= place_by_size(list, ss, x, i) <= list.len(),
        forall|k: int|
            i <= k < place_by_size(list, ss, x, i) ==> total_rank(ss[#[trigger] list[k] as int])
                <= total_rank(x),
        place_by_size(list, ss, x, i) < list.len() ==> total_rank(
            ss[list[place_by_size(list, ss, x, i) as int] as int],
        ) > total_rank(x),
    decreases list.len() - i,
{
    if i < list.len() && total_rank(ss[list[i as int] as int]) <= total_rank(x) {
        lemma_place_by_size(list, ss, x, i + 1);
    }
}

/// Sorting by size keeps the terms, and puts none before a smaller one.
pub proof fn sorted_by_size(list: Seq<usize>, ss: Seq<u64>, n: nat)
    requires
        n <= list.len(),
    ensures
        by_size(list, ss, n).len() == n,
        by_size(list, ss, n).to_multiset() == list.take(n as int).to_multiset(),
        forall|a: int, b: int|
            0 <= a < b < n ==> total_rank(ss[#[trigger] by_size(list, ss, n)[a] as int])
                <= total_rank(ss[#[trigger] by_size(list, ss, n)[b] as int]),
    decreases n,
{
    broadcast use vstd::seq_lib::group_to_multiset_ensures;

    if n == 0 {
        assert(by_size(list, ss, 0) =~= list.take(0));
    } else {
        sorted_by_size(list, ss, (n - 1) as nat);
        let before = by_size(list, ss, (n - 1) as nat);
        let t = list[n - 1];
        let x = ss[t as int];
        let p = place_by_size(before, ss, x, 0) as int;
        lemma_place_by_size(before, ss, x, 0);
        let now = before.insert(p, t);
        vstd::seq_lib::to_multiset_insert(before, p, t);
        assert(list.take(n as int) =~= list.take(n - 1).push(t));
        assert forall|a: int, b: int| 0 <= a < b < n implies total_rank(
            ss[#[trigger] now[a] as int],
        ) <= total_rank(ss[#[trigger] now[b] as int]) by {
            let i = if a < p {
                a
            } else {
                a - 1
            };
            let j = if b < p {
                b
            } else {
                b - 1
            };
            if a == p {
                assert(now[b] == before[j]);
                assert(total_rank(ss[before[p] as int]) > total_rank(x));
            } else if b == p {
                assert(now[a] == before[i]);
            } else {
                assert(now[a] == before[i] && now[b] == before[j]);
            }
        }
    }
}

/// Half of a number, rounded up.
pub open spec fn half(n: nat) -> nat {
    (n + 1) / 2
}

/// The half of the terms of a stratum with the smallest sums of squares.
pub open spec fn smallest_half(strata: Seq<usize>, ss: Seq<u64>, s: usize) -> Seq<usize> {
    let list = terms_in(strata, s, strata.len());
    by_size(list, ss, list.len()).take(half(list.len()) as int)
}

/// Whether a term is pooled automatically: its stratum has no degrees of
/// freedom, and the term is in its smaller half.
pub open spec fn pooled_by_size(
    strata: Seq<usize>,
    ss: Seq<u64>,
    error_df: Seq<usize>,
    t: int,
) -> bool {
    exists|s: int|
        0 <= s < error_df.len() && #[trigger] error_df[s] == 0 && smallest_half(
            strata,
            ss,
            s as usize,
        ).contains(t as usize)
}

fn collect_terms(strata: &Vec<usize>, s: usize) -> (out: Vec<usize>)
    ensures
        out@ == terms_in(strata@, s, strata@.len()),
        super::groups::numbers_below(out@, strata@.len()),
{
    let mut out: Vec<usize> = Vec::new();
    let mut t: usize = 0;
    while t < strata.len()
        invariant
            t <= strata@.len(),
            out@ == terms_in(strata@, s, t as nat),
            super::groups::numbers_below(out@, strata@.len()),
        decreases strata@.len() - t,
    {
        if strata[t] == s {
            out.push(t);
        }
        t = t + 1;
    }
    out
}

fn sort_by_size(list: &Vec<usize>, ss: &Vec<u64>) -> (out: Vec<usize>)
    requires
        super::groups::numbers_below(list@, ss@.len()),
    ensures
        out@ == by_size(list@, ss@, list@.len()),
        super::groups::numbers_below(out@, ss@.len()),
{
    let mut out: Vec<usize> = Vec::new();
    assert(out@ =~= Seq::empty());
    let mut n: usize = 0;
    while n < list.len()
        invariant
            n <= list@.len(),
            super::groups::numbers_below(list@, ss@.len()),
            super::groups::numbers_below(out@, ss@.len()),
            out@ == by_size(list@, ss@, n as nat),
        decreases list@.len() - n,
    {
        let t: usize = list[n];
        let x: u64 = ss[t];
        let mut p: usize = 0;
        while p < out.len() && !comes_before(x, ss[out[p]])
            invariant
                p <= out@.len(),
                super::groups::numbers_below(out@, ss@.len()),
                place_by_size(out@, ss@, x, 0) == place_by_size(out@, ss@, x, p as nat),
            decreases out@.len() - p,
        {
            p = p + 1;
        }
        proof {
            if p < out@.len() {
                assert(total_rank(x) < total_rank(ss@[out@[p as int] as int]));
            }
            assert(place_by_size(out@, ss@, x, 0) == p);
        }
        let ghost before = out@;
        out.insert(p, t);
        assert forall|k: int| 0 <= k < out@.len() implies #[trigger] out@[k] < ss@.len() by {
            if k < p {
                assert(out@[k] == before[k]);
            } else if k > p {
                assert(out@[k] == before[k - 1]);
            }
        }
        n = n + 1;
    }
    out
}

/// The marks where strata without degrees of freedom give up the half of their
/// terms with the smallest sums of squares. A marked term stays marked.
pub fn pool_smallest(
    marks: Vec<bool>,
    strata: &Vec<usize>,
    ss: &Vec<u64>,
    error_df: &Vec<usize>,
) -> (out: Vec<bool>)
    requires
        marks@.len() == strata@.len(),
        ss@.len() == strata@.len(),
    ensures
        out@ == Seq::new(
            strata@.len(),
            |t: int| marks@[t] || pooled_by_size(strata@, ss@, error_df@, t),
        ),
{
    let ghost initial = marks@;
    let total: usize = strata.len();
    let mut out: Vec<bool> = marks;
    let mut s: usize = 0;
    assert(forall|t: int|
        0 <= t < strata@.len() ==> !pooled_by_size(strata@, ss@, error_df@.take(0), t));
    while s < error_df.len()
        invariant
            s <= error_df@.len(),
            ss@.len() == strata@.len(),
            initial.len() == strata@.len(),
            total == strata@.len(),
            out@.len() == strata@.len(),
            forall|t: int|
                0 <= t < strata@.len() ==> #[trigger] out@[t] == (initial[t] || pooled_by_size(
                    strata@,
                    ss@,
                    error_df@.take(s as int),
                    t,
                )),
        decreases error_df@.len() - s,
    {
        let ghost before = out@;
        let ghost done = error_df@.take(s as int);
        let ghost more = error_df@.take(s + 1);
        proof {
            assert forall|t: int| 0 <= t < strata@.len() implies pooled_by_size(
                strata@,
                ss@,
                more,
                t,
            ) == (pooled_by_size(strata@, ss@, done, t) || (error_df@[s as int] == 0
                && smallest_half(strata@, ss@, s).contains(t as usize))) by {
                if pooled_by_size(strata@, ss@, more, t) {
                    let k = choose|k: int|
                        0 <= k < more.len() && #[trigger] more[k] == 0 && smallest_half(
                            strata@,
                            ss@,
                            k as usize,
                        ).contains(t as usize);
                    if k < s {
                        assert(done[k] == 0);
                    }
                }
                if pooled_by_size(strata@, ss@, done, t) {
                    let k = choose|k: int|
                        0 <= k < done.len() && #[trigger] done[k] == 0 && smallest_half(
                            strata@,
                            ss@,
                            k as usize,
                        ).contains(t as usize);
                    assert(more[k] == 0);
                }
                if error_df@[s as int] == 0 {
                    assert(more[s as int] == 0);
                }
            }
        }
        if error_df[s] == 0 {
            let list: Vec<usize> = collect_terms(strata, s);
            let sorted: Vec<usize> = sort_by_size(&list, ss);
            proof {
                sorted_by_size(list@, ss@, list@.len());
            }
            let n: usize = list.len() / 2 + list.len() % 2;
            let ghost chosen = smallest_half(strata@, ss@, s);
            assert(chosen =~= sorted@.take(n as int));
            let mut k: usize = 0;
            while k < n
                invariant
                    k <= n <= sorted@.len(),
                    super::groups::numbers_below(sorted@, strata@.len()),
                    chosen == sorted@.take(n as int),
                    out@.len() == strata@.len(),
                    before.len() == strata@.len(),
                    total == strata@.len(),
                    forall|t: int|
                        0 <= t < strata@.len() ==> #[trigger] out@[t] == (before[t]
                            || chosen.take(k as int).contains(t as usize)),
                decreases n - k,
            {
                let t: usize = sorted[k];
                assert(chosen[k as int] == t);
                out.set(t, true);
                proof {
                    let prior = chosen.take(k as int);
                    let now = chosen.take(k + 1);
                    assert(now =~= prior.push(t));
                    assert forall|u: usize| #[trigger]
                        now.contains(u) == (prior.contains(u) || u == t) by {
                        if now.contains(u) {
                            let j = choose|j: int| 0 <= j < now.len() && now[j] == u;
                            if j < k {
                                assert(prior[j] == u);
                            }
                        }
                        if prior.contains(u) {
                            let j = choose|j: int| 0 <= j < prior.len() && prior[j] == u;
                            assert(now[j] == u);
                        }
                        if u == t {
                            assert(now[k as int] == u);
                        }
                    }
                }
                k = k + 1;
            }
            assert(chosen.take(n as int) =~= chosen);
        }
        s = s + 1;
    }
    assert(error_df@.take(s as int) =~= error_df@);
    assert(out@ =~= Seq::new(
        strata@.len(),
        |t: int| initial[t] || pooled_by_size(strata@, ss@, error_df@, t),
    ));
    out
}

// ===== Strata =====

/// The degrees of freedom that the pooled ones of the first `n` terms bring to a
/// stratum.
pub open spec fn pooled_df(
    marks: Seq<bool>,
    strata: Seq<usize>,
    df: Seq<usize>,
    s: usize,
    n: nat,
) -> nat
    decreases n,
{
    if n == 0 {
        0
    } else {
        pooled_df(marks, strata, df, s, (n - 1) as nat) + if marks[n - 1] && strata[n - 1] == s {
            df[n - 1] as nat
        } else {
            0
        }
    }
}

/// The degrees of freedom of a stratum with those of its pooled terms; the
/// largest number where they do not fit.
pub fn error_df_with_pooled(
    own: usize,
    marks: &Vec<bool>,
    strata: &Vec<usize>,
    df: &Vec<usize>,
    s: usize,
) -> (r: usize)
    requires
        marks@.len() == strata@.len(),
        df@.len() == strata@.len(),
    ensures
        own + pooled_df(marks@, strata@, df@, s, strata@.len()) <= usize::MAX ==> r == own
            + pooled_df(marks@, strata@, df@, s, strata@.len()),
        own + pooled_df(marks@, strata@, df@, s, strata@.len()) > usize::MAX ==> r == usize::MAX,
{
    let mut total: usize = own;
    let mut full: bool = false;
    let mut t: usize = 0;
    while t < strata.len()
        invariant
            t <= strata@.len(),
            marks@.len() == strata@.len(),
            df@.len() == strata@.len(),
            full ==> total == usize::MAX && own + pooled_df(marks@, strata@, df@, s, t as nat)
                > usize::MAX,
            !full ==> total == own + pooled_df(marks@, strata@, df@, s, t as nat),
        decreases strata@.len() - t,
    {
        if marks[t] && strata[t] == s && !full {
            if df[t] > usize::MAX - total {
                full = true;
                total = usize::MAX;
            } else {
                total = total + df[t];
            }
        }
        t = t + 1;
    }
    total
}

/// The warning for a stratum without degrees of freedom.
pub open spec fn shortage(name: Seq<char>) -> Seq<char> {
    "insufficient evidence under this model: residual df = 0 in "@ + name
        + "; add replicates, or pass --pool <terms> / --pool-auto."@
}

/// The warnings for the strata, among the first `n`, without degrees of freedom.
pub open spec fn shortages(names: Seq<Seq<char>>, df: Seq<usize>, n: nat) -> Seq<Seq<char>>
    decreases n,
{
    if n == 0 {
        Seq::empty()
    } else {
        let before = shortages(names, df, (n - 1) as nat);
        if df[n - 1] == 0 {
            before.push(shortage(names[n - 1]))
        } else {
            before
        }
    }
}

/// The warnings for strata without degrees of freedom.
pub fn shortage_warnings(names: &Vec<String>, df: &Vec<usize>) -> (out: Vec<String>)
    requires
        names@.len() == df@.len(),
    ensures
        views(out@) == shortages(views(names@), df@, names@.len()),
{
    let ghost nv = views(names@);
    let mut out: Vec<String> = Vec::new();
    assert(views(out@) =~= Seq::empty());
    let mut s: usize = 0;
    while s < names.len()
        invariant
            s <= names@.len(),
            names@.len() == df@.len(),
            nv == views(names@),
            views(out@) == shortages(nv, df@, s as nat),
        decreases names@.len() - s,
    {
        if df[s] == 0 {
            let mut w: String = String::new();
            w.append("insufficient evidence under this model: residual df = 0 in ");
            w.append(names[s].as_str());
            w.append("; add replicates, or pass --pool <terms> / --pool-auto.");
            assert(nv[s as int] == names@[s as int]@);
            assert(w@ =~= shortage(nv[s as int]));
            let ghost before = views(out@);
            let ghost v = w@;
            out.push(w);
            assert(views(out@) =~= before.push(v));
        }
        s = s + 1;
    }
    out
}

// ===== Tests =====

/// How a term is tested against its error stratum.
#[derive(Debug, Clone, Copy, PartialEq, Eq, Structural)]
pub enum Test {
    /// There is nothing to test with.
    Untested,
    /// The error is zero and the term is not: the ratio is infinite, and its
    /// probability zero.
    Infinite,
    /// The ratio of the mean squares.
    Ratio,
}

/// How a term is tested: a pooled term not at all, another one by its mean
/// square over that of its stratum.
pub open spec fn test_of(pooled: bool, mean_square: Option<u64>, error: Option<u64>) -> Test {
    if pooled {
        Test::Untested
    } else {
        match (mean_square, error) {
            (Some(n), Some(d)) => if float_less(0, d) {
                Test::Ratio
            } else if float_less(0, n) {
                Test::Infinite
            } else {
                Test::Untested
            },
            _ => Test::Untested,
        }
    }
}

/// How a term is tested.
pub fn choose_test(pooled: bool, mean_square: Option<u64>, error: Option<u64>) -> (t: Test)
    ensures
        t == test_of(pooled, mean_square, error),
{
    if pooled {
        return Test::Untested;
    }
    match (mean_square, error) {
        (Some(n), Some(d)) => if is_less(0, d) {
            Test::Ratio
        } else if is_less(0, n) {
            Test::Infinite
        } else {
            Test::Untested
        },
        _ => Test::Untested,
    }
}

/// The number is zero, of either sign.
pub open spec fn is_zero(x: u64) -> bool {
    magnitude(x) == 0
}

/// How blocks are tested.
pub open spec fn block_test_of(mean_square: Option<u64>, error: Option<u64>) -> Test {
    match (mean_square, error) {
        (Some(n), Some(d)) => if float_less(0, d) {
            Test::Ratio
        } else if is_zero(d) && float_less(0, n) {
            Test::Infinite
        } else {
            Test::Untested
        },
        _ => Test::Untested,
    }
}

/// How blocks are tested.
pub fn choose_block_test(mean_square: Option<u64>, error: Option<u64>) -> (t: Test)
    ensures
        t == block_test_of(mean_square, error),
{
    match (mean_square, error) {
        (Some(n), Some(d)) => if is_less(0, d) {
            Test::Ratio
        } else if (d == 0 || d == SIGN) && is_less(0, n) {
            Test::Infinite
        } else {
            Test::Untested
        },
        _ => Test::Untested,
    }
}

/// A term is significant: it is not pooled and, where noise is tolerated, the
/// range of its effect exceeds it, otherwise its probability is below the level.
/// Whether the whole term is estimable does not matter.
pub open spec fn significant(
    pooled: bool,
    p: Option<u64>,
    alpha: u64,
    noise: Option<u64>,
    range: u64,
) -> bool {
    !pooled && match noise {
        Some(sigma) => float_less(sigma, range),
        None => p matches Some(x) && float_less(x, alpha),
    }
}

/// Whether a term is significant.
pub fn is_significant(
    pooled: bool,
    p: Option<u64>,
    alpha: u64,
    noise: Option<u64>,
    range: u64,
) -> (r: bool)
    ensures
        r == significant(pooled, p, alpha, noise, range),
{
    if pooled {
        return false;
    }
    match noise {
        Some(sigma) => is_less(sigma, range),
        None => match p {
            Some(x) => is_less(x, alpha),
            None => false,
        },
    }
}

/// A term without degrees of freedom has no probability, and is then not
/// significant; nor is a pooled term.
pub proof fn untested_terms_are_not_significant(pooled: bool, alpha: u64, range: u64)
    ensures
        !significant(pooled, None, alpha, None, range),
        forall|p: Option<u64>, noise: Option<u64>| !significant(true, p, alpha, noise, range),
{
}

/// Whether any term is significant; otherwise nothing is recommended.
pub fn has_evidence(significant: &Vec<bool>) -> (r: bool)
    ensures
        r == significant@.contains(true),
{
    let mut i: usize = 0;
    while i < significant.len()
        invariant
            i <= significant@.len(),
            forall|k: int| 0 <= k < i ==> !#[trigger] significant@[k],
        decreases significant@.len() - i,
    {
        if significant[i] {
            assert(significant@[i as int] == true);
            return true;
        }
        i = i + 1;
    }
    false
}

} // verus!
