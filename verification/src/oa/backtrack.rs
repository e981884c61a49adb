//! Backtracking search.
//!
//! Last resort when catalog lookup, Bush, and Kronecker all decline. Builds
//! the OA column by column, generating balanced candidates and checking
//! pair-balance against every previously-placed column. Capped at small N
//! and small k.
use vstd::arithmetic::div_mod::{lemma_fundamental_div_mod, lemma_fundamental_div_mod_converse};
use vstd::prelude::*;

use super::counting::{lemma_tally_same, lemma_total, tally, total};
use super::strength::{
    balanced, cells_in_range, grid, lemma_entry_join, lemma_pair_count_tally, pair_code, pair_count,
    pair_in_range, strength2,
};
use super::{ArrayInfo, Selected};
use crate::text::{decimal, push_decimal};

verus! {

/// Largest number of rows that is searched.
pub const MAX_N: usize = 16;

/// Largest number of columns that is searched.
pub const MAX_K: usize = 8;

// ===== Columns =====

/// The cells of a column as a function of the row.
pub open spec fn entries(c: Seq<usize>) -> spec_fn(int) -> int {
    |r: int| c[r] as int
}

/// `c` shows each of the `q` levels equally often in `n` rows.
pub open spec fn balanced_column(c: Seq<usize>, n: int, q: int) -> bool {
    &&& c.len() == n
    &&& forall|r: int| 0 <= r < n ==> #[trigger] c[r] < q
    &&& forall|v: int| 0 <= v < q ==> #[trigger] tally(entries(c), n as nat, v) == n / q
}

/// The number of the level pair that two columns show in a row.
pub open spec fn two_columns(a: Seq<usize>, b: Seq<usize>, qb: int) -> spec_fn(int) -> int {
    |r: int| a[r] * qb + b[r]
}

/// Two columns show each of the level pairs equally often in `n` rows.
pub open spec fn balanced_pair(a: Seq<usize>, b: Seq<usize>, n: int, qa: int, qb: int) -> bool {
    forall|e: int|
        0 <= e < qa * qb ==> #[trigger] tally(two_columns(a, b, qb), n as nat, e) * (qa * qb) == n
}

/// The column that shows the levels one after the other.
pub open spec fn canonical(n: int, q: int) -> Seq<usize> {
    Seq::new(n as nat, |r: int| (r / (n / q)) as usize)
}

/// `cols` are the first columns of an array: balanced, pairwise balanced, the
/// first one canonical.
pub open spec fn partial(cols: Seq<Seq<usize>>, n: int, levels: Seq<usize>) -> bool {
    &&& cols.len() <= levels.len()
    &&& forall|i: int|
        0 <= i < cols.len() ==> balanced_column(#[trigger] cols[i], n, levels[i] as int)
    &&& forall|i: int, j: int|
        0 <= i < j < cols.len() ==> balanced_pair(
            #[trigger] cols[i],
            #[trigger] cols[j],
            n,
            levels[i] as int,
            levels[j] as int,
        )
    &&& cols.len() > 0 ==> cols[0] == canonical(n, levels[0] as int)
}

/// `cols` are all the columns of an array.
pub open spec fn complete(cols: Seq<Seq<usize>>, n: int, levels: Seq<usize>) -> bool {
    cols.len() == levels.len() && partial(cols, n, levels)
}

/// The number of rows is a multiple of every level count and of every product
/// of two of them.
pub open spec fn divisible(n: int, levels: Seq<usize>) -> bool {
    &&& forall|i: int| 0 <= i < levels.len() ==> n % (#[trigger] levels[i] as int) == 0
    &&& forall|i: int, j: int|
        #![trigger levels[i], levels[j]]
        0 <= i < j < levels.len() ==> n % (levels[i] * levels[j]) == 0
}

/// An array of `n` rows exists for the level counts, with a canonical first
/// column. A first column in another order makes no difference: see
/// `no_array_is_missed` in `completeness`.
pub open spec fn exists_array(n: int, levels: Seq<usize>) -> bool {
    divisible(n, levels) && exists|cols: Seq<Seq<usize>>| complete(cols, n, levels)
}

/// `a` comes before `b` in the order of the first difference.
pub open spec fn column_less(a: Seq<usize>, b: Seq<usize>) -> bool {
    exists|i: int| #[trigger] differs_at(a, b, i)
}

/// `a` and `b` agree before `i` and `a` is the smaller at `i`.
pub open spec fn differs_at(a: Seq<usize>, b: Seq<usize>, i: int) -> bool {
    0 <= i < a.len() && a.take(i) == b.take(i) && a[i] < b[i]
}

/// The array with the columns `a` comes before the one with the columns `b`.
pub open spec fn array_less(a: Seq<Seq<usize>>, b: Seq<Seq<usize>>) -> bool {
    exists|i: int| #[trigger] columns_differ_at(a, b, i)
}

pub open spec fn columns_differ_at(a: Seq<Seq<usize>>, b: Seq<Seq<usize>>, i: int) -> bool {
    0 <= i < a.len() && a.take(i) == b.take(i) && column_less(a[i], b[i])
}

/// `cols` is the first array, in that order, that begins with `prefix`.
pub open spec fn first_array(
    cols: Seq<Seq<usize>>,
    prefix: Seq<Seq<usize>>,
    n: int,
    levels: Seq<usize>,
) -> bool {
    &&& complete(cols, n, levels)
    &&& cols.take(prefix.len() as int) == prefix
    &&& forall|w: Seq<Seq<usize>>| #[trigger]
        complete(w, n, levels) && w.take(prefix.len() as int) == prefix ==> w == cols || array_less(
            cols,
            w,
        )
}

/// The rows of the array with the given columns.
pub open spec fn rows_of(cols: Seq<Seq<usize>>, n: nat) -> Seq<Seq<usize>> {
    Seq::new(n, |r: int| Seq::new(cols.len(), |c: int| cols[c][r]))
}

proof fn lemma_tally_bound(f: spec_fn(int) -> int, n: nat, m: nat, c: nat, v: int)
    requires
        forall|x: int| 0 <= x < m ==> #[trigger] tally(f, n, x) <= c,
        0 <= v < m,
    ensures
        total(f, n, m) <= c * m,
        total(f, n, m) == c * m ==> tally(f, n, v) == c,
    decreases m,
{
    let k = (m - 1) as nat;
    assert(c * m == c * k + c) by (nonlinear_arith)
        requires
            m == k + 1,
    ;
    if v == m - 1 {
        if k > 0 {
            lemma_tally_bound(f, n, k, c, 0);
        } else {
            assert(c * k == 0) by (nonlinear_arith)
                requires
                    k == 0,
            ;
        }
    } else {
        lemma_tally_bound(f, n, k, c, v);
        assert(tally(f, n, m - 1) <= c);
    }
}

/// The tally of an extended prefix.
proof fn lemma_tally_prefix(c: Seq<usize>, d: Seq<usize>, n: nat, v: int)
    requires
        n <= c.len(),
        n <= d.len(),
        c.take(n as int) == d.take(n as int),
    ensures
        tally(entries(c), n, v) == tally(entries(d), n, v),
    decreases n,
{
    if n > 0 {
        assert(c.take(n as int)[n - 1] == d.take(n as int)[n - 1]);
        assert(c.take(n - 1) =~= c.take(n as int).take(n - 1));
        assert(d.take(n - 1) =~= d.take(n as int).take(n - 1));
        lemma_tally_prefix(c, d, (n - 1) as nat, v);
        assert(c.take(n as int)[n - 1] == c[n - 1]);
        assert(d.take(n as int)[n - 1] == d[n - 1]);
        assert(c[n - 1] == d[n - 1]);
        assert(entries(c)(n - 1) == entries(d)(n - 1));
    }
}

/// A tally grows with the number of arguments.
pub proof fn lemma_tally_grows(f: spec_fn(int) -> int, m: nat, n: nat, v: int)
    requires
        m <= n,
    ensures
        tally(f, m, v) <= tally(f, n, v),
    decreases n,
{
    if m < n {
        lemma_tally_grows(f, m, (n - 1) as nat, v);
    }
}

proof fn lemma_canonical(n: int, q: int)
    requires
        q > 0,
        n >= 0,
        n % q == 0,
        n <= usize::MAX,
    ensures
        balanced_column(canonical(n, q), n, q),
{
    let per = n / q;
    lemma_fundamental_div_mod(n, q);
    let c = canonical(n, q);
    if n == 0 {
        vstd::arithmetic::div_mod::lemma_div_of0(q);
    } else {
        assert(per > 0) by (nonlinear_arith)
            requires
                n == q * per,
                n > 0,
                q > 0,
        ;
        assert forall|r: int| 0 <= r < n implies 0 <= r / per < q && #[trigger] c[r] == r / per by {
            lemma_fundamental_div_mod(r, per);
            let d = r / per;
            assert(0 <= d < q && d <= r) by (nonlinear_arith)
                requires
                    r == per * d + r % per,
                    0 <= r % per,
                    0 <= r < q * per,
                    per > 0,
                    r % per < per,
            ;
        }
        assert forall|v: int| 0 <= v < q implies #[trigger] tally(entries(c), n as nat, v) == per by {
            lemma_canonical_tally(c, n, per, q, v, n as nat);
            assert((v + 1) * per <= n) by (nonlinear_arith)
                requires
                    v + 1 <= q,
                    n == q * per,
                    per > 0,
            ;
            assert((v + 1) * per == v * per + per) by (nonlinear_arith);
        }
    }
}

proof fn lemma_canonical_tally(c: Seq<usize>, n: int, per: int, q: int, v: int, m: nat)
    requires
        per > 0,
        m <= n,
        c.len() == n,
        v >= 0,
        forall|r: int| 0 <= r < n ==> #[trigger] c[r] == r / per,
    ensures
        tally(entries(c), m, v) == if m <= v * per {
            0
        } else if m <= v * per + per {
            m - v * per
        } else {
            per
        },
    decreases m,
{
    if m == 0 {
        assert(v * per >= 0) by (nonlinear_arith)
            requires
                v >= 0,
                per > 0,
        ;
    } else {
        lemma_canonical_tally(c, n, per, q, v, (m - 1) as nat);
        let r = m - 1;
        assert(c[r] == r / per);
        lemma_fundamental_div_mod(r, per);
        let d = r / per;
        assert(d == v <==> v * per <= r < v * per + per) by (nonlinear_arith)
            requires
                r == per * d + r % per,
                0 <= r % per < per,
        ;
    }
}

// ===== Candidates =====

/// The list holds, in increasing order, exactly the balanced columns that begin
/// with `prefix`.
pub open spec fn lists_completions(
    list: Seq<Seq<usize>>,
    prefix: Seq<usize>,
    n: int,
    q: int,
) -> bool {
    &&& forall|i: int|
        0 <= i < list.len() ==> balanced_column(#[trigger] list[i], n, q) && list[i].take(
            prefix.len() as int,
        ) == prefix
    &&& forall|i: int, j: int|
        0 <= i < j < list.len() ==> column_less(#[trigger] list[i], #[trigger] list[j])
    &&& forall|x: Seq<usize>| #[trigger]
        balanced_column(x, n, q) && x.take(prefix.len() as int) == prefix ==> list.contains(x)
}

/// Appends to `out` all balanced columns that begin with the first `pos` cells
/// of `current`, in increasing order. `counts` holds how often each level may
/// still be used.
fn fill(pos: usize, counts: &mut Vec<usize>, current: &mut Vec<usize>, out: &mut Vec<Vec<usize>>, n: usize)
    requires
        pos <= n,
        old(current)@.len() == n,
        old(counts)@.len() > 0,
        n as int % old(counts)@.len() as int == 0,
        forall|r: int| 0 <= r < pos ==> #[trigger] old(current)@[r] < old(counts)@.len(),
        forall|v: int|
            0 <= v < old(counts)@.len() ==> #[trigger] old(counts)@[v] + tally(
                entries(old(current)@),
                pos as nat,
                v,
            ) == n as int / old(counts)@.len() as int,
    ensures
        final(counts)@ == old(counts)@,
        final(current)@.len() == n,
        final(current)@.take(pos as int) == old(current)@.take(pos as int),
        final(out)@.len() >= old(out)@.len(),
        final(out)@.take(old(out)@.len() as int) == old(out)@,
        lists_completions(
            grid(final(out)@.skip(old(out)@.len() as int)),
            old(current)@.take(pos as int),
            n as int,
            old(counts)@.len() as int,
        ),
    decreases n - pos,
{
    let ghost q = counts@.len() as int;
    let ghost per = n as int / q;
    let ghost prefix = current@.take(pos as int);
    let ghost cur0 = current@;
    let ghost out0 = out@;
    if pos == n {
        proof {
            assert(prefix =~= current@);
            assert forall|v: int| 0 <= v < q implies #[trigger] tally(entries(current@), n as nat, v)
                <= per by {
                assert(counts@[v] >= 0);
            }
            lemma_full_column(current@, n as int, q);
        }
        let col: Vec<usize> = current.clone();
        assert(col@ =~= current@);
        out.push(col);
        proof {
            let list = grid(out@.skip(out0.len() as int));
            assert(list =~= seq![current@]);
            assert forall|x: Seq<usize>| #[trigger]
                balanced_column(x, n as int, q) && x.take(pos as int) == prefix implies list.contains(
                x,
            ) by {
                assert(x.take(pos as int) =~= x);
                assert(list[0] == x);
            }
            assert(out@.take(out0.len() as int) =~= out0);
        }
        return ;
    }
    let levels: usize = counts.len();
    let ghost counts0 = counts@;
    let mut level: usize = 0;
    while level < levels
        invariant
            pos < n,
            levels == q,
            q > 0,
            n as int % q == 0,
            per == n as int / q,
            level <= levels,
            counts@ == counts0,
            counts0.len() == q,
            current@.len() == n,
            cur0.len() == n,
            current@.take(pos as int) == prefix,
            prefix == cur0.take(pos as int),
            prefix.len() == pos,
            forall|r: int| 0 <= r < pos ==> #[trigger] prefix[r] < q,
            forall|v: int|
                0 <= v < q ==> #[trigger] counts0[v] + tally(entries(cur0), pos as nat, v) == per,
            out@.len() >= out0.len(),
            out@.take(out0.len() as int) == out0,
            lists_below(grid(out@.skip(out0.len() as int)), prefix, n as int, q, level as int),
        decreases levels - level,
    {
        let left: usize = counts[level];
        let ghost list = grid(out@.skip(out0.len() as int));
        if left == 0 {
            proof {
                assert forall|x: Seq<usize>| #[trigger]
                    balanced_column(x, n as int, q) && x.take(pos as int) == prefix && x[pos as int]
                        < level + 1 implies list.contains(x) by {
                    if x[pos as int] == level {
                        lemma_used_up(x, cur0, n as int, q, pos as int, level as int);
                    }
                }
            }
        } else {
            counts.set(level, left - 1);
            current.set(pos, level);
            let ghost cur1 = current@;
            let ghost longer = cur1.take(pos + 1);
            proof {
                assert(cur1.take(pos as int) =~= prefix);
                assert(longer =~= prefix.push(level));
                assert forall|r: int| 0 <= r < pos + 1 implies #[trigger] cur1[r] < q by {
                    if r < pos {
                        assert(cur1[r] == prefix[r]);
                    }
                }
                assert forall|v: int| 0 <= v < q implies #[trigger] counts@[v] + tally(
                    entries(cur1),
                    (pos + 1) as nat,
                    v,
                ) == per by {
                    assert(cur1.take(pos as int) =~= cur0.take(pos as int));
                    lemma_tally_prefix(cur1, cur0, pos as nat, v);
                    assert(counts0[v] + tally(entries(cur0), pos as nat, v) == per);
                }
            }
            let ghost out1 = out@;
            fill(pos + 1, counts, current, out, n);
            counts.set(level, left);
            proof {
                assert(counts@ =~= counts0);
                assert(current@.take(pos as int) =~= current@.take(pos + 1).take(pos as int));
                assert(longer.take(pos as int) =~= prefix);
                assert(out@.take(out0.len() as int) =~= out@.take(out1.len() as int).take(
                    out0.len() as int,
                ));
                let added = grid(out@.skip(out1.len() as int));
                let all = grid(out@.skip(out0.len() as int));
                assert(out1 == out@.take(out1.len() as int));
                assert(all =~= list + added);
                lemma_lists_step(list, added, all, prefix, n as int, q, level as int, longer);
            }
        }
        level = level + 1;
    }
    proof {
        let list = grid(out@.skip(out0.len() as int));
        assert forall|x: Seq<usize>| #[trigger]
            balanced_column(x, n as int, q) && x.take(pos as int) == prefix implies list.contains(
            x,
        ) by {
            assert(x[pos as int] < q);
        }
    }
}

/// The list holds, in increasing order, exactly the balanced columns that begin
/// with `prefix` and continue with a cell below `level`.
spec fn lists_below(list: Seq<Seq<usize>>, prefix: Seq<usize>, n: int, q: int, level: int) -> bool {
    let pos = prefix.len() as int;
    &&& forall|i: int|
        0 <= i < list.len() ==> balanced_column(#[trigger] list[i], n, q) && list[i].take(pos)
            == prefix && list[i][pos] < level
    &&& forall|i: int, j: int|
        0 <= i < j < list.len() ==> column_less(#[trigger] list[i], #[trigger] list[j])
    &&& forall|x: Seq<usize>| #[trigger]
        balanced_column(x, n, q) && x.take(pos) == prefix && x[pos] < level ==> list.contains(x)
}

proof fn lemma_lists_step(
    list: Seq<Seq<usize>>,
    added: Seq<Seq<usize>>,
    all: Seq<Seq<usize>>,
    prefix: Seq<usize>,
    n: int,
    q: int,
    level: int,
    longer: Seq<usize>,
)
    requires
        prefix.len() < n,
        0 <= level < q,
        lists_below(list, prefix, n, q, level),
        longer.len() == prefix.len() + 1,
        longer.take(prefix.len() as int) == prefix,
        longer[prefix.len() as int] == level,
        lists_completions(added, longer, n, q),
        all == list + added,
    ensures
        lists_below(all, prefix, n, q, level + 1),
{
    let pos = prefix.len() as int;
    assert forall|i: int| 0 <= i < added.len() implies balanced_column(
        #[trigger] added[i],
        n,
        q,
    ) && added[i].take(pos) == prefix && added[i][pos] == level by {
        assert(added[i].take(pos) =~= added[i].take(pos + 1).take(pos));
        assert(added[i].take(pos + 1)[pos] == added[i][pos]);
    }
    assert forall|i: int| 0 <= i < all.len() implies balanced_column(#[trigger] all[i], n, q)
        && all[i].take(pos) == prefix && all[i][pos] < level + 1 by {
        if i >= list.len() {
            assert(all[i] == added[i - list.len()]);
        } else {
            assert(all[i] == list[i]);
        }
    }
    assert forall|i: int, j: int| 0 <= i < j < all.len() implies column_less(
        #[trigger] all[i],
        #[trigger] all[j],
    ) by {
        if j < list.len() {
            assert(all[i] == list[i] && all[j] == list[j]);
        } else if i >= list.len() {
            assert(all[i] == added[i - list.len()] && all[j] == added[j - list.len()]);
        } else {
            assert(all[i] == list[i] && all[j] == added[j - list.len()]);
            assert(differs_at(all[i], all[j], pos));
        }
    }
    assert forall|x: Seq<usize>| #[trigger]
        balanced_column(x, n, q) && x.take(pos) == prefix && x[pos] < level + 1 implies all.contains(
        x,
    ) by {
        if x[pos] < level {
            assert(list.contains(x));
            let i = choose|i: int| 0 <= i < list.len() && list[i] == x;
            assert(all[i] == x);
        } else {
            assert(x.take(pos + 1) =~= x.take(pos).push(x[pos]));
            assert(longer =~= prefix.push(longer[pos]));
            assert(added.contains(x));
            let i = choose|i: int| 0 <= i < added.len() && added[i] == x;
            assert(all[list.len() + i] == x);
        }
    }
}

/// A column of which no level may be used further is balanced.
proof fn lemma_full_column(c: Seq<usize>, n: int, q: int)
    requires
        q > 0,
        c.len() == n,
        n % q == 0,
        forall|r: int| 0 <= r < n ==> #[trigger] c[r] < q,
        forall|v: int| 0 <= v < q ==> #[trigger] tally(entries(c), n as nat, v) <= n / q,
    ensures
        balanced_column(c, n, q),
{
    let f = entries(c);
    lemma_fundamental_div_mod(n, q);
    assert forall|r: int| 0 <= r < n implies 0 <= #[trigger] f(r) < q by {
        assert(c[r] < q);
    }
    lemma_total(f, n as nat, q as nat);
    let per = n / q;
    assert(per >= 0) by (nonlinear_arith)
        requires
            n == q * per,
            n >= 0,
            q > 0,
    ;
    assert(per * q == n) by (nonlinear_arith)
        requires
            n == q * per,
    ;
    assert forall|v: int| 0 <= v < q implies #[trigger] tally(f, n as nat, v) == per by {
        lemma_tally_bound(f, n as nat, q as nat, per as nat, v);
    }
}

/// A level that may not be used further does not come next in a balanced column.
proof fn lemma_used_up(x: Seq<usize>, cur: Seq<usize>, n: int, q: int, pos: int, level: int)
    requires
        balanced_column(x, n, q),
        cur.len() == n,
        0 <= pos < n,
        x.take(pos) == cur.take(pos),
        0 <= level < q,
        tally(entries(cur), pos as nat, level) == n / q,
    ensures
        x[pos] != level,
{
    lemma_tally_prefix(x, cur, pos as nat, level);
    lemma_tally_grows(entries(x), (pos + 1) as nat, n as nat, level);
}

/// All balanced columns, in increasing order.
fn gen_balanced(n: usize, q: usize) -> (out: Vec<Vec<usize>>)
    requires
        q > 0,
        n as int % q as int == 0,
    ensures
        lists_completions(grid(out@), Seq::empty(), n as int, q as int),
{
    let per: usize = n / q;
    let mut counts: Vec<usize> = vec![per; q];
    let mut current: Vec<usize> = vec![0; n];
    let mut out: Vec<Vec<usize>> = Vec::new();
    fill(0, &mut counts, &mut current, &mut out, n);
    proof {
        assert(out@.skip(0) =~= out@);
        assert(current@.take(0) =~= Seq::<usize>::empty());
    }
    out
}

fn canonical_first(n: usize, q: usize) -> (out: Vec<usize>)
    requires
        q > 0,
        n as int % q as int == 0,
    ensures
        out@ == canonical(n as int, q as int),
{
    let per: usize = n / q;
    let mut out: Vec<usize> = Vec::new();
    proof {
        lemma_fundamental_div_mod(n as int, q as int);
        if n > 0 {
            assert(per > 0) by (nonlinear_arith)
                requires
                    n == q * per,
                    n > 0,
            ;
        }
    }
    let mut r: usize = 0;
    while r < n
        invariant
            r <= n,
            n > 0 ==> per > 0,
            per == n as int / q as int,
            out@.len() == r,
            forall|i: int| 0 <= i < r ==> #[trigger] out@[i] == i / (per as int),
        decreases n - r,
    {
        out.push(r / per);
        r = r + 1;
    }
    assert(out@ =~= canonical(n as int, q as int));
    out
}

/// Whether two columns show each level pair equally often.
fn check_pair(a: &Vec<usize>, b: &Vec<usize>, n: usize, qa: usize, qb: usize) -> (r: bool)
    requires
        a@.len() == n,
        b@.len() == n,
        qa > 0,
        qb > 0,
        qa * qb <= usize::MAX,
        forall|i: int| 0 <= i < n ==> #[trigger] a@[i] < qa,
        forall|i: int| 0 <= i < n ==> #[trigger] b@[i] < qb,
    ensures
        r == balanced_pair(a@, b@, n as int, qa as int, qb as int),
{
    let size: usize = qa * qb;
    let ghost f = two_columns(a@, b@, qb as int);
    proof {
        assert(size > 0) by (nonlinear_arith)
            requires
                size == qa * qb,
                qa > 0,
                qb > 0,
        ;
        lemma_fundamental_div_mod(n as int, size as int);
    }
    let expected: usize = n / size;
    if n % size != 0 {
        proof {
            if balanced_pair(a@, b@, n as int, qa as int, qb as int) {
                let m: int = n as int;
                let c = tally(two_columns(a@, b@, qb as int), m as nat, 0);
                assert(c * (qa * qb) == n);
                assert(n == size * c) by (nonlinear_arith)
                    requires
                        c * size == n,
                ;
                lemma_fundamental_div_mod_converse(n as int, size as int, c as int, 0);
            }
        }
        return false;
    }
    let mut counts: Vec<usize> = vec![0; size];
    assert(forall|e: int| 0 <= e < size ==> #[trigger] counts@[e] == tally(f, 0, e));
    let mut i: usize = 0;
    while i < n
        invariant
            i <= n,
            a@.len() == n,
            b@.len() == n,
            size == qa * qb,
            f == two_columns(a@, b@, qb as int),
            forall|r: int| 0 <= r < n ==> #[trigger] a@[r] < qa,
            forall|r: int| 0 <= r < n ==> #[trigger] b@[r] < qb,
            counts@.len() == size,
            forall|e: int|
                0 <= e < size ==> #[trigger] counts@[e] == tally(f, i as nat, e) && counts@[e] <= i,
        decreases n - i,
    {
        proof {
            assert(a@[i as int] < qa && b@[i as int] < qb);
            lemma_entry_join(a@[i as int] as int, b@[i as int] as int, qa as int, qb as int);
        }
        let e: usize = a[i] * qb + b[i];
        let ghost before = counts@;
        let c: usize = counts[e];
        counts.set(e, c + 1);
        assert forall|d: int| 0 <= d < size implies #[trigger] counts@[d] == tally(
            f,
            (i + 1) as nat,
            d,
        ) && counts@[d] <= i + 1 by {
            assert(before[d] == tally(f, i as nat, d));
            assert(f(i as int) == e);
        }
        i = i + 1;
    }
    let mut e: usize = 0;
    while e < size
        invariant
            e <= size,
            size == qa * qb,
            size > 0,
            n as int == size * expected,
            counts@.len() == size,
            f == two_columns(a@, b@, qb as int),
            forall|d: int| 0 <= d < size ==> #[trigger] counts@[d] == tally(f, n as nat, d),
            forall|d: int|
                0 <= d < e ==> #[trigger] tally(f, n as nat, d) * (qa * qb) == n,
        decreases size - e,
    {
        let c: usize = counts[e];
        if c != expected {
            proof {
                let m: int = n as int;
                assert(tally(two_columns(a@, b@, qb as int), m as nat, e as int) == c);
                assert(c * (qa * qb) != n) by (nonlinear_arith)
                    requires
                        c != expected,
                        n as int == size * expected,
                        size == qa * qb,
                        size > 0,
                ;
            }
            return false;
        }
        assert(c * (qa * qb) == n) by (nonlinear_arith)
            requires
                c == expected,
                n as int == size * expected,
                size == qa * qb,
        ;
        assert(counts@[e as int] == tally(f, n as nat, e as int));
        e = e + 1;
    }
    true
}

// ===== Search =====

/// The level counts are positive and their products fit the machine.
pub open spec fn usable(levels: Seq<usize>) -> bool {
    &&& forall|i: int| 0 <= i < levels.len() ==> #[trigger] levels[i] > 0
    &&& forall|i: int, j: int|
        #![trigger levels[i], levels[j]]
        0 <= i < levels.len() && 0 <= j < levels.len() ==> levels[i] * levels[j] <= usize::MAX
}

/// Places the remaining columns after `cols`: the first array in the order of
/// the candidates, or nothing where none begins with `cols`.
fn extend(cols: &mut Vec<Vec<usize>>, n: usize, levels: &[usize]) -> (r: bool)
    requires
        usable(levels@),
        divisible(n as int, levels@),
        partial(grid(old(cols)@), n as int, levels@),
    ensures
        r ==> first_array(grid(final(cols)@), grid(old(cols)@), n as int, levels@),
        !r ==> grid(final(cols)@) == grid(old(cols)@) && forall|w: Seq<Seq<usize>>|
            !(#[trigger] complete(w, n as int, levels@) && w.take(old(cols)@.len() as int) == grid(
                old(cols)@,
            )),
    decreases levels@.len() - old(cols)@.len(),
{
    let m: usize = cols.len();
    let ghost prefix = grid(cols@);
    let ghost nn = n as int;
    if m == levels.len() {
        proof {
            assert(prefix.take(m as int) =~= prefix);
            assert forall|w: Seq<Seq<usize>>| #[trigger]
                complete(w, nn, levels@) && w.take(m as int) == prefix implies w == prefix
                || array_less(prefix, w) by {
                assert(w.take(m as int) =~= w);
            }
        }
        return true;
    }
    let q: usize = levels[m];
    assert(q > 0 && n as int % q as int == 0);
    let candidates: Vec<Vec<usize>> = if m == 0 {
        let mut only: Vec<Vec<usize>> = Vec::new();
        only.push(canonical_first(n, q));
        proof {
            lemma_canonical(nn, q as int);
        }
        only
    } else {
        gen_balanced(n, q)
    };
    let ghost list = grid(candidates@);
    proof {
        if m == 0 {
            assert(list =~= seq![canonical(nn, q as int)]);
        }
    }
    assert forall|w: Seq<Seq<usize>>| #[trigger]
        complete(w, nn, levels@) && w.take(m as int) == prefix implies list.contains(
        w[m as int],
    ) by {
        assert(balanced_column(w[m as int], nn, levels@[m as int] as int));
        if m == 0 {
            assert(list[0] == w[0]);
        } else {
            assert(w[m as int].take(0) =~= Seq::<usize>::empty());
        }
    }
    let mut c: usize = 0;
    while c < candidates.len()
        invariant
            usable(levels@),
            divisible(nn, levels@),
            nn == n,
            m < levels@.len(),
            q == levels@[m as int],
            q > 0,
            prefix == grid(old(cols)@),
            prefix.len() == m,
            grid(cols@) == prefix,
            cols@.len() == m,
            partial(prefix, nn, levels@),
            list == grid(candidates@),
            c <= candidates@.len(),
            m == 0 ==> list == seq![canonical(nn, q as int)],
            forall|i: int| 0 <= i < list.len() ==> balanced_column(#[trigger] list[i], nn, q as int),
            forall|i: int, j: int|
                0 <= i < j < list.len() ==> column_less(#[trigger] list[i], #[trigger] list[j]),
            forall|w: Seq<Seq<usize>>| #[trigger]
                complete(w, nn, levels@) && w.take(m as int) == prefix ==> list.contains(
                    w[m as int],
                ),
            forall|w: Seq<Seq<usize>>, i: int|
                #![trigger complete(w, nn, levels@), list[i]]
                0 <= i < c && complete(w, nn, levels@) && w.take(m as int) == prefix ==> w[m as int]
                    != list[i],
        decreases candidates@.len() - c,
    {
        assert(list[c as int] == candidates@[c as int]@);
        let cand: &Vec<usize> = &candidates[c];
        if check_pairs(cand, cols, n, levels) {
            let col: Vec<usize> = cand.clone();
            assert(col@ =~= cand@);
            let ghost longer = prefix.push(cand@);
            cols.push(col);
            proof {
                assert(grid(cols@) =~= longer);
                lemma_longer(prefix, cand@, nn, levels@);
            }
            if extend(cols, n, levels) {
                proof {
                    let result = grid(cols@);
                    assert(result.take(m as int) =~= result.take(m + 1).take(m as int));
                    assert(longer.take(m as int) =~= prefix);
                    assert(result[m as int] == result.take(m + 1)[m as int]);
                    assert forall|w: Seq<Seq<usize>>| #[trigger]
                        complete(w, nn, levels@) && w.take(m as int) == prefix implies w == result
                        || array_less(result, w) by {
                        assert(list.contains(w[m as int]));
                        let e = choose|e: int| 0 <= e < list.len() && list[e] == w[m as int];
                        assert(list[e] == w[m as int]);
                        if e == c {
                            assert(w.take(m + 1) =~= longer);
                        } else {
                            assert(list[c as int] == cand@);
                            assert(columns_differ_at(result, w, m as int));
                        }
                    }
                }
                return true;
            }
            proof {
                assert forall|w: Seq<Seq<usize>>| #[trigger]
                    complete(w, nn, levels@) && w.take(m as int) == prefix implies w[m as int]
                    != list[c as int] by {
                    if w[m as int] == list[c as int] {
                        assert(w.take(m + 1) =~= longer);
                    }
                }
            }
            let _ = cols.pop();
            proof {
                assert(grid(cols@) =~= longer.take(m as int));
                assert(longer.take(m as int) =~= prefix);
            }
        } else {
            proof {
                assert forall|w: Seq<Seq<usize>>| #[trigger]
                    complete(w, nn, levels@) && w.take(m as int) == prefix implies w[m as int]
                    != list[c as int] by {
                    if w[m as int] == list[c as int] {
                        assert forall|i: int| 0 <= i < m implies balanced_pair(
                            #[trigger] prefix[i],
                            cand@,
                            nn,
                            levels@[i] as int,
                            q as int,
                        ) by {
                            assert(w.take(m as int)[i] == w[i]);
                        }
                    }
                }
            }
        }
        c = c + 1;
    }
    proof {
        assert forall|w: Seq<Seq<usize>>|
            !(#[trigger] complete(w, nn, levels@) && w.take(m as int) == prefix) by {
            if complete(w, nn, levels@) && w.take(m as int) == prefix {
                assert(list.contains(w[m as int]));
                let e = choose|e: int| 0 <= e < list.len() && list[e] == w[m as int];
                assert(list[e] == w[m as int]);
            }
        }
    }
    false
}

proof fn lemma_longer(prefix: Seq<Seq<usize>>, col: Seq<usize>, n: int, levels: Seq<usize>)
    requires
        prefix.len() < levels.len(),
        partial(prefix, n, levels),
        balanced_column(col, n, levels[prefix.len() as int] as int),
        forall|i: int|
            0 <= i < prefix.len() ==> balanced_pair(
                #[trigger] prefix[i],
                col,
                n,
                levels[i] as int,
                levels[prefix.len() as int] as int,
            ),
        prefix.len() == 0 ==> col == canonical(n, levels[0] as int),
    ensures
        partial(prefix.push(col), n, levels),
{
    let cols = prefix.push(col);
    assert forall|i: int| 0 <= i < cols.len() implies balanced_column(
        #[trigger] cols[i],
        n,
        levels[i] as int,
    ) by {
        if i < prefix.len() {
            assert(cols[i] == prefix[i]);
        }
    }
    assert forall|i: int, j: int| 0 <= i < j < cols.len() implies balanced_pair(
        #[trigger] cols[i],
        #[trigger] cols[j],
        n,
        levels[i] as int,
        levels[j] as int,
    ) by {
        assert(cols[i] == prefix[i]);
        if j < prefix.len() {
            assert(cols[j] == prefix[j]);
        }
    }
    if prefix.len() > 0 {
        assert(cols[0] == prefix[0]);
    }
}

/// Whether a candidate is balanced with every placed column.
fn check_pairs(cand: &Vec<usize>, placed: &Vec<Vec<usize>>, n: usize, levels: &[usize]) -> (r: bool)
    requires
        usable(levels@),
        placed@.len() < levels@.len(),
        partial(grid(placed@), n as int, levels@),
        balanced_column(cand@, n as int, levels@[placed@.len() as int] as int),
    ensures
        r == forall|i: int|
            0 <= i < placed@.len() ==> balanced_pair(
                #[trigger] grid(placed@)[i],
                cand@,
                n as int,
                levels@[i] as int,
                levels@[placed@.len() as int] as int,
            ),
{
    let q: usize = levels[placed.len()];
    let mut i: usize = 0;
    while i < placed.len()
        invariant
            usable(levels@),
            i <= placed@.len(),
            placed@.len() < levels@.len(),
            q == levels@[placed@.len() as int],
            partial(grid(placed@), n as int, levels@),
            balanced_column(cand@, n as int, q as int),
            forall|j: int|
                0 <= j < i ==> balanced_pair(
                    #[trigger] grid(placed@)[j],
                    cand@,
                    n as int,
                    levels@[j] as int,
                    q as int,
                ),
        decreases placed@.len() - i,
    {
        let col: &Vec<usize> = &placed[i];
        assert(grid(placed@)[i as int] == col@);
        assert(balanced_column(grid(placed@)[i as int], n as int, levels@[i as int] as int));
        if !check_pair(col, cand, n, levels[i], q) {
            return false;
        }
        i = i + 1;
    }
    true
}

/// The array with the columns of a complete search has strength 2.
pub proof fn complete_has_strength2(cols: Seq<Seq<usize>>, n: int, levels: Seq<usize>)
    requires
        n >= 0,
        complete(cols, n, levels),
    ensures
        strength2(rows_of(cols, n as nat), levels),
        cells_in_range(rows_of(cols, n as nat), levels),
{
    let g = rows_of(cols, n as nat);
    assert forall|r: int, c: int| 0 <= r < g.len() && 0 <= c < levels.len() implies #[trigger] g[r][c]
        < levels[c] by {
        assert(balanced_column(cols[c], n, levels[c] as int));
        assert(cols[c][r] < levels[c]);
    }
    assert forall|i: int, j: int| 0 <= i < j < levels.len() implies #[trigger] balanced(
        g,
        i,
        j,
        levels[i] as int,
        levels[j] as int,
    ) by {
        let (qi, qj) = (levels[i] as int, levels[j] as int);
        assert(pair_in_range(g, i, j, qi, qj)) by {
            assert forall|r: int| 0 <= r < g.len() implies #[trigger] g[r][i] < qi && g[r][j] < qj by {
                assert(g[r][j] < levels[j]);
            }
        }
        assert(balanced_pair(cols[i], cols[j], n, qi, qj));
        assert forall|x: int, y: int| 0 <= x < qi && 0 <= y < qj implies #[trigger] pair_count(
            g,
            i,
            j,
            x,
            y,
        ) * (qi * qj) == g.len() by {
            lemma_entry_join(x, y, qi, qj);
            lemma_pair_count_tally(g, i, j, qi, qj, x, y, g.len());
            assert(g.take(g.len() as int) =~= g);
            let f = two_columns(cols[i], cols[j], qj);
            let h = pair_code(g, i, j, qj);
            assert forall|r: int| 0 <= r < g.len() implies (#[trigger] f(r) == x * qj + y <==> h(r)
                == x * qj + y) by {
                assert(g[r][i] == cols[i][r] && g[r][j] == cols[j][r]);
            }
            lemma_tally_same(f, h, g.len(), x * qj + y, x * qj + y);
            assert(tally(f, n as nat, x * qj + y) * (qi * qj) == n);
        }
    }
}

fn transpose(cols: &Vec<Vec<usize>>, n: usize) -> (rows: Vec<Vec<usize>>)
    requires
        forall|c: int| 0 <= c < cols@.len() ==> (#[trigger] cols@[c])@.len() == n,
    ensures
        grid(rows@) == rows_of(grid(cols@), n as nat),
{
    let mut rows: Vec<Vec<usize>> = Vec::new();
    let mut r: usize = 0;
    while r < n
        invariant
            r <= n,
            rows@.len() == r,
            forall|c: int| 0 <= c < cols@.len() ==> (#[trigger] cols@[c])@.len() == n,
            forall|s: int|
                0 <= s < r ==> (#[trigger] rows@[s])@ == rows_of(grid(cols@), n as nat)[s],
        decreases n - r,
    {
        let mut row: Vec<usize> = Vec::new();
        let mut c: usize = 0;
        while c < cols.len()
            invariant
                r < n,
                c <= cols@.len(),
                row@.len() == c,
                forall|i: int| 0 <= i < cols@.len() ==> (#[trigger] cols@[i])@.len() == n,
                forall|i: int| 0 <= i < c ==> #[trigger] row@[i] == cols@[i]@[r as int],
            decreases cols@.len() - c,
        {
            row.push(cols[c][r]);
            c = c + 1;
        }
        assert(row@ =~= rows_of(grid(cols@), n as nat)[r as int]);
        rows.push(row);
        r = r + 1;
    }
    assert(grid(rows@) =~= rows_of(grid(cols@), n as nat));
    rows
}

/// Searches an array of `n` rows: the first one in the order of the columns,
/// with a canonical first column.
pub fn search(n: usize, levels: &[usize]) -> (r: Option<Vec<Vec<usize>>>)
    requires
        usable(levels@),
    ensures
        r is Some <==> exists_array(n as int, levels@),
        r matches Some(array) ==> array@.len() == n && strength2(grid(array@), levels@)
            && cells_in_range(grid(array@), levels@) && exists|cols: Seq<Seq<usize>>|
            #[trigger] first_array(cols, Seq::empty(), n as int, levels@) && grid(array@) == rows_of(
                cols,
                n as nat,
            ),
{
    let mut i: usize = 0;
    while i < levels.len()
        invariant
            usable(levels@),
            i <= levels@.len(),
            forall|a: int| 0 <= a < i ==> n as int % (#[trigger] levels@[a] as int) == 0,
        decreases levels@.len() - i,
    {
        let q: usize = levels[i];
        if n % q != 0 {
            return None;
        }
        i = i + 1;
    }
    i = 0;
    while i < levels.len()
        invariant
            usable(levels@),
            i <= levels@.len(),
            forall|a: int| 0 <= a < levels@.len() ==> n as int % (#[trigger] levels@[a] as int) == 0,
            forall|a: int, b: int|
                #![trigger levels@[a], levels@[b]]
                0 <= a < i && a < b < levels@.len() ==> n as int % (levels@[a] * levels@[b]) == 0,
        decreases levels@.len() - i,
    {
        let mut j: usize = i + 1;
        while j < levels.len()
            invariant
                usable(levels@),
                i < j <= levels@.len(),
                forall|a: int, b: int|
                    #![trigger levels@[a], levels@[b]]
                    0 <= a < i && a < b < levels@.len() ==> n as int % (levels@[a] * levels@[b]) == 0,
                forall|b: int|
                    i < b < j ==> n as int % (levels@[i as int] * #[trigger] levels@[b]) == 0,
            decreases levels@.len() - j,
        {
            assert(levels@[i as int] > 0 && levels@[j as int] > 0);
            assert(levels@[i as int] * levels@[j as int] > 0) by (nonlinear_arith)
                requires
                    levels@[i as int] > 0,
                    levels@[j as int] > 0,
            ;
            if n % (levels[i] * levels[j]) != 0 {
                return None;
            }
            j = j + 1;
        }
        i = i + 1;
    }
    let mut cols: Vec<Vec<usize>> = Vec::new();
    assert(grid(cols@) =~= Seq::<Seq<usize>>::empty());
    if extend(&mut cols, n, levels) {
        proof {
            complete_has_strength2(grid(cols@), n as int, levels@);
            assert forall|c: int| 0 <= c < cols@.len() implies (#[trigger] cols@[c])@.len() == n by {
                assert(balanced_column(grid(cols@)[c], n as int, levels@[c] as int));
            }
        }
        let array: Vec<Vec<usize>> = transpose(&cols, n);
        proof {
            let m: int = n as int;
            assert(rows_of(grid(cols@), m as nat) == grid(array@));
            assert(first_array(grid(cols@), Seq::empty(), n as int, levels@));
            assert(exists_array(n as int, levels@));
        }
        Some(array)
    } else {
        proof {
            assert forall|w: Seq<Seq<usize>>| !complete(w, n as int, levels@) by {
                assert(w.take(0) =~= Seq::<Seq<usize>>::empty());
            }
        }
        None
    }
}

// ===== Row counts =====

/// Greatest common divisor, by Euclid's rule.
pub open spec fn gcd_of(a: nat, b: nat) -> nat
    decreases b,
{
    if b == 0 {
        a
    } else {
        gcd_of(b, a % b)
    }
}

/// Least common multiple.
pub open spec fn lcm_of(a: nat, b: nat) -> nat {
    if a == 0 || b == 0 {
        0
    } else {
        a / gcd_of(a, b) * b
    }
}

/// `d` divides `a`.
pub open spec fn divides(d: nat, a: nat) -> bool {
    exists|k: nat| #[trigger] (d * k) == a
}

/// The greatest common divisor divides both numbers, and every common divisor
/// divides it.
pub proof fn gcd_is_greatest(a: nat, b: nat, d: nat)
    ensures
        divides(gcd_of(a, b), a),
        divides(gcd_of(a, b), b),
        divides(d, a) && divides(d, b) ==> divides(d, gcd_of(a, b)),
        a > 0 || b > 0 ==> gcd_of(a, b) > 0,
    decreases b,
{
    if b == 0 {
        assert(a * 1 == a) by (nonlinear_arith);
        assert(a * 0 == 0) by (nonlinear_arith);
    } else {
        gcd_is_greatest(b, a % b, d);
        let g = gcd_of(a, b);
        let x = choose|k: nat| #[trigger] (g * k) == b;
        let y = choose|k: nat| #[trigger] (g * k) == a % b;
        lemma_fundamental_div_mod(a as int, b as int);
        let t = (a / b) as nat;
        assert(g * (x * t + y) == a) by (nonlinear_arith)
            requires
                g * x == b,
                g * y == a % b,
                a == b * t + a % b,
        ;
        if divides(d, a) && divides(d, b) {
            let u = choose|k: nat| #[trigger] (d * k) == a;
            let v = choose|k: nat| #[trigger] (d * k) == b;
            assert(u >= v * t && d * ((u - v * t) as nat) == a % b) by (nonlinear_arith)
                requires
                    d * u == a,
                    d * v == b,
                    a == b * t + a % b,
                    a % b >= 0,
                    b > 0,
            ;
        }
    }
}

/// The least common multiple is a multiple of both numbers.
pub proof fn lcm_is_multiple(a: nat, b: nat)
    requires
        a > 0,
        b > 0,
    ensures
        divides(a, lcm_of(a, b)),
        divides(b, lcm_of(a, b)),
        lcm_of(a, b) >= a,
        lcm_of(a, b) >= b,
{
    gcd_is_greatest(a, b, 1);
    let g = gcd_of(a, b);
    let x = choose|k: nat| #[trigger] (g * k) == a;
    let y = choose|k: nat| #[trigger] (g * k) == b;
    lemma_fundamental_div_mod_converse(a as int, g as int, x as int, 0);
    assert(b * x == x * b) by (nonlinear_arith);
    assert(a * y == x * b) by (nonlinear_arith)
        requires
            g * x == a,
            g * y == b,
    ;
    assert(x * b >= b) by (nonlinear_arith)
        requires
            g * x == a,
            a > 0,
    ;
    assert(a * y >= a) by (nonlinear_arith)
        requires
            g * y == b,
            b > 0,
    ;
}

/// Greatest common divisor.
pub fn gcd(a: usize, b: usize) -> (r: usize)
    ensures
        r == gcd_of(a as nat, b as nat),
    decreases b,
{
    if b == 0 {
        a
    } else {
        gcd(b, a % b)
    }
}

/// Least common multiple.
pub fn lcm(a: usize, b: usize) -> (r: usize)
    requires
        lcm_of(a as nat, b as nat) <= usize::MAX,
    ensures
        r == lcm_of(a as nat, b as nat),
{
    if a == 0 || b == 0 {
        return 0;
    }
    let g: usize = gcd(a, b);
    proof {
        gcd_is_greatest(a as nat, b as nat, 1);
    }
    a / g * b
}

/// Folds the least common multiple of `acc` with the products of two level
/// counts, a level count with itself included, from the pair (i, j) on.
pub open spec fn lcm_from(levels: Seq<usize>, i: nat, j: nat, acc: nat) -> nat
    decreases levels.len() - i, levels.len() - j,
{
    if i >= levels.len() {
        acc
    } else if j >= levels.len() {
        lcm_from(levels, i + 1, i + 1, acc)
    } else {
        lcm_from(levels, i, j + 1, lcm_of(acc, (levels[i as int] * levels[j as int]) as nat))
    }
}

/// Least common multiple of the products of two level counts.
pub open spec fn lcm_pairs_of(levels: Seq<usize>) -> nat {
    lcm_from(levels, 0, 0, 1)
}

proof fn lemma_lcm_from(levels: Seq<usize>, i: nat, j: nat, acc: nat)
    requires
        acc > 0,
        forall|a: int| 0 <= a < levels.len() ==> #[trigger] levels[a] > 0,
    ensures
        lcm_from(levels, i, j, acc) >= acc,
    decreases levels.len() - i, levels.len() - j,
{
    if i < levels.len() {
        if j >= levels.len() {
            lemma_lcm_from(levels, i + 1, i + 1, acc);
        } else {
            let x = (levels[i as int] * levels[j as int]) as nat;
            assert(levels[i as int] > 0 && levels[j as int] > 0);
            assert(levels[i as int] * levels[j as int] > 0) by (nonlinear_arith)
                requires
                    levels[i as int] > 0,
                    levels[j as int] > 0,
            ;
            lcm_is_multiple(acc, x);
            lemma_lcm_from(levels, i, j + 1, lcm_of(acc, x));
        }
    }
}

/// That least common multiple, where it is at most the largest number of rows
/// that is searched.
fn lcm_pairs(levels: &[usize]) -> (r: Option<usize>)
    requires
        forall|i: int| 0 <= i < levels@.len() ==> #[trigger] levels@[i] > 0,
    ensures
        match r {
            Some(n) => n == lcm_pairs_of(levels@) && 0 < n <= MAX_N && usable(levels@),
            None => lcm_pairs_of(levels@) > MAX_N,
        },
{
    let mut acc: usize = 1;
    let mut i: usize = 0;
    while i < levels.len()
        invariant
            forall|k: int| 0 <= k < levels@.len() ==> #[trigger] levels@[k] > 0,
            forall|k: int, l: int|
                #![trigger levels@[k], levels@[l]]
                0 <= k < i && k <= l < levels@.len() ==> levels@[k] * levels@[l] <= MAX_N,
            i <= levels@.len(),
            0 < acc <= MAX_N,
            lcm_pairs_of(levels@) == lcm_from(levels@, i as nat, i as nat, acc as nat),
        decreases levels@.len() - i,
    {
        let mut j: usize = i;
        while j < levels.len()
            invariant
                forall|k: int| 0 <= k < levels@.len() ==> #[trigger] levels@[k] > 0,
                forall|k: int, l: int|
                    #![trigger levels@[k], levels@[l]]
                    0 <= k < i && k <= l < levels@.len() ==> levels@[k] * levels@[l] <= MAX_N,
                forall|l: int|
                    i <= l < j ==> levels@[i as int] * (#[trigger] levels@[l]) <= MAX_N,
                i < levels@.len(),
                i <= j <= levels@.len(),
                0 < acc <= MAX_N,
                lcm_pairs_of(levels@) == lcm_from(levels@, i as nat, j as nat, acc as nat),
            decreases levels@.len() - j,
        {
            let ghost product = (levels@[i as int] * levels@[j as int]) as nat;
            proof {
                assert(levels@[i as int] > 0 && levels@[j as int] > 0);
                assert(levels@[i as int] * levels@[j as int] > 0) by (nonlinear_arith)
                    requires
                        levels@[i as int] > 0,
                        levels@[j as int] > 0,
                ;
                lcm_is_multiple(acc as nat, product);
                lemma_lcm_from(levels@, i as nat, (j + 1) as nat, lcm_of(acc as nat, product));
            }
            let x: usize = match levels[i].checked_mul(levels[j]) {
                None => {
                    return None;
                },
                Some(x) => x,
            };
            if x > MAX_N {
                return None;
            }
            proof {
                lemma_lcm_bound(acc as nat, x as nat);
                assert(acc * x <= 256) by (nonlinear_arith)
                    requires
                        acc <= 16,
                        x <= 16,
                ;
            }
            acc = lcm(acc, x);
            if acc > MAX_N {
                return None;
            }
            j = j + 1;
        }
        i = i + 1;
    }
    assert forall|k: int, l: int|
        #![trigger levels@[k], levels@[l]]
        0 <= k < levels@.len() && 0 <= l < levels@.len() implies levels@[k] * levels@[l]
        <= usize::MAX by {
        if k > l {
            assert(levels@[l] * levels@[k] == levels@[k] * levels@[l]) by (nonlinear_arith);
        }
    }
    Some(acc)
}

proof fn lemma_lcm_bound(a: nat, b: nat)
    requires
        a > 0,
        b > 0,
    ensures
        lcm_of(a, b) <= a * b,
{
    gcd_is_greatest(a, b, 1);
    let g = gcd_of(a, b);
    vstd::arithmetic::div_mod::lemma_div_is_ordered_by_denominator(a as int, 1, g as int);
    vstd::arithmetic::div_mod::lemma_div_basics(a as int);
    let x = a / g;
    assert(x * b <= a * b) by (nonlinear_arith)
        requires
            x <= a,
    ;
}

/// No array exists for the multiples of `step` below `n`.
pub open spec fn none_below(step: int, n: int, levels: Seq<usize>) -> bool {
    forall|t: int| 0 < t && t * step < n ==> !#[trigger] exists_array(t * step, levels)
}

/// What the search gives for the level counts: the array with the fewest rows,
/// among the multiples of the least common multiple up to the limit.
pub open spec fn constructed(levels: Seq<usize>, r: Option<Selected>) -> bool {
    let step = lcm_pairs_of(levels) as int;
    match r {
        None => levels.len() > MAX_K || none_below(step, MAX_N + 1, levels),
        Some(sel) => {
            let n = sel.array@.len();
            &&& levels.len() <= MAX_K
            &&& 0 < n <= MAX_N
            &&& 0 < step
            &&& n as int % step == 0
            &&& exists_array(n as int, levels)
            &&& none_below(step, n as int, levels)
            &&& exists|cols: Seq<Seq<usize>>|
                #[trigger] first_array(cols, Seq::empty(), n as int, levels) && grid(sel.array@)
                    == rows_of(cols, n)
            &&& sel.column_levels@ == levels
            &&& sel.info.rows == n
            &&& sel.info.cols == levels.len()
            &&& sel.info.method@ == "Backtracking search at N="@ + decimal(n)
            &&& sel.info.label@ == "L"@ + decimal(n) + " (backtrack, "@ + decimal(levels.len())
                + " cols)"@
        },
    }
}

/// The search gives either an array or nothing.
pub proof fn lemma_constructed_exclusive(levels: Seq<usize>, sel: Selected)
    requires
        constructed(levels, Some(sel)),
    ensures
        !constructed(levels, None),
{
    let step = lcm_pairs_of(levels) as int;
    let n = sel.array@.len() as int;
    lemma_fundamental_div_mod(n, step);
    let t = n / step;
    assert(t > 0 && t * step == n) by (nonlinear_arith)
        requires
            n == step * t,
            n > 0,
            step > 0,
    ;
    assert(exists_array(t * step, levels));
}

/// Of two columns at most one comes before the other.
proof fn lemma_column_order(a: Seq<usize>, b: Seq<usize>)
    requires
        a.len() == b.len(),
        column_less(a, b),
    ensures
        !column_less(b, a),
        a != b,
{
    let i = choose|i: int| #[trigger] differs_at(a, b, i);
    if column_less(b, a) {
        let j = choose|j: int| #[trigger] differs_at(b, a, j);
        if i < j {
            assert(b.take(j)[i] == a.take(j)[i]);
        } else if j < i {
            assert(a.take(i)[j] == b.take(i)[j]);
        }
    }
}

/// Of two arrays at most one comes before the other.
proof fn lemma_array_order(a: Seq<Seq<usize>>, b: Seq<Seq<usize>>, n: int, levels: Seq<usize>)
    requires
        complete(a, n, levels),
        complete(b, n, levels),
        array_less(a, b),
    ensures
        !array_less(b, a),
{
    let i = choose|i: int| #[trigger] columns_differ_at(a, b, i);
    assert(a[i].len() == n && b[i].len() == n) by {
        assert(balanced_column(a[i], n, levels[i] as int));
        assert(balanced_column(b[i], n, levels[i] as int));
    }
    lemma_column_order(a[i], b[i]);
    if array_less(b, a) {
        let j = choose|j: int| #[trigger] columns_differ_at(b, a, j);
        assert(a[j].len() == n && b[j].len() == n) by {
            assert(balanced_column(a[j], n, levels[j] as int));
            assert(balanced_column(b[j], n, levels[j] as int));
        }
        lemma_column_order(b[j], a[j]);
        if i < j {
            assert(b.take(j)[i] == a.take(j)[i]);
        } else if j < i {
            assert(a.take(i)[j] == b.take(i)[j]);
        }
    }
}

/// The search gives one array only.
pub proof fn constructed_is_unique(levels: Seq<usize>, a: Selected, b: Selected)
    requires
        constructed(levels, Some(a)),
        constructed(levels, Some(b)),
    ensures
        a@ == b@,
{
    let step = lcm_pairs_of(levels) as int;
    let (m, n) = (a.array@.len() as int, b.array@.len() as int);
    lemma_fundamental_div_mod(m, step);
    lemma_fundamental_div_mod(n, step);
    let (s, t) = (m / step, n / step);
    assert(s > 0 && s * step == m) by (nonlinear_arith)
        requires
            m == step * s,
            m > 0,
            step > 0,
    ;
    assert(t > 0 && t * step == n) by (nonlinear_arith)
        requires
            n == step * t,
            n > 0,
            step > 0,
    ;
    assert(exists_array(s * step, levels) && exists_array(t * step, levels));
    assert(m == n);
    let c = choose|c: Seq<Seq<usize>>|
        #[trigger] first_array(c, Seq::empty(), m, levels) && grid(a.array@) == rows_of(c, m as nat);
    let d = choose|d: Seq<Seq<usize>>|
        #[trigger] first_array(d, Seq::empty(), n, levels) && grid(b.array@) == rows_of(d, n as nat);
    let none = Seq::<Seq<usize>>::empty();
    assert(c.take(0) =~= none && d.take(0) =~= none);
    assert(complete(c, n, levels) && complete(d, n, levels));
    if c != d {
        lemma_array_order(c, d, n, levels);
    }
    assert(a@ =~= b@);
}

/// Searches the smallest array for the level counts, up to the limits on rows
/// and columns.
pub fn try_construct(levels: &[usize]) -> (r: Result<Option<Selected>, super::gf::NotPrimePower>)
    requires
        forall|i: int| 0 <= i < levels@.len() ==> #[trigger] levels@[i] > 0,
    ensures
        r is Ok,
        constructed(levels@, r->Ok_0),
        r matches Ok(Some(sel)) ==> sel.wf() && strength2(grid(sel.array@), sel.column_levels@),
{
    if levels.len() > MAX_K {
        return Ok(None);
    }
    let ghost big = lcm_pairs_of(levels@) as int;
    let step: usize = match lcm_pairs(levels) {
        None => {
            assert forall|t: int| 0 < t && t * big < MAX_N + 1 implies !#[trigger] exists_array(
                t * big,
                levels@,
            ) by {
                assert(t * big >= big) by (nonlinear_arith)
                    requires
                        t > 0,
                        big > 0,
                ;
            }
            return Ok(None);
        },
        Some(step) => step,
    };
    let mut n: usize = step;
    let ghost mut t: int = 1;
    assert(1 * big == big) by (nonlinear_arith);
    assert(none_below(big, n as int, levels@)) by {
        assert forall|s: int| 0 < s && s * big < n implies !#[trigger] exists_array(
            s * big,
            levels@,
        ) by {
            assert(s * big >= big) by (nonlinear_arith)
                requires
                    s > 0,
                    big > 0,
            ;
        }
    }
    while n <= MAX_N
        invariant
            usable(levels@),
            levels@.len() <= MAX_K,
            step == big,
            big == lcm_pairs_of(levels@),
            0 < step <= MAX_N,
            t > 0,
            n == t * big,
            0 < n <= 2 * MAX_N,
            none_below(big, n as int, levels@),
        decreases 2 * MAX_N - n,
    {
        match search(n, levels) {
            Some(array) => {
                let k: usize = levels.len();
                let mut column_levels: Vec<usize> = Vec::new();
                let mut i: usize = 0;
                while i < k
                    invariant
                        k == levels@.len(),
                        i <= k,
                        column_levels@ == levels@.take(i as int),
                    decreases k - i,
                {
                    column_levels.push(levels[i]);
                    assert(column_levels@ =~= levels@.take(i + 1));
                    i = i + 1;
                }
                assert(column_levels@ =~= levels@);
                let mut method: String = String::new();
                method.append("Backtracking search at N=");
                push_decimal(&mut method, n as u64);
                let mut label: String = String::new();
                label.append("L");
                push_decimal(&mut label, n as u64);
                label.append(" (backtrack, ");
                push_decimal(&mut label, k as u64);
                label.append(" cols)");
                proof {
                    assert(method@ =~= "Backtracking search at N="@ + decimal(n as nat));
                    assert(label@ =~= "L"@ + decimal(n as nat) + " (backtrack, "@ + decimal(
                        levels@.len(),
                    ) + " cols)"@);
                    vstd::arithmetic::div_mod::lemma_mod_multiples_basic(t, big);
                    let cols = choose|cols: Seq<Seq<usize>>|
                        #[trigger] first_array(cols, Seq::empty(), n as int, levels@) && grid(
                            array@,
                        ) == rows_of(cols, n as nat);
                    let rows = array@.len();
                    assert(first_array(cols, Seq::empty(), rows as int, levels@));
                    assert(rows as int % big == 0);
                    assert(none_below(big, rows as int, levels@));
                }
                let info: ArrayInfo = ArrayInfo { rows: n, cols: k, label, method };
                return Ok(Some(Selected { info, array, column_levels }));
            },
            None => {},
        }
        proof {
            assert((t + 1) * big == t * big + big) by (nonlinear_arith);
            assert forall|s: int| 0 < s && s * big < n + step implies !#[trigger] exists_array(
                s * big,
                levels@,
            ) by {
                if s * big >= n {
                    assert(s == t) by (nonlinear_arith)
                        requires
                            t * big <= s * big < t * big + big,
                            big > 0,
                    ;
                }
            }
            t = t + 1;
        }
        n = n + step;
    }
    assert(none_below(big, MAX_N + 1, levels@)) by {
        assert forall|s: int| 0 < s && s * big < MAX_N + 1 implies !#[trigger] exists_array(
            s * big,
            levels@,
        ) by {}
    }
    Ok(None)
}

} // verus!
