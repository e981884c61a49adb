//! The search by backtracking misses no array: whatever the order of its rows, an
//! array can be brought into the form that is searched for.
use vstd::arithmetic::div_mod::{lemma_fundamental_div_mod, lemma_fundamental_div_mod_converse};
use vstd::prelude::*;

use super::backtrack::{
    balanced_column, balanced_pair, canonical, complete, divisible, entries, exists_array,
    lemma_tally_grows, two_columns,
};
use super::counting::{
    lemma_tally_carried, lemma_tally_same, lemma_total_equal, lemma_total_parts, tally, total,
};
use super::strength::{
    balanced, cells_in_range, lemma_entry_join, lemma_entry_split, lemma_pair_count_tally, pair_code,
    pair_count, strength2,
};

verus! {

/// `cols` are the columns of an array of `n` rows: balanced and pairwise balanced.
pub open spec fn balanced_columns(cols: Seq<Seq<usize>>, n: int, levels: Seq<usize>) -> bool {
    &&& cols.len() == levels.len()
    &&& forall|i: int|
        0 <= i < cols.len() ==> balanced_column(#[trigger] cols[i], n, levels[i] as int)
    &&& forall|i: int, j: int|
        0 <= i < j < cols.len() ==> balanced_pair(
            #[trigger] cols[i],
            #[trigger] cols[j],
            n,
            levels[i] as int,
            levels[j] as int,
        )
}

/// Where row `r` stands once the rows are in the order of column `c`, each level
/// of which is shown `per` times.
spec fn place(c: Seq<usize>, per: int, r: int) -> int {
    c[r] * per + tally(entries(c), r as nat, c[r] as int)
}

/// The row that stands at `k` once the rows are in the order of column `c`.
spec fn row_at(c: Seq<usize>, per: int, n: int, k: int) -> int {
    choose|r: int| 0 <= r < n && #[trigger] place(c, per, r) == k
}

/// A column with its rows in the order of column `c`.
spec fn sorted_by(d: Seq<usize>, c: Seq<usize>, per: int, n: int) -> Seq<usize> {
    Seq::new(n as nat, |k: int| d[row_at(c, per, n, k)])
}

/// A value that is taken more than `m` times has an occurrence behind exactly `m`
/// others.
proof fn lemma_occurrence(f: spec_fn(int) -> int, n: nat, v: int, m: nat) -> (r: int)
    requires
        tally(f, n, v) > m,
    ensures
        0 <= r < n,
        f(r) == v,
        tally(f, r as nat, v) == m,
    decreases n,
{
    if tally(f, (n - 1) as nat, v) > m {
        lemma_occurrence(f, (n - 1) as nat, v, m)
    } else {
        n - 1
    }
}

/// The places are those of the rows, and no two rows share one.
proof fn lemma_place(c: Seq<usize>, n: int, q: int, per: int, r: int)
    requires
        balanced_column(c, n, q),
        n == q * per,
        per == n / q,
        0 <= r < n,
    ensures
        0 <= place(c, per, r) < n,
        place(c, per, r) / per == c[r],
        place(c, per, r) % per == tally(entries(c), r as nat, c[r] as int),
        per > 0,
{
    let (f, v) = (entries(c), c[r] as int);
    let t = tally(f, r as nat, v);
    assert(c[r] < q);
    assert(tally(f, n as nat, v) == per);
    assert(tally(f, (r + 1) as nat, v) == t + 1);
    lemma_tally_grows(f, (r + 1) as nat, n as nat, v);
    lemma_fundamental_div_mod_converse(v * per + t, per, v, t as int);
    assert(0 <= v * per && v * per + per <= q * per) by (nonlinear_arith)
        requires
            0 <= v < q,
            per > 0,
    ;
}

proof fn lemma_places_differ(c: Seq<usize>, n: int, q: int, per: int, r: int, s: int)
    requires
        balanced_column(c, n, q),
        n == q * per,
        per == n / q,
        0 <= r < s < n,
    ensures
        place(c, per, r) != place(c, per, s),
{
    lemma_place(c, n, q, per, r);
    lemma_place(c, n, q, per, s);
    if c[r] == c[s] {
        let (f, v) = (entries(c), c[r] as int);
        assert(tally(f, (r + 1) as nat, v) == tally(f, r as nat, v) + 1);
        lemma_tally_grows(f, (r + 1) as nat, s as nat, v);
    }
}

/// Every place has its row.
proof fn lemma_row_at(c: Seq<usize>, n: int, q: int, per: int, k: int)
    requires
        balanced_column(c, n, q),
        n == q * per,
        per == n / q,
        per > 0,
        0 <= k < n,
    ensures
        0 <= row_at(c, per, n, k) < n,
        place(c, per, row_at(c, per, n, k)) == k,
        c[row_at(c, per, n, k)] == k / per,
{
    let f = entries(c);
    let (v, m) = (k / per, k % per);
    lemma_fundamental_div_mod(k, per);
    assert(0 <= v < q) by (nonlinear_arith)
        requires
            k == per * v + m,
            0 <= m < per,
            0 <= k < q * per,
            per > 0,
    ;
    assert(tally(f, n as nat, v) == per);
    let r = lemma_occurrence(f, n as nat, v, m as nat);
    assert(place(c, per, r) == k) by {
        assert(v * per == per * v) by (nonlinear_arith);
    }
    lemma_place(c, n, q, per, row_at(c, per, n, k));
}

/// What is counted over the rows does not depend on their order.
proof fn lemma_tally_sorted(
    f: spec_fn(int) -> int,
    g: spec_fn(int) -> int,
    c: Seq<usize>,
    n: int,
    q: int,
    per: int,
    e: int,
)
    requires
        balanced_column(c, n, q),
        n == q * per,
        per == n / q,
        per > 0,
        forall|k: int| 0 <= k < n ==> #[trigger] g(k) == f(row_at(c, per, n, k)),
    ensures
        tally(g, n as nat, e) == tally(f, n as nat, e),
{
    let to = |k: int| row_at(c, per, n, k);
    let from = |r: int| place(c, per, r);
    assert forall|k: int| 0 <= k < n && g(k) == e implies 0 <= #[trigger] to(k) < n && f(to(k))
        == e by {
        lemma_row_at(c, n, q, per, k);
    }
    assert forall|k: int, l: int|
        0 <= k < n && 0 <= l < n && #[trigger] to(k) == #[trigger] to(l) implies k == l by {
        lemma_row_at(c, n, q, per, k);
        lemma_row_at(c, n, q, per, l);
    }
    lemma_tally_carried(g, f, n as nat, e, e, to);
    assert forall|r: int, s: int|
        0 <= r < n && 0 <= s < n && #[trigger] from(r) == #[trigger] from(s) implies r == s by {
        if r < s {
            lemma_places_differ(c, n, q, per, r, s);
        } else if s < r {
            lemma_places_differ(c, n, q, per, s, r);
        }
    }
    assert forall|r: int| 0 <= r < n && f(r) == e implies 0 <= #[trigger] from(r) < n && g(from(r))
        == e by {
        lemma_place(c, n, q, per, r);
        let k = from(r);
        lemma_row_at(c, n, q, per, k);
        let s = row_at(c, per, n, k);
        assert(from(s) == from(r));
        assert(g(k) == f(s));
    }
    lemma_tally_carried(f, g, n as nat, e, e, from);
}

/// The search misses no array: where some columns are balanced and pairwise
/// balanced, in whatever order their rows stand, there are such columns with a
/// canonical first one, which is the form that is searched for.
pub proof fn no_array_is_missed(cols: Seq<Seq<usize>>, n: int, levels: Seq<usize>)
    requires
        divisible(n, levels),
        balanced_columns(cols, n, levels),
    ensures
        exists_array(n, levels),
{
    if levels.len() == 0 {
        assert(complete(cols, n, levels));
    } else {
        let c = cols[0];
        let q = levels[0] as int;
        assert(balanced_column(c, n, q));
        if n == 0 {
            assert(c =~= canonical(n, q));
            assert(complete(cols, n, levels));
        } else {
            assert(c[0] < q);
            assert(n % q == 0);
            let per = n / q;
            lemma_fundamental_div_mod(n, q);
            lemma_place(c, n, q, per, 0);
            let new = Seq::new(cols.len(), |i: int| sorted_by(cols[i], c, per, n));
            assert forall|i: int| 0 <= i < new.len() implies balanced_column(
                #[trigger] new[i],
                n,
                levels[i] as int,
            ) by {
                assert(balanced_column(cols[i], n, levels[i] as int));
                assert forall|k: int| 0 <= k < n implies #[trigger] new[i][k] < levels[i] by {
                    lemma_row_at(c, n, q, per, k);
                    assert(cols[i][row_at(c, per, n, k)] < levels[i]);
                }
                assert forall|v: int| 0 <= v < levels[i] implies #[trigger] tally(
                    entries(new[i]),
                    n as nat,
                    v,
                ) == n / levels[i] as int by {
                    lemma_tally_sorted(entries(cols[i]), entries(new[i]), c, n, q, per, v);
                    assert(tally(entries(cols[i]), n as nat, v) == n / levels[i] as int);
                }
            }
            assert forall|i: int, j: int| 0 <= i < j < new.len() implies balanced_pair(
                #[trigger] new[i],
                #[trigger] new[j],
                n,
                levels[i] as int,
                levels[j] as int,
            ) by {
                let (qi, qj) = (levels[i] as int, levels[j] as int);
                assert(balanced_pair(cols[i], cols[j], n, qi, qj));
                assert forall|e: int| 0 <= e < qi * qj implies #[trigger] tally(
                    two_columns(new[i], new[j], qj),
                    n as nat,
                    e,
                ) * (qi * qj) == n by {
                    lemma_tally_sorted(
                        two_columns(cols[i], cols[j], qj),
                        two_columns(new[i], new[j], qj),
                        c,
                        n,
                        q,
                        per,
                        e,
                    );
                    assert(tally(two_columns(cols[i], cols[j], qj), n as nat, e) * (qi * qj) == n);
                }
            }
            assert(new[0] =~= canonical(n, q)) by {
                assert forall|k: int| 0 <= k < n implies new[0][k] == canonical(n, q)[k] by {
                    lemma_row_at(c, n, q, per, k);
                }
            }
            assert(complete(new, n, levels));
        }
    }
}

/// The columns of an array.
pub open spec fn columns_of(g: Seq<Seq<usize>>, k: nat) -> Seq<Seq<usize>> {
    Seq::new(k, |i: int| Seq::new(g.len(), |r: int| g[r][i]))
}

/// In a balanced pair of columns a pair of levels is shown in every product-th
/// row.
proof fn lemma_pair_tally(g: Seq<Seq<usize>>, levels: Seq<usize>, i: int, j: int, x: int, y: int)
    requires
        strength2(g, levels),
        0 <= i < j < levels.len(),
        0 <= x < levels[i],
        0 <= y < levels[j],
    ensures
        tally(pair_code(g, i, j, levels[j] as int), g.len(), x * levels[j] + y) * (levels[i]
            * levels[j]) == g.len(),
{
    let (qi, qj) = (levels[i] as int, levels[j] as int);
    assert(balanced(g, i, j, qi, qj));
    assert(pair_count(g, i, j, x, y) * (qi * qj) == g.len());
    lemma_pair_count_tally(g, i, j, qi, qj, x, y, g.len());
    assert(g.take(g.len() as int) =~= g);
}

/// The columns of an array of strength 2 are balanced.
proof fn lemma_column(g: Seq<Seq<usize>>, levels: Seq<usize>, i: int, v: int)
    requires
        levels.len() >= 2,
        forall|k: int| 0 <= k < levels.len() ==> #[trigger] levels[k] > 0,
        cells_in_range(g, levels),
        strength2(g, levels),
        0 <= i < levels.len(),
        0 <= v < levels[i],
    ensures
        tally(entries(columns_of(g, levels.len())[i]), g.len(), v) * levels[i] == g.len(),
{
    let n = g.len();
    let j = if i == 0 {
        1int
    } else {
        0
    };
    let (qi, qj) = (levels[i] as int, levels[j] as int);
    let col = columns_of(g, levels.len())[i];
    let f = entries(col);
    let p = |r: int|
        if g[r][i] == v {
            g[r][j] as int
        } else {
            -1
        };
    assert forall|r: int| 0 <= r < n implies (0 <= #[trigger] p(r) < qj <==> f(r) == v) by {
        assert(col[r] == g[r][i]);
        assert(g[r][j] < levels[j]);
    }
    lemma_total_parts(p, f, n, qj as nat, v);
    assert forall|y: int| 0 <= y < qj implies #[trigger] tally(p, n, y) * (qi * qj) == n by {
        if i < j {
            lemma_pair_tally(g, levels, i, j, v, y);
            let h = pair_code(g, i, j, qj);
            let e = v * qj + y;
            lemma_entry_join(v, y, qi, qj);
            assert forall|r: int| 0 <= r < n implies (#[trigger] p(r) == y <==> h(r) == e) by {
                assert(g[r][i] < levels[i] && g[r][j] < levels[j]);
                lemma_entry_join(g[r][i] as int, g[r][j] as int, qi, qj);
            }
            lemma_tally_same(p, h, n, y, e);
        } else {
            lemma_pair_tally(g, levels, j, i, y, v);
            let h = pair_code(g, j, i, qi);
            let e = y * qi + v;
            lemma_entry_join(y, v, qj, qi);
            assert forall|r: int| 0 <= r < n implies (#[trigger] p(r) == y <==> h(r) == e) by {
                assert(g[r][i] < levels[i] && g[r][j] < levels[j]);
                lemma_entry_join(g[r][j] as int, g[r][i] as int, qj, qi);
            }
            lemma_tally_same(p, h, n, y, e);
            assert(qi * qj == qj * qi) by (nonlinear_arith);
        }
    }
    let c = tally(p, n, 0);
    assert(c * (qi * qj) == n);
    assert forall|y: int| 0 <= y < qj implies #[trigger] tally(p, n, y) == c by {
        let d = tally(p, n, y);
        assert(d * (qi * qj) == n);
        assert(d == c) by (nonlinear_arith)
            requires
                d * (qi * qj) == c * (qi * qj),
                qi > 0,
                qj > 0,
        ;
    }
    lemma_total_equal(p, n, qj as nat, c);
    assert(total(p, n, qj as nat) == c * qj);
    assert(c * qj * qi == c * (qi * qj)) by (nonlinear_arith);
}

/// The search misses no array of strength 2: where one with these level counts
/// exists, an array of as many rows is found.
pub proof fn no_strength2_array_is_missed(g: Seq<Seq<usize>>, levels: Seq<usize>)
    requires
        levels.len() >= 2,
        forall|k: int| 0 <= k < levels.len() ==> #[trigger] levels[k] > 0,
        cells_in_range(g, levels),
        strength2(g, levels),
    ensures
        exists_array(g.len() as int, levels),
{
    let n = g.len() as int;
    let cols = columns_of(g, levels.len());
    assert forall|i: int| 0 <= i < levels.len() implies n % (#[trigger] levels[i] as int) == 0
        && balanced_column(cols[i], n, levels[i] as int) by {
        let q = levels[i] as int;
        let col = cols[i];
        assert forall|r: int| 0 <= r < n implies #[trigger] col[r] < q by {
            assert(g[r][i] < levels[i]);
        }
        assert forall|v: int| 0 <= v < q implies #[trigger] tally(entries(col), n as nat, v) == n
            / q by {
            lemma_column(g, levels, i, v);
            lemma_fundamental_div_mod_converse(n, q, tally(entries(col), n as nat, v) as int, 0);
        }
        lemma_column(g, levels, i, 0);
        lemma_fundamental_div_mod_converse(n, q, tally(entries(col), n as nat, 0) as int, 0);
    }
    assert forall|i: int, j: int| 0 <= i < j < levels.len() implies n % (#[trigger] levels[i]
        * #[trigger] levels[j]) == 0 && balanced_pair(
        cols[i],
        cols[j],
        n,
        levels[i] as int,
        levels[j] as int,
    ) by {
        let (qi, qj) = (levels[i] as int, levels[j] as int);
        let f = two_columns(cols[i], cols[j], qj);
        let h = pair_code(g, i, j, qj);
        assert forall|e: int| 0 <= e < qi * qj implies #[trigger] tally(f, n as nat, e) * (qi * qj)
            == n by {
            lemma_entry_split(e, qi, qj);
            lemma_pair_tally(g, levels, i, j, e / qj, e % qj);
            assert forall|r: int| 0 <= r < n implies (#[trigger] f(r) == e <==> h(r) == e) by {
                assert(cols[i][r] == g[r][i] && cols[j][r] == g[r][j]);
            }
            lemma_tally_same(f, h, n as nat, e, e);
        }
        assert(qi * qj > 0) by (nonlinear_arith)
            requires
                qi > 0,
                qj > 0,
        ;
        let c = tally(f, n as nat, 0) as int;
        assert(c * (qi * qj) == n);
        lemma_fundamental_div_mod_converse(n, qi * qj, c, 0);
    }
    assert forall|i: int, j: int| 0 <= i < j < cols.len() implies balanced_pair(
        #[trigger] cols[i],
        #[trigger] cols[j],
        n,
        levels[i] as int,
        levels[j] as int,
    ) by {
        assert(n % (levels[i] * levels[j]) == 0);
    }
    assert forall|i: int| 0 <= i < cols.len() implies balanced_column(
        #[trigger] cols[i],
        n,
        levels[i] as int,
    ) by {
        assert(n % (levels[i] as int) == 0);
    }
    no_array_is_missed(cols, n, levels);
}

} // verus!
