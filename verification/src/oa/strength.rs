//! Strength-2 orthogonality: in every pair of columns, every pair of levels
//! appears equally often.
use vstd::arithmetic::div_mod::{lemma_fundamental_div_mod, lemma_fundamental_div_mod_converse};
use vstd::prelude::*;

use super::counting::{lemma_uniform, tally};
use crate::text::{decimal, push_decimal};

verus! {

/// The rows of an array as sequences.
pub open spec fn grid(array: Seq<Vec<usize>>) -> Seq<Seq<usize>> {
    array.map_values(|row: Vec<usize>| row@)
}

/// Number of rows that show `x` in column `i` and `y` in column `j`.
pub open spec fn pair_count(g: Seq<Seq<usize>>, i: int, j: int, x: int, y: int) -> nat
    decreases g.len(),
{
    if g.len() == 0 {
        0
    } else {
        pair_count(g.drop_last(), i, j, x, y) + (if g.last()[i] == x && g.last()[j] == y {
            1nat
        } else {
            0
        })
    }
}

/// The cells of columns `i` and `j` are below their level counts.
pub open spec fn pair_in_range(g: Seq<Seq<usize>>, i: int, j: int, qi: int, qj: int) -> bool {
    forall|r: int| 0 <= r < g.len() ==> #[trigger] g[r][i] < qi && g[r][j] < qj
}

/// Every pair of levels appears in columns `i` and `j` equally often.
pub open spec fn balanced(g: Seq<Seq<usize>>, i: int, j: int, qi: int, qj: int) -> bool {
    &&& pair_in_range(g, i, j, qi, qj)
    &&& forall|x: int, y: int|
        0 <= x < qi && 0 <= y < qj ==> #[trigger] pair_count(g, i, j, x, y) * (qi * qj) == g.len()
}

/// Every pair of columns is balanced.
pub open spec fn strength2(g: Seq<Seq<usize>>, levels: Seq<usize>) -> bool {
    forall|i: int, j: int|
        0 <= i < j < levels.len() ==> #[trigger] balanced(
            g,
            i,
            j,
            levels[i] as int,
            levels[j] as int,
        )
}

/// Every row has one cell per column, below the column's level count.
pub open spec fn cells_in_range(g: Seq<Seq<usize>>, levels: Seq<usize>) -> bool {
    &&& forall|r: int| 0 <= r < g.len() ==> #[trigger] g[r].len() == levels.len()
    &&& forall|r: int, c: int|
        0 <= r < g.len() && 0 <= c < levels.len() ==> #[trigger] g[r][c] < levels[c]
}

/// What keeps an array from having strength 2.
#[derive(Debug, Clone, Copy, PartialEq, Eq, Structural)]
pub enum Strength2Fault {
    NotDivisible { i: usize, j: usize, rows: usize, product: usize },
    /// `second` tells whether the column is the second one of its pair.
    OutOfRange { col: usize, value: usize, level: usize, second: bool },
    Unbalanced { i: usize, j: usize, x: usize, y: usize, count: usize, expected: usize },
}

/// The sentence on a fault.
pub open spec fn fault_text(f: Strength2Fault) -> Seq<char> {
    match f {
        Strength2Fault::NotDivisible { i, j, rows, product } => "cols "@ + decimal(i as nat) + ","@
            + decimal(j as nat) + ": N="@ + decimal(rows as nat) + " not divisible by qi*qj="@
            + decimal(product as nat),
        Strength2Fault::OutOfRange { col, value, level, second } => "col "@ + decimal(col as nat)
            + " value "@ + decimal(value as nat) + (if second {
            " ≥ qj="@
        } else {
            " ≥ qi="@
        }) + decimal(level as nat),
        Strength2Fault::Unbalanced { i, j, x, y, count, expected } => "cols "@ + decimal(i as nat)
            + ","@ + decimal(j as nat) + ": combo ("@ + decimal(x as nat) + ","@ + decimal(y as nat)
            + ") appears "@ + decimal(count as nat) + " times, expected "@ + decimal(
            expected as nat,
        ),
    }
}

impl Strength2Fault {
    /// The sentence on the fault.
    pub fn to_text(&self) -> (s: String)
        ensures
            s@ == fault_text(*self),
    {
        match self {
            Strength2Fault::NotDivisible { i, j, rows, product } => {
                let mut s: String = "cols ".to_owned();
                push_decimal(&mut s, *i as u64);
                s.append(",");
                push_decimal(&mut s, *j as u64);
                s.append(": N=");
                push_decimal(&mut s, *rows as u64);
                s.append(" not divisible by qi*qj=");
                push_decimal(&mut s, *product as u64);
                s
            },
            Strength2Fault::OutOfRange { col, value, level, second } => {
                let mut s: String = "col ".to_owned();
                push_decimal(&mut s, *col as u64);
                s.append(" value ");
                push_decimal(&mut s, *value as u64);
                if *second {
                    s.append(" ≥ qj=");
                } else {
                    s.append(" ≥ qi=");
                }
                push_decimal(&mut s, *level as u64);
                s
            },
            Strength2Fault::Unbalanced { i, j, x, y, count, expected } => {
                let mut s: String = "cols ".to_owned();
                push_decimal(&mut s, *i as u64);
                s.append(",");
                push_decimal(&mut s, *j as u64);
                s.append(": combo (");
                push_decimal(&mut s, *x as u64);
                s.append(",");
                push_decimal(&mut s, *y as u64);
                s.append(") appears ");
                push_decimal(&mut s, *count as u64);
                s.append(" times, expected ");
                push_decimal(&mut s, *expected as u64);
                s
            },
        }
    }
}

/// The first row, from `r` on, with a cell of column `i` or `j` out of range.
pub open spec fn row_fault(
    g: Seq<Seq<usize>>,
    i: int,
    j: int,
    qi: usize,
    qj: usize,
    r: nat,
) -> Option<Strength2Fault>
    decreases g.len() - r,
{
    if r >= g.len() {
        None
    } else if g[r as int][i] >= qi {
        Some(
            Strength2Fault::OutOfRange {
                col: i as usize,
                value: g[r as int][i],
                level: qi,
                second: false,
            },
        )
    } else if g[r as int][j] >= qj {
        Some(
            Strength2Fault::OutOfRange {
                col: j as usize,
                value: g[r as int][j],
                level: qj,
                second: true,
            },
        )
    } else {
        row_fault(g, i, j, qi, qj, r + 1)
    }
}

/// The first pair of levels, from number `e` on, that appears too rarely or
/// too often. Pair number `e` is (e / qj, e mod qj).
pub open spec fn level_fault(
    g: Seq<Seq<usize>>,
    i: int,
    j: int,
    qi: usize,
    qj: usize,
    e: nat,
) -> Option<Strength2Fault>
    decreases qi * qj - e,
{
    if e >= qi * qj {
        None
    } else if pair_count(g, i, j, e as int / qj as int, e as int % qj as int) != g.len() as int / (
    qi * qj) {
        Some(
            Strength2Fault::Unbalanced {
                i: i as usize,
                j: j as usize,
                x: (e as int / qj as int) as usize,
                y: (e as int % qj as int) as usize,
                count: pair_count(g, i, j, e as int / qj as int, e as int % qj as int) as usize,
                expected: (g.len() as int / (qi * qj)) as usize,
            },
        )
    } else {
        level_fault(g, i, j, qi, qj, e + 1)
    }
}

/// The first fault of columns `i` and `j`.
pub open spec fn pair_fault(
    g: Seq<Seq<usize>>,
    i: int,
    j: int,
    qi: usize,
    qj: usize,
) -> Option<Strength2Fault> {
    if qi * qj != 0 && g.len() as int % (qi * qj) != 0 {
        Some(
            Strength2Fault::NotDivisible {
                i: i as usize,
                j: j as usize,
                rows: g.len() as usize,
                product: (qi * qj) as usize,
            },
        )
    } else {
        match row_fault(g, i, j, qi, qj, 0) {
            Some(f) => Some(f),
            None => level_fault(g, i, j, qi, qj, 0),
        }
    }
}

/// The first fault of the array, from the column pair (i, j) on.
pub open spec fn first_fault(g: Seq<Seq<usize>>, levels: Seq<usize>, i: nat, j: nat) -> Option<
    Strength2Fault,
>
    decreases levels.len() - i, levels.len() - j,
{
    if i >= levels.len() {
        None
    } else if j >= levels.len() {
        first_fault(g, levels, i + 1, i + 2)
    } else {
        match pair_fault(g, i as int, j as int, levels[i as int], levels[j as int]) {
            Some(f) => Some(f),
            None => first_fault(g, levels, i, j + 1),
        }
    }
}

proof fn lemma_row_fault(g: Seq<Seq<usize>>, i: int, j: int, qi: usize, qj: usize, r: nat)
    ensures
        row_fault(g, i, j, qi, qj, r) is None <==> (forall|s: int|
            r <= s < g.len() ==> #[trigger] g[s][i] < qi && g[s][j] < qj),
    decreases g.len() - r,
{
    if r < g.len() {
        lemma_row_fault(g, i, j, qi, qj, r + 1);
        assert(g[r as int][i] == g[r as int][i]);
    }
}

proof fn lemma_level_fault(g: Seq<Seq<usize>>, i: int, j: int, qi: usize, qj: usize, e: nat)
    ensures
        level_fault(g, i, j, qi, qj, e) is None <==> (forall|d: int|
            e <= d < qi * qj ==> #[trigger] pair_count(
                g,
                i,
                j,
                d / (qj as int),
                d % (qj as int),
            ) == g.len() as int / (qi * qj)),
    decreases qi * qj - e,
{
    if e < qi * qj {
        lemma_level_fault(g, i, j, qi, qj, e + 1);
    }
}

/// A pair of columns has no fault exactly where it is balanced.
pub proof fn lemma_pair_fault(g: Seq<Seq<usize>>, i: int, j: int, qi: usize, qj: usize)
    ensures
        pair_fault(g, i, j, qi, qj) is None <==> balanced(g, i, j, qi as int, qj as int),
{
    let n = g.len() as int;
    let m = qi * qj;
    lemma_row_fault(g, i, j, qi, qj, 0);
    lemma_level_fault(g, i, j, qi, qj, 0);
    assert(m >= 0) by (nonlinear_arith)
        requires
            m == qi * qj,
    ;
    if m == 0 {
        assert forall|x: int, y: int| 0 <= x < qi && 0 <= y < qj implies #[trigger] pair_count(
            g,
            i,
            j,
            x,
            y,
        ) * (qi * qj) == g.len() by {
            assert(false) by (nonlinear_arith)
                requires
                    0 <= x < qi,
                    0 <= y < qj,
                    qi * qj == 0,
            ;
        }
    } else {
        assert(qi > 0 && qj > 0) by (nonlinear_arith)
            requires
                qi * qj > 0,
                qi >= 0,
                qj >= 0,
        ;
        lemma_fundamental_div_mod(n, m);
        if balanced(g, i, j, qi as int, qj as int) {
            let c = pair_count(g, i, j, 0, 0);
            lemma_fundamental_div_mod_converse(n, m, c as int, 0);
            assert(n == m * c) by (nonlinear_arith)
                requires
                    c * m == n,
            ;
            assert forall|d: int| 0 <= d < m implies #[trigger] pair_count(
                g,
                i,
                j,
                d / (qj as int),
                d % (qj as int),
            ) == n / m by {
                lemma_entry_split(d, qi as int, qj as int);
                let k = pair_count(g, i, j, d / (qj as int), d % (qj as int));
                assert(k * (qi * qj) == n);
                assert(n == m * k) by (nonlinear_arith)
                    requires
                        k * m == n,
                ;
                lemma_fundamental_div_mod_converse(n, m, k as int, 0);
            }
        }
        if pair_fault(g, i, j, qi, qj) is None {
            assert forall|x: int, y: int| 0 <= x < qi && 0 <= y < qj implies #[trigger] pair_count(
                g,
                i,
                j,
                x,
                y,
            ) * (qi * qj) == g.len() by {
                let d = x * qj + y;
                lemma_entry_join(x, y, qi as int, qj as int);
                assert(pair_count(g, i, j, d / (qj as int), d % (qj as int)) == n / m);
                assert((n / m) * m == m * (n / m)) by (nonlinear_arith);
            }
        }
    }
}

/// Pair number `d` names two levels.
pub proof fn lemma_entry_split(d: int, qi: int, qj: int)
    requires
        qj > 0,
        0 <= d < qi * qj,
    ensures
        0 <= d / qj < qi,
        0 <= d % qj < qj,
        (d / qj) * qj + d % qj == d,
{
    lemma_fundamental_div_mod(d, qj);
    assert(0 <= d / qj < qi && (d / qj) * qj + d % qj == d) by (nonlinear_arith)
        requires
            qj > 0,
            0 <= d < qi * qj,
            d == qj * (d / qj) + d % qj,
            0 <= d % qj < qj,
    ;
}

/// Two levels name a pair number.
pub proof fn lemma_entry_join(x: int, y: int, qi: int, qj: int)
    requires
        0 <= x < qi,
        0 <= y < qj,
    ensures
        0 <= x * qj,
        0 <= x * qj + y < qi * qj,
        (x * qj + y) / qj == x,
        (x * qj + y) % qj == y,
{
    assert(0 <= x * qj && x * qj + y < qi * qj) by (nonlinear_arith)
        requires
            0 <= x < qi,
            0 <= y < qj,
    ;
    lemma_fundamental_div_mod_converse(x * qj + y, qj, x, y);
}

proof fn lemma_first_fault(g: Seq<Seq<usize>>, levels: Seq<usize>, i: nat, j: nat)
    requires
        i < j,
    ensures
        first_fault(g, levels, i, j) is None <==> (forall|a: int, b: int|
            0 <= a < b < levels.len() && (a > i || (a == i && b >= j)) ==> #[trigger] balanced(
                g,
                a,
                b,
                levels[a] as int,
                levels[b] as int,
            )),
    decreases levels.len() - i, levels.len() - j,
{
    if i < levels.len() {
        if j >= levels.len() {
            lemma_first_fault(g, levels, i + 1, i + 2);
        } else {
            lemma_first_fault(g, levels, i, j + 1);
            lemma_pair_fault(g, i as int, j as int, levels[i as int], levels[j as int]);
        }
    }
}

/// An array has no fault exactly where it has strength 2.
pub proof fn no_fault_is_strength2(g: Seq<Seq<usize>>, levels: Seq<usize>)
    ensures
        first_fault(g, levels, 0, 1) is None <==> strength2(g, levels),
{
    lemma_first_fault(g, levels, 0, 1);
}

proof fn lemma_pair_count_bound(g: Seq<Seq<usize>>, i: int, j: int, x: int, y: int)
    ensures
        pair_count(g, i, j, x, y) <= g.len(),
    decreases g.len(),
{
    if g.len() > 0 {
        lemma_pair_count_bound(g.drop_last(), i, j, x, y);
    }
}

/// Counts of all level pairs of columns `i` and `j`, where their cells are in
/// range; the first cell out of range otherwise.
fn count_pairs(array: &[Vec<usize>], i: usize, j: usize, qi: usize, qj: usize) -> (r: Result<
    Vec<usize>,
    Strength2Fault,
>)
    requires
        forall|s: int| 0 <= s < array@.len() ==> i < (#[trigger] array@[s])@.len() && j < array@[s]@.len(),
        qi * qj <= usize::MAX,
    ensures
        match r {
            Ok(counts) => row_fault(grid(array@), i as int, j as int, qi, qj, 0) is None
                && counts@.len() == qi * qj && forall|e: int|
                0 <= e < qi * qj ==> #[trigger] counts@[e] == pair_count(
                    grid(array@),
                    i as int,
                    j as int,
                    e / (qj as int),
                    e % (qj as int),
                ),
            Err(f) => row_fault(grid(array@), i as int, j as int, qi, qj, 0) == Some(f),
        },
{
    let ghost g = grid(array@);
    let size: usize = qi * qj;
    let mut counts: Vec<usize> = Vec::new();
    let mut e: usize = 0;
    while e < size
        invariant
            e <= size,
            counts@.len() == e,
            forall|d: int| 0 <= d < e ==> #[trigger] counts@[d] == 0,
        decreases size - e,
    {
        counts.push(0);
        e = e + 1;
    }
    let mut s: usize = 0;
    while s < array.len()
        invariant
            forall|t: int|
                0 <= t < array@.len() ==> i < (#[trigger] array@[t])@.len() && j < array@[t]@.len(),
            size == qi * qj,
            g == grid(array@),
            s <= array@.len(),
            counts@.len() == size,
            row_fault(g, i as int, j as int, qi, qj, 0) == row_fault(
                g,
                i as int,
                j as int,
                qi,
                qj,
                s as nat,
            ),
            forall|d: int|
                0 <= d < size ==> #[trigger] counts@[d] == pair_count(
                    g.take(s as int),
                    i as int,
                    j as int,
                    d / (qj as int),
                    d % (qj as int),
                ),
        decreases array@.len() - s,
    {
        let row: &Vec<usize> = &array[s];
        assert(g[s as int] == row@);
        let x: usize = row[i];
        let y: usize = row[j];
        if x >= qi {
            return Err(Strength2Fault::OutOfRange { col: i, value: x, level: qi, second: false });
        }
        if y >= qj {
            return Err(Strength2Fault::OutOfRange { col: j, value: y, level: qj, second: true });
        }
        proof {
            lemma_entry_join(x as int, y as int, qi as int, qj as int);
            assert(g.take(s + 1).drop_last() =~= g.take(s as int));
            lemma_pair_count_bound(g.take(s as int), i as int, j as int, x as int, y as int);
        }
        let at: usize = x * qj + y;
        let ghost before = counts@;
        let c: usize = counts[at];
        counts.set(at, c + 1);
        proof {
            assert forall|d: int| 0 <= d < size implies #[trigger] counts@[d] == pair_count(
                g.take(s + 1),
                i as int,
                j as int,
                d / (qj as int),
                d % (qj as int),
            ) by {
                lemma_entry_split(d, qi as int, qj as int);
                assert(before[d] == pair_count(
                    g.take(s as int),
                    i as int,
                    j as int,
                    d / (qj as int),
                    d % (qj as int),
                ));
            }
        }
        s = s + 1;
    }
    assert(g.take(s as int) =~= g);
    Ok(counts)
}

/// Strength-2 check: every pair of columns shows every (a, b) combination
/// exactly N / (q_a * q_b) times. The error is the first fault found.
pub fn verify_strength2(array: &[Vec<usize>], column_levels: &[usize]) -> (r: Result<
    (),
    Strength2Fault,
>)
    requires
        forall|s: int|
            0 <= s < array@.len() ==> column_levels@.len() <= (#[trigger] array@[s])@.len(),
        forall|i: int, j: int|
            #![trigger column_levels@[i], column_levels@[j]]
            0 <= i < j < column_levels@.len() ==> column_levels@[i] * column_levels@[j]
                <= usize::MAX,
    ensures
        r is Ok <==> strength2(grid(array@), column_levels@),
        match r {
            Ok(_) => first_fault(grid(array@), column_levels@, 0, 1) is None,
            Err(f) => first_fault(grid(array@), column_levels@, 0, 1) == Some(f),
        },
{
    let ghost g = grid(array@);
    let ghost levels = column_levels@;
    let n: usize = array.len();
    let cols: usize = column_levels.len();
    proof {
        no_fault_is_strength2(g, levels);
    }
    let mut i: usize = 0;
    while i < cols
        invariant
            n == array@.len(),
            cols == column_levels@.len(),
            levels == column_levels@,
            g == grid(array@),
            i <= cols,
            forall|s: int| 0 <= s < array@.len() ==> cols <= (#[trigger] array@[s])@.len(),
            forall|a: int, b: int|
                #![trigger column_levels@[a], column_levels@[b]]
                0 <= a < b < cols ==> column_levels@[a] * column_levels@[b] <= usize::MAX,
            first_fault(g, levels, 0, 1) == first_fault(g, levels, i as nat, (i + 1) as nat),
            first_fault(g, levels, 0, 1) is None <==> strength2(g, levels),
        decreases cols - i,
    {
        let mut j: usize = i + 1;
        while j < cols
            invariant
                n == array@.len(),
                cols == column_levels@.len(),
                levels == column_levels@,
                g == grid(array@),
                i < j <= cols,
                forall|s: int| 0 <= s < array@.len() ==> cols <= (#[trigger] array@[s])@.len(),
                forall|a: int, b: int|
                    #![trigger column_levels@[a], column_levels@[b]]
                    0 <= a < b < cols ==> column_levels@[a] * column_levels@[b] <= usize::MAX,
                first_fault(g, levels, 0, 1) == first_fault(g, levels, i as nat, j as nat),
                first_fault(g, levels, 0, 1) is None <==> strength2(g, levels),
            decreases cols - j,
        {
            let qi: usize = column_levels[i];
            let qj: usize = column_levels[j];
            let size: usize = qi * qj;
            if size != 0 && n % size != 0 {
                return Err(Strength2Fault::NotDivisible { i, j, rows: n, product: size });
            }
            let counts: Vec<usize> = match count_pairs(array, i, j, qi, qj) {
                Err(f) => {
                    return Err(f);
                },
                Ok(counts) => counts,
            };
            let expected: usize = if size == 0 { 0 } else { n / size };
            let mut e: usize = 0;
            while e < size
                invariant
                    g == grid(array@),
                    levels == column_levels@,
                    n == array@.len(),
                    cols == column_levels@.len(),
                    i < j < cols,
                    size == qi * qj,
                    qi == column_levels@[i as int],
                    qj == column_levels@[j as int],
                    size != 0 ==> expected == n as int / size as int,
                    counts@.len() == size,
                    e <= size,
                    forall|d: int|
                        0 <= d < qi * qj ==> #[trigger] counts@[d] == pair_count(
                            g,
                            i as int,
                            j as int,
                            d / (qj as int),
                            d % (qj as int),
                        ),
                    row_fault(g, i as int, j as int, qi, qj, 0) is None,
                    size != 0 ==> n as int % size as int == 0,
                    level_fault(g, i as int, j as int, qi, qj, 0) == level_fault(
                        g,
                        i as int,
                        j as int,
                        qi,
                        qj,
                        e as nat,
                    ),
                    first_fault(g, levels, 0, 1) == first_fault(g, levels, i as nat, j as nat),
                    first_fault(g, levels, 0, 1) is None <==> strength2(g, levels),
                decreases size - e,
            {
                let c: usize = counts[e];
                proof {
                    assert(qj > 0) by (nonlinear_arith)
                        requires
                            qi * qj > 0,
                            qj >= 0,
                    ;
                }
                if c != expected {
                    return Err(
                        Strength2Fault::Unbalanced { i, j, x: e / qj, y: e % qj, count: c, expected },
                    );
                }
                e = e + 1;
            }
            j = j + 1;
        }
        i = i + 1;
    }
    Ok(())
}

/// The number of the level pair that row `r` shows in columns `i` and `j`.
pub open spec fn pair_code(g: Seq<Seq<usize>>, i: int, j: int, qj: int) -> spec_fn(int) -> int {
    |r: int| g[r][i] * qj + g[r][j]
}

pub proof fn lemma_pair_count_tally(
    g: Seq<Seq<usize>>,
    i: int,
    j: int,
    qi: int,
    qj: int,
    x: int,
    y: int,
    n: nat,
)
    requires
        n <= g.len(),
        pair_in_range(g, i, j, qi, qj),
        0 <= x < qi,
        0 <= y < qj,
    ensures
        pair_count(g.take(n as int), i, j, x, y) == tally(pair_code(g, i, j, qj), n, x * qj + y),
    decreases n,
{
    if n > 0 {
        lemma_pair_count_tally(g, i, j, qi, qj, x, y, (n - 1) as nat);
        assert(g.take(n as int).drop_last() =~= g.take(n - 1));
        let r = n - 1;
        assert(g.take(n as int).last() == g[r]);
        let (a, b) = (g[r][i] as int, g[r][j] as int);
        lemma_entry_join(a, b, qi, qj);
        lemma_entry_join(x, y, qi, qj);
    }
}

/// A pair of columns is balanced where no level pair appears more often than
/// another.
pub proof fn lemma_balanced(g: Seq<Seq<usize>>, i: int, j: int, qi: int, qj: int)
    requires
        qi > 0,
        qj > 0,
        pair_in_range(g, i, j, qi, qj),
        forall|v: int, w: int|
            0 <= v < qi * qj && 0 <= w < qi * qj ==> #[trigger] tally(
                pair_code(g, i, j, qj),
                g.len(),
                v,
            ) <= #[trigger] tally(pair_code(g, i, j, qj), g.len(), w),
    ensures
        balanced(g, i, j, qi, qj),
{
    let f = pair_code(g, i, j, qj);
    let m = (qi * qj) as nat;
    assert(qi * qj > 0) by (nonlinear_arith)
        requires
            qi > 0,
            qj > 0,
    ;
    assert forall|r: int| 0 <= r < g.len() implies 0 <= #[trigger] f(r) < m by {
        assert(g[r][i] < qi && g[r][j] < qj);
        lemma_entry_join(g[r][i] as int, g[r][j] as int, qi, qj);
    }
    assert forall|x: int, y: int| 0 <= x < qi && 0 <= y < qj implies #[trigger] pair_count(
        g,
        i,
        j,
        x,
        y,
    ) * (qi * qj) == g.len() by {
        lemma_entry_join(x, y, qi, qj);
        lemma_uniform(f, g.len(), m, x * qj + y);
        lemma_pair_count_tally(g, i, j, qi, qj, x, y, g.len());
        assert(g.take(g.len() as int) =~= g);
    }
}

} // verus!
