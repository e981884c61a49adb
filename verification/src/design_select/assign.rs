//! The assignments of factors to the columns of an array.
use vstd::prelude::*;

use crate::model::formula::positions_less;
use crate::tuples::lists;

verus! {

/// Column assignments tried per catalog or Bush entry.
pub const ASSIGNMENT_CAP: usize = 5000;

/// A column of `have` levels serves a factor of `need` levels. A column that
/// folds down serves any factor with as many levels or fewer; another must
/// match exactly.
pub open spec fn serves(have: usize, need: usize, folds: bool) -> bool {
    if folds {
        have >= need
    } else {
        have == need
    }
}

/// Column `c` can be chosen after the columns of `prefix`.
pub open spec fn eligible(
    columns: Seq<usize>,
    levels: Seq<usize>,
    folds: bool,
    prefix: Seq<usize>,
    c: int,
) -> bool {
    !prefix.contains(c as usize) && serves(columns[c], levels[prefix.len() as int], folds)
}

/// All assignments that begin with `prefix` and go on with a column below `c`,
/// in lexicographic order.
pub open spec fn extensions(
    columns: Seq<usize>,
    levels: Seq<usize>,
    folds: bool,
    prefix: Seq<usize>,
    c: nat,
) -> Seq<Seq<usize>>
    decreases levels.len() - prefix.len(), c,
{
    if prefix.len() >= levels.len() {
        seq![prefix]
    } else if c == 0 {
        Seq::empty()
    } else {
        let before = extensions(columns, levels, folds, prefix, (c - 1) as nat);
        if eligible(columns, levels, folds, prefix, c - 1) {
            before + extensions(
                columns,
                levels,
                folds,
                prefix.push((c - 1) as usize),
                columns.len(),
            )
        } else {
            before
        }
    }
}

/// At most the first `n` items.
pub open spec fn capped<T>(s: Seq<T>, n: nat) -> Seq<T> {
    if s.len() > n {
        s.take(n as int)
    } else {
        s
    }
}

/// The ordered injections of factors into serving columns, in ascending column
/// number, at most `cap` of them.
pub open spec fn assignments_of(
    columns: Seq<usize>,
    levels: Seq<usize>,
    folds: bool,
    cap: nat,
) -> Seq<Seq<usize>> {
    capped(extensions(columns, levels, folds, Seq::empty(), columns.len()), cap)
}

/// An injection of factors into serving columns.
pub open spec fn is_assignment(
    columns: Seq<usize>,
    levels: Seq<usize>,
    folds: bool,
    a: Seq<usize>,
) -> bool {
    &&& a.len() == levels.len()
    &&& forall|i: int|
        0 <= i < a.len() ==> (#[trigger] a[i]) < columns.len() && serves(
            columns[a[i] as int],
            levels[i],
            folds,
        )
    &&& forall|i: int, j: int| 0 <= i < j < a.len() ==> #[trigger] a[i] != #[trigger] a[j]
}

/// The start of an injection of factors into serving columns.
pub open spec fn is_start(
    columns: Seq<usize>,
    levels: Seq<usize>,
    folds: bool,
    a: Seq<usize>,
) -> bool {
    &&& a.len() <= levels.len()
    &&& is_assignment(columns, levels.take(a.len() as int), folds, a)
}

proof fn lemma_start_push(
    columns: Seq<usize>,
    levels: Seq<usize>,
    folds: bool,
    prefix: Seq<usize>,
    c: int,
)
    requires
        is_start(columns, levels, folds, prefix),
        prefix.len() < levels.len(),
        0 <= c < columns.len() <= usize::MAX,
        eligible(columns, levels, folds, prefix, c),
    ensures
        is_start(columns, levels, folds, prefix.push(c as usize)),
{
    let p = prefix.push(c as usize);
    let n = prefix.len() as int;
    assert forall|i: int| 0 <= i < p.len() implies (#[trigger] p[i]) < columns.len() && serves(
        columns[p[i] as int],
        levels.take(p.len() as int)[i],
        folds,
    ) by {
        if i < n {
            assert(p[i] == prefix[i]);
            assert(levels.take(n)[i] == levels[i]);
        }
    }
    assert forall|i: int, j: int| 0 <= i < j < p.len() implies #[trigger] p[i] != #[trigger] p[j] by {
        if j == n {
            if p[i] == p[j] {
                assert(prefix[i] == c as usize);
            }
        } else {
            assert(prefix[i] != prefix[j]);
        }
    }
}

/// The items of `extensions` are assignments that begin with the prefix and go
/// on with a column below `c`.
proof fn lemma_extensions_valid(
    columns: Seq<usize>,
    levels: Seq<usize>,
    folds: bool,
    prefix: Seq<usize>,
    c: nat,
)
    requires
        is_start(columns, levels, folds, prefix),
        c <= columns.len() <= usize::MAX,
    ensures
        forall|k: int|
            0 <= k < extensions(columns, levels, folds, prefix, c).len() ==> {
                let a = #[trigger] extensions(columns, levels, folds, prefix, c)[k];
                &&& is_assignment(columns, levels, folds, a)
                &&& a.take(prefix.len() as int) == prefix
                &&& prefix.len() < levels.len() ==> a[prefix.len() as int] < c
            },
    decreases levels.len() - prefix.len(), c,
{
    let e = extensions(columns, levels, folds, prefix, c);
    let n = prefix.len() as int;
    if prefix.len() >= levels.len() {
        assert(levels.take(n) =~= levels);
        assert(prefix.take(n) =~= prefix);
    } else if c > 0 {
        lemma_extensions_valid(columns, levels, folds, prefix, (c - 1) as nat);
        let before = extensions(columns, levels, folds, prefix, (c - 1) as nat);
        if eligible(columns, levels, folds, prefix, c - 1) {
            let p = prefix.push((c - 1) as usize);
            lemma_start_push(columns, levels, folds, prefix, c - 1);
            lemma_extensions_valid(columns, levels, folds, p, columns.len());
            let more = extensions(columns, levels, folds, p, columns.len());
            assert forall|k: int| 0 <= k < e.len() implies {
                let a = #[trigger] e[k];
                &&& is_assignment(columns, levels, folds, a)
                &&& a.take(n) == prefix
                &&& a[n] < c
            } by {
                if k < before.len() {
                    assert(e[k] == before[k]);
                } else {
                    let a = more[k - before.len()];
                    assert(e[k] == a);
                    assert(a.take(n + 1) == p);
                    assert(a.take(n) =~= p.take(n));
                    assert(p.take(n) =~= prefix);
                    assert(a[n] == a.take(n + 1)[n]);
                }
            }
        }
    }
}

/// Equal starts leave the order to the first difference.
proof fn lemma_less_at(a: Seq<usize>, b: Seq<usize>, n: int)
    requires
        a.len() == b.len(),
        0 <= n < a.len(),
        a.take(n) == b.take(n),
        a[n] < b[n],
    ensures
        positions_less(a, b),
    decreases n,
{
    if n > 0 {
        assert(a[0] == a.take(n)[0] && b[0] == b.take(n)[0]);
        assert(a.drop_first().take(n - 1) =~= a.take(n).drop_first());
        assert(b.drop_first().take(n - 1) =~= b.take(n).drop_first());
        lemma_less_at(a.drop_first(), b.drop_first(), n - 1);
    }
}

proof fn lemma_extensions_ascend(
    columns: Seq<usize>,
    levels: Seq<usize>,
    folds: bool,
    prefix: Seq<usize>,
    c: nat,
)
    requires
        is_start(columns, levels, folds, prefix),
        c <= columns.len() <= usize::MAX,
    ensures
        forall|i: int, j: int|
            0 <= i < j < extensions(columns, levels, folds, prefix, c).len() ==> positions_less(
                #[trigger] extensions(columns, levels, folds, prefix, c)[i],
                #[trigger] extensions(columns, levels, folds, prefix, c)[j],
            ),
    decreases levels.len() - prefix.len(), c,
{
    let e = extensions(columns, levels, folds, prefix, c);
    let n = prefix.len() as int;
    if prefix.len() >= levels.len() {
    } else if c > 0 {
        lemma_extensions_ascend(columns, levels, folds, prefix, (c - 1) as nat);
        lemma_extensions_valid(columns, levels, folds, prefix, (c - 1) as nat);
        let before = extensions(columns, levels, folds, prefix, (c - 1) as nat);
        if eligible(columns, levels, folds, prefix, c - 1) {
            let p = prefix.push((c - 1) as usize);
            lemma_start_push(columns, levels, folds, prefix, c - 1);
            lemma_extensions_ascend(columns, levels, folds, p, columns.len());
            lemma_extensions_valid(columns, levels, folds, p, columns.len());
            let more = extensions(columns, levels, folds, p, columns.len());
            assert forall|i: int, j: int| 0 <= i < j < e.len() implies positions_less(
                #[trigger] e[i],
                #[trigger] e[j],
            ) by {
                if j < before.len() {
                    assert(e[i] == before[i] && e[j] == before[j]);
                } else if i >= before.len() {
                    assert(e[i] == more[i - before.len()] && e[j] == more[j - before.len()]);
                } else {
                    let a = before[i];
                    let b = more[j - before.len()];
                    assert(e[i] == a && e[j] == b);
                    assert(b.take(n + 1) == p);
                    assert(b.take(n) =~= p.take(n));
                    assert(p.take(n) =~= prefix);
                    assert(b[n] == b.take(n + 1)[n]);
                    lemma_less_at(a, b, n);
                }
            }
        }
    }
}

proof fn lemma_extensions_complete(
    columns: Seq<usize>,
    levels: Seq<usize>,
    folds: bool,
    prefix: Seq<usize>,
    c: nat,
    a: Seq<usize>,
)
    requires
        is_assignment(columns, levels, folds, a),
        prefix.len() <= levels.len(),
        a.take(prefix.len() as int) == prefix,
        prefix.len() < levels.len() ==> a[prefix.len() as int] < c,
        c <= columns.len() <= usize::MAX,
    ensures
        extensions(columns, levels, folds, prefix, c).contains(a),
    decreases levels.len() - prefix.len(), c,
{
    let e = extensions(columns, levels, folds, prefix, c);
    let n = prefix.len() as int;
    if prefix.len() >= levels.len() {
        assert(a.take(n) =~= a);
        assert(e[0] == a);
    } else {
        let before = extensions(columns, levels, folds, prefix, (c - 1) as nat);
        if a[n] < c - 1 {
            lemma_extensions_complete(columns, levels, folds, prefix, (c - 1) as nat, a);
            let k = choose|k: int| 0 <= k < before.len() && before[k] == a;
            assert(e[k] == a);
        } else {
            let p = prefix.push((c - 1) as usize);
            assert(a.take(n + 1) =~= p);
            if prefix.contains((c - 1) as usize) {
                let k = choose|k: int| 0 <= k < prefix.len() && prefix[k] == (c - 1) as usize;
                assert(a[k] == a.take(n)[k]);
                assert(a[k] != a[n]);
            }
            if p.len() < levels.len() {
                assert(a[n + 1] < columns.len());
            }
            lemma_extensions_complete(columns, levels, folds, p, columns.len(), a);
            let more = extensions(columns, levels, folds, p, columns.len());
            let k = choose|k: int| 0 <= k < more.len() && more[k] == a;
            assert(e[before.len() + k] == a);
        }
    }
}

/// Every assignment gives each factor a column of its own that serves it; the
/// assignments stand in lexicographic order; and where the cap is not reached,
/// none is left out.
pub proof fn assignments_are_ordered_injections(
    columns: Seq<usize>,
    levels: Seq<usize>,
    folds: bool,
    cap: nat,
)
    requires
        columns.len() <= usize::MAX,
    ensures
        assignments_of(columns, levels, folds, cap).len() <= cap,
        forall|k: int|
            0 <= k < assignments_of(columns, levels, folds, cap).len() ==> is_assignment(
                columns,
                levels,
                folds,
                #[trigger] assignments_of(columns, levels, folds, cap)[k],
            ),
        forall|i: int, j: int|
            0 <= i < j < assignments_of(columns, levels, folds, cap).len() ==> positions_less(
                #[trigger] assignments_of(columns, levels, folds, cap)[i],
                #[trigger] assignments_of(columns, levels, folds, cap)[j],
            ),
        assignments_of(columns, levels, folds, cap).len() < cap ==> forall|a: Seq<usize>|
            is_assignment(columns, levels, folds, a) ==> #[trigger] assignments_of(
                columns,
                levels,
                folds,
                cap,
            ).contains(a),
{
    let empty = Seq::<usize>::empty();
    assert(is_start(columns, levels, folds, empty));
    lemma_extensions_valid(columns, levels, folds, empty, columns.len());
    lemma_extensions_ascend(columns, levels, folds, empty, columns.len());
    let e = extensions(columns, levels, folds, empty, columns.len());
    let s = assignments_of(columns, levels, folds, cap);
    assert forall|k: int| 0 <= k < s.len() implies #[trigger] s[k] == e[k] by {}
    if s.len() < cap {
        assert(s == e);
        assert forall|a: Seq<usize>| is_assignment(columns, levels, folds, a) implies #[trigger] s.contains(
            a,
        ) by {
            assert(a.take(0) =~= empty);
            if levels.len() > 0 {
                assert(a[0] < columns.len());
            }
            lemma_extensions_complete(columns, levels, folds, empty, columns.len(), a);
        }
    }
}

fn is_eligible(columns: &[usize], levels: &[usize], folds: bool, prefix: &Vec<usize>, c: usize) -> (r:
    bool)
    requires
        c < columns@.len(),
        prefix@.len() < levels@.len(),
    ensures
        r == eligible(columns@, levels@, folds, prefix@, c as int),
{
    let mut i: usize = 0;
    while i < prefix.len()
        invariant
            i <= prefix@.len(),
            forall|k: int| 0 <= k < i ==> #[trigger] prefix@[k] != c,
        decreases prefix@.len() - i,
    {
        if prefix[i] == c {
            assert(prefix@[i as int] == c);
            return false;
        }
        i = i + 1;
    }
    let (have, need): (usize, usize) = (columns[c], levels[prefix.len()]);
    if folds {
        have >= need
    } else {
        have == need
    }
}

fn extend(
    columns: &[usize],
    levels: &[usize],
    folds: bool,
    prefix: &mut Vec<usize>,
    out: &mut Vec<Vec<usize>>,
    cap: usize,
)
    requires
        old(prefix)@.len() <= levels@.len(),
        old(out)@.len() < cap,
    ensures
        final(prefix)@ == old(prefix)@,
        lists(final(out)@) == capped(
            lists(old(out)@) + extensions(
                columns@,
                levels@,
                folds,
                old(prefix)@,
                columns@.len(),
            ),
            cap as nat,
        ),
    decreases levels@.len() - old(prefix)@.len(),
{
    let ghost p = prefix@;
    let ghost start = lists(out@);
    if prefix.len() == levels.len() {
        let row: Vec<usize> = prefix.clone();
        assert(row@ =~= p);
        out.push(row);
        assert(lists(out@) =~= start + seq![p]);
        return;
    }
    let mut c: usize = 0;
    assert(start + extensions(columns@, levels@, folds, p, 0) =~= start);
    while c < columns.len() && out.len() < cap
        invariant
            c <= columns@.len(),
            p.len() < levels@.len(),
            levels@.len() - p.len() == levels@.len() - old(prefix)@.len(),
            prefix@ == p,
            lists(out@) == capped(
                start + extensions(columns@, levels@, folds, p, c as nat),
                cap as nat,
            ),
            out@.len() <= cap,
        decreases columns@.len() - c,
    {
        let ghost before = extensions(columns@, levels@, folds, p, c as nat);
        if is_eligible(columns, levels, folds, prefix, c) {
            prefix.push(c);
            extend(columns, levels, folds, prefix, out, cap);
            prefix.pop();
            assert(prefix@ =~= p);
            proof {
                let more = extensions(columns@, levels@, folds, p.push(c), columns@.len());
                assert(extensions(columns@, levels@, folds, p, (c + 1) as nat) == before + more);
                assert(start + (before + more) =~= (start + before) + more);
                assert(out@.len() == lists(out@).len());
            }
        }
        c = c + 1;
    }
    proof {
        if c < columns@.len() {
            lemma_extensions_grow(columns@, levels@, folds, p, c as nat, columns@.len());
            let a = start + extensions(columns@, levels@, folds, p, c as nat);
            let b = start + extensions(columns@, levels@, folds, p, columns@.len());
            assert(b.take(cap as int) =~= a.take(cap as int));
            assert(capped(a, cap as nat) =~= a.take(cap as int));
            assert(capped(b, cap as nat) =~= b.take(cap as int));
        }
    }
}

/// More columns only append assignments.
proof fn lemma_extensions_grow(
    columns: Seq<usize>,
    levels: Seq<usize>,
    folds: bool,
    prefix: Seq<usize>,
    c: nat,
    d: nat,
)
    requires
        c <= d,
        prefix.len() < levels.len(),
    ensures
        extensions(columns, levels, folds, prefix, c).len() <= extensions(
            columns,
            levels,
            folds,
            prefix,
            d,
        ).len(),
        extensions(columns, levels, folds, prefix, d).take(
            extensions(columns, levels, folds, prefix, c).len() as int,
        ) == extensions(columns, levels, folds, prefix, c),
    decreases d - c,
{
    let a = extensions(columns, levels, folds, prefix, c);
    if c < d {
        lemma_extensions_grow(columns, levels, folds, prefix, c, (d - 1) as nat);
        let b = extensions(columns, levels, folds, prefix, (d - 1) as nat);
        let e = extensions(columns, levels, folds, prefix, d);
        assert(e.take(b.len() as int) =~= b);
        assert(e.take(a.len() as int) =~= e.take(b.len() as int).take(a.len() as int));
    } else {
        assert(a.take(a.len() as int) =~= a);
    }
}

/// Ordered injections of factors into columns of a serving level count, in
/// ascending column number, at most `cap` of them.
pub fn assignments(columns: &[usize], levels: &[usize], folds: bool, cap: usize) -> (out: Vec<
    Vec<usize>,
>)
    requires
        cap > 0,
    ensures
        lists(out@) == assignments_of(columns@, levels@, folds, cap as nat),
{
    let mut out: Vec<Vec<usize>> = Vec::new();
    let mut prefix: Vec<usize> = Vec::new();
    let n: usize = columns.len();
    assert(lists(out@) =~= Seq::empty());
    assert(prefix@ =~= Seq::empty());
    extend(columns, levels, folds, &mut prefix, &mut out, cap);
    proof {
        let e = extensions(columns@, levels@, folds, Seq::empty(), columns@.len());
        assert(Seq::<Seq<usize>>::empty() + e =~= e);
    }
    out
}

} // verus!
