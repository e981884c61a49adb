//! Observations grouped by the levels they share.
use vstd::prelude::*;

use crate::model::formula::{is_term_less, lemma_term_less, same_term, term_less};
use crate::model::matrix::{cell_views, Cell, CellView};
use crate::tuples::lists;

verus! {

/// The observations that share a key.
#[derive(Debug)]
pub struct Group {
    pub key: Vec<usize>,
    pub rows: Vec<usize>,
}

#[verifier::ext_equal]
pub struct GroupView {
    pub key: Seq<usize>,
    pub rows: Seq<usize>,
}

impl View for Group {
    type V = GroupView;

    open spec fn view(&self) -> GroupView {
        GroupView { key: self.key@, rows: self.rows@ }
    }
}

pub open spec fn group_views(groups: Seq<Group>) -> Seq<GroupView> {
    groups.map_values(|g: Group| g@)
}

/// The numbers of those of the first `n` keys that equal `key`, ascending.
pub open spec fn rows_with(keys: Seq<Seq<usize>>, key: Seq<usize>, n: nat) -> Seq<usize>
    decreases n,
{
    if n == 0 {
        Seq::empty()
    } else {
        let before = rows_with(keys, key, (n - 1) as nat);
        if keys[n - 1] == key {
            before.push((n - 1) as usize)
        } else {
            before
        }
    }
}

/// A group has the key.
pub open spec fn has_key(groups: Seq<GroupView>, key: Seq<usize>) -> bool {
    exists|g: int| 0 <= g < groups.len() && (#[trigger] groups[g]).key == key
}

/// The first `n` keys in groups: keys ascending, each with all its numbers.
pub open spec fn grouped(groups: Seq<GroupView>, keys: Seq<Seq<usize>>, n: nat) -> bool {
    &&& forall|a: int, b: int|
        0 <= a < b < groups.len() ==> term_less(
            (#[trigger] groups[a]).key,
            (#[trigger] groups[b]).key,
        )
    &&& forall|g: int|
        0 <= g < groups.len() ==> (#[trigger] groups[g]).rows == rows_with(keys, groups[g].key, n)
    &&& forall|i: int| 0 <= i < n ==> has_key(groups, #[trigger] keys[i])
    &&& forall|g: int|
        0 <= g < groups.len() ==> exists|i: int| 0 <= i < n && keys[i] == (#[trigger] groups[g]).key
}

proof fn lemma_rows_absent(keys: Seq<Seq<usize>>, key: Seq<usize>, n: nat)
    requires
        forall|i: int| 0 <= i < n ==> keys[i] != key,
    ensures
        rows_with(keys, key, n) == Seq::<usize>::empty(),
    decreases n,
{
    if n > 0 {
        lemma_rows_absent(keys, key, (n - 1) as nat);
    }
}

/// Every observation is in exactly one group.
pub proof fn groups_part_the_rows(
    groups: Seq<GroupView>,
    keys: Seq<Seq<usize>>,
    i: int,
    a: int,
    b: int,
)
    requires
        grouped(groups, keys, keys.len()),
        0 <= i < keys.len(),
        0 <= a < groups.len(),
        0 <= b < groups.len(),
        groups[a].key == keys[i],
        groups[b].key == keys[i],
    ensures
        a == b,
{
    lemma_term_less(keys[i], keys[i], keys[i]);
    if a < b {
        assert(term_less(groups[a].key, groups[b].key));
    } else if b < a {
        assert(term_less(groups[b].key, groups[a].key));
    }
}

/// Groups the observations by their keys.
pub fn group_rows(keys: &Vec<Vec<usize>>) -> (out: Vec<Group>)
    ensures
        grouped(group_views(out@), lists(keys@), keys@.len()),
{
    let ghost kv = lists(keys@);
    let mut out: Vec<Group> = Vec::new();
    let mut i: usize = 0;
    while i < keys.len()
        invariant
            i <= keys@.len(),
            kv == lists(keys@),
            grouped(group_views(out@), kv, i as nat),
        decreases keys@.len() - i,
    {
        let ghost before = group_views(out@);
        let ghost key = kv[i as int];
        assert(key == keys@[i as int]@);
        let mut p: usize = 0;
        while p < out.len() && is_term_less(&out[p].key, &keys[i])
            invariant
                p <= out@.len(),
                i < keys@.len(),
                before == group_views(out@),
                key == keys@[i as int]@,
                forall|g: int| 0 <= g < p ==> term_less((#[trigger] before[g]).key, key),
            decreases out@.len() - p,
        {
            assert(before[p as int] == out@[p as int]@);
            p = p + 1;
        }
        assert(before.len() == out@.len());
        if p < out.len() && same_term(&out[p].key, &keys[i]) {
            assert(before[p as int] == out@[p as int]@);
            let mut g: Group = out.remove(p);
            g.rows.push(i);
            let ghost gv = g@;
            out.insert(p, g);
            let ghost now = group_views(out@);
            proof {
                assert(now =~= before.update(p as int, gv));
                assert forall|g: int| 0 <= g < now.len() implies (#[trigger] now[g]).rows
                    == rows_with(kv, now[g].key, (i + 1) as nat) by {
                    assert(before[g].key == now[g].key);
                    if g != p {
                        lemma_term_less(key, key, key);
                        if g < p {
                            assert(term_less(before[g].key, before[p as int].key));
                        } else {
                            assert(term_less(before[p as int].key, before[g].key));
                        }
                    }
                }
                assert forall|j: int| 0 <= j < i + 1 implies has_key(now, #[trigger] kv[j]) by {
                    if j == i {
                        assert(now[p as int].key == key);
                    } else {
                        let g = choose|g: int|
                            0 <= g < before.len() && (#[trigger] before[g]).key == kv[j];
                        assert(now[g].key == kv[j]);
                    }
                }
                assert forall|g: int| 0 <= g < now.len() implies exists|j: int|
                    0 <= j < i + 1 && kv[j] == (#[trigger] now[g]).key by {
                    assert(before[g].key == now[g].key);
                    let j = choose|j: int| 0 <= j < i && kv[j] == before[g].key;
                    assert(kv[j] == now[g].key);
                }
            }
        } else {
            let mut rows: Vec<usize> = Vec::new();
            rows.push(i);
            let copy: Vec<usize> = keys[i].clone();
            assert(copy@ =~= key);
            let g: Group = Group { key: copy, rows };
            let ghost gv = g@;
            out.insert(p, g);
            let ghost now = group_views(out@);
            proof {
                assert(now =~= before.insert(p as int, gv));
                assert forall|g: int| p <= g < before.len() implies term_less(
                    key,
                    (#[trigger] before[g]).key,
                ) by {
                    assert(before[p as int] == out@[p + 1]@);
                    lemma_term_less(key, before[p as int].key, before[g].key);
                    if g > p {
                        assert(term_less(before[p as int].key, before[g].key));
                    }
                }
                lemma_term_less(key, key, key);
                assert forall|j: int| 0 <= j < i implies kv[j] != key by {
                    assert(has_key(before, kv[j]));
                    let g = choose|g: int|
                        0 <= g < before.len() && (#[trigger] before[g]).key == kv[j];
                    if g < p {
                        assert(term_less(before[g].key, key));
                    } else {
                        assert(term_less(key, before[g].key));
                    }
                }
                lemma_rows_absent(kv, key, i as nat);
                assert(gv.rows =~= rows_with(kv, key, (i + 1) as nat));
                assert forall|a: int, b: int| 0 <= a < b < now.len() implies term_less(
                    (#[trigger] now[a]).key,
                    (#[trigger] now[b]).key,
                ) by {
                    let x = if a < p {
                        a
                    } else {
                        a - 1
                    };
                    let y = if b < p {
                        b
                    } else {
                        b - 1
                    };
                    if a == p {
                        assert(now[b] == before[y]);
                    } else if b == p {
                        assert(now[a] == before[x]);
                    } else {
                        assert(now[a] == before[x] && now[b] == before[y]);
                        assert(term_less(before[x].key, before[y].key));
                    }
                }
                assert forall|g: int| 0 <= g < now.len() implies (#[trigger] now[g]).rows
                    == rows_with(kv, now[g].key, (i + 1) as nat) by {
                    if g != p {
                        let x = if g < p {
                            g
                        } else {
                            g - 1
                        };
                        assert(now[g] == before[x]);
                        assert(before[x].key != key);
                    }
                }
                assert forall|j: int| 0 <= j < i + 1 implies has_key(now, #[trigger] kv[j]) by {
                    if j == i {
                        assert(now[p as int].key == key);
                    } else {
                        let g = choose|g: int|
                            0 <= g < before.len() && (#[trigger] before[g]).key == kv[j];
                        let x = if g < p {
                            g
                        } else {
                            g + 1
                        };
                        assert(now[x].key == kv[j]);
                    }
                }
                assert forall|g: int| 0 <= g < now.len() implies exists|j: int|
                    0 <= j < i + 1 && kv[j] == (#[trigger] now[g]).key by {
                    if g == p {
                        assert(kv[i as int] == now[g].key);
                    } else {
                        let x = if g < p {
                            g
                        } else {
                            g - 1
                        };
                        assert(now[g] == before[x]);
                        let j = choose|j: int| 0 <= j < i && kv[j] == before[x].key;
                        assert(kv[j] == now[g].key);
                    }
                }
            }
        }
        i = i + 1;
    }
    out
}

/// The levels of a cell on some factors.
pub open spec fn levels_on(cell: CellView, factors: Seq<usize>) -> Seq<usize> {
    factors.map_values(|f: usize| cell.factors[f as int])
}

/// The levels of the cells on some factors.
pub open spec fn keys_on(cells: Seq<CellView>, factors: Seq<usize>) -> Seq<Seq<usize>> {
    cells.map_values(|c: CellView| levels_on(c, factors))
}

/// The levels of the first role.
pub open spec fn first_role_keys(cells: Seq<CellView>) -> Seq<Seq<usize>> {
    cells.map_values(|c: CellView| seq![c.roles[0]])
}

/// Every number of the list is below `n`.
pub open spec fn numbers_below(list: Seq<usize>, n: nat) -> bool {
    forall|k: int| 0 <= k < list.len() ==> #[trigger] list[k] < n
}

/// Groups cells by their levels on the factors of a term.
pub fn groups_on(cells: &Vec<Cell>, factors: &Vec<usize>) -> (out: Vec<Group>)
    requires
        forall|i: int|
            0 <= i < cells@.len() ==> numbers_below(
                factors@,
                (#[trigger] cells@[i]).factor_levels@.len(),
            ),
    ensures
        grouped(
            group_views(out@),
            keys_on(cell_views(cells@), factors@),
            cells@.len(),
        ),
{
    let ghost cv = cell_views(cells@);
    let mut keys: Vec<Vec<usize>> = Vec::new();
    let mut i: usize = 0;
    while i < cells.len()
        invariant
            i <= cells@.len(),
            cv == cell_views(cells@),
            forall|i: int|
                0 <= i < cells@.len() ==> numbers_below(
                    factors@,
                    (#[trigger] cells@[i]).factor_levels@.len(),
                ),
            keys@.len() == i,
            forall|j: int| 0 <= j < i ==> (#[trigger] keys@[j])@ == levels_on(cv[j], factors@),
        decreases cells@.len() - i,
    {
        let mut key: Vec<usize> = Vec::new();
        let mut k: usize = 0;
        while k < factors.len()
            invariant
                i < cells@.len(),
                k <= factors@.len(),
                cv == cell_views(cells@),
                numbers_below(factors@, cells@[i as int].factor_levels@.len()),
                key@ =~= levels_on(cv[i as int], factors@).take(k as int),
            decreases factors@.len() - k,
        {
            assert(cv[i as int] == cells@[i as int]@);
            key.push(cells[i].factor_levels[factors[k]]);
            k = k + 1;
        }
        assert(key@ =~= levels_on(cv[i as int], factors@));
        keys.push(key);
        i = i + 1;
    }
    assert(lists(keys@) =~= keys_on(cv, factors@));
    group_rows(&keys)
}

/// Groups cells by their level of the first role.
pub fn groups_of_first_role(cells: &Vec<Cell>) -> (out: Vec<Group>)
    requires
        forall|i: int| 0 <= i < cells@.len() ==> (#[trigger] cells@[i]).replicate_levels@.len() > 0,
    ensures
        grouped(group_views(out@), first_role_keys(cell_views(cells@)), cells@.len()),
{
    let ghost cv = cell_views(cells@);
    let mut keys: Vec<Vec<usize>> = Vec::new();
    let mut i: usize = 0;
    while i < cells.len()
        invariant
            i <= cells@.len(),
            cv == cell_views(cells@),
            forall|i: int|
                0 <= i < cells@.len() ==> (#[trigger] cells@[i]).replicate_levels@.len() > 0,
            keys@.len() == i,
            forall|j: int| 0 <= j < i ==> (#[trigger] keys@[j])@ == seq![cv[j].roles[0]],
        decreases cells@.len() - i,
    {
        let mut key: Vec<usize> = Vec::new();
        assert(cv[i as int] == cells@[i as int]@);
        key.push(cells[i].replicate_levels[0]);
        assert(key@ =~= seq![cv[i as int].roles[0]]);
        keys.push(key);
        i = i + 1;
    }
    assert(lists(keys@) =~= first_role_keys(cv));
    group_rows(&keys)
}

} // verus!
