//! What the catalog comes to.
use vstd::prelude::*;

use super::kronecker::count_level;
use super::lookup::{
    body_rows, file_entry, first_supplying, found, index_of, inserted, row_cells, slot, supplies,
    EntryView,
};
use super::Selected;
use crate::text::line_list;

verus! {

/// The places at which a level count stands.
pub open spec fn places(levels: Seq<usize>, l: int) -> Set<int> {
    Set::new(|i: int| 0 <= i < levels.len() && levels[i] == l)
}

/// A level count is counted at all its places.
pub proof fn levels_are_counted_at_their_places(levels: Seq<usize>, l: int)
    ensures
        places(levels, l).finite(),
        count_level(levels, l) == places(levels, l).len(),
    decreases levels.len(),
{
    let now = places(levels, l);
    if levels.len() == 0 {
        assert(now =~= Set::empty());
    } else {
        let less = levels.drop_last();
        levels_are_counted_at_their_places(less, l);
        let before = places(less, l);
        if levels.last() == l {
            assert(now =~= before.insert(levels.len() - 1));
        } else {
            assert(now =~= before);
        }
    }
}

/// An array that serves level counts has as many columns of each as are asked for.
pub proof fn serving_arrays_have_enough_columns(columns: Seq<usize>, levels: Seq<usize>, p: int)
    requires
        supplies(columns, levels),
        0 <= p < levels.len(),
    ensures
        places(columns, levels[p] as int).len() >= places(levels, levels[p] as int).len(),
{
    levels_are_counted_at_their_places(columns, levels[p] as int);
    levels_are_counted_at_their_places(levels, levels[p] as int);
}

/// One that does not lacks columns of some level count.
pub proof fn other_arrays_lack_columns(columns: Seq<usize>, levels: Seq<usize>) -> (p: int)
    requires
        !supplies(columns, levels),
    ensures
        0 <= p < levels.len(),
        places(columns, levels[p] as int).len() < places(levels, levels[p] as int).len(),
{
    let p = choose|p: int|
        0 <= p < levels.len() && count_level(columns, #[trigger] levels[p] as int) < count_level(
            levels,
            levels[p] as int,
        );
    levels_are_counted_at_their_places(columns, levels[p] as int);
    levels_are_counted_at_their_places(levels, levels[p] as int);
    p
}

proof fn lemma_first(list: Seq<EntryView>, levels: Seq<usize>, i: nat)
    requires
        i <= list.len(),
    ensures
        first_supplying(list, levels, i) is None <==> forall|k: int|
            i <= k < list.len() ==> !supplies((#[trigger] list[k]).columns, levels),
        first_supplying(list, levels, i) matches Some(k) ==> i <= k < list.len() && supplies(
            list[k as int].columns,
            levels,
        ) && forall|j: int| i <= j < k ==> !supplies((#[trigger] list[j]).columns, levels),
    decreases list.len() - i,
{
    if i < list.len() {
        lemma_first(list, levels, i + 1);
    }
}

/// The catalog gives an array wherever an entry serves the level counts. It is of
/// the first that does: no entry that serves them has fewer rows, where the
/// entries stand by size.
pub proof fn the_catalog_gives_the_smallest(
    list: Seq<EntryView>,
    levels: Seq<usize>,
    r: Option<Selected>,
    k: int,
)
    requires
        found(list, levels, r),
        levels.len() > 0,
        0 <= k < list.len(),
        supplies(list[k].columns, levels),
        forall|i: int, j: int|
            0 <= i < j < list.len() ==> (#[trigger] list[i]).array.len() <= (
            #[trigger] list[j]).array.len(),
    ensures
        r is Some,
        r->0.info.rows <= list[k].array.len(),
        r->0.info.cols == levels.len(),
        r->0.column_levels@ == levels,
{
    lemma_first(list, levels, 0);
    let i = first_supplying(list, levels, 0)->0;
    let sel = r->0;
    let chosen = choose|chosen: Seq<usize>|
        #[trigger] super::lookup::first_columns(list[i as int].columns, levels, chosen) && super::strength::grid(
            sel.array@,
        ) == super::lookup::picked(list[i as int].array, chosen);
    assert(super::strength::grid(sel.array@).len() == list[i as int].array.len());
    if i < k {
        assert(list[i as int].array.len() <= list[k].array.len());
    }
}

proof fn lemma_slot_range(list: Seq<EntryView>, e: EntryView, i: nat)
    requires
        i <= list.len(),
    ensures
        i <= slot(list, e, i) <= list.len(),
    decreases list.len() - i,
{
    if i < list.len() {
        lemma_slot_range(list, e, i + 1);
    }
}

/// The index holds the entry of every file that has one, and nothing else.
pub proof fn the_index_holds_every_file(files: Seq<(Seq<char>, Seq<char>)>, e: EntryView)
    ensures
        index_of(files).contains(e) <==> exists|i: int|
            0 <= i < files.len() && file_entry((#[trigger] files[i]).0, files[i].1) == Some(e),
        index_of(files).len() <= files.len(),
    decreases files.len(),
{
    if files.len() > 0 {
        let less = files.drop_last();
        the_index_holds_every_file(less, e);
        let before = index_of(less);
        let now = index_of(files);
        let last = file_entry(files.last().0, files.last().1);
        if let Some(x) = last {
            let p = slot(before, x, 0) as int;
            lemma_slot_range(before, x, 0);
            assert(now == inserted(before, x));
            assert(now[p] == x);
            if before.contains(e) {
                let k = choose|k: int| 0 <= k < before.len() && before[k] == e;
                assert(now[if k < p {
                    k
                } else {
                    k + 1
                }] == e);
            }
            if now.contains(e) && e != x {
                let k = choose|k: int| 0 <= k < now.len() && now[k] == e;
                assert(before[if k < p {
                    k
                } else {
                    k - 1
                }] == e);
            }
        }
        if before.contains(e) {
            let i = choose|i: int|
                0 <= i < less.len() && file_entry((#[trigger] less[i]).0, less[i].1) == Some(e);
            assert(files[i] == less[i]);
        }
        if last == Some(e) {
            assert(files[files.len() - 1] == files.last());
            assert(now.contains(e)) by {
                let p = slot(before, e, 0) as int;
                lemma_slot_range(before, e, 0);
                assert(now[p] == e);
            }
        }
        if exists|i: int|
            0 <= i < files.len() && file_entry((#[trigger] files[i]).0, files[i].1) == Some(e) {
            let i = choose|i: int|
                0 <= i < files.len() && file_entry((#[trigger] files[i]).0, files[i].1) == Some(e);
            if i < less.len() {
                assert(less[i] == files[i]);
                assert(before.contains(e));
            }
        }
    }
}

proof fn lemma_body(
    list: Seq<Seq<char>>,
    i: nat,
    rows: Seq<Seq<usize>>,
    n: nat,
    columns: Seq<usize>,
)
    requires
        rows.len() < n,
        forall|r: int, c: int|
            0 <= r < rows.len() && 0 <= c < rows[r].len() ==> #[trigger] rows[r][c] < columns[c],
    ensures
        body_rows(list, i, rows, n, columns) matches Some(all) ==> forall|r: int, c: int|
            0 <= r < all.len() && 0 <= c < all[r].len() ==> #[trigger] all[r][c] < columns[c],
        body_rows(list, i, rows, n, columns) matches Some(all) ==> all.len() == n,
    decreases list.len() - i,
{
    if i < list.len() {
        match row_cells(list[i as int], columns) {
            None => {
                lemma_body(list, i + 1, rows, n, columns);
            },
            Some(row) => {
                if super::lookup::row_in_range(row, columns) {
                    let more = rows.push(row);
                    assert forall|r: int, c: int|
                        0 <= r < more.len() && 0 <= c < more[r].len() implies #[trigger] more[r][c]
                        < columns[c] by {
                        if r < rows.len() {
                            assert(more[r] == rows[r]);
                            assert(rows[r][c] < columns[c]);
                        }
                    }
                    if rows.len() + 1 != n {
                        lemma_body(list, i + 1, more, n, columns);
                    }
                }
            },
        }
    }
}

/// An entry has as many rows as its name says, and every cell is a level of its
/// column.
pub proof fn entries_are_as_their_name_says(name: Seq<char>, body: Seq<char>)
    ensures
        file_entry(name, body) matches Some(e) ==> {
            &&& e.name == name
            &&& e.n_runs > 0 ==> e.array.len() == e.n_runs && forall|r: int, c: int|
                0 <= r < e.array.len() && 0 <= c < e.array[r].len() ==> #[trigger] e.array[r][c]
                    < e.columns[c]
        },
{
    if let Some((n, columns)) = super::lookup::file_meta(name) {
        if n > 0 {
            lemma_body(line_list(body), 0, Seq::empty(), n as nat, columns);
        }
    }
}

} // verus!
