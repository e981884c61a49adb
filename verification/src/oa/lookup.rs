//! Lookup against a catalog of orthogonal arrays.
//!
//! A catalog is a list of text files in the layout of neilsloane.com/oadir/:
//! the file name gives the level structure and the body gives the matrix. The
//! user's level multiset is matched against the catalog: the smallest array
//! that can supply the requested per-level column counts wins.
use vstd::prelude::*;

use super::kronecker::{count_level, rank};
use super::strength::{balanced, cells_in_range, grid, pair_count, strength2};
use super::{ArrayInfo, Selected};
use crate::text::{
    ascii_digit, chars_of, decimal, decimal_text, digit_value, ends_with, is_ascii_digit, is_text,
    is_white, join, line_list, lines, parse_unsigned, parse_usize, part, pieces, push_decimal,
    separated, split, texts, trim, trimmed, unsigned_value, value_of_digit, views, white, word_list,
    words,
};

verus! {

/// One array of the catalog.
#[derive(Debug)]
pub struct CatalogEntry {
    pub name: String,
    pub n_runs: usize,
    /// Level count per column.
    pub columns: Vec<usize>,
    pub array: Vec<Vec<usize>>,
}

/// What a catalog entry holds.
#[verifier::ext_equal]
pub struct EntryView {
    pub name: Seq<char>,
    pub n_runs: nat,
    pub columns: Seq<usize>,
    pub array: Seq<Seq<usize>>,
}

impl View for CatalogEntry {
    type V = EntryView;

    open spec fn view(&self) -> EntryView {
        EntryView {
            name: self.name@,
            n_runs: self.n_runs as nat,
            columns: self.columns@,
            array: grid(self.array@),
        }
    }
}

impl CatalogEntry {
    /// The array has the recorded number of rows, one cell per column in each,
    /// below the column's level count.
    pub open spec fn wf(&self) -> bool {
        self.array@.len() == self.n_runs && cells_in_range(grid(self.array@), self.columns@)
    }
}

/// The entries of an index.
pub open spec fn entries(index: Seq<CatalogEntry>) -> Seq<EntryView> {
    index.map_values(|e: CatalogEntry| e@)
}

// ===== File names =====

/// Number of rows and level counts that a file name gives.
#[derive(Debug)]
pub struct FilenameMeta {
    pub n_runs: usize,
    pub columns: Vec<usize>,
}

/// The numbers that the first texts stand for, up to the first that stands for
/// none.
pub open spec fn leading_numbers(tokens: Seq<Seq<char>>) -> Seq<usize>
    decreases tokens.len(),
{
    if tokens.len() == 0 {
        Seq::empty()
    } else {
        match unsigned_value(tokens[0], usize::MAX as nat) {
            Some(n) => seq![n as usize] + leading_numbers(tokens.drop_first()),
            None => Seq::empty(),
        }
    }
}

/// `n` times the level count `l`.
pub open spec fn repeated(l: usize, n: nat) -> Seq<usize> {
    Seq::new(n, |i: int| l)
}

/// The level counts of the first `m` groups s1.k1.s2.k2.… after the row count.
pub open spec fn group_columns(nums: Seq<usize>, m: nat) -> Seq<usize>
    decreases m,
{
    if m == 0 {
        Seq::empty()
    } else {
        group_columns(nums, (m - 1) as nat) + repeated(nums[2 * m - 1], nums[2 * m as int] as nat)
    }
}

/// Row count and level counts of a file name: oa.N.k.s.t.[…].txt for N rows and
/// k columns of s levels, MA.N.s1.k1.s2.k2.[…].txt for mixed level counts.
pub open spec fn file_meta(name: Seq<char>) -> Option<(usize, Seq<usize>)> {
    if !crate::text::ends(name, ".txt"@) {
        None
    } else {
        let tokens = pieces(name.take(name.len() - 4), '.');
        let nums = leading_numbers(tokens.drop_first());
        if tokens[0] == "oa"@ {
            if nums.len() < 4 {
                None
            } else {
                Some((nums[0], repeated(nums[2], nums[1] as nat)))
            }
        } else if tokens[0] == "MA"@ {
            if nums.len() < 3 || (nums.len() - 1) % 2 != 0 {
                None
            } else {
                Some((nums[0], group_columns(nums, ((nums.len() - 1) / 2) as nat)))
            }
        } else {
            None
        }
    }
}

/// The leading numbers among the tokens from `start` on.
fn read_numbers(tokens: &Vec<Vec<char>>, start: usize) -> (out: Vec<usize>)
    requires
        start <= tokens@.len(),
    ensures
        out@ == leading_numbers(texts(tokens@).skip(start as int)),
{
    let ghost all = texts(tokens@);
    let mut out: Vec<usize> = Vec::new();
    let mut i: usize = start;
    while i < tokens.len()
        invariant
            start <= i <= tokens@.len(),
            all == texts(tokens@),
            out@ + leading_numbers(all.skip(i as int)) =~= leading_numbers(all.skip(start as int)),
        decreases tokens@.len() - i,
    {
        assert(all.skip(i as int)[0] == tokens@[i as int]@);
        assert(all.skip(i as int).drop_first() =~= all.skip(i + 1));
        match parse_usize(&tokens[i]) {
            None => {
                assert(out@ =~= leading_numbers(all.skip(start as int)));
                return out;
            },
            Some(n) => {
                let ghost before = out@;
                out.push(n);
                assert(before + (seq![n] + leading_numbers(all.skip(i + 1))) =~= out@
                    + leading_numbers(all.skip(i + 1)));
            },
        }
        i = i + 1;
    }
    assert(leading_numbers(all.skip(i as int)) =~= Seq::empty());
    out
}

fn push_repeated(out: &mut Vec<usize>, l: usize, n: usize)
    ensures
        final(out)@ == old(out)@ + repeated(l, n as nat),
{
    let mut i: usize = 0;
    while i < n
        invariant
            i <= n,
            out@ =~= old(out)@ + repeated(l, i as nat),
        decreases n - i,
    {
        out.push(l);
        i = i + 1;
    }
}

/// Reads the level structure off a file name.
pub fn parse_filename(name: &str) -> (r: Option<FilenameMeta>)
    ensures
        match r {
            Some(m) => file_meta(name@) == Some((m.n_runs, m.columns@)),
            None => file_meta(name@) is None,
        },
{
    let chars: Vec<char> = chars_of(name);
    let suffix: Vec<char> = chars_of(".txt");
    proof {
        reveal_strlit(".txt");
    }
    if !ends_with(&chars, &suffix) {
        return None;
    }
    let stem: Vec<char> = part(&chars, 0, chars.len() - 4);
    assert(stem@ =~= name@.take(name@.len() - 4));
    let tokens: Vec<Vec<char>> = split(&stem, '.');
    let nums: Vec<usize> = read_numbers(&tokens, 1);
    assert(texts(tokens@).skip(1) =~= texts(tokens@).drop_first());
    assert(texts(tokens@)[0] == tokens@[0]@);
    let mut columns: Vec<usize> = Vec::new();
    if is_text(&tokens[0], "oa") {
        if nums.len() < 4 {
            return None;
        }
        push_repeated(&mut columns, nums[2], nums[1]);
        assert(columns@ =~= repeated(nums@[2], nums@[1] as nat));
        Some(FilenameMeta { n_runs: nums[0], columns })
    } else if is_text(&tokens[0], "MA") {
        if nums.len() < 3 || (nums.len() - 1) % 2 != 0 {
            return None;
        }
        let total: usize = nums.len();
        let groups: usize = (total - 1) / 2;
        let mut m: usize = 0;
        while m < groups
            invariant
                m <= groups,
                total == nums@.len(),
                2 * groups + 1 == total,
                columns@ == group_columns(nums@, m as nat),
            decreases groups - m,
        {
            push_repeated(&mut columns, nums[2 * m + 1], nums[2 * m + 2]);
            m = m + 1;
        }
        Some(FilenameMeta { n_runs: nums[0], columns })
    } else {
        None
    }
}

// ===== File bodies =====

/// The largest level count; two where there is no column.
pub open spec fn max_level(columns: Seq<usize>) -> usize
    decreases columns.len(),
{
    if columns.len() == 0 {
        2
    } else if columns.len() == 1 {
        columns[0]
    } else {
        let m = max_level(columns.drop_last());
        if columns.last() > m {
            columns.last()
        } else {
            m
        }
    }
}

/// The characters that are no white space.
pub open spec fn solid(s: Seq<char>) -> Seq<char>
    decreases s.len(),
{
    if s.len() == 0 {
        Seq::empty()
    } else if white(s.last()) {
        solid(s.drop_last())
    } else {
        solid(s.drop_last()).push(s.last())
    }
}

/// The cells that the words stand for, where each is a number up to 255.
pub open spec fn word_cells(w: Seq<Seq<char>>) -> Option<Seq<usize>>
    decreases w.len(),
{
    if w.len() == 0 {
        Some(Seq::empty())
    } else {
        match (word_cells(w.drop_last()), unsigned_value(w.last(), 255)) {
            (Some(cells), Some(n)) => Some(cells.push(n as usize)),
            _ => None,
        }
    }
}

/// The cells of a line of words, one per column.
pub open spec fn spaced_row(line: Seq<char>, cols: nat) -> Option<Seq<usize>> {
    let w = word_list(line);
    if w.len() != cols {
        None
    } else {
        word_cells(w)
    }
}

/// The cells of a line: without separators where all level counts are at most
/// 10, otherwise separated by white space. Lines of another shape hold none.
pub open spec fn row_cells(line: Seq<char>, columns: Seq<usize>) -> Option<Seq<usize>> {
    let s = trimmed(line);
    if s.len() == 0 {
        None
    } else if max_level(columns) <= 10 {
        let c = solid(s);
        if c.len() != columns.len() {
            spaced_row(s, columns.len())
        } else if forall|i: int| 0 <= i < c.len() ==> ascii_digit(#[trigger] c[i]) {
            Some(Seq::new(c.len(), |i: int| digit_value(c[i]) as usize))
        } else {
            None
        }
    } else {
        spaced_row(s, columns.len())
    }
}

/// Every cell is below the level count of its column.
pub open spec fn row_in_range(row: Seq<usize>, columns: Seq<usize>) -> bool {
    forall|c: int| 0 <= c < row.len() ==> #[trigger] row[c] < columns[c]
}

/// The rows read from the lines from `i` on, after `rows`: the first `n` rows,
/// all in range; nothing where a row is out of range or there are too few.
pub open spec fn body_rows(
    list: Seq<Seq<char>>,
    i: nat,
    rows: Seq<Seq<usize>>,
    n: nat,
    columns: Seq<usize>,
) -> Option<Seq<Seq<usize>>>
    decreases list.len() - i,
{
    if i >= list.len() {
        if rows.len() == n {
            Some(rows)
        } else {
            None
        }
    } else {
        match row_cells(list[i as int], columns) {
            None => body_rows(list, i + 1, rows, n, columns),
            Some(row) => {
                if !row_in_range(row, columns) {
                    None
                } else if rows.len() + 1 == n {
                    Some(rows.push(row))
                } else {
                    body_rows(list, i + 1, rows.push(row), n, columns)
                }
            },
        }
    }
}

fn max_of(columns: &[usize]) -> (m: usize)
    ensures
        m == max_level(columns@),
{
    let mut m: usize = 2;
    let mut i: usize = 0;
    while i < columns.len()
        invariant
            i <= columns@.len(),
            m == max_level(columns@.take(i as int)),
        decreases columns@.len() - i,
    {
        assert(columns@.take(i + 1).drop_last() =~= columns@.take(i as int));
        if i == 0 || columns[i] > m {
            m = columns[i];
        }
        i = i + 1;
    }
    assert(columns@.take(i as int) =~= columns@);
    m
}

fn solid_chars(s: &[char]) -> (out: Vec<char>)
    ensures
        out@ == solid(s@),
{
    let mut out: Vec<char> = Vec::new();
    let mut i: usize = 0;
    while i < s.len()
        invariant
            i <= s@.len(),
            out@ == solid(s@.take(i as int)),
        decreases s@.len() - i,
    {
        assert(s@.take(i + 1).drop_last() =~= s@.take(i as int));
        if !is_white(s[i]) {
            out.push(s[i]);
        }
        i = i + 1;
    }
    assert(s@.take(i as int) =~= s@);
    out
}

fn parse_spaced(s: &[char], cols: usize) -> (r: Option<Vec<usize>>)
    ensures
        match r {
            Some(row) => spaced_row(s@, cols as nat) == Some(row@),
            None => spaced_row(s@, cols as nat) is None,
        },
{
    let parts: Vec<Vec<char>> = words(s);
    let ghost w = texts(parts@);
    if parts.len() != cols {
        return None;
    }
    let mut row: Vec<usize> = Vec::new();
    let mut i: usize = 0;
    while i < parts.len()
        invariant
            i <= parts@.len(),
            parts@.len() == cols,
            w == texts(parts@),
            w == word_list(s@),
            word_cells(w.take(i as int)) == Some(row@),
        decreases parts@.len() - i,
    {
        assert(w.take(i + 1).drop_last() =~= w.take(i as int));
        assert(w.take(i + 1).last() == parts@[i as int]@);
        match parse_unsigned(&parts[i], 255) {
            None => {
                proof {
                    lemma_word_cells_none(w, i + 1);
                }
                return None;
            },
            Some(n) => {
                row.push(n as usize);
            },
        }
        i = i + 1;
    }
    assert(w.take(i as int) =~= w);
    Some(row)
}

proof fn lemma_word_cells_none(w: Seq<Seq<char>>, i: int)
    requires
        0 <= i <= w.len(),
        word_cells(w.take(i)) is None,
    ensures
        word_cells(w) is None,
    decreases w.len() - i,
{
    if i < w.len() {
        assert(w.take(i + 1).drop_last() =~= w.take(i));
        lemma_word_cells_none(w, i + 1);
    } else {
        assert(w.take(i) =~= w);
    }
}

fn parse_row(line: &[char], columns: &[usize], packed: bool) -> (r: Option<Vec<usize>>)
    requires
        packed == (max_level(columns@) <= 10),
    ensures
        match r {
            Some(row) => row_cells(line@, columns@) == Some(row@) && row@.len() == columns@.len(),
            None => row_cells(line@, columns@) is None,
        },
{
    let s: Vec<char> = trim(line);
    if s.len() == 0 {
        return None;
    }
    if packed {
        let chars: Vec<char> = solid_chars(&s);
        if chars.len() == columns.len() {
            let mut row: Vec<usize> = Vec::new();
            let mut i: usize = 0;
            while i < chars.len()
                invariant
                    i <= chars@.len(),
                    s@ == trimmed(line@),
                    s@.len() > 0,
                    chars@ == solid(s@),
                    chars@.len() == columns@.len(),
                    max_level(columns@) <= 10,
                    row@.len() == i,
                    forall|j: int| 0 <= j < i ==> ascii_digit(#[trigger] chars@[j]),
                    forall|j: int| 0 <= j < i ==> #[trigger] row@[j] == digit_value(chars@[j]),
                decreases chars@.len() - i,
            {
                if !is_ascii_digit(chars[i]) {
                    return None;
                }
                row.push(value_of_digit(chars[i]) as usize);
                i = i + 1;
            }
            assert(row@ =~= Seq::new(chars@.len(), |i: int| digit_value(chars@[i]) as usize));
            return Some(row);
        }
    }
    let r: Option<Vec<usize>> = parse_spaced(&s, columns.len());
    proof {
        lemma_word_cells_len(word_list(s@));
    }
    r
}

proof fn lemma_word_cells_len(w: Seq<Seq<char>>)
    ensures
        word_cells(w) matches Some(cells) ==> cells.len() == w.len(),
    decreases w.len(),
{
    if w.len() > 0 {
        lemma_word_cells_len(w.drop_last());
    }
}

/// Reads the matrix off a file body.
pub fn parse_body(body: &str, n_runs: usize, columns: &[usize]) -> (r: Option<Vec<Vec<usize>>>)
    ensures
        match r {
            Some(rows) => body_rows(line_list(body@), 0, Seq::empty(), n_runs as nat, columns@)
                == Some(grid(rows@)) && rows@.len() == n_runs && cells_in_range(
                grid(rows@),
                columns@,
            ),
            None => body_rows(line_list(body@), 0, Seq::empty(), n_runs as nat, columns@) is None,
        },
{
    let packed: bool = max_of(columns) <= 10;
    let chars: Vec<char> = chars_of(body);
    let all: Vec<Vec<char>> = lines(&chars);
    let ghost list = texts(all@);
    let mut rows: Vec<Vec<usize>> = Vec::new();
    assert(grid(rows@) =~= Seq::empty());
    let mut i: usize = 0;
    while i < all.len()
        invariant
            i <= all@.len(),
            list == texts(all@),
            list == line_list(body@),
            packed == (max_level(columns@) <= 10),
            cells_in_range(grid(rows@), columns@),
            body_rows(list, 0, Seq::empty(), n_runs as nat, columns@) == body_rows(
                list,
                i as nat,
                grid(rows@),
                n_runs as nat,
                columns@,
            ),
        decreases all@.len() - i,
    {
        assert(list[i as int] == all@[i as int]@);
        match parse_row(&all[i], columns, packed) {
            None => {},
            Some(row) => {
                if !in_range(&row, columns) {
                    return None;
                }
                let ghost before = grid(rows@);
                let ghost cells = row@;
                rows.push(row);
                assert(grid(rows@) =~= before.push(cells));
                proof {
                    let g = grid(rows@);
                    assert forall|r: int| 0 <= r < g.len() implies #[trigger] g[r].len()
                        == columns@.len() by {
                        if r < before.len() {
                            assert(g[r] == before[r]);
                        }
                    }
                    assert forall|r: int, c: int|
                        0 <= r < g.len() && 0 <= c < columns@.len() implies #[trigger] g[r][c]
                        < columns@[c] by {
                        if r < before.len() {
                            assert(g[r] == before[r]);
                            assert(before[r][c] < columns@[c]);
                        }
                    }
                }
                if rows.len() == n_runs {
                    return Some(rows);
                }
            },
        }
        i = i + 1;
    }
    if rows.len() == n_runs {
        Some(rows)
    } else {
        None
    }
}

fn in_range(row: &Vec<usize>, columns: &[usize]) -> (r: bool)
    requires
        row@.len() == columns@.len(),
    ensures
        r == row_in_range(row@, columns@),
{
    let mut c: usize = 0;
    while c < row.len()
        invariant
            row@.len() == columns@.len(),
            c <= row@.len(),
            forall|i: int| 0 <= i < c ==> #[trigger] row@[i] < columns@[i],
        decreases row@.len() - c,
    {
        if row[c] >= columns[c] {
            return false;
        }
        c = c + 1;
    }
    true
}

// ===== Index =====

/// `a` comes before `b` in the order of the characters.
pub open spec fn text_less(a: Seq<char>, b: Seq<char>) -> bool
    decreases a.len(),
{
    if b.len() == 0 {
        false
    } else if a.len() == 0 {
        true
    } else if a[0] != b[0] {
        a[0] < b[0]
    } else {
        text_less(a.drop_first(), b.drop_first())
    }
}

/// `a` comes before `b` in the index: fewer rows, then fewer columns, then the
/// smaller name.
pub open spec fn entry_less(a: EntryView, b: EntryView) -> bool {
    if a.n_runs != b.n_runs {
        a.n_runs < b.n_runs
    } else if a.columns.len() != b.columns.len() {
        a.columns.len() < b.columns.len()
    } else {
        text_less(a.name, b.name)
    }
}

/// The place of `e` among `list`, from `i` on: before the first entry that comes
/// after it.
pub open spec fn slot(list: Seq<EntryView>, e: EntryView, i: nat) -> nat
    decreases list.len() - i,
{
    if i < list.len() && !entry_less(e, list[i as int]) {
        slot(list, e, i + 1)
    } else {
        i
    }
}

/// The list with `e` put in its place.
pub open spec fn inserted(list: Seq<EntryView>, e: EntryView) -> Seq<EntryView> {
    list.insert(slot(list, e, 0) as int, e)
}

/// The entry that a file holds, where its name and body have the layout.
pub open spec fn file_entry(name: Seq<char>, body: Seq<char>) -> Option<EntryView> {
    match file_meta(name) {
        None => None,
        Some((n, columns)) => match body_rows(line_list(body), 0, Seq::empty(), n as nat, columns) {
            None => None,
            Some(array) => Some(EntryView { name, n_runs: n as nat, columns, array }),
        },
    }
}

/// The index of the files: their entries in order, equal ones in file order.
pub open spec fn index_of(files: Seq<(Seq<char>, Seq<char>)>) -> Seq<EntryView>
    decreases files.len(),
{
    if files.len() == 0 {
        Seq::empty()
    } else {
        match file_entry(files.last().0, files.last().1) {
            None => index_of(files.drop_last()),
            Some(e) => inserted(index_of(files.drop_last()), e),
        }
    }
}

/// The names and bodies of the files.
pub open spec fn file_views(files: Seq<(String, String)>) -> Seq<(Seq<char>, Seq<char>)> {
    files.map_values(|f: (String, String)| (f.0@, f.1@))
}

fn is_text_less(a: &Vec<char>, b: &Vec<char>) -> (r: bool)
    ensures
        r == text_less(a@, b@),
{
    let mut i: usize = 0;
    assert(a@.skip(0) =~= a@ && b@.skip(0) =~= b@);
    while i < a.len() && i < b.len()
        invariant
            i <= a@.len(),
            i <= b@.len(),
            text_less(a@, b@) == text_less(a@.skip(i as int), b@.skip(i as int)),
        decreases a@.len() - i,
    {
        if a[i] != b[i] {
            return a[i] < b[i];
        }
        assert(a@.skip(i as int).drop_first() =~= a@.skip(i + 1));
        assert(b@.skip(i as int).drop_first() =~= b@.skip(i + 1));
        i = i + 1;
    }
    i < b.len()
}

fn is_entry_less(a: &CatalogEntry, b: &CatalogEntry) -> (r: bool)
    ensures
        r == entry_less(a@, b@),
{
    if a.n_runs != b.n_runs {
        a.n_runs < b.n_runs
    } else if a.columns.len() != b.columns.len() {
        a.columns.len() < b.columns.len()
    } else {
        let x: Vec<char> = chars_of(a.name.as_str());
        let y: Vec<char> = chars_of(b.name.as_str());
        is_text_less(&x, &y)
    }
}

/// Parses the files into an index, sorted by rows, columns and name. Files of
/// another layout are left out.
pub fn build_index(files: &[(String, String)]) -> (index: Vec<CatalogEntry>)
    ensures
        entries(index@) == index_of(file_views(files@)),
        forall|i: int| 0 <= i < index@.len() ==> (#[trigger] index@[i]).wf(),
{
    let ghost all = file_views(files@);
    let mut index: Vec<CatalogEntry> = Vec::new();
    let mut i: usize = 0;
    assert(entries(index@) =~= index_of(all.take(0)));
    while i < files.len()
        invariant
            i <= files@.len(),
            all == file_views(files@),
            entries(index@) == index_of(all.take(i as int)),
            forall|j: int| 0 <= j < index@.len() ==> (#[trigger] index@[j]).wf(),
        decreases files@.len() - i,
    {
        assert(all.take(i + 1).drop_last() =~= all.take(i as int));
        assert(all.take(i + 1).last() == (files@[i as int].0@, files@[i as int].1@));
        let (name, body): (&String, &String) = (&files[i].0, &files[i].1);
        match parse_filename(name.as_str()) {
            None => {},
            Some(meta) => match parse_body(body.as_str(), meta.n_runs, &meta.columns) {
                None => {},
                Some(array) => {
                    let e: CatalogEntry = CatalogEntry {
                        name: name.clone(),
                        n_runs: meta.n_runs,
                        columns: meta.columns,
                        array,
                    };
                    let ghost list = entries(index@);
                    let ghost before = index@;
                    let mut at: usize = 0;
                    while at < index.len() && !is_entry_less(&e, &index[at])
                        invariant
                            at <= index@.len(),
                            list == entries(index@),
                            before == index@,
                            slot(list, e@, 0) == slot(list, e@, at as nat),
                        decreases index@.len() - at,
                    {
                        assert(list[at as int] == index@[at as int]@);
                        at = at + 1;
                    }
                    assert(at < index@.len() ==> list[at as int] == index@[at as int]@);
                    let ghost ev = e@;
                    index.insert(at, e);
                    assert(entries(index@) =~= list.insert(at as int, ev));
                },
            },
        }
        i = i + 1;
    }
    assert(all.take(i as int) =~= all);
    index
}

/// The entries stand in order: none comes before an earlier one.
pub open spec fn in_order(list: Seq<EntryView>) -> bool {
    forall|i: int, j: int|
        0 <= i < j < list.len() ==> !entry_less(#[trigger] list[j], #[trigger] list[i])
}

proof fn lemma_text_less(a: Seq<char>, b: Seq<char>, c: Seq<char>)
    ensures
        !text_less(a, a),
        text_less(a, b) ==> !text_less(b, a),
        !text_less(b, a) && !text_less(c, b) ==> !text_less(c, a),
    decreases a.len() + b.len() + c.len(),
{
    if a.len() > 0 {
        lemma_text_less(
            a.drop_first(),
            if b.len() > 0 {
                b.drop_first()
            } else {
                b
            },
            if c.len() > 0 {
                c.drop_first()
            } else {
                c
            },
        );
    }
}

proof fn lemma_slot(list: Seq<EntryView>, e: EntryView, i: nat)
    requires
        i <= list.len(),
    ensures
        i <= slot(list, e, i) <= list.len(),
        forall|j: int| i <= j < slot(list, e, i) ==> !entry_less(e, #[trigger] list[j]),
        slot(list, e, i) < list.len() ==> entry_less(e, list[slot(list, e, i) as int]),
    decreases list.len() - i,
{
    if i < list.len() && !entry_less(e, list[i as int]) {
        lemma_slot(list, e, i + 1);
    }
}

/// The index of any files is sorted.
pub proof fn index_is_sorted(files: Seq<(Seq<char>, Seq<char>)>)
    ensures
        in_order(index_of(files)),
    decreases files.len(),
{
    if files.len() > 0 {
        index_is_sorted(files.drop_last());
        match file_entry(files.last().0, files.last().1) {
            None => {},
            Some(e) => {
                let list = index_of(files.drop_last());
                let p = slot(list, e, 0) as int;
                let r = inserted(list, e);
                lemma_slot(list, e, 0);
                assert forall|i: int, j: int| 0 <= i < j < r.len() implies !entry_less(
                    #[trigger] r[j],
                    #[trigger] r[i],
                ) by {
                    let a = if i < p {
                        list[i]
                    } else if i == p {
                        e
                    } else {
                        list[i - 1]
                    };
                    let b = if j < p {
                        list[j]
                    } else if j == p {
                        e
                    } else {
                        list[j - 1]
                    };
                    assert(r[i] == a && r[j] == b);
                    if i == p {
                        // e comes before list[p], which does not come after list[j - 1]
                        let m = list[p];
                        lemma_text_less(e.name, m.name, b.name);
                        lemma_text_less(b.name, e.name, m.name);
                        lemma_text_less(m.name, b.name, e.name);
                        lemma_text_less(e.name, b.name, m.name);
                        assert(entry_less(e, m));
                        if p < j - 1 {
                            assert(!entry_less(list[j - 1], list[p]));
                        }
                    }
                }
            },
        }
    }
}

// ===== Selection =====

/// The columns have at least as many of each requested level count as requested.
pub open spec fn supplies(columns: Seq<usize>, levels: Seq<usize>) -> bool {
    forall|p: int|
        0 <= p < levels.len() ==> count_level(columns, #[trigger] levels[p] as int) >= count_level(
            levels,
            levels[p] as int,
        )
}

/// `chosen` gives each factor the next unused column with its level count.
pub open spec fn first_columns(columns: Seq<usize>, levels: Seq<usize>, chosen: Seq<usize>) -> bool {
    &&& chosen.len() == levels.len()
    &&& forall|p: int|
        0 <= p < levels.len() ==> (#[trigger] chosen[p]) < columns.len() && columns[chosen[p] as int]
            == levels[p] && count_level(columns.take(chosen[p] as int), levels[p] as int) == rank(
            levels,
            p,
        )
}

/// The chosen columns of an array.
pub open spec fn picked(g: Seq<Seq<usize>>, chosen: Seq<usize>) -> Seq<Seq<usize>> {
    Seq::new(g.len(), |r: int| Seq::new(chosen.len(), |p: int| g[r][chosen[p] as int]))
}

/// The level counts of the chosen columns.
pub open spec fn picked_levels(columns: Seq<usize>, chosen: Seq<usize>) -> Seq<usize> {
    Seq::new(chosen.len(), |p: int| columns[chosen[p] as int])
}

/// The position of the first entry, from `i` on, that supplies the level counts.
pub open spec fn first_supplying(list: Seq<EntryView>, levels: Seq<usize>, i: nat) -> Option<nat>
    decreases list.len() - i,
{
    if i >= list.len() {
        None
    } else if supplies(list[i as int].columns, levels) {
        Some(i)
    } else {
        first_supplying(list, levels, i + 1)
    }
}

/// How a catalog array was found.
pub open spec fn lookup_method(e: EntryView) -> Seq<char> {
    "Sloane lookup ("@ + e.name + ")"@
}

/// The name of a catalog array of which `used` columns are used.
pub open spec fn lookup_label(e: EntryView, used: nat) -> Seq<char> {
    "L"@ + decimal(e.n_runs) + " (Sloane "@ + e.name + ", "@ + decimal(used) + " of "@ + decimal(
        e.columns.len(),
    ) + " cols used)"@
}

/// What the lookup gives for the level counts.
pub open spec fn found(list: Seq<EntryView>, levels: Seq<usize>, r: Option<Selected>) -> bool {
    match r {
        None => levels.len() == 0 || first_supplying(list, levels, 0) is None,
        Some(sel) => {
            &&& levels.len() > 0
            &&& first_supplying(list, levels, 0) matches Some(i)
            &&& exists|chosen: Seq<usize>|
                {
                    &&& #[trigger] first_columns(list[i as int].columns, levels, chosen)
                    &&& grid(sel.array@) == picked(list[i as int].array, chosen)
                }
            &&& sel.column_levels@ == levels
            &&& sel.info.rows == sel.array@.len()
            &&& sel.info.cols == levels.len()
            &&& sel.info.method@ == lookup_method(list[i as int])
            &&& sel.info.label@ == lookup_label(list[i as int], levels.len())
        },
    }
}

/// `a` and `b` show the same pairs whichever stands first.
proof fn lemma_pair_symmetric(g: Seq<Seq<usize>>, i: int, j: int, x: int, y: int)
    ensures
        pair_count(g, i, j, x, y) == pair_count(g, j, i, y, x),
    decreases g.len(),
{
    if g.len() > 0 {
        lemma_pair_symmetric(g.drop_last(), i, j, x, y);
    }
}

proof fn lemma_picked_count(
    g: Seq<Seq<usize>>,
    chosen: Seq<usize>,
    i: int,
    j: int,
    x: int,
    y: int,
)
    requires
        0 <= i < chosen.len(),
        0 <= j < chosen.len(),
    ensures
        pair_count(picked(g, chosen), i, j, x, y) == pair_count(
            g,
            chosen[i] as int,
            chosen[j] as int,
            x,
            y,
        ),
    decreases g.len(),
{
    let h = picked(g, chosen);
    if g.len() > 0 {
        lemma_picked_count(g.drop_last(), chosen, i, j, x, y);
        assert(h.drop_last() =~= picked(g.drop_last(), chosen));
        assert(h.last()[i] == g.last()[chosen[i] as int]);
        assert(h.last()[j] == g.last()[chosen[j] as int]);
    }
}

/// Distinct columns of an array of strength 2 form an array of strength 2.
pub proof fn picked_has_strength2(g: Seq<Seq<usize>>, columns: Seq<usize>, chosen: Seq<usize>)
    requires
        strength2(g, columns),
        cells_in_range(g, columns),
        forall|p: int| 0 <= p < chosen.len() ==> #[trigger] chosen[p] < columns.len(),
        forall|p: int, p2: int|
            0 <= p < p2 < chosen.len() ==> #[trigger] chosen[p] != #[trigger] chosen[p2],
    ensures
        strength2(picked(g, chosen), picked_levels(columns, chosen)),
{
    let h = picked(g, chosen);
    let levels = picked_levels(columns, chosen);
    assert forall|i: int, j: int| 0 <= i < j < levels.len() implies #[trigger] balanced(
        h,
        i,
        j,
        levels[i] as int,
        levels[j] as int,
    ) by {
        let (a, b) = (chosen[i] as int, chosen[j] as int);
        let (qi, qj) = (columns[a] as int, columns[b] as int);
        assert(levels[i] == qi && levels[j] == qj);
        assert forall|r: int| 0 <= r < h.len() implies #[trigger] h[r][i] < qi && h[r][j] < qj by {
            assert(g[r][a] < columns[a] && g[r][b] < columns[b]);
        }
        assert forall|x: int, y: int| 0 <= x < qi && 0 <= y < qj implies #[trigger] pair_count(
            h,
            i,
            j,
            x,
            y,
        ) * (qi * qj) == h.len() by {
            lemma_picked_count(g, chosen, i, j, x, y);
            if a < b {
                assert(balanced(g, a, b, columns[a] as int, columns[b] as int));
                assert(pair_count(g, a, b, x, y) * (qi * qj) == g.len());
            } else {
                assert(balanced(g, b, a, columns[b] as int, columns[a] as int));
                lemma_pair_symmetric(g, a, b, x, y);
                assert(pair_count(g, b, a, y, x) * (qj * qi) == g.len());
                assert(qj * qi == qi * qj) by (nonlinear_arith);
            }
        }
    }
}

/// The next unused columns are distinct.
pub proof fn first_columns_distinct(columns: Seq<usize>, levels: Seq<usize>, chosen: Seq<usize>)
    requires
        first_columns(columns, levels, chosen),
    ensures
        forall|p: int, p2: int|
            0 <= p < p2 < chosen.len() ==> #[trigger] chosen[p] != #[trigger] chosen[p2],
{
    assert forall|p: int, p2: int| 0 <= p < p2 < chosen.len() implies #[trigger] chosen[p]
        != #[trigger] chosen[p2] by {
        if chosen[p] == chosen[p2] {
            super::kronecker::lemma_rank_increases(levels, p, p2);
        }
    }
}

/// There is one choice of next unused columns only.
proof fn lemma_first_columns_unique(
    columns: Seq<usize>,
    levels: Seq<usize>,
    a: Seq<usize>,
    b: Seq<usize>,
)
    requires
        first_columns(columns, levels, a),
        first_columns(columns, levels, b),
    ensures
        a == b,
{
    assert forall|p: int| 0 <= p < a.len() implies a[p] == b[p] by {
        let l = levels[p] as int;
        assert(a[p] < columns.len() && b[p] < columns.len());
        if a[p] < b[p] {
            super::kronecker::lemma_rank_increases(columns, a[p] as int, b[p] as int);
        } else if b[p] < a[p] {
            super::kronecker::lemma_rank_increases(columns, b[p] as int, a[p] as int);
        }
    }
    assert(a =~= b);
}

/// The lookup gives one array only.
pub proof fn found_is_unique(list: Seq<EntryView>, levels: Seq<usize>, a: Selected, b: Selected)
    requires
        found(list, levels, Some(a)),
        found(list, levels, Some(b)),
    ensures
        a@ == b@,
{
    let i = first_supplying(list, levels, 0)->0;
    let e = list[i as int];
    let c = choose|c: Seq<usize>|
        #[trigger] first_columns(e.columns, levels, c) && grid(a.array@) == picked(e.array, c);
    let d = choose|d: Seq<usize>|
        #[trigger] first_columns(e.columns, levels, d) && grid(b.array@) == picked(e.array, d);
    assert(first_columns(e.columns, levels, c));
    assert(first_columns(e.columns, levels, d));
    lemma_first_columns_unique(e.columns, levels, c, d);
    assert(grid(a.array@) == grid(b.array@));
    assert(grid(a.array@).len() == a.array@.len());
    assert(grid(b.array@).len() == b.array@.len());
    assert(a@ =~= b@);
}

/// An array found in an index whose entries have strength 2 has strength 2.
pub proof fn found_has_strength2(list: Seq<EntryView>, levels: Seq<usize>, sel: Selected)
    requires
        found(list, levels, Some(sel)),
        forall|i: int|
            0 <= i < list.len() ==> cells_in_range(#[trigger] list[i].array, list[i].columns)
                && strength2(list[i].array, list[i].columns),
    ensures
        strength2(grid(sel.array@), sel.column_levels@),
{
    lemma_first_supplying(list, levels, 0);
    let i = first_supplying(list, levels, 0)->0 as int;
    let e = list[i];
    assert(cells_in_range(e.array, e.columns));
    let chosen = choose|chosen: Seq<usize>|
        #[trigger] first_columns(e.columns, levels, chosen) && grid(sel.array@) == picked(
            e.array,
            chosen,
        );
    first_columns_distinct(e.columns, levels, chosen);
    picked_has_strength2(e.array, e.columns, chosen);
    assert(picked_levels(e.columns, chosen) =~= levels);
}

proof fn lemma_first_supplying(list: Seq<EntryView>, levels: Seq<usize>, i: nat)
    ensures
        first_supplying(list, levels, i) matches Some(k) ==> i <= k < list.len() && supplies(
            list[k as int].columns,
            levels,
        ),
    decreases list.len() - i,
{
    if i < list.len() && !supplies(list[i as int].columns, levels) {
        lemma_first_supplying(list, levels, i + 1);
    }
}

fn count_in(levels: &[usize], l: usize) -> (n: usize)
    ensures
        n == count_level(levels@, l as int),
{
    let mut n: usize = 0;
    let mut i: usize = 0;
    while i < levels.len()
        invariant
            i <= levels@.len(),
            n <= i,
            n == count_level(levels@.take(i as int), l as int),
        decreases levels@.len() - i,
    {
        assert(levels@.take(i + 1).drop_last() =~= levels@.take(i as int));
        if levels[i] == l {
            n = n + 1;
        }
        i = i + 1;
    }
    assert(levels@.take(i as int) =~= levels@);
    n
}

fn does_supply(columns: &[usize], levels: &[usize]) -> (r: bool)
    ensures
        r == supplies(columns@, levels@),
{
    let mut p: usize = 0;
    while p < levels.len()
        invariant
            p <= levels@.len(),
            forall|i: int|
                0 <= i < p ==> count_level(columns@, #[trigger] levels@[i] as int) >= count_level(
                    levels@,
                    levels@[i] as int,
                ),
        decreases levels@.len() - p,
    {
        let l: usize = levels[p];
        if count_in(columns, l) < count_in(levels, l) {
            assert(levels@[p as int] == l);
            return false;
        }
        p = p + 1;
    }
    true
}

/// The column with level count `l` before which `t` others have it.
fn nth_column(columns: &[usize], l: usize, t: usize) -> (c: usize)
    requires
        t < count_level(columns@, l as int),
    ensures
        c < columns@.len(),
        columns@[c as int] == l,
        count_level(columns@.take(c as int), l as int) == t,
{
    let mut c: usize = 0;
    let mut seen: usize = 0;
    loop
        invariant
            t < count_level(columns@, l as int),
            c <= columns@.len(),
            seen <= t,
            seen == count_level(columns@.take(c as int), l as int),
        decreases columns@.len() - c,
    {
        assert(columns@.take(columns@.len() as int) =~= columns@);
        assert(columns@.take(c + 1).drop_last() =~= columns@.take(c as int));
        if columns[c] == l {
            if seen == t {
                return c;
            }
            seen = seen + 1;
        }
        c = c + 1;
    }
}

/// The chosen columns of every row.
pub(crate) fn pick(array: &Vec<Vec<usize>>, chosen: &[usize]) -> (out: Vec<Vec<usize>>)
    requires
        forall|r: int, p: int|
            0 <= r < array@.len() && 0 <= p < chosen@.len() ==> #[trigger] chosen@[p] < (
            #[trigger] array@[r])@.len(),
    ensures
        grid(out@) == picked(grid(array@), chosen@),
        out@.len() == array@.len(),
{
    let mut out: Vec<Vec<usize>> = Vec::new();
    let mut r: usize = 0;
    while r < array.len()
        invariant
            r <= array@.len(),
            out@.len() == r,
            forall|s: int, p: int|
                0 <= s < array@.len() && 0 <= p < chosen@.len() ==> #[trigger] chosen@[p] < (
                #[trigger] array@[s])@.len(),
            forall|s: int| 0 <= s < r ==> (#[trigger] out@[s])@ == picked(grid(array@), chosen@)[s],
        decreases array@.len() - r,
    {
        let src: &Vec<usize> = &array[r];
        let mut row: Vec<usize> = Vec::new();
        let mut p: usize = 0;
        while p < chosen.len()
            invariant
                p <= chosen@.len(),
                row@.len() == p,
                forall|i: int| 0 <= i < chosen@.len() ==> #[trigger] chosen@[i] < src@.len(),
                forall|i: int| 0 <= i < p ==> #[trigger] row@[i] == src@[chosen@[i] as int],
            decreases chosen@.len() - p,
        {
            row.push(src[chosen[p]]);
            p = p + 1;
        }
        assert(row@ =~= picked(grid(array@), chosen@)[r as int]);
        out.push(row);
        r = r + 1;
    }
    assert(grid(out@) =~= picked(grid(array@), chosen@));
    out
}

fn method_text(e: &CatalogEntry) -> (s: String)
    ensures
        s@ == lookup_method(e@),
{
    let mut s: String = String::new();
    s.append("Sloane lookup (");
    s.append(e.name.as_str());
    s.append(")");
    assert(s@ =~= lookup_method(e@));
    s
}

/// The smallest array of the index that supplies a column for every factor.
pub fn find(index: &[CatalogEntry], user_levels: &[usize]) -> (r: Option<Selected>)
    requires
        forall|i: int| 0 <= i < index@.len() ==> (#[trigger] index@[i]).wf(),
    ensures
        found(entries(index@), user_levels@, r),
        r matches Some(sel) ==> sel.wf(),
{
    let n: usize = user_levels.len();
    let ghost list = entries(index@);
    let ghost levels = user_levels@;
    if n == 0 {
        return None;
    }
    let mut at: usize = 0;
    while at < index.len() && !does_supply(&index[at].columns, user_levels)
        invariant
            at <= index@.len(),
            list == entries(index@),
            levels == user_levels@,
            first_supplying(list, levels, 0) == first_supplying(list, levels, at as nat),
        decreases index@.len() - at,
    {
        assert(list[at as int] == index@[at as int]@);
        at = at + 1;
    }
    if at == index.len() {
        return None;
    }
    let e: &CatalogEntry = &index[at];
    assert(list[at as int] == e@);
    let mut chosen: Vec<usize> = Vec::new();
    let mut p: usize = 0;
    while p < n
        invariant
            n == user_levels@.len(),
            p <= n,
            supplies(e.columns@, user_levels@),
            chosen@.len() == p,
            forall|i: int|
                0 <= i < p ==> (#[trigger] chosen@[i]) < e.columns@.len() && e.columns@[chosen@[i] as int]
                    == user_levels@[i] && count_level(
                    e.columns@.take(chosen@[i] as int),
                    user_levels@[i] as int,
                ) == rank(user_levels@, i),
        decreases n - p,
    {
        let l: usize = user_levels[p];
        let mut t: usize = 0;
        let mut i: usize = 0;
        while i < p
            invariant
                p < n,
                n == user_levels@.len(),
                l == user_levels@[p as int],
                i <= p,
                t <= i,
                t == count_level(user_levels@.take(i as int), l as int),
            decreases p - i,
        {
            assert(user_levels@.take(i + 1).drop_last() =~= user_levels@.take(i as int));
            if user_levels[i] == l {
                t = t + 1;
            }
            i = i + 1;
        }
        proof {
            super::kronecker::lemma_count_level_take(user_levels@, p as int, l as int);
            assert(count_level(e.columns@, user_levels@[p as int] as int) >= count_level(
                user_levels@,
                l as int,
            ));
        }
        chosen.push(nth_column(&e.columns, l, t));
        p = p + 1;
    }
    assert(first_columns(e.columns@, levels, chosen@));
    assert(e.wf());
    assert forall|r: int, i: int|
        0 <= r < e.array@.len() && 0 <= i < chosen@.len() implies #[trigger] chosen@[i] < (
    #[trigger] e.array@[r])@.len() by {
        assert(grid(e.array@)[r].len() == e.columns@.len());
    }
    let array: Vec<Vec<usize>> = pick(&e.array, &chosen);
    let mut column_levels: Vec<usize> = Vec::new();
    let mut c: usize = 0;
    while c < n
        invariant
            n == user_levels@.len(),
            c <= n,
            column_levels@ == user_levels@.take(c as int),
        decreases n - c,
    {
        column_levels.push(user_levels[c]);
        assert(column_levels@ =~= user_levels@.take(c + 1));
        c = c + 1;
    }
    assert(column_levels@ =~= levels);
    let method: String = method_text(e);
    let mut label: String = String::new();
    label.append("L");
    push_decimal(&mut label, e.n_runs as u64);
    label.append(" (Sloane ");
    label.append(e.name.as_str());
    label.append(", ");
    push_decimal(&mut label, n as u64);
    label.append(" of ");
    push_decimal(&mut label, e.columns.len() as u64);
    label.append(" cols used)");
    proof {
        assert(label@ =~= lookup_label(e@, levels.len()));
        let h = grid(array@);
        assert forall|r: int, i: int| 0 <= r < h.len() && 0 <= i < n implies #[trigger] h[r][i]
            < levels[i] by {
            assert(h[r][i] == grid(e.array@)[r][chosen@[i] as int]);
        }
    }
    let info: ArrayInfo = ArrayInfo { rows: array.len(), cols: n, label, method };
    Some(Selected { info, array, column_levels })
}

/// The positions of the entries, from `i` on, that supply the level counts.
pub open spec fn supplying(list: Seq<EntryView>, levels: Seq<usize>, i: nat) -> Seq<int>
    decreases i,
{
    if i == 0 {
        Seq::empty()
    } else if supplies(list[i - 1].columns, levels) {
        supplying(list, levels, (i - 1) as nat).push(i - 1)
    } else {
        supplying(list, levels, (i - 1) as nat)
    }
}

/// The positions of all entries that supply the level counts, in the order of
/// the index.
pub fn entries_supplying(index: &[CatalogEntry], levels: &[usize]) -> (out: Vec<usize>)
    ensures
        out@.map_values(|i: usize| i as int) == supplying(
            entries(index@),
            levels@,
            index@.len(),
        ),
{
    let ghost f = |i: usize| i as int;
    let mut out: Vec<usize> = Vec::new();
    let mut at: usize = 0;
    assert(out@.map_values(f) =~= Seq::empty());
    while at < index.len()
        invariant
            at <= index@.len(),
            f == (|i: usize| i as int),
            out@.map_values(f) == supplying(entries(index@), levels@, at as nat),
        decreases index@.len() - at,
    {
        assert(entries(index@)[at as int] == index@[at as int]@);
        if does_supply(&index[at].columns, levels) {
            let ghost before = out@;
            out.push(at);
            assert(out@.map_values(f) =~= before.map_values(f).push(at as int));
        }
        at = at + 1;
    }
    out
}

/// The column numbers of an assignment, counted from one.
pub open spec fn column_numbers(assignment: Seq<usize>) -> Seq<Seq<char>> {
    Seq::new(assignment.len(), |i: int| decimal((assignment[i] + 1) as nat))
}

/// The name of a catalog array with the assigned columns.
pub open spec fn columns_label(e: EntryView, assignment: Seq<usize>) -> Seq<char> {
    "L"@ + decimal(e.n_runs) + " (Sloane "@ + e.name + ", cols "@ + separated(
        column_numbers(assignment),
        ","@,
    ) + ")"@
}

/// The column numbers of an assignment as a text.
pub fn column_list(assignment: &[usize]) -> (s: String)
    requires
        forall|i: int| 0 <= i < assignment@.len() ==> #[trigger] assignment@[i] < usize::MAX,
    ensures
        s@ == separated(column_numbers(assignment@), ","@),
{
    let mut parts: Vec<String> = Vec::new();
    let mut i: usize = 0;
    while i < assignment.len()
        invariant
            i <= assignment@.len(),
            parts@.len() == i,
            forall|j: int| 0 <= j < assignment@.len() ==> #[trigger] assignment@[j] < usize::MAX,
            forall|j: int|
                0 <= j < i ==> (#[trigger] parts@[j])@ == decimal((assignment@[j] + 1) as nat),
        decreases assignment@.len() - i,
    {
        parts.push(decimal_text(assignment[i] + 1));
        i = i + 1;
    }
    assert(views(parts@) =~= column_numbers(assignment@));
    join(&parts, ",")
}

/// The assigned columns of a catalog array.
pub fn select_columns(entry: &CatalogEntry, assignment: &[usize]) -> (sel: Selected)
    requires
        entry.wf(),
        forall|i: int|
            0 <= i < assignment@.len() ==> #[trigger] assignment@[i] < entry.columns@.len(),
    ensures
        grid(sel.array@) == picked(entry@.array, assignment@),
        sel.column_levels@ == picked_levels(entry@.columns, assignment@),
        sel.info.rows == entry.n_runs,
        sel.info.cols == assignment@.len(),
        sel.info.method@ == lookup_method(entry@),
        sel.info.label@ == columns_label(entry@, assignment@),
        sel.wf(),
{
    assert forall|r: int, i: int|
        0 <= r < entry.array@.len() && 0 <= i < assignment@.len() implies #[trigger] assignment@[i]
        < (#[trigger] entry.array@[r])@.len() by {
        assert(grid(entry.array@)[r].len() == entry.columns@.len());
    }
    let array: Vec<Vec<usize>> = pick(&entry.array, assignment);
    let mut column_levels: Vec<usize> = Vec::new();
    let mut i: usize = 0;
    while i < assignment.len()
        invariant
            i <= assignment@.len(),
            column_levels@.len() == i,
            forall|j: int|
                0 <= j < assignment@.len() ==> #[trigger] assignment@[j] < entry.columns@.len(),
            forall|j: int|
                0 <= j < i ==> #[trigger] column_levels@[j] == entry.columns@[assignment@[j] as int],
        decreases assignment@.len() - i,
    {
        column_levels.push(entry.columns[assignment[i]]);
        i = i + 1;
    }
    assert(column_levels@ =~= picked_levels(entry@.columns, assignment@));
    let total: usize = entry.columns.len();
    let cols: String = column_list(assignment);
    let method: String = method_text(entry);
    let mut label: String = String::new();
    label.append("L");
    push_decimal(&mut label, entry.n_runs as u64);
    label.append(" (Sloane ");
    label.append(entry.name.as_str());
    label.append(", cols ");
    label.append(cols.as_str());
    label.append(")");
    proof {
        assert(label@ =~= columns_label(entry@, assignment@));
        let h = grid(array@);
        assert forall|r: int, i: int|
            0 <= r < h.len() && 0 <= i < assignment@.len() implies #[trigger] h[r][i]
            < column_levels@[i] by {
            assert(h[r][i] == grid(entry.array@)[r][assignment@[i] as int]);
        }
    }
    let info: ArrayInfo = ArrayInfo { rows: entry.n_runs, cols: assignment.len(), label, method };
    Selected { info, array, column_levels }
}

} // verus!
