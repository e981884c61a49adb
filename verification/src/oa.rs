//! Orthogonal-array construction with tiered fall-through.
//!
//! Methods tried, in order:
//!   1. Lookup     — catalog entries (L12, L18, L36, …).
//!   2. GF Bush    — Bush construction over GF(prime) or GF(prime power).
//!   3. Kronecker  — combine per-level-group Bush OAs by tensor product.
//!   4. Backtrack  — DFS column extension with pair-balance pruning.
//!
//! Every `Selected` carries the human-readable `method` so callers can show
//! which tier fired. All paths return an OA where `array[row][col]` is in
//! `0..column_levels[col]`.
use vstd::prelude::*;

pub mod backtrack;
pub mod bush;
pub mod catalog;
pub mod completeness;
pub mod counting;
pub mod digits;
pub mod gf;
pub mod kronecker;
pub mod lookup;
pub mod modular;
pub mod strength;

pub use strength::verify_strength2;

use crate::error::Error;
use crate::factor::{Factor, FactorValue};
use crate::text::{decimal, separated};
use bush::uniform;
use kronecker::tractable;
use lookup::{entries, CatalogEntry, EntryView};
use strength::{cells_in_range, grid, strength2};

verus! {

/// Size, name and origin of an array.
#[derive(Debug)]
pub struct ArrayInfo {
    pub rows: usize,
    pub cols: usize,
    pub label: String,
    pub method: String,
}

/// An array with the level count of each of its columns.
#[derive(Debug)]
pub struct Selected {
    pub info: ArrayInfo,
    pub array: Vec<Vec<usize>>,
    pub column_levels: Vec<usize>,
}

/// What an array holds.
#[verifier::ext_equal]
pub struct SelectedView {
    pub rows: nat,
    pub cols: nat,
    pub label: Seq<char>,
    pub method: Seq<char>,
    pub array: Seq<Seq<usize>>,
    pub column_levels: Seq<usize>,
}

impl View for Selected {
    type V = SelectedView;

    open spec fn view(&self) -> SelectedView {
        SelectedView {
            rows: self.info.rows as nat,
            cols: self.info.cols as nat,
            label: self.info.label@,
            method: self.info.method@,
            array: grid(self.array@),
            column_levels: self.column_levels@,
        }
    }
}

impl Selected {
    /// An equal array.
    pub fn copy(&self) -> (s: Selected)
        ensures
            s@ == self@,
            self.wf() ==> s.wf(),
    {
        let mut array: Vec<Vec<usize>> = Vec::new();
        let mut r: usize = 0;
        while r < self.array.len()
            invariant
                r <= self.array@.len(),
                array@.len() == r,
                forall|k: int| 0 <= k < r ==> (#[trigger] array@[k])@ == self.array@[k]@,
            decreases self.array@.len() - r,
        {
            let row: Vec<usize> = self.array[r].clone();
            assert(row@ =~= self.array@[r as int]@);
            array.push(row);
            r = r + 1;
        }
        assert(grid(array@) =~= grid(self.array@));
        let column_levels: Vec<usize> = self.column_levels.clone();
        assert(column_levels@ =~= self.column_levels@);
        let info: ArrayInfo = ArrayInfo {
            rows: self.info.rows,
            cols: self.info.cols,
            label: self.info.label.clone(),
            method: self.info.method.clone(),
        };
        Selected { info, array, column_levels }
    }

    /// One cell per column in every row, each below the column's level count;
    /// the recorded size is that of the array.
    pub open spec fn wf(&self) -> bool {
        &&& cells_in_range(grid(self.array@), self.column_levels@)
        &&& self.info.rows == self.array@.len()
        &&& self.info.cols == self.column_levels@.len()
    }

    /// Number of rows.
    pub fn rows(&self) -> (n: usize)
        ensures
            n == self.array@.len(),
    {
        self.array.len()
    }
}

/// The construction methods.
#[derive(Debug, Clone, Copy, PartialEq, Eq, Structural)]
pub enum Method {
    Lookup,
    Bush,
    Kronecker,
    Backtrack,
}

/// All methods, in the order in which they are tried.
pub fn all_methods() -> (m: Vec<Method>)
    ensures
        m@ == all_methods_spec(),
{
    let mut m: Vec<Method> = Vec::new();
    m.push(Method::Lookup);
    m.push(Method::Bush);
    m.push(Method::Kronecker);
    m.push(Method::Backtrack);
    assert(m@ =~= all_methods_spec());
    m
}

/// All methods, in the order in which they are tried.
pub open spec fn all_methods_spec() -> Seq<Method> {
    seq![Method::Lookup, Method::Bush, Method::Kronecker, Method::Backtrack]
}

/// What a method gives for the level counts: an array, or nothing.
pub open spec fn gives(
    m: Method,
    catalog: Seq<EntryView>,
    levels: Seq<usize>,
    r: Option<Selected>,
) -> bool {
    match m {
        Method::Lookup => lookup::found(catalog, levels, r),
        Method::Bush => bush::constructed(levels, r),
        Method::Kronecker => kronecker::constructed(levels, r),
        Method::Backtrack => backtrack::constructed(levels, r),
    }
}

/// `sel` comes from the first of the methods that gives an array.
pub open spec fn first_given(
    methods: Seq<Method>,
    catalog: Seq<EntryView>,
    levels: Seq<usize>,
    sel: Selected,
) -> bool {
    exists|i: int|
        0 <= i < methods.len() && #[trigger] gives(methods[i], catalog, levels, Some(sel))
            && declined(methods, catalog, levels, i)
}

/// The first `n` methods give nothing.
pub open spec fn declined(
    methods: Seq<Method>,
    catalog: Seq<EntryView>,
    levels: Seq<usize>,
    n: int,
) -> bool {
    forall|j: int| 0 <= j < n ==> gives(#[trigger] methods[j], catalog, levels, None)
}

/// The level counts of factors as machine numbers.
pub open spec fn counts(factors: Seq<Factor>) -> Seq<usize> {
    Seq::new(factors.len(), |i: int| factors[i].values@.len() as usize)
}

/// The method can be tried on the level counts: the fields that it searches for
/// exist, and what it builds fits the machine.
pub open spec fn ready(m: Method, levels: Seq<usize>) -> bool {
    match m {
        Method::Lookup => true,
        Method::Bush => uniform(levels) ==> levels[0] <= 49 && levels.len() * 2401 <= usize::MAX,
        Method::Kronecker => tractable(levels),
        Method::Backtrack => true,
    }
}

/// An array can be built, or found that there is none: the level counts are
/// refused at once, or every method that gets its turn can be tried.
pub open spec fn buildable(
    methods: Seq<Method>,
    catalog: Seq<EntryView>,
    levels: Seq<usize>,
) -> bool {
    ||| levels.len() == 0
    ||| too_few(levels)
    ||| forall|i: int|
        0 <= i < methods.len() && declined(methods, catalog, levels, i) ==> ready(
            #[trigger] methods[i],
            levels,
        )
}

/// The name of a method.
pub open spec fn method_name(m: Method) -> Seq<char> {
    match m {
        Method::Lookup => "Lookup"@,
        Method::Bush => "Bush"@,
        Method::Kronecker => "Kronecker"@,
        Method::Backtrack => "Backtrack"@,
    }
}

/// The message where no method gives an array.
pub open spec fn no_method(methods: Seq<Method>, levels: Seq<usize>) -> Seq<char> {
    "no method in ["@ + separated(methods.map_values(|m: Method| method_name(m)), ", "@)
        + "] produced an OA for level structure ["@ + separated(
        levels.map_values(|l: usize| decimal(l as nat)),
        ", "@,
    ) + "]"@
}

/// Some factor has fewer than two levels.
pub open spec fn too_few(levels: Seq<usize>) -> bool {
    exists|i: int| 0 <= i < levels.len() && #[trigger] levels[i] < 2
}

/// The message where an array cannot be built.
pub open spec fn build_message(methods: Seq<Method>, levels: Seq<usize>) -> Seq<char> {
    if levels.len() == 0 {
        "need at least one factor"@
    } else if too_few(levels) {
        "each factor needs ≥ 2 levels"@
    } else {
        no_method(methods, levels)
    }
}

fn name_text(m: Method) -> (s: String)
    ensures
        s@ == method_name(m),
{
    match m {
        Method::Lookup => "Lookup".to_owned(),
        Method::Bush => "Bush".to_owned(),
        Method::Kronecker => "Kronecker".to_owned(),
        Method::Backtrack => "Backtrack".to_owned(),
    }
}

fn no_method_error(methods: &[Method], levels: &[usize]) -> (e: Error)
    ensures
        e@ == no_method(methods@, levels@),
{
    let mut names: Vec<String> = Vec::new();
    let mut i: usize = 0;
    while i < methods.len()
        invariant
            i <= methods@.len(),
            names@.len() == i,
            forall|j: int| 0 <= j < i ==> (#[trigger] names@[j])@ == method_name(methods@[j]),
        decreases methods@.len() - i,
    {
        names.push(name_text(methods[i]));
        i = i + 1;
    }
    let mut nums: Vec<String> = Vec::new();
    let mut k: usize = 0;
    while k < levels.len()
        invariant
            k <= levels@.len(),
            nums@.len() == k,
            forall|j: int| 0 <= j < k ==> (#[trigger] nums@[j])@ == decimal(levels@[j] as nat),
        decreases levels@.len() - k,
    {
        nums.push(crate::text::decimal_text(levels[k]));
        k = k + 1;
    }
    assert(crate::text::views(names@) =~= methods@.map_values(|m: Method| method_name(m)));
    assert(crate::text::views(nums@) =~= levels@.map_values(|l: usize| decimal(l as nat)));
    let a: String = crate::text::join(&names, ", ");
    let b: String = crate::text::join(&nums, ", ");
    Error::of5(
        "no method in [",
        a.as_str(),
        "] produced an OA for level structure [",
        b.as_str(),
        "]",
    )
}

/// The level counts of factors.
pub fn level_counts_of(factors: &[Factor]) -> (levels: Vec<usize>)
    ensures
        levels@ == counts(factors@),
{
    let mut levels: Vec<usize> = Vec::new();
    let mut i: usize = 0;
    while i < factors.len()
        invariant
            i <= factors@.len(),
            levels@.len() == i,
            forall|j: int| 0 <= j < i ==> #[trigger] levels@[j] == factors@[j].values@.len(),
        decreases factors@.len() - i,
    {
        levels.push(factors[i].level_count());
        i = i + 1;
    }
    assert(levels@ =~= counts(factors@));
    levels
}

/// Builds an array for the factors with the first method that serves them.
pub fn build_array(factors: &[Factor], catalog: &[CatalogEntry]) -> (r: Result<Selected, Error>)
    requires
        forall|i: int| 0 <= i < catalog@.len() ==> (#[trigger] catalog@[i]).wf(),
        buildable(all_methods_spec(), entries(catalog@), counts(factors@)),
    ensures
        r is Ok <==> factors@.len() > 0 && !too_few(counts(factors@)) && !declined(
            all_methods_spec(),
            entries(catalog@),
            counts(factors@),
            4,
        ),
        match r {
            Ok(sel) => sel.wf() && covers(sel, counts(factors@)) && first_given(
                all_methods_spec(),
                entries(catalog@),
                counts(factors@),
                sel,
            ),
            Err(e) => e@ == build_message(all_methods_spec(), counts(factors@)),
        },
{
    let methods: Vec<Method> = all_methods();
    build_with_methods(factors, &methods, catalog)
}

/// One column per factor, with at least as many levels.
pub open spec fn covers(sel: Selected, levels: Seq<usize>) -> bool {
    &&& sel.column_levels@.len() == levels.len()
    &&& forall|i: int| 0 <= i < levels.len() ==> #[trigger] sel.column_levels@[i] >= levels[i]
}

proof fn lemma_gives_covers(
    m: Method,
    catalog: Seq<EntryView>,
    levels: Seq<usize>,
    sel: Selected,
)
    requires
        gives(m, catalog, levels, Some(sel)),
        ready(m, levels),
    ensures
        covers(sel, levels),
        !gives(m, catalog, levels, None),
{
    match m {
        Method::Lookup => {},
        Method::Bush => {
            let q = choose|q: int|
                {
                    &&& #[trigger] bush::next_field(levels[0] as int, q)
                    &&& bush::depth(q, levels.len() as int) matches Some(k)
                    &&& bush::is_bush(grid(sel.array@), q, k, levels.len() as int)
                    &&& sel.column_levels@ == Seq::new(levels.len(), |i: int| q as usize)
                };
            gf::lemma_field_shape(q);
        },
        Method::Kronecker => {
            kronecker::lemma_tractable(levels);
            assert forall|i: int| 0 <= i < levels.len() implies #[trigger] sel.column_levels@[i]
                >= levels[i] by {
                kronecker::lemma_field_for(levels[i] as int);
            }
        },
        Method::Backtrack => {
            let step = backtrack::lcm_pairs_of(levels) as int;
            let n = sel.array@.len() as int;
            if gives(m, catalog, levels, None) {
                backtrack::lemma_constructed_exclusive(levels, sel);
            }
        },
    }
}

/// Tries each method in order; the first that gives an array wins.
pub fn build_with_methods(
    factors: &[Factor],
    methods: &[Method],
    catalog: &[CatalogEntry],
) -> (r: Result<Selected, Error>)
    requires
        forall|i: int| 0 <= i < catalog@.len() ==> (#[trigger] catalog@[i]).wf(),
        buildable(methods@, entries(catalog@), counts(factors@)),
    ensures
        r is Ok <==> factors@.len() > 0 && !too_few(counts(factors@)) && !declined(
            methods@,
            entries(catalog@),
            counts(factors@),
            methods@.len() as int,
        ),
        match r {
            Ok(sel) => sel.wf() && covers(sel, counts(factors@)) && first_given(
                methods@,
                entries(catalog@),
                counts(factors@),
                sel,
            ),
            Err(e) => e@ == build_message(methods@, counts(factors@)),
        },
{
    if factors.len() == 0 {
        return Err(Error::new("need at least one factor"));
    }
    let levels: Vec<usize> = level_counts_of(factors);
    let ghost list = entries(catalog@);
    let mut i: usize = 0;
    while i < levels.len()
        invariant
            i <= levels@.len(),
            levels@ == counts(factors@),
            levels@.len() > 0,
            forall|j: int| 0 <= j < i ==> #[trigger] levels@[j] >= 2,
        decreases levels@.len() - i,
    {
        if levels[i] < 2 {
            assert(levels@[i as int] < 2);
            return Err(Error::new("each factor needs ≥ 2 levels"));
        }
        i = i + 1;
    }
    let mut m: usize = 0;
    while m < methods.len()
        invariant
            m <= methods@.len(),
            levels@ == counts(factors@),
            levels@.len() > 0,
            levels@.len() == factors@.len(),
            list == entries(catalog@),
            forall|j: int| 0 <= j < levels@.len() ==> #[trigger] levels@[j] >= 2,
            forall|j: int| 0 <= j < catalog@.len() ==> (#[trigger] catalog@[j]).wf(),
            buildable(methods@, list, levels@),
            declined(methods@, list, levels@, m as int),
        decreases methods@.len() - m,
    {
        let method: Method = methods[m];
        assert(ready(methods@[m as int], levels@));
        let found: Option<Selected> = match method {
            Method::Lookup => lookup::find(catalog, &levels),
            Method::Bush => match bush::try_construct(&levels) {
                Ok(r) => r,
                Err(_) => None,
            },
            Method::Kronecker => match kronecker::try_construct(&levels) {
                Ok(r) => r,
                Err(_) => None,
            },
            Method::Backtrack => match backtrack::try_construct(&levels) {
                Ok(r) => r,
                Err(_) => None,
            },
        };
        match found {
            Some(sel) => {
                proof {
                    lemma_gives_covers(method, list, levels@, sel);
                    assert(gives(methods@[m as int], list, levels@, Some(sel)));
                    assert(!gives(methods@[m as int], list, levels@, None));
                }
                return Ok(sel);
            },
            None => {},
        }
        m = m + 1;
    }
    Err(no_method_error(methods, &levels))
}

/// A method gives one array, or nothing, but not both.
proof fn lemma_gives_unique(
    m: Method,
    catalog: Seq<EntryView>,
    levels: Seq<usize>,
    a: Selected,
    r: Option<Selected>,
)
    requires
        gives(m, catalog, levels, Some(a)),
        gives(m, catalog, levels, r),
    ensures
        r matches Some(b) && a@ == b@,
{
    match m {
        Method::Lookup => {
            if let Some(b) = r {
                lookup::found_is_unique(catalog, levels, a, b);
            }
        },
        Method::Bush => {
            bush::constructed_is_unique(levels, a, r);
        },
        Method::Kronecker => {
            if let Some(b) = r {
                kronecker::constructed_is_unique(levels, a, b);
            }
        },
        Method::Backtrack => {
            backtrack::lemma_constructed_exclusive(levels, a);
            if let Some(b) = r {
                backtrack::constructed_is_unique(levels, a, b);
            }
        },
    }
}

/// The methods, the catalog and the level counts determine the array that is
/// built.
pub proof fn built_array_is_unique(
    methods: Seq<Method>,
    catalog: Seq<EntryView>,
    levels: Seq<usize>,
    a: Selected,
    b: Selected,
)
    requires
        first_given(methods, catalog, levels, a),
        first_given(methods, catalog, levels, b),
    ensures
        a@ == b@,
{
    let i = choose|i: int|
        0 <= i < methods.len() && #[trigger] gives(methods[i], catalog, levels, Some(a))
            && declined(methods, catalog, levels, i);
    let j = choose|j: int|
        0 <= j < methods.len() && #[trigger] gives(methods[j], catalog, levels, Some(b))
            && declined(methods, catalog, levels, j);
    if i < j {
        lemma_gives_unique(methods[i], catalog, levels, a, None);
    } else if j < i {
        lemma_gives_unique(methods[j], catalog, levels, b, None);
    } else {
        lemma_gives_unique(methods[i], catalog, levels, a, Some(b));
    }
}

/// Every array that is built has strength 2, where the entries of the catalog
/// have.
pub proof fn built_has_strength2(
    methods: Seq<Method>,
    catalog: Seq<EntryView>,
    levels: Seq<usize>,
    sel: Selected,
)
    requires
        first_given(methods, catalog, levels, sel),
        !too_few(levels),
        buildable(methods, catalog, levels),
        forall|i: int|
            0 <= i < catalog.len() ==> cells_in_range(#[trigger] catalog[i].array, catalog[i].columns)
                && strength2(catalog[i].array, catalog[i].columns),
    ensures
        strength2(grid(sel.array@), sel.column_levels@),
{
    let i = choose|i: int|
        0 <= i < methods.len() && #[trigger] gives(methods[i], catalog, levels, Some(sel))
            && declined(methods, catalog, levels, i);
    assert(levels.len() > 0 ==> ready(methods[i], levels));
    match methods[i] {
        Method::Lookup => {
            lookup::found_has_strength2(catalog, levels, sel);
        },
        Method::Bush => {
            let q = choose|q: int|
                {
                    &&& #[trigger] bush::next_field(levels[0] as int, q)
                    &&& bush::depth(q, levels.len() as int) matches Some(k)
                    &&& bush::is_bush(grid(sel.array@), q, k, levels.len() as int)
                    &&& sel.column_levels@ == Seq::new(levels.len(), |i: int| q as usize)
                };
            gf::lemma_field_shape(q);
            bush::bush_has_strength2(
                grid(sel.array@),
                q,
                bush::depth(q, levels.len() as int)->0,
                levels.len() as int,
                sel.column_levels@,
            );
        },
        Method::Kronecker => {
            kronecker::lemma_tractable(levels);
            kronecker::tensor_has_strength2(grid(sel.array@), levels);
        },
        Method::Backtrack => {
            let n = sel.array@.len();
            let cols = choose|cols: Seq<Seq<usize>>|
                #[trigger] backtrack::first_array(cols, Seq::empty(), n as int, levels) && grid(
                    sel.array@,
                ) == backtrack::rows_of(cols, n);
            backtrack::complete_has_strength2(cols, n as int, levels);
            let m: int = n as int;
            assert(m as nat == n);
        },
    }
}

/// The level of a factor for a cell of an array. Where the column has more
/// levels than the factor, the surplus folds onto all of them.
pub fn resolve_cell(factor: &Factor, oa_value: usize) -> (v: FactorValue)
    requires
        factor.values@.len() > 0,
    ensures
        v@ == factor@.values[oa_value as int % factor@.values.len() as int],
{
    let l: usize = factor.values.len();
    factor.values[oa_value % l].copy()
}

} // verus!
