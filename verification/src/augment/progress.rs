//! What an augmentation reports while it goes on, and the decisions behind that.
use vstd::prelude::*;

use super::candidates::{Candidates, CANDIDATE_CAP};
use super::ids::IdPlan;
use crate::design_select::cells::role_dims;
use crate::error::Error;
use crate::factor::{factor_views, Factor};
use crate::model::estimability::{Estimability, EstimabilityView};
use crate::model::formula::{factor_names, term_label, terms_wf, Model};
use crate::model::matrix::{cell_views, role_views, Cell, ReplicateRole};
use crate::oa::counts;
use crate::text::{big_decimal_text, decimal, join, push_decimal, separated, views};
use crate::tuples::tuple_count;

verus! {

/// The opening lines: the table, the model, the terms that no formula asks for,
/// and the rows that are built on.
pub open spec fn opening_of(
    path: Seq<char>,
    formula: Seq<char>,
    added: Seq<Seq<char>>,
    base: nat,
    rows: nat,
    pending: nat,
    included: bool,
) -> Seq<char> {
    "Augmenting: "@ + path + "\nModel:      "@ + formula + "\n"@ + (if added.len() > 0 {
        "Note:       "@ + separated(added, ", "@)
            + " requested by --for but absent from the design's formulas;\n            add it to the design file before you analyze the result.\n"@
    } else {
        Seq::empty()
    }) + "Base rows:  "@ + decimal(base) + " of "@ + decimal(rows) + " ("@ + decimal(pending)
        + " pending, "@ + (if included {
        "included"@
    } else {
        "excluded"@
    }) + ")\n"@
}

/// The opening lines. `added` names the terms that no formula of the design asks
/// for; a design without formulas has none to note.
pub fn opening_text(
    path: &str,
    formula: &str,
    added: &Vec<String>,
    base: usize,
    rows: usize,
    pending: usize,
    included: bool,
) -> (out: String)
    ensures
        out@ == opening_of(
            path@,
            formula@,
            views(added@),
            base as nat,
            rows as nat,
            pending as nat,
            included,
        ),
{
    let mut out: String = "Augmenting: ".to_owned();
    out.append(path);
    out.append("\nModel:      ");
    out.append(formula);
    out.append("\n");
    let mut note: String = String::new();
    assert(note@ =~= Seq::empty());
    assert(views(added@).len() == added@.len());
    if added.len() > 0 {
        note = "Note:       ".to_owned();
        let list: String = join(added, ", ");
        note.append(list.as_str());
        note.append(
            " requested by --for but absent from the design's formulas;\n            add it to the design file before you analyze the result.\n",
        );
    }
    out.append(note.as_str());
    out.append("Base rows:  ");
    push_decimal(&mut out, base as u64);
    out.append(" of ");
    push_decimal(&mut out, rows as u64);
    out.append(" (");
    push_decimal(&mut out, pending as u64);
    out.append(" pending, ");
    if included {
        out.append("included");
    } else {
        out.append("excluded");
    }
    out.append(")\n");
    out
}

/// Every one of the terms is estimable.
pub open spec fn all_met(e: EstimabilityView, terms: Seq<usize>) -> bool {
    forall|k: int| 0 <= k < terms.len() ==> e.terms[#[trigger] terms[k] as int].estimable
}

/// Whether every one of the terms is estimable.
pub fn targets_met(est: &Estimability, terms: &Vec<usize>) -> (r: bool)
    requires
        forall|k: int| 0 <= k < terms@.len() ==> #[trigger] terms@[k] < est@.terms.len(),
    ensures
        r == all_met(est@, terms@),
{
    let mut k: usize = 0;
    while k < terms.len()
        invariant
            k <= terms@.len(),
            forall|i: int| 0 <= i < terms@.len() ==> #[trigger] terms@[i] < est@.terms.len(),
            forall|i: int| 0 <= i < k ==> est@.terms[#[trigger] terms@[i] as int].estimable,
        decreases terms@.len() - k,
    {
        let t: usize = terms[k];
        assert(est@.terms[t as int] == est.terms@[t as int]@);
        if !est.terms[t].estimable {
            assert(!est@.terms[terms@[k as int] as int].estimable);
            return false;
        }
        k = k + 1;
    }
    true
}

/// The labels of chosen terms.
pub open spec fn labels_at(
    all: Seq<Seq<usize>>,
    names: Seq<Seq<char>>,
    terms: Seq<usize>,
) -> Seq<Seq<char>> {
    terms.map_values(|t: usize| term_label(all[t as int], names))
}

/// The labels of the terms that are aimed at.
pub fn target_names(model: &Model, factors: &[Factor], terms: &Vec<usize>) -> (out: Vec<String>)
    requires
        terms_wf(model@.terms, factors@.len()),
        forall|k: int| 0 <= k < terms@.len() ==> #[trigger] terms@[k] < model@.terms.len(),
    ensures
        views(out@) == labels_at(
            model@.terms,
            factor_names(factor_views(factors@)),
            terms@,
        ),
{
    let ghost names = factor_names(factor_views(factors@));
    let mut out: Vec<String> = Vec::new();
    let mut k: usize = 0;
    while k < terms.len()
        invariant
            k <= terms@.len(),
            terms_wf(model@.terms, factors@.len()),
            names == factor_names(factor_views(factors@)),
            forall|i: int| 0 <= i < terms@.len() ==> #[trigger] terms@[i] < model@.terms.len(),
            out@.len() == k,
            forall|i: int|
                0 <= i < k ==> (#[trigger] out@[i])@ == term_label(
                    model@.terms[terms@[i] as int],
                    names,
                ),
        decreases terms@.len() - k,
    {
        let t: usize = terms[k];
        assert(model@.terms[t as int] == model.terms@[t as int]@);
        out.push(model.terms[t].label(factors));
        k = k + 1;
    }
    assert(views(out@) =~= labels_at(model@.terms, names, terms@));
    out
}

/// The lines on the targets; `idle` where they are estimable already and no number
/// of runs is given.
pub open spec fn targets_lines(targets: Seq<Seq<char>>, idle: bool) -> Seq<char> {
    "\nTargets:    "@ + (if targets.len() == 0 {
        "none (pure D-optimal expansion)"@
    } else {
        separated(targets, ", "@)
    }) + "\n"@ + (if targets.len() > 0 && idle {
        "            already estimable; nothing to add (pass --runs N for precision)\n"@
    } else {
        Seq::empty()
    })
}

/// The lines on the targets.
pub fn targets_text(targets: &Vec<String>, idle: bool) -> (out: String)
    ensures
        out@ == targets_lines(views(targets@), idle),
{
    assert(views(targets@).len() == targets@.len());
    let mut out: String = "\nTargets:    ".to_owned();
    if targets.len() == 0 {
        out.append("none (pure D-optimal expansion)");
    } else {
        let list: String = join(targets, ", ");
        out.append(list.as_str());
    }
    out.append("\n");
    let ghost before = out@;
    if targets.len() > 0 && idle {
        out.append("            already estimable; nothing to add (pass --runs N for precision)\n");
    } else {
        assert(before + Seq::<char>::empty() =~= before);
    }
    out
}

/// The line on the candidates.
pub open spec fn candidates_line(kept: nat, sampled: Option<(usize, u128)>, seed: u64) -> Seq<char> {
    match sampled {
        Some((n, total)) => "Candidates: "@ + decimal(n as nat) + " sampled uniformly with seed "@
            + decimal(seed as nat) + " from "@ + decimal(total as nat) + " combinations (cap "@
            + decimal(CANDIDATE_CAP as nat) + ")\n"@,
        None => "Candidates: "@ + decimal(kept) + " combinations\n"@,
    }
}

impl Candidates {
    /// The line on the candidates.
    pub fn to_line(&self, seed: u64) -> (out: String)
        ensures
            out@ == candidates_line(self.cells@.len(), self.sampled, seed),
    {
        let mut out: String = "Candidates: ".to_owned();
        match self.sampled {
            Some((n, total)) => {
                push_decimal(&mut out, n as u64);
                out.append(" sampled uniformly with seed ");
                push_decimal(&mut out, seed);
                out.append(" from ");
                let t: String = big_decimal_text(total);
                out.append(t.as_str());
                out.append(" combinations (cap ");
                push_decimal(&mut out, CANDIDATE_CAP as u64);
                out.append(")\n");
            },
            None => {
                push_decimal(&mut out, self.cells.len() as u64);
                out.append(" combinations\n");
            },
        }
        out
    }

    /// Refuses candidates of which there are none.
    pub fn check(&self) -> (r: Result<(), Error>)
        ensures
            match r {
                Ok(_) => self.cells@.len() > 0,
                Err(e) => self.cells@.len() == 0 && e@
                    == "the design has no candidate combinations to add"@,
            },
    {
        if self.cells.len() == 0 {
            Err(Error::new("the design has no candidate combinations to add"))
        } else {
            Ok(())
        }
    }

    /// The chosen candidates.
    pub fn pick(&self, picks: &Vec<usize>) -> (out: Vec<Cell>)
        requires
            forall|k: int| 0 <= k < picks@.len() ==> #[trigger] picks@[k] < self.cells@.len(),
        ensures
            cell_views(out@) == picks@.map_values(
                |i: usize| cell_views(self.cells@)[i as int],
            ),
    {
        let mut out: Vec<Cell> = Vec::new();
        let mut k: usize = 0;
        while k < picks.len()
            invariant
                k <= picks@.len(),
                forall|i: int| 0 <= i < picks@.len() ==> #[trigger] picks@[i] < self.cells@.len(),
                out@.len() == k,
                forall|i: int|
                    0 <= i < k ==> (#[trigger] out@[i])@ == self.cells@[picks@[i] as int]@,
            decreases picks@.len() - k,
        {
            out.push(self.cells[picks[k]].copy());
            k = k + 1;
        }
        assert(cell_views(out@) =~= picks@.map_values(
            |i: usize| cell_views(self.cells@)[i as int],
        ));
        out
    }
}

/// The line on widened ids.
pub open spec fn widened_line(width: nat) -> Seq<char> {
    "Note:       run ids widened to "@ + decimal(width) + " digits; every id was re-padded.\n"@
}

/// The line on widened ids, where they were widened.
pub fn widened_text(plan: &IdPlan) -> (out: Option<String>)
    ensures
        match out {
            Some(s) => plan.rewritten is Some && s@ == widened_line(plan.width as nat),
            None => plan.rewritten is None,
        },
{
    match &plan.rewritten {
        Some(_) => {
            let mut s: String = "Note:       run ids widened to ".to_owned();
            push_decimal(&mut s, plan.width as u64);
            s.append(" digits; every id was re-padded.\n");
            Some(s)
        },
        None => None,
    }
}

/// Whether the number of combinations can be counted: the product of the level
/// counts, as far as it is taken from the first on, fits 128 bits.
pub fn combinations_in_range(factors: &[Factor], roles: &[ReplicateRole]) -> (r: bool)
    ensures
        r ==> tuple_count(counts(factors@) + role_dims(role_views(roles@))) <= u128::MAX,
        !r ==> exists|k: int|
            0 <= k <= (counts(factors@) + role_dims(role_views(roles@))).len() && tuple_count(
                #[trigger] (counts(factors@) + role_dims(role_views(roles@))).take(k),
            ) > u128::MAX,
{
    let ghost dims = counts(factors@) + role_dims(role_views(roles@));
    let mut n: u128 = 1;
    let mut i: usize = 0;
    assert(counts(factors@).len() == factors@.len());
    assert(role_dims(role_views(roles@)).len() == roles@.len());
    assert(dims.take(0) =~= Seq::<usize>::empty());
    while i < factors.len()
        invariant
            i <= factors@.len(),
            dims == counts(factors@) + role_dims(role_views(roles@)),
            counts(factors@).len() == factors@.len(),
            n == tuple_count(dims.take(i as int)),
        decreases factors@.len() - i,
    {
        assert(dims.take(i + 1).drop_last() =~= dims.take(i as int));
        let l: usize = factors[i].values.len();
        assert(dims[i as int] == l);
        match n.checked_mul(l as u128) {
            None => {
                assert(tuple_count(dims.take(i + 1)) > u128::MAX);
                return false;
            },
            Some(m) => {
                n = m;
            },
        }
        i = i + 1;
    }
    let f: usize = factors.len();
    let mut j: usize = 0;
    while j < roles.len()
        invariant
            j <= roles@.len(),
            f == factors@.len(),
            dims == counts(factors@) + role_dims(role_views(roles@)),
            counts(factors@).len() == factors@.len(),
            role_dims(role_views(roles@)).len() == roles@.len(),
            n == tuple_count(dims.take(f + j)),
        decreases roles@.len() - j,
    {
        assert(dims.take(f + j + 1).drop_last() =~= dims.take(f + j));
        let l: usize = roles[j].levels.len();
        assert(role_views(roles@)[j as int] == roles@[j as int]@);
        assert(dims[f + j] == l);
        match n.checked_mul(l as u128) {
            None => {
                assert(tuple_count(dims.take(f + j + 1)) > u128::MAX);
                return false;
            },
            Some(m) => {
                n = m;
            },
        }
        j = j + 1;
    }
    assert(dims.take(f + j) =~= dims);
    true
}

} // verus!
