//! The dialogue in which factors and results are entered line by line. Reading and
//! printing the lines is left to the caller.
use vstd::prelude::*;

use super::lines::{factor_line_request, factor_line_request_of, line_factor, parse_factor_line};
use super::types::{ParsedDesign, ParsedView};
use crate::error::Error;
use crate::factor::{factor_views, Factor, FactorView, Numbers, NumbersView, Request, RequestView};
use crate::model::formula::{is_valid_name, valid_name};
use crate::text::{chars_of, decimal, push_decimal, string_of, trim, trimmed, views};

verus! {

/// What is asked for.
#[derive(Debug, Clone, Copy, PartialEq, Eq, Structural)]
pub enum Stage {
    Factors,
    Results,
    Done,
}

/// What has been entered so far.
#[derive(Debug)]
pub struct Dialogue {
    pub stage: Stage,
    pub factors: Vec<Factor>,
    pub results: Vec<String>,
}

#[verifier::ext_equal]
pub struct DialogueView {
    pub stage: Stage,
    pub factors: Seq<FactorView>,
    pub results: Seq<Seq<char>>,
}

impl View for Dialogue {
    type V = DialogueView;

    open spec fn view(&self) -> DialogueView {
        DialogueView {
            stage: self.stage,
            factors: factor_views(self.factors@),
            results: views(self.results@),
        }
    }
}

/// Results are asked for behind at least one factor, and the dialogue ends behind
/// at least one result.
pub open spec fn dialogue_wf(d: DialogueView) -> bool {
    &&& d.stage != Stage::Factors ==> d.factors.len() > 0
    &&& d.stage == Stage::Done ==> d.results.len() > 0
}

/// The dialogue behind a line, with the remark on it.
pub open spec fn entered(d: DialogueView, line: Seq<char>, numbers: NumbersView) -> (
    DialogueView,
    Option<Seq<char>>,
) {
    let text = trimmed(line);
    match d.stage {
        Stage::Factors => if text.len() == 0 {
            if d.factors.len() == 0 {
                (d, Some("need at least one factor"@))
            } else {
                (DialogueView { stage: Stage::Results, ..d }, None)
            }
        } else {
            match line_factor(text, numbers) {
                Ok(f) => (DialogueView { factors: d.factors.push(f), ..d }, None),
                Err(m) => (d, Some("error: "@ + m)),
            }
        },
        Stage::Results => if text.len() == 0 {
            if d.results.len() == 0 {
                (d, Some("need at least one result column"@))
            } else {
                (DialogueView { stage: Stage::Done, ..d }, None)
            }
        } else if valid_name(text) {
            (DialogueView { results: d.results.push(text), ..d }, None)
        } else {
            (d, Some("name must be non-empty identifier characters"@))
        },
        Stage::Done => (d, None),
    }
}

/// The dialogue behind the end of the input.
pub open spec fn closed(d: DialogueView) -> Result<DialogueView, Seq<char>> {
    match d.stage {
        Stage::Factors => if d.factors.len() == 0 {
            Err("no factors entered"@)
        } else {
            Ok(DialogueView { stage: Stage::Results, ..d })
        },
        Stage::Results => if d.results.len() == 0 {
            Err("no result columns entered"@)
        } else {
            Ok(DialogueView { stage: Stage::Done, ..d })
        },
        Stage::Done => Ok(d),
    }
}

/// What the user is asked with.
pub open spec fn prompt_of(d: DialogueView) -> Seq<char> {
    match d.stage {
        Stage::Factors => "factor "@ + decimal(d.factors.len() + 1) + "> "@,
        Stage::Results => "result "@ + decimal(d.results.len() + 1) + "> "@,
        Stage::Done => Seq::empty(),
    }
}

/// The numbers that a line asks for.
pub open spec fn asked_of(d: DialogueView, line: Seq<char>) -> RequestView {
    if d.stage == Stage::Factors {
        factor_line_request_of(trimmed(line))
    } else {
        RequestView::Nothing
    }
}

fn trimmed_text(line: &str) -> (s: String)
    ensures
        s@ == trimmed(line@),
{
    let all: Vec<char> = chars_of(line);
    let t: Vec<char> = trim(&all);
    string_of(&t)
}

impl Dialogue {
    /// Nothing has been entered.
    pub fn new() -> (d: Dialogue)
        ensures
            d@ == (DialogueView {
                stage: Stage::Factors,
                factors: Seq::empty(),
                results: Seq::empty(),
            }),
            dialogue_wf(d@),
    {
        let d: Dialogue = Dialogue {
            stage: Stage::Factors,
            factors: Vec::new(),
            results: Vec::new(),
        };
        assert(d@.factors =~= Seq::empty());
        assert(d@.results =~= Seq::empty());
        d
    }

    /// What the user is asked with.
    pub fn prompt(&self) -> (s: String)
        requires
            self.factors@.len() < usize::MAX,
            self.results@.len() < usize::MAX,
        ensures
            s@ == prompt_of(self@),
    {
        match self.stage {
            Stage::Factors => {
                let mut s: String = "factor ".to_owned();
                push_decimal(&mut s, (self.factors.len() + 1) as u64);
                s.append("> ");
                s
            },
            Stage::Results => {
                let mut s: String = "result ".to_owned();
                push_decimal(&mut s, (self.results.len() + 1) as u64);
                s.append("> ");
                s
            },
            Stage::Done => {
                let s: String = String::new();
                assert(s@ =~= Seq::empty());
                s
            },
        }
    }

    /// The numbers that a line asks for.
    pub fn request(&self, line: &str) -> (r: Request)
        ensures
            r@ == asked_of(self@, line@),
    {
        if self.stage == Stage::Factors {
            let text: String = trimmed_text(line);
            factor_line_request(text.as_str())
        } else {
            Request::Nothing
        }
    }

    /// Takes a line, given the numbers that it asks for, and remarks on it where it
    /// is not taken.
    pub fn enter(&mut self, line: &str, numbers: &Numbers) -> (remark: Option<String>)
        ensures
            final(self)@ == entered(old(self)@, line@, numbers@).0,
            match remark {
                Some(s) => entered(old(self)@, line@, numbers@).1 == Some(s@),
                None => entered(old(self)@, line@, numbers@).1 is None,
            },
            dialogue_wf(old(self)@) ==> dialogue_wf(final(self)@),
    {
        let ghost before = self@;
        let all: Vec<char> = chars_of(line);
        let t: Vec<char> = trim(&all);
        assert(factor_views(self.factors@).len() == self.factors@.len());
        assert(views(self.results@).len() == self.results@.len());
        match self.stage {
            Stage::Factors => {
                if t.len() == 0 {
                    if self.factors.len() == 0 {
                        Some("need at least one factor".to_owned())
                    } else {
                        self.stage = Stage::Results;
                        None
                    }
                } else {
                    let text: String = string_of(&t);
                    match parse_factor_line(text.as_str(), numbers) {
                        Ok(f) => {
                            let ghost fv = f@;
                            self.factors.push(f);
                            assert(factor_views(self.factors@) =~= before.factors.push(fv));
                            None
                        },
                        Err(e) => {
                            let mut s: String = "error: ".to_owned();
                            s.append(e.message.as_str());
                            Some(s)
                        },
                    }
                }
            },
            Stage::Results => {
                if t.len() == 0 {
                    if self.results.len() == 0 {
                        Some("need at least one result column".to_owned())
                    } else {
                        self.stage = Stage::Done;
                        None
                    }
                } else if is_valid_name(&t) {
                    let text: String = string_of(&t);
                    self.results.push(text);
                    assert(views(self.results@) =~= before.results.push(t@));
                    None
                } else {
                    Some("name must be non-empty identifier characters".to_owned())
                }
            },
            Stage::Done => None,
        }
    }

    /// Takes the end of the input.
    pub fn close(self) -> (r: Result<Dialogue, Error>)
        ensures
            match r {
                Ok(d) => closed(self@) == Ok::<DialogueView, Seq<char>>(d@),
                Err(e) => closed(self@) == Err::<DialogueView, Seq<char>>(e@),
            },
            dialogue_wf(self@) ==> (r matches Ok(d) ==> dialogue_wf(d@)),
    {
        assert(factor_views(self.factors@).len() == self.factors@.len());
        assert(views(self.results@).len() == self.results@.len());
        match self.stage {
            Stage::Factors => if self.factors.len() == 0 {
                Err(Error::new("no factors entered"))
            } else {
                Ok(Dialogue { stage: Stage::Results, factors: self.factors, results: self.results })
            },
            Stage::Results => if self.results.len() == 0 {
                Err(Error::new("no result columns entered"))
            } else {
                Ok(Dialogue { stage: Stage::Done, factors: self.factors, results: self.results })
            },
            Stage::Done => Ok(self),
        }
    }

    /// The design that was entered: factors and results alone.
    pub fn into_design(self) -> (p: ParsedDesign)
        ensures
            p@ == (ParsedView {
                factors: self@.factors,
                results: self@.results,
                models: Seq::empty(),
                replicates: Seq::empty(),
                unit: None,
            }),
    {
        let p: ParsedDesign = ParsedDesign {
            factors: self.factors,
            results: self.results,
            models: Vec::new(),
            replicates: Vec::new(),
            unit: None,
        };
        assert(p@.models =~= Seq::empty());
        assert(p@.replicates =~= Seq::empty());
        p
    }
}

/// A line that says nothing ends a list, and only a list with something in it.
pub proof fn blank_lines_end_a_list(d: DialogueView, line: Seq<char>, numbers: NumbersView)
    requires
        trimmed(line).len() == 0,
    ensures
        entered(d, line, numbers).0.factors == d.factors,
        entered(d, line, numbers).0.results == d.results,
        d.stage == Stage::Factors ==> entered(d, line, numbers).0.stage == (if d.factors.len() > 0 {
            Stage::Results
        } else {
            Stage::Factors
        }),
        d.stage == Stage::Results ==> entered(d, line, numbers).0.stage == (if d.results.len() > 0 {
            Stage::Done
        } else {
            Stage::Results
        }),
{
}

/// A line that is not blank stays in its list: it adds one item behind those that
/// are there, or it adds none and there is a remark on it.
pub proof fn lines_add_one_item_or_a_remark(d: DialogueView, line: Seq<char>, numbers: NumbersView)
    requires
        trimmed(line).len() > 0,
        d.stage != Stage::Done,
    ensures
        ({
            let (e, remark) = entered(d, line, numbers);
            &&& e.stage == d.stage
            &&& remark is Some <==> e == d
            &&& d.stage == Stage::Factors ==> e.results == d.results && (remark is None ==> e.factors.len()
                == d.factors.len() + 1 && e.factors.drop_last() == d.factors && e.factors.last().values.len()
                >= 2)
            &&& d.stage == Stage::Results ==> e.factors == d.factors && (remark is None <==> valid_name(
                trimmed(line),
            )) && (remark is None ==> e.results == d.results.push(trimmed(line)))
        }),
{
    let (e, remark) = entered(d, line, numbers);
    if d.stage == Stage::Factors {
        if remark is None {
            assert(e.factors.len() == d.factors.len() + 1);
            assert(e.factors.drop_last() =~= d.factors);
        }
    } else if remark is None {
        assert(e.results.len() == d.results.len() + 1);
    }
}

/// The end of the input ends a list too, and fails where nothing is in it.
pub proof fn the_end_of_input_needs_an_item(d: DialogueView)
    ensures
        closed(d) is Err <==> d.stage == Stage::Factors && d.factors.len() == 0 || d.stage
            == Stage::Results && d.results.len() == 0,
        closed(d) matches Ok(e) ==> e.factors == d.factors && e.results == d.results && (d.stage
            == Stage::Factors ==> e.stage == Stage::Results) && (d.stage != Stage::Factors ==> e.stage
            == Stage::Done),
{
}

} // verus!
