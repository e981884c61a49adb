//! The design file: sections of lines, read in order and resolved at the end.
use vstd::prelude::*;

use super::lines::{
    build_model, checked_model, factor_line_request, factor_line_request_of, line_factor, line_role,
    line_unit, parse_factor_line, parse_replicate, parse_unit, replicate_request,
    role_line_request_of, strip_comment, uncommented,
};
use super::types::{ConstructOpts, ParsedDesign, ParsedView};
use crate::error::Error;
use crate::factor::{factor_views, Factor, FactorView, Numbers, NumbersView, Request, RequestView};
use crate::model::formula::{
    factor_names, find_factor, is_valid_name, model_views, model_wf, name_index, valid_name, Model,
    ModelView,
};
use crate::model::matrix::{
    find_role, role_names, role_views, unit_wf, ReplicateRole, RoleView, Unit, UnitView,
};
use crate::text::{
    chars_of, decimal, line_list, lines, push_decimal, string_of, texts, trim, trimmed, views,
};

verus! {

/// The parts of a design file.
#[derive(Debug, Clone, Copy, PartialEq, Eq, Structural)]
pub enum Section {
    Factors,
    Results,
    Model,
    Replicates,
    Units,
}

/// `c` is the lower-case letter `l`, in either case.
pub open spec fn letter(c: char, l: char) -> bool {
    c == l || ('A' <= c <= 'Z' && c as u32 + 32 == l as u32)
}

/// The text is the given lower-case text, whatever the case of its letters.
pub open spec fn reads(s: Seq<char>, lower: Seq<char>) -> bool {
    s.len() == lower.len() && forall|i: int| 0 <= i < s.len() ==> letter(#[trigger] s[i], lower[i])
}

/// The section that a line opens.
pub open spec fn header_of(s: Seq<char>) -> Option<Section> {
    if reads(s, "[factors]"@) {
        Some(Section::Factors)
    } else if reads(s, "[results]"@) {
        Some(Section::Results)
    } else if reads(s, "[model]"@) {
        Some(Section::Model)
    } else if reads(s, "[replicates]"@) {
        Some(Section::Replicates)
    } else if reads(s, "[units]"@) {
        Some(Section::Units)
    } else {
        None
    }
}

/// A line that says nothing.
pub open spec fn blank(s: Seq<char>) -> bool {
    s.len() == 0 || s[0] == '#'
}

/// The section in force behind the first `n` lines.
pub open spec fn section_after(lines: Seq<Seq<char>>, n: nat) -> Section
    decreases n,
{
    if n == 0 {
        Section::Factors
    } else {
        let s = trimmed(lines[n - 1]);
        if blank(s) {
            section_after(lines, (n - 1) as nat)
        } else {
            match header_of(s) {
                Some(h) => h,
                None => section_after(lines, (n - 1) as nat),
            }
        }
    }
}

/// A line with its number, from one on.
#[verifier::ext_equal]
pub struct Noted {
    pub line: nat,
    pub text: Seq<char>,
}

/// What the lines read so far say.
#[verifier::ext_equal]
pub struct Draft {
    pub factors: Seq<FactorView>,
    pub results: Seq<Seq<char>>,
    pub formulas: Seq<Noted>,
    pub roles: Seq<Noted>,
    pub unit: Option<Noted>,
}

/// A message about a line.
pub open spec fn at_line(input: Seq<char>, line: nat, message: Seq<char>) -> Seq<char> {
    input + ":"@ + decimal(line) + ": "@ + message
}

/// The answer to the request of line `i`.
pub open spec fn answer(numbers: Seq<NumbersView>, i: int) -> NumbersView {
    if 0 <= i < numbers.len() {
        numbers[i]
    } else {
        NumbersView::Absent
    }
}

/// The draft with one more line of a section.
pub open spec fn with_line(
    d: Draft,
    input: Seq<char>,
    section: Section,
    line: nat,
    s: Seq<char>,
    numbers: NumbersView,
) -> Result<Draft, Seq<char>> {
    let note = Noted { line, text: trimmed(uncommented(s)) };
    match section {
        Section::Factors => match line_factor(s, numbers) {
            Ok(f) => Ok(Draft { factors: d.factors.push(f), ..d }),
            Err(m) => Err(at_line(input, line, m)),
        },
        Section::Results => if valid_name(s) {
            Ok(Draft { results: d.results.push(s), ..d })
        } else {
            Err(at_line(input, line, "invalid result name '"@ + s + "'"@))
        },
        Section::Model => Ok(Draft { formulas: d.formulas.push(note), ..d }),
        Section::Replicates => Ok(Draft { roles: d.roles.push(note), ..d }),
        Section::Units => if d.unit is Some {
            Err(at_line(input, line, "[units] permits at most one line"@))
        } else {
            Ok(Draft { unit: Some(note), ..d })
        },
    }
}

/// What the first `n` lines say, or the message at the first that is refused.
pub open spec fn draft_of(
    input: Seq<char>,
    lines: Seq<Seq<char>>,
    numbers: Seq<NumbersView>,
    n: nat,
) -> Result<Draft, Seq<char>>
    decreases n,
{
    if n == 0 {
        Ok(
            Draft {
                factors: Seq::empty(),
                results: Seq::empty(),
                formulas: Seq::empty(),
                roles: Seq::empty(),
                unit: None,
            },
        )
    } else {
        match draft_of(input, lines, numbers, (n - 1) as nat) {
            Err(m) => Err(m),
            Ok(d) => {
                let s = trimmed(lines[n - 1]);
                if blank(s) || header_of(s) is Some {
                    Ok(d)
                } else {
                    with_line(
                        d,
                        input,
                        section_after(lines, (n - 1) as nat),
                        n,
                        s,
                        answer(numbers, n - 1),
                    )
                }
            },
        }
    }
}

/// The message for a role whose name is in use.
pub open spec fn duplicate_role(name: Seq<char>) -> Seq<char> {
    "duplicate factor or replicate-role name '"@ + name + "'"@
}

/// A name is that of a factor or of a role.
pub open spec fn name_taken(
    name: Seq<char>,
    factors: Seq<FactorView>,
    roles: Seq<RoleView>,
) -> bool {
    name_index(factor_names(factors), name, 0) is Some || name_index(role_names(roles), name, 0)
        is Some
}

/// The roles of the first `n` lines.
pub open spec fn roles_of(
    input: Seq<char>,
    notes: Seq<Noted>,
    factors: Seq<FactorView>,
    numbers: Seq<NumbersView>,
    n: nat,
) -> Result<Seq<RoleView>, Seq<char>>
    decreases n,
{
    if n == 0 {
        Ok(Seq::empty())
    } else {
        match roles_of(input, notes, factors, numbers, (n - 1) as nat) {
            Err(m) => Err(m),
            Ok(roles) => {
                let note = notes[n - 1];
                match line_role(note.text, answer(numbers, note.line - 1)) {
                    Err(m) => Err(at_line(input, note.line, m)),
                    Ok(role) => if name_taken(role.name, factors, roles) {
                        Err(at_line(input, note.line, duplicate_role(role.name)))
                    } else {
                        Ok(roles.push(role))
                    },
                }
            },
        }
    }
}

/// The models of the first `n` formulas.
pub open spec fn models_of(
    input: Seq<char>,
    notes: Seq<Noted>,
    factors: Seq<FactorView>,
    results: Seq<Seq<char>>,
    roles: Seq<RoleView>,
    n: nat,
) -> Result<Seq<ModelView>, Seq<char>>
    decreases n,
{
    if n == 0 {
        Ok(Seq::empty())
    } else {
        match models_of(input, notes, factors, results, roles, (n - 1) as nat) {
            Err(m) => Err(m),
            Ok(models) => {
                let note = notes[n - 1];
                match checked_model(
                    note.text,
                    factor_names(factors),
                    results,
                    role_names(roles),
                    models,
                ) {
                    Err(m) => Err(at_line(input, note.line, m)),
                    Ok(model) => Ok(models.push(model)),
                }
            },
        }
    }
}

/// The unit of a draft.
pub open spec fn unit_of(
    input: Seq<char>,
    note: Option<Noted>,
    factors: Seq<FactorView>,
    roles: Seq<RoleView>,
) -> Result<Option<UnitView>, Seq<char>> {
    match note {
        None => Ok(None),
        Some(n) => match line_unit(n.text, factor_names(factors), role_names(roles)) {
            Err(m) => Err(at_line(input, n.line, m)),
            Ok(u) => Ok(Some(u)),
        },
    }
}

/// What a draft comes to once all sections have been read.
pub open spec fn settled(input: Seq<char>, d: Draft, numbers: Seq<NumbersView>) -> Result<
    ParsedView,
    Seq<char>,
> {
    if d.factors.len() == 0 {
        Err("no factors in "@ + input)
    } else if d.results.len() == 0 {
        Err("no result columns in "@ + input + " (use a [results] section)"@)
    } else {
        match roles_of(input, d.roles, d.factors, numbers, d.roles.len()) {
            Err(m) => Err(m),
            Ok(replicates) => match models_of(
                input,
                d.formulas,
                d.factors,
                d.results,
                replicates,
                d.formulas.len(),
            ) {
                Err(m) => Err(m),
                Ok(models) => match unit_of(input, d.unit, d.factors, replicates) {
                    Err(m) => Err(m),
                    Ok(unit) => Ok(
                        ParsedView {
                            factors: d.factors,
                            results: d.results,
                            models,
                            replicates,
                            unit,
                        },
                    ),
                },
            },
        }
    }
}

/// What a design file says, or the message where it is refused.
pub open spec fn parsed_of(
    input: Seq<char>,
    lines: Seq<Seq<char>>,
    numbers: Seq<NumbersView>,
) -> Result<ParsedView, Seq<char>> {
    match draft_of(input, lines, numbers, lines.len()) {
        Err(m) => Err(m),
        Ok(d) => settled(input, d, numbers),
    }
}

/// The lines of a design file.
pub fn file_lines(text: &str) -> (out: Vec<String>)
    ensures
        views(out@) == line_list(text@),
{
    let all: Vec<char> = chars_of(text);
    let list: Vec<Vec<char>> = lines(&all);
    let ghost tv = texts(list@);
    let mut out: Vec<String> = Vec::new();
    let mut i: usize = 0;
    while i < list.len()
        invariant
            i <= list@.len(),
            tv == texts(list@),
            out@.len() == i,
            forall|k: int| 0 <= k < i ==> (#[trigger] out@[k])@ == tv[k],
        decreases list@.len() - i,
    {
        assert(tv[i as int] == list@[i as int]@);
        out.push(string_of(&list[i]));
        i = i + 1;
    }
    assert(views(out@) =~= tv);
    out
}

/// The numbers that line `i` asks for.
pub open spec fn line_request_of(lines: Seq<Seq<char>>, i: int) -> RequestView {
    let s = trimmed(lines[i]);
    if blank(s) || header_of(s) is Some {
        RequestView::Nothing
    } else {
        match section_after(lines, i as nat) {
            Section::Factors => factor_line_request_of(s),
            Section::Replicates => role_line_request_of(trimmed(uncommented(s))),
            _ => RequestView::Nothing,
        }
    }
}

/// The models, roles and unit fit the factors.
pub open spec fn parsed_wf(p: ParsedView) -> bool {
    &&& forall|i: int| 0 <= i < p.models.len() ==> model_wf(#[trigger] p.models[i], p.factors.len())
    &&& p.unit matches Some(u) ==> unit_wf(u, p.factors, p.replicates)
}

pub open spec fn number_views(numbers: Seq<Numbers>) -> Seq<NumbersView> {
    numbers.map_values(|n: Numbers| n@)
}

// ===== Reading =====

fn does_read(s: &[char], lower: &str) -> (r: bool)
    ensures
        r == reads(s@, lower@),
{
    let l: Vec<char> = chars_of(lower);
    if s.len() != l.len() {
        return false;
    }
    let mut i: usize = 0;
    while i < s.len()
        invariant
            i <= s@.len(),
            s@.len() == l@.len(),
            l@ == lower@,
            forall|k: int| 0 <= k < i ==> letter(#[trigger] s@[k], l@[k]),
        decreases s@.len() - i,
    {
        let c: char = s[i];
        let m: char = l[i];
        if !(c == m || ('A' <= c && c <= 'Z' && c as u32 + 32 == m as u32)) {
            assert(!letter(s@[i as int], l@[i as int]));
            return false;
        }
        i = i + 1;
    }
    true
}

fn read_header(s: &[char]) -> (r: Option<Section>)
    ensures
        r == header_of(s@),
{
    if does_read(s, "[factors]") {
        Some(Section::Factors)
    } else if does_read(s, "[results]") {
        Some(Section::Results)
    } else if does_read(s, "[model]") {
        Some(Section::Model)
    } else if does_read(s, "[replicates]") {
        Some(Section::Replicates)
    } else if does_read(s, "[units]") {
        Some(Section::Units)
    } else {
        None
    }
}

fn line_error(input: &str, line: usize, e: Error) -> (r: Error)
    ensures
        r@ == at_line(input@, line as nat, e@),
{
    let mut message: String = String::new();
    message.append(input);
    message.append(":");
    push_decimal(&mut message, line as u64);
    message.append(": ");
    let m: String = e.to_text();
    message.append(m.as_str());
    assert(message@ =~= at_line(input@, line as nat, e@));
    Error { message }
}

/// A line with its number.
struct Note {
    line: usize,
    text: String,
}

spec fn note_view(n: Note) -> Noted {
    Noted { line: n.line as nat, text: n.text@ }
}

spec fn note_views(n: Seq<Note>) -> Seq<Noted> {
    n.map_values(|x: Note| note_view(x))
}

spec fn optional_note(n: Option<Note>) -> Option<Noted> {
    match n {
        Some(x) => Some(note_view(x)),
        None => None,
    }
}

struct Reading {
    factors: Vec<Factor>,
    results: Vec<String>,
    formulas: Vec<Note>,
    roles: Vec<Note>,
    unit: Option<Note>,
}

impl Reading {
    spec fn draft(&self) -> Draft {
        Draft {
            factors: factor_views(self.factors@),
            results: views(self.results@),
            formulas: note_views(self.formulas@),
            roles: note_views(self.roles@),
            unit: optional_note(self.unit),
        }
    }

    fn add(
        &mut self,
        input: &str,
        section: Section,
        line: usize,
        s: &Vec<char>,
        numbers: &Numbers,
    ) -> (r: Result<(), Error>)
        ensures
            match r {
                Ok(_) => with_line(
                    old(self).draft(),
                    input@,
                    section,
                    line as nat,
                    s@,
                    numbers@,
                ) == Ok::<Draft, Seq<char>>(final(self).draft()),
                Err(e) => with_line(
                    old(self).draft(),
                    input@,
                    section,
                    line as nat,
                    s@,
                    numbers@,
                ) == Err::<Draft, Seq<char>>(e@),
            },
    {
        let ghost before = self.draft();
        let text: String = string_of(s);
        match section {
            Section::Factors => match parse_factor_line(text.as_str(), numbers) {
                Err(e) => {
                    return Err(line_error(input, line, e));
                },
                Ok(f) => {
                    let ghost v = f@;
                    self.factors.push(f);
                    assert(factor_views(self.factors@) =~= before.factors.push(v));
                },
            },
            Section::Results => {
                if !is_valid_name(s) {
                    return Err(
                        line_error(
                            input,
                            line,
                            Error::of3("invalid result name '", text.as_str(), "'"),
                        ),
                    );
                }
                self.results.push(text);
                assert(views(self.results@) =~= before.results.push(s@));
            },
            Section::Model => {
                let bare: Vec<char> = strip_comment(s);
                let t: Vec<char> = trim(&bare);
                let note: Note = Note { line, text: string_of(&t) };
                let ghost v = note_view(note);
                self.formulas.push(note);
                assert(note_views(self.formulas@) =~= before.formulas.push(v));
            },
            Section::Replicates => {
                let bare: Vec<char> = strip_comment(s);
                let t: Vec<char> = trim(&bare);
                let note: Note = Note { line, text: string_of(&t) };
                let ghost v = note_view(note);
                self.roles.push(note);
                assert(note_views(self.roles@) =~= before.roles.push(v));
            },
            Section::Units => {
                if self.unit.is_some() {
                    return Err(
                        line_error(input, line, Error::new("[units] permits at most one line")),
                    );
                }
                let bare: Vec<char> = strip_comment(s);
                let t: Vec<char> = trim(&bare);
                self.unit = Some(Note { line, text: string_of(&t) });
            },
        }
        Ok(())
    }
}

/// An error in the lines stands, whatever follows.
proof fn lemma_draft_error(
    input: Seq<char>,
    lines: Seq<Seq<char>>,
    numbers: Seq<NumbersView>,
    n: nat,
    m: nat,
)
    requires
        n <= m,
        draft_of(input, lines, numbers, n) is Err,
    ensures
        draft_of(input, lines, numbers, m) == draft_of(input, lines, numbers, n),
    decreases m - n,
{
    if n < m {
        lemma_draft_error(input, lines, numbers, n, (m - 1) as nat);
    }
}

proof fn lemma_roles_error(
    input: Seq<char>,
    notes: Seq<Noted>,
    factors: Seq<FactorView>,
    numbers: Seq<NumbersView>,
    n: nat,
    m: nat,
)
    requires
        n <= m,
        roles_of(input, notes, factors, numbers, n) is Err,
    ensures
        roles_of(input, notes, factors, numbers, m) == roles_of(input, notes, factors, numbers, n),
    decreases m - n,
{
    if n < m {
        lemma_roles_error(input, notes, factors, numbers, n, (m - 1) as nat);
    }
}

proof fn lemma_models_error(
    input: Seq<char>,
    notes: Seq<Noted>,
    factors: Seq<FactorView>,
    results: Seq<Seq<char>>,
    roles: Seq<RoleView>,
    n: nat,
    m: nat,
)
    requires
        n <= m,
        models_of(input, notes, factors, results, roles, n) is Err,
    ensures
        models_of(input, notes, factors, results, roles, m) == models_of(
            input,
            notes,
            factors,
            results,
            roles,
            n,
        ),
    decreases m - n,
{
    if n < m {
        lemma_models_error(input, notes, factors, results, roles, n, (m - 1) as nat);
    }
}

fn read_draft(input: &str, lines: &Vec<String>, numbers: &Vec<Numbers>) -> (r: Result<
    Reading,
    Error,
>)
    ensures
        match r {
            Ok(d) => draft_of(input@, views(lines@), number_views(numbers@), lines@.len()) == Ok::<
                Draft,
                Seq<char>,
            >(d.draft()),
            Err(e) => draft_of(input@, views(lines@), number_views(numbers@), lines@.len()) == Err::<
                Draft,
                Seq<char>,
            >(e@),
        },
{
    let ghost lv = views(lines@);
    let ghost nv = number_views(numbers@);
    let mut d: Reading = Reading {
        factors: Vec::new(),
        results: Vec::new(),
        formulas: Vec::new(),
        roles: Vec::new(),
        unit: None,
    };
    let mut section: Section = Section::Factors;
    let absent: Numbers = Numbers::Absent;
    let mut i: usize = 0;
    assert(d.draft() =~= draft_of(input@, lv, nv, 0)->Ok_0);
    while i < lines.len()
        invariant
            i <= lines@.len(),
            lv == views(lines@),
            nv == number_views(numbers@),
            absent@ == NumbersView::Absent,
            section == section_after(lv, i as nat),
            draft_of(input@, lv, nv, i as nat) == Ok::<Draft, Seq<char>>(d.draft()),
        decreases lines@.len() - i,
    {
        let raw: Vec<char> = chars_of(lines[i].as_str());
        assert(lv[i as int] == raw@);
        let s: Vec<char> = trim(&raw);
        if s.len() > 0 && s[0] != '#' {
            match read_header(&s) {
                Some(h) => {
                    section = h;
                },
                None => {
                    let n: &Numbers = if i < numbers.len() { &numbers[i] } else { &absent };
                    assert(n@ == answer(nv, i as int));
                    match d.add(input, section, i + 1, &s, n) {
                        Err(e) => {
                            proof {
                                lemma_draft_error(input@, lv, nv, (i + 1) as nat, lv.len());
                            }
                            return Err(e);
                        },
                        Ok(_) => {},
                    }
                },
            }
        }
        i = i + 1;
    }
    Ok(d)
}

fn is_name_taken(name: &str, factors: &[Factor], roles: &[ReplicateRole]) -> (r: bool)
    ensures
        r == name_taken(name@, factor_views(factors@), role_views(roles@)),
{
    let n: Vec<char> = chars_of(name);
    find_factor(factors, &n).is_some() || find_role(roles, &n).is_some()
}

fn read_roles(input: &str, notes: &Vec<Note>, factors: &[Factor], numbers: &Vec<Numbers>) -> (r:
    Result<Vec<ReplicateRole>, Error>)
    requires
        forall|i: int| 0 <= i < notes@.len() ==> (#[trigger] notes@[i]).line > 0,
    ensures
        match r {
            Ok(roles) => roles_of(
                input@,
                note_views(notes@),
                factor_views(factors@),
                number_views(numbers@),
                notes@.len(),
            ) == Ok::<Seq<RoleView>, Seq<char>>(role_views(roles@)),
            Err(e) => roles_of(
                input@,
                note_views(notes@),
                factor_views(factors@),
                number_views(numbers@),
                notes@.len(),
            ) == Err::<Seq<RoleView>, Seq<char>>(e@),
        },
{
    let ghost (nv, fv, av) = (note_views(notes@), factor_views(factors@), number_views(numbers@));
    let absent: Numbers = Numbers::Absent;
    let mut roles: Vec<ReplicateRole> = Vec::new();
    assert(role_views(roles@) =~= Seq::empty());
    let mut i: usize = 0;
    while i < notes.len()
        invariant
            i <= notes@.len(),
            nv == note_views(notes@),
            fv == factor_views(factors@),
            av == number_views(numbers@),
            absent@ == NumbersView::Absent,
            forall|k: int| 0 <= k < notes@.len() ==> (#[trigger] notes@[k]).line > 0,
            roles_of(input@, nv, fv, av, i as nat) == Ok::<Seq<RoleView>, Seq<char>>(
                role_views(roles@),
            ),
        decreases notes@.len() - i,
    {
        let note: &Note = &notes[i];
        assert(nv[i as int] == note_view(*note));
        assert(notes@[i as int].line > 0);
        let at: usize = note.line - 1;
        let n: &Numbers = if at < numbers.len() { &numbers[at] } else { &absent };
        assert(n@ == answer(av, note.line - 1));
        match parse_replicate(note.text.as_str(), n) {
            Err(e) => {
                proof {
                    lemma_roles_error(input@, nv, fv, av, (i + 1) as nat, nv.len());
                }
                return Err(line_error(input, note.line, e));
            },
            Ok(role) => {
                if is_name_taken(role.name.as_str(), factors, &roles) {
                    let e: Error = Error::of3(
                        "duplicate factor or replicate-role name '",
                        role.name.as_str(),
                        "'",
                    );
                    proof {
                        lemma_roles_error(input@, nv, fv, av, (i + 1) as nat, nv.len());
                    }
                    return Err(line_error(input, note.line, e));
                }
                let ghost before = role_views(roles@);
                let ghost v = role@;
                roles.push(role);
                assert(role_views(roles@) =~= before.push(v));
            },
        }
        i = i + 1;
    }
    Ok(roles)
}

fn read_models(
    input: &str,
    notes: &Vec<Note>,
    factors: &[Factor],
    results: &Vec<String>,
    roles: &[ReplicateRole],
) -> (r: Result<Vec<Model>, Error>)
    ensures
        match r {
            Ok(models) => models_of(
                input@,
                note_views(notes@),
                factor_views(factors@),
                views(results@),
                role_views(roles@),
                notes@.len(),
            ) == Ok::<Seq<ModelView>, Seq<char>>(model_views(models@)) && forall|i: int|
                0 <= i < models@.len() ==> model_wf(
                    #[trigger] model_views(models@)[i],
                    factors@.len(),
                ),
            Err(e) => models_of(
                input@,
                note_views(notes@),
                factor_views(factors@),
                views(results@),
                role_views(roles@),
                notes@.len(),
            ) == Err::<Seq<ModelView>, Seq<char>>(e@),
        },
{
    let ghost (nv, fv, rs, rv) = (
        note_views(notes@),
        factor_views(factors@),
        views(results@),
        role_views(roles@),
    );
    let mut models: Vec<Model> = Vec::new();
    assert(model_views(models@) =~= Seq::empty());
    let mut i: usize = 0;
    while i < notes.len()
        invariant
            i <= notes@.len(),
            nv == note_views(notes@),
            fv == factor_views(factors@),
            rs == views(results@),
            rv == role_views(roles@),
            models_of(input@, nv, fv, rs, rv, i as nat) == Ok::<Seq<ModelView>, Seq<char>>(
                model_views(models@),
            ),
            forall|k: int|
                0 <= k < models@.len() ==> model_wf(
                    #[trigger] model_views(models@)[k],
                    factors@.len(),
                ),
        decreases notes@.len() - i,
    {
        let note: &Note = &notes[i];
        assert(nv[i as int] == note_view(*note));
        match build_model(note.text.as_str(), factors, results, roles, &models) {
            Err(e) => {
                proof {
                    lemma_models_error(input@, nv, fv, rs, rv, (i + 1) as nat, nv.len());
                }
                return Err(line_error(input, note.line, e));
            },
            Ok(model) => {
                let ghost before = model_views(models@);
                let ghost v = model@;
                models.push(model);
                assert(model_views(models@) =~= before.push(v));
            },
        }
        i = i + 1;
    }
    Ok(models)
}

/// Every noted line has a number.
proof fn lemma_noted(input: Seq<char>, lines: Seq<Seq<char>>, numbers: Seq<NumbersView>, n: nat)
    requires
        draft_of(input, lines, numbers, n) is Ok,
    ensures
        forall|i: int|
            0 <= i < draft_of(input, lines, numbers, n)->Ok_0.roles.len() ==> (
            #[trigger] draft_of(input, lines, numbers, n)->Ok_0.roles[i]).line > 0,
    decreases n,
{
    if n > 0 {
        lemma_noted(input, lines, numbers, (n - 1) as nat);
    }
}

/// Reads a design file: `input` names it in messages, `numbers` answers the
/// request of each line.
pub fn parse_design_file(input: &str, lines: &Vec<String>, numbers: &Vec<Numbers>) -> (r: Result<
    ParsedDesign,
    Error,
>)
    ensures
        match r {
            Ok(p) => parsed_of(input@, views(lines@), number_views(numbers@)) == Ok::<
                ParsedView,
                Seq<char>,
            >(p@) && parsed_wf(p@),
            Err(e) => parsed_of(input@, views(lines@), number_views(numbers@)) == Err::<
                ParsedView,
                Seq<char>,
            >(e@),
        },
{
    let ghost (lv, nv) = (views(lines@), number_views(numbers@));
    let d: Reading = match read_draft(input, lines, numbers) {
        Err(e) => {
            return Err(e);
        },
        Ok(d) => d,
    };
    let ghost draft = d.draft();
    assert(draft.factors.len() == d.factors@.len());
    assert(draft.results.len() == d.results@.len());
    if d.factors.len() == 0 {
        let e: Error = Error::of3("no factors in ", input, "");
        assert(e@ =~= "no factors in "@ + input@) by {
            reveal_strlit("");
        }
        return Err(e);
    }
    if d.results.len() == 0 {
        return Err(Error::of3("no result columns in ", input, " (use a [results] section)"));
    }
    proof {
        lemma_noted(input@, lv, nv, lv.len());
        assert forall|i: int| 0 <= i < d.roles@.len() implies (#[trigger] d.roles@[i]).line > 0 by {
            assert(draft.roles[i] == note_view(d.roles@[i]));
        }
        assert(draft.roles.len() == d.roles@.len());
        assert(draft.formulas.len() == d.formulas@.len());
    }
    let replicates: Vec<ReplicateRole> = match read_roles(input, &d.roles, &d.factors, numbers) {
        Err(e) => {
            return Err(e);
        },
        Ok(r) => r,
    };
    let models: Vec<Model> = match read_models(
        input,
        &d.formulas,
        &d.factors,
        &d.results,
        &replicates,
    ) {
        Err(e) => {
            return Err(e);
        },
        Ok(m) => m,
    };
    let unit: Option<Unit> = match &d.unit {
        None => None,
        Some(note) => match parse_unit(note.text.as_str(), &d.factors, &replicates) {
            Err(e) => {
                return Err(line_error(input, note.line, e));
            },
            Ok(u) => Some(u),
        },
    };
    let p: ParsedDesign = ParsedDesign {
        factors: d.factors,
        results: d.results,
        models,
        replicates,
        unit,
    };
    assert(p@ =~= settled(input@, draft, nv)->Ok_0);
    Ok(p)
}

/// The numbers that each line of a design file asks for.
pub fn file_requests(lines: &Vec<String>) -> (out: Vec<Request>)
    ensures
        out@.len() == lines@.len(),
        forall|i: int|
            0 <= i < out@.len() ==> (#[trigger] out@[i])@ == line_request_of(views(lines@), i),
{
    let ghost lv = views(lines@);
    let mut out: Vec<Request> = Vec::new();
    let mut section: Section = Section::Factors;
    let mut i: usize = 0;
    while i < lines.len()
        invariant
            i <= lines@.len(),
            lv == views(lines@),
            section == section_after(lv, i as nat),
            out@.len() == i,
            forall|k: int| 0 <= k < i ==> (#[trigger] out@[k])@ == line_request_of(lv, k),
        decreases lines@.len() - i,
    {
        let raw: Vec<char> = chars_of(lines[i].as_str());
        assert(lv[i as int] == raw@);
        let s: Vec<char> = trim(&raw);
        let mut request: Request = Request::Nothing;
        if s.len() > 0 && s[0] != '#' {
            match read_header(&s) {
                Some(h) => {
                    section = h;
                },
                None => {
                    match section {
                        Section::Factors => {
                            let t: String = string_of(&s);
                            request = factor_line_request(t.as_str());
                        },
                        Section::Replicates => {
                            let bare: Vec<char> = strip_comment(&s);
                            let inner: Vec<char> = trim(&bare);
                            let t: String = string_of(&inner);
                            request = replicate_request(t.as_str());
                        },
                        _ => {},
                    }
                },
            }
        }
        out.push(request);
        i = i + 1;
    }
    out
}

// ===== Command line =====

/// A message about an option.
pub open spec fn at_option(option: Seq<char>, src: Seq<char>, message: Seq<char>) -> Seq<char> {
    option + " '"@ + src + "': "@ + message
}

/// The roles of a design with those of the first `n` options.
pub open spec fn added_roles(
    p: ParsedView,
    options: Seq<Seq<char>>,
    numbers: Seq<NumbersView>,
    n: nat,
) -> Result<Seq<RoleView>, Seq<char>>
    decreases n,
{
    if n == 0 {
        Ok(p.replicates)
    } else {
        match added_roles(p, options, numbers, (n - 1) as nat) {
            Err(m) => Err(m),
            Ok(roles) => match line_role(options[n - 1], answer(numbers, n - 1)) {
                Err(m) => Err(at_option("--replicate"@, options[n - 1], m)),
                Ok(role) => if name_taken(role.name, p.factors, roles) {
                    Err(at_option("--replicate"@, options[n - 1], duplicate_role(role.name)))
                } else {
                    Ok(roles.push(role))
                },
            },
        }
    }
}

/// The models of a design with those of the first `n` options.
pub open spec fn added_models(
    p: ParsedView,
    roles: Seq<RoleView>,
    options: Seq<Seq<char>>,
    n: nat,
) -> Result<Seq<ModelView>, Seq<char>>
    decreases n,
{
    if n == 0 {
        Ok(p.models)
    } else {
        match added_models(p, roles, options, (n - 1) as nat) {
            Err(m) => Err(m),
            Ok(models) => match checked_model(
                options[n - 1],
                factor_names(p.factors),
                p.results,
                role_names(roles),
                models,
            ) {
                Err(m) => Err(at_option("--model"@, options[n - 1], m)),
                Ok(model) => Ok(models.push(model)),
            },
        }
    }
}

/// The unit of a design with that of the options.
pub open spec fn added_unit(p: ParsedView, roles: Seq<RoleView>, option: Option<Seq<char>>) -> Result<
    Option<UnitView>,
    Seq<char>,
> {
    match option {
        None => Ok(p.unit),
        Some(src) => if p.unit is Some {
            Err(at_option("--unit"@, src, "a unit is already declared (at most one)"@))
        } else {
            match line_unit(src, factor_names(p.factors), role_names(roles)) {
                Err(m) => Err(at_option("--unit"@, src, m)),
                Ok(u) => Ok(Some(u)),
            }
        },
    }
}

/// A design with what the options add.
pub open spec fn merged(
    p: ParsedView,
    models: Seq<Seq<char>>,
    replicates: Seq<Seq<char>>,
    unit: Option<Seq<char>>,
    numbers: Seq<NumbersView>,
) -> Result<ParsedView, Seq<char>> {
    match added_roles(p, replicates, numbers, replicates.len()) {
        Err(m) => Err(m),
        Ok(roles) => match added_models(p, roles, models, models.len()) {
            Err(m) => Err(m),
            Ok(all) => match added_unit(p, roles, unit) {
                Err(m) => Err(m),
                Ok(u) => Ok(ParsedView { models: all, replicates: roles, unit: u, ..p }),
            },
        },
    }
}

fn option_error(option: &str, src: &str, e: Error) -> (r: Error)
    ensures
        r@ == at_option(option@, src@, e@),
{
    let m: String = e.to_text();
    let mut message: String = String::new();
    message.append(option);
    message.append(" '");
    message.append(src);
    message.append("': ");
    message.append(m.as_str());
    assert(message@ =~= at_option(option@, src@, e@));
    Error { message }
}

proof fn lemma_added_roles_error(
    p: ParsedView,
    options: Seq<Seq<char>>,
    numbers: Seq<NumbersView>,
    n: nat,
    m: nat,
)
    requires
        n <= m,
        added_roles(p, options, numbers, n) is Err,
    ensures
        added_roles(p, options, numbers, m) == added_roles(p, options, numbers, n),
    decreases m - n,
{
    if n < m {
        lemma_added_roles_error(p, options, numbers, n, (m - 1) as nat);
    }
}

proof fn lemma_added_models_error(
    p: ParsedView,
    roles: Seq<RoleView>,
    options: Seq<Seq<char>>,
    n: nat,
    m: nat,
)
    requires
        n <= m,
        added_models(p, roles, options, n) is Err,
    ensures
        added_models(p, roles, options, m) == added_models(p, roles, options, n),
    decreases m - n,
{
    if n < m {
        lemma_added_models_error(p, roles, options, n, (m - 1) as nat);
    }
}

proof fn lemma_name_kept(names: Seq<Seq<char>>, more: Seq<char>, name: Seq<char>, i: nat)
    requires
        name_index(names, name, i) is Some,
    ensures
        name_index(names.push(more), name, i) is Some,
    decreases names.len() - i,
{
    if names[i as int] != name {
        lemma_name_kept(names, more, name, i + 1);
    }
}

/// One more role leaves the keys of a unit resolved.
proof fn lemma_unit_kept(u: UnitView, factors: Seq<FactorView>, roles: Seq<RoleView>, role: RoleView)
    requires
        unit_wf(u, factors, roles),
    ensures
        unit_wf(u, factors, roles.push(role)),
{
    let names = role_names(roles);
    assert(role_names(roles.push(role)) =~= names.push(role.name));
    assert forall|i: int| 0 <= i < u.key.len() implies name_index(
        factor_names(factors),
        #[trigger] u.key[i],
        0,
    ) is Some || name_index(role_names(roles.push(role)), u.key[i], 0) is Some by {
        if name_index(names, u.key[i], 0) is Some {
            lemma_name_kept(names, role.name, u.key[i], 0);
        }
    }
}

/// The view of an optional text behind a reference.
pub open spec fn option_view(s: Option<String>) -> Option<Seq<char>> {
    match s {
        Some(t) => Some(t@),
        None => None,
    }
}

/// Appends the options' formulas, replicate roles and unit after the file's own
/// sections, with the same checks that the file's lines get. `numbers` answers
/// the request of each replicate option.
pub fn apply_cli(parsed: ParsedDesign, opts: &ConstructOpts, numbers: &Vec<Numbers>) -> (r: Result<
    ParsedDesign,
    Error,
>)
    requires
        parsed_wf(parsed@),
    ensures
        match r {
            Ok(p) => merged(
                parsed@,
                views(opts.models@),
                views(opts.replicates@),
                option_view(opts.unit),
                number_views(numbers@),
            ) == Ok::<ParsedView, Seq<char>>(p@) && parsed_wf(p@),
            Err(e) => merged(
                parsed@,
                views(opts.models@),
                views(opts.replicates@),
                option_view(opts.unit),
                number_views(numbers@),
            ) == Err::<ParsedView, Seq<char>>(e@),
        },
{
    let ghost pv = parsed@;
    let ghost (ms, rs, nv) = (views(opts.models@), views(opts.replicates@), number_views(numbers@));
    let mut p: ParsedDesign = parsed;
    let absent: Numbers = Numbers::Absent;
    let mut i: usize = 0;
    while i < opts.replicates.len()
        invariant
            i <= opts.replicates@.len(),
            pv == parsed@,
            parsed_wf(pv),
            ms == views(opts.models@),
            rs == views(opts.replicates@),
            nv == number_views(numbers@),
            forall|u: UnitView|
                unit_wf(u, pv.factors, pv.replicates) ==> #[trigger] unit_wf(
                    u,
                    pv.factors,
                    role_views(p.replicates@),
                ),
            absent@ == NumbersView::Absent,
            p@ == (ParsedView { replicates: role_views(p.replicates@), ..pv }),
            added_roles(pv, rs, nv, i as nat) == Ok::<Seq<RoleView>, Seq<char>>(
                role_views(p.replicates@),
            ),
        decreases opts.replicates@.len() - i,
    {
        let src: &String = &opts.replicates[i];
        assert(rs[i as int] == src@);
        let n: &Numbers = if i < numbers.len() { &numbers[i] } else { &absent };
        assert(n@ == answer(nv, i as int));
        match parse_replicate(src.as_str(), n) {
            Err(e) => {
                proof {
                    lemma_added_roles_error(pv, rs, nv, (i + 1) as nat, rs.len());
                }
                return Err(option_error("--replicate", src.as_str(), e));
            },
            Ok(role) => {
                if is_name_taken(role.name.as_str(), &p.factors, &p.replicates) {
                    let e: Error = Error::of3(
                        "duplicate factor or replicate-role name '",
                        role.name.as_str(),
                        "'",
                    );
                    proof {
                        lemma_added_roles_error(pv, rs, nv, (i + 1) as nat, rs.len());
                    }
                    return Err(option_error("--replicate", src.as_str(), e));
                }
                let ghost before = role_views(p.replicates@);
                let ghost v = role@;
                p.replicates.push(role);
                assert(role_views(p.replicates@) =~= before.push(v));
                proof {
                    assert forall|u: UnitView| unit_wf(u, pv.factors, pv.replicates) implies
                        #[trigger] unit_wf(u, pv.factors, role_views(p.replicates@)) by {
                        assert(unit_wf(u, pv.factors, before));
                        lemma_unit_kept(u, pv.factors, before, v);
                    }
                }
            },
        }
        i = i + 1;
    }
    let ghost roles = role_views(p.replicates@);
    assert(p@.models == pv.models);
    let mut k: usize = 0;
    while k < opts.models.len()
        invariant
            k <= opts.models@.len(),
            pv == parsed@,
            ms == views(opts.models@),
            rs == views(opts.replicates@),
            nv == number_views(numbers@),
            added_roles(pv, rs, nv, rs.len()) == Ok::<Seq<RoleView>, Seq<char>>(roles),
            roles == role_views(p.replicates@),
            p@ == (ParsedView { replicates: roles, models: model_views(p.models@), ..pv }),
            added_models(pv, roles, ms, k as nat) == Ok::<Seq<ModelView>, Seq<char>>(
                model_views(p.models@),
            ),
            forall|j: int|
                0 <= j < p.models@.len() ==> model_wf(
                    #[trigger] model_views(p.models@)[j],
                    pv.factors.len(),
                ),
        decreases opts.models@.len() - k,
    {
        let src: &String = &opts.models[k];
        assert(ms[k as int] == src@);
        match build_model(src.as_str(), &p.factors, &p.results, &p.replicates, &p.models) {
            Err(e) => {
                proof {
                    lemma_added_models_error(pv, roles, ms, (k + 1) as nat, ms.len());
                }
                return Err(option_error("--model", src.as_str(), e));
            },
            Ok(model) => {
                let ghost before = model_views(p.models@);
                let ghost v = model@;
                assert(p@.factors.len() == p.factors@.len());
                p.models.push(model);
                assert(model_views(p.models@) =~= before.push(v));
            },
        }
        k = k + 1;
    }
    match &opts.unit {
        None => {},
        Some(src) => {
            if p.unit.is_some() {
                return Err(
                    option_error(
                        "--unit",
                        src.as_str(),
                        Error::new("a unit is already declared (at most one)"),
                    ),
                );
            }
            match parse_unit(src.as_str(), &p.factors, &p.replicates) {
                Err(e) => {
                    return Err(option_error("--unit", src.as_str(), e));
                },
                Ok(u) => {
                    p.unit = Some(u);
                },
            }
        },
    }
    assert(p@ =~= merged(pv, ms, rs, option_view(opts.unit), nv)->Ok_0);
    Ok(p)
}

} // verus!
