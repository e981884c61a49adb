//! The lines of a design file: factors, formulas, replicate roles and units.
use vstd::prelude::*;

use crate::error::Error;
use crate::factor::{
    factor_of, factor_views, find_char, position, value_equal, value_text, value_views, Factor,
    FactorValue, FactorView, Numbers, NumbersView, Request, RequestView, ValueView,
};
use crate::model::formula::{
    factor_names, find_factor, formula_names, formula_names_of, is_valid_name, model_of,
    model_views, model_wf, name_index, text_view, valid_name, Model, ModelView,
};
use crate::model::matrix::{
    find_role, role_names, role_views, unit_wf, ReplicateRole, RoleView, Unit, UnitView,
};
use crate::text::{
    chars_of, equal, is_text, parse_i64, part, pieces, same, signed_value, split, string_of, texts,
    trim, trimmed, views,
};

verus! {

/// The text before the first `=` and the text behind it, without white space at
/// their ends.
pub open spec fn sides(line: Seq<char>) -> Option<(Seq<char>, Seq<char>)> {
    match position(line, '=', 0) {
        Some(i) => Some((trimmed(line.take(i as int)), trimmed(line.skip(i as int + 1)))),
        None => None,
    }
}

fn read_sides(line: &[char]) -> (r: Option<(Vec<char>, Vec<char>)>)
    ensures
        match r {
            Some((a, b)) => sides(line@) == Some((a@, b@)),
            None => sides(line@) is None,
        },
{
    match find_char(line, '=') {
        None => None,
        Some(i) => {
            let n: usize = line.len();
            let left: Vec<char> = part(line, 0, i);
            let right: Vec<char> = part(line, i + 1, n);
            assert(left@ =~= line@.take(i as int));
            assert(right@ =~= line@.skip(i as int + 1));
            Some((trim(&left), trim(&right)))
        },
    }
}

// ===== Factors =====

/// The factor of a line, or the message where it has none.
pub open spec fn line_factor(line: Seq<char>, numbers: NumbersView) -> Result<
    FactorView,
    Seq<char>,
> {
    match sides(line) {
        None => Err("expected 'name = spec'"@),
        Some((name, spec)) => if !valid_name(name) {
            Err("invalid factor name '"@ + name + "'"@)
        } else {
            factor_of(name, spec, numbers)
        },
    }
}

/// Reads the line of a factor, given the numbers that its spec asks for.
pub fn parse_factor_line(line: &str, numbers: &Numbers) -> (r: Result<Factor, Error>)
    ensures
        match r {
            Ok(f) => line_factor(line@, numbers@) == Ok::<FactorView, Seq<char>>(f@),
            Err(e) => line_factor(line@, numbers@) == Err::<FactorView, Seq<char>>(e@),
        },
{
    let all: Vec<char> = chars_of(line);
    match read_sides(&all) {
        None => Err(Error::new("expected 'name = spec'")),
        Some((name, spec)) => {
            let n: String = string_of(&name);
            if !is_valid_name(&name) {
                return Err(Error::of3("invalid factor name '", n.as_str(), "'"));
            }
            let s: String = string_of(&spec);
            Factor::parse(n.as_str(), s.as_str(), numbers)
        },
    }
}

/// The numbers that the line of a factor asks for.
pub open spec fn factor_line_request_of(line: Seq<char>) -> RequestView {
    match sides(line) {
        None => RequestView::Nothing,
        Some((_, spec)) => crate::factor::request_of(spec),
    }
}

/// The numbers that the line of a factor asks for.
pub fn factor_line_request(line: &str) -> (r: Request)
    ensures
        r@ == factor_line_request_of(line@),
{
    let all: Vec<char> = chars_of(line);
    match read_sides(&all) {
        None => Request::Nothing,
        Some((_, spec)) => {
            let s: String = string_of(&spec);
            Factor::request(s.as_str())
        },
    }
}

// ===== Replicate roles =====

/// A discrete spec with its items twice, so that one item suffices; nothing for
/// another spec.
pub open spec fn doubled(spec: Seq<char>) -> Option<Seq<char>> {
    match position(spec, '[', 0) {
        None => None,
        Some(i) => {
            let kind = trimmed(spec.take(i as int));
            let rest = spec.skip(i as int + 1);
            if (kind == "d"@ || kind == "discrete"@) && rest.len() > 0 && rest.last() == ']'
                && trimmed(rest.drop_last()).len() > 0 {
                Some("d["@ + rest.drop_last() + ","@ + rest.drop_last() + "]"@)
            } else {
                None
            }
        },
    }
}

fn read_doubled(spec: &[char]) -> (r: Option<String>)
    ensures
        match r {
            Some(s) => doubled(spec@) == Some(s@),
            None => doubled(spec@) is None,
        },
{
    match find_char(spec, '[') {
        None => None,
        Some(i) => {
            let n: usize = spec.len();
            let left: Vec<char> = part(spec, 0, i);
            let kind: Vec<char> = trim(&left);
            let rest: Vec<char> = part(spec, i + 1, n);
            assert(left@ =~= spec@.take(i as int));
            assert(rest@ =~= spec@.skip(i as int + 1));
            if (is_text(&kind, "d") || is_text(&kind, "discrete")) && rest.len() > 0 && rest[rest.len()
                - 1] == ']' {
                let args: Vec<char> = part(&rest, 0, rest.len() - 1);
                assert(args@ =~= rest@.drop_last());
                if trim(&args).len() > 0 {
                    let a: String = string_of(&args);
                    let mut s: String = String::new();
                    s.append("d[");
                    s.append(a.as_str());
                    s.append(",");
                    s.append(a.as_str());
                    s.append("]");
                    assert(s@ =~= "d["@ + args@ + ","@ + args@ + "]"@);
                    return Some(s);
                }
            }
            None
        },
    }
}

/// The whole numbers from one to `n` as levels.
pub open spec fn count_levels(n: nat) -> Seq<ValueView> {
    Seq::new(n, |i: int| ValueView::Int(i + 1))
}

/// The levels of a role, or the message where it has none.
pub open spec fn role_levels(name: Seq<char>, spec: Seq<char>, numbers: NumbersView) -> Result<
    Seq<ValueView>,
    Seq<char>,
> {
    if spec.contains('[') {
        match doubled(spec) {
            Some(two) => match factor_of(name, two, numbers) {
                Ok(f) => Ok(f.values.take(f.values.len() as int / 2)),
                Err(m) => Err(m),
            },
            None => match factor_of(name, spec, numbers) {
                Ok(f) => Ok(f.values),
                Err(m) => Err(m),
            },
        }
    } else {
        match signed_value(spec) {
            None => Err("invalid replicate count '"@ + spec + "'"@),
            Some(n) => if n < 1 {
                Err("replicate count must be positive"@)
            } else {
                Ok(count_levels(n as nat))
            },
        }
    }
}

/// Level `i` occurs before.
pub open spec fn repeats(levels: Seq<ValueView>, i: int) -> bool {
    exists|j: int| 0 <= j < i && value_equal(#[trigger] levels[j], levels[i])
}

/// The first level, from `i` on, that occurs before.
pub open spec fn first_repeat(levels: Seq<ValueView>, i: nat) -> Option<nat>
    decreases levels.len() - i,
{
    if i >= levels.len() {
        None
    } else if repeats(levels, i as int) {
        Some(i)
    } else {
        first_repeat(levels, i + 1)
    }
}

/// The role of a line, or the message where it has none.
pub open spec fn line_role(line: Seq<char>, numbers: NumbersView) -> Result<RoleView, Seq<char>> {
    match sides(line) {
        None => Err("expected 'name = spec'"@),
        Some((name, spec)) => if !valid_name(name) {
            Err("invalid replicate-role name '"@ + name + "'"@)
        } else {
            match role_levels(name, spec, numbers) {
                Err(m) => Err(m),
                Ok(levels) => match first_repeat(levels, 0) {
                    Some(i) => Err(
                        "duplicate level '"@ + value_text(levels[i as int])
                            + "' for replicate role '"@ + name + "'"@,
                    ),
                    None => Ok(RoleView { name, levels }),
                },
            }
        },
    }
}

/// The numbers that the line of a role asks for.
pub open spec fn role_line_request_of(line: Seq<char>) -> RequestView {
    match sides(line) {
        None => RequestView::Nothing,
        Some((_, spec)) => match doubled(spec) {
            Some(two) => crate::factor::request_of(two),
            None => crate::factor::request_of(spec),
        },
    }
}

/// The numbers that the line of a role asks for.
pub fn replicate_request(line: &str) -> (r: Request)
    ensures
        r@ == role_line_request_of(line@),
{
    let all: Vec<char> = chars_of(line);
    match read_sides(&all) {
        None => Request::Nothing,
        Some((_, spec)) => match read_doubled(&spec) {
            Some(two) => Factor::request(two.as_str()),
            None => {
                let s: String = string_of(&spec);
                Factor::request(s.as_str())
            },
        },
    }
}

fn counted(n: u64) -> (out: Vec<FactorValue>)
    requires
        n <= 0x7fff_ffff_ffff_ffff,
    ensures
        value_views(out@) == count_levels(n as nat),
{
    let mut out: Vec<FactorValue> = Vec::new();
    let mut i: u64 = 0;
    assert(value_views(out@) =~= count_levels(0));
    while i < n
        invariant
            i <= n <= 0x7fff_ffff_ffff_ffff,
            value_views(out@) == count_levels(i as nat),
        decreases n - i,
    {
        let ghost before = value_views(out@);
        out.push(FactorValue::Int((i + 1) as i64));
        assert(value_views(out@) =~= before.push(ValueView::Int(i + 1)));
        assert(value_views(out@) =~= count_levels((i + 1) as nat));
        i = i + 1;
    }
    out
}

fn read_levels(name: &str, spec: &Vec<char>, numbers: &Numbers) -> (r: Result<
    Vec<FactorValue>,
    Error,
>)
    ensures
        match r {
            Ok(v) => role_levels(name@, spec@, numbers@) == Ok::<Seq<ValueView>, Seq<char>>(
                value_views(v@),
            ),
            Err(e) => role_levels(name@, spec@, numbers@) == Err::<Seq<ValueView>, Seq<char>>(e@),
        },
{
    let s: String = string_of(spec);
    match find_char(spec, '[') {
        Some(i) => {
            assert(spec@[i as int] == '[');
            assert(spec@.contains('['));
            match read_doubled(spec) {
                Some(two) => match Factor::parse(name, two.as_str(), numbers) {
                    Err(e) => Err(e),
                    Ok(f) => {
                        let half: usize = f.values.len() / 2;
                        let mut out: Vec<FactorValue> = Vec::new();
                        let mut k: usize = 0;
                        let ghost all = value_views(f.values@);
                        assert(value_views(out@) =~= all.take(0));
                        while k < half
                            invariant
                                k <= half <= f.values@.len(),
                                all == value_views(f.values@),
                                value_views(out@) == all.take(k as int),
                            decreases half - k,
                        {
                            let ghost before = value_views(out@);
                            let v: FactorValue = f.values[k].copy();
                            let ghost vv = v@;
                            out.push(v);
                            assert(value_views(out@) =~= before.push(vv));
                            assert(all.take(k + 1) =~= all.take(k as int).push(all[k as int]));
                            k = k + 1;
                        }
                        assert(all.len() == f.values@.len());
                        Ok(out)
                    },
                },
                None => match Factor::parse(name, s.as_str(), numbers) {
                    Err(e) => Err(e),
                    Ok(f) => Ok(f.values),
                },
            }
        },
        None => {
            proof {
                lemma_position_none(spec@, '[', 0);
            }
            match parse_i64(spec) {
                None => Err(Error::of3("invalid replicate count '", s.as_str(), "'")),
                Some(n) => {
                    if n < 1 {
                        Err(Error::new("replicate count must be positive"))
                    } else {
                        Ok(counted(n as u64))
                    }
                },
            }
        },
    }
}

/// Where a character has no position it does not occur.
pub proof fn lemma_position_none(s: Seq<char>, c: char, i: nat)
    requires
        position(s, c, i) is None,
    ensures
        forall|k: int| i <= k < s.len() ==> #[trigger] s[k] != c,
    decreases s.len() - i,
{
    if i < s.len() {
        lemma_position_none(s, c, i + 1);
    }
}

/// Reads the line of a replicate role, given the numbers that it asks for.
pub fn parse_replicate(src: &str, numbers: &Numbers) -> (r: Result<ReplicateRole, Error>)
    ensures
        match r {
            Ok(role) => line_role(src@, numbers@) == Ok::<RoleView, Seq<char>>(role@),
            Err(e) => line_role(src@, numbers@) == Err::<RoleView, Seq<char>>(e@),
        },
{
    let all: Vec<char> = chars_of(src);
    let (name, spec): (Vec<char>, Vec<char>) = match read_sides(&all) {
        None => {
            return Err(Error::new("expected 'name = spec'"));
        },
        Some(s) => s,
    };
    let n: String = string_of(&name);
    if !is_valid_name(&name) {
        return Err(Error::of3("invalid replicate-role name '", n.as_str(), "'"));
    }
    let levels: Vec<FactorValue> = match read_levels(n.as_str(), &spec, numbers) {
        Err(e) => {
            return Err(e);
        },
        Ok(v) => v,
    };
    let ghost lv = value_views(levels@);
    let mut i: usize = 0;
    while i < levels.len()
        invariant
            i <= levels@.len(),
            lv == value_views(levels@),
            n@ == name@,
            sides(src@) == Some((name@, spec@)),
            valid_name(name@),
            role_levels(name@, spec@, numbers@) == Ok::<Seq<ValueView>, Seq<char>>(lv),
            first_repeat(lv, 0) == first_repeat(lv, i as nat),
        decreases levels@.len() - i,
    {
        let mut j: usize = 0;
        while j < i
            invariant
                j <= i < levels@.len(),
                lv == value_views(levels@),
                n@ == name@,
                sides(src@) == Some((name@, spec@)),
                valid_name(name@),
                role_levels(name@, spec@, numbers@) == Ok::<Seq<ValueView>, Seq<char>>(lv),
                first_repeat(lv, 0) == first_repeat(lv, i as nat),
                forall|k: int| 0 <= k < j ==> !value_equal(#[trigger] lv[k], lv[i as int]),
            decreases i - j,
        {
            assert(lv[j as int] == levels@[j as int]@ && lv[i as int] == levels@[i as int]@);
            if levels[j].same(&levels[i]) {
                assert(value_equal(lv[j as int], lv[i as int]));
                assert(repeats(lv, i as int));
                let t: String = levels[i].to_text();
                return Err(
                    Error::of5(
                        "duplicate level '",
                        t.as_str(),
                        "' for replicate role '",
                        n.as_str(),
                        "'",
                    ),
                );
            }
            j = j + 1;
        }
        assert(!repeats(lv, i as int));
        i = i + 1;
    }
    let role: ReplicateRole = ReplicateRole { name: n, levels };
    assert(role@ =~= RoleView { name: name@, levels: lv });
    Ok(role)
}

// ===== Units =====

/// The first `n` keys of a unit, or the message where one is not a key.
pub open spec fn unit_keys_of(
    items: Seq<Seq<char>>,
    factors: Seq<Seq<char>>,
    roles: Seq<Seq<char>>,
    n: nat,
) -> Result<Seq<Seq<char>>, Seq<char>>
    decreases n,
{
    if n == 0 {
        Ok(Seq::empty())
    } else {
        match unit_keys_of(items, factors, roles, (n - 1) as nat) {
            Err(m) => Err(m),
            Ok(keys) => {
                let key = trimmed(items[n - 1]);
                if name_index(factors, key, 0) is None && name_index(roles, key, 0) is None {
                    Err("unknown unit key '"@ + key + "'"@)
                } else if keys.contains(key) {
                    Err("duplicate unit key '"@ + key + "'"@)
                } else {
                    Ok(keys.push(key))
                }
            },
        }
    }
}

/// The unit of a line, or the message where it has none.
pub open spec fn line_unit(line: Seq<char>, factors: Seq<Seq<char>>, roles: Seq<Seq<char>>) -> Result<
    UnitView,
    Seq<char>,
> {
    match position(line, '=', 0) {
        None => Err("expected 'name = key1, key2, …'"@),
        Some(i) => {
            let name = trimmed(line.take(i as int));
            if !valid_name(name) {
                Err("invalid unit name '"@ + name + "'"@)
            } else {
                let items = pieces(line.skip(i as int + 1), ',');
                match unit_keys_of(items, factors, roles, items.len()) {
                    Err(m) => Err(m),
                    Ok(key) => Ok(UnitView { name, key }),
                }
            }
        },
    }
}

/// An error in the keys stands, whatever follows.
proof fn lemma_unit_error(
    items: Seq<Seq<char>>,
    factors: Seq<Seq<char>>,
    roles: Seq<Seq<char>>,
    n: nat,
    m: nat,
)
    requires
        n <= m,
        unit_keys_of(items, factors, roles, n) is Err,
    ensures
        unit_keys_of(items, factors, roles, m) == unit_keys_of(items, factors, roles, n),
    decreases m - n,
{
    if n < m {
        lemma_unit_error(items, factors, roles, n, (m - 1) as nat);
    }
}

fn holds(list: &Vec<String>, s: &str) -> (r: bool)
    ensures
        r == views(list@).contains(s@),
{
    let mut i: usize = 0;
    while i < list.len()
        invariant
            i <= list@.len(),
            forall|k: int| 0 <= k < i ==> #[trigger] views(list@)[k] != s@,
        decreases list@.len() - i,
    {
        if equal(list[i].as_str(), s) {
            assert(views(list@)[i as int] == s@);
            return true;
        }
        i = i + 1;
    }
    false
}

/// Reads the line of a unit.
pub fn parse_unit(src: &str, factors: &[Factor], roles: &[ReplicateRole]) -> (r: Result<Unit, Error>)
    ensures
        match r {
            Ok(u) => line_unit(
                src@,
                factor_names(factor_views(factors@)),
                role_names(role_views(roles@)),
            ) == Ok::<UnitView, Seq<char>>(u@) && unit_wf(
                u@,
                factor_views(factors@),
                role_views(roles@),
            ),
            Err(e) => line_unit(
                src@,
                factor_names(factor_views(factors@)),
                role_names(role_views(roles@)),
            ) == Err::<UnitView, Seq<char>>(e@),
        },
{
    let ghost fns = factor_names(factor_views(factors@));
    let ghost rns = role_names(role_views(roles@));
    let line: Vec<char> = chars_of(src);
    let at: usize = match find_char(&line, '=') {
        None => {
            return Err(Error::new("expected 'name = key1, key2, …'"));
        },
        Some(i) => i,
    };
    let left: Vec<char> = part(&line, 0, at);
    let name: Vec<char> = trim(&left);
    assert(left@ =~= line@.take(at as int));
    let n: String = string_of(&name);
    if !is_valid_name(&name) {
        return Err(Error::of3("invalid unit name '", n.as_str(), "'"));
    }
    let end: usize = line.len();
    let right: Vec<char> = part(&line, at + 1, end);
    assert(right@ =~= line@.skip(at as int + 1));
    let items: Vec<Vec<char>> = split(&right, ',');
    let ghost all = texts(items@);
    let mut key: Vec<String> = Vec::new();
    assert(views(key@) =~= Seq::empty());
    let mut i: usize = 0;
    while i < items.len()
        invariant
            i <= items@.len(),
            all == texts(items@),
            all == pieces(line@.skip(at as int + 1), ','),
            line@ == src@,
            position(line@, '=', 0) == Some(at as nat),
            name@ == trimmed(line@.take(at as int)),
            valid_name(name@),
            fns == factor_names(factor_views(factors@)),
            rns == role_names(role_views(roles@)),
            unit_keys_of(all, fns, rns, i as nat) == Ok::<Seq<Seq<char>>, Seq<char>>(views(key@)),
            forall|k: int|
                0 <= k < key@.len() ==> name_index(fns, #[trigger] views(key@)[k], 0) is Some
                    || name_index(rns, views(key@)[k], 0) is Some,
        decreases items@.len() - i,
    {
        let item: Vec<char> = trim(&items[i]);
        assert(all[i as int] == items@[i as int]@);
        let s: String = string_of(&item);
        if find_factor(factors, &item).is_none() && find_role(roles, &item).is_none() {
            let e: Error = Error::of3("unknown unit key '", s.as_str(), "'");
            proof {
                lemma_unit_error(all, fns, rns, (i + 1) as nat, all.len());
            }
            return Err(e);
        }
        if holds(&key, s.as_str()) {
            let e: Error = Error::of3("duplicate unit key '", s.as_str(), "'");
            proof {
                lemma_unit_error(all, fns, rns, (i + 1) as nat, all.len());
            }
            return Err(e);
        }
        let ghost before = views(key@);
        let ghost v = s@;
        key.push(s);
        assert(views(key@) =~= before.push(v));
        i = i + 1;
    }
    let u: Unit = Unit { name: n, key };
    assert(u@ =~= UnitView { name: name@, key: views(key@) });
    Ok(u)
}

// ===== Formulas =====

/// The first name, from `i` on, that is a role.
pub open spec fn first_role(names: Seq<Seq<char>>, roles: Seq<Seq<char>>, i: nat) -> Option<nat>
    decreases names.len() - i,
{
    if i >= names.len() {
        None
    } else if name_index(roles, names[i as int], 0) is Some {
        Some(i)
    } else {
        first_role(names, roles, i + 1)
    }
}

/// A model for the same response is there already.
pub open spec fn response_taken(models: Seq<ModelView>, response: Option<Seq<char>>) -> bool {
    exists|i: int| 0 <= i < models.len() && (#[trigger] models[i]).response == response
}

/// The model of a formula, checked against the design, or the message where it
/// is refused.
pub open spec fn checked_model(
    src: Seq<char>,
    factors: Seq<Seq<char>>,
    results: Seq<Seq<char>>,
    roles: Seq<Seq<char>>,
    models: Seq<ModelView>,
) -> Result<ModelView, Seq<char>> {
    match formula_names_of(src) {
        Err(m) => Err(m),
        Ok(names) => match first_role(names, roles, 0) {
            Some(i) => Err(
                "replicate role '"@ + names[i as int] + "' cannot appear in a model formula"@,
            ),
            None => match model_of(src, factors) {
                Err(m) => Err(m),
                Ok(model) => if model.response is Some && !results.contains(model.response->0) {
                    Err("unknown result name '"@ + model.response->0 + "'"@)
                } else if response_taken(models, model.response) {
                    Err(
                        "duplicate model for response '"@ + crate::model::formula::response_text(
                            model.response,
                        ) + "'"@,
                    )
                } else {
                    Ok(model)
                },
            },
        },
    }
}

fn same_response(a: &Option<String>, b: &Option<String>) -> (r: bool)
    ensures
        r == (text_view(*a) == text_view(*b)),
{
    match (a, b) {
        (None, None) => true,
        (Some(x), Some(y)) => equal(x.as_str(), y.as_str()),
        _ => false,
    }
}

/// Reads and checks one formula against the factors, results, replicate roles,
/// and the formulas accepted so far. The file and the command line go through
/// this alike, so both refuse the same things.
pub fn build_model(
    src: &str,
    factors: &[Factor],
    results: &Vec<String>,
    replicates: &[ReplicateRole],
    models: &[Model],
) -> (r: Result<Model, Error>)
    ensures
        match r {
            Ok(m) => checked_model(
                src@,
                factor_names(factor_views(factors@)),
                views(results@),
                role_names(role_views(replicates@)),
                model_views(models@),
            ) == Ok::<ModelView, Seq<char>>(m@) && model_wf(m@, factors@.len()) && m@.terms.len()
                > 0,
            Err(e) => checked_model(
                src@,
                factor_names(factor_views(factors@)),
                views(results@),
                role_names(role_views(replicates@)),
                model_views(models@),
            ) == Err::<ModelView, Seq<char>>(e@),
        },
{
    let ghost fns = factor_names(factor_views(factors@));
    let ghost rns = role_names(role_views(replicates@));
    let ghost mv = model_views(models@);
    let all: Vec<char> = chars_of(src);
    let names: Vec<Vec<char>> = match formula_names(&all) {
        Err(e) => {
            return Err(e);
        },
        Ok(n) => n,
    };
    let ghost ns = texts(names@);
    let mut i: usize = 0;
    while i < names.len()
        invariant
            i <= names@.len(),
            ns == texts(names@),
            rns == role_names(role_views(replicates@)),
            formula_names_of(src@) == Ok::<Seq<Seq<char>>, Seq<char>>(ns),
            first_role(ns, rns, 0) == first_role(ns, rns, i as nat),
        decreases names@.len() - i,
    {
        assert(ns[i as int] == names@[i as int]@);
        match find_role(replicates, &names[i]) {
            Some(_) => {
                let s: String = string_of(&names[i]);
                return Err(
                    Error::of3(
                        "replicate role '",
                        s.as_str(),
                        "' cannot appear in a model formula",
                    ),
                );
            },
            None => {},
        }
        i = i + 1;
    }
    let model: Model = match Model::parse(src, factors) {
        Err(e) => {
            return Err(e);
        },
        Ok(m) => m,
    };
    match &model.response {
        Some(response) => {
            if !holds(results, response.as_str()) {
                return Err(Error::of3("unknown result name '", response.as_str(), "'"));
            }
        },
        None => {},
    }
    let mut k: usize = 0;
    while k < models.len()
        invariant
            k <= models@.len(),
            mv == model_views(models@),
            ns == texts(names@),
            fns == factor_names(factor_views(factors@)),
            rns == role_names(role_views(replicates@)),
            formula_names_of(src@) == Ok::<Seq<Seq<char>>, Seq<char>>(ns),
            first_role(ns, rns, 0) is None,
            model_of(src@, fns) == Ok::<ModelView, Seq<char>>(model@),
            !(model@.response is Some && !views(results@).contains(model@.response->0)),
            forall|j: int| 0 <= j < k ==> (#[trigger] mv[j]).response != model@.response,
        decreases models@.len() - k,
    {
        assert(mv[k as int] == models@[k as int]@);
        if same_response(&models[k].response, &model.response) {
            assert(mv[k as int].response == model@.response);
            return Err(
                match &model.response {
                    Some(response) => Error::of3(
                        "duplicate model for response '",
                        response.as_str(),
                        "'",
                    ),
                    None => Error::of3("duplicate model for response '", ".", "'"),
                },
            );
        }
        k = k + 1;
    }
    Ok(model)
}

// ===== Comments =====

/// Where the comment of a line begins, from `i` on. A `#` inside quotes begins
/// none.
pub open spec fn comment_start(s: Seq<char>, i: nat, quoted: bool) -> nat
    decreases s.len() - i,
{
    if i >= s.len() {
        s.len()
    } else {
        let q = if s[i as int] == '"' {
            !quoted
        } else {
            quoted
        };
        if s[i as int] == '#' && !q {
            i
        } else {
            comment_start(s, i + 1, q)
        }
    }
}

/// The line without its comment.
pub open spec fn uncommented(s: Seq<char>) -> Seq<char> {
    s.take(comment_start(s, 0, false) as int)
}

/// The line without its comment. Quoted labels that contain `#` stay whole.
pub fn strip_comment(s: &[char]) -> (out: Vec<char>)
    ensures
        out@ == uncommented(s@),
{
    let mut quoted: bool = false;
    let mut i: usize = 0;
    while i < s.len()
        invariant
            i <= s@.len(),
            comment_start(s@, 0, false) == comment_start(s@, i as nat, quoted),
        decreases s@.len() - i,
    {
        if s[i] == '"' {
            quoted = !quoted;
        }
        if s[i] == '#' && !quoted {
            let out: Vec<char> = part(s, 0, i);
            assert(out@ =~= s@.take(i as int));
            return out;
        }
        i = i + 1;
    }
    let out: Vec<char> = part(s, 0, i);
    assert(out@ =~= s@.take(i as int));
    out
}

} // verus!
