//! What holds of every design that is read.
use vstd::prelude::*;

use super::file::{
    added_models, added_roles, draft_of, merged, models_of, parsed_of, roles_of, section_after,
    Noted,
};
use super::lines::{
    checked_model, comment_start, first_repeat, line_role, line_unit, role_levels, uncommented,
    unit_keys_of,
};
use super::types::ParsedView;
use crate::factor::{
    discrete_values, factor_of, item, request_of, value_equal, FactorView, Item, NumbersView,
    RequestView, ValueView,
};
use crate::model::formula::{factor_names, valid_name, ModelView};
use crate::model::laws::names_are_found_first;
use crate::model::matrix::{role_names, RoleView, UnitView};
use crate::text::{signed_value, trimmed};

verus! {

/// The factors have valid names and two levels at least.
pub open spec fn factors_settled(factors: Seq<FactorView>) -> bool {
    forall|i: int|
        0 <= i < factors.len() ==> valid_name((#[trigger] factors[i]).name) && factors[i].values.len()
            >= 2
}

/// The roles have valid names, and no two levels of a role are equal.
pub open spec fn roles_settled(roles: Seq<RoleView>) -> bool {
    &&& forall|r: int| 0 <= r < roles.len() ==> valid_name((#[trigger] roles[r]).name)
    &&& forall|r: int, i: int, j: int|
        0 <= r < roles.len() && 0 <= i < j < roles[r].levels.len() ==> !value_equal(
            #[trigger] roles[r].levels[i],
            #[trigger] roles[r].levels[j],
        )
}

/// Every model is for a result or for all, and no two are for the same.
pub open spec fn models_settled(models: Seq<ModelView>, results: Seq<Seq<char>>) -> bool {
    &&& forall|i: int|
        0 <= i < models.len() && (#[trigger] models[i]).response is Some ==> results.contains(
            models[i].response->0,
        )
    &&& forall|i: int, j: int|
        0 <= i < j < models.len() ==> (#[trigger] models[i]).response != (#[trigger] models[j]).response
}

/// Every key of the unit names a factor or a role, and none stands twice.
pub open spec fn unit_settled(
    unit: UnitView,
    factors: Seq<FactorView>,
    roles: Seq<RoleView>,
) -> bool {
    &&& valid_name(unit.name)
    &&& unit.key.no_duplicates()
    &&& forall|k: int|
        0 <= k < unit.key.len() ==> (exists|f: int|
            0 <= f < factors.len() && (#[trigger] factors[f]).name == #[trigger] unit.key[k]) || (
        exists|r: int| 0 <= r < roles.len() && (#[trigger] roles[r]).name == unit.key[k])
}

proof fn lemma_draft(
    input: Seq<char>,
    lines: Seq<Seq<char>>,
    numbers: Seq<NumbersView>,
    n: nat,
)
    ensures
        draft_of(input, lines, numbers, n) matches Ok(d) ==> factors_settled(d.factors) && forall|
            i: int,
        |
            0 <= i < d.results.len() ==> valid_name(#[trigger] d.results[i]),
    decreases n,
{
    if n > 0 {
        lemma_draft(input, lines, numbers, (n - 1) as nat);
    }
}

proof fn lemma_repeat(levels: Seq<ValueView>, i: nat)
    requires
        i <= levels.len(),
        first_repeat(levels, i) is None,
    ensures
        forall|a: int, b: int|
            0 <= a < b < levels.len() && i <= b ==> !value_equal(
                #[trigger] levels[a],
                #[trigger] levels[b],
            ),
    decreases levels.len() - i,
{
    if i < levels.len() {
        lemma_repeat(levels, i + 1);
        assert(!super::lines::repeats(levels, i as int));
    }
}

/// A role that is read has a valid name, and levels that are all different.
pub proof fn roles_have_different_levels(line: Seq<char>, numbers: NumbersView)
    ensures
        line_role(line, numbers) matches Ok(role) ==> valid_name(role.name) && forall|a: int, b: int|
            0 <= a < b < role.levels.len() ==> !value_equal(
                #[trigger] role.levels[a],
                #[trigger] role.levels[b],
            ),
{
    if let Ok(role) = line_role(line, numbers) {
        lemma_repeat(role.levels, 0);
    }
}

proof fn lemma_push_role(roles: Seq<RoleView>, role: RoleView, line: Seq<char>, numbers: NumbersView)
    requires
        roles_settled(roles),
        line_role(line, numbers) == Ok::<RoleView, Seq<char>>(role),
    ensures
        roles_settled(roles.push(role)),
{
    roles_have_different_levels(line, numbers);
    let all = roles.push(role);
    assert forall|r: int, i: int, j: int|
        0 <= r < all.len() && 0 <= i < j < all[r].levels.len() implies !value_equal(
        #[trigger] all[r].levels[i],
        #[trigger] all[r].levels[j],
    ) by {
        if r < roles.len() {
            assert(all[r] == roles[r]);
            assert(!value_equal(roles[r].levels[i], roles[r].levels[j]));
        }
    }
}

proof fn lemma_roles(
    input: Seq<char>,
    notes: Seq<Noted>,
    factors: Seq<FactorView>,
    numbers: Seq<NumbersView>,
    n: nat,
)
    ensures
        roles_of(input, notes, factors, numbers, n) matches Ok(roles) ==> roles_settled(roles)
            && roles.len() == n,
    decreases n,
{
    if n > 0 {
        lemma_roles(input, notes, factors, numbers, (n - 1) as nat);
        if let Ok(all) = roles_of(input, notes, factors, numbers, n) {
            let roles = roles_of(input, notes, factors, numbers, (n - 1) as nat)->Ok_0;
            let note = notes[n - 1];
            let given = super::file::answer(numbers, note.line - 1);
            lemma_push_role(roles, line_role(note.text, given)->Ok_0, note.text, given);
        }
    }
}

/// A formula is accepted only for a result that is there, and for one that no
/// other formula is for.
pub proof fn formulas_are_for_results_of_their_own(
    src: Seq<char>,
    factors: Seq<Seq<char>>,
    results: Seq<Seq<char>>,
    roles: Seq<Seq<char>>,
    models: Seq<ModelView>,
)
    requires
        models_settled(models, results),
    ensures
        checked_model(src, factors, results, roles, models) matches Ok(m) ==> models_settled(
            models.push(m),
            results,
        ),
{
    if let Ok(m) = checked_model(src, factors, results, roles, models) {
        let all = models.push(m);
        assert forall|i: int, j: int| 0 <= i < j < all.len() implies (#[trigger] all[i]).response != (
        #[trigger] all[j]).response by {
            if j == models.len() {
                assert(all[i] == models[i]);
                assert(models[i].response != m.response);
            } else {
                assert(all[i] == models[i] && all[j] == models[j]);
            }
        }
    }
}

proof fn lemma_models(
    input: Seq<char>,
    notes: Seq<Noted>,
    factors: Seq<FactorView>,
    results: Seq<Seq<char>>,
    roles: Seq<RoleView>,
    n: nat,
)
    ensures
        models_of(input, notes, factors, results, roles, n) matches Ok(models) ==> models_settled(
            models,
            results,
        ) && models.len() == n,
    decreases n,
{
    if n > 0 {
        lemma_models(input, notes, factors, results, roles, (n - 1) as nat);
        if let Ok(models) = models_of(input, notes, factors, results, roles, (n - 1) as nat) {
            formulas_are_for_results_of_their_own(
                notes[n - 1].text,
                factor_names(factors),
                results,
                role_names(roles),
                models,
            );
        }
    }
}

proof fn lemma_keys(
    items: Seq<Seq<char>>,
    factors: Seq<FactorView>,
    roles: Seq<RoleView>,
    n: nat,
)
    ensures
        unit_keys_of(items, factor_names(factors), role_names(roles), n) matches Ok(key) ==> {
            &&& key.len() == n
            &&& key.no_duplicates()
            &&& forall|k: int|
                0 <= k < key.len() ==> (exists|f: int|
                    0 <= f < factors.len() && (#[trigger] factors[f]).name == #[trigger] key[k]) || (
                exists|r: int| 0 <= r < roles.len() && (#[trigger] roles[r]).name == key[k])
        },
    decreases n,
{
    if n > 0 {
        lemma_keys(items, factors, roles, (n - 1) as nat);
        let (fnames, rnames) = (factor_names(factors), role_names(roles));
        if let Ok(key) = unit_keys_of(items, fnames, rnames, n) {
            let before = unit_keys_of(items, fnames, rnames, (n - 1) as nat)->Ok_0;
            let name = crate::text::trimmed(items[n - 1]);
            assert(key == before.push(name));
            names_are_found_first(fnames, name, 0);
            names_are_found_first(rnames, name, 0);
            assert forall|k: int| 0 <= k < key.len() implies (exists|f: int|
                0 <= f < factors.len() && (#[trigger] factors[f]).name == #[trigger] key[k]) || (exists|
                r: int,
            |
                0 <= r < roles.len() && (#[trigger] roles[r]).name == key[k]) by {
                if k == n - 1 {
                    match crate::model::formula::name_index(fnames, name, 0) {
                        Some(f) => {
                            assert(fnames[f as int] == factors[f as int].name);
                        },
                        None => {
                            let r = crate::model::formula::name_index(rnames, name, 0)->0;
                            assert(rnames[r as int] == roles[r as int].name);
                        },
                    }
                } else {
                    assert(key[k] == before[k]);
                }
            }
        }
    }
}

proof fn lemma_unit(line: Seq<char>, factors: Seq<FactorView>, roles: Seq<RoleView>)
    ensures
        line_unit(line, factor_names(factors), role_names(roles)) matches Ok(u) ==> unit_settled(
            u,
            factors,
            roles,
        ),
{
    if let Some(i) = crate::factor::position(line, '=', 0) {
        let items = crate::text::pieces(line.skip(i as int + 1), ',');
        lemma_keys(items, factors, roles, items.len());
    }
}

/// A design that is read has factors and results; its factors have two levels at
/// least, its roles different ones; its models are for results of their own; and
/// its unit goes by names of factors and roles, each once.
pub proof fn designs_are_settled(
    input: Seq<char>,
    lines: Seq<Seq<char>>,
    numbers: Seq<NumbersView>,
)
    ensures
        parsed_of(input, lines, numbers) matches Ok(p) ==> {
            &&& p.factors.len() > 0
            &&& p.results.len() > 0
            &&& factors_settled(p.factors)
            &&& forall|i: int| 0 <= i < p.results.len() ==> valid_name(#[trigger] p.results[i])
            &&& roles_settled(p.replicates)
            &&& models_settled(p.models, p.results)
            &&& p.unit matches Some(u) ==> unit_settled(u, p.factors, p.replicates)
        },
{
    lemma_draft(input, lines, numbers, lines.len());
    if let Ok(d) = draft_of(input, lines, numbers, lines.len()) {
        lemma_roles(input, d.roles, d.factors, numbers, d.roles.len());
        if let Ok(roles) = roles_of(input, d.roles, d.factors, numbers, d.roles.len()) {
            lemma_models(input, d.formulas, d.factors, d.results, roles, d.formulas.len());
            if let Some(n) = d.unit {
                lemma_unit(n.text, d.factors, roles);
            }
        }
    }
}

proof fn lemma_added_roles(
    p: ParsedView,
    options: Seq<Seq<char>>,
    numbers: Seq<NumbersView>,
    n: nat,
)
    requires
        roles_settled(p.replicates),
    ensures
        added_roles(p, options, numbers, n) matches Ok(roles) ==> {
            &&& roles_settled(roles)
            &&& roles.len() == p.replicates.len() + n
            &&& forall|r: int| 0 <= r < p.replicates.len() ==> #[trigger] roles[r] == p.replicates[r]
        },
    decreases n,
{
    if n > 0 {
        lemma_added_roles(p, options, numbers, (n - 1) as nat);
        if let Ok(all) = added_roles(p, options, numbers, n) {
            let roles = added_roles(p, options, numbers, (n - 1) as nat)->Ok_0;
            let given = super::file::answer(numbers, n - 1);
            lemma_push_role(roles, line_role(options[n - 1], given)->Ok_0, options[n - 1], given);
        }
    }
}

proof fn lemma_added_models(p: ParsedView, roles: Seq<RoleView>, options: Seq<Seq<char>>, n: nat)
    requires
        models_settled(p.models, p.results),
    ensures
        added_models(p, roles, options, n) matches Ok(models) ==> {
            &&& models_settled(models, p.results)
            &&& models.len() == p.models.len() + n
            &&& forall|i: int| 0 <= i < p.models.len() ==> #[trigger] models[i] == p.models[i]
        },
    decreases n,
{
    if n > 0 {
        lemma_added_models(p, roles, options, (n - 1) as nat);
        if let Ok(models) = added_models(p, roles, options, (n - 1) as nat) {
            formulas_are_for_results_of_their_own(
                options[n - 1],
                factor_names(p.factors),
                p.results,
                role_names(roles),
                models,
            );
        }
    }
}

/// Options add to a design and take nothing from it: one role and one model for
/// each option behind those that are there, and a unit only where there is none.
/// The design stays settled.
pub proof fn options_only_add(
    p: ParsedView,
    models: Seq<Seq<char>>,
    replicates: Seq<Seq<char>>,
    unit: Option<Seq<char>>,
    numbers: Seq<NumbersView>,
)
    requires
        roles_settled(p.replicates),
        models_settled(p.models, p.results),
    ensures
        merged(p, models, replicates, unit, numbers) matches Ok(q) ==> {
            &&& q.factors == p.factors
            &&& q.results == p.results
            &&& q.replicates.len() == p.replicates.len() + replicates.len()
            &&& forall|r: int|
                0 <= r < p.replicates.len() ==> #[trigger] q.replicates[r] == p.replicates[r]
            &&& q.models.len() == p.models.len() + models.len()
            &&& forall|i: int| 0 <= i < p.models.len() ==> #[trigger] q.models[i] == p.models[i]
            &&& roles_settled(q.replicates)
            &&& models_settled(q.models, q.results)
            &&& unit is None ==> q.unit == p.unit
            &&& unit is Some ==> p.unit is None && q.unit is Some && unit_settled(
                q.unit->0,
                q.factors,
                q.replicates,
            )
        },
        unit is Some && p.unit is Some ==> merged(p, models, replicates, unit, numbers) is Err,
{
    lemma_added_roles(p, replicates, numbers, replicates.len());
    if let Ok(roles) = added_roles(p, replicates, numbers, replicates.len()) {
        lemma_added_models(p, roles, models, models.len());
        if let Some(src) = unit {
            lemma_unit(src, p.factors, roles);
        }
    }
}

// ===== Levels =====

/// A replicate count stands for as many levels, numbered from one; a count below
/// one is refused.
pub proof fn counts_are_numbered_levels(
    name: Seq<char>,
    spec: Seq<char>,
    numbers: NumbersView,
    n: int,
)
    requires
        !spec.contains('['),
        signed_value(spec) == Some(n),
    ensures
        role_levels(name, spec, numbers) is Ok <==> n >= 1,
        role_levels(name, spec, numbers) matches Ok(levels) ==> levels.len() == n && forall|i: int|
            0 <= i < n ==> #[trigger] levels[i] == ValueView::Int(i + 1),
{
}

/// A factor keeps its name, and has the two levels at least that make it one.
pub proof fn factors_vary(name: Seq<char>, spec: Seq<char>, numbers: NumbersView)
    ensures
        factor_of(name, spec, numbers) matches Ok(f) ==> f.name == name && f.values.len() >= 2
            && f.spec == crate::text::trimmed(spec),
{
}

proof fn lemma_values_kept(
    spec: Seq<char>,
    parts: Seq<Seq<char>>,
    i: nat,
    values: Seq<ValueView>,
    used: nat,
    floats: Seq<Option<(u64, Seq<char>)>>,
    k: int,
)
    requires
        discrete_values(spec, parts, i, values, used, floats) is Ok,
        0 <= k < values.len(),
    ensures
        values.len() <= discrete_values(spec, parts, i, values, used, floats)->Ok_0.len(),
        discrete_values(spec, parts, i, values, used, floats)->Ok_0[k] == values[k],
    decreases parts.len() - i,
{
    if i < parts.len() {
        match item(parts[i as int]) {
            Item::Skip => {
                lemma_values_kept(spec, parts, i + 1, values, used, floats, k);
            },
            Item::Text(t) => {
                lemma_values_kept(spec, parts, i + 1, values.push(ValueView::Text(t)), used, floats, k);
            },
            Item::Range(lo, hi) => {
                lemma_values_kept(
                    spec,
                    parts,
                    i + 1,
                    values + crate::factor::range_values(lo, hi),
                    used,
                    floats,
                    k,
                );
            },
            Item::Int(n) => {
                lemma_values_kept(spec, parts, i + 1, values.push(ValueView::Int(n)), used, floats, k);
            },
            Item::Bad(p) => {},
            Item::Float(p) => {
                let (bits, text) = floats[used as int]->Some_0;
                lemma_values_kept(
                    spec,
                    parts,
                    i + 1,
                    values.push(ValueView::Float { bits, text }),
                    used + 1,
                    floats,
                    k,
                );
            },
        }
    }
}

/// Every whole number, every text and every number of every range in a discrete
/// list is a level, and a range that runs down is refused.
pub proof fn discrete_lists_hold_their_items(
    spec: Seq<char>,
    parts: Seq<Seq<char>>,
    i: nat,
    values: Seq<ValueView>,
    used: nat,
    floats: Seq<Option<(u64, Seq<char>)>>,
    j: nat,
    v: int,
)
    requires
        i <= j < parts.len(),
        discrete_values(spec, parts, i, values, used, floats) is Ok,
    ensures
        ({
            let all = discrete_values(spec, parts, i, values, used, floats)->Ok_0;
            &&& item(parts[j as int]) matches Item::Int(n) ==> all.contains(ValueView::Int(n))
            &&& item(parts[j as int]) matches Item::Text(t) ==> all.contains(ValueView::Text(t))
            &&& item(parts[j as int]) matches Item::Range(lo, hi) ==> lo <= hi && (lo <= v <= hi
                ==> all.contains(ValueView::Int(v)))
            &&& !(item(parts[j as int]) is Bad)
        }),
    decreases parts.len() - i,
{
    let all = discrete_values(spec, parts, i, values, used, floats)->Ok_0;
    match item(parts[i as int]) {
        Item::Skip => {
            if i < j {
                discrete_lists_hold_their_items(spec, parts, i + 1, values, used, floats, j, v);
            }
        },
        Item::Text(t) => {
            let next = values.push(ValueView::Text(t));
            if i < j {
                discrete_lists_hold_their_items(spec, parts, i + 1, next, used, floats, j, v);
            } else {
                lemma_values_kept(spec, parts, i + 1, next, used, floats, values.len() as int);
                assert(all[values.len() as int] == ValueView::Text(t));
            }
        },
        Item::Range(lo, hi) => {
            let next = values + crate::factor::range_values(lo, hi);
            if i < j {
                discrete_lists_hold_their_items(spec, parts, i + 1, next, used, floats, j, v);
            } else if lo <= v <= hi {
                let k = values.len() + (v - lo);
                assert(next[k] == ValueView::Int(v));
                lemma_values_kept(spec, parts, i + 1, next, used, floats, k);
                assert(all[k] == ValueView::Int(v));
            }
        },
        Item::Int(n) => {
            let next = values.push(ValueView::Int(n));
            if i < j {
                discrete_lists_hold_their_items(spec, parts, i + 1, next, used, floats, j, v);
            } else {
                lemma_values_kept(spec, parts, i + 1, next, used, floats, values.len() as int);
                assert(all[values.len() as int] == ValueView::Int(n));
            }
        },
        Item::Bad(p) => {},
        Item::Float(p) => {
            let (bits, text) = floats[used as int]->Some_0;
            let next = values.push(ValueView::Float { bits, text });
            if i < j {
                discrete_lists_hold_their_items(spec, parts, i + 1, next, used + 1, floats, j, v);
            }
        },
    }
}

/// Levels are asked for only with as many arguments as the scale takes.
pub proof fn scales_take_their_arguments(spec: Seq<char>)
    ensures
        request_of(spec) matches RequestView::Levels { scale, args } ==> {
            &&& scale is Uniform ==> args.len() == 3
            &&& scale is Normal ==> 4 <= args.len() <= 5
            &&& scale is LogLow ==> 3 <= args.len() <= 4
            &&& scale is LogHigh ==> 3 <= args.len() <= 4
        },
{
}

// ===== Comments =====

proof fn lemma_comment(s: Seq<char>, i: nat, quoted: bool)
    requires
        i <= s.len(),
    ensures
        i <= comment_start(s, i, quoted) <= s.len(),
        comment_start(s, i, quoted) < s.len() ==> s[comment_start(s, i, quoted) as int] == '#',
        !quoted && (forall|k: int| i <= k < s.len() ==> #[trigger] s[k] != '"') ==> forall|k: int|
            i <= k < comment_start(s, i, quoted) ==> #[trigger] s[k] != '#',
        quoted && (forall|k: int| i <= k < s.len() ==> #[trigger] s[k] != '"') ==> comment_start(
            s,
            i,
            quoted,
        ) == s.len(),
    decreases s.len() - i,
{
    if i < s.len() {
        let q = if s[i as int] == '"' {
            !quoted
        } else {
            quoted
        };
        lemma_comment(s, i + 1, q);
    }
}

/// A line keeps what stands before its comment: all of it where it has no number
/// sign, and without quotes everything before the first.
pub proof fn comments_begin_at_a_number_sign(s: Seq<char>)
    ensures
        uncommented(s).len() <= s.len(),
        uncommented(s) == s.take(uncommented(s).len() as int),
        !s.contains('#') ==> uncommented(s) == s,
        uncommented(s).len() < s.len() ==> s[uncommented(s).len() as int] == '#',
        !s.contains('"') ==> !uncommented(s).contains('#'),
{
    lemma_comment(s, 0, false);
    let n = comment_start(s, 0, false);
    if !s.contains('#') {
        if n < s.len() {
            assert(s.contains(s[n as int]));
        }
        assert(s.take(s.len() as int) =~= s);
    }
    if !s.contains('"') {
        assert forall|k: int| 0 <= k < s.len() implies #[trigger] s[k] != '"' by {
            assert(s.contains(s[k]));
        }
        if uncommented(s).contains('#') {
            let k = choose|k: int| 0 <= k < uncommented(s).len() && uncommented(s)[k] == '#';
            assert(s[k] == '#');
        }
    }
}

// ===== Sections =====

/// A line opens the section that it names, whatever the case of its letters; a
/// blank line and a comment change nothing, nor does any other line.
pub proof fn headers_open_their_section(lines: Seq<Seq<char>>, n: nat)
    requires
        0 < n <= lines.len(),
    ensures
        section_after(lines, 0) is Factors,
        trimmed(lines[n - 1]).len() == 0 ==> section_after(lines, n) == section_after(
            lines,
            (n - 1) as nat,
        ),
        trimmed(lines[n - 1]).len() > 0 && trimmed(lines[n - 1])[0] != '[' ==> section_after(lines, n)
            == section_after(lines, (n - 1) as nat),
        lowered(trimmed(lines[n - 1]), "[factors]"@) ==> section_after(lines, n) is Factors,
        lowered(trimmed(lines[n - 1]), "[results]"@) ==> section_after(lines, n) is Results,
        lowered(trimmed(lines[n - 1]), "[model]"@) ==> section_after(lines, n) is Model,
        lowered(trimmed(lines[n - 1]), "[replicates]"@) ==> section_after(lines, n) is Replicates,
        lowered(trimmed(lines[n - 1]), "[units]"@) ==> section_after(lines, n) is Units,
{
    reveal_strlit("[factors]");
    reveal_strlit("[results]");
    reveal_strlit("[model]");
    reveal_strlit("[replicates]");
    reveal_strlit("[units]");
    let s = trimmed(lines[n - 1]);
    if lowered(s, "[results]"@) {
        assert(super::file::letter(s[1], "[results]"@[1]));
        assert(!super::file::letter(s[1], "[factors]"@[1]));
    }
    if lowered(s, "[units]"@) {
        assert(super::file::letter(s[1], "[units]"@[1]));
        assert(!super::file::letter(s[1], "[model]"@[1]));
    }
    if s.len() > 0 && s[0] != '[' {
        assert(!super::file::letter(s[0], '['));
        assert("[factors]"@[0] == '[' && "[results]"@[0] == '[' && "[model]"@[0] == '['
            && "[replicates]"@[0] == '[' && "[units]"@[0] == '[');
    }
}

/// The text is the given lower-case text but for the case of its letters.
pub open spec fn lowered(s: Seq<char>, lower: Seq<char>) -> bool {
    s.len() == lower.len() && forall|i: int|
        0 <= i < s.len() ==> (#[trigger] s[i] == lower[i] || 'A' <= s[i] <= 'Z' && s[i] as u32 + 32
            == lower[i] as u32)
}

} // verus!
