//! The construct-time report.
use vstd::prelude::*;

use super::cells::models_wf;
use crate::factor::{factor_views, Factor};
use crate::model::estimability::{push_distinct, Estimability, EstimabilityView, TermEstimability, TermView};
use crate::model::formula::{
    factor_names, hierarchy_messages, hierarchy_warnings, model_views, model_wf, term_label,
    term_wf, Model, ModelView,
};
use crate::model::matrix::{role_views, ReplicateRole, RoleView};
use crate::text::{
    decimal, join, left_aligned, push_decimal, push_left_aligned, push_right_aligned, right_aligned,
    separated, trim_end, trimmed_end, views, decimal_text,
};
use crate::tuples::distinct;

verus! {

/// One line per formula.
pub open spec fn model_lines(models: Seq<ModelView>, n: nat) -> Seq<char>
    decreases n,
{
    if n == 0 {
        Seq::empty()
    } else {
        model_lines(models, (n - 1) as nat) + "Model:    "@ + models[n - 1].formula + "\n"@
    }
}

/// The formulas, or the default model where there are none.
pub open spec fn model_part(models: Seq<ModelView>, model: ModelView) -> Seq<char> {
    if models.len() == 0 {
        "Model:    "@ + model.formula + " (default: main effects)\n"@
    } else {
        model_lines(models, models.len())
    }
}

/// The replicates of the first `n` roles.
pub open spec fn replicate_text(roles: Seq<RoleView>, n: nat) -> Seq<char>
    decreases n,
{
    if n == 0 {
        Seq::empty()
    } else {
        replicate_text(roles, (n - 1) as nat) + " × "@ + decimal(roles[n - 1].levels.len())
            + " replicates("@ + roles[n - 1].name + ")"@
    }
}

/// The size of the design and of its model.
pub open spec fn design_part(
    label: Seq<char>,
    roles: Seq<RoleView>,
    est: EstimabilityView,
    runs: nat,
) -> Seq<char> {
    "Design:   "@ + label + replicate_text(roles, roles.len()) + " = "@ + decimal(runs) + " runs\n"@
        + "Params:   "@ + decimal(est.n_params) + "   rank: "@ + decimal(est.rank)
        + "   residual df: "@ + decimal(est.residual_df) + "\n"@
        + "  term            df  estimable  aliased with\n"@
}

/// The line of a term.
pub open spec fn term_line(t: TermView, names: Seq<Seq<char>>) -> Seq<char> {
    trimmed_end(
        "  "@ + left_aligned(term_label(t.term, names), 16) + right_aligned(decimal(t.df), 2) + "  "@
            + left_aligned(
            if t.estimable {
                "yes"@
            } else {
                "no"@
            },
            9,
        ) + "  "@ + separated(t.aliased_with, ", "@),
    )
}

/// The lines of the first `n` terms.
pub open spec fn term_lines(terms: Seq<TermView>, names: Seq<Seq<char>>, n: nat) -> Seq<char>
    decreases n,
{
    if n == 0 {
        Seq::empty()
    } else {
        term_lines(terms, names, (n - 1) as nat) + term_line(terms[n - 1], names) + "\n"@
    }
}

/// The hierarchy warnings of the first `n` models.
pub open spec fn all_warnings(models: Seq<ModelView>, names: Seq<Seq<char>>, n: nat) -> Seq<
    Seq<char>,
>
    decreases n,
{
    if n == 0 {
        Seq::empty()
    } else {
        all_warnings(models, names, (n - 1) as nat) + hierarchy_messages(
            models[n - 1].terms,
            names,
            models[n - 1].terms.len(),
        )
    }
}

/// The first `n` warnings, one per line.
pub open spec fn warning_lines(warnings: Seq<Seq<char>>, n: nat) -> Seq<char>
    decreases n,
{
    if n == 0 {
        Seq::empty()
    } else {
        warning_lines(warnings, (n - 1) as nat) + "warning: "@ + warnings[n - 1] + "\n"@
    }
}

/// The models whose hierarchy is looked at.
pub open spec fn listed(models: Seq<ModelView>, model: ModelView) -> Seq<ModelView> {
    if models.len() == 0 {
        seq![model]
    } else {
        models
    }
}

/// The warnings at the end of the report, each once.
pub open spec fn warning_part(
    models: Seq<ModelView>,
    model: ModelView,
    roles: Seq<RoleView>,
    est: EstimabilityView,
    names: Seq<Seq<char>>,
) -> Seq<char> {
    let all = listed(models, model);
    let warnings = distinct(all_warnings(all, names, all.len()));
    (if !est.blocks_estimable && roles.len() > 0 {
        "warning: replicate block effects are not estimable\n"@
    } else {
        Seq::empty()
    }) + warning_lines(warnings, warnings.len())
}

/// The construct-time report.
pub open spec fn report_of(
    names: Seq<Seq<char>>,
    models: Seq<ModelView>,
    model: ModelView,
    label: Seq<char>,
    roles: Seq<RoleView>,
    est: EstimabilityView,
    runs: nat,
) -> Seq<char> {
    model_part(models, model) + design_part(label, roles, est, runs) + term_lines(
        est.terms,
        names,
        est.terms.len(),
    ) + warning_part(models, model, roles, est, names)
}

/// Every term of a report is a term of the factors.
pub open spec fn est_wf(est: EstimabilityView, n: nat) -> bool {
    forall|i: int| 0 <= i < est.terms.len() ==> term_wf((#[trigger] est.terms[i]).term, n)
}

fn push_model_part(out: &mut String, models: &[Model], model: &Model)
    ensures
        final(out)@ == old(out)@ + model_part(model_views(models@), model@),
{
    let ghost start = out@;
    let ghost mv = model_views(models@);
    if models.len() == 0 {
        out.append("Model:    ");
        out.append(model.formula.as_str());
        out.append(" (default: main effects)\n");
        assert(out@ =~= start + model_part(mv, model@));
        return;
    }
    let mut i: usize = 0;
    assert(start + model_lines(mv, 0) =~= start);
    while i < models.len()
        invariant
            i <= models@.len(),
            mv == model_views(models@),
            out@ == start + model_lines(mv, i as nat),
        decreases models@.len() - i,
    {
        assert(mv[i as int] == models@[i as int]@);
        out.append("Model:    ");
        out.append(models[i].formula.as_str());
        out.append("\n");
        assert(out@ =~= start + model_lines(mv, (i + 1) as nat));
        i = i + 1;
    }
}

fn push_design_part(
    out: &mut String,
    label: &str,
    roles: &[ReplicateRole],
    est: &Estimability,
    runs: usize,
)
    ensures
        final(out)@ == old(out)@ + design_part(label@, role_views(roles@), est@, runs as nat),
{
    let ghost start = out@;
    let ghost rv = role_views(roles@);
    out.append("Design:   ");
    out.append(label);
    let mut i: usize = 0;
    let ghost head = out@;
    assert(head + replicate_text(rv, 0) =~= head);
    while i < roles.len()
        invariant
            i <= roles@.len(),
            rv == role_views(roles@),
            out@ == head + replicate_text(rv, i as nat),
        decreases roles@.len() - i,
    {
        assert(rv[i as int] == roles@[i as int]@);
        assert(roles@[i as int]@.levels.len() == roles@[i as int].levels@.len());
        out.append(" × ");
        push_decimal(out, roles[i].levels.len() as u64);
        out.append(" replicates(");
        out.append(roles[i].name.as_str());
        out.append(")");
        assert(out@ =~= head + replicate_text(rv, (i + 1) as nat));
        i = i + 1;
    }
    out.append(" = ");
    push_decimal(out, runs as u64);
    out.append(" runs\n");
    out.append("Params:   ");
    push_decimal(out, est.n_params as u64);
    out.append("   rank: ");
    push_decimal(out, est.rank as u64);
    out.append("   residual df: ");
    push_decimal(out, est.residual_df as u64);
    out.append("\n");
    out.append("  term            df  estimable  aliased with\n");
    assert(out@ =~= start + design_part(label@, rv, est@, runs as nat));
}

fn line_of(t: &TermEstimability, factors: &[Factor]) -> (s: String)
    requires
        term_wf(t@.term, factors@.len()),
    ensures
        s@ == term_line(t@, factor_names(factor_views(factors@))),
{
    let mut row: String = String::new();
    row.append("  ");
    let label: String = t.term.label(factors);
    push_left_aligned(&mut row, label.as_str(), 16);
    let df: String = decimal_text(t.df);
    push_right_aligned(&mut row, df.as_str(), 2);
    row.append("  ");
    if t.estimable {
        push_left_aligned(&mut row, "yes", 9);
    } else {
        push_left_aligned(&mut row, "no", 9);
    }
    row.append("  ");
    let aliases: String = join(&t.aliased_with, ", ");
    row.append(aliases.as_str());
    assert(row@ =~= "  "@ + left_aligned(
        term_label(t@.term, factor_names(factor_views(factors@))),
        16,
    ) + right_aligned(decimal(t@.df), 2) + "  "@ + left_aligned(
        if t@.estimable {
            "yes"@
        } else {
            "no"@
        },
        9,
    ) + "  "@ + separated(t@.aliased_with, ", "@));
    trim_end(row.as_str())
}

fn push_term_lines(out: &mut String, est: &Estimability, factors: &[Factor])
    requires
        est_wf(est@, factors@.len()),
    ensures
        final(out)@ == old(out)@ + term_lines(
            est@.terms,
            factor_names(factor_views(factors@)),
            est@.terms.len(),
        ),
{
    let ghost start = out@;
    let ghost names = factor_names(factor_views(factors@));
    let ghost tv = est@.terms;
    let mut i: usize = 0;
    assert(start + term_lines(tv, names, 0) =~= start);
    while i < est.terms.len()
        invariant
            i <= est.terms@.len(),
            tv == est@.terms,
            names == factor_names(factor_views(factors@)),
            est_wf(est@, factors@.len()),
            out@ == start + term_lines(tv, names, i as nat),
        decreases est.terms@.len() - i,
    {
        assert(tv[i as int] == est.terms@[i as int]@);
        assert(term_wf(tv[i as int].term, factors@.len()));
        let line: String = line_of(&est.terms[i], factors);
        out.append(line.as_str());
        out.append("\n");
        assert(out@ =~= start + term_lines(tv, names, (i + 1) as nat));
        i = i + 1;
    }
}

fn add_warnings(list: &mut Vec<String>, m: &Model, factors: &[Factor], Ghost(all): Ghost<
    Seq<Seq<char>>,
>)
    requires
        views(old(list)@) == distinct(all),
        model_wf(m@, factors@.len()),
    ensures
        views(final(list)@) == distinct(
            all + hierarchy_messages(
                m@.terms,
                factor_names(factor_views(factors@)),
                m@.terms.len(),
            ),
        ),
{
    let own: Vec<String> = hierarchy_warnings(m, factors);
    let ghost ov = views(own@);
    let mut k: usize = 0;
    assert(all + ov.take(0) =~= all);
    while k < own.len()
        invariant
            k <= own@.len(),
            ov == views(own@),
            views(list@) == distinct(all + ov.take(k as int)),
        decreases own@.len() - k,
    {
        let s: String = own[k].clone();
        assert(s@ == ov[k as int]);
        push_distinct(list, s, Ghost(all + ov.take(k as int)));
        assert((all + ov.take(k as int)).push(ov[k as int]) =~= all + ov.take(k + 1));
        k = k + 1;
    }
    assert(ov.take(k as int) =~= ov);
}

fn push_warning_part(
    out: &mut String,
    models: &[Model],
    model: &Model,
    roles: &[ReplicateRole],
    est: &Estimability,
    factors: &[Factor],
)
    requires
        models_wf(model_views(models@), factors@.len()),
        model_wf(model@, factors@.len()),
    ensures
        final(out)@ == old(out)@ + warning_part(
            model_views(models@),
            model@,
            role_views(roles@),
            est@,
            factor_names(factor_views(factors@)),
        ),
{
    let ghost start = out@;
    let ghost names = factor_names(factor_views(factors@));
    let ghost mv = model_views(models@);
    let ghost all = listed(mv, model@);
    if !est.blocks_estimable && roles.len() > 0 {
        out.append("warning: replicate block effects are not estimable\n");
    }
    let ghost head = out@;
    let mut warned: Vec<String> = Vec::new();
    assert(views(warned@) =~= distinct(all_warnings(all, names, 0)));
    if models.len() == 0 {
        add_warnings(&mut warned, model, factors, Ghost(all_warnings(all, names, 0)));
        reveal_with_fuel(all_warnings, 2);
        assert(all_warnings(all, names, 1) =~= all_warnings(all, names, 0) + hierarchy_messages(
            model@.terms,
            names,
            model@.terms.len(),
        ));
    } else {
        let mut i: usize = 0;
        while i < models.len()
            invariant
                i <= models@.len(),
                mv == model_views(models@),
                all == mv,
                names == factor_names(factor_views(factors@)),
                models_wf(mv, factors@.len()),
                views(warned@) == distinct(all_warnings(all, names, i as nat)),
            decreases models@.len() - i,
        {
            assert(mv[i as int] == models@[i as int]@);
            assert(model_wf(mv[i as int], factors@.len()));
            add_warnings(&mut warned, &models[i], factors, Ghost(all_warnings(all, names, i as nat)));
            i = i + 1;
        }
    }
    let ghost w = views(warned@);
    assert(w == distinct(all_warnings(all, names, all.len())));
    let mut k: usize = 0;
    assert(head + warning_lines(w, 0) =~= head);
    while k < warned.len()
        invariant
            k <= warned@.len(),
            w == views(warned@),
            out@ == head + warning_lines(w, k as nat),
        decreases warned@.len() - k,
    {
        out.append("warning: ");
        out.append(warned[k].as_str());
        out.append("\n");
        assert(out@ =~= head + warning_lines(w, (k + 1) as nat));
        k = k + 1;
    }
    assert(out@ =~= start + warning_part(mv, model@, role_views(roles@), est@, names));
}

/// The construct-time report: formulas, design, what it estimates, warnings.
pub fn render(
    factors: &[Factor],
    models: &[Model],
    model: &Model,
    label: &str,
    roles: &[ReplicateRole],
    est: &Estimability,
    runs: usize,
) -> (out: String)
    requires
        models_wf(model_views(models@), factors@.len()),
        model_wf(model@, factors@.len()),
        est_wf(est@, factors@.len()),
    ensures
        out@ == report_of(
            factor_names(factor_views(factors@)),
            model_views(models@),
            model@,
            label@,
            role_views(roles@),
            est@,
            runs as nat,
        ),
{
    let mut out: String = String::new();
    push_model_part(&mut out, models, model);
    push_design_part(&mut out, label, roles, est, runs);
    push_term_lines(&mut out, est, factors);
    push_warning_part(&mut out, models, model, roles, est, factors);
    assert(out@ =~= report_of(
        factor_names(factor_views(factors@)),
        model_views(models@),
        model@,
        label@,
        role_views(roles@),
        est@,
        runs as nat,
    ));
    out
}

} // verus!
