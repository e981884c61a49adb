//! The report of the analysis.
use vstd::prelude::*;

use crate::factor::{factor_views, Factor};
use crate::model::estimability::{Estimability, EstimabilityView, TermEstimability, TermView};
use crate::model::formula::{factor_names, same_term, term_label, term_wf};
use crate::text::{decimal, equal, join, push_decimal, separated, views};

verus! {

/// What the observed data estimate.
#[derive(Debug)]
pub struct EstimabilityReport {
    pub n_params: usize,
    pub rank: usize,
    pub residual_df: usize,
    pub terms: Vec<TermReport>,
}

/// What the observed data tell about a term.
#[derive(Debug)]
pub struct TermReport {
    pub term: String,
    pub df: usize,
    pub estimable: bool,
    /// Estimable when the design was made, and no more.
    pub lost: bool,
    pub aliased_with: Vec<String>,
}

#[verifier::ext_equal]
pub struct ReportView {
    pub n_params: nat,
    pub rank: nat,
    pub residual_df: nat,
    pub terms: Seq<TermReportView>,
}

#[verifier::ext_equal]
pub struct TermReportView {
    pub term: Seq<char>,
    pub df: nat,
    pub estimable: bool,
    pub lost: bool,
    pub aliased_with: Seq<Seq<char>>,
}

impl View for TermReport {
    type V = TermReportView;

    open spec fn view(&self) -> TermReportView {
        TermReportView {
            term: self.term@,
            df: self.df as nat,
            estimable: self.estimable,
            lost: self.lost,
            aliased_with: views(self.aliased_with@),
        }
    }
}

pub open spec fn term_report_views(terms: Seq<TermReport>) -> Seq<TermReportView> {
    terms.map_values(|t: TermReport| t@)
}

impl View for EstimabilityReport {
    type V = ReportView;

    open spec fn view(&self) -> ReportView {
        ReportView {
            n_params: self.n_params as nat,
            rank: self.rank as nat,
            residual_df: self.residual_df as nat,
            terms: term_report_views(self.terms@),
        }
    }
}

/// A term was estimable.
pub open spec fn was_estimable(terms: Seq<TermView>, term: Seq<usize>) -> bool {
    exists|i: int|
        0 <= i < terms.len() && (#[trigger] terms[i]).term == term && terms[i].estimable
}

/// A term is lost: the design estimated it, the observed data do not.
pub open spec fn is_lost(t: TermView, planned: Option<EstimabilityView>) -> bool {
    !t.estimable && (planned matches Some(e) && was_estimable(e.terms, t.term))
}

/// The report on a term.
pub open spec fn term_report(
    t: TermView,
    planned: Option<EstimabilityView>,
    names: Seq<Seq<char>>,
) -> TermReportView {
    TermReportView {
        term: term_label(t.term, names),
        df: t.df,
        estimable: t.estimable,
        lost: is_lost(t, planned),
        aliased_with: t.aliased_with,
    }
}

/// The report on what is estimated.
pub open spec fn estimability_report(
    e: EstimabilityView,
    planned: Option<EstimabilityView>,
    names: Seq<Seq<char>>,
) -> ReportView {
    ReportView {
        n_params: e.n_params,
        rank: e.rank,
        residual_df: e.residual_df,
        terms: e.terms.map_values(|t: TermView| term_report(t, planned, names)),
    }
}

/// The view of an optional report.
pub open spec fn planned_view(planned: Option<Estimability>) -> Option<EstimabilityView> {
    match planned {
        Some(e) => Some(e@),
        None => None,
    }
}

fn find_lost(t: &TermEstimability, planned: &Option<Estimability>) -> (r: bool)
    ensures
        r == is_lost(t@, planned_view(*planned)),
{
    if t.estimable {
        return false;
    }
    match planned {
        None => false,
        Some(e) => {
            let ghost ev = e@.terms;
            let mut i: usize = 0;
            while i < e.terms.len()
                invariant
                    i <= e.terms@.len(),
                    ev == e@.terms,
                    ev.len() == e.terms@.len(),
                    planned_view(*planned) == Some(e@),
                    !t@.estimable,
                    forall|k: int|
                        0 <= k < i ==> !((#[trigger] ev[k]).term == t@.term && ev[k].estimable),
                decreases e.terms@.len() - i,
            {
                assert(ev[i as int] == e.terms@[i as int]@);
                if e.terms[i].estimable && same_term(&e.terms[i].term.0, &t.term.0) {
                    assert(was_estimable(ev, t@.term));
                    return true;
                }
                i = i + 1;
            }
            false
        },
    }
}

fn copy_names(list: &Vec<String>) -> (out: Vec<String>)
    ensures
        views(out@) == views(list@),
{
    let mut out: Vec<String> = Vec::new();
    let mut i: usize = 0;
    while i < list.len()
        invariant
            i <= list@.len(),
            out@.len() == i,
            forall|k: int| 0 <= k < i ==> (#[trigger] out@[k])@ == list@[k]@,
        decreases list@.len() - i,
    {
        out.push(list[i].clone());
        i = i + 1;
    }
    assert(views(out@) =~= views(list@));
    out
}

/// The report on what the observed data estimate, against what was planned.
pub fn report_estimability(
    est: &Estimability,
    planned: &Option<Estimability>,
    factors: &[Factor],
) -> (r: EstimabilityReport)
    requires
        forall|i: int|
            0 <= i < est@.terms.len() ==> term_wf((#[trigger] est@.terms[i]).term, factors@.len()),
    ensures
        r@ == estimability_report(
            est@,
            planned_view(*planned),
            factor_names(factor_views(factors@)),
        ),
{
    let ghost names = factor_names(factor_views(factors@));
    let ghost e = est@;
    let ghost p = planned_view(*planned);
    let mut terms: Vec<TermReport> = Vec::new();
    let mut i: usize = 0;
    while i < est.terms.len()
        invariant
            i <= est.terms@.len(),
            e == est@,
            p == planned_view(*planned),
            names == factor_names(factor_views(factors@)),
            forall|k: int|
                0 <= k < e.terms.len() ==> term_wf((#[trigger] e.terms[k]).term, factors@.len()),
            terms@.len() == i,
            forall|k: int|
                0 <= k < i ==> (#[trigger] terms@[k])@ == term_report(e.terms[k], p, names),
        decreases est.terms@.len() - i,
    {
        let t: &TermEstimability = &est.terms[i];
        assert(e.terms[i as int] == t@);
        assert(term_wf(e.terms[i as int].term, factors@.len()));
        let entry: TermReport = TermReport {
            term: t.term.label(factors),
            df: t.df,
            estimable: t.estimable,
            lost: find_lost(t, planned),
            aliased_with: copy_names(&t.aliased_with),
        };
        assert(entry@ =~= term_report(e.terms[i as int], p, names));
        terms.push(entry);
        i = i + 1;
    }
    let r: EstimabilityReport = EstimabilityReport {
        n_params: est.n_params,
        rank: est.rank,
        residual_df: est.residual_df,
        terms,
    };
    assert(r@.terms =~= estimability_report(e, p, names).terms);
    r
}

/// The warnings for the lost ones of the first `n` terms.
pub open spec fn lost_messages(terms: Seq<TermReportView>, n: nat) -> Seq<Seq<char>>
    decreases n,
{
    if n == 0 {
        Seq::empty()
    } else {
        let before = lost_messages(terms, (n - 1) as nat);
        if terms[n - 1].lost {
            before.push(terms[n - 1].term + ": LOST (missing runs)"@)
        } else {
            before
        }
    }
}

/// The warnings for lost terms.
pub fn lost_warnings(report: &EstimabilityReport) -> (out: Vec<String>)
    ensures
        views(out@) == lost_messages(report@.terms, report@.terms.len()),
{
    let ghost tv = report@.terms;
    let mut out: Vec<String> = Vec::new();
    assert(views(out@) =~= Seq::empty());
    let mut i: usize = 0;
    while i < report.terms.len()
        invariant
            i <= report.terms@.len(),
            tv == report@.terms,
            views(out@) == lost_messages(tv, i as nat),
        decreases report.terms@.len() - i,
    {
        assert(tv[i as int] == report.terms@[i as int]@);
        if report.terms[i].lost {
            let mut w: String = report.terms[i].term.clone();
            w.append(": LOST (missing runs)");
            let ghost before = views(out@);
            let ghost v = w@;
            out.push(w);
            assert(views(out@) =~= before.push(v));
        }
        i = i + 1;
    }
    out
}

// ===== Text =====

/// A number as it is shown, where there is one.
pub type Shown = Option<String>;

/// A line of the analysis of variance, its numbers as they are shown.
#[derive(Debug)]
pub struct AnovaLine {
    pub term: String,
    pub stratum: String,
    pub df: usize,
    pub ss: String,
    pub ms: Shown,
    pub f: Shown,
    pub p: Shown,
    pub significant: bool,
    pub pooled: bool,
}

/// A line of an error stratum.
#[derive(Debug)]
pub struct StratumLine {
    pub name: String,
    pub df: usize,
    pub ms: Shown,
}

/// A line of a coefficient.
#[derive(Debug)]
pub struct CoefficientLine {
    pub label: String,
    pub estimate: Shown,
    pub se: Shown,
    pub ci_low: Shown,
    pub ci_high: Shown,
    pub boot_low: Shown,
    pub boot_high: Shown,
    pub estimable: bool,
}

/// A line of a prediction; the settings of the factors as they are shown.
#[derive(Debug)]
pub struct PredictionLine {
    pub factors: String,
    pub mean: String,
    pub se: Shown,
    pub estimable: bool,
    pub measured: bool,
    pub observed_mean: Shown,
    pub boot_low: Shown,
    pub boot_high: Shown,
}

/// A line of a recommendation.
#[derive(Debug)]
pub struct OptimumLine {
    pub factors: String,
    pub mean: String,
    pub ci_low: Shown,
    pub ci_high: Shown,
    pub measured: bool,
}

/// The analysis of one result, its numbers as they are shown.
#[derive(Debug)]
pub struct ResultLines {
    pub name: String,
    pub model: String,
    pub n_complete: usize,
    pub missing_runs: Vec<String>,
    pub estimability: EstimabilityReport,
    pub rss: String,
    pub sigma: Shown,
    pub r_squared: Shown,
    pub anova: Vec<AnovaLine>,
    pub strata: Vec<StratumLine>,
    pub coefficients: Vec<CoefficientLine>,
    pub predictions: Vec<PredictionLine>,
    pub maximize: Option<OptimumLine>,
    pub minimize: Option<OptimumLine>,
    pub warnings: Vec<String>,
}

/// The text of a number that may be missing.
pub open spec fn display_text(v: Shown) -> Seq<char> {
    match v {
        Some(s) => s@,
        None => "n/a"@,
    }
}

pub open spec fn yes_no(b: bool) -> Seq<char> {
    if b {
        "yes"@
    } else {
        "no"@
    }
}

pub open spec fn truth(b: bool) -> Seq<char> {
    if b {
        "true"@
    } else {
        "false"@
    }
}

/// The head of a result.
pub open spec fn head_text(r: ResultLines) -> Seq<char> {
    "\n=== Result: "@ + r.name@ + " ===\nModel: "@ + r.model@ + "\nComplete: "@ + decimal(
        r.n_complete as nat,
    ) + "\nMissing runs ("@ + decimal(r.missing_runs@.len()) + "): "@ + separated(
        views(r.missing_runs@),
        ", "@,
    ) + "\nEstimability under observed data\nParams: "@ + decimal(r.estimability.n_params as nat)
        + " rank: "@ + decimal(r.estimability.rank as nat) + " residual df: "@ + decimal(
        r.estimability.residual_df as nat,
    ) + "\n  term  df  estimable  aliased with\n"@
}

/// The line of a term.
pub open spec fn term_text(t: TermReportView) -> Seq<char> {
    "  "@ + t.term + "  "@ + decimal(t.df) + "  "@ + yes_no(t.estimable) + "  "@ + separated(
        t.aliased_with,
        ", "@,
    ) + "\n"@
}

pub open spec fn term_texts(terms: Seq<TermReport>, n: nat) -> Seq<char>
    decreases n,
{
    if n == 0 {
        Seq::empty()
    } else {
        term_texts(terms, (n - 1) as nat) + term_text(terms[n - 1]@)
    }
}

/// The fit of a result.
pub open spec fn fit_text(r: ResultLines) -> Seq<char> {
    "RSS: "@ + r.rss@ + " sigma: "@ + display_text(r.sigma) + " R squared: "@ + display_text(
        r.r_squared,
    ) + "\nType II ANOVA\n  term  df  SS  MS  F  p  stratum  significance\n"@
}

/// A stratum is the error stratum that a term names.
pub open spec fn is_stratum(name: Seq<char>, stratum: Seq<char>) -> bool {
    name == stratum || (stratum == "whole-plot"@ && name == "between-unit"@) || (stratum
        == "sub-plot"@ && name == "within-unit"@)
}

/// The first stratum, from `i` on, that a term names, has no degrees of freedom.
pub open spec fn stratum_is_short(strata: Seq<StratumLine>, stratum: Seq<char>, i: nat) -> bool
    decreases strata.len() - i,
{
    if i >= strata.len() {
        false
    } else if is_stratum(strata[i as int].name@, stratum) {
        strata[i as int].df == 0
    } else {
        stratum_is_short(strata, stratum, i + 1)
    }
}

/// The numbers of a term in the analysis of variance.
pub open spec fn anova_numbers(a: AnovaLine) -> Seq<char> {
    "  "@ + a.term@ + "  "@ + decimal(a.df as nat) + "  "@ + a.ss@ + "  "@ + display_text(a.ms)
        + "  "@
}

/// The test of a term.
pub open spec fn anova_test(a: AnovaLine) -> Seq<char> {
    display_text(a.f) + "  "@ + display_text(a.p) + "  "@ + a.stratum@ + "  "@
}

/// The marks of a term, with a note where its error stratum has no degrees of
/// freedom.
pub open spec fn anova_marks(a: AnovaLine, strata: Seq<StratumLine>) -> Seq<char> {
    (if a.significant {
        "*"@
    } else {
        Seq::empty()
    }) + (if a.pooled {
        " [pooled]"@
    } else {
        Seq::empty()
    }) + "\n"@ + (if !a.pooled && stratum_is_short(strata, a.stratum@, 0) {
        "    F: n/a (0 df in its error stratum)\n"@
    } else {
        Seq::empty()
    })
}

/// The line of a term in the analysis of variance.
pub open spec fn anova_text(a: AnovaLine, strata: Seq<StratumLine>) -> Seq<char> {
    anova_numbers(a) + anova_test(a) + anova_marks(a, strata)
}

pub open spec fn anova_texts(anova: Seq<AnovaLine>, strata: Seq<StratumLine>, n: nat) -> Seq<char>
    decreases n,
{
    if n == 0 {
        Seq::empty()
    } else {
        anova_texts(anova, strata, (n - 1) as nat) + anova_text(anova[n - 1], strata)
    }
}

pub open spec fn stratum_texts(strata: Seq<StratumLine>, n: nat) -> Seq<char>
    decreases n,
{
    if n == 0 {
        Seq::empty()
    } else {
        stratum_texts(strata, (n - 1) as nat) + strata[n - 1].name@ + ": df="@ + decimal(
            strata[n - 1].df as nat,
        ) + " MS="@ + display_text(strata[n - 1].ms) + "\n"@
    }
}

/// The line of a coefficient.
pub open spec fn coefficient_text(c: CoefficientLine) -> Seq<char> {
    if c.estimable {
        c.label@ + ": "@ + display_text(c.estimate) + " "@ + display_text(c.se) + " "@ + display_text(
            c.ci_low,
        ) + " "@ + display_text(c.ci_high) + " "@ + display_text(c.boot_low) + " "@ + display_text(
            c.boot_high,
        ) + "\n"@
    } else {
        c.label@ + ": n/e\n"@
    }
}

pub open spec fn coefficient_texts(list: Seq<CoefficientLine>, n: nat) -> Seq<char>
    decreases n,
{
    if n == 0 {
        Seq::empty()
    } else {
        coefficient_texts(list, (n - 1) as nat) + coefficient_text(list[n - 1])
    }
}

/// The line of a prediction.
pub open spec fn prediction_text(p: PredictionLine) -> Seq<char> {
    "Prediction "@ + p.factors@ + ": mean="@ + p.mean@ + " SE="@ + display_text(p.se)
        + " estimable="@ + truth(p.estimable) + " measured="@ + truth(p.measured)
        + " observed_mean="@ + display_text(p.observed_mean) + " bootstrap=["@ + display_text(
        p.boot_low,
    ) + ", "@ + display_text(p.boot_high) + "]\n"@
}

pub open spec fn prediction_texts(list: Seq<PredictionLine>, n: nat) -> Seq<char>
    decreases n,
{
    if n == 0 {
        Seq::empty()
    } else {
        prediction_texts(list, (n - 1) as nat) + prediction_text(list[n - 1])
    }
}

/// The line of a recommendation.
pub open spec fn optimum_text(label: Seq<char>, p: Option<OptimumLine>) -> Seq<char> {
    match p {
        Some(o) => label + ": "@ + o.factors@ + " predicted="@ + o.mean@ + " interval=["@
            + display_text(o.ci_low) + ", "@ + display_text(o.ci_high) + "] measured="@ + truth(
            o.measured,
        ) + "\n"@,
        None => Seq::empty(),
    }
}

pub open spec fn warning_texts(list: Seq<Seq<char>>, n: nat) -> Seq<char>
    decreases n,
{
    if n == 0 {
        Seq::empty()
    } else {
        warning_texts(list, (n - 1) as nat) + list[n - 1] + "\n"@
    }
}

/// Some term is significant.
pub open spec fn evident(anova: Seq<AnovaLine>) -> bool {
    exists|i: int| 0 <= i < anova.len() && (#[trigger] anova[i]).significant
}

/// The text of a result.
pub open spec fn result_report(r: ResultLines, alpha: Seq<char>) -> Seq<char> {
    head_text(r) + term_texts(r.estimability.terms@, r.estimability.terms@.len()) + fit_text(r)
        + anova_texts(r.anova@, r.strata@, r.anova@.len()) + stratum_texts(
        r.strata@,
        r.strata@.len(),
    ) + "Coefficients: estimate SE CI low CI high bootstrap low bootstrap high\n"@
        + coefficient_texts(r.coefficients@, r.coefficients@.len()) + prediction_texts(
        r.predictions@,
        r.predictions@.len(),
    ) + optimum_text("MAXIMIZE"@, r.maximize) + optimum_text("MINIMIZE"@, r.minimize)
        + warning_texts(views(r.warnings@), r.warnings@.len()) + (if evident(r.anova@) {
        Seq::empty()
    } else {
        "insufficient evidence under this model (α="@ + alpha + ")\n"@
    })
}

fn display(out: &mut String, v: &Shown)
    ensures
        final(out)@ == old(out)@ + display_text(*v),
{
    match v {
        Some(s) => {
            out.append(s.as_str());
        },
        None => {
            out.append("n/a");
        },
    }
}

fn push_truth(out: &mut String, b: bool)
    ensures
        final(out)@ == old(out)@ + truth(b),
{
    if b {
        out.append("true");
    } else {
        out.append("false");
    }
}

fn push_head(out: &mut String, r: &ResultLines)
    ensures
        final(out)@ == old(out)@ + head_text(*r),
{
    let ghost start = out@;
    out.append("\n=== Result: ");
    out.append(r.name.as_str());
    out.append(" ===\nModel: ");
    out.append(r.model.as_str());
    out.append("\nComplete: ");
    push_decimal(out, r.n_complete as u64);
    out.append("\nMissing runs (");
    push_decimal(out, r.missing_runs.len() as u64);
    out.append("): ");
    let missing: String = join(&r.missing_runs, ", ");
    out.append(missing.as_str());
    out.append("\nEstimability under observed data\nParams: ");
    push_decimal(out, r.estimability.n_params as u64);
    out.append(" rank: ");
    push_decimal(out, r.estimability.rank as u64);
    out.append(" residual df: ");
    push_decimal(out, r.estimability.residual_df as u64);
    out.append("\n  term  df  estimable  aliased with\n");
    assert(out@ =~= start + head_text(*r));
}

fn push_terms(out: &mut String, terms: &Vec<TermReport>)
    ensures
        final(out)@ == old(out)@ + term_texts(terms@, terms@.len()),
{
    let ghost start = out@;
    let mut i: usize = 0;
    assert(start + term_texts(terms@, 0) =~= start);
    while i < terms.len()
        invariant
            i <= terms@.len(),
            out@ == start + term_texts(terms@, i as nat),
        decreases terms@.len() - i,
    {
        let t: &TermReport = &terms[i];
        let ghost before = out@;
        out.append("  ");
        out.append(t.term.as_str());
        out.append("  ");
        push_decimal(out, t.df as u64);
        out.append("  ");
        if t.estimable {
            out.append("yes");
        } else {
            out.append("no");
        }
        out.append("  ");
        let aliases: String = join(&t.aliased_with, ", ");
        out.append(aliases.as_str());
        out.append("\n");
        assert(out@ =~= before + term_text(t@));
        assert(out@ =~= start + term_texts(terms@, (i + 1) as nat));
        i = i + 1;
    }
}

fn push_fit(out: &mut String, r: &ResultLines)
    ensures
        final(out)@ == old(out)@ + fit_text(*r),
{
    let ghost start = out@;
    out.append("RSS: ");
    out.append(r.rss.as_str());
    out.append(" sigma: ");
    display(out, &r.sigma);
    out.append(" R squared: ");
    display(out, &r.r_squared);
    out.append("\nType II ANOVA\n  term  df  SS  MS  F  p  stratum  significance\n");
    assert(out@ =~= start + fit_text(*r));
}

fn names_stratum(name: &str, stratum: &str) -> (r: bool)
    ensures
        r == is_stratum(name@, stratum@),
{
    equal(name, stratum) || (equal(stratum, "whole-plot")
        && equal(name, "between-unit")) || (equal(stratum, "sub-plot")
        && equal(name, "within-unit"))
}

fn is_short(strata: &Vec<StratumLine>, stratum: &str) -> (r: bool)
    ensures
        r == stratum_is_short(strata@, stratum@, 0),
{
    let mut i: usize = 0;
    while i < strata.len()
        invariant
            i <= strata@.len(),
            stratum_is_short(strata@, stratum@, 0) == stratum_is_short(
                strata@,
                stratum@,
                i as nat,
            ),
        decreases strata@.len() - i,
    {
        if names_stratum(strata[i].name.as_str(), stratum) {
            return strata[i].df == 0;
        }
        i = i + 1;
    }
    false
}

fn push_anova_line(out: &mut String, a: &AnovaLine, strata: &Vec<StratumLine>)
    ensures
        final(out)@ == old(out)@ + anova_text(*a, strata@),
{
    let ghost start = out@;
    out.append("  ");
    out.append(a.term.as_str());
    out.append("  ");
    push_decimal(out, a.df as u64);
    out.append("  ");
    out.append(a.ss.as_str());
    out.append("  ");
    display(out, &a.ms);
    out.append("  ");
    assert(out@ =~= start + anova_numbers(*a));
    let ghost second = out@;
    display(out, &a.f);
    out.append("  ");
    display(out, &a.p);
    out.append("  ");
    out.append(a.stratum.as_str());
    out.append("  ");
    assert(out@ =~= second + anova_test(*a));
    let ghost third = out@;
    if a.significant {
        out.append("*");
    }
    if a.pooled {
        out.append(" [pooled]");
    }
    out.append("\n");
    if !a.pooled && is_short(strata, a.stratum.as_str()) {
        out.append("    F: n/a (0 df in its error stratum)\n");
    }
    assert(out@ =~= third + anova_marks(*a, strata@));
    assert(out@ =~= start + anova_text(*a, strata@));
}

fn push_anova(out: &mut String, anova: &Vec<AnovaLine>, strata: &Vec<StratumLine>)
    ensures
        final(out)@ == old(out)@ + anova_texts(anova@, strata@, anova@.len()),
{
    let ghost start = out@;
    let mut i: usize = 0;
    assert(start + anova_texts(anova@, strata@, 0) =~= start);
    while i < anova.len()
        invariant
            i <= anova@.len(),
            out@ == start + anova_texts(anova@, strata@, i as nat),
        decreases anova@.len() - i,
    {
        push_anova_line(out, &anova[i], strata);
        assert(out@ =~= start + anova_texts(anova@, strata@, (i + 1) as nat));
        i = i + 1;
    }
}

fn push_strata(out: &mut String, strata: &Vec<StratumLine>)
    ensures
        final(out)@ == old(out)@ + stratum_texts(strata@, strata@.len()),
{
    let ghost start = out@;
    let mut i: usize = 0;
    assert(start + stratum_texts(strata@, 0) =~= start);
    while i < strata.len()
        invariant
            i <= strata@.len(),
            out@ == start + stratum_texts(strata@, i as nat),
        decreases strata@.len() - i,
    {
        out.append(strata[i].name.as_str());
        out.append(": df=");
        push_decimal(out, strata[i].df as u64);
        out.append(" MS=");
        display(out, &strata[i].ms);
        out.append("\n");
        assert(out@ =~= start + stratum_texts(strata@, (i + 1) as nat));
        i = i + 1;
    }
}

fn write_coefficient(c: &CoefficientLine) -> (line: String)
    ensures
        line@ == coefficient_text(*c),
{
    let mut line: String = c.label.clone();
    if c.estimable {
        line.append(": ");
        display(&mut line, &c.estimate);
        line.append(" ");
        display(&mut line, &c.se);
        line.append(" ");
        display(&mut line, &c.ci_low);
        line.append(" ");
        display(&mut line, &c.ci_high);
        line.append(" ");
        display(&mut line, &c.boot_low);
        line.append(" ");
        display(&mut line, &c.boot_high);
        line.append("\n");
    } else {
        line.append(": n/e\n");
    }
    line
}

fn push_coefficients(out: &mut String, list: &Vec<CoefficientLine>)
    ensures
        final(out)@ == old(out)@ + coefficient_texts(list@, list@.len()),
{
    let ghost start = out@;
    let mut i: usize = 0;
    assert(start + coefficient_texts(list@, 0) =~= start);
    while i < list.len()
        invariant
            i <= list@.len(),
            out@ == start + coefficient_texts(list@, i as nat),
        decreases list@.len() - i,
    {
        let line: String = write_coefficient(&list[i]);
        out.append(line.as_str());
        assert(out@ =~= start + coefficient_texts(list@, (i + 1) as nat));
        i = i + 1;
    }
}

fn write_prediction(p: &PredictionLine) -> (line: String)
    ensures
        line@ == prediction_text(*p),
{
    let mut line: String = "Prediction ".to_owned();
    line.append(p.factors.as_str());
    line.append(": mean=");
    line.append(p.mean.as_str());
    line.append(" SE=");
    display(&mut line, &p.se);
    line.append(" estimable=");
    push_truth(&mut line, p.estimable);
    line.append(" measured=");
    push_truth(&mut line, p.measured);
    line.append(" observed_mean=");
    display(&mut line, &p.observed_mean);
    line.append(" bootstrap=[");
    display(&mut line, &p.boot_low);
    line.append(", ");
    display(&mut line, &p.boot_high);
    line.append("]\n");
    line
}

fn push_predictions(out: &mut String, list: &Vec<PredictionLine>)
    ensures
        final(out)@ == old(out)@ + prediction_texts(list@, list@.len()),
{
    let ghost start = out@;
    let mut i: usize = 0;
    assert(start + prediction_texts(list@, 0) =~= start);
    while i < list.len()
        invariant
            i <= list@.len(),
            out@ == start + prediction_texts(list@, i as nat),
        decreases list@.len() - i,
    {
        let line: String = write_prediction(&list[i]);
        out.append(line.as_str());
        assert(out@ =~= start + prediction_texts(list@, (i + 1) as nat));
        i = i + 1;
    }
}

fn push_optimum(out: &mut String, label: &str, p: &Option<OptimumLine>)
    ensures
        final(out)@ == old(out)@ + optimum_text(label@, *p),
{
    let ghost start = out@;
    match p {
        Some(o) => {
            out.append(label);
            out.append(": ");
            out.append(o.factors.as_str());
            out.append(" predicted=");
            out.append(o.mean.as_str());
            out.append(" interval=[");
            display(out, &o.ci_low);
            out.append(", ");
            display(out, &o.ci_high);
            out.append("] measured=");
            push_truth(out, o.measured);
            out.append("\n");
        },
        None => {},
    }
    assert(out@ =~= start + optimum_text(label@, *p));
}

fn push_warnings(out: &mut String, list: &Vec<String>)
    ensures
        final(out)@ == old(out)@ + warning_texts(views(list@), list@.len()),
{
    let ghost start = out@;
    let ghost lv = views(list@);
    let mut i: usize = 0;
    assert(start + warning_texts(lv, 0) =~= start);
    while i < list.len()
        invariant
            i <= list@.len(),
            lv == views(list@),
            out@ == start + warning_texts(lv, i as nat),
        decreases list@.len() - i,
    {
        assert(lv[i as int] == list@[i as int]@);
        out.append(list[i].as_str());
        out.append("\n");
        assert(out@ =~= start + warning_texts(lv, (i + 1) as nat));
        i = i + 1;
    }
}

fn has_evidence(anova: &Vec<AnovaLine>) -> (r: bool)
    ensures
        r == evident(anova@),
{
    let mut i: usize = 0;
    while i < anova.len()
        invariant
            i <= anova@.len(),
            forall|k: int| 0 <= k < i ==> !(#[trigger] anova@[k]).significant,
        decreases anova@.len() - i,
    {
        if anova[i].significant {
            assert(evident(anova@));
            return true;
        }
        i = i + 1;
    }
    false
}

/// The text of a result.
pub fn render_result(r: &ResultLines, alpha: &str) -> (out: String)
    ensures
        out@ == result_report(*r, alpha@),
{
    let mut out: String = String::new();
    push_head(&mut out, r);
    push_terms(&mut out, &r.estimability.terms);
    push_fit(&mut out, r);
    push_anova(&mut out, &r.anova, &r.strata);
    push_strata(&mut out, &r.strata);
    out.append("Coefficients: estimate SE CI low CI high bootstrap low bootstrap high\n");
    push_coefficients(&mut out, &r.coefficients);
    push_predictions(&mut out, &r.predictions);
    push_optimum(&mut out, "MAXIMIZE", &r.maximize);
    push_optimum(&mut out, "MINIMIZE", &r.minimize);
    push_warnings(&mut out, &r.warnings);
    if !has_evidence(&r.anova) {
        out.append("insufficient evidence under this model (α=");
        out.append(alpha);
        out.append(")\n");
    }
    assert(out@ =~= result_report(*r, alpha@));
    out
}

// ===== Losses =====

/// A term is reported as lost exactly where the plan estimates it and the observed
/// data do not. Without a plan, and where all is estimable, nothing is lost; under
/// the plan itself nothing is.
pub proof fn lost_terms_were_planned(
    e: EstimabilityView,
    planned: Option<EstimabilityView>,
    names: Seq<Seq<char>>,
    t: int,
)
    requires
        0 <= t < e.terms.len(),
    ensures
        ({
            let r = estimability_report(e, planned, names);
            &&& r.terms.len() == e.terms.len()
            &&& r.n_params == e.n_params
            &&& r.rank == e.rank
            &&& r.residual_df == e.residual_df
            &&& r.terms[t].term == term_label(e.terms[t].term, names)
            &&& r.terms[t].df == e.terms[t].df
            &&& r.terms[t].estimable == e.terms[t].estimable
            &&& r.terms[t].aliased_with == e.terms[t].aliased_with
            &&& planned is None ==> !r.terms[t].lost
            &&& e.terms[t].estimable ==> !r.terms[t].lost
            &&& forall|k: int|
                planned is Some && 0 <= k < planned->0.terms.len() && (
                #[trigger] planned->0.terms[k]).term == e.terms[t].term && planned->0.terms[k].estimable
                    && !e.terms[t].estimable ==> r.terms[t].lost
            &&& r.terms[t].lost ==> planned is Some && exists|k: int|
                0 <= k < planned->0.terms.len() && (#[trigger] planned->0.terms[k]).term
                    == e.terms[t].term && planned->0.terms[k].estimable
        }),
{
}

/// There is a warning for each lost term and no other.
pub proof fn lost_terms_are_warned_of(terms: Seq<TermReportView>, n: nat)
    requires
        n <= terms.len(),
    ensures
        lost_messages(terms, n).len() == Set::new(
            |t: int| 0 <= t < n && terms[t].lost,
        ).len(),
        Set::new(|t: int| 0 <= t < n && terms[t].lost).finite(),
        forall|t: int|
            0 <= t < n && (#[trigger] terms[t]).lost ==> lost_messages(terms, n).contains(
                terms[t].term + ": LOST (missing runs)"@,
            ),
    decreases n,
{
    let now = Set::new(|t: int| 0 <= t < n && terms[t].lost);
    if n == 0 {
        assert(now =~= Set::empty());
    } else {
        lost_terms_are_warned_of(terms, (n - 1) as nat);
        let before = Set::new(|t: int| 0 <= t < n - 1 && terms[t].lost);
        assert(before =~= Set::new(|t: int| 0 <= t < (n - 1) as nat && terms[t].lost));
        let (list, all) = (lost_messages(terms, (n - 1) as nat), lost_messages(terms, n));
        if terms[n - 1].lost {
            assert(now =~= before.insert(n - 1));
        } else {
            assert(now =~= before);
        }
        assert forall|t: int| 0 <= t < n && (#[trigger] terms[t]).lost implies all.contains(
            terms[t].term + ": LOST (missing runs)"@,
        ) by {
            let text = terms[t].term + ": LOST (missing runs)"@;
            if t == n - 1 {
                assert(all[all.len() - 1] == text);
            } else {
                let k = choose|k: int| 0 <= k < list.len() && list[k] == text;
                assert(all[k] == text);
            }
        }
    }
}

/// A term is noted as untestable exactly where the first stratum that it names has
/// no degrees of freedom.
pub proof fn short_strata_are_noted(strata: Seq<StratumLine>, stratum: Seq<char>, k: int, i: nat)
    requires
        i <= k < strata.len(),
        is_stratum(strata[k].name@, stratum),
        forall|j: int| i <= j < k ==> !is_stratum((#[trigger] strata[j]).name@, stratum),
    ensures
        stratum_is_short(strata, stratum, i) <==> strata[k].df == 0,
    decreases k - i,
{
    if i < k {
        assert(!is_stratum(strata[i as int].name@, stratum));
        short_strata_are_noted(strata, stratum, k, i + 1);
    }
}

} // verus!
