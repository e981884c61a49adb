use statrs::distribution::{ContinuousCDF, FisherSnedecor, StudentsT};
use std::collections::{BTreeMap, BTreeSet};
use taguchi::analyze::bootstrap::{
    draw_groups, drawn_role, drawn_roles, plan_resamples, resample_seed, resampled_place,
    take_resample,
};
use taguchi::analyze::columns::{
    columns_taken, rank_gain, strata_names, stratum_label, subset, Part,
};
use taguchi::analyze::grid::{
    advance, grid_exceeds_cap, grid_warning, is_wanted, prediction_row, recommend, Peak,
};
use taguchi::analyze::groups::{groups_of_first_role, groups_on};
use taguchi::analyze::observe::{
    check_alpha, check_names, check_noise, read_observations, Observation, ONE,
};
use taguchi::analyze::pooling::{
    choose_block_test, choose_test, error_df_with_pooled, has_evidence, is_significant,
    pool_smallest,
    shortage_warnings, Test,
};
use taguchi::analyze::stages::{judge_terms, model_of_result, plan_result, settle_pooling};
use taguchi::analyze::walk::walk_grid;
use taguchi::augment::Table;
use taguchi::construct::{
    apply_cli, file_requests, new_design, parse_design_file, plan_design, replicate_request,
    ConstructOpts, Design, ParsedDesign, Run,
};
use taguchi::design_select::{select, union_model as union_of};
use taguchi::factor::{
    Factor, FactorKind, FactorValue, FloatLevel, Numbers, Request, Scale, ScaleNumbers,
};
use taguchi::oa::bush::bush_at;
use taguchi::oa::gf::Gf;
use taguchi::oa::lookup::{build_index, CatalogEntry};
use taguchi::csv_text::{parse_observed, settle_observed};
use taguchi::error::Error;
use taguchi::model::matrix::terms_in_range;
use taguchi::model::{
    estimability, hierarchy_warnings, model_matrix, Cell, Model, ModelMatrix, RankReport,
    ReplicateRole, Unit,
};
use taguchi::oa::ArrayInfo;
use taguchi::report::{
    lost_warnings, render_result, report_estimability, AnovaLine, CoefficientLine,
    EstimabilityReport, OptimumLine, PredictionLine, ResultLines, StratumLine, TermReport,
};
use taguchi::rng::Rng;
use nalgebra::DMatrix;
use taguchi::model::estimability::{block_column_numbers, matrix_without, term_column_numbers};

struct Decomposition {
    singular: Vec<f64>,
    u: DMatrix<f64>,
    vt: DMatrix<f64>,
    rank: usize,
    tolerance: f64,
}

fn numbers(rows: &[Vec<i64>]) -> Vec<Vec<f64>> {
    rows.iter().map(|r| r.iter().map(|&v| v as f64).collect()).collect()
}

fn decompose(x: &[Vec<f64>], p: usize) -> Decomposition {
    if p == 0 || x.is_empty() {
        return Decomposition {
            singular: vec![0.0; p],
            u: DMatrix::zeros(x.len().max(p), p),
            vt: DMatrix::identity(p, p),
            rank: 0,
            tolerance: 0.0,
        };
    }
    let a = DMatrix::from_fn(x.len().max(p), p, |i, j| if i < x.len() { x[i][j] } else { 0.0 });
    let svd = a.svd(true, true);
    let singular = svd.singular_values.as_slice().to_vec();
    let tolerance = 1e-10 * singular.iter().copied().fold(0.0, f64::max) * x.len().max(p) as f64;
    let rank = singular.iter().filter(|&&s| s > tolerance).count();
    Decomposition { singular, u: svd.u.unwrap(), vt: svd.v_t.unwrap(), rank, tolerance }
}

fn null_basis(x: &[Vec<f64>], p: usize, tolerance: f64) -> Vec<Vec<f64>> {
    let mut rref = x.to_vec();
    let mut pivots: Vec<usize> = Vec::new();
    for column in 0..p {
        let row = pivots.len();
        let best = (row..rref.len())
            .map(|r| (r, rref[r][column].abs()))
            .max_by(|a, b| a.1.total_cmp(&b.1));
        let Some((at, size)) = best else { break };
        if size <= tolerance {
            continue;
        }
        rref.swap(row, at);
        let pivot = rref[row][column];
        for v in &mut rref[row] {
            *v /= pivot;
        }
        let values = rref[row].clone();
        for (r, other) in rref.iter_mut().enumerate() {
            if r != row {
                let scale = other[column];
                for (v, w) in other.iter_mut().zip(&values) {
                    *v -= scale * w;
                }
            }
        }
        pivots.push(column);
    }
    (0..p)
        .filter(|c| !pivots.contains(c))
        .map(|free| {
            let mut v = vec![0.0; p];
            v[free] = 1.0;
            for (row, &c) in pivots.iter().enumerate() {
                v[c] = -rref[row][free];
            }
            v
        })
        .collect()
}

fn ranks(mm: &ModelMatrix, terms: usize) -> RankReport {
    let p = mm.columns.len();
    let x = numbers(&mm.data);
    let d = decompose(&x, p);
    let without =
        |drop: &[usize]| decompose(&numbers(&matrix_without(mm, drop)), p - drop.len()).rank;
    RankReport {
        rank: d.rank,
        without_terms: (0..terms).map(|t| without(&term_column_numbers(mm, t))).collect(),
        without_blocks: without(&block_column_numbers(mm)),
        null_supports: null_basis(&x, p, d.tolerance)
            .into_iter()
            .map(|v| v.iter().map(|c| c.abs() > 1e-8).collect())
            .collect(),
    }
}

struct Fit {
    coef: Vec<f64>,
    rank: usize,
    rss: f64,
    residual_df: usize,
    estimable_coef: Vec<bool>,
    cov: Vec<Vec<f64>>,
}

fn dot(a: &[f64], b: &[f64]) -> f64 {
    a.iter().zip(b).map(|(x, y)| x * y).sum()
}

fn outside(vt: &DMatrix<f64>, rank: usize, v: &[f64]) -> f64 {
    (rank..v.len())
        .map(|k| v.iter().enumerate().map(|(j, x)| vt[(k, j)] * x).sum::<f64>().powi(2))
        .sum::<f64>()
        .sqrt()
}

fn in_space(d: &Decomposition, v: &[f64]) -> bool {
    outside(&d.vt, d.rank, v) <= 1e-8 * dot(v, v).sqrt().max(1.0)
}

fn fit_least_squares(x: &[Vec<f64>], y: &[f64]) -> Fit {
    let p = x.first().map_or(0, Vec::len);
    let d = decompose(x, p);
    let mut coef = vec![0.0; p];
    let mut cov = vec![vec![0.0; p]; p];
    for k in 0..d.rank {
        let scale = y.iter().enumerate().map(|(i, y)| d.u[(i, k)] * y).sum::<f64>() / d.singular[k];
        for j in 0..p {
            coef[j] += d.vt[(k, j)] * scale;
            for l in 0..p {
                cov[j][l] += d.vt[(k, j)] * d.vt[(k, l)] / d.singular[k].powi(2);
            }
        }
    }
    let rss = x.iter().zip(y).map(|(row, y)| (y - dot(row, &coef)).powi(2)).sum();
    let estimable_coef = (0..p)
        .map(|j| {
            let mut e = vec![0.0; p];
            e[j] = 1.0;
            in_space(&d, &e)
        })
        .collect();
    Fit { coef, rank: d.rank, rss, residual_df: x.len() - d.rank, estimable_coef, cov }
}

/// The body of a catalog file.
fn body(rows: &[Vec<usize>]) -> String {
    rows.iter()
        .map(|r| r.iter().map(|v| v.to_string()).collect::<Vec<_>>().join(" "))
        .collect::<Vec<_>>()
        .join("\n")
}

/// The Plackett–Burman array of twelve runs.
fn plackett_burman() -> Vec<Vec<usize>> {
    let first = [1, 1, 0, 1, 1, 1, 0, 0, 0, 1, 0];
    let mut rows: Vec<Vec<usize>> =
        (0..11).map(|i| (0..11).map(|j| first[(j + 11 - i) % 11]).collect()).collect();
    rows.push(vec![0; 11]);
    rows
}

/// The seven three-level columns of the array of eighteen runs.
fn eighteen() -> Vec<Vec<usize>> {
    [
        "1111111", "1222222", "1333333", "2112233", "2223311", "2331122", "3121323", "3232131",
        "3313212", "1133221", "1211332", "1322113", "2123132", "2231213", "2312321", "3132312",
        "3213123", "3321231",
    ]
    .iter()
    .map(|s| s.bytes().map(|b| (b - b'1') as usize).collect())
    .collect()
}

fn bush_rows(q: usize, k: usize) -> Vec<Vec<usize>> {
    bush_at(&Gf::new(q).unwrap(), k)
}

fn catalog_files() -> Vec<(String, String)> {
    vec![
        ("oa.4.3.2.2.txt".to_string(), body(&bush_rows(2, 2))),
        ("oa.8.7.2.2.txt".to_string(), body(&bush_rows(2, 3))),
        ("oa.9.4.3.2.txt".to_string(), body(&bush_rows(3, 2))),
        ("oa.12.11.2.2.txt".to_string(), body(&plackett_burman())),
        ("oa.16.15.2.2.txt".to_string(), body(&bush_rows(2, 4))),
        ("oa.18.7.3.2.txt".to_string(), body(&eighteen())),
        ("MA.36.3.4.2.3.txt".to_string(), body(&mixed())),
    ]
}

/// Four three-level and three two-level columns in thirty-six runs.
fn mixed() -> Vec<Vec<usize>> {
    let (nine, four) = (bush_rows(3, 2), bush_rows(2, 2));
    let mut rows = Vec::new();
    for a in &nine {
        for b in &four {
            rows.push(a.iter().chain(b).copied().collect());
        }
    }
    rows
}

fn catalog() -> Vec<CatalogEntry> {
    build_index(&catalog_files())
}

fn float_text(x: f64) -> String {
    if x.fract() == 0.0 && x.abs() < 1e15 {
        format!("{}", x as i64)
    } else {
        let s = format!("{x:.6}");
        s.trim_end_matches('0').trim_end_matches('.').to_string()
    }
}

fn level(x: f64) -> FloatLevel {
    FloatLevel { bits: x.to_bits(), text: float_text(x) }
}

fn answer(request: &Request) -> Numbers {
    match request {
        Request::Nothing => Numbers::Absent,
        Request::Floats(texts) => {
            Numbers::Floats(texts.iter().map(|t| t.parse::<f64>().ok().map(level)).collect())
        }
        Request::Levels { scale, args } => {
            let p: Vec<f64> = args.iter().map(|a| a.parse().unwrap()).collect();
            let (low, high, n) = (p[0], p[1], p[2] as usize);
            let (l, h) = (low.to_bits(), high.to_bits());
            let spaced = |f: &dyn Fn(f64) -> f64| {
                (0..n).map(|i| level(f(i as f64 / (n - 1) as f64))).collect::<Vec<_>>()
            };
            let ratio = high / low;
            Numbers::Levels(Ok(match scale {
                Scale::LogLow => ScaleNumbers {
                    kind: FactorKind::LogLow { low: l, high: h },
                    levels: spaced(&|t| low * ratio.powf(t)),
                },
                Scale::LogHigh => ScaleNumbers {
                    kind: FactorKind::LogHigh { low: l, high: h },
                    levels: spaced(&|t| high + low - low * ratio.powf(1.0 - t)),
                },
                _ => ScaleNumbers {
                    kind: FactorKind::Uniform { low: l, high: h },
                    levels: spaced(&|t| low + t * (high - low)),
                },
            }))
        }
    }
}

fn parse(src: &str) -> Result<ParsedDesign, Error> {
    let lines: Vec<String> = src.lines().map(str::to_owned).collect();
    let numbers: Vec<Numbers> = file_requests(&lines).iter().map(answer).collect();
    parse_design_file("fixture.design", &lines, &numbers)
}

/// A design from a file, without its I/O: the design, the table and the report.
fn construct(src: &str, opts: &ConstructOpts) -> Result<(Design, Vec<u8>, String), Error> {
    let numbers: Vec<Numbers> =
        opts.replicates.iter().map(|r| answer(&replicate_request(r))).collect();
    let parsed = apply_cli(parse(src)?, opts, &numbers)?;
    let terms = union_of(&parsed.models, &parsed.factors).terms.len();
    let probe = |mm: &ModelMatrix| ranks(mm, terms);
    let s = select(
        &parsed.factors,
        &parsed.models,
        &parsed.replicates,
        parsed.unit.as_ref(),
        &opts.select_opts(),
        &catalog(),
        &probe,
    )
    .map_err(|e| Error::new(&e.to_text()))?;
    let seed = opts.seed.unwrap_or(1234);
    let plan = plan_design(&parsed, &s.cells, s.selected.array.len(), seed, opts.no_shuffle);
    let bytes = plan.to_bytes()?;
    Ok((new_design(parsed, s.selected.info, s.estimability, seed, plan.runs), bytes, s.report))
}

const LANDER_DESIGN: &str = r#"[factors]
denominator     = d["a","b"]
projection      = d["p","q","r"]
prior           = d["flat","learned"]
evaluation_mode = d["greedy","beam","sample"]

[model]
response ~ denominator * projection + prior * evaluation_mode

[replicates]
seed = 3

[units]
checkpoint = denominator, projection, prior, seed

[results]
response
"#;

/// A table whose cells hold no commas and no quotes.
struct Sheet {
    header: Vec<String>,
    rows: Vec<Vec<String>>,
}

impl Sheet {
    fn parse(text: &str) -> Sheet {
        let split = |l: &str| l.split(',').map(str::to_owned).collect::<Vec<String>>();
        let mut lines = text.lines();
        Sheet { header: split(lines.next().unwrap()), rows: lines.map(split).collect() }
    }

    fn col(&self, name: &str) -> usize {
        self.header.iter().position(|c| c == name).unwrap()
    }

    fn render(&self) -> String {
        let mut out = self.header.join(",");
        out.push('\n');
        for r in &self.rows {
            out.push_str(&r.join(","));
            out.push('\n');
        }
        out
    }
}

fn den(v: &str) -> f64 {
    if v == "b" { 1.0 } else { -1.0 }
}

fn proj(v: &str) -> f64 {
    match v {
        "p" => -1.0,
        "q" => 0.0,
        _ => 1.0,
    }
}

fn pri(v: &str) -> f64 {
    if v == "learned" { 1.0 } else { -1.0 }
}

fn mode(v: &str) -> f64 {
    match v {
        "greedy" => -1.0,
        "beam" => 0.0,
        _ => 1.0,
    }
}

fn truth(d: &str, p: &str, pr: &str, m: &str) -> f64 {
    50.0 + 4.0 * den(d)
        + 2.0 * proj(p)
        + 1.5 * pri(pr)
        + 2.0 * mode(m)
        + 3.0 * den(d) * proj(p)
        + 1.0 * pri(pr) * mode(m)
}

fn seed_offset(seed: &str) -> f64 {
    match seed {
        "1" => -0.8,
        "2" => 0.0,
        _ => 0.8,
    }
}

fn noise(i: usize) -> f64 {
    0.01 * (((i * 37) % 17) as f64 - 8.0)
}

/// Fills the response of a constructed table.
fn fill_lander(csv: &str) -> Sheet {
    let mut t = Sheet::parse(csv);
    let at = |name: &str| t.col(name);
    let ri = at("response");
    let (cd, cp, cr, cm, cs) =
        (at("denominator"), at("projection"), at("prior"), at("evaluation_mode"), at("seed"));
    for (i, row) in t.rows.iter_mut().enumerate() {
        let v = truth(&row[cd], &row[cp], &row[cr], &row[cm]) + seed_offset(&row[cs]) + noise(i);
        row[ri] = format!("{v:.6}");
    }
    t
}

/// Blanks one combination of the factors, and gives the runs.
fn blank_one(t: &mut Sheet) -> Vec<String> {
    let ri = t.col("response");
    let cols = ["denominator", "projection", "prior", "evaluation_mode"].map(|c| t.col(c));
    let mut blanked = Vec::new();
    for row in t.rows.iter_mut() {
        if cols.map(|c| row[c].as_str()) == ["a", "p", "flat", "greedy"] {
            blanked.push(row[0].clone());
            row[ri].clear();
        }
    }
    blanked
}
/// Whether a cell reads as a number close enough to a level.
fn is_near(value: &FactorValue, cell: &str) -> bool {
    match value {
        FactorValue::Text(_) => false,
        FactorValue::Int(n) => cell
            .parse::<f64>()
            .is_ok_and(|c| (c - *n as f64).abs() < 1e-9),
        FactorValue::Float(x) => {
            let x = f64::from_bits(x.bits);
            cell.parse::<f64>()
                .is_ok_and(|c| (c - x).abs() < 1e-4 * x.abs().max(1.0))
        }
    }
}

/// For every row of a table, and every factor and then every role, which levels
/// the cell reads as a number close to.
fn near_flags(table: &Table, design: &Design) -> Vec<Vec<Vec<bool>>> {
    let flags = |row: &[String], col: usize, values: &[FactorValue]| {
        let cell = row.get(col).map_or("", |s| s.trim());
        values.iter().map(|v| is_near(v, cell)).collect::<Vec<bool>>()
    };
    table
        .rows
        .iter()
        .map(|row| {
            let of_factors = design
                .factors
                .iter()
                .zip(&table.factor_col)
                .map(|(f, &c)| flags(row, c, &f.values));
            let of_roles = design
                .replicates
                .iter()
                .zip(&table.role_col)
                .map(|(r, &c)| flags(row, c, &r.levels));
            of_factors.chain(of_roles).collect()
        })
        .collect()
}

/// What every result cell of a table reads as.
fn result_numbers(table: &Table) -> Vec<Vec<Option<u64>>> {
    table
        .rows
        .iter()
        .map(|row| {
            table
                .result_col
                .iter()
                .map(|&c| {
                    row.get(c)
                        .and_then(|s| s.trim().parse::<f64>().ok())
                        .map(f64::to_bits)
                })
                .collect()
        })
        .collect()
}

struct AnalyzeArgs {
    maximize: Vec<String>,
    minimize: Vec<String>,
    tolerate_noise: Option<f64>,
    alpha: f64,
    pool: Vec<String>,
    pool_auto: bool,
    bootstrap: Option<usize>,
    seed: Option<u64>,
}

fn args() -> AnalyzeArgs {
    AnalyzeArgs {
        maximize: vec![],
        minimize: vec![],
        tolerate_noise: None,
        alpha: 0.05,
        pool: vec![],
        pool_auto: false,
        bootstrap: Some(0),
        seed: Some(42),
    }
}

#[derive(Debug)]
struct ResultReport {
    name: String,
    model: String,
    n_complete: usize,
    missing_runs: Vec<String>,
    estimability: EstimabilityReport,
    fit: FitReport,
    anova: Vec<Anova>,
    strata: Vec<Stratum>,
    coefficients: Vec<Coefficient>,
    predictions: Vec<Prediction>,
    recommendation: Recommendation,
    warnings: Vec<String>,
}

#[derive(Debug)]
struct FitReport {
    sigma: Option<f64>,
    rss: f64,
    r_squared: Option<f64>,
}

#[derive(Debug)]
struct Anova {
    term: String,
    stratum: String,
    df: usize,
    ss: f64,
    ms: Option<f64>,
    f: Option<f64>,
    p: Option<f64>,
    significant: bool,
    pooled: bool,
}

#[derive(Debug)]
struct Stratum {
    name: String,
    df: usize,
    ms: Option<f64>,
}

#[derive(Debug)]
struct Coefficient {
    label: String,
    estimate: Option<f64>,
    se: Option<f64>,
    ci_low: Option<f64>,
    ci_high: Option<f64>,
    boot_low: Option<f64>,
    boot_high: Option<f64>,
    estimable: bool,
}

#[derive(Debug)]
struct Prediction {
    factors: BTreeMap<String, String>,
    mean: f64,
    se: Option<f64>,
    estimable: bool,
    measured: bool,
    observed_mean: Option<f64>,
    boot_low: Option<f64>,
    boot_high: Option<f64>,
}

#[derive(Debug)]
struct Recommendation {
    maximize: Option<Optimum>,
    minimize: Option<Optimum>,
}

#[derive(Debug)]
struct Optimum {
    factors: BTreeMap<String, String>,
    mean: f64,
    ci_low: Option<f64>,
    ci_high: Option<f64>,
    measured: bool,
}

fn copy_report(r: &EstimabilityReport) -> EstimabilityReport {
    EstimabilityReport {
        n_params: r.n_params,
        rank: r.rank,
        residual_df: r.residual_df,
        terms: r
            .terms
            .iter()
            .map(|t| TermReport {
                term: t.term.clone(),
                df: t.df,
                estimable: t.estimable,
                lost: t.lost,
                aliased_with: t.aliased_with.clone(),
            })
            .collect(),
    }
}

fn shown(v: f64) -> String {
    format!("{v:.6}")
}

fn maybe(v: Option<f64>) -> Option<String> {
    v.map(shown)
}

fn optimum(o: &Option<Optimum>) -> Option<OptimumLine> {
    o.as_ref().map(|o| OptimumLine {
        factors: format!("{:?}", o.factors),
        mean: shown(o.mean),
        ci_low: maybe(o.ci_low),
        ci_high: maybe(o.ci_high),
        measured: o.measured,
    })
}

/// The numbers of a result as they are shown.
fn lines(r: &ResultReport) -> ResultLines {
    ResultLines {
        name: r.name.clone(),
        model: r.model.clone(),
        n_complete: r.n_complete,
        missing_runs: r.missing_runs.clone(),
        estimability: copy_report(&r.estimability),
        rss: shown(r.fit.rss),
        sigma: maybe(r.fit.sigma),
        r_squared: maybe(r.fit.r_squared),
        anova: r
            .anova
            .iter()
            .map(|a| AnovaLine {
                term: a.term.clone(),
                stratum: a.stratum.clone(),
                df: a.df,
                ss: shown(a.ss),
                ms: maybe(a.ms),
                f: maybe(a.f),
                p: maybe(a.p),
                significant: a.significant,
                pooled: a.pooled,
            })
            .collect(),
        strata: r
            .strata
            .iter()
            .map(|s| StratumLine { name: s.name.clone(), df: s.df, ms: maybe(s.ms) })
            .collect(),
        coefficients: r
            .coefficients
            .iter()
            .map(|c| CoefficientLine {
                label: c.label.clone(),
                estimate: maybe(c.estimate),
                se: maybe(c.se),
                ci_low: maybe(c.ci_low),
                ci_high: maybe(c.ci_high),
                boot_low: maybe(c.boot_low),
                boot_high: maybe(c.boot_high),
                estimable: c.estimable,
            })
            .collect(),
        predictions: r
            .predictions
            .iter()
            .map(|p| PredictionLine {
                factors: format!("{:?}", p.factors),
                mean: shown(p.mean),
                se: maybe(p.se),
                estimable: p.estimable,
                measured: p.measured,
                observed_mean: maybe(p.observed_mean),
                boot_low: maybe(p.boot_low),
                boot_high: maybe(p.boot_high),
            })
            .collect(),
        maximize: optimum(&r.recommendation.maximize),
        minimize: optimum(&r.recommendation.minimize),
        warnings: r.warnings.clone(),
    }
}

fn ms(ss: f64, df: usize) -> Option<f64> {
    (df > 0).then(|| ss / df as f64)
}

fn bits(v: Option<f64>) -> Option<u64> {
    v.map(f64::to_bits)
}

fn critical(df: usize, alpha: f64) -> Option<f64> {
    (df > 0).then(|| {
        StudentsT::new(0.0, 1.0, df as f64)
            .expect("positive df")
            .inverse_cdf(1.0 - alpha / 2.0)
    })
}

fn f_test(
    test: Test,
    numerator: Option<f64>,
    denominator: Option<f64>,
    df: usize,
    error_df: usize,
) -> (Option<f64>, Option<f64>) {
    match (test, numerator, denominator) {
        (Test::Ratio, Some(n), Some(d)) => {
            let f = n / d;
            (Some(f), Some(FisherSnedecor::new(df as f64, error_df as f64).unwrap().sf(f)))
        }
        (Test::Infinite, _, _) => (Some(f64::INFINITY), Some(0.0)),
        _ => (None, None),
    }
}

fn se(fit: &Fit, row: &[f64], variance: Option<f64>) -> Option<f64> {
    let spread: f64 = row
        .iter()
        .enumerate()
        .map(|(i, x)| x * dot(&fit.cov[i], row))
        .sum();
    variance.map(|v| (v * spread).max(0.0).sqrt())
}

fn mean_of(rows: &[usize], y: &[f64]) -> f64 {
    rows.iter().map(|&i| y[i]).sum::<f64>() / rows.len() as f64
}

/// The range of the means over the cells of a term.
fn effect_range(cells: &Vec<Cell>, y: &[f64], factors: &Vec<usize>) -> f64 {
    let means: Vec<f64> =
        groups_on(cells, factors).iter().map(|g| mean_of(&g.rows, y)).collect();
    if means.is_empty() {
        0.0
    } else {
        means.iter().copied().fold(f64::NEG_INFINITY, f64::max)
            - means.iter().copied().fold(f64::INFINITY, f64::min)
    }
}

fn percentile(values: &mut [f64], alpha: f64) -> (Option<f64>, Option<f64>) {
    if values.is_empty() {
        return (None, None);
    }
    values.sort_by(f64::total_cmp);
    let quantile = |q: f64| {
        let p = q * (values.len() - 1) as f64;
        let i = p.floor() as usize;
        values[i] + (values[p.ceil() as usize] - values[i]) * (p - i as f64)
    };
    (Some(quantile(alpha / 2.0)), Some(quantile(1.0 - alpha / 2.0)))
}

fn analyze_result(
    design: &Design,
    name: &str,
    data: &[Observation],
    missing_runs: Vec<String>,
    args: &AnalyzeArgs,
) -> Result<ResultReport, Error> {
    let model = model_of_result(&design.models, name, &design.factors);
    if !terms_in_range(&model.terms, &design.factors) {
        return Err(Error::new(&format!("the model of '{name}' has too many parameters")));
    }
    let cells: Vec<Cell> = data.iter().map(|o| o.cell.copy()).collect();
    let y: Vec<f64> = data.iter().map(|o| f64::from_bits(o.y)).collect();
    let plan = plan_result(design, &model, &cells);
    let mm = &plan.mm;
    let est = estimability(mm, &model, &design.factors, &ranks(mm, model.terms.len()));
    let estimated = report_estimability(&est, &design.estimability, &design.factors);
    let mut warnings = hierarchy_warnings(&model, &design.factors);
    warnings.extend(lost_warnings(&estimated));

    let none = vec![false; model.terms.len()];
    let fit_part = |matrix: &ModelMatrix, part: Part, pooled: &Vec<bool>| {
        let columns = columns_taken(matrix, part, &model, &plan.strata, pooled);
        fit_least_squares(&numbers(&subset(matrix, &columns)), &y)
    };

    let stratum_names = strata_names(design.unit.is_some());
    let mut error_df = Vec::new();
    let mut error_ms = Vec::new();
    match &plan.with_units {
        Some(units) => {
            let base = fit_part(units, Part::WholePlot, &none);
            let with_unit = fit_part(units, Part::WholePlotAndUnits, &none);
            let full = fit_least_squares(&numbers(&units.data), &y);
            let df = rank_gain(with_unit.rank, base.rank);
            error_df.push(df);
            error_ms.push(ms((base.rss - with_unit.rss).max(0.0), df));
            error_df.push(full.residual_df);
            error_ms.push(ms(full.rss, full.residual_df));
        }
        None => {
            let full = fit_least_squares(&numbers(&mm.data), &y);
            error_df.push(full.residual_df);
            error_ms.push(ms(full.rss, full.residual_df));
        }
    }

    let labels: Vec<String> = model.terms.iter().map(|t| t.label(&design.factors)).collect();
    let mut df = Vec::new();
    let mut ss = Vec::new();
    for term in 0..model.terms.len() {
        let reduced = fit_part(mm, Part::Without { term }, &none);
        let added = fit_part(mm, Part::With { term }, &none);
        df.push(rank_gain(added.rank, reduced.rank));
        ss.push((reduced.rss - added.rss).max(0.0));
    }
    let ss_bits: Vec<u64> = ss.iter().map(|s| s.to_bits()).collect();
    let pooling = settle_pooling(
        &labels,
        &args.pool,
        name,
        args.pool_auto,
        &plan.strata,
        &ss_bits,
        &df,
        &error_df,
    )
    ?;
    let mut marks = none.clone();
    let mut error_now = error_df.clone();
    for (t, &s) in plan.strata.iter().enumerate() {
        if pooling.marks[t] {
            marks[t] = true;
            let total = error_ms[s].unwrap_or(0.0) * error_now[s] as f64 + ss[t];
            error_now[s] = error_df_with_pooled(error_df[s], &marks, &plan.strata, &df, s);
            error_ms[s] = ms(total, error_now[s]);
        }
    }
    let error_df = pooling.error_df.clone();
    warnings.extend(shortage_warnings(&stratum_names, &error_df));

    let mut anova = Vec::new();
    for (t, label) in labels.iter().enumerate() {
        let s = plan.strata[t];
        let mean_square = ms(ss[t], df[t]);
        let test = choose_test(pooling.marks[t], bits(mean_square), bits(error_ms[s]));
        let (f, p) = f_test(test, mean_square, error_ms[s], df[t], error_df[s]);
        anova.push(Anova {
            term: label.clone(),
            stratum: stratum_label(design.unit.is_some(), s),
            df: df[t],
            ss: ss[t],
            ms: mean_square,
            f,
            p,
            significant: false,
            pooled: pooling.marks[t],
        });
    }
    let ranges: Vec<u64> = model
        .terms
        .iter()
        .map(|t| effect_range(&cells, &y, &t.0).to_bits())
        .collect();
    let p: Vec<Option<u64>> = anova.iter().map(|a| bits(a.p)).collect();
    let significant = judge_terms(
        &pooling.marks,
        &p,
        &ranges,
        args.alpha.to_bits(),
        bits(args.tolerate_noise),
    );
    for (a, &s) in anova.iter_mut().zip(&significant) {
        a.significant = s;
    }

    let active = columns_taken(mm, Part::Active, &model, &plan.strata, &pooling.marks);
    let x = numbers(&subset(mm, &active));
    let fit = fit_least_squares(&x, &y);
    let variance = ms(fit.rss, fit.residual_df);
    let tcrit = critical(fit.residual_df, args.alpha);
    let mut coefficients: Vec<Coefficient> = active
        .iter()
        .enumerate()
        .map(|(j, &c)| {
            let estimable = fit.estimable_coef.get(j).copied().unwrap_or(false);
            let estimate = estimable.then(|| fit.coef[j]);
            let stderr = if estimable {
                variance.map(|v| (v * fit.cov[j][j]).max(0.0).sqrt())
            } else {
                None
            };
            let width = stderr.zip(tcrit).map(|(s, t)| s * t);
            Coefficient {
                label: mm.columns[c].label.clone(),
                estimate,
                se: stderr,
                ci_low: estimate.zip(width).map(|(b, w)| b - w),
                ci_high: estimate.zip(width).map(|(b, w)| b + w),
                boot_low: None,
                boot_high: None,
                estimable,
            }
        })
        .collect();

    let all_factors: Vec<usize> = (0..design.factors.len()).collect();
    let observed: BTreeMap<Vec<usize>, f64> = groups_on(&cells, &all_factors)
        .into_iter()
        .map(|g| (g.key, mean_of(&g.rows, &y)))
        .collect();
    if grid_exceeds_cap(&design.factors) {
        warnings.push(grid_warning());
    }
    let space = decompose(&x, active.len());
    let predict = |levels: &Vec<usize>| {
        let row: Vec<f64> = prediction_row(
            &design.factors,
            &design.replicates,
            &model,
            levels,
            &active,
        )
        .iter()
        .map(|&v| v as f64)
        .collect();
        let estimable = !data.is_empty() && in_space(&space, &row);
        let mean = dot(&row, &fit.coef);
        (row, estimable, mean)
    };
    let measured: Vec<Vec<usize>> = observed.keys().cloned().collect();
    let walk = walk_grid(&design.factors, &measured, &|levels: &Vec<usize>| {
        let (_, estimable, mean) = predict(levels);
        (mean.to_bits(), estimable)
    });
    let kept = walk.finish(&design.factors);
    let mut predictions: Vec<Prediction> = kept
        .iter()
        .map(|levels| {
            let (row, estimable, mean) = predict(levels);
            let observed_mean = observed.get(levels).copied();
            Prediction {
                factors: design
                    .factors
                    .iter()
                    .zip(levels)
                    .map(|(f, &l)| (f.name.clone(), f.values[l].to_text()))
                    .collect(),
                mean,
                se: if estimable { se(&fit, &row, variance) } else { None },
                estimable,
                measured: observed_mean.is_some(),
                observed_mean,
                boot_low: None,
                boot_high: None,
            }
        })
        .collect();

    bootstrap(
        design,
        &model,
        &cells,
        &y,
        &pooling.marks,
        &plan.strata,
        &kept,
        &mut coefficients,
        &mut predictions,
        args,
        &mut warnings,
    );

    let evidence = has_evidence(&significant);
    let optimum = |peak: &Option<Peak>, wanted: bool| {
        recommend(evidence, wanted, peak, &kept, &design.factors).map(|i| {
            let p = &predictions[i];
            let width = p.se.zip(tcrit).map(|(s, t)| s * t);
            Optimum {
                factors: p.factors.clone(),
                mean: p.mean,
                ci_low: p.boot_low.or(width.map(|w| p.mean - w)),
                ci_high: p.boot_high.or(width.map(|w| p.mean + w)),
                measured: p.measured,
            }
        })
    };
    let recommendation = Recommendation {
        maximize: optimum(&walk.highest, is_wanted(name, &args.maximize, &args.minimize)),
        minimize: optimum(&walk.lowest, is_wanted(name, &args.minimize, &args.maximize)),
    };

    if !design.replicates.is_empty() {
        let base = fit_part(mm, Part::Intercept, &none);
        let blocks = fit_part(mm, Part::NoTerms, &none);
        let df = rank_gain(blocks.rank, base.rank);
        let ss = (base.rss - blocks.rss).max(0.0);
        let mean_square = ms(ss, df);
        let test = choose_block_test(bits(mean_square), bits(error_ms[0]));
        let (f, p) = f_test(test, mean_square, error_ms[0], df, error_df[0]);
        anova.push(Anova {
            term: "(blocks)".into(),
            stratum: stratum_label(design.unit.is_some(), 0),
            df,
            ss,
            ms: mean_square,
            f,
            p,
            significant: false,
            pooled: false,
        });
    }
    let mean = if y.is_empty() { 0.0 } else { y.iter().sum::<f64>() / y.len() as f64 };
    let total = y.iter().map(|v| (v - mean).powi(2)).sum::<f64>();
    let strata = stratum_names
        .into_iter()
        .enumerate()
        .map(|(s, name)| Stratum { name, df: error_df[s], ms: error_ms[s] })
        .collect();
    Ok(ResultReport {
        name: name.into(),
        model: model.formula.clone(),
        n_complete: y.len(),
        missing_runs,
        estimability: estimated,
        fit: FitReport {
            sigma: variance.map(f64::sqrt),
            rss: fit.rss,
            r_squared: (total > 0.0).then(|| 1.0 - fit.rss / total),
        },
        anova,
        strata,
        coefficients,
        predictions,
        recommendation,
        warnings,
    })
}

/// Percentile intervals from resampled groups of the first role. Every drawn group
/// is a block of its own; the coefficients of the blocks are told apart by their
/// place.
#[allow(clippy::too_many_arguments)]
fn bootstrap(
    design: &Design,
    model: &Model,
    cells: &Vec<Cell>,
    y: &[f64],
    pooled: &Vec<bool>,
    strata: &Vec<usize>,
    kept: &[Vec<usize>],
    coefficients: &mut [Coefficient],
    predictions: &mut [Prediction],
    args: &AnalyzeArgs,
    warnings: &mut Vec<String>,
) {
    let has_roles = !design.replicates.is_empty();
    let groups = if has_roles { groups_of_first_role(cells) } else { Vec::new() };
    let (count, warning) = plan_resamples(args.bootstrap, has_roles, groups.len());
    warnings.extend(warning);
    if count == 0 {
        return;
    }
    let roles = drawn_roles(&design.replicates, groups.len());
    let levels = design.replicates[0].levels.len();
    let mut rng = Rng::new(resample_seed(args.seed, design.randomization_seed));
    let mut coefficient_samples = vec![Vec::new(); coefficients.len()];
    let mut prediction_samples = vec![Vec::new(); kept.len()];
    let mut rows: Option<Vec<Vec<f64>>> = None;
    for _ in 0..count {
        let drawn = draw_groups(&mut rng, groups.len());
        let sample = take_resample(cells, &groups, &drawn);
        let mm = model_matrix(&design.factors, &roles, model, &sample.cells, None);
        let active = columns_taken(&mm, Part::Active, model, strata, pooled);
        let x = numbers(&subset(&mm, &active));
        let by: Vec<f64> = sample.rows.iter().map(|&i| y[i]).collect();
        let fit = fit_least_squares(&x, &by);
        for (j, samples) in coefficient_samples.iter_mut().enumerate() {
            if let Some(k) = resampled_place(j, levels, groups.len()) {
                if fit.estimable_coef[k] {
                    samples.push(fit.coef[k]);
                }
            }
        }
        let space = decompose(&x, active.len());
        let rows = rows.get_or_insert_with(|| {
            kept.iter()
                .map(|levels| {
                    prediction_row(&design.factors, &roles, model, levels, &active)
                        .iter()
                        .map(|&v| v as f64)
                        .collect()
                })
                .collect()
        });
        for (row, samples) in rows.iter().zip(&mut prediction_samples) {
            if in_space(&space, row) {
                samples.push(dot(row, &fit.coef));
            }
        }
    }
    for (c, samples) in coefficients.iter_mut().zip(&mut coefficient_samples) {
        if c.estimable {
            (c.boot_low, c.boot_high) = percentile(samples, args.alpha);
        }
    }
    for (p, samples) in predictions.iter_mut().zip(&mut prediction_samples) {
        if p.estimable {
            (p.boot_low, p.boot_high) = percentile(samples, args.alpha);
        }
    }
}

fn evident(r: &ResultReport) -> bool {
    r.anova.iter().any(|a| a.significant)
}

fn text(r: &ResultReport) -> String {
    render_result(&lines(r), "0.05")
}

/// An analysis, without its I/O.
fn analyze(design: &Design, csv: &str, args: &AnalyzeArgs) -> Result<Vec<ResultReport>, Error> {
    check_alpha(args.alpha.to_bits())?;
    check_noise(args.tolerate_noise.map(f64::to_bits))?;
    check_names(&args.maximize, &design.results)?;
    check_names(&args.minimize, &design.results)?;
    let (table, failure) = parse_observed(csv.as_bytes(), design)?;
    let flags = near_flags(&table, design);
    let read = read_observations(&table, design, &flags, &result_numbers(&table));
    let data = settle_observed(read, failure)?;
    let mut results = Vec::new();
    for (name, d) in design.results.iter().zip(data) {
        results.push(analyze_result(design, name, &d.data, d.missing, args)?);
    }
    Ok(results)
}

fn design(names: &[&str], formula: &str) -> Design {
    let factors: Vec<Factor> =
        names.iter().map(|n| Factor::parse(n, "d[1,2]", &Numbers::Absent).unwrap()).collect();
    let models = vec![Model::parse(formula, &factors).unwrap()];
    Design {
        version: 2,
        results: vec!["y".into()],
        models,
        replicates: vec![],
        unit: None,
        array: ArrayInfo {
            rows: 4,
            cols: names.len(),
            label: "test".into(),
            method: "test".into(),
        },
        randomization_seed: None,
        estimability: None,
        runs: vec![],
        augmentations: vec![],
        factors,
    }
}

fn seeds(n: i64) -> Vec<ReplicateRole> {
    vec![ReplicateRole { name: "seed".into(), levels: (1..=n).map(FactorValue::Int).collect() }]
}

fn observation(factor_levels: Vec<usize>, replicate_levels: Vec<usize>, y: f64) -> Observation {
    Observation { cell: Cell { factor_levels, replicate_levels }, y: y.to_bits() }
}

fn factorial(d: &Design, groups: usize, f: impl Fn(&[f64], usize) -> f64) -> Vec<Observation> {
    let mut data = Vec::new();
    for g in 0..groups {
        let mut levels = vec![0; d.factors.len()];
        loop {
            let coded: Vec<_> =
                levels.iter().map(|&l| if l == 0 { 1.0 } else { -1.0 }).collect();
            let roles = if d.replicates.is_empty() { vec![] } else { vec![g] };
            data.push(observation(levels.clone(), roles, f(&coded, g)));
            if !advance(&mut levels, &d.factors) {
                break;
            }
        }
    }
    data
}

fn cells_of(data: &[Observation]) -> Vec<Cell> {
    data.iter().map(|o| o.cell.copy()).collect()
}

fn fit(d: &Design, data: &[Observation], a: &AnalyzeArgs) -> ResultReport {
    analyze_result(d, "y", data, vec![], a).unwrap()
}

fn close(a: f64, b: f64) {
    assert!((a - b).abs() < 1e-9, "{a} != {b}");
}

#[test]
fn golden_joint_interaction_and_missing_alias() {
    let mut d = design(&["a", "b"], "y ~ a*b");
    let mut data = factorial(&d, 1, |v, _| 10.0 + 2.0 * v[0] + 3.0 * v[1] + v[0] * v[1]);
    let mm = model_matrix(&d.factors, &[], &d.models[0], &cells_of(&data), None);
    d.estimability = Some(estimability(&mm, &d.models[0], &d.factors, &ranks(&mm, 3)));
    let r = fit(&d, &data, &args());
    for (c, true_value) in r.coefficients.iter().zip([10.0, 2.0, 3.0, 1.0]) {
        close(c.estimate.unwrap(), true_value);
    }
    assert!(r.estimability.terms.iter().all(|t| t.estimable));
    close(r.fit.rss, 0.0);
    data.pop();
    let r = analyze_result(&d, "y", &data, vec!["r0004".into()], &args()).unwrap();
    assert!(!r.estimability.terms[2].estimable);
    let text = text(&r);
    assert!(text.contains("Missing runs (1): r0004"));
    assert!(text.contains("a:b: LOST (missing runs)"));
    assert!(text.contains("n/e"));
    assert_eq!(r.predictions.iter().filter(|p| p.measured).count(), 3);
    assert!(!r.predictions[3].estimable);
}

#[test]
fn split_plot_denominators_are_nested_fit_mean_squares() {
    let mut d = design(&["a", "b"], "a+b");
    d.replicates = seeds(2);
    d.unit = Some(Unit { name: "checkpoint".into(), key: vec!["a".into(), "seed".into()] });
    let data = factorial(&d, 2, |v, g| {
        let s = if g == 0 { 1.0 } else { -1.0 };
        10.0 + 2.0 * v[0] + 3.0 * v[1] + 20.0 * v[0] * s + v[1] * s
    });
    let r = fit(&d, &data, &args());
    close(r.strata[0].ms.unwrap(), 3200.0);
    assert_eq!(r.strata[0].df, 1);
    close(r.strata[1].ms.unwrap(), 8.0 / 3.0);
    assert_eq!(r.strata[1].df, 3);
    let a = &r.anova[0];
    let b = &r.anova[1];
    close(a.ms.unwrap() / a.f.unwrap(), 3200.0);
    close(b.ms.unwrap() / b.f.unwrap(), 8.0 / 3.0);
    assert_eq!(a.stratum, "whole-plot");
    assert_eq!(b.stratum, "sub-plot");
}

#[test]
fn saturated_pooling_is_opt_in_and_refits() {
    let d = design(&["a", "b", "c"], "a+b+c");
    let data: Vec<_> = [vec![0, 0, 0], vec![0, 1, 1], vec![1, 0, 1], vec![1, 1, 0]]
        .into_iter()
        .map(|levels| {
            let v: Vec<f64> =
                levels.iter().map(|&l| if l == 0 { 1.0 } else { -1.0 }).collect();
            observation(levels, vec![], 10.0 + 10.0 * v[0] + 0.1 * v[1] + 0.2 * v[2])
        })
        .collect();
    let r = fit(&d, &data, &args());
    assert!(text(&r).contains("insufficient evidence under this model: residual df = 0 in residual; add replicates, or pass --pool <terms> / --pool-auto."));
    assert!(r.anova.iter().all(|a| !a.pooled && a.f.is_none()));
    let mut a = args();
    a.pool_auto = true;
    let r = fit(&d, &data, &a);
    assert_eq!(r.anova.iter().filter(|a| a.pooled).count(), 2);
    assert!(r.anova[0].f.is_some());
    assert!(evident(&r));
    assert_eq!(r.coefficients.len(), 2);
    a.pool_auto = false;
    a.pool = vec!["c".into()];
    let r = fit(&d, &data, &a);
    assert!(r.anova[2].pooled);
    assert_eq!(r.strata[0].df, 1);
}

#[test]
fn paired_bootstrap_contains_truth_and_repeats() {
    let mut d = design(&["a", "b"], "a*b");
    d.replicates = seeds(6);
    let data = factorial(&d, 6, |v, g| {
        let noise = [-3.0, -2.0, -1.0, 1.0, 2.0, 3.0][g];
        10.0 + 2.0 * v[0] + 3.0 * v[1] + v[0] * v[1] + noise + 0.1 * noise * v[0]
    });
    let mut a = args();
    a.bootstrap = Some(100);
    let first = fit(&d, &data, &a);
    let second = fit(&d, &data, &a);
    assert_eq!(format!("{first:?}"), format!("{second:?}"));
    let effect = first.coefficients.iter().find(|c| c.label == "a[1]").unwrap();
    assert!(effect.boot_low.unwrap() < 2.0 && effect.boot_high.unwrap() > 2.0);
    let p = &first.predictions[0];
    assert!(p.boot_low.unwrap() < 16.0 && p.boot_high.unwrap() > 16.0);
    assert!(first.warnings.is_empty());
}

#[test]
fn type_two_omits_containing_terms_and_reports_blocks() {
    let mut d = design(&["a", "b"], "a*b");
    d.replicates = seeds(2);
    let mut data = factorial(&d, 2, |v, g| {
        10.0 + 2.0 * v[0] + 3.0 * v[1] + v[0] * v[1] + g as f64
    });
    data.pop();
    let r = fit(&d, &data, &args());
    let cells = cells_of(&data);
    let y: Vec<f64> = data.iter().map(|o| f64::from_bits(o.y)).collect();
    let reduced = Model::parse("b", &d.factors).unwrap();
    let added = Model::parse("a+b", &d.factors).unwrap();
    let rss = |m: &Model| {
        let mm = model_matrix(&d.factors, &d.replicates, m, &cells, None);
        fit_least_squares(&numbers(&mm.data), &y).rss
    };
    close(r.anova[0].ss, rss(&reduced) - rss(&added));
    assert_eq!(r.anova.last().unwrap().term, "(blocks)");
}

#[test]
fn readme_three_factor_optimum_and_json_shape() {
    let d = design(
        &["learning_rate", "batch_size", "optimizer"],
        "learning_rate+batch_size+optimizer",
    );
    let data = factorial(&d, 2, |v, g| {
        20.0 + 4.0 * v[0] - 3.0 * v[1] + 2.0 * v[2] + if g == 0 { 0.1 } else { -0.1 }
    });
    let r = fit(&d, &data, &args());
    let optimum = r.recommendation.maximize.as_ref().unwrap();
    close(optimum.mean, 29.0);
    close(r.coefficients[0].se.unwrap(), (1.0_f64 / 1200.0).sqrt());
    assert!(r.coefficients[0].ci_low.unwrap() < 20.0);
    assert!(r.coefficients[0].ci_high.unwrap() > 20.0);
    assert_eq!(optimum.factors["batch_size"], "2");
    assert!(optimum.measured);
    assert!(text(&r).contains("MAXIMIZE"));
    assert_eq!(r.n_complete, 16);
    assert_eq!(r.predictions.len(), 8);
    close(r.predictions[0].observed_mean.unwrap(), 23.0);
}

#[test]
fn readme_mixed_level_example() {
    let mut d = design(&["cpu_freq", "cache_mb", "prefetch"], "cpu_freq+cache_mb+prefetch");
    let spec = "uniform[1.2,3.6,3]";
    let levels = answer(&Factor::request(spec));
    d.factors = vec![
        Factor::parse("cpu_freq", spec, &levels).unwrap(),
        Factor::parse("cache_mb", "d[2,4,8,16]", &Numbers::Absent).unwrap(),
        Factor::parse("prefetch", r#"d["off","soft","aggressive"]"#, &Numbers::Absent).unwrap(),
    ];
    let mut data = Vec::new();
    let mut levels = vec![0; 3];
    loop {
        for noise in [-0.1, 0.1] {
            let y = 10.0 + 2.0 * levels[0] as f64 + 3.0 * levels[1] as f64 - levels[2] as f64
                + noise;
            data.push(observation(levels.clone(), vec![], y));
        }
        if !advance(&mut levels, &d.factors) {
            break;
        }
    }
    let r = fit(&d, &data, &args());
    let best = r.recommendation.maximize.as_ref().unwrap();
    close(best.mean, 23.0);
    assert_eq!(best.factors["cpu_freq"], "3.6");
    assert_eq!(best.factors["cache_mb"], "16");
    assert_eq!(best.factors["prefetch"], "off");
    assert!(text(&r).contains("MAXIMIZE"));
}

#[test]
fn oversized_grid_keeps_measured_and_exact_recommendation_cells() {
    let names: Vec<_> = (0..17).map(|i| format!("f{i}")).collect();
    let refs: Vec<_> = names.iter().map(String::as_str).collect();
    let d = design(&refs, "f0");
    let data: Vec<_> = [(0, 11.9), (0, 12.1), (1, 7.9), (1, 8.1)]
        .into_iter()
        .map(|(l, y)| observation(vec![l; 17], vec![], y))
        .collect();
    let r = fit(&d, &data, &args());
    assert_eq!(r.predictions.len(), 3);
    assert_eq!(r.predictions.iter().filter(|p| p.measured).count(), 2);
    let best = r.recommendation.minimize.as_ref().unwrap();
    close(best.mean, 8.0);
    assert!(!best.measured);
    assert!(r.predictions.iter().any(|p| p.factors == best.factors));
    assert!(r.warnings.iter().any(|w| w.contains("100000")));
}

#[test]
fn csv_v1_v2_missing_and_invalid_cells() {
    let d = design(&["a", "b"], "a*b");
    for (header, id, expected) in [("experiment", "1", "3"), ("run_id", "r0001", "r0002")] {
        let second = if header == "experiment" { "2" } else { "r0002" };
        let csv = format!("{header},b,y,a\n{id},1,16,1.0\n{second},2,,1\n");
        let r = analyze(&d, &csv, &args()).unwrap();
        assert_eq!(r[0].missing_runs, [expected]);
        assert_eq!(r[0].n_complete, 1);
    }
    for raw in ["bad", "NaN", "inf"] {
        let err = analyze(&d, &format!("experiment,a,b,y\n1,1,1,{raw}\n"), &args())
            .unwrap_err()
            .to_text();
        assert!(err.contains("row 2") && err.contains("column 'y'"), "{err}");
    }
    let r = analyze(&d, "experiment,a,b,y\n1,1,1,\n", &args()).unwrap();
    assert_eq!(r[0].n_complete, 0);
    assert!(!evident(&r[0]));
    assert!(r[0].coefficients.iter().all(|c| !c.estimable));
}

#[test]
fn manifest_reports_deleted_rows_and_multiple_results_gate() {
    let mut d = design(&["a", "b"], "a+b");
    d.runs = vec![Run {
        run_id: "r0002".into(),
        order: 2,
        design_row: 1,
        factors: vec![],
        replicates: vec![],
        unit: None,
    }];
    let r = analyze(&d, "run_id,a,b,y\nr0001,1,1,2\n", &args()).unwrap();
    assert_eq!(r[0].missing_runs, ["r0002"]);
    d.results.push("flat".into());
    let csv = "experiment,a,b,y,flat\n1,1,1,12,10\n2,1,2,12,10\n3,2,1,8,10\n4,2,2,8,10\n";
    let mut a = args();
    a.tolerate_noise = Some(1.0);
    let r = analyze(&d, csv, &a).unwrap();
    assert!(evident(&r[0]));
    assert!(!evident(&r[1]));
    assert!(!r.iter().all(|r| !evident(r)));
}

#[test]
fn tolerate_noise_uses_resolved_term_cell_means() {
    let d = design(&["a", "b"], "a*b");
    let data = factorial(&d, 1, |v, _| 10.0 + 2.0 * v[0] * v[1]);
    let mut a = args();
    a.tolerate_noise = Some(3.0);
    let r = fit(&d, &data, &a);
    assert!(!r.anova[0].significant);
    assert!(!r.anova[1].significant);
    assert!(r.anova[2].significant);
    a.tolerate_noise = Some(4.0);
    assert!(!evident(&fit(&d, &data, &a)));
}

const LANDER_TERMS: [&str; 6] = [
    "denominator",
    "projection",
    "prior",
    "evaluation_mode",
    "denominator:projection",
    "prior:evaluation_mode",
];

fn lander() -> (Design, Sheet, String) {
    let opts = ConstructOpts { seed: Some(7), ..ConstructOpts::default() };
    let (d, csv, report) = construct(LANDER_DESIGN, &opts).unwrap();
    (d, fill_lander(&String::from_utf8(csv).unwrap()), report)
}

#[test]
fn construct_reports_estimability_and_writes_the_manifest() {
    let (d, t, report) = lander();
    let formula = "response ~ denominator + projection + prior + evaluation_mode + denominator:projection + prior:evaluation_mode";
    assert!(report.contains(formula), "{report}");
    assert!(report.contains("term"), "{report}");
    for term in LANDER_TERMS {
        let line = report
            .lines()
            .find(|l| l.trim_start().starts_with(&format!("{term} ")))
            .unwrap_or_else(|| panic!("no row for {term} in {report}"));
        assert!(line.contains("yes"), "{line}");
    }
    assert_eq!(t.rows.len(), 108);
    assert_eq!(
        t.header,
        [
            "run_id",
            "order",
            "denominator",
            "projection",
            "prior",
            "evaluation_mode",
            "seed",
            "checkpoint",
            "response"
        ]
    );
    assert_eq!(d.randomization_seed, Some(7));
    assert_eq!(d.models[0].formula, formula);
    assert_eq!(d.estimability.as_ref().unwrap().residual_df, 95);
    assert_eq!(d.runs.len(), 108);
    for (i, r) in d.runs.iter().enumerate() {
        assert!(r.run_id.starts_with('r'));
        assert_eq!(r.order, i + 1);
        assert!(r.unit.as_ref().is_some_and(|s| s.starts_with('u')));
        assert!(matches!(r.replicates[0].value, FactorValue::Int(_)));
    }
}

#[test]
fn analyze_recovers_the_customer_model() {
    let (d, t, _) = lander();
    let mut a = args();
    a.maximize = vec!["response".into()];
    let r = &analyze(&d, &t.render(), &a).unwrap()[0];
    assert_eq!(r.name, "response");
    assert_eq!(r.n_complete, 108);
    assert!(r.missing_runs.is_empty());
    let row = |term: &str| r.anova.iter().find(|a| a.term == term).unwrap();
    assert!(row("denominator:projection").significant);
    assert_eq!(row("denominator:projection").stratum, "whole-plot");
    assert_eq!(row("prior:evaluation_mode").stratum, "sub-plot");
    let names: Vec<&str> = r.strata.iter().map(|s| s.name.as_str()).collect();
    assert_eq!(names, ["between-unit", "within-unit"]);
    assert_eq!(r.predictions.len(), 2 * 3 * 2 * 3);
    let cols: Vec<usize> = LANDER_TERMS[..4].iter().map(|f| t.col(f)).collect();
    let cells: BTreeSet<Vec<&String>> =
        t.rows.iter().map(|row| cols.iter().map(|&c| &row[c]).collect()).collect();
    assert_eq!(cells.len(), r.predictions.len());
    for p in &r.predictions {
        assert!(p.measured);
        assert!(p.observed_mean.is_some());
    }
    let mut best: Option<(f64, [&str; 4])> = None;
    for d in ["a", "b"] {
        for p in ["p", "q", "r"] {
            for pr in ["flat", "learned"] {
                for m in ["greedy", "beam", "sample"] {
                    let v = truth(d, p, pr, m);
                    if best.is_none_or(|(bv, _)| v > bv) {
                        best = Some((v, [d, p, pr, m]));
                    }
                }
            }
        }
    }
    let expected: BTreeMap<String, String> = LANDER_TERMS[..4]
        .iter()
        .zip(best.unwrap().1)
        .map(|(k, v)| (k.to_string(), v.to_string()))
        .collect();
    assert_eq!(r.recommendation.maximize.as_ref().unwrap().factors, expected);
}

#[test]
fn analyze_reports_missing_runs() {
    let (d, mut t, _) = lander();
    let mut blanked = blank_one(&mut t);
    assert_eq!(blanked.len(), 3);
    let mut a = args();
    a.maximize = vec!["response".into()];
    let r = &analyze(&d, &t.render(), &a).unwrap()[0];
    let text = text(r);
    assert!(text.contains("Estimability under observed data"), "{text}");
    for term in LANDER_TERMS {
        assert!(text.contains(term), "{text}");
    }
    assert_eq!(r.n_complete, 105);
    let mut missing = r.missing_runs.clone();
    missing.sort();
    blanked.sort();
    assert_eq!(missing, blanked);
    let unmeasured: Vec<&Prediction> = r.predictions.iter().filter(|p| !p.measured).collect();
    assert_eq!(unmeasured.len(), 1);
    let f = &unmeasured[0].factors;
    assert_eq!(f["denominator"], "a");
    assert_eq!(f["projection"], "p");
    assert_eq!(f["prior"], "flat");
    assert_eq!(f["evaluation_mode"], "greedy");
    assert!(unmeasured[0].mean.is_finite());
    assert!(unmeasured[0].observed_mean.is_none());
}

#[test]
fn saturated_design_needs_explicit_pooling() {
    let src = r#"[factors]
a = d["lo","hi"]
b = d["lo","hi"]
c = d["lo","hi"]

[model]
y ~ a + b + c

[results]
y
"#;
    let opts = ConstructOpts { seed: Some(1), no_shuffle: true, ..ConstructOpts::default() };
    let (d, csv, report) = construct(src, &opts).unwrap();
    assert!(report.contains("residual df: 0"), "{report}");
    let mut t = Sheet::parse(&String::from_utf8(csv).unwrap());
    let (iy, ia, ib, ic) = (t.col("y"), t.col("a"), t.col("b"), t.col("c"));
    let pm = |v: &str| if v == "hi" { 1.0 } else { -1.0 };
    for row in t.rows.iter_mut() {
        let y = 10.0 + 5.0 * pm(&row[ia]) + 0.1 * pm(&row[ib]) + 0.05 * pm(&row[ic]);
        row[iy] = format!("{y:.6}");
    }
    let mut a = args();
    a.maximize = vec!["y".into()];
    let refused = analyze(&d, &t.render(), &a).unwrap();
    assert!(!refused.iter().any(evident));
    let shown = text(&refused[0]);
    assert!(shown.contains("insufficient evidence under this model"), "{shown}");
    assert!(shown.contains("--pool-auto"), "{shown}");
    a.pool_auto = true;
    let pooled = analyze(&d, &t.render(), &a).unwrap();
    assert!(pooled.iter().any(evident));
    let shown = text(&pooled[0]);
    assert!(shown.contains("[pooled]"), "{shown}");
    assert!(shown.contains("MAXIMIZE"), "{shown}");
}

#[test]
fn analyze_accepts_a_version_1_sidecar() {
    let mut d = design(&["a", "b"], "a");
    d.models.clear();
    d.factors = vec![
        Factor::parse("a", r#"d["lo","hi"]"#, &Numbers::Absent).unwrap(),
        Factor::parse("b", r#"d["lo","hi"]"#, &Numbers::Absent).unwrap(),
    ];
    let csv = "experiment,a,b,y\n1,lo,lo,4.91\n2,lo,hi,5.09\n3,hi,lo,14.89\n4,hi,hi,15.11\n";
    let mut args = args();
    args.maximize = vec!["y".into()];
    let r = &analyze(&d, csv, &args).unwrap()[0];
    assert_eq!(r.model, ". ~ a + b");
    assert_eq!(r.n_complete, 4);
    let a = r.anova.iter().find(|x| x.term == "a").unwrap();
    assert!(a.significant);
    assert_eq!(r.recommendation.maximize.as_ref().unwrap().factors["a"], "hi");
}

#[test]
fn requests_of_the_analysis_are_checked() {
    assert_eq!(ONE, 1.0_f64.to_bits());
    for bad in [0.0, 1.0, -0.5, f64::NAN, f64::INFINITY] {
        assert!(check_alpha(bad.to_bits()).is_err(), "{bad}");
    }
    assert!(check_alpha(0.05_f64.to_bits()).is_ok());
    assert!(check_noise(None).is_ok());
    assert!(check_noise(Some(0.0_f64.to_bits())).is_ok());
    assert!(check_noise(Some((-1.0_f64).to_bits())).is_err());
    assert!(check_noise(Some(f64::NAN.to_bits())).is_err());
    let names = vec!["y".to_string()];
    assert!(check_names(&names, &names).is_ok());
    let e = check_names(&vec!["z".into()], &names).unwrap_err().to_text();
    assert!(e.contains("'z'"), "{e}");
    let d = design(&["a"], "a");
    let e = analyze(&d, "run_id,a,y\nr1,7,1\n", &args()).unwrap_err().to_text();
    assert!(e.contains("row 2"), "{e}");
    let mut a = args();
    a.pool = vec!["q".into()];
    let e = analyze(&d, "run_id,a,y\nr1,1,1\n", &a).unwrap_err().to_text();
    assert!(e.contains("q"), "{e}");
    // A record that cannot be read is reported after the cells before it.
    let e = analyze(&d, "run_id,a,y\nr1,1,1\nr2,1\n", &args()).unwrap_err().to_text();
    assert!(e.contains("fields"), "{e}");
    let e = analyze(&d, "run_id,a,y\nr1,1,bad\nr2,1\n", &args()).unwrap_err().to_text();
    assert!(e.contains("column 'y'"), "{e}");
}

#[test]
fn groups_keep_rows_in_order() {
    let cells: Vec<Cell> = [0, 1, 0, 2, 1]
        .iter()
        .map(|&l| Cell { factor_levels: vec![l], replicate_levels: vec![l] })
        .collect();
    let groups = groups_on(&cells, &vec![0]);
    let shown: Vec<_> = groups.iter().map(|g| (g.key.clone(), g.rows.clone())).collect();
    assert_eq!(shown, [(vec![0], vec![0, 2]), (vec![1], vec![1, 4]), (vec![2], vec![3])]);
    let sample = take_resample(&cells, &groups_of_first_role(&cells), &vec![1, 1, 0]);
    assert_eq!(sample.rows, [1, 4, 1, 4, 0, 2]);
    let blocks: Vec<_> = sample.cells.iter().map(|c| c.replicate_levels[0]).collect();
    assert_eq!(blocks, [0, 0, 1, 1, 2, 2]);
    let role = drawn_role(&seeds(2)[0], 3);
    assert_eq!(role.name, "seed");
    assert_eq!(role.levels.len(), 3);
    assert_eq!(draw_groups(&mut Rng::new(3), 4), draw_groups(&mut Rng::new(3), 4));
}

#[test]
fn resampled_columns_have_places() {
    // Three levels are two block columns; five draws are four.
    assert_eq!(resampled_place(0, 3, 5), Some(0));
    assert_eq!(resampled_place(2, 3, 5), Some(2));
    assert_eq!(resampled_place(3, 3, 5), Some(5));
    assert_eq!(resampled_place(2, 3, 2), None);
    assert_eq!(resampled_place(3, 3, 2), Some(2));
    let mut roles = seeds(3);
    roles.push(ReplicateRole { name: "day".into(), levels: vec![FactorValue::Int(7)] });
    let drawn = drawn_roles(&roles, 5);
    assert_eq!(drawn[0].levels.len(), 5);
    assert_eq!(drawn[1].name, "day");
    assert!(drawn[1].levels[0].same(&FactorValue::Int(7)));
    let d = design(&["a", "b"], "a+b");
    let m = &d.models[0];
    let cell = |g: usize| {
        vec![Cell { factor_levels: vec![0, 0], replicate_levels: vec![g, 0] }]
    };
    let before = model_matrix(&d.factors, &roles, m, &cell(0), None);
    let after = model_matrix(&d.factors, &drawn, m, &cell(4), None);
    for j in 3..before.columns.len() {
        let k = resampled_place(j, 3, 5).unwrap();
        assert_eq!(before.columns[j].label, after.columns[k].label);
    }
}

#[test]
fn resamples_need_roles_and_groups() {
    assert_eq!(plan_resamples(None, true, 5), (1000, None));
    assert_eq!(plan_resamples(None, false, 0), (0, None));
    assert_eq!(plan_resamples(Some(0), true, 2), (0, None));
    assert!(plan_resamples(Some(10), true, 1).1.is_some());
    assert_eq!(resample_seed(Some(3), Some(4)), 3);
    assert_eq!(resample_seed(None, Some(4)), 4);
}

#[test]
fn tests_and_pooling_follow_the_mean_squares() {
    let b = |x: f64| Some(x.to_bits());
    assert_eq!(choose_test(false, b(2.0), b(1.0)), Test::Ratio);
    assert_eq!(choose_test(true, b(2.0), b(1.0)), Test::Untested);
    assert_eq!(choose_test(false, b(2.0), None), Test::Untested);
    assert_eq!(choose_test(false, b(2.0), b(0.0)), Test::Infinite);
    assert!(is_significant(false, b(0.01), 0.05_f64.to_bits(), None, 0));
    assert!(!is_significant(false, b(0.06), 0.05_f64.to_bits(), None, 0));
    assert!(!is_significant(true, b(0.01), 0.05_f64.to_bits(), None, 0));
    let ss: Vec<u64> = [3.0, 1.0, 2.0, 9.0].iter().map(|x: &f64| x.to_bits()).collect();
    let marks = pool_smallest(vec![false; 4], &vec![0; 4], &ss, &vec![0]);
    assert_eq!(marks, [false, true, true, false]);
    assert!(has_evidence(&vec![false, true]));
    assert!(!has_evidence(&vec![]));
    assert_eq!(strata_names(false), ["residual"]);
    assert_eq!(stratum_label(true, 0), "whole-plot");
    assert_eq!(rank_gain(2, 3), 0);
}

#[test]
fn columns_follow_the_part_that_is_fitted() {
    let d = design(&["a", "b"], "a*b");
    let m = &d.models[0];
    let mut levels = vec![0, 0];
    let mut cells = Vec::new();
    loop {
        cells.push(Cell { factor_levels: levels.clone(), replicate_levels: vec![] });
        if !advance(&mut levels, &d.factors) {
            break;
        }
    }
    assert_eq!(cells.len(), 4);
    assert_eq!(levels, [0, 0], "the walk ends where it began");
    let mm = model_matrix(&d.factors, &[], m, &cells, None);
    let taken = |part: Part| columns_taken(&mm, part, m, &vec![0; 3], &vec![false, true, false]);
    assert_eq!(taken(Part::Without { term: 0 }), [0, 2]);
    assert_eq!(taken(Part::With { term: 0 }), [0, 1, 2]);
    assert_eq!(taken(Part::With { term: 2 }), [0, 1, 2, 3]);
    assert_eq!(taken(Part::Active), [0, 1, 3]);
    assert_eq!(taken(Part::Intercept), [0]);
    assert_eq!(subset(&mm, &vec![0, 3])[1], [1, -1]);
    assert_eq!(prediction_row(&d.factors, &[], m, &vec![1, 0], &vec![0, 1, 2, 3]), [1, -1, 1, -1]);
}

#[test]
fn reports_show_every_part() {
    let d = design(&["a", "b"], "a+b");
    let data = factorial(&d, 2, |v, g| 10.0 + 2.0 * v[0] + if g == 0 { 0.1 } else { -0.1 });
    let shown = text(&fit(&d, &data, &args()));
    for part in ["y", ". ~ a + b", "residual", "a[1]", "MAXIMIZE", "MINIMIZE"] {
        assert!(shown.contains(part), "{part} in {shown}");
    }
}

#[test]
fn the_walk_visits_every_combination() {
    let factors = vec![
        Factor::parse("a", "d[1,2]", &Numbers::Absent).unwrap(),
        Factor::parse("b", "d[1,2,3]", &Numbers::Absent).unwrap(),
    ];
    let mean = |l: &Vec<usize>| 10.0 * l[0] as f64 - l[1] as f64;
    let walk = walk_grid(&factors, &vec![vec![0, 1]], &|l: &Vec<usize>| {
        (mean(l).to_bits(), *l != vec![1, 0])
    });
    assert!(!walk.capped);
    assert_eq!(
        walk.kept,
        [[0, 0], [0, 1], [0, 2], [1, 0], [1, 1], [1, 2]].map(|l| l.to_vec()).to_vec()
    );
    assert_eq!(walk.highest.as_ref().map(|p| p.levels.clone()), Some(vec![1, 1]));
    assert_eq!(walk.lowest.as_ref().map(|p| f64::from_bits(p.mean)), Some(-2.0));
    let many: Vec<Factor> =
        (0..17)
            .map(|i| Factor::parse(&format!("f{i}"), "d[1,2]", &Numbers::Absent).unwrap())
            .collect();
    let some: Vec<usize> = (0..17).map(|i| i % 2).collect();
    let walk = walk_grid(&many, &vec![some.clone()], &|l: &Vec<usize>| {
        ((l.iter().sum::<usize>() as f64).to_bits(), true)
    });
    assert!(walk.capped);
    assert_eq!(walk.kept, [some.clone()]);
    assert_eq!(walk.finish(&many), [some, vec![1; 17], vec![0; 17]]);
}
