use taguchi::augment::{
    added_terms, base_cells, best_candidate, candidate_cells, choose_runs, collect_units,
    combinations_in_range, estimability_text, has_room, level_index, open_augmentation,
    opening_text, parse_id, target_label, target_names, target_terms, targets_met, targets_text,
    union_model, unit_numbers_in_range, widened_text, write_up, AugmentArgs, Candidates, Gain,
    Table, Units, CANDIDATE_CAP,
};
use taguchi::construct::{
    apply_cli, file_requests, new_design, parse_design_file, plan_design, replicate_request,
    ConstructOpts, Design, ParsedDesign,
};
use taguchi::design_select::{select, union_model as union_of};
use taguchi::factor::{
    Factor, FactorKind, FactorValue, FloatLevel, Numbers, Request, Scale, ScaleNumbers,
};
use taguchi::oa::bush::bush_at;
use taguchi::oa::gf::Gf;
use taguchi::oa::lookup::{build_index, CatalogEntry};
use taguchi::csv_text::{parse_table, table_bytes};
use taguchi::error::Error;
use taguchi::model::{
    estimability, model_matrix, Estimability, Model, ModelMatrix, RankReport, ReplicateRole, Unit,
};
use taguchi::oa::ArrayInfo;
use taguchi::rng::Rng;
use nalgebra::Cholesky;
use nalgebra::DMatrix;
use taguchi::model::estimability::{block_column_numbers, matrix_without, term_column_numbers};

struct Decomposition {
    singular: Vec<f64>,
    u: DMatrix<f64>,
    vt: DMatrix<f64>,
    rank: usize,
    tolerance: f64,
}

fn numbers(rows: &[Vec<i64>]) -> Vec<Vec<f64>> {
    rows.iter().map(|r| r.iter().map(|&v| v as f64).collect()).collect()
}

fn decompose(x: &[Vec<f64>], p: usize) -> Decomposition {
    if p == 0 || x.is_empty() {
        return Decomposition {
            singular: vec![0.0; p],
            u: DMatrix::zeros(x.len().max(p), p),
            vt: DMatrix::identity(p, p),
            rank: 0,
            tolerance: 0.0,
        };
    }
    let a = DMatrix::from_fn(x.len().max(p), p, |i, j| if i < x.len() { x[i][j] } else { 0.0 });
    let svd = a.svd(true, true);
    let singular = svd.singular_values.as_slice().to_vec();
    let tolerance = 1e-10 * singular.iter().copied().fold(0.0, f64::max) * x.len().max(p) as f64;
    let rank = singular.iter().filter(|&&s| s > tolerance).count();
    Decomposition { singular, u: svd.u.unwrap(), vt: svd.v_t.unwrap(), rank, tolerance }
}

fn null_basis(x: &[Vec<f64>], p: usize, tolerance: f64) -> Vec<Vec<f64>> {
    let mut rref = x.to_vec();
    let mut pivots: Vec<usize> = Vec::new();
    for column in 0..p {
        let row = pivots.len();
        let best = (row..rref.len())
            .map(|r| (r, rref[r][column].abs()))
            .max_by(|a, b| a.1.total_cmp(&b.1));
        let Some((at, size)) = best else { break };
        if size <= tolerance {
            continue;
        }
        rref.swap(row, at);
        let pivot = rref[row][column];
        for v in &mut rref[row] {
            *v /= pivot;
        }
        let values = rref[row].clone();
        for (r, other) in rref.iter_mut().enumerate() {
            if r != row {
                let scale = other[column];
                for (v, w) in other.iter_mut().zip(&values) {
                    *v -= scale * w;
                }
            }
        }
        pivots.push(column);
    }
    (0..p)
        .filter(|c| !pivots.contains(c))
        .map(|free| {
            let mut v = vec![0.0; p];
            v[free] = 1.0;
            for (row, &c) in pivots.iter().enumerate() {
                v[c] = -rref[row][free];
            }
            v
        })
        .collect()
}

fn ranks(mm: &ModelMatrix, terms: usize) -> RankReport {
    let p = mm.columns.len();
    let x = numbers(&mm.data);
    let d = decompose(&x, p);
    let without =
        |drop: &[usize]| decompose(&numbers(&matrix_without(mm, drop)), p - drop.len()).rank;
    RankReport {
        rank: d.rank,
        without_terms: (0..terms).map(|t| without(&term_column_numbers(mm, t))).collect(),
        without_blocks: without(&block_column_numbers(mm)),
        null_supports: null_basis(&x, p, d.tolerance)
            .into_iter()
            .map(|v| v.iter().map(|c| c.abs() > 1e-8).collect())
            .collect(),
    }
}

/// The body of a catalog file.
fn body(rows: &[Vec<usize>]) -> String {
    rows.iter()
        .map(|r| r.iter().map(|v| v.to_string()).collect::<Vec<_>>().join(" "))
        .collect::<Vec<_>>()
        .join("\n")
}

/// The Plackett–Burman array of twelve runs.
fn plackett_burman() -> Vec<Vec<usize>> {
    let first = [1, 1, 0, 1, 1, 1, 0, 0, 0, 1, 0];
    let mut rows: Vec<Vec<usize>> =
        (0..11).map(|i| (0..11).map(|j| first[(j + 11 - i) % 11]).collect()).collect();
    rows.push(vec![0; 11]);
    rows
}

/// The seven three-level columns of the array of eighteen runs.
fn eighteen() -> Vec<Vec<usize>> {
    [
        "1111111", "1222222", "1333333", "2112233", "2223311", "2331122", "3121323", "3232131",
        "3313212", "1133221", "1211332", "1322113", "2123132", "2231213", "2312321", "3132312",
        "3213123", "3321231",
    ]
    .iter()
    .map(|s| s.bytes().map(|b| (b - b'1') as usize).collect())
    .collect()
}

fn bush_rows(q: usize, k: usize) -> Vec<Vec<usize>> {
    bush_at(&Gf::new(q).unwrap(), k)
}

fn catalog_files() -> Vec<(String, String)> {
    vec![
        ("oa.4.3.2.2.txt".to_string(), body(&bush_rows(2, 2))),
        ("oa.8.7.2.2.txt".to_string(), body(&bush_rows(2, 3))),
        ("oa.9.4.3.2.txt".to_string(), body(&bush_rows(3, 2))),
        ("oa.12.11.2.2.txt".to_string(), body(&plackett_burman())),
        ("oa.16.15.2.2.txt".to_string(), body(&bush_rows(2, 4))),
        ("oa.18.7.3.2.txt".to_string(), body(&eighteen())),
        ("MA.36.3.4.2.3.txt".to_string(), body(&mixed())),
    ]
}

/// Four three-level and three two-level columns in thirty-six runs.
fn mixed() -> Vec<Vec<usize>> {
    let (nine, four) = (bush_rows(3, 2), bush_rows(2, 2));
    let mut rows = Vec::new();
    for a in &nine {
        for b in &four {
            rows.push(a.iter().chain(b).copied().collect());
        }
    }
    rows
}

fn catalog() -> Vec<CatalogEntry> {
    build_index(&catalog_files())
}

fn float_text(x: f64) -> String {
    if x.fract() == 0.0 && x.abs() < 1e15 {
        format!("{}", x as i64)
    } else {
        let s = format!("{x:.6}");
        s.trim_end_matches('0').trim_end_matches('.').to_string()
    }
}

fn level(x: f64) -> FloatLevel {
    FloatLevel { bits: x.to_bits(), text: float_text(x) }
}

fn answer(request: &Request) -> Numbers {
    match request {
        Request::Nothing => Numbers::Absent,
        Request::Floats(texts) => {
            Numbers::Floats(texts.iter().map(|t| t.parse::<f64>().ok().map(level)).collect())
        }
        Request::Levels { scale, args } => {
            let p: Vec<f64> = args.iter().map(|a| a.parse().unwrap()).collect();
            let (low, high, n) = (p[0], p[1], p[2] as usize);
            let (l, h) = (low.to_bits(), high.to_bits());
            let spaced = |f: &dyn Fn(f64) -> f64| {
                (0..n).map(|i| level(f(i as f64 / (n - 1) as f64))).collect::<Vec<_>>()
            };
            let ratio = high / low;
            Numbers::Levels(Ok(match scale {
                Scale::LogLow => ScaleNumbers {
                    kind: FactorKind::LogLow { low: l, high: h },
                    levels: spaced(&|t| low * ratio.powf(t)),
                },
                Scale::LogHigh => ScaleNumbers {
                    kind: FactorKind::LogHigh { low: l, high: h },
                    levels: spaced(&|t| high + low - low * ratio.powf(1.0 - t)),
                },
                _ => ScaleNumbers {
                    kind: FactorKind::Uniform { low: l, high: h },
                    levels: spaced(&|t| low + t * (high - low)),
                },
            }))
        }
    }
}

fn parse(src: &str) -> Result<ParsedDesign, Error> {
    let lines: Vec<String> = src.lines().map(str::to_owned).collect();
    let numbers: Vec<Numbers> = file_requests(&lines).iter().map(answer).collect();
    parse_design_file("fixture.design", &lines, &numbers)
}

/// A design from a file, without its I/O: the design, the table and the report.
fn construct(src: &str, opts: &ConstructOpts) -> Result<(Design, Vec<u8>, String), Error> {
    let numbers: Vec<Numbers> =
        opts.replicates.iter().map(|r| answer(&replicate_request(r))).collect();
    let parsed = apply_cli(parse(src)?, opts, &numbers)?;
    let terms = union_of(&parsed.models, &parsed.factors).terms.len();
    let probe = |mm: &ModelMatrix| ranks(mm, terms);
    let s = select(
        &parsed.factors,
        &parsed.models,
        &parsed.replicates,
        parsed.unit.as_ref(),
        &opts.select_opts(),
        &catalog(),
        &probe,
    )
    .map_err(|e| Error::new(&e.to_text()))?;
    let seed = opts.seed.unwrap_or(1234);
    let plan = plan_design(&parsed, &s.cells, s.selected.array.len(), seed, opts.no_shuffle);
    let bytes = plan.to_bytes()?;
    Ok((new_design(parsed, s.selected.info, s.estimability, seed, plan.runs), bytes, s.report))
}

const LANDER_DESIGN: &str = r#"[factors]
denominator     = d["a","b"]
projection      = d["p","q","r"]
prior           = d["flat","learned"]
evaluation_mode = d["greedy","beam","sample"]

[model]
response ~ denominator * projection + prior * evaluation_mode

[replicates]
seed = 3

[units]
checkpoint = denominator, projection, prior, seed

[results]
response
"#;

/// A table whose cells hold no commas and no quotes.
struct Sheet {
    header: Vec<String>,
    rows: Vec<Vec<String>>,
}

impl Sheet {
    fn parse(text: &str) -> Sheet {
        let split = |l: &str| l.split(',').map(str::to_owned).collect::<Vec<String>>();
        let mut lines = text.lines();
        Sheet { header: split(lines.next().unwrap()), rows: lines.map(split).collect() }
    }

    fn col(&self, name: &str) -> usize {
        self.header.iter().position(|c| c == name).unwrap()
    }

    fn render(&self) -> String {
        let mut out = self.header.join(",");
        out.push('\n');
        for r in &self.rows {
            out.push_str(&r.join(","));
            out.push('\n');
        }
        out
    }
}

fn den(v: &str) -> f64 {
    if v == "b" { 1.0 } else { -1.0 }
}

fn proj(v: &str) -> f64 {
    match v {
        "p" => -1.0,
        "q" => 0.0,
        _ => 1.0,
    }
}

fn pri(v: &str) -> f64 {
    if v == "learned" { 1.0 } else { -1.0 }
}

fn mode(v: &str) -> f64 {
    match v {
        "greedy" => -1.0,
        "beam" => 0.0,
        _ => 1.0,
    }
}

fn truth(d: &str, p: &str, pr: &str, m: &str) -> f64 {
    50.0 + 4.0 * den(d)
        + 2.0 * proj(p)
        + 1.5 * pri(pr)
        + 2.0 * mode(m)
        + 3.0 * den(d) * proj(p)
        + 1.0 * pri(pr) * mode(m)
}

fn seed_offset(seed: &str) -> f64 {
    match seed {
        "1" => -0.8,
        "2" => 0.0,
        _ => 0.8,
    }
}

fn noise(i: usize) -> f64 {
    0.01 * (((i * 37) % 17) as f64 - 8.0)
}

/// Fills the response of a constructed table.
fn fill_lander(csv: &str) -> Sheet {
    let mut t = Sheet::parse(csv);
    let at = |name: &str| t.col(name);
    let ri = at("response");
    let (cd, cp, cr, cm, cs) =
        (at("denominator"), at("projection"), at("prior"), at("evaluation_mode"), at("seed"));
    for (i, row) in t.rows.iter_mut().enumerate() {
        let v = truth(&row[cd], &row[cp], &row[cr], &row[cm]) + seed_offset(&row[cs]) + noise(i);
        row[ri] = format!("{v:.6}");
    }
    t
}

/// Blanks one combination of the factors, and gives the runs.
fn blank_one(t: &mut Sheet) -> Vec<String> {
    let ri = t.col("response");
    let cols = ["denominator", "projection", "prior", "evaluation_mode"].map(|c| t.col(c));
    let mut blanked = Vec::new();
    for row in t.rows.iter_mut() {
        if cols.map(|c| row[c].as_str()) == ["a", "p", "flat", "greedy"] {
            blanked.push(row[0].clone());
            row[ri].clear();
        }
    }
    blanked
}

fn two_level(names: &[&str]) -> Vec<Factor> {
    names.iter().map(|n| Factor::parse(n, "d[1,2]", &Numbers::Absent).unwrap()).collect()
}

fn fixture_design(names: &[&str], formulas: &[&str]) -> Design {
    let factors = two_level(names);
    Design {
        version: 2,
        models: formulas.iter().map(|f| Model::parse(f, &factors).unwrap()).collect(),
        replicates: Vec::new(),
        unit: None,
        array: ArrayInfo {
            rows: 4,
            cols: factors.len(),
            label: "L4".into(),
            method: "fixture".into(),
        },
        randomization_seed: Some(7),
        estimability: None,
        runs: Vec::new(),
        augmentations: Vec::new(),
        results: vec!["y".to_string()],
        factors,
    }
}

fn args() -> AugmentArgs {
    AugmentArgs {
        csv_path: "exp.csv".into(),
        design_path: None,
        targets: Vec::new(),
        runs: None,
        seed: Some(1),
        include_pending: false,
        output: "aug.csv".into(),
    }
}

fn near(table: &Table, design: &Design) -> Vec<Vec<Vec<bool>>> {
    let flags = |row: &[String], col: usize, values: &[FactorValue]| {
        values
            .iter()
            .map(|v| match (v, row[col].trim().parse::<f64>()) {
                (FactorValue::Int(n), Ok(c)) => (c - *n as f64).abs() < 1e-9,
                _ => false,
            })
            .collect::<Vec<bool>>()
    };
    table
        .rows
        .iter()
        .map(|row| {
            let mut all = Vec::new();
            for (f, &c) in design.factors.iter().zip(&table.factor_col) {
                all.push(flags(row, c, &f.values));
            }
            for (r, &c) in design.replicates.iter().zip(&table.role_col) {
                all.push(flags(row, c, &r.levels));
            }
            all
        })
        .collect()
}

fn contains(d: &Decomposition, v: &[f64]) -> bool {
    let norm = v.iter().map(|x| x * x).sum::<f64>().sqrt();
    let out = (d.rank..v.len())
        .map(|k| v.iter().enumerate().map(|(j, x)| d.vt[(k, j)] * x).sum::<f64>().powi(2))
        .sum::<f64>()
        .sqrt();
    out <= 1e-8 * norm.max(1.0)
}

fn information(x: &[Vec<f64>], p: usize) -> (DMatrix<f64>, f64) {
    let m = DMatrix::from_fn(x.len(), p, |i, j| x[i][j]);
    let a = m.transpose() * &m + DMatrix::identity(p, p) * 1e-8;
    let c = Cholesky::new(a).unwrap();
    let log_det = 2.0 * c.l().diagonal().iter().map(|d| d.ln()).sum::<f64>();
    (c.inverse(), log_det)
}

fn gains(now: &ModelMatrix, cand: &ModelMatrix, aimed: &[usize]) -> Result<Vec<Gain>, Error> {
    let p = now.columns.len();
    let rest: Vec<usize> = (0..p).filter(|j| !aimed.contains(j)).collect();
    let pick = |row: &Vec<f64>| rest.iter().map(|&j| row[j]).collect::<Vec<f64>>();
    let x = numbers(&now.data);
    let full = decompose(&x, p);
    let partial = decompose(&x.iter().map(pick).collect::<Vec<_>>(), rest.len());
    let (inverse, _) = information(&x, p);
    Ok(numbers(&cand.data)
        .iter()
        .map(|row| {
            let v = nalgebra::DVector::from_vec(row.clone());
            let q = (v.transpose() * &inverse * &v)[(0, 0)];
            Gain {
                new_row: !contains(&full, row),
                new_rest: !contains(&partial, &pick(row)),
                d_gain: (1.0 + q).ln().to_bits(),
            }
        })
        .collect())
}

struct Outcome {
    added: usize,
    targets: Vec<String>,
    targets_estimable: bool,
    before: Estimability,
    after: Estimability,
    log_det_before: f64,
    log_det_after: f64,
    run_ids: Vec<String>,
    renumbered: bool,
    text: String,
    design: Design,
}

/// An augmentation, without its I/O.
fn augment(csv: &str, design: Design, args: AugmentArgs) -> Result<Outcome, Error> {
    args.check()?;
    let table = parse_table(csv.as_bytes(), &design)?;
    let flags = near(&table, &design);
    let seed = args.seed_or(design.randomization_seed, 0);
    let mut rng = Rng::new(seed);
    let opening =
        open_augmentation(&table, &design, &flags, &args.targets, args.include_pending)?;
    let (base, labels, model) = (opening.base, opening.labels, opening.model);
    let n = model.terms.len();
    let probe = |mm: &ModelMatrix| ranks(mm, n);
    let matrix = model_matrix(&design.factors, &design.replicates, &model, &base, None);
    let before = estimability(&matrix, &model, &design.factors, &probe(&matrix));
    let terms = target_terms(&model, &design.factors, &labels, &before, args.runs)?;
    let targets = target_names(&model, &design.factors, &terms);
    assert!(combinations_in_range(&design.factors, &design.replicates));
    let candidates = candidate_cells(&design.factors, &design.replicates, &mut rng);
    let cand = model_matrix(&design.factors, &design.replicates, &model, &candidates.cells, None);
    let p = matrix.columns.len();
    let log_det_before = information(&numbers(&matrix.data), p).1;
    let score = |now: &ModelMatrix, c: &ModelMatrix, aimed: &Vec<usize>| gains(now, c, aimed);
    let choice = choose_runs(
        &matrix, &cand, &model, &design.factors, &terms, args.runs, &probe, &score,
    )?;
    let log_det_after = information(&numbers(&choice.matrix.data), p).1;
    let added = choice.picks.len();
    assert!(has_room(&table, &design, added));
    let cells = candidates.pick(&choice.picks);
    let written = write_up(&table, design, &flags, &cells, seed, targets.clone())?;
    let text = String::from_utf8(table_bytes(&table.headers, &written.records)?).unwrap();
    let targets_estimable = targets_met(&choice.after, &terms);
    let plan = written.plan;
    assert_eq!(widened_text(&plan).is_some(), plan.rewritten.is_some());
    let run_ids = plan.new_ids.clone();
    let renumbered = plan.rewritten.is_some();
    let design = written.design;
    Ok(Outcome {
        added,
        targets,
        targets_estimable,
        before,
        after: choice.after,
        log_det_before,
        log_det_after,
        run_ids,
        renumbered,
        text,
        design,
    })
}

const HALF: &str = "run_id,order,a,b,c,y\n\
    r0001,1,1,1,1,1.0\n\
    r0002,2,1,2,2,2.0\n\
    r0003,3,2,1,2,3.5\n\
    r0004,4,2,2,1,4.0\n";

const SQUARE: &str = "run_id,order,a,b,y\n\
    r0001,1,1,1,1.0\n\
    r0002,2,1,2,2.0\n\
    r0003,3,2,1,3.0\n\
    r0004,4,2,2,4.0\n";

#[test]
fn half_fraction_alias_is_resolved() {
    let design = fixture_design(&["a", "b", "c"], &["y ~ a + b + c + a:b"]);
    let factors = two_level(&["a", "b", "c"]);
    let outcome =
        augment(HALF, design, AugmentArgs { targets: vec!["a:b".to_string()], ..args() }).unwrap();
    let find = |e: &Estimability| {
        e.terms.iter().position(|t| t.term.label(&factors) == "a:b").unwrap()
    };
    let interaction = &outcome.before.terms[find(&outcome.before)];
    assert!(!interaction.estimable, "a:b must start out aliased");
    assert!(interaction.aliased_with.contains(&"c".to_string()));
    assert!(outcome.added >= 1 && outcome.added <= 4, "got {}", outcome.added);
    assert!(outcome.targets_estimable, "a:b must be estimable after");
    assert!(outcome.after.terms[find(&outcome.after)].estimable);
    assert!(!outcome.renumbered);

    let lines: Vec<&str> = outcome.text.lines().collect();
    assert_eq!(lines[0], "run_id,order,a,b,c,y");
    assert_eq!(lines[1], "r0001,1,1,1,1,1.0");
    assert_eq!(lines[4], "r0004,4,2,2,1,4.0");
    assert_eq!(lines.len(), 5 + outcome.added);
    assert!(lines[5].starts_with("r0005,5,"), "got {}", lines[5]);
    assert!(lines[5].ends_with(','), "result cell must stay empty");

    let side = &outcome.design;
    assert_eq!(side.augmentations[0].targets, ["a:b"]);
    assert_eq!(side.augmentations[0].seed, 1);
    assert_eq!(side.augmentations[0].run_ids.len(), outcome.added);
    assert_eq!(side.runs.len(), outcome.added);
    assert_eq!(side.runs[0].run_id, "r0005");
    assert_eq!(side.runs[0].design_row, usize::MAX);
}

#[test]
fn pure_d_gain_needs_runs_and_improves_the_determinant() {
    let design = || fixture_design(&["a", "b"], &["y ~ a + b + a:b"]);
    let refused = augment(SQUARE, design(), args()).err().unwrap().to_text();
    assert!(refused.contains("--runs"), "got: {refused}");
    let outcome = augment(SQUARE, design(), AugmentArgs { runs: Some(4), ..args() }).unwrap();
    assert!(outcome.before.terms.iter().all(|t| t.estimable));
    assert_eq!(outcome.added, 4);
    assert!(outcome.targets_estimable);
    assert!(outcome.log_det_after > outcome.log_det_before);
    assert_eq!(outcome.run_ids, ["r0005", "r0006", "r0007", "r0008"]);
    assert_eq!(outcome.text.lines().count(), 9);
}

#[test]
fn version_one_sidecar_and_experiment_column() {
    let csv = "experiment,a,b,c,y\n1,1,1,1,1.0\n2,1,2,2,2.0\n3,2,1,2,3.0\n4,2,2,1,4.0\n";
    let mut design = fixture_design(&["a", "b", "c"], &[]);
    design.randomization_seed = None;
    let outcome =
        augment(csv, design, AugmentArgs { runs: Some(2), seed: Some(3), ..args() }).unwrap();
    assert_eq!(outcome.added, 2);
    assert!(outcome.targets_estimable);
    assert_eq!(outcome.before.terms.len(), 3);
    let lines: Vec<&str> = outcome.text.lines().collect();
    assert_eq!(lines[0], "experiment,a,b,c,y");
    assert_eq!(lines[1], "1,1,1,1,1.0");
    assert_eq!(lines.len(), 7);
    assert!(lines[5].starts_with("5,"), "got {}", lines[5]);
    assert!(lines[6].starts_with("6,"), "got {}", lines[6]);
    assert_eq!(outcome.design.version, 2);
    assert_eq!(outcome.design.runs.len(), 2);
    assert_eq!(outcome.design.runs[0].run_id, "r0005");
    assert_eq!(outcome.design.runs[0].order, 5);
}

#[test]
fn same_seed_gives_the_same_rows() {
    let run = || {
        let design = fixture_design(&["a", "b", "c"], &["y ~ a + b + c + a:b"]);
        let o = augment(
            HALF,
            design,
            AugmentArgs {
                targets: vec!["a:b".to_string()],
                runs: Some(3),
                seed: Some(11),
                ..args()
            },
        )
        .unwrap();
        (o.run_ids, o.text)
    };
    let (ids_a, csv_a) = run();
    let (ids_b, csv_b) = run();
    assert_eq!(ids_a, ids_b);
    assert_eq!(csv_a, csv_b);
    assert_eq!(csv_a.lines().count(), 8);
}

#[test]
fn pending_rows_are_excluded_by_default() {
    let csv = "run_id,order,a,b,y\nr0001,1,1,1,1.0\nr0002,2,1,2,2.0\nr0003,3,2,1,\nr0004,4,2,2,\n";
    let design = || fixture_design(&["a", "b"], &["y ~ a + b + a:b"]);
    let excluded = augment(csv, design(), AugmentArgs { runs: Some(1), ..args() }).unwrap();
    let included = augment(
        csv,
        design(),
        AugmentArgs { runs: Some(1), include_pending: true, ..args() },
    )
    .unwrap();
    assert_eq!(excluded.before.n_rows, 2);
    assert_eq!(included.before.n_rows, 4);
    assert_eq!(excluded.text.lines().count(), 6);
}

#[test]
fn for_term_outside_the_declared_model_is_added() {
    let design = fixture_design(&["a", "b", "c"], &["y ~ a + b + c"]);
    let csv = HALF.replace("3.5", "3.0");
    let outcome =
        augment(&csv, design, AugmentArgs { targets: vec!["b:a".to_string()], ..args() }).unwrap();
    assert_eq!(outcome.targets, ["a:b"]);
    assert_eq!(outcome.before.terms.len(), 4);
    assert!(outcome.targets_estimable);
    assert!(outcome.added >= 1);
    let design = fixture_design(&["a", "b", "c"], &["y ~ a + b + c"]);
    assert_eq!(
        added_terms(&vec!["a:b".into(), "c".into()], &design.models, &design.factors),
        ["a:b"]
    );
}

#[test]
fn unreadable_run_id_is_refused() {
    let csv = "run_id,order,a,b,y\nx1,1,1,1,1.0\nx2,2,1,2,2.0\nx3,3,2,1,3.0\nx4,4,2,2,4.0\n";
    let design = fixture_design(&["a", "b"], &["y ~ a + b + a:b"]);
    let err =
        augment(csv, design, AugmentArgs { runs: Some(1), ..args() }).err().unwrap().to_text();
    assert!(err.contains("r<digits>"), "got: {err}");
}

#[test]
fn unit_ids_are_reused_when_the_key_matches() {
    let csv = "run_id,order,a,m,seed,checkpoint,y\n\
        r0001,1,1,1,1,u0001,1.0\n\
        r0002,2,1,2,1,u0001,1.5\n\
        r0003,3,2,1,1,u0002,2.0\n\
        r0004,4,2,2,1,u0002,2.5\n";
    let mut design = fixture_design(&["a", "m"], &["y ~ a + m + a:m"]);
    design.replicates =
        vec![ReplicateRole { name: "seed".into(), levels: vec![FactorValue::Int(1)] }];
    design.unit =
        Some(Unit { name: "checkpoint".into(), key: vec!["a".into(), "seed".into()] });
    let outcome = augment(csv, design, AugmentArgs { runs: Some(2), ..args() }).unwrap();
    assert_eq!(outcome.added, 2);
    for line in outcome.text.lines().skip(5) {
        let cells: Vec<&str> = line.split(',').collect();
        let expected = if cells[2] == "1" { "u0001" } else { "u0002" };
        assert_eq!(cells[5], expected, "unit id must be reused in {line}");
    }
    let run = &outcome.design.runs[0];
    assert!(["u0001", "u0002"].contains(&run.unit.as_deref().unwrap()));
    assert_eq!(run.replicates[0].name, "seed");
    assert!(run.replicates[0].value.same(&FactorValue::Int(1)));
}

#[test]
fn new_units_get_fresh_ids() {
    let csv = "run_id,order,a,b,chk,y\nr0001,1,1,1,u0007,1.0\nr0002,2,1,2,u0007,2.0\n";
    let mut design = fixture_design(&["a", "b"], &["y ~ a + b"]);
    design.unit = Some(Unit { name: "chk".into(), key: vec!["a".into()] });
    let outcome =
        augment(csv, design, AugmentArgs { targets: vec!["a".into()], ..args() }).unwrap();
    assert_eq!(outcome.added, 1);
    let last = outcome.text.lines().last().unwrap();
    assert!(last.starts_with("r0003,3,2,"), "{last}");
    assert_eq!(last.split(',').nth(4), Some("u0008"));
}

#[test]
fn run_ids_widen_and_every_id_is_rewritten() {
    let csv = "run_id,order,a,b,y\nr9996,1,1,1,1.0\nr9997,2,1,2,2.0\nr9998,3,2,1,3.0\nr9999,4,2,2,4.0\n";
    let design = fixture_design(&["a", "b"], &["y ~ a + b + a:b"]);
    let outcome = augment(csv, design, AugmentArgs { runs: Some(2), ..args() }).unwrap();
    assert!(outcome.renumbered);
    assert_eq!(outcome.run_ids, ["r10000", "r10001"]);
    let lines: Vec<&str> = outcome.text.lines().collect();
    assert!(lines[1].starts_with("r09996,"), "got {}", lines[1]);
    assert!(lines[4].starts_with("r09999,"), "got {}", lines[4]);
    assert!(lines[5].starts_with("r10000,"), "got {}", lines[5]);
    assert!(lines[1].ends_with(",1,1,1,1.0"), "only the id changes: {}", lines[1]);
}

#[test]
fn requests_are_checked() {
    let design = || fixture_design(&["a", "b"], &["y ~ a + b"]);
    let message = |r: Result<Outcome, Error>| r.err().unwrap().to_text();
    assert_eq!(
        message(augment(SQUARE, design(), AugmentArgs { runs: Some(0), ..args() })),
        "--runs must be at least 1"
    );
    let factors = two_level(&["a", "b"]);
    assert_eq!(target_label("b:a", &factors).unwrap(), "a:b");
    let e = target_label("a+b", &factors).unwrap_err().to_text();
    assert!(e.contains("expected one term"), "{e}");
    let e = target_label("z", &factors).unwrap_err().to_text();
    assert!(e.contains("--for z: invalid term"), "{e}");
    let csv = "run_id,order,a,b,y\nr0001,1,1,9,1.0\n";
    assert_eq!(
        message(augment(csv, design(), AugmentArgs { runs: Some(1), ..args() })),
        "row 2: 'b' value '9' is not one of the design levels"
    );
    let e = match union_model(&[], &[], &vec![]) {
        Err(e) => e.to_text(),
        Ok(_) => panic!("accepted"),
    };
    assert_eq!(e, "the design has no factors, so there is nothing to augment");
}

#[test]
fn ids_are_read_by_prefix() {
    assert_eq!(parse_id('r', "r0012"), Some((12, 4)));
    assert_eq!(parse_id('u', "r0012"), None);
    assert_eq!(parse_id('r', "r"), None);
    assert_eq!(parse_id('r', "r1x"), None);
    assert_eq!(parse_id('r', "r99999999999999999999"), None);
}

#[test]
fn cells_show_levels_by_text_or_number() {
    let values = vec![FactorValue::Int(1), FactorValue::Int(2), FactorValue::Text("x".into())];
    assert_eq!(level_index(&values, "2", &[]), Some(1));
    assert_eq!(level_index(&values, "+2", &[]), Some(1));
    assert_eq!(level_index(&values, "2.0", &[]), None);
    assert_eq!(level_index(&values, "2.0", &[false, true, false]), Some(1));
    assert_eq!(level_index(&values, "x", &[]), Some(2));
    assert_eq!(level_index(&values, "y", &[]), None);
}

#[test]
fn ties_keep_the_first_candidate() {
    let gain = |row: bool, rest: bool, d: f64| Gain {
        new_row: row,
        new_rest: rest,
        d_gain: d.to_bits(),
    };
    let gains = vec![gain(false, false, 3.0), gain(true, false, 1.0), gain(true, false, 1.0)];
    assert_eq!(best_candidate(&gains, true), 1);
    assert_eq!(best_candidate(&gains, false), 0);
    let gains = vec![gain(true, true, -1.0), gain(false, true, 9.0), gain(true, true, -0.5)];
    assert_eq!(best_candidate(&gains, true), 2);
}

#[test]
fn candidates_are_all_combinations_or_a_sample() {
    let factors = two_level(&["a", "b"]);
    let mut rng = Rng::new(1);
    let c = candidate_cells(&factors, &[], &mut rng);
    assert_eq!(c.sampled, None);
    let levels: Vec<_> = c.cells.iter().map(|c| c.factor_levels.clone()).collect();
    assert_eq!(levels, [[0, 0], [0, 1], [1, 0], [1, 1]]);
    assert_eq!(rng.next_u64(), Rng::new(1).next_u64(), "nothing was drawn");

    let many: Vec<Factor> =
        (0..18)
            .map(|i| Factor::parse(&format!("f{i}"), "d[1,2]", &Numbers::Absent).unwrap())
            .collect();
    let c = candidate_cells(&many, &[], &mut Rng::new(1));
    let (kept, total) = c.sampled.unwrap();
    assert_eq!(total, 1 << 18);
    assert_eq!(kept, c.cells.len());
    assert!(kept < CANDIDATE_CAP);
    let again = candidate_cells(&many, &[], &mut Rng::new(1));
    assert_eq!(again.cells, c.cells);
}

#[test]
fn the_report_shows_aliases() {
    let design = fixture_design(&["a", "b", "c"], &["y ~ a + b + c + a:b"]);
    let table = parse_table(HALF.as_bytes(), &design).unwrap();
    let flags = near(&table, &design);
    let (base, pending) = base_cells(&table, &design, &flags, false).unwrap();
    assert_eq!(pending, 0);
    let mm = model_matrix(&design.factors, &[], &design.models[0], &base, None);
    let e = estimability(&mm, &design.models[0], &design.factors, &ranks(&mm, 4));
    assert_eq!(
        estimability_text("title", &e, &design.factors, true),
        "title\n\
         Params:   5   rank: 4   residual df: 0   rows: 4\n\
         Blocks:   estimable\n\
         \x20 term             df  estimable  aliased with\n\
         \x20 a                 1  yes        \n\
         \x20 b                 1  yes        \n\
         \x20 c                 1  no         a:b\n\
         \x20 a:b               1  no         c\n"
    );
}

#[test]
fn progress_is_reported() {
    let text = opening_text("exp.csv", ". ~ a", &vec!["a:b".into(), "c".into()], 3, 4, 1, false);
    assert_eq!(
        text,
        "Augmenting: exp.csv\n\
         Model:      . ~ a\n\
         Note:       a:b, c requested by --for but absent from the design's formulas;\n\
         \x20           add it to the design file before you analyze the result.\n\
         Base rows:  3 of 4 (1 pending, excluded)\n"
    );
    assert_eq!(
        opening_text("e", "f", &vec![], 0, 0, 0, true),
        "Augmenting: e\nModel:      f\nBase rows:  0 of 0 (0 pending, included)\n"
    );
    assert_eq!(
        targets_text(&vec![], true),
        "\nTargets:    none (pure D-optimal expansion)\n"
    );
    assert_eq!(
        targets_text(&vec!["a".into(), "b".into()], true),
        "\nTargets:    a, b\n            already estimable; nothing to add (pass --runs N for precision)\n"
    );
    assert_eq!(targets_text(&vec!["a".into()], false), "\nTargets:    a\n");
    let none = Candidates { cells: vec![], sampled: None };
    assert_eq!(
        none.check().unwrap_err().to_text(),
        "the design has no candidate combinations to add"
    );
    assert_eq!(none.to_line(1), "Candidates: 0 combinations\n");
    let some = Candidates { cells: vec![], sampled: Some((7, 1 << 70)) };
    assert_eq!(
        some.to_line(3),
        "Candidates: 7 sampled uniformly with seed 3 from 1180591620717411303424 combinations (cap 200000)\n"
    );
    let many: Vec<Factor> =
        (0..129)
            .map(|i| Factor::parse(&format!("f{i}"), "d[1,2]", &Numbers::Absent).unwrap())
            .collect();
    assert!(!combinations_in_range(&many, &[]));
    assert!(combinations_in_range(&many[..127], &[]));
}

#[test]
fn unit_numbers_may_reach_the_machine_limit() {
    let mut design = fixture_design(&["a", "b"], &["y ~ a + b"]);
    design.unit = Some(Unit { name: "chk".into(), key: vec!["a".into()] });
    let sheet = |n: usize| {
        format!("run_id,order,a,b,chk,y
r0001,1,1,1,u{n},1.0
r0002,2,1,2,u{n},2.0
")
    };
    let table = parse_table(sheet(usize::MAX - 5).as_bytes(), &design).unwrap();
    assert!(unit_numbers_in_range(&table, &design.runs, 1));
    assert!(!unit_numbers_in_range(&table, &design.runs, 2));
    assert!(has_room(&table, &design, 1));
    assert!(!has_room(&table, &design, 2));
    let units = collect_units(&table, &design, &near(&table, &design)).unwrap();
    assert_eq!(units.next, usize::MAX - 4);
    assert_eq!(units.ids, [format!("u{}", usize::MAX - 5)]);
    let table = parse_table(sheet(usize::MAX).as_bytes(), &design).unwrap();
    assert!(!unit_numbers_in_range(&table, &design.runs, 0));
    design.unit = None;
    let table = parse_table(sheet(usize::MAX).as_bytes(), &design).unwrap();
    assert!(has_room(&table, &design, 2));
}

#[test]
fn the_opening_reads_rows_before_targets() {
    let design = fixture_design(&["a", "b", "c"], &["y ~ a + b + c"]);
    let open = |csv: &str, targets: Vec<String>, pending: bool| {
        let table = parse_table(csv.as_bytes(), &design).unwrap();
        let flags = near(&table, &design);
        open_augmentation(&table, &design, &flags, &targets, pending)
    };
    let csv = "run_id,order,a,b,c,y
r0001,1,1,1,1,1.0
r0002,2,1,2,2,
";
    let o = match open(csv, vec!["b:a".into(), "c".into()], false) {
        Ok(o) => o,
        Err(e) => panic!("{}", e.to_text()),
    };
    assert_eq!((o.base.len(), o.pending), (1, 1));
    assert_eq!(o.labels, ["a:b", "c"]);
    assert_eq!(o.noted, ["a:b"]);
    let all = open(csv, vec![], true).ok().unwrap();
    assert_eq!((all.base.len(), all.pending), (2, 1));
    assert!(all.noted.is_empty());
    let odd = "run_id,order,a,b,c,y
r0001,1,9,1,1,1.0
";
    let e = open(odd, vec!["z".into()], false).err().unwrap().to_text();
    assert!(!e.contains("'z'"), "{e}");
    let e = open(csv, vec!["z".into()], false).err().unwrap().to_text();
    assert!(e.contains('z'), "{e}");
}

#[test]
fn unit_ids_are_given_once() {
    let mut units = Units {
        keys: vec![vec![0, 1]],
        ids: vec!["u0007".into()],
        next: 8,
        width: 4,
    };
    assert_eq!(units.get_or_make(vec![0, 1]), "u0007");
    assert_eq!(units.next, 8);
    assert_eq!(units.get_or_make(vec![1, 1]), "u0008");
    assert_eq!(units.get_or_make(vec![1, 1]), "u0008");
    assert_eq!(units.get_or_make(vec![2, 1]), "u0009");
    assert_eq!(units.next, 10);
    assert_eq!(units.ids, ["u0007", "u0008", "u0009"]);
    assert_eq!(units.keys, [vec![0, 1], vec![1, 1], vec![2, 1]]);
    // A key in use needs no new number.
    units.next = usize::MAX;
    assert_eq!(units.get_or_make(vec![1, 1]), "u0008");
    assert_eq!(units.next, usize::MAX);
}

#[test]
fn augment_adds_runs_and_records_the_augmentation() {
    let opts = ConstructOpts { seed: Some(7), ..ConstructOpts::default() };
    let (design, csv, _) = construct(LANDER_DESIGN, &opts).unwrap();
    let mut before = fill_lander(&String::from_utf8(csv).unwrap());
    assert_eq!(blank_one(&mut before).len(), 3);
    let outcome = augment(
        &before.render(),
        design,
        AugmentArgs {
            targets: vec!["denominator:projection".into()],
            runs: Some(3),
            seed: None,
            ..args()
        },
    )
    .unwrap();
    let after = Sheet::parse(&outcome.text);
    assert_eq!(after.rows.len(), before.rows.len() + 3);
    assert_eq!(after.rows[..before.rows.len()], before.rows[..]);
    let added: Vec<&String> = after.rows[before.rows.len()..].iter().map(|r| &r[0]).collect();
    for id in &added {
        assert!(before.rows.iter().all(|r| r[0] != **id), "{id} is not new");
    }
    let records = &outcome.design.augmentations;
    assert_eq!(records.len(), 1);
    assert_eq!(records[0].targets[0], "denominator:projection");
    assert_eq!(records[0].seed, 7);
    assert_eq!(records[0].run_ids.iter().collect::<Vec<_>>(), added);
}
