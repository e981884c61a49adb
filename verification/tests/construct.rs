use std::collections::BTreeSet;
use taguchi::construct::check::is_sound;
use taguchi::construct::types::find_setting;
use taguchi::construct::{
    apply_cli, execution_order, file_lines, file_requests, new_design, parse_design_file,
    parse_factor_line, parse_replicate, plan_design, replicate_request, sidecar_path,
    strip_comment, ConstructOpts, Design, Dialogue, ParsedDesign, Run, Stage,
};
use taguchi::csv_text::{parse_table, table_bytes};
use taguchi::design_select::{select, union_model};
use taguchi::error::Error;
use taguchi::factor::{
    Factor, FactorKind, FactorValue, FloatLevel, Numbers, Request, Scale, ScaleNumbers,
};
use taguchi::model::{ModelMatrix, RankReport, ReplicateRole};
use taguchi::oa::bush::bush_at;
use taguchi::oa::gf::Gf;
use taguchi::oa::lookup::{build_index, CatalogEntry};
use taguchi::oa::{build_array, resolve_cell};
use nalgebra::DMatrix;
use taguchi::model::estimability::{block_column_numbers, matrix_without, term_column_numbers};

struct Decomposition {
    singular: Vec<f64>,
    u: DMatrix<f64>,
    vt: DMatrix<f64>,
    rank: usize,
    tolerance: f64,
}

fn numbers(rows: &[Vec<i64>]) -> Vec<Vec<f64>> {
    rows.iter().map(|r| r.iter().map(|&v| v as f64).collect()).collect()
}

fn decompose(x: &[Vec<f64>], p: usize) -> Decomposition {
    if p == 0 || x.is_empty() {
        return Decomposition {
            singular: vec![0.0; p],
            u: DMatrix::zeros(x.len().max(p), p),
            vt: DMatrix::identity(p, p),
            rank: 0,
            tolerance: 0.0,
        };
    }
    let a = DMatrix::from_fn(x.len().max(p), p, |i, j| if i < x.len() { x[i][j] } else { 0.0 });
    let svd = a.svd(true, true);
    let singular = svd.singular_values.as_slice().to_vec();
    let tolerance = 1e-10 * singular.iter().copied().fold(0.0, f64::max) * x.len().max(p) as f64;
    let rank = singular.iter().filter(|&&s| s > tolerance).count();
    Decomposition { singular, u: svd.u.unwrap(), vt: svd.v_t.unwrap(), rank, tolerance }
}

fn null_basis(x: &[Vec<f64>], p: usize, tolerance: f64) -> Vec<Vec<f64>> {
    let mut rref = x.to_vec();
    let mut pivots: Vec<usize> = Vec::new();
    for column in 0..p {
        let row = pivots.len();
        let best = (row..rref.len())
            .map(|r| (r, rref[r][column].abs()))
            .max_by(|a, b| a.1.total_cmp(&b.1));
        let Some((at, size)) = best else { break };
        if size <= tolerance {
            continue;
        }
        rref.swap(row, at);
        let pivot = rref[row][column];
        for v in &mut rref[row] {
            *v /= pivot;
        }
        let values = rref[row].clone();
        for (r, other) in rref.iter_mut().enumerate() {
            if r != row {
                let scale = other[column];
                for (v, w) in other.iter_mut().zip(&values) {
                    *v -= scale * w;
                }
            }
        }
        pivots.push(column);
    }
    (0..p)
        .filter(|c| !pivots.contains(c))
        .map(|free| {
            let mut v = vec![0.0; p];
            v[free] = 1.0;
            for (row, &c) in pivots.iter().enumerate() {
                v[c] = -rref[row][free];
            }
            v
        })
        .collect()
}

fn ranks(mm: &ModelMatrix, terms: usize) -> RankReport {
    let p = mm.columns.len();
    let x = numbers(&mm.data);
    let d = decompose(&x, p);
    let without =
        |drop: &[usize]| decompose(&numbers(&matrix_without(mm, drop)), p - drop.len()).rank;
    RankReport {
        rank: d.rank,
        without_terms: (0..terms).map(|t| without(&term_column_numbers(mm, t))).collect(),
        without_blocks: without(&block_column_numbers(mm)),
        null_supports: null_basis(&x, p, d.tolerance)
            .into_iter()
            .map(|v| v.iter().map(|c| c.abs() > 1e-8).collect())
            .collect(),
    }
}

/// The body of a catalog file.
fn body(rows: &[Vec<usize>]) -> String {
    rows.iter()
        .map(|r| r.iter().map(|v| v.to_string()).collect::<Vec<_>>().join(" "))
        .collect::<Vec<_>>()
        .join("\n")
}

/// The Plackett–Burman array of twelve runs.
fn plackett_burman() -> Vec<Vec<usize>> {
    let first = [1, 1, 0, 1, 1, 1, 0, 0, 0, 1, 0];
    let mut rows: Vec<Vec<usize>> =
        (0..11).map(|i| (0..11).map(|j| first[(j + 11 - i) % 11]).collect()).collect();
    rows.push(vec![0; 11]);
    rows
}

/// The seven three-level columns of the array of eighteen runs.
fn eighteen() -> Vec<Vec<usize>> {
    [
        "1111111", "1222222", "1333333", "2112233", "2223311", "2331122", "3121323", "3232131",
        "3313212", "1133221", "1211332", "1322113", "2123132", "2231213", "2312321", "3132312",
        "3213123", "3321231",
    ]
    .iter()
    .map(|s| s.bytes().map(|b| (b - b'1') as usize).collect())
    .collect()
}

fn bush_rows(q: usize, k: usize) -> Vec<Vec<usize>> {
    bush_at(&Gf::new(q).unwrap(), k)
}

fn catalog_files() -> Vec<(String, String)> {
    vec![
        ("oa.4.3.2.2.txt".to_string(), body(&bush_rows(2, 2))),
        ("oa.8.7.2.2.txt".to_string(), body(&bush_rows(2, 3))),
        ("oa.9.4.3.2.txt".to_string(), body(&bush_rows(3, 2))),
        ("oa.12.11.2.2.txt".to_string(), body(&plackett_burman())),
        ("oa.16.15.2.2.txt".to_string(), body(&bush_rows(2, 4))),
        ("oa.18.7.3.2.txt".to_string(), body(&eighteen())),
        ("MA.36.3.4.2.3.txt".to_string(), body(&mixed())),
    ]
}

/// Four three-level and three two-level columns in thirty-six runs.
fn mixed() -> Vec<Vec<usize>> {
    let (nine, four) = (bush_rows(3, 2), bush_rows(2, 2));
    let mut rows = Vec::new();
    for a in &nine {
        for b in &four {
            rows.push(a.iter().chain(b).copied().collect());
        }
    }
    rows
}

fn catalog() -> Vec<CatalogEntry> {
    build_index(&catalog_files())
}

fn float_text(x: f64) -> String {
    if x.fract() == 0.0 && x.abs() < 1e15 {
        format!("{}", x as i64)
    } else {
        let s = format!("{x:.6}");
        s.trim_end_matches('0').trim_end_matches('.').to_string()
    }
}

fn level(x: f64) -> FloatLevel {
    FloatLevel { bits: x.to_bits(), text: float_text(x) }
}

fn answer(request: &Request) -> Numbers {
    match request {
        Request::Nothing => Numbers::Absent,
        Request::Floats(texts) => {
            Numbers::Floats(texts.iter().map(|t| t.parse::<f64>().ok().map(level)).collect())
        }
        Request::Levels { scale, args } => {
            let p: Vec<f64> = args.iter().map(|a| a.parse().unwrap()).collect();
            let (low, high, n) = (p[0], p[1], p[2] as usize);
            let (l, h) = (low.to_bits(), high.to_bits());
            let spaced = |f: &dyn Fn(f64) -> f64| {
                (0..n).map(|i| level(f(i as f64 / (n - 1) as f64))).collect::<Vec<_>>()
            };
            let ratio = high / low;
            Numbers::Levels(Ok(match scale {
                Scale::LogLow => ScaleNumbers {
                    kind: FactorKind::LogLow { low: l, high: h },
                    levels: spaced(&|t| low * ratio.powf(t)),
                },
                Scale::LogHigh => ScaleNumbers {
                    kind: FactorKind::LogHigh { low: l, high: h },
                    levels: spaced(&|t| high + low - low * ratio.powf(1.0 - t)),
                },
                _ => ScaleNumbers {
                    kind: FactorKind::Uniform { low: l, high: h },
                    levels: spaced(&|t| low + t * (high - low)),
                },
            }))
        }
    }
}

fn parse(src: &str) -> Result<ParsedDesign, Error> {
    let lines = file_lines(src);
    let numbers: Vec<Numbers> = file_requests(&lines).iter().map(answer).collect();
    parse_design_file("fixture.design", &lines, &numbers)
}

fn role(src: &str) -> Result<ReplicateRole, Error> {
    parse_replicate(src, &answer(&replicate_request(src)))
}

fn ints(r: &ReplicateRole) -> Vec<i64> {
    r.levels
        .iter()
        .map(|v| match v {
            FactorValue::Int(n) => *n,
            other => panic!("{other:?}"),
        })
        .collect()
}

const OLD: &str = "[factors]\na = d[1,2]\nb = d[1,2]\n[results]\ny\n";

#[test]
fn legacy_and_new_sections() {
    let old = parse(OLD).unwrap();
    assert!(old.models.is_empty() && old.replicates.is_empty() && old.unit.is_none());
    let new = parse(&format!("{OLD}[model]\ny ~ b*a # comment\n[replicates]\nseed = 2 # count\nfold = d[11,22,33]\n[units]\ncheckpoint = a, seed\n")).unwrap();
    assert_eq!(new.models[0].formula, "y ~ a + b + a:b");
    assert_eq!(ints(&new.replicates[0]), [1, 2]);
    assert_eq!(ints(&new.replicates[1]), [11, 22, 33]);
    assert_eq!(new.unit.unwrap().key, ["a", "seed"]);
    let forward = parse("[units]\nu = a, seed\n[model]\n. ~ a\n[replicates]\nseed = 1\n[factors]\na = d[1,2]\n[results]\ny\n").unwrap();
    assert_eq!(ints(&forward.replicates[0]), [1]);
    assert!(forward.models[0].response.is_none());
    for spec in ["d[11]", "d [11]", "discrete[11]", "1"] {
        assert_eq!(role(&format!("seed = {spec}")).unwrap().levels.len(), 1);
    }
    assert_eq!(role("seed = uniform[0,1,3]").unwrap().levels.len(), 3);
    let labels =
        parse(&format!("{OLD}[replicates]\nseed = d[\"a#b\",\"c\"] # comment\n")).unwrap();
    assert!(labels.replicates[0].levels[0].same(&FactorValue::Text("a#b".into())));
}

#[test]
fn section_errors_name_file_and_line() {
    for (suffix, line, message) in [
        ("[model]\na + unknown\n", 7, "unknown"),
        ("[model]\na + seed\n[replicates]\nseed = 2\n", 7, "replicate role 'seed'"),
        ("[model]\nz ~ a\n", 7, "unknown result name 'z'"),
        ("[model]\na -1\n", 7, "unsupported"),
        ("[replicates]\nseed = 0\n", 7, "positive"),
        ("[replicates]\nseed = bad\n", 7, "invalid replicate count"),
        ("[replicates]\na = 2\n", 7, "duplicate"),
        ("[units]\nu = a, missing\n", 7, "missing"),
        ("[units]\nu = a\nv = b\n", 8, "at most one"),
        ("[units]\nu = a\n[units]\nv = b\n", 9, "at most one"),
        ("[units]\nu =\n", 7, "unknown unit key"),
        ("[replicates]\nseed = d[1,1]\n", 7, "duplicate level"),
    ] {
        let err = match parse(&format!("{OLD}{suffix}")) {
            Ok(_) => panic!("accepted {suffix}"),
            Err(e) => e.to_text(),
        };
        assert!(err.contains(&format!("fixture.design:{line}")), "{err}");
        assert!(err.contains(message), "{err}");
    }
}

#[test]
fn comments_end_outside_quotes() {
    let strip = |s: &str| -> String {
        let chars: Vec<char> = s.chars().collect();
        strip_comment(&chars).into_iter().collect()
    };
    assert_eq!(strip("a # b"), "a ");
    assert_eq!(strip("d[\"a#b\"] # c"), "d[\"a#b\"] ");
    assert_eq!(strip("plain"), "plain");
}

#[test]
fn factor_lines_are_checked() {
    assert_eq!(parse_factor_line("x = d[1,2]", &Numbers::Absent).unwrap().name, "x");
    for (line, message) in [
        ("x d[1,2]", "expected 'name = spec'"),
        ("a b = d[1,2]", "invalid factor name 'a b'"),
        (" = d[1,2]", "invalid factor name ''"),
    ] {
        let e = parse_factor_line(line, &Numbers::Absent).unwrap_err().to_text();
        assert!(e.contains(message), "{e}");
    }
}

/// A design from a file, without its I/O.
fn construct(src: &str, opts: &ConstructOpts) -> Result<(Design, Vec<u8>), Error> {
    let requests: Vec<Request> = opts.replicates.iter().map(|r| replicate_request(r)).collect();
    let numbers: Vec<Numbers> = requests.iter().map(answer).collect();
    let parsed = apply_cli(parse(src)?, opts, &numbers)?;
    let terms = union_model(&parsed.models, &parsed.factors).terms.len();
    let probe = |mm: &ModelMatrix| ranks(mm, terms);
    let s = select(
        &parsed.factors,
        &parsed.models,
        &parsed.replicates,
        parsed.unit.as_ref(),
        &opts.select_opts(),
        &catalog(),
        &probe,
    )
    .map_err(|e| Error::new(&e.to_text()))?;
    let seed = opts.seed.unwrap_or(1234);
    let plan = plan_design(&parsed, &s.cells, s.selected.array.len(), seed, opts.no_shuffle);
    let bytes = plan.to_bytes()?;
    Ok((new_design(parsed, s.selected.info, s.estimability, seed, plan.runs), bytes))
}

fn source(specs: &[(&str, &str)], extra: &str) -> String {
    let factors: Vec<String> = specs.iter().map(|(n, s)| format!("{n} = {s}")).collect();
    format!("[factors]\n{}\n[results]\ny\n{extra}", factors.join("\n"))
}

fn setting<'a>(run: &'a Run, name: &str) -> &'a FactorValue {
    &run.factors[find_setting(&run.factors, name).unwrap()].value
}

fn replicate<'a>(run: &'a Run, name: &str) -> &'a FactorValue {
    &run.replicates[find_setting(&run.replicates, name).unwrap()].value
}

#[test]
fn no_model_reproduces_the_v1_array() {
    let cases: [&[(&str, &str)]; 3] = [
        &[("a", "d[1,2]"), ("b", "d[1,2]"), ("c", "d[1,2]"), ("d", "d[1,2]")],
        &[("a", "d[1-3]"), ("b", "d[1-3]"), ("c", "d[1-3]"), ("d", "d[1-3]")],
        &[("a", "d[1,2]"), ("b", "d[1-3]"), ("c", "d[1-4]")],
    ];
    for specs in cases {
        let factors: Vec<Factor> =
            specs.iter().map(|(n, s)| Factor::parse(n, s, &Numbers::Absent).unwrap()).collect();
        let expected = build_array(&factors, &catalog()).unwrap();
        let (design, _) = construct(&source(specs, ""), &ConstructOpts::default()).unwrap();
        assert_eq!(design.array.rows, expected.rows());
        assert_eq!(design.array.label, expected.info.label);
        assert_eq!(design.runs.len(), expected.rows());
        let mut seen = vec![false; expected.rows()];
        for run in &design.runs {
            assert!(!std::mem::replace(&mut seen[run.design_row], true));
            assert_eq!(run.run_id, format!("r{:04}", run.design_row + 1));
            for (j, f) in factors.iter().enumerate() {
                assert!(setting(run, &f.name)
                    .same(&resolve_cell(f, expected.array[run.design_row][j])));
            }
        }
    }
}

#[test]
fn v2_csv_and_manifest_agree() {
    let specs: &[(&str, &str)] = &[("a", "d[1,2]"), ("b", "d[1,2]"), ("c", "d[1,2]")];
    let src =
        source(specs, "[model]\na*b + c\n[replicates]\nseed = 2\n[units]\nchk = a, b, seed\n");
    let (design, csv) = construct(&src, &ConstructOpts::default()).unwrap();
    let base = design.array.rows;
    assert_eq!(design.runs.len(), base * 2);
    assert!(design.randomization_seed.is_some());
    assert!(design.estimability.is_some());
    assert!(is_sound(&design));

    let mut rdr = csv::Reader::from_reader(&csv[..]);
    let header = vec!["run_id", "order", "a", "b", "c", "seed", "chk", "y"];
    assert_eq!(rdr.headers().unwrap(), &csv::StringRecord::from(header));
    let mut orders = Vec::new();
    for (k, record) in rdr.records().enumerate() {
        let record = record.unwrap();
        let run = &design.runs[k];
        assert_eq!(&record[0], run.run_id);
        assert_eq!(record[1].parse::<usize>().unwrap(), run.order);
        for (j, (name, _)) in specs.iter().enumerate() {
            assert_eq!(record[2 + j], setting(run, name).to_text());
        }
        assert_eq!(record[5], replicate(run, "seed").to_text());
        assert_eq!(&record[6], run.unit.as_ref().unwrap());
        assert_eq!(&record[7], "");
        orders.push(run.order);
    }
    orders.sort_unstable();
    assert_eq!(orders, (1..=design.runs.len()).collect::<Vec<_>>());

    let units: BTreeSet<&String> = design.runs.iter().filter_map(|r| r.unit.as_ref()).collect();
    assert_eq!(units.len(), 8);
    assert!(units.contains(&"u0001".to_string()));
    assert!(units.contains(&format!("u{:04}", units.len())));
    for run in &design.runs {
        for other in &design.runs {
            if run.unit == other.unit {
                assert!(setting(run, "a").same(setting(other, "a")));
                assert!(setting(run, "b").same(setting(other, "b")));
                assert!(replicate(run, "seed").same(replicate(other, "seed")));
            }
        }
    }
    // The table is read back as it was written.
    let table = parse_table(&csv, &design).unwrap();
    assert_eq!(table.rows.len(), design.runs.len());
    assert_eq!((table.run_id_col, table.order_col, table.unit_col), (Some(0), Some(1), Some(6)));
    assert_eq!(table_bytes(&table.headers, &table.rows).unwrap(), csv);
}

#[test]
fn execution_order_follows_the_seed() {
    let specs: &[(&str, &str)] =
        &[("a", "d[1,2]"), ("b", "d[1,2]"), ("c", "d[1,2]"), ("d", "d[1,2]")];
    let src = source(specs, "[replicates]\nseed = 2\n");
    let order_for = |opts: &ConstructOpts| {
        let (design, _) = construct(&src, opts).unwrap();
        let order: Vec<String> = design.runs.iter().map(|r| r.run_id.clone()).collect();
        (order, design.randomization_seed.unwrap(), design.array.rows)
    };
    let seeded = |seed: u64| ConstructOpts { seed: Some(seed), ..ConstructOpts::default() };
    let (a, _, rows) = order_for(&seeded(7));
    let (b, seed_b, _) = order_for(&seeded(7));
    let (c, _, _) = order_for(&seeded(8));
    assert_eq!(a.len(), 16, "a 16-row design");
    assert_eq!(a, b, "same seed → same order");
    assert_eq!(seed_b, 7, "the seed is recorded");
    assert_ne!(a, c, "different seed → different order");
    let mut sorted = a.clone();
    sorted.sort();
    assert_ne!(a, sorted, "the default order is shuffled");
    let (plain, _, _) = order_for(&ConstructOpts {
        no_shuffle: true,
        seed: Some(7),
        ..ConstructOpts::default()
    });
    assert_eq!(plain, sorted, "--no-shuffle → order = design order");
    for (block, chunk) in a.chunks(rows).enumerate() {
        for run_id in chunk {
            let cell: usize = run_id[1..].parse().unwrap();
            assert_eq!((cell - 1) / rows, block, "replicate blocks stay whole");
        }
    }
}

#[test]
fn cli_options_merge_with_the_file() {
    let specs: &[(&str, &str)] = &[("a", "d[1,2]"), ("b", "d[1,2]")];
    let opts = ConstructOpts {
        models: vec!["y ~ a*b".into()],
        replicates: vec!["seed=2".into()],
        unit: Some("chk=a,seed".into()),
        seed: Some(1),
        ..ConstructOpts::default()
    };
    let (design, csv) = construct(&source(specs, ""), &opts).unwrap();
    assert_eq!(design.models[0].formula, "y ~ a + b + a:b");
    assert_eq!(design.replicates[0].name, "seed");
    assert_eq!(design.unit.as_ref().unwrap().key, ["a", "seed"]);
    assert!(csv.starts_with(b"run_id,order,a,b,seed,chk,y\n"));

    let (design, _) = construct(
        &source(specs, "[model]\ny ~ a\n[replicates]\nfold = 2\n"),
        &ConstructOpts {
            models: vec![". ~ b".into()],
            replicates: vec!["seed=2".into()],
            seed: Some(1),
            ..ConstructOpts::default()
        },
    )
    .unwrap();
    assert_eq!(design.models[0].formula, "y ~ a");
    assert_eq!(design.models[1].formula, ". ~ b");
    assert_eq!(design.replicates[0].name, "fold");
    assert_eq!(design.replicates[1].name, "seed");

    for (opts, message) in [
        (
            ConstructOpts {
                models: vec!["y ~ a".into(), "y ~ b".into()],
                ..ConstructOpts::default()
            },
            "duplicate model",
        ),
        (
            ConstructOpts {
                models: vec!["y ~ a + seed".into()],
                replicates: vec!["seed=2".into()],
                ..ConstructOpts::default()
            },
            "replicate role 'seed'",
        ),
        (
            ConstructOpts { replicates: vec!["a=2".into()], ..ConstructOpts::default() },
            "duplicate factor or replicate-role name",
        ),
        (
            ConstructOpts { unit: Some("chk=missing".into()), ..ConstructOpts::default() },
            "unknown unit key",
        ),
    ] {
        let err = construct(&source(specs, ""), &opts).map(|_| ()).unwrap_err().to_text();
        assert!(err.contains(message), "{err}");
    }
    let err = construct(
        &source(specs, "[units]\nu = a\n"),
        &ConstructOpts { unit: Some("chk=a".into()), ..ConstructOpts::default() },
    )
    .map(|_| ())
    .unwrap_err()
    .to_text();
    assert!(err.contains("at most one"), "{err}");
}

#[test]
fn execution_order_is_reproducible() {
    let src = r#"[factors]
denominator     = d["a","b"]
projection      = d["p","q","r"]
prior           = d["flat","learned"]
evaluation_mode = d["greedy","beam","sample"]

[model]
response ~ denominator * projection + prior * evaluation_mode

[replicates]
seed = 3

[units]
checkpoint = denominator, projection, prior, seed

[results]
response
"#;
    let with = |seed: u64, no_shuffle: bool| {
        construct(
            src,
            &ConstructOpts { seed: Some(seed), no_shuffle, ..ConstructOpts::default() },
        )
        .unwrap()
    };
    let (design, first) = with(42, false);
    assert_eq!(design.runs.len(), 108);
    assert_eq!(design.estimability.as_ref().unwrap().residual_df, 95);
    assert_eq!(
        design.models[0].formula,
        "response ~ denominator + projection + prior + evaluation_mode + denominator:projection + prior:evaluation_mode"
    );
    for (i, r) in design.runs.iter().enumerate() {
        assert!(r.run_id.starts_with('r'));
        assert_eq!(r.order, i + 1);
        assert!(r.unit.as_ref().is_some_and(|s| s.starts_with('u')));
    }
    assert_eq!(first, with(42, false).1, "the same seed gives the same bytes");
    assert_ne!(first, with(99, false).1, "a different seed shuffles differently");
    let (plain, _) = with(42, true);
    for (i, r) in plain.runs.iter().enumerate() {
        assert_eq!(r.run_id, format!("r{:04}", i + 1));
        assert_eq!(r.order, i + 1);
    }
    assert_eq!(plain.randomization_seed, Some(42));
}

#[test]
fn orders_hold_every_cell_once() {
    assert_eq!(execution_order(5, 3, 2, false), [0, 1, 2, 3, 4, 5]);
    let mut order = execution_order(5, 10, 3, true);
    assert_ne!(order, (0..30).collect::<Vec<_>>());
    order.sort_unstable();
    assert_eq!(order, (0..30).collect::<Vec<_>>());
}

#[test]
fn sidecars_stand_next_to_their_tables() {
    assert_eq!(sidecar_path("exp.csv"), "exp.design.json");
    assert_eq!(sidecar_path("runs/one.two.csv"), "runs/one.two.design.json");
    assert_eq!(sidecar_path("/tmp/x"), "/tmp/x.design.json");
    assert_eq!(sidecar_path(".hidden"), ".hidden.design.json");
    assert_eq!(sidecar_path("dir/.."), "dir/design.design.json");
}

#[test]
fn designs_that_contradict_themselves_are_found() {
    let (mut design, _) = construct(
        "[factors]\na = d[1,2]\nb = d[1,2]\n[results]\ny\n[model]\na*b\n[units]\nu = a\n",
        &ConstructOpts::default(),
    )
    .unwrap();
    assert!(is_sound(&design));
    design.unit.as_mut().unwrap().key.push("missing".into());
    assert!(!is_sound(&design));
    design.unit = None;
    design.models[0].terms[0].0 = vec![1, 0];
    assert!(!is_sound(&design));
    design.models[0].terms[0].0 = vec![5];
    assert!(!is_sound(&design));
    design.models.clear();
    assert!(is_sound(&design));
    design.factors[0].values.clear();
    assert!(!is_sound(&design));
}

#[test]
fn tables_that_are_no_csv_are_refused() {
    let (design, _) = construct(OLD, &ConstructOpts::default()).unwrap();
    let e = parse_table(b"run_id,a,b,y\nr1,1\n", &design).unwrap_err().to_text();
    assert!(e.contains("fields"), "{e}");
    let e = parse_table(b"run_id,a,y\n", &design).unwrap_err().to_text();
    assert_eq!(e, "factor column 'b' not in CSV");
    let quoted = vec![vec!["a,b".to_string(), "c\"d".to_string()]];
    let bytes = table_bytes(&vec!["x".into(), "y".into()], &quoted).unwrap();
    assert_eq!(bytes, b"x,y\n\"a,b\",\"c\"\"d\"\n");
}

#[test]
fn run_ids_name_the_same_cells_for_every_seed() {
    let src = source(&[("a", "d[1,2]"), ("b", "d[1-3]")], "[replicates]\nseed = 2\n");
    let with = |seed: u64| {
        let opts = ConstructOpts { seed: Some(seed), ..ConstructOpts::default() };
        construct(&src, &opts).unwrap().0
    };
    let (one, two) = (with(1), with(2));
    let ids = |d: &Design| d.runs.iter().map(|r| r.run_id.clone()).collect::<Vec<_>>();
    assert_ne!(ids(&one), ids(&two));
    for r in &one.runs {
        let s = two.runs.iter().find(|s| s.run_id == r.run_id).unwrap();
        assert_eq!(r.design_row, s.design_row);
        for name in ["a", "b"] {
            assert!(setting(r, name).same(setting(s, name)));
        }
        assert!(replicate(r, "seed").same(replicate(s, "seed")));
    }
}

#[test]
fn tables_need_rows_of_one_width() {
    let header = vec!["a".to_string(), "b".to_string()];
    let e = table_bytes(&header, &vec![vec!["1".to_string()]]).unwrap_err().to_text();
    assert!(e.contains("fields"), "{e}");
    // Whatever the cells hold, they read back as they were.
    let (design, _) = construct(
        "[factors]\na = d[1,2]\nb = d[1,2]\n[results]\ny\n",
        &ConstructOpts::default(),
    )
    .unwrap();
    let header: Vec<String> = ["a", "b", "y", "note"].iter().map(|s| s.to_string()).collect();
    let rows: Vec<Vec<String>> = ["", " x ", "a\nb", "\"", ",", "\r\n", "ä"]
        .iter()
        .map(|note| vec!["1".into(), "2".into(), "".into(), note.to_string()])
        .collect();
    let bytes = table_bytes(&header, &rows).unwrap();
    let table = parse_table(&bytes, &design).unwrap();
    assert_eq!(table.headers, header);
    assert_eq!(table.rows, rows);
    // A byte order mark at the very start is passed over.
    let marked = vec!["\u{feff}a".to_string(), "b".into(), "y".into()];
    let bytes = table_bytes(&marked, &vec![]).unwrap();
    assert_eq!(parse_table(&bytes, &design).unwrap().headers, ["a", "b", "y"]);
}

#[test]
fn files_are_split_into_lines() {
    assert_eq!(file_lines("a\r\n\nb"), ["a", "", "b"]);
    assert_eq!(file_lines("a\n"), ["a"]);
    assert!(file_lines("").is_empty());
}

#[test]
fn designs_are_entered_line_by_line() {
    let mut d = Dialogue::new();
    assert_eq!(d.prompt(), "factor 1> ");
    let none = Numbers::Absent;
    assert_eq!(d.enter("\n", &none).unwrap(), "need at least one factor");
    assert_eq!(d.enter("x\n", &none).unwrap(), "error: expected 'name = spec'");
    assert!(d.enter("a = d[1,2]\n", &none).is_none());
    let numbers = answer(&d.request("b = uniform[0,1,3]\n"));
    assert!(d.enter("b = uniform[0,1,3]\n", &numbers).is_none());
    assert_eq!(d.prompt(), "factor 3> ");
    assert!(d.enter("  \n", &none).is_none());
    assert_eq!(d.stage, Stage::Results);
    assert_eq!(d.prompt(), "result 1> ");
    assert_eq!(d.enter("\n", &none).unwrap(), "need at least one result column");
    assert_eq!(
        d.enter("a b\n", &none).unwrap(),
        "name must be non-empty identifier characters"
    );
    assert!(d.enter(" y\n", &none).is_none());
    let d = d.close().unwrap();
    assert_eq!(d.stage, Stage::Done);
    let p = d.into_design();
    assert_eq!(p.factors.len(), 2);
    assert_eq!(p.factors[1].values.len(), 3);
    assert_eq!(p.results, ["y"]);
    assert!(p.models.is_empty() && p.replicates.is_empty() && p.unit.is_none());

    assert_eq!(Dialogue::new().close().unwrap_err().to_text(), "no factors entered");
    let mut d = Dialogue::new();
    assert!(d.enter("a = d[1,2]", &none).is_none());
    let d = d.close().unwrap();
    assert_eq!(d.close().unwrap_err().to_text(), "no result columns entered");
}
