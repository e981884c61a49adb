use taguchi::design_select::{
    assignments, attempt_from, build_cells, can_build, can_list, full_factorial, select,
    select_from, union_model, Refusal, SelectError, SelectOpts, Selection, ASSIGNMENT_CAP,
};
use taguchi::factor::{Factor, FactorValue, Numbers};
use taguchi::model::{estimability, model_matrix, Model, ModelMatrix, RankReport, ReplicateRole};
use taguchi::oa::{build_array, verify_strength2};
use taguchi::oa::bush::bush_at;
use taguchi::oa::gf::Gf;
use taguchi::oa::lookup::{build_index, entries_supplying, CatalogEntry};
use nalgebra::DMatrix;
use taguchi::model::estimability::{block_column_numbers, matrix_without, term_column_numbers};

struct Decomposition {
    singular: Vec<f64>,
    u: DMatrix<f64>,
    vt: DMatrix<f64>,
    rank: usize,
    tolerance: f64,
}

fn numbers(rows: &[Vec<i64>]) -> Vec<Vec<f64>> {
    rows.iter().map(|r| r.iter().map(|&v| v as f64).collect()).collect()
}

fn decompose(x: &[Vec<f64>], p: usize) -> Decomposition {
    if p == 0 || x.is_empty() {
        return Decomposition {
            singular: vec![0.0; p],
            u: DMatrix::zeros(x.len().max(p), p),
            vt: DMatrix::identity(p, p),
            rank: 0,
            tolerance: 0.0,
        };
    }
    let a = DMatrix::from_fn(x.len().max(p), p, |i, j| if i < x.len() { x[i][j] } else { 0.0 });
    let svd = a.svd(true, true);
    let singular = svd.singular_values.as_slice().to_vec();
    let tolerance = 1e-10 * singular.iter().copied().fold(0.0, f64::max) * x.len().max(p) as f64;
    let rank = singular.iter().filter(|&&s| s > tolerance).count();
    Decomposition { singular, u: svd.u.unwrap(), vt: svd.v_t.unwrap(), rank, tolerance }
}

fn null_basis(x: &[Vec<f64>], p: usize, tolerance: f64) -> Vec<Vec<f64>> {
    let mut rref = x.to_vec();
    let mut pivots: Vec<usize> = Vec::new();
    for column in 0..p {
        let row = pivots.len();
        let best = (row..rref.len())
            .map(|r| (r, rref[r][column].abs()))
            .max_by(|a, b| a.1.total_cmp(&b.1));
        let Some((at, size)) = best else { break };
        if size <= tolerance {
            continue;
        }
        rref.swap(row, at);
        let pivot = rref[row][column];
        for v in &mut rref[row] {
            *v /= pivot;
        }
        let values = rref[row].clone();
        for (r, other) in rref.iter_mut().enumerate() {
            if r != row {
                let scale = other[column];
                for (v, w) in other.iter_mut().zip(&values) {
                    *v -= scale * w;
                }
            }
        }
        pivots.push(column);
    }
    (0..p)
        .filter(|c| !pivots.contains(c))
        .map(|free| {
            let mut v = vec![0.0; p];
            v[free] = 1.0;
            for (row, &c) in pivots.iter().enumerate() {
                v[c] = -rref[row][free];
            }
            v
        })
        .collect()
}

fn ranks(mm: &ModelMatrix, terms: usize) -> RankReport {
    let p = mm.columns.len();
    let x = numbers(&mm.data);
    let d = decompose(&x, p);
    let without =
        |drop: &[usize]| decompose(&numbers(&matrix_without(mm, drop)), p - drop.len()).rank;
    RankReport {
        rank: d.rank,
        without_terms: (0..terms).map(|t| without(&term_column_numbers(mm, t))).collect(),
        without_blocks: without(&block_column_numbers(mm)),
        null_supports: null_basis(&x, p, d.tolerance)
            .into_iter()
            .map(|v| v.iter().map(|c| c.abs() > 1e-8).collect())
            .collect(),
    }
}

/// The body of a catalog file.
fn body(rows: &[Vec<usize>]) -> String {
    rows.iter()
        .map(|r| r.iter().map(|v| v.to_string()).collect::<Vec<_>>().join(" "))
        .collect::<Vec<_>>()
        .join("\n")
}

/// The Plackett–Burman array of twelve runs.
fn plackett_burman() -> Vec<Vec<usize>> {
    let first = [1, 1, 0, 1, 1, 1, 0, 0, 0, 1, 0];
    let mut rows: Vec<Vec<usize>> =
        (0..11).map(|i| (0..11).map(|j| first[(j + 11 - i) % 11]).collect()).collect();
    rows.push(vec![0; 11]);
    rows
}

/// The seven three-level columns of the array of eighteen runs.
fn eighteen() -> Vec<Vec<usize>> {
    [
        "1111111", "1222222", "1333333", "2112233", "2223311", "2331122", "3121323", "3232131",
        "3313212", "1133221", "1211332", "1322113", "2123132", "2231213", "2312321", "3132312",
        "3213123", "3321231",
    ]
    .iter()
    .map(|s| s.bytes().map(|b| (b - b'1') as usize).collect())
    .collect()
}

fn bush_rows(q: usize, k: usize) -> Vec<Vec<usize>> {
    bush_at(&Gf::new(q).unwrap(), k)
}

fn catalog_files() -> Vec<(String, String)> {
    vec![
        ("oa.4.3.2.2.txt".to_string(), body(&bush_rows(2, 2))),
        ("oa.8.7.2.2.txt".to_string(), body(&bush_rows(2, 3))),
        ("oa.9.4.3.2.txt".to_string(), body(&bush_rows(3, 2))),
        ("oa.12.11.2.2.txt".to_string(), body(&plackett_burman())),
        ("oa.16.15.2.2.txt".to_string(), body(&bush_rows(2, 4))),
        ("oa.18.7.3.2.txt".to_string(), body(&eighteen())),
        ("MA.36.3.4.2.3.txt".to_string(), body(&mixed())),
    ]
}

/// Four three-level and three two-level columns in thirty-six runs.
fn mixed() -> Vec<Vec<usize>> {
    let (nine, four) = (bush_rows(3, 2), bush_rows(2, 2));
    let mut rows = Vec::new();
    for a in &nine {
        for b in &four {
            rows.push(a.iter().chain(b).copied().collect());
        }
    }
    rows
}

fn catalog() -> Vec<CatalogEntry> {
    build_index(&catalog_files())
}

const NAMES: [&str; 4] = ["a", "b", "c", "d"];

fn factors(specs: &[&str]) -> Vec<Factor> {
    specs
        .iter()
        .enumerate()
        .map(|(i, spec)| Factor::parse(NAMES[i], spec, &Numbers::Absent).unwrap())
        .collect()
}

fn seed_role(levels: i64) -> ReplicateRole {
    ReplicateRole { name: "seed".into(), levels: (1..=levels).map(FactorValue::Int).collect() }
}

fn selected(
    fs: &[Factor],
    models: &[Model],
    roles: &[ReplicateRole],
    opts: &SelectOpts,
) -> Result<Selection, SelectError> {
    let terms = union_model(models, fs).terms.len();
    let probe = |mm: &ModelMatrix| ranks(mm, terms);
    select(fs, models, roles, None, opts, &catalog(), &probe)
}

fn run(
    specs: &[&str],
    formula: &str,
    roles: &[ReplicateRole],
    opts: &SelectOpts,
) -> Result<Selection, SelectError> {
    let fs = factors(specs);
    let model = Model::parse(formula, &fs).unwrap();
    selected(&fs, &[model], roles, opts)
}

fn refusal(r: Result<Selection, SelectError>) -> String {
    match r {
        Err(SelectError::Refused(Refusal(text))) => text,
        Err(other) => panic!("no refusal: {}", other.to_text()),
        Ok(_) => panic!("not refused"),
    }
}

#[test]
fn large_factor_space_does_not_materialize_the_factorial() {
    let fs: Vec<Factor> =
        (0..50).map(|i| Factor::parse(&format!("f{i}"), "d[1-3]", &Numbers::Absent).unwrap()).collect();
    let formula = fs.iter().map(|f| f.name.as_str()).collect::<Vec<_>>().join(" + ");
    let model = Model::parse(&formula, &fs).unwrap();
    // The ranks of a balanced main-effects matrix are known: no term depends on
    // another one.
    let probe = |mm: &ModelMatrix| {
        let p = mm.columns.len();
        let rank = decompose(&numbers(&mm.data), p).rank;
        RankReport {
            rank,
            without_terms: vec![rank - 2; 50],
            without_blocks: rank,
            null_supports: vec![],
        }
    };
    let opts = SelectOpts { max_runs: Some(243), ..SelectOpts::default() };
    let s = select(&fs, &[model], &[], None, &opts, &catalog(), &probe).unwrap();
    assert!(s.cells.len() <= 243);
    assert_eq!(s.estimability.rank, 101);
}

#[test]
fn pinned_run_counts() {
    let two = ["d[1,2]", "d[1,2]", "d[1,2]", "d[1,2]"];
    let s = run(&two[..3], "a*b*c", &[], &SelectOpts::default()).unwrap();
    assert_eq!(s.cells.len(), 8);
    assert!(s.estimability.terms.iter().all(|t| t.estimable));

    let s = run(&two, "a + b + c + d + a:b", &[], &SelectOpts::default()).unwrap();
    assert_eq!(s.cells.len(), 8);
    assert!(s.estimability.terms.iter().all(|t| t.estimable));

    let three = ["d[1-3]", "d[1-3]", "d[1-3]"];
    let s = run(&three, "a*b + c", &[], &SelectOpts::default()).unwrap();
    assert_eq!(s.cells.len(), 18);
    assert_eq!(s.estimability.n_params, 11);
    assert!(s.estimability.terms.iter().all(|t| t.estimable));

    let strict = SelectOpts { min_residual_df: 1, ..SelectOpts::default() };
    let err = refusal(run(&two[..2], "a*b", &[], &strict));
    assert!(err.contains("residual df 1"), "{err}");
    let s = run(&two[..2], "a*b", &[seed_role(2)], &strict).unwrap();
    assert_eq!(s.cells.len(), 8);
    assert!(s.estimability.residual_df >= 1);
}

#[test]
fn estimability_is_the_shared_function() {
    let fs = factors(&["d[1,2]", "d[1-3]"]);
    let models = [Model::parse("a*b", &fs).unwrap()];
    let roles = [seed_role(2)];
    let s = selected(&fs, &models, &roles, &SelectOpts::default()).unwrap();
    let union = union_model(&models, &fs);
    let mm = model_matrix(&fs, &roles, &union, &s.cells, None);
    let direct = estimability(&mm, &union, &fs, &ranks(&mm, union.terms.len()));
    assert_eq!(s.estimability.n_params, direct.n_params);
    assert_eq!(s.estimability.rank, direct.rank);
    assert_eq!(s.estimability.residual_df, direct.residual_df);
    assert_eq!(s.cells.len(), s.selected.array.len() * 2);
    let n = s.selected.array.len();
    assert!(s.cells[..n].iter().all(|c| c.replicate_levels == [0]));
    assert!(s.cells[n..].iter().all(|c| c.replicate_levels == [1]));
}

#[test]
fn limits_and_allow_aliased() {
    let two = ["d[1,2]", "d[1,2]", "d[1,2]"];
    let capped = SelectOpts { max_runs: Some(4), ..SelectOpts::default() };
    let text = refusal(run(&two, "a*b*c", &[], &capped));
    assert!(text.contains("term"), "the report prints: {text}");
    assert!(text.contains("refused:"), "{text}");

    let s = run(
        &two,
        "a*b*c",
        &[],
        &SelectOpts { max_runs: Some(4), allow_aliased: true, ..SelectOpts::default() },
    )
    .unwrap();
    assert!(s.aliased);
    assert_eq!(s.cells.len(), 4);
    assert!(s.estimability.terms.iter().any(|t| !t.estimable));
    assert!(s.report.contains("--allow-aliased kept it"), "{}", s.report);
}

#[test]
fn limits_bind_without_a_formula() {
    let fs = factors(&["d[1,2]", "d[1,2]"]);
    let plain = selected(&fs, &[], &[], &SelectOpts::default()).unwrap();
    assert_eq!(plain.cells.len(), 4);
    assert_eq!(plain.estimability.residual_df, 1);

    let strict = SelectOpts { min_residual_df: 2, ..SelectOpts::default() };
    let text = refusal(selected(&fs, &[], &[], &strict));
    assert!(text.contains("residual df 2"), "{text}");

    let s = selected(&fs, &[], &[seed_role(2)], &strict).unwrap();
    assert_eq!(s.cells.len(), 8);
    assert!(s.estimability.residual_df >= 2);

    let text = refusal(selected(
        &fs,
        &[],
        &[],
        &SelectOpts { max_runs: Some(2), ..SelectOpts::default() },
    ));
    assert!(text.contains("--max-runs 2"), "{text}");
}

#[test]
fn allow_aliased_does_not_waive_max_runs() {
    let opts = SelectOpts { max_runs: Some(2), allow_aliased: true, ..SelectOpts::default() };
    let text = refusal(run(&["d[1,2]", "d[1,2]"], "a*b", &[], &opts));
    assert!(text.contains("--max-runs 2"), "{text}");
    assert!(text.contains("refused:"), "{text}");
    let s = run(
        &["d[1,2]", "d[1,2]"],
        "a*b",
        &[],
        &SelectOpts { min_residual_df: 1, allow_aliased: true, ..SelectOpts::default() },
    )
    .unwrap();
    assert!(s.aliased);
    assert_eq!(s.cells.len(), 4);
}

#[test]
fn no_model_keeps_the_v1_array() {
    let fs = factors(&["d[1,2]", "d[1-3]", "d[1-4]"]);
    let s = selected(&fs, &[], &[], &SelectOpts::default()).unwrap();
    let expected = build_array(&fs, &catalog()).unwrap();
    assert_eq!(s.selected.array, expected.array);
    assert_eq!(s.model.terms.len(), 3);
    assert!(s.report.contains("default: main effects"), "{}", s.report);
    assert!(!s.aliased);
}

#[test]
fn report_carries_hierarchy_warnings() {
    let s = run(&["d[1,2]", "d[1,2]"], "a + a:b", &[], &SelectOpts::default()).unwrap();
    assert!(s.report.contains("warning: a:b requested without b"), "{}", s.report);
}

#[test]
fn assignment_search_is_ordered_and_capped() {
    let c = catalog();
    let entry = entries_supplying(&c, &[2, 2])
        .into_iter()
        .map(|i| &c[i])
        .find(|e| e.columns.len() >= 4)
        .expect("a catalog entry with four 2-level columns");
    let all = assignments(&entry.columns, &[2, 2], false, ASSIGNMENT_CAP);
    assert_eq!(all[0], vec![0, 1]);
    assert_eq!(all[1], vec![0, 2]);
    assert!(all.iter().all(|a| a[0] != a[1]), "columns are distinct");
    assert_eq!(assignments(&entry.columns, &[2, 2], false, 3).len(), 3, "the cap holds");

    let entry = &c[entries_supplying(&c, &[2, 3])[0]];
    let found = assignments(&entry.columns, &[2, 3], false, 50);
    assert!(!found.is_empty());
    for assignment in found {
        assert_eq!(entry.columns[assignment[0]], 2);
        assert_eq!(entry.columns[assignment[1]], 3);
    }
}

#[test]
fn full_factorial_is_lexicographic() {
    let fs = factors(&["d[1,2]", "d[1-3]"]);
    let full = full_factorial(&fs);
    assert_eq!(full.array.len(), 6);
    assert_eq!(
        full.array,
        vec![vec![0, 0], vec![0, 1], vec![0, 2], vec![1, 0], vec![1, 1], vec![1, 2]]
    );
    assert_eq!(full.info.method, "Full factorial");
}

#[test]
fn construct_refuses_a_model_that_exceeds_max_runs() {
    let specs = [r#"d["lo","hi"]"#, r#"d["lo","hi"]"#];
    let opts = SelectOpts { max_runs: Some(3), ..SelectOpts::default() };
    let text = refusal(run(&specs, "y ~ a * b", &[], &opts));
    assert!(text.contains("--max-runs"), "{text}");
    let opts = SelectOpts { max_runs: Some(4), ..SelectOpts::default() };
    assert_eq!(run(&specs, "y ~ a * b", &[], &opts).unwrap().cells.len(), 4);
}

#[test]
fn the_refusal_shows_the_aliases() {
    let specs = [r#"d["off","on"]"#; 3];
    let opts = SelectOpts { max_runs: Some(4), ..SelectOpts::default() };
    let text = refusal(run(&specs, "y ~ a + b + c + a:b", &[], &opts));
    assert!(text.contains("Model:    y ~ a + b + c + a:b"), "{text}");
    assert!(text.contains("= 4 runs"), "{text}");
    assert!(text.contains("Params:   5   rank: 4   residual df: 0"), "{text}");
    assert!(text.contains("  c                1  no         a:b"), "{text}");
    assert!(text.contains("  a:b              1  no         c"), "{text}");
    assert!(
        text.contains("refused: no candidate design within the limits estimates: c, a:b."),
        "{text}"
    );
}

#[test]
fn factors_without_an_array_are_no_refusal() {
    let err = selected(&[], &[], &[], &SelectOpts::default()).unwrap_err();
    assert!(matches!(err, SelectError::Build(_)));
}

#[test]
fn selected_arrays_have_strength_two() {
    for specs in [["d[1,2]", "d[1-3]", "d[1-4]"], ["d[1,2]", "d[1,2]", "d[1,2]"]] {
        let fs = factors(&specs);
        let full = full_factorial(&fs);
        assert!(verify_strength2(&full.array, &full.column_levels).is_ok());
        for formula in ["a + b + c", "a*b + c", "a*b*c"] {
            let s = run(&specs, formula, &[], &SelectOpts::default()).unwrap();
            assert!(verify_strength2(&s.selected.array, &s.selected.column_levels).is_ok());
        }
    }
}

/// Two columns of fifty-three levels in a catalog of their own.
fn wide_catalog() -> Vec<CatalogEntry> {
    let rows: Vec<Vec<usize>> =
        (0..53 * 53).map(|r| vec![r / 53, r % 53, (r / 53 + r % 53) % 53]).collect();
    build_index(&vec![("oa.2809.3.53.2.txt".to_string(), body(&rows))])
}

#[test]
fn the_catalog_serves_levels_beyond_the_fields() {
    let fs = factors(&["d[1-53]", "d[1-53]"]);
    let catalog = wide_catalog();
    assert_eq!(catalog.len(), 1);
    assert!(can_build(&fs, &catalog));
    assert!(!can_build(&fs, &[]));
    // The ranks of a balanced main-effects matrix are known.
    let probe = |_: &ModelMatrix| RankReport {
        rank: 105,
        without_terms: vec![53, 53],
        without_blocks: 105,
        null_supports: vec![],
    };
    let opts = SelectOpts::default();
    let s = select(&fs, &[], &[], None, &opts, &catalog, &probe).unwrap();
    assert_eq!(s.cells.len(), 2809);
    assert_eq!(s.estimability.residual_df, 2809 - 105);
    assert!(!s.aliased);
    assert!(!can_list(&s.selected, &fs, &[], &[], &opts, &catalog));
    let few = factors(&["d[1-3]", "d[1-3]"]);
    let base = build_array(&few, &catalog).unwrap();
    assert!(can_list(&base, &few, &[], &[], &opts, &catalog));
    let greedy = SelectOpts { min_residual_df: usize::MAX, ..SelectOpts::default() };
    assert!(!can_list(&base, &few, &[], &[], &greedy, &catalog));
    let wide = build_array(&fs, &catalog).unwrap();
    let limited = SelectOpts { max_runs: Some(9), ..SelectOpts::default() };
    assert!(attempt_from(wide, &fs, &[], &[], &limited, &catalog, &probe).is_none());
    let wide = build_array(&fs, &catalog).unwrap();
    assert!(matches!(
        attempt_from(wide, &fs, &[], &[], &opts, &catalog, &probe),
        Some(Ok(_))
    ));
    let s = select_from(base, &few, &[], &[], &opts, &catalog, &|mm: &ModelMatrix| ranks(mm, 2));
    assert!(s.is_ok());
}

#[test]
fn unmodelled_requests_select_the_built_array() {
    let fs = factors(&["d[1,2]", "d[1-3]", "d[1,2]"]);
    let roles = [seed_role(2)];
    let b = build_array(&fs, &catalog()).unwrap();
    let s = selected(&fs, &[], &roles, &SelectOpts::default()).unwrap();
    assert_eq!(s.selected.array, b.array);
    assert_eq!(s.label, b.info.label);
    let expected = build_cells(&b, &fs, &roles);
    assert_eq!(s.cells.len(), expected.len());
    for (x, y) in s.cells.iter().zip(&expected) {
        assert_eq!(x.factor_levels, y.factor_levels);
        assert_eq!(x.replicate_levels, y.replicate_levels);
    }
    assert_eq!(s.model.formula, Model::main_effects(&fs).formula);
    assert!(!s.aliased);
}
