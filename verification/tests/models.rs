use taguchi::factor::{Factor, FactorValue, Numbers};
use taguchi::model::{
    estimability, hierarchy_warnings, model_matrix, Cell, Estimability, Model, ModelMatrix,
    RankReport, ReplicateRole, Term, Unit,
};
use nalgebra::DMatrix;
use taguchi::model::estimability::{block_column_numbers, matrix_without, term_column_numbers};

struct Decomposition {
    singular: Vec<f64>,
    u: DMatrix<f64>,
    vt: DMatrix<f64>,
    rank: usize,
    tolerance: f64,
}

fn numbers(rows: &[Vec<i64>]) -> Vec<Vec<f64>> {
    rows.iter().map(|r| r.iter().map(|&v| v as f64).collect()).collect()
}

fn decompose(x: &[Vec<f64>], p: usize) -> Decomposition {
    if p == 0 || x.is_empty() {
        return Decomposition {
            singular: vec![0.0; p],
            u: DMatrix::zeros(x.len().max(p), p),
            vt: DMatrix::identity(p, p),
            rank: 0,
            tolerance: 0.0,
        };
    }
    let a = DMatrix::from_fn(x.len().max(p), p, |i, j| if i < x.len() { x[i][j] } else { 0.0 });
    let svd = a.svd(true, true);
    let singular = svd.singular_values.as_slice().to_vec();
    let tolerance = 1e-10 * singular.iter().copied().fold(0.0, f64::max) * x.len().max(p) as f64;
    let rank = singular.iter().filter(|&&s| s > tolerance).count();
    Decomposition { singular, u: svd.u.unwrap(), vt: svd.v_t.unwrap(), rank, tolerance }
}

fn null_basis(x: &[Vec<f64>], p: usize, tolerance: f64) -> Vec<Vec<f64>> {
    let mut rref = x.to_vec();
    let mut pivots: Vec<usize> = Vec::new();
    for column in 0..p {
        let row = pivots.len();
        let best = (row..rref.len())
            .map(|r| (r, rref[r][column].abs()))
            .max_by(|a, b| a.1.total_cmp(&b.1));
        let Some((at, size)) = best else { break };
        if size <= tolerance {
            continue;
        }
        rref.swap(row, at);
        let pivot = rref[row][column];
        for v in &mut rref[row] {
            *v /= pivot;
        }
        let values = rref[row].clone();
        for (r, other) in rref.iter_mut().enumerate() {
            if r != row {
                let scale = other[column];
                for (v, w) in other.iter_mut().zip(&values) {
                    *v -= scale * w;
                }
            }
        }
        pivots.push(column);
    }
    (0..p)
        .filter(|c| !pivots.contains(c))
        .map(|free| {
            let mut v = vec![0.0; p];
            v[free] = 1.0;
            for (row, &c) in pivots.iter().enumerate() {
                v[c] = -rref[row][free];
            }
            v
        })
        .collect()
}

fn ranks(mm: &ModelMatrix, terms: usize) -> RankReport {
    let p = mm.columns.len();
    let x = numbers(&mm.data);
    let d = decompose(&x, p);
    let without =
        |drop: &[usize]| decompose(&numbers(&matrix_without(mm, drop)), p - drop.len()).rank;
    RankReport {
        rank: d.rank,
        without_terms: (0..terms).map(|t| without(&term_column_numbers(mm, t))).collect(),
        without_blocks: without(&block_column_numbers(mm)),
        null_supports: null_basis(&x, p, d.tolerance)
            .into_iter()
            .map(|v| v.iter().map(|c| c.abs() > 1e-8).collect())
            .collect(),
    }
}

fn factors(levels: &[usize]) -> Vec<Factor> {
    levels
        .iter()
        .enumerate()
        .map(|(i, l)| {
            Factor::parse(&((b'a' + i as u8) as char).to_string(), &format!("d[1-{}]", l), &Numbers::Absent).unwrap()
        })
        .collect()
}

fn cell(factor_levels: Vec<usize>, replicate_levels: Vec<usize>) -> Cell {
    Cell { factor_levels, replicate_levels }
}

fn grid(levels: &[usize]) -> Vec<Cell> {
    let mut rows = vec![vec![]];
    for &l in levels {
        rows = rows
            .into_iter()
            .flat_map(|r: Vec<usize>| {
                (0..l).map(move |j| {
                    let mut r = r.clone();
                    r.push(j);
                    r
                })
            })
            .collect();
    }
    rows.into_iter().map(|r| cell(r, vec![])).collect()
}

fn verdict(mm: &ModelMatrix, m: &Model, fs: &[Factor]) -> Estimability {
    estimability(mm, m, fs, &ranks(mm, m.terms.len()))
}

fn labels(mm: &ModelMatrix) -> Vec<&str> {
    mm.columns.iter().map(|c| c.label.as_str()).collect()
}

fn seed_role(levels: &[i64]) -> Vec<ReplicateRole> {
    vec![ReplicateRole {
        name: "seed".into(),
        levels: levels.iter().map(|&n| FactorValue::Int(n)).collect(),
    }]
}

#[test]
fn formula_grammar_and_canonicalization() {
    let fs = factors(&[2, 2, 2]);
    for (src, expected) in [
        ("response ~ b + a + c + b:a + a", "response ~ a + b + c + a:b"),
        ("(a+b)*c", ". ~ a + b + c + a:c + b:c"),
        ("a*b*c", ". ~ a + b + c + a:b + a:c + b:c + a:b:c"),
        (". ~ b:a", ". ~ a:b"),
        ("a+b*c", ". ~ a + b + c + b:c"),
        ("a*b:c", ". ~ a + b:c + a:b:c"),
        ("(a+b):c", ". ~ a:c + b:c"),
        ("((a))", ". ~ a"),
    ] {
        let m = Model::parse(src, &fs).unwrap();
        assert_eq!(m.formula, expected);
        assert_eq!(Model::parse(&m.formula, &fs).unwrap(), m);
    }
    assert_eq!(Model::parse("a*b*c", &fs).unwrap().terms.len(), 7);
    let named = [Factor::parse("level-1", "d[1,2]", &Numbers::Absent).unwrap()];
    assert_eq!(
        Model::parse("response-1 ~ level-1", &named).unwrap().formula,
        "response-1 ~ level-1"
    );
    assert_eq!(Model::main_effects(&fs).formula, ". ~ a + b + c");
    assert_eq!(Term(vec![0, 2]).label(&fs), "a:c");
}

#[test]
fn formula_errors() {
    let fs = factors(&[2, 2, 2]);
    for src in ["a:a", "a:(a+b)", "", "a+", "a b", "(a+b", "a)", "a**b", "~a", "a~b~c"] {
        assert!(Model::parse(src, &fs).is_err(), "accepted {src}");
    }
    for src in ["a -1", "a-1", "a^2", "a %in% b"] {
        let error = Model::parse(src, &fs).unwrap_err().to_text();
        assert!(error.contains("unsupported"), "{error}");
    }
    assert!(Model::parse("a + absent", &fs).unwrap_err().to_text().contains("absent"));
}

#[test]
fn names_may_hold_letters_of_any_script() {
    let fs = vec![
        Factor::parse("größe", "d[1,2]", &Numbers::Absent).unwrap(),
        Factor::parse("温度_2", "d[1,2]", &Numbers::Absent).unwrap(),
    ];
    let m = Model::parse("größe*温度_2", &fs).unwrap();
    assert_eq!(m.formula, ". ~ größe + 温度_2 + größe:温度_2");
    assert!(Model::parse("größe + 温→度", &fs).is_err());
}

#[test]
fn response_selection_and_hierarchy() {
    let fs = factors(&[2, 2]);
    let models = vec![Model::parse("a", &fs).unwrap(), Model::parse("y ~ a:b", &fs).unwrap()];
    assert_eq!(Model::for_result(&models, "y"), Some(&models[1]));
    assert_eq!(Model::for_result(&models, "z"), Some(&models[0]));
    assert!(Model::for_result(&models[1..], "z").is_none());
    assert_eq!(
        hierarchy_warnings(&models[1], &fs),
        ["a:b requested without a", "a:b requested without b"]
    );
    assert!(hierarchy_warnings(&Model::parse("a*b", &fs).unwrap(), &fs).is_empty());
}

#[test]
fn deviation_coding_full_factorial() {
    let fs = factors(&[2, 3]);
    let m = Model::parse("a*b", &fs).unwrap();
    let mm = model_matrix(&fs, &[], &m, &grid(&[2, 3]), None);
    assert_eq!(
        labels(&mm),
        ["(Intercept)", "a[1]", "b[1]", "b[2]", "a[1]:b[1]", "a[1]:b[2]"]
    );
    assert_eq!(
        mm.data,
        vec![
            vec![1, 1, 1, 0, 1, 0],
            vec![1, 1, 0, 1, 0, 1],
            vec![1, 1, -1, -1, -1, -1],
            vec![1, -1, 1, 0, -1, 0],
            vec![1, -1, 0, 1, 0, -1],
            vec![1, -1, -1, -1, 1, 1],
        ]
    );
    for j in 1..6 {
        assert_eq!(mm.data.iter().map(|r| r[j]).sum::<i64>(), 0);
    }
    for j in 0..6 {
        for k in j + 1..6 {
            let dot: i64 = mm.data.iter().map(|r| r[j] * r[k]).sum();
            if mm.columns[j].source != mm.columns[k].source {
                assert_eq!(dot, 0);
            } else {
                assert_eq!(dot, 2);
            }
        }
    }
    assert_eq!(verdict(&mm, &m, &fs).rank, 6);
}

#[test]
fn block_and_unit_order_and_pairing() {
    let fs = factors(&[2, 2]);
    let roles = seed_role(&[3, 9]);
    let unit = Unit { name: "checkpoint".into(), key: vec!["a".into(), "seed".into()] };
    let mut cells = Vec::new();
    for seed in 0..2 {
        for c in grid(&[2, 2]) {
            cells.push(cell(c.factor_levels, vec![seed]));
        }
    }
    let mm = model_matrix(&fs, &roles, &Model::main_effects(&fs), &cells, Some(&unit));
    assert_eq!(
        labels(&mm),
        ["(Intercept)", "seed[3]", "a[1]", "b[1]", "unit[u001]", "unit[u002]", "unit[u003]"]
    );
    assert_eq!(&mm.data[0][4..], &[1, 0, 0]);
    assert_eq!(&mm.data[1][4..], &mm.data[0][4..]);
    assert_eq!(&mm.data[2][4..], &[0, 1, 0]);
    assert_eq!(&mm.data[4][4..], &[0, 0, 1]);
    assert_eq!(&mm.data[6][4..], &[-1, -1, -1]);
    assert_eq!(mm.data.iter().map(|r| r[1]).sum::<i64>(), 0);
}

#[test]
fn l4_alias_and_full_factorial_replication() {
    let fs = factors(&[2, 2, 2]);
    let m = Model::parse("a+b+c+a:b", &fs).unwrap();
    let cells: Vec<_> = [vec![0, 0, 0], vec![0, 1, 1], vec![1, 0, 1], vec![1, 1, 0]]
        .into_iter()
        .map(|l| cell(l, vec![]))
        .collect();
    let mm = model_matrix(&fs, &[], &m, &cells, None);
    let e = verdict(&mm, &m, &fs);
    assert_eq!((e.n_rows, e.n_params, e.rank, e.residual_df), (4, 5, 4, 0));
    assert!(e.terms[0].estimable && e.terms[1].estimable);
    assert!(!e.terms[3].estimable);
    assert_eq!(e.terms[3].df, 1);
    assert_eq!(e.terms[3].aliased_with, ["c"]);
    assert_eq!(e.terms[2].aliased_with, ["a:b"]);
    let m = Model::parse("a+b+c+a:b+a:c+b:c", &fs).unwrap();
    let aliases = verdict(&model_matrix(&fs, &[], &m, &cells, None), &m, &fs);
    assert_eq!(aliases.terms[0].aliased_with, ["b:c"]);
    assert_eq!(aliases.terms[1].aliased_with, ["a:c"]);
    assert_eq!(aliases.terms[2].aliased_with, ["a:b"]);
    assert_eq!(aliases.terms[3].aliased_with, ["c"]);
    assert_eq!(aliases.terms[4].aliased_with, ["b"]);
    assert_eq!(aliases.terms[5].aliased_with, ["a"]);
    let m = Model::parse("a*b*c", &fs).unwrap();
    assert_eq!(
        verdict(&model_matrix(&fs, &[], &m, &cells, None), &m, &fs).terms[6].aliased_with,
        ["(Intercept)"]
    );
    let cells = grid(&[2, 2, 2]);
    let full = verdict(&model_matrix(&fs, &[], &m, &cells, None), &m, &fs);
    assert_eq!((full.rank, full.residual_df), (8, 0));
    assert!(full.terms.iter().all(|t| t.estimable && t.aliased_with.is_empty()));
    let roles = seed_role(&[1, 2]);
    let mut replicated = Vec::new();
    for seed in 0..2 {
        for c in &cells {
            replicated.push(cell(c.factor_levels.clone(), vec![seed]));
        }
    }
    let replicated = verdict(&model_matrix(&fs, &roles, &m, &replicated, None), &m, &fs);
    assert_eq!((replicated.rank, replicated.residual_df), (9, 7));
    assert!(replicated.blocks_estimable);
    assert!(replicated.terms.iter().all(|t| t.estimable));
}

#[test]
fn aliases_name_block_sources() {
    let fs = factors(&[2]);
    let model = Model::main_effects(&fs);
    let roles = seed_role(&[1, 2]);
    let cells = vec![cell(vec![0], vec![0]), cell(vec![1], vec![1])];
    let report = verdict(&model_matrix(&fs, &roles, &model, &cells, None), &model, &fs);
    assert!(!report.terms[0].estimable);
    assert_eq!(report.terms[0].aliased_with, ["seed"]);

    let unit = Unit { name: "checkpoint".into(), key: vec!["a".into()] };
    let plain = vec![cell(vec![0], vec![]), cell(vec![1], vec![])];
    let report = verdict(&model_matrix(&fs, &[], &model, &plain, Some(&unit)), &model, &fs);
    assert!(!report.terms[0].estimable);
    assert_eq!(report.terms[0].aliased_with, ["unit"]);
}

#[test]
fn rank_tolerance_empty_and_zero_data() {
    let fs = factors(&[2]);
    let m = Model::main_effects(&fs);
    let e = verdict(&model_matrix(&fs, &[], &m, &[], None), &m, &fs);
    assert_eq!((e.n_params, e.rank, e.residual_df), (2, 0, 0));
    assert!(!e.terms[0].estimable);
}
