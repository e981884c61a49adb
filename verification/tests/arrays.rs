use taguchi::factor::{Factor, Numbers};
use taguchi::oa::backtrack::{gcd, lcm, search};
use taguchi::oa::bush::{bush_at, next_prime_power_at_least};
use taguchi::oa::gf::{is_prime_power, Gf};
use taguchi::oa::kronecker;
use taguchi::oa::lookup::{
    build_index, entries_supplying, find, parse_body, parse_filename, select_columns, CatalogEntry,
};
use taguchi::oa::strength::Strength2Fault;
use taguchi::oa::{build_array, build_with_methods, verify_strength2, Method, Selected};

/// The body of a catalog file.
fn body(rows: &[Vec<usize>]) -> String {
    rows.iter()
        .map(|r| r.iter().map(|v| v.to_string()).collect::<Vec<_>>().join(" "))
        .collect::<Vec<_>>()
        .join("\n")
}

/// The Plackett–Burman array of twelve runs.
fn plackett_burman() -> Vec<Vec<usize>> {
    let first = [1, 1, 0, 1, 1, 1, 0, 0, 0, 1, 0];
    let mut rows: Vec<Vec<usize>> =
        (0..11).map(|i| (0..11).map(|j| first[(j + 11 - i) % 11]).collect()).collect();
    rows.push(vec![0; 11]);
    rows
}

/// The seven three-level columns of the array of eighteen runs.
fn eighteen() -> Vec<Vec<usize>> {
    [
        "1111111", "1222222", "1333333", "2112233", "2223311", "2331122", "3121323", "3232131",
        "3313212", "1133221", "1211332", "1322113", "2123132", "2231213", "2312321", "3132312",
        "3213123", "3321231",
    ]
    .iter()
    .map(|s| s.bytes().map(|b| (b - b'1') as usize).collect())
    .collect()
}

fn bush_rows(q: usize, k: usize) -> Vec<Vec<usize>> {
    bush_at(&Gf::new(q).unwrap(), k)
}

fn catalog_files() -> Vec<(String, String)> {
    vec![
        ("oa.4.3.2.2.txt".to_string(), body(&bush_rows(2, 2))),
        ("oa.8.7.2.2.txt".to_string(), body(&bush_rows(2, 3))),
        ("oa.9.4.3.2.txt".to_string(), body(&bush_rows(3, 2))),
        ("oa.12.11.2.2.txt".to_string(), body(&plackett_burman())),
        ("oa.16.15.2.2.txt".to_string(), body(&bush_rows(2, 4))),
        ("oa.18.7.3.2.txt".to_string(), body(&eighteen())),
        ("MA.36.3.4.2.3.txt".to_string(), body(&mixed())),
    ]
}

/// Four three-level and three two-level columns in thirty-six runs.
fn mixed() -> Vec<Vec<usize>> {
    let (nine, four) = (bush_rows(3, 2), bush_rows(2, 2));
    let mut rows = Vec::new();
    for a in &nine {
        for b in &four {
            rows.push(a.iter().chain(b).copied().collect());
        }
    }
    rows
}

fn catalog() -> Vec<CatalogEntry> {
    build_index(&catalog_files())
}

// ===== Search =====

#[test]
fn search_l4() {
    let arr = search(4, &[2, 2, 2]).expect("L4 must exist");
    verify_strength2(&arr, &[2, 2, 2]).unwrap();
}

#[test]
fn search_l8_partial() {
    let arr = search(8, &[2, 2, 2, 2]).expect("must find");
    verify_strength2(&arr, &[2, 2, 2, 2]).unwrap();
}

#[test]
fn search_finds_nothing_where_nothing_is() {
    // Six rows cannot hold three two-level columns in balance.
    assert!(search(6, &[2, 2, 2]).is_none());
    assert!(search(4, &[2, 2, 2, 2]).is_none());
}

#[test]
fn lcm_calc() {
    assert_eq!(lcm(6, 4), 12);
    assert_eq!(gcd(12, 8), 4);
}

// ===== Bush =====

fn check(q: usize, k: usize, expected_cols: usize) {
    let gf = Gf::new(q).unwrap();
    let arr = bush_at(&gf, k);
    let n = (q as u64).pow(k as u32) as usize;
    assert_eq!(arr.len(), n);
    assert_eq!(arr[0].len(), expected_cols);
    let levels = vec![q; expected_cols];
    verify_strength2(&arr, &levels).unwrap();
}

#[test]
fn l4() {
    check(2, 2, 3);
}

#[test]
fn l8() {
    check(2, 3, 7);
}

#[test]
fn l9() {
    check(3, 2, 4);
}

#[test]
fn l16_2() {
    check(2, 4, 15);
}

#[test]
fn l16_4() {
    check(4, 2, 5);
}

#[test]
fn l25() {
    check(5, 2, 6);
}

#[test]
fn l27() {
    check(3, 3, 13);
}

#[test]
fn l64_4() {
    check(4, 3, 21);
}

#[test]
fn l81_3() {
    check(3, 4, 40);
}

#[test]
fn l81_9() {
    check(9, 2, 10);
}

#[test]
fn prime_powers_follow() {
    assert_eq!(next_prime_power_at_least(6), 7);
    assert_eq!(next_prime_power_at_least(7), 7);
    assert_eq!(next_prime_power_at_least(10), 11);
    assert_eq!(next_prime_power_at_least(26), 27);
    assert!(is_prime_power(49));
    assert!(!is_prime_power(1));
    assert!(!is_prime_power(36));
}

// ===== Fields =====

fn check_field(gf: &Gf) {
    let q = gf.q;
    for a in 0..q {
        assert_eq!(gf.add(a, 0), a, "a+0 != a at a={}", a);
        assert_eq!(gf.mul(a, 1), a, "a*1 != a at a={}", a);
        assert_eq!(gf.mul(a, 0), 0, "a*0 != 0 at a={}", a);
    }
    for a in 0..q {
        for b in 0..q {
            assert_eq!(gf.add(a, b), gf.add(b, a));
            assert_eq!(gf.mul(a, b), gf.mul(b, a));
        }
    }
    for a in 1..q {
        let mut found = false;
        for b in 1..q {
            if gf.mul(a, b) == 1 {
                found = true;
                break;
            }
        }
        assert!(found, "no inverse for {} in GF({})", a, q);
    }
    for a in 0..q {
        for b in 0..q {
            for c in 0..q {
                let left = gf.mul(a, gf.add(b, c));
                let right = gf.add(gf.mul(a, b), gf.mul(a, c));
                assert_eq!(left, right);
            }
        }
    }
}

#[test]
fn gf3_prime() {
    check_field(&Gf::new(3).unwrap());
}

#[test]
fn gf4() {
    check_field(&Gf::new(4).unwrap());
}

#[test]
fn gf8() {
    check_field(&Gf::new(8).unwrap());
}

#[test]
fn gf9() {
    check_field(&Gf::new(9).unwrap());
}

#[test]
fn gf16() {
    check_field(&Gf::new(16).unwrap());
}

#[test]
fn gf25() {
    check_field(&Gf::new(25).unwrap());
}

#[test]
fn gf27() {
    check_field(&Gf::new(27).unwrap());
}

#[test]
fn gf49() {
    check_field(&Gf::new(49).unwrap());
}

#[test]
fn rejects_non_prime_power() {
    assert!(Gf::new(6).is_err());
    assert!(Gf::new(10).is_err());
    assert!(Gf::new(12).is_err());
}

// ===== Products =====

#[test]
fn mixed_2_and_3() {
    let sel = kronecker::try_construct(&[2, 2, 3, 3]).unwrap().unwrap();
    assert_eq!(sel.array.len(), 36);
    verify_strength2(&sel.array, &sel.column_levels).unwrap();
}

#[test]
fn declines_when_homogeneous() {
    let sel = kronecker::try_construct(&[3, 3, 3, 3]).unwrap();
    assert!(sel.is_none(), "should defer to Bush");
}

#[test]
fn product_size_is_known_before() {
    assert_eq!(kronecker::rows_needed(&[2, 2, 3, 3]), Some(36));
}

// ===== Catalog =====

#[test]
fn parses_oa_filename() {
    let m = parse_filename("oa.16.15.2.2.0.txt").unwrap();
    assert_eq!(m.n_runs, 16);
    assert_eq!(m.columns, vec![2; 15]);
}

#[test]
fn parses_ma_filename() {
    let m = parse_filename("MA.36.6.1.3.5.2.4.txt").unwrap();
    assert_eq!(m.n_runs, 36);
    assert_eq!(m.columns.iter().filter(|&&l| l == 6).count(), 1);
    assert_eq!(m.columns.iter().filter(|&&l| l == 3).count(), 5);
    assert_eq!(m.columns.iter().filter(|&&l| l == 2).count(), 4);
}

#[test]
fn other_filenames_are_passed_over() {
    assert!(parse_filename("had.12.txt").is_none());
    assert!(parse_filename("oa.16.15.2.txt").is_none());
    assert!(parse_filename("oa.16.15.2.2").is_none());
    assert!(parse_filename("MA.36.6.txt").is_none());
}

#[test]
fn index_has_entries() {
    let mut files = catalog_files();
    for i in 0..60 {
        files.push((format!("oa.8.7.2.2.{i}.txt"), body(&bush_rows(2, 3))));
    }
    let idx = build_index(&files);
    assert!(idx.len() > 50, "got {} entries", idx.len());
    // By rows, then columns, then name.
    for pair in idx.windows(2) {
        let key = |e: &CatalogEntry| (e.n_runs, e.columns.len(), e.name.clone());
        assert!(key(&pair[0]) <= key(&pair[1]));
    }
}

#[test]
fn l12_plackett_burman() {
    let levels = vec![2; 11];
    let sel = find(&catalog(), &levels).expect("L12 must be in catalog");
    assert_eq!(sel.array.len(), 12);
    verify_strength2(&sel.array, &sel.column_levels).unwrap();
}

#[test]
fn mixed_l18_from_homogeneous() {
    let levels = vec![3; 7];
    let sel = find(&catalog(), &levels).unwrap();
    assert_eq!(sel.array.len(), 18);
    verify_strength2(&sel.array, &sel.column_levels).unwrap();
}

#[test]
fn bodies_are_checked() {
    assert_eq!(
        parse_body("00\n01\n10\n11\n", 4, &[2, 2]).unwrap(),
        vec![vec![0, 0], vec![0, 1], vec![1, 0], vec![1, 1]]
    );
    // A value out of range, too few rows.
    assert!(parse_body("00\n02\n10\n11\n", 4, &[2, 2]).is_none());
    assert!(parse_body("00\n01\n", 4, &[2, 2]).is_none());
    // Lines of another width are passed over.
    assert_eq!(parse_body("x\n0 0\n\n1 1", 2, &[2, 2]).unwrap(), vec![vec![0, 0], vec![1, 1]]);
}

#[test]
fn chosen_columns_are_named() {
    let c = catalog();
    let entry = &c[entries_supplying(&c, &[2, 2, 2, 2])[0]];
    assert_eq!(entry.name, "oa.8.7.2.2.txt");
    let sel = select_columns(entry, &[0, 1, 3, 6]);
    assert_eq!(sel.info.label, "L8 (Sloane oa.8.7.2.2.txt, cols 1,2,4,7)");
    assert_eq!(sel.info.method, "Sloane lookup (oa.8.7.2.2.txt)");
    assert_eq!(sel.rows(), 8);
    assert_eq!(sel.array[5][2], entry.array[5][3]);
}

#[test]
fn found_columns_are_labelled() {
    let sel = find(&catalog(), &[2, 2]).unwrap();
    assert_eq!(sel.info.label, "L4 (Sloane oa.4.3.2.2.txt, 2 of 3 cols used)");
    assert_eq!((sel.info.rows, sel.info.cols), (4, 2));
    assert!(find(&catalog(), &[7, 7]).is_none());
    assert!(find(&catalog(), &[]).is_none());
}

// ===== Tiers =====

fn fac(name: &str, n: usize) -> Factor {
    let spec = format!("d[1-{}]", n);
    Factor::parse(name, &spec, &Numbers::Absent).unwrap()
}

fn assert_valid(sel: &Selected) {
    verify_strength2(&sel.array, &sel.column_levels)
        .unwrap_or_else(|e| panic!("invalid OA: {:?}\nmethod: {}", e, sel.info.method));
}

fn built(fs: &[Factor], methods: &[Method]) -> Selected {
    build_with_methods(fs, methods, &catalog()).unwrap()
}

#[test]
fn tier1_lookup_isolated() {
    let fs: Vec<Factor> = (0..11).map(|i| fac(&format!("f{}", i), 2)).collect();
    let sel = built(&fs, &[Method::Lookup]);
    assert!(sel.info.method.contains("Sloane"), "got {}", sel.info.method);
    assert_eq!(sel.rows(), 12);
    assert_valid(&sel);
}

#[test]
fn tier2_bush_isolated_prime() {
    let fs: Vec<Factor> = (0..4).map(|i| fac(&format!("f{}", i), 3)).collect();
    let sel = built(&fs, &[Method::Bush]);
    assert!(sel.info.method.contains("Bush GF(3)"), "got {}", sel.info.method);
    assert_eq!(sel.rows(), 9);
    assert_valid(&sel);
}

#[test]
fn tier2_bush_isolated_prime_power() {
    let fs: Vec<Factor> = (0..5).map(|i| fac(&format!("f{}", i), 4)).collect();
    let sel = built(&fs, &[Method::Bush]);
    assert!(sel.info.method.contains("GF(4=2^2)"), "got {}", sel.info.method);
    assert_eq!(sel.rows(), 16);
    assert_valid(&sel);
}

#[test]
fn tier2_bush_declines_mixed_level() {
    let fs = vec![fac("a", 2), fac("b", 2), fac("c", 3), fac("d", 3)];
    let r = build_with_methods(&fs, &[Method::Bush], &catalog());
    assert!(r.is_err(), "Bush should decline mixed-level");
}

#[test]
fn tier3_kronecker_isolated() {
    let fs = vec![fac("a", 2), fac("b", 2), fac("c", 3), fac("d", 3)];
    let sel = built(&fs, &[Method::Kronecker]);
    assert!(sel.info.method.contains("Kronecker"), "got {}", sel.info.method);
    assert_valid(&sel);
}

#[test]
fn tier4_backtrack_isolated() {
    let fs: Vec<Factor> = (0..3).map(|i| fac(&format!("f{}", i), 2)).collect();
    let sel = built(&fs, &[Method::Backtrack]);
    assert!(sel.info.method.contains("Backtrack"), "got {}", sel.info.method);
    assert_valid(&sel);
}

#[test]
fn dispatch_prefers_lookup_when_available() {
    let fs: Vec<Factor> = (0..4).map(|i| fac(&format!("f{}", i), 3)).collect();
    let sel = build_array(&fs, &catalog()).unwrap();
    assert!(sel.info.method.contains("Sloane"), "got {}", sel.info.method);
    assert_valid(&sel);
}

#[test]
fn dispatch_falls_through_to_bush() {
    let fs: Vec<Factor> = (0..6).map(|i| fac(&format!("f{}", i), 5)).collect();
    let sel = built(&fs, &[Method::Bush, Method::Kronecker, Method::Backtrack]);
    assert!(sel.info.method.starts_with("Bush"), "got {}", sel.info.method);
    assert_valid(&sel);
}

#[test]
fn dispatch_falls_through_to_kronecker() {
    let fs = vec![fac("a", 2), fac("b", 2), fac("c", 5), fac("d", 5), fac("e", 5)];
    let sel = built(&fs, &[Method::Kronecker, Method::Backtrack]);
    assert!(sel.info.method.contains("Kronecker"), "got {}", sel.info.method);
    assert_valid(&sel);
}

#[test]
fn dispatch_falls_through_to_backtrack() {
    let fs: Vec<Factor> = (0..3).map(|i| fac(&format!("f{}", i), 2)).collect();
    let sel = built(&fs, &[Method::Backtrack]);
    assert!(sel.info.method.contains("Backtrack"), "got {}", sel.info.method);
    assert_valid(&sel);
}

#[test]
fn strength_faults_are_named() {
    let array = vec![vec![0, 0], vec![0, 1], vec![1, 0], vec![1, 0]];
    match verify_strength2(&array, &[2, 2]) {
        Err(Strength2Fault::Unbalanced { i, j, x, y, count, expected }) => {
            assert_eq!((i, j), (0, 1));
            assert_eq!(expected, 1);
            assert_ne!(count, expected);
            assert!(x < 2 && y < 2);
        }
        other => panic!("{other:?}"),
    }
    let text = |array: &[Vec<usize>]| verify_strength2(array, &[2, 2]).unwrap_err().to_text();
    assert_eq!(text(&array), "cols 0,1: combo (1,0) appears 2 times, expected 1");
    assert_eq!(
        text(&[vec![0, 0], vec![0, 1], vec![1, 0]]),
        "cols 0,1: N=3 not divisible by qi*qj=4"
    );
    assert_eq!(
        text(&[vec![0, 2], vec![0, 1], vec![1, 0], vec![1, 1]]),
        "col 1 value 2 ≥ qj=2"
    );
    assert_eq!(
        text(&[vec![0, 0], vec![3, 1], vec![1, 0], vec![1, 1]]),
        "col 0 value 3 ≥ qi=2"
    );
    match verify_strength2(&[vec![0, 0], vec![0, 1], vec![1, 0]], &[2, 2]) {
        Err(Strength2Fault::NotDivisible { rows, product, .. }) => {
            assert_eq!((rows, product), (3, 4))
        }
        other => panic!("{other:?}"),
    }
    match verify_strength2(&[vec![0, 2], vec![0, 1], vec![1, 0], vec![1, 1]], &[2, 2]) {
        Err(Strength2Fault::OutOfRange { col, value, level, second }) => {
            assert_eq!((col, value, level, second), (1, 2, 2, true))
        }
        other => panic!("{other:?}"),
    }
}

#[test]
fn the_search_finds_arrays_whatever_their_row_order() {
    let shuffled = [[1, 0, 1], [0, 1, 1], [1, 1, 0], [0, 0, 0]].map(|r| r.to_vec());
    assert!(verify_strength2(&shuffled, &[2, 2, 2]).is_ok());
    let found = search(4, &[2, 2, 2]).unwrap();
    assert_eq!(found, [[0, 0, 0], [0, 1, 1], [1, 0, 1], [1, 1, 0]].map(|r| r.to_vec()));
    assert!(search(4, &[2, 2, 2, 2]).is_none());
}

#[test]
fn requests_without_an_array_are_refused() {
    let e = build_array(&[], &catalog()).unwrap_err().to_text();
    assert!(!e.is_empty());
    let fs = vec![fac("a", 2), fac("b", 3)];
    let e = build_with_methods(&fs, &[Method::Bush], &[]).unwrap_err().to_text();
    assert!(e.contains("Bush"), "{e}");
}

#[test]
fn methods_that_need_no_field_take_any_level_count() {
    let wide = vec![fac("a", 53), fac("b", 53)];
    let e = build_with_methods(&wide, &[Method::Lookup], &[]).unwrap_err().to_text();
    assert_eq!(e, "no method in [Lookup] produced an OA for level structure [53, 53]");
    let e = build_with_methods(&wide, &[Method::Backtrack], &catalog()).unwrap_err().to_text();
    assert_eq!(e, "no method in [Backtrack] produced an OA for level structure [53, 53]");
    // One level count is not for the product, and two are not for a single block.
    let e = build_with_methods(&wide, &[Method::Kronecker], &[]).unwrap_err().to_text();
    assert_eq!(e, "no method in [Kronecker] produced an OA for level structure [53, 53]");
    let mixed = vec![fac("a", 2), fac("b", 53)];
    let e = build_with_methods(&mixed, &[Method::Bush, Method::Backtrack], &[]).unwrap_err();
    assert_eq!(
        e.to_text(),
        "no method in [Bush, Backtrack] produced an OA for level structure [2, 53]"
    );
    let served = built(&[fac("a", 2), fac("b", 2)], &[Method::Backtrack, Method::Kronecker]);
    assert!(served.info.method.contains("Backtrack"));
}

#[test]
fn the_same_request_builds_the_same_array() {
    let fs = vec![fac("a", 2), fac("b", 3), fac("c", 2)];
    let (a, b) = (build_array(&fs, &catalog()).unwrap(), build_array(&fs, &catalog()).unwrap());
    assert_eq!(a.array, b.array);
    assert_eq!(a.column_levels, b.column_levels);
    assert_eq!(a.info.label, b.info.label);
}
