use taguchi::factor::{
    Factor, FactorKind, FactorValue, FloatLevel, Numbers, Request, Scale, ScaleNumbers,
};

fn float_text(x: f64) -> String {
    if x.fract() == 0.0 && x.abs() < 1e15 {
        format!("{}", x as i64)
    } else {
        let s = format!("{x:.6}");
        s.trim_end_matches('0').trim_end_matches('.').to_string()
    }
}

fn level(x: f64) -> FloatLevel {
    FloatLevel { bits: x.to_bits(), text: float_text(x) }
}

fn answer(request: &Request) -> Numbers {
    match request {
        Request::Nothing => Numbers::Absent,
        Request::Floats(texts) => {
            Numbers::Floats(texts.iter().map(|t| t.parse::<f64>().ok().map(level)).collect())
        }
        Request::Levels { scale, args } => {
            let p: Vec<f64> = args.iter().map(|a| a.parse().unwrap()).collect();
            let (low, high, n) = (p[0], p[1], p[2] as usize);
            let (l, h) = (low.to_bits(), high.to_bits());
            let spaced = |f: &dyn Fn(f64) -> f64| {
                (0..n).map(|i| level(f(i as f64 / (n - 1) as f64))).collect::<Vec<_>>()
            };
            let ratio = high / low;
            Numbers::Levels(Ok(match scale {
                Scale::LogLow => ScaleNumbers {
                    kind: FactorKind::LogLow { low: l, high: h },
                    levels: spaced(&|t| low * ratio.powf(t)),
                },
                Scale::LogHigh => ScaleNumbers {
                    kind: FactorKind::LogHigh { low: l, high: h },
                    levels: spaced(&|t| high + low - low * ratio.powf(1.0 - t)),
                },
                _ => ScaleNumbers {
                    kind: FactorKind::Uniform { low: l, high: h },
                    levels: spaced(&|t| low + t * (high - low)),
                },
            }))
        }
    }
}

fn parse(spec: &str) -> Factor {
    Factor::parse("x", spec, &answer(&Factor::request(spec))).unwrap()
}

fn number(v: &FactorValue) -> f64 {
    match v {
        FactorValue::Int(n) => *n as f64,
        FactorValue::Float(x) => f64::from_bits(x.bits),
        FactorValue::Text(s) => panic!("{s} is no number"),
    }
}

fn is_int(v: &FactorValue, n: i64) -> bool {
    v.same(&FactorValue::Int(n))
}

#[test]
fn discrete_range() {
    let f = Factor::parse("x", "d[1,2-4,9]", &Numbers::Absent).unwrap();
    assert_eq!(f.values.len(), 5);
    assert!(is_int(&f.values[0], 1));
    assert!(is_int(&f.values[1], 2));
    assert!(is_int(&f.values[4], 9));
}

#[test]
fn discrete_negative() {
    let f = Factor::parse("x", "d[-5--3,0]", &Numbers::Absent).unwrap();
    assert_eq!(f.values.len(), 4);
    assert!(is_int(&f.values[0], -5));
    assert!(is_int(&f.values[3], 0));
}

#[test]
fn discrete_strings() {
    let f = Factor::parse("mode", r#"d["off","soft","aggressive"]"#, &Numbers::Absent).unwrap();
    assert_eq!(f.values.len(), 3);
}

#[test]
fn uniform_spacing() {
    let f = parse("uniform[0, 10, 5]");
    assert_eq!(number(&f.values[0]), 0.0);
    assert!((number(&f.values[2]) - 5.0).abs() < 1e-9);
    assert!((number(&f.values[4]) - 10.0).abs() < 1e-9);
    assert!(matches!(f.kind, FactorKind::Uniform { .. }));
}

#[test]
fn log_low_geometric() {
    let f = parse("logLow[1, 1000, 4]");
    let v: Vec<f64> = f.values.iter().map(number).collect();
    assert!((v[0] - 1.0).abs() < 1e-6);
    assert!((v[1] - 10.0).abs() < 1e-6);
    assert!((v[2] - 100.0).abs() < 1e-6);
    assert!((v[3] - 1000.0).abs() < 1e-6);
}

#[test]
fn log_high_endpoints() {
    let f = parse("logHigh[1, 1000, 4]");
    let v: Vec<f64> = f.values.iter().map(number).collect();
    assert!((v[0] - 1.0).abs() < 1e-6);
    assert!((v[3] - 1000.0).abs() < 1e-6);
    assert!((v[1] - v[0]) > (v[3] - v[2]));
}

#[test]
fn specs_ask_for_the_numbers_they_need() {
    assert!(matches!(Factor::request("d[1,2]"), Request::Nothing));
    match Factor::request("d[1, 2.5, 1e3]") {
        Request::Floats(t) => assert_eq!(t, ["2.5", "1e3"]),
        other => panic!("{other:?}"),
    }
    match Factor::request("uniform[0,10,5]") {
        Request::Levels { scale, args } => {
            assert_eq!(scale, Scale::Uniform);
            assert_eq!(args, ["0", "10", "5"]);
        }
        other => panic!("{other:?}"),
    }
    assert_eq!(parse("uniform[0,10,5]").values.len(), 5);
    let f = parse("d[1,2.5]");
    assert_eq!(f.values[1].to_text(), "2.5");
    assert_eq!(f.values[0].to_text(), "1");
}

#[test]
fn bad_specs_are_refused() {
    for (spec, message) in [
        ("d", "factor spec"),
        ("z[1,2]", "unknown factor kind 'z'"),
        ("d[5-2,9]", "invalid range 5..2"),
        ("d[1]", "must have"),
        ("uniform[1,2]", "uniform expects 3..3 args, got 2"),
        ("d[x,1]", "integer 'x'"),
    ] {
        let e = Factor::parse("x", spec, &Numbers::Absent).unwrap_err().to_text();
        assert!(e.contains(message), "{spec}: {e}");
    }
}
