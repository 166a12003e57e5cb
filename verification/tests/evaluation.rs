//! Tests of the whole pipeline: conversions and decompositions on a realistic
//! catalog, with the numeric scale factor evaluated here.

use unitcalc::common::{all_prefixes, all_units};
use unitcalc::interpreter::{EvalError, Interpreter};
use unitcalc::register::{prefixes, Catalog, PrefixTable};
use unitcalc::scale::Factor;
use unitcalc::units::Unit;

const EPS: f64 = 0.001;

fn fac(num: u64, den: u64) -> Factor {
    Factor { num, den, exp: 1 }
}

fn comp(tag: &str, pow: i64) -> Unit {
    Unit { tag: tag.to_string(), mpl: vec![], pow, base: vec![] }
}

fn scaled_comp(tag: &str, num: u64, den: u64, pow: i64) -> Unit {
    Unit { tag: tag.to_string(), mpl: vec![fac(num, den)], pow, base: vec![] }
}

fn atomic(tag: &str) -> Unit {
    Unit { tag: tag.to_string(), mpl: vec![], pow: 1, base: vec![] }
}

fn derived(tag: &str, base: Vec<Unit>) -> Unit {
    Unit { tag: tag.to_string(), mpl: vec![], pow: 1, base }
}

fn init_units() -> Catalog {
    let mut voc = Catalog::new();
    voc.add_unit(atomic("кг"));
    voc.add_unit(atomic("м"));
    voc.add_unit(atomic("с"));
    voc.add_unit(atomic("А"));
    voc.add_unit(derived("г", vec![scaled_comp("кг", 1, 1000, 1)]));
    voc.add_unit(derived("Н", vec![comp("кг", 1), comp("м", 1), comp("с", -2)]));
    voc.add_unit(derived("Па", vec![comp("кг", 1), comp("м", -1), comp("с", -2)]));
    voc.add_unit(derived("Гц", vec![comp("с", -1)]));
    voc.add_unit(derived("ч", vec![scaled_comp("с", 3600, 1, 1)]));
    voc.add_unit(derived("сут", vec![scaled_comp("с", 86400, 1, 1)]));
    voc.add_unit(derived("мес30", vec![scaled_comp("с", 2635200, 1, 1)]));
    voc.add_unit(derived("км", vec![scaled_comp("м", 1000, 1, 1)]));
    voc.add_unit(derived("дм", vec![scaled_comp("м", 1, 10, 1)]));
    voc.add_unit(derived("см", vec![scaled_comp("м", 1, 100, 1)]));
    voc.add_unit(derived("атм", vec![scaled_comp("Па", 101325, 1, 1)]));
    voc.add_unit(derived("акр", vec![scaled_comp("м", 404686, 100, 2)]));
    voc.add_unit(derived(
        "кгс",
        vec![scaled_comp("кг", 980665, 100000, 1), comp("м", 1), comp("с", -2)],
    ));
    voc.add_unit(derived(
        "тс",
        vec![scaled_comp("кг", 980665, 100, 1), comp("м", 1), comp("с", -2)],
    ));
    voc.add_unit(derived(
        "В",
        vec![comp("кг", 1), comp("м", 2), comp("с", -3), comp("А", -1)],
    ));
    voc
}

fn scale_value(v: &[Factor]) -> f64 {
    let mut r = 1.0f64;
    for f in v {
        r *= (f.num as f64 / f.den as f64).powi(f.exp as i32);
    }
    r
}

fn conv_f64(ii: &mut Interpreter, stmt: &str, voc: &Catalog, pt: &PrefixTable) -> Result<f64, EvalError> {
    let folded = ii.conv(stmt, voc, pt)?;
    let val: f64 = stmt.split(' ').next().unwrap().parse().unwrap();
    Ok(val * scale_value(&folded.mpl))
}

fn deco_str(ii: &mut Interpreter, stmt: &str, voc: &Catalog, pt: &PrefixTable) -> Result<String, EvalError> {
    let rendered = ii.deco(stmt, voc, pt)?;
    let mpl = format!("{:.3}", scale_value(&ii.state.mpl));
    Ok(format!("{} {}", mpl, rendered))
}

fn test_conv_data<'a>() -> Vec<(u8, &'a str, f64)> {
    vec![
        (1, "1 Па^2=>Н^2/м^4", 1.0),
        (2, "1 Па=>Н/м^2", 1.0),
        (3, "1 к_Па=>Н/м^2", 1000.0),
        (4, "1 к_Па^2=>Н^2/м^4", 1000000.0),
        (5, "1 к_Па^2/сут^3=>кг^2/м^2*с^7", 1.55045359574252e-9),
        (6, "1 к_Па^2/м_сут^3=>кг^2/м^2*с^7", 1.55045359574252),
        (7, "1 к_Па^2/см^3=>кг^2/м^5*с^4", 1e12),
        (9, "1 к_Па^2/км^2=>кг^2/м^4*с^4", 1.0),
        (10, "1 ч^2=>с^2", 1.296e7),
        (11, "1 сут^2=>с^2", 7.46496e9),
        (12, "1 сут=>с", 86400.0),
        (13, "1 мес30^2=>с^2", 6.94427904e12),
        (14, "1 км/ч=>м/с", 0.2777777778),
        (15, "1 сут^2/кгс^2=>с^6/кг^2*м^2", 77622233.2930381),
        (16, "1 кг/м^3=>м_г/дм^3", 1000.0),
        (17, "1 атм/м^2=>Па/дм^2", 1.01325e3),
        (18, "1 атм=>Па", 1.01325e5),
        (19, "1 тс^3/В^2=>кг*А^2*м^-1", 9.431092984355795e11),
        (20, "1 акр^2=>м^4", 16377075.8596),
        (21, "1 кгс=>кг*м/с^2", 9.80665),
        (22, "1 кгс^3=>кг^3*м^3/с^6", 943.1092984356),
        (23, "1 сут^2/кгс^2=>с^6/кг^2*м^2", 77622233.2930381),
        (24, "1 акр^2/сут^3=>м^4/с^3", 2.5391851259e-8),
        (25, "1 акр^2/сут^2=>м^4/с^2", 2.1938559488e-3),
    ]
}

fn test_deco_data<'a>() -> Vec<(u8, &'a str, &'a str)> {
    vec![(1, "Па/дм^2", "100.000 [кг^1 * м^-3 * с^-2]")]
}

#[test]
fn test_interpreter_deco() {
    let voc = init_units();
    let pt = prefixes();
    let mut ii = Interpreter::new();

    for (i, deco, expected) in test_deco_data().iter() {
        match deco_str(&mut ii, deco, &voc, &pt) {
            Ok(v) => {
                assert_eq!(v, *expected);
                println!("{i:5} PASSED: {deco} = {v}");
            }
            Err(_e) => assert!(false),
        }
    }
}

#[test]
fn test_interpreter_conv() {
    let voc = init_units();
    let pt = prefixes();
    let mut ii = Interpreter::new();

    for (i, conv, ex_mpl) in test_conv_data().iter() {
        match conv_f64(&mut ii, conv, &voc, &pt) {
            Ok(v) => {
                assert!((v - ex_mpl).abs() < EPS);
                println!("{i:5} PASSED: {conv} = {v}");
            }
            Err(_e) => assert!(false),
        }
    }
}

#[test]
fn test_deco_collapses_prefixed_metres() {
    // exponents 3+2-1-2-3 = -1: one atomic entry м^-1 remains
    let voc = init_units();
    let pt = prefixes();
    let mut ii = Interpreter::new();
    let rendered = ii
        .deco("мк_м^3*с_м^2*к_м^-1/н_м^2*д_м^3", &voc, &pt)
        .unwrap();
    assert_eq!(rendered, "[м^-1]");
    assert_eq!(ii.state.units.len(), 1);
    assert_eq!(ii.state.units[0].tag, "м");
    assert_eq!(ii.state.units[0].pow, -1);
    // expansion raises an atomic entry's accumulated local scale (1e-4 from
    // the prefixes) to the entry's exponent, here -1
    assert!((scale_value(&ii.state.mpl) - 1e4).abs() < EPS * 1e4);
}

#[test]
fn test_deco_sorts_by_tag() {
    let voc = init_units();
    let pt = prefixes();
    let mut ii = Interpreter::new();
    let rendered = ii.deco("с^-2*м^-3*кг", &voc, &pt).unwrap();
    assert_eq!(rendered, "[кг^1 * м^-3 * с^-2]");
}

#[test]
fn test_incoherent_conversion_fails() {
    // a length against a mass never converts
    let voc = init_units();
    let pt = prefixes();
    let mut ii = Interpreter::new();
    match ii.conv("1 м=>кг", &voc, &pt) {
        Ok(_) => panic!("incoherent conversion must not yield a value"),
        Err(EvalError::Units(e)) => {
            assert_eq!(e.message(), "units not coherent:[м^1] <=> [кг^1]");
        }
        Err(_) => panic!("wrong error kind"),
    }
}

#[test]
fn test_unknown_names_fail() {
    let voc = init_units();
    let pt = prefixes();
    let mut ii = Interpreter::new();
    match ii.conv("1 фут=>м", &voc, &pt) {
        Err(EvalError::Units(e)) => assert_eq!(e.message(), "unit фут not found"),
        _ => panic!("unknown unit must fail"),
    }
    match ii.conv("1 э_м=>м", &voc, &pt) {
        Err(EvalError::Units(e)) => assert_eq!(e.message(), "unit prefix э not found"),
        _ => panic!("unknown prefix must fail"),
    }
    match ii.conv("1  м=>м", &voc, &pt) {
        Err(EvalError::Parse(e)) => {
            assert_eq!(e.message(), "input cannot contain: 2 spaces, 0 or 1 is allowed")
        }
        _ => panic!("two spaces must fail"),
    }
}

#[test]
fn test_conversion_round_trip_scenario() {
    let voc = init_units();
    let pt = prefixes();
    let mut ii = Interpreter::new();
    let out = conv_f64(&mut ii, "1 км/ч=>м/с", &voc, &pt).unwrap();
    let back = conv_f64(&mut ii, "1 м/с=>км/ч", &voc, &pt).unwrap();
    assert!((out * back - 1.0).abs() < EPS);
    let out = conv_f64(&mut ii, "1 атм=>Па", &voc, &pt).unwrap();
    let back = conv_f64(&mut ii, "1 Па=>атм", &voc, &pt).unwrap();
    assert!((out * back - 1.0).abs() < EPS);
}

#[test]
fn test_listings() {
    let voc = init_units();
    let pt = prefixes();
    let units = all_units(&voc);
    assert!(units.contains("кг"));
    assert!(units.contains("атм"));
    assert_eq!(all_prefixes(&pt), "Т, Г, М, к, г, да, д, с, м, мк, н, п");
}
