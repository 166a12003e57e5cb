//! Tests of the unit algebra: expansion to atomic units, folding parsed
//! occurrences, and the algebra's laws on concrete values.

use unitcalc::register::{prefixes, Catalog};
use unitcalc::scale::Factor;
use unitcalc::units::{BaseUnits, ParsedUnit, Unit};
use unitcalc::expand::to_bases;

fn fac(num: u64, den: u64) -> Factor {
    Factor { num, den, exp: 1 }
}

fn comp(tag: &str, pow: i64) -> Unit {
    Unit { tag: tag.to_string(), mpl: vec![], pow, base: vec![] }
}

fn scaled_comp(tag: &str, num: u64, den: u64, pow: i64) -> Unit {
    Unit { tag: tag.to_string(), mpl: vec![fac(num, den)], pow, base: vec![] }
}

fn atomic(tag: &str) -> Unit {
    Unit { tag: tag.to_string(), mpl: vec![], pow: 1, base: vec![] }
}

fn derived(tag: &str, base: Vec<Unit>) -> Unit {
    Unit { tag: tag.to_string(), mpl: vec![], pow: 1, base }
}

fn catalog() -> Catalog {
    let mut voc = Catalog::new();
    voc.add_unit(atomic("кг"));
    voc.add_unit(atomic("м"));
    voc.add_unit(atomic("с"));
    voc.add_unit(atomic("А"));
    voc.add_unit(derived("г", vec![scaled_comp("кг", 1, 1000, 1)]));
    voc.add_unit(derived("Н", vec![comp("кг", 1), comp("м", 1), comp("с", -2)]));
    voc.add_unit(derived("Па", vec![comp("кг", 1), comp("м", -1), comp("с", -2)]));
    voc.add_unit(derived("Гц", vec![comp("с", -1)]));
    voc.add_unit(derived("ч", vec![scaled_comp("с", 3600, 1, 1)]));
    voc.add_unit(derived("сут", vec![scaled_comp("с", 86400, 1, 1)]));
    voc.add_unit(derived("мес30", vec![scaled_comp("с", 2635200, 1, 1)]));
    voc.add_unit(derived("км", vec![scaled_comp("м", 1000, 1, 1)]));
    voc.add_unit(derived("дм", vec![scaled_comp("м", 1, 10, 1)]));
    voc.add_unit(derived("см", vec![scaled_comp("м", 1, 100, 1)]));
    voc.add_unit(derived("атм", vec![scaled_comp("Па", 101325, 1, 1)]));
    voc.add_unit(derived("акр", vec![scaled_comp("м", 404686, 100, 2)]));
    voc.add_unit(derived(
        "кгс",
        vec![scaled_comp("кг", 980665, 100000, 1), comp("м", 1), comp("с", -2)],
    ));
    voc.add_unit(derived(
        "тс",
        vec![scaled_comp("кг", 980665, 100, 1), comp("м", 1), comp("с", -2)],
    ));
    voc.add_unit(derived(
        "В",
        vec![comp("кг", 1), comp("м", 2), comp("с", -3), comp("А", -1)],
    ));
    voc
}

fn abc_catalog() -> Catalog {
    let mut voc = Catalog::new();
    voc.add_unit(atomic("H"));
    voc.add_unit(derived("A", vec![scaled_comp("B", 2, 1, 2), scaled_comp("C", 4, 1, 3)]));
    voc.add_unit(derived("B", vec![scaled_comp("D", 3, 1, 1)]));
    voc.add_unit(derived("C", vec![scaled_comp("E", 2, 1, 2), scaled_comp("F", 4, 1, 3)]));
    voc.add_unit(derived("D", vec![scaled_comp("H", 7, 1, 2)]));
    voc.add_unit(derived("E", vec![scaled_comp("H", 4, 1, 1)]));
    voc.add_unit(derived("F", vec![scaled_comp("H", 5, 1, 3)]));
    voc
}

fn scale_value(v: &[Factor]) -> f64 {
    let mut r = 1.0f64;
    for f in v {
        r *= (f.num as f64 / f.den as f64).powi(f.exp as i32);
    }
    r
}

fn dup_with(voc: &Catalog, tag: &str, pow: i64, mpl: Vec<Factor>) -> Unit {
    let u = voc.resolve(&tag.to_string()).expect("unit in catalog");
    let mut d = unitcalc::units::unit_dup(u);
    d.pow = pow;
    d.mpl = mpl;
    d
}

fn entry<'a>(bu: &'a BaseUnits, tag: &str) -> &'a Unit {
    bu.units.iter().find(|u| u.tag == tag).expect("entry present")
}

fn approx(a: f64, b: f64) -> bool {
    (a - b).abs() < 0.001
}

fn log(h: &str, src: &Unit, m: f64, v: &[Unit]) {
    println!("1 {:?} = {:?} {:?}^{:?}", h, scale_value(&src.mpl), src.tag, src.pow);
    println!("{:?} {:?}", m, v);
}

#[test]
fn test_to_bases_fn_synth() {
    let voc = abc_catalog();

    // A: 2 B^2
    //    4 C^3
    // B: 3 D^1
    // C: 2 E^2
    //    4 F^3
    // D: 7 H^2
    // E: 4 H^1
    // F: 5 H^3
    // H: []

    let ba = dup_with(&voc, "A", 1, vec![]);
    let (m, v) = to_bases(&ba, &voc);
    log("A", &ba, scale_value(&m), &v);
    assert!(v.iter().all(|u| u.tag == "H"));
    println!("========");

    let a2 = dup_with(&voc, "A", 2, vec![]);
    let (m, v) = to_bases(&a2, &voc);
    log("A^2", &a2, scale_value(&m), &v);
    println!("========");

    let ka = dup_with(&voc, "A", 1, vec![fac(1000, 1)]);
    let (m, v) = to_bases(&ka, &voc);
    log("кA", &ka, scale_value(&m), &v);
    println!("========");

    let sa = dup_with(&voc, "A", 1, vec![fac(1, 100)]);
    let (m, v) = to_bases(&sa, &voc);
    log("sA", &sa, scale_value(&m), &v);
    println!("========");

    let ka2 = dup_with(&voc, "A", 2, vec![fac(1000, 1)]);
    let (m, v) = to_bases(&ka2, &voc);
    log("кA^2", &ka2, scale_value(&m), &v);
    println!("========");

    let sa2 = dup_with(&voc, "A", 2, vec![fac(1, 100)]);
    let (m, v) = to_bases(&sa2, &voc);
    log("sA^2", &sa2, scale_value(&m), &v);
    println!("========");
}

#[test]
fn test_to_bases_fn() {
    let voc = catalog();

    // к_Н
    let kn = dup_with(&voc, "Н", 1, vec![fac(1000, 1)]);
    let (m, v) = to_bases(&kn, &voc);
    log("кН", &kn, scale_value(&m), &v);
    assert!(approx(scale_value(&m), 1e3));
    assert_eq!(v.len(), 3);
    println!("========");

    // к_Н^2
    let kn2 = dup_with(&voc, "Н", 2, vec![fac(1000000, 1)]);
    let (m, v) = to_bases(&kn2, &voc);
    log("кН^2", &kn2, scale_value(&m), &v);
    assert!(approx(scale_value(&m), 1e6));
    println!("========");

    // д_Н^3
    let dn3 = dup_with(&voc, "Н", 3, vec![fac(1, 1000)]);
    let (m, v) = to_bases(&dn3, &voc);
    log("дН^3", &dn3, scale_value(&m), &v);
    assert!(approx(scale_value(&m), 1e-3));
    println!("========");

    let kgs = dup_with(&voc, "кгс", 1, vec![]);
    let (m, v) = to_bases(&kgs, &voc);
    log("кгс", &kgs, scale_value(&m), &v);
    assert!(approx(scale_value(&m), 9.80665));
    println!("========");
}

#[test]
fn test_add_parsed_unit_fn() {
    // p1: den:Y, к_Н^2 -> mpl: 1e-6 pow:-2
    // p2: den:N, М_Н^3 -> mpl: 1e18 pow:3
    let voc = catalog();
    let pt = prefixes();

    let mut bu = BaseUnits::default();

    let p1 = ParsedUnit {
        pfx: Some("к".to_string()),
        tag: "Н".to_string(),
        pow: 2,
        den: true,
    };

    let p2 = ParsedUnit {
        pfx: Some("М".to_string()),
        tag: "Н".to_string(),
        pow: 3,
        den: false,
    };

    let p3 = ParsedUnit {
        pfx: Some("г".to_string()),
        tag: "сут".to_string(),
        pow: 2,
        den: false,
    };

    let p1_mpl = 1.0 / 10f64.powi(3).powi(2i32); // к_Н^2
    let p2_mpl = 10f64.powi(6).powi(3i32); // М_Н^3
    let p3_mpl = 10f64.powi(2).powi(2i32); // г_сут^2

    let _ = bu.add_parsed_unit(
        ParsedUnit { pfx: p1.pfx.clone(), tag: p1.tag.clone(), pow: p1.pow, den: p1.den },
        &voc,
        &pt,
    );
    assert_eq!(scale_value(&entry(&bu, "Н").mpl), p1_mpl);
    assert_eq!(entry(&bu, "Н").pow, -(p1.pow as i64)); // denominator

    let _ = bu.add_parsed_unit(
        ParsedUnit { pfx: p2.pfx.clone(), tag: p2.tag.clone(), pow: p2.pow, den: p2.den },
        &voc,
        &pt,
    );
    assert_eq!(scale_value(&entry(&bu, "Н").mpl), p1_mpl * p2_mpl);
    assert_eq!(entry(&bu, "Н").pow, -(p1.pow as i64) + p2.pow as i64);

    let _ = bu.add_parsed_unit(
        ParsedUnit { pfx: p3.pfx.clone(), tag: p3.tag.clone(), pow: p3.pow, den: p3.den },
        &voc,
        &pt,
    );
    assert_eq!(scale_value(&entry(&bu, "Н").mpl), p1_mpl * p2_mpl);
    assert_eq!(entry(&bu, "Н").pow, -(p1.pow as i64) + p2.pow as i64);

    assert_eq!(scale_value(&entry(&bu, "сут").mpl), p3_mpl);
    assert_eq!(entry(&bu, "сут").pow, p3.pow as i64);

    assert_eq!(scale_value(&bu.mpl), 1.0);
}

#[test]
fn test_unknown_unit_and_prefix() {
    let voc = catalog();
    let pt = prefixes();
    let mut bu = BaseUnits::new();
    let bad_tag = ParsedUnit { pfx: None, tag: "фунт".to_string(), pow: 1, den: false };
    let e = bu.add_parsed_unit(bad_tag, &voc, &pt).unwrap_err();
    assert_eq!(e.message(), "unit фунт not found");
    let bad_pfx = ParsedUnit {
        pfx: Some("ξ".to_string()),
        tag: "м".to_string(),
        pow: 1,
        den: false,
    };
    let e = bu.add_parsed_unit(bad_pfx, &voc, &pt).unwrap_err();
    assert_eq!(e.message(), "unit prefix ξ not found");
}

#[test]
fn test_exponent_additivity_scenario() {
    // м^2 then м^3 collapse to м^5; м^2 then м^-2 cancel and reduction prunes
    let voc = catalog();
    let pt = prefixes();
    let mut bu = BaseUnits::new();
    bu.add_parsed_unit(
        ParsedUnit { pfx: None, tag: "м".to_string(), pow: 2, den: false },
        &voc,
        &pt,
    )
    .unwrap();
    bu.add_parsed_unit(
        ParsedUnit { pfx: None, tag: "м".to_string(), pow: 3, den: false },
        &voc,
        &pt,
    )
    .unwrap();
    assert_eq!(bu.units.len(), 1);
    assert_eq!(entry(&bu, "м").pow, 5);

    let mut bu2 = BaseUnits::new();
    bu2.add_parsed_unit(
        ParsedUnit { pfx: None, tag: "м".to_string(), pow: 2, den: false },
        &voc,
        &pt,
    )
    .unwrap();
    bu2.add_parsed_unit(
        ParsedUnit { pfx: None, tag: "м".to_string(), pow: -2, den: false },
        &voc,
        &pt,
    )
    .unwrap();
    assert_eq!(entry(&bu2, "м").pow, 0);
    let reduced = bu2.reduce(&voc);
    assert_eq!(reduced.units.len(), 0);
    assert_eq!(reduced.as_readable(), "[]");
}

#[test]
fn test_denominator_inversion_scenario() {
    // к_м^2 as a denominator: exponent -2, multiplier 1/10^(3*2)
    let voc = catalog();
    let pt = prefixes();
    let mut num_side = BaseUnits::new();
    num_side
        .add_parsed_unit(
            ParsedUnit { pfx: Some("к".to_string()), tag: "м".to_string(), pow: 2, den: false },
            &voc,
            &pt,
        )
        .unwrap();
    let mut den_side = BaseUnits::new();
    den_side
        .add_parsed_unit(
            ParsedUnit { pfx: Some("к".to_string()), tag: "м".to_string(), pow: 2, den: true },
            &voc,
            &pt,
        )
        .unwrap();
    let en = entry(&num_side, "м");
    let ed = entry(&den_side, "м");
    assert_eq!(ed.pow, -en.pow);
    assert_eq!(scale_value(&en.mpl), 1e6);
    assert_eq!(scale_value(&ed.mpl), 1e-6);
}

#[test]
fn test_reduce_idempotent_scenario() {
    // reducing a reduced signature leaves its entries untouched
    let voc = catalog();
    let pt = prefixes();
    let mut bu = BaseUnits::new();
    bu.add_parsed_unit(
        ParsedUnit { pfx: Some("к".to_string()), tag: "Па".to_string(), pow: 2, den: false },
        &voc,
        &pt,
    )
    .unwrap();
    bu.add_parsed_unit(
        ParsedUnit { pfx: None, tag: "сут".to_string(), pow: 1, den: true },
        &voc,
        &pt,
    )
    .unwrap();
    let once = bu.reduce(&voc);
    let rendered_once = once.as_readable();
    let twice = unitcalc::units::BaseUnits {
        units: unitcalc::units::units_dup(&once.units),
        mpl: once.mpl.clone(),
    }
    .reduce(&voc);
    assert_eq!(twice.as_readable(), rendered_once);
    // a pure dimensional signature is fully unchanged, scale included
    let mut pure = BaseUnits::new();
    pure.add_parsed_unit(
        ParsedUnit { pfx: None, tag: "м".to_string(), pow: 2, den: false },
        &voc,
        &pt,
    )
    .unwrap();
    pure.add_parsed_unit(
        ParsedUnit { pfx: None, tag: "кг".to_string(), pow: 1, den: false },
        &voc,
        &pt,
    )
    .unwrap();
    let p1 = pure.reduce(&voc);
    let r1 = p1.as_readable();
    let v1 = scale_value(&p1.mpl);
    let p2 = p1.reduce(&voc);
    assert_eq!(p2.as_readable(), r1);
    assert_eq!(scale_value(&p2.mpl), v1);
}

#[test]
fn test_coherence_symmetry_scenario() {
    let voc = catalog();
    let pt = prefixes();
    let mut a = BaseUnits::new();
    a.add_parsed_unit(ParsedUnit { pfx: None, tag: "м".to_string(), pow: 1, den: false }, &voc, &pt)
        .unwrap();
    let a = a.reduce(&voc);
    let mut b = BaseUnits::new();
    b.add_parsed_unit(
        ParsedUnit { pfx: Some("к".to_string()), tag: "м".to_string(), pow: 1, den: false },
        &voc,
        &pt,
    )
    .unwrap();
    let b = b.reduce(&voc);
    let mut c = BaseUnits::new();
    c.add_parsed_unit(ParsedUnit { pfx: None, tag: "кг".to_string(), pow: 1, den: false }, &voc, &pt)
        .unwrap();
    let c = c.reduce(&voc);
    assert_eq!(a.is_coherent(&b), b.is_coherent(&a));
    assert!(a.is_coherent(&b));
    assert_eq!(a.is_coherent(&c), c.is_coherent(&a));
    assert!(!a.is_coherent(&c));
}
