//! Tests of input validation and parsing.

use unitcalc::ast::{Expr, Stmt};
use unitcalc::parser::{enter_validation, parse_expr, parse_stmt, parse_unit};

fn check_unit_parse(e: Expr, pfx: Option<String>, tag: String, pow: i8, den: bool) {
    match e {
        Expr::Unit { pfx: p, tag: t, pow: w, den: d } => {
            assert_eq!(p, pfx);
            assert_eq!(t, tag);
            assert_eq!(w, pow);
            assert_eq!(d, den);
        }
        _ => panic!("test failed"),
    };
}

fn check_fraction_parse(e: Expr, up: Vec<Expr>, dn: Vec<Expr>) {
    match e {
        Expr::Fraction { up: u_vec, down: d_vec } => {
            for (i, u) in u_vec.into_iter().enumerate() {
                if let Expr::Unit { pfx: p, tag: t, pow: w, den: d } = up.get(i).unwrap() {
                    check_unit_parse(u, p.clone(), t.clone(), *w, *d)
                }
            }
            for (j, u) in d_vec.into_iter().enumerate() {
                if let Expr::Unit { pfx: p, tag: t, pow: w, den: d } = dn.get(j).unwrap() {
                    check_unit_parse(u, p.clone(), t.clone(), *w, *d)
                }
            }
        }
        _ => panic!("test failed"),
    }
}

fn check_convert_parse(
    e: Expr,
    val: f64,
    src_up: Vec<Expr>,
    src_dn: Vec<Expr>,
    dst_up: Vec<Expr>,
    dst_dn: Vec<Expr>,
) {
    match e {
        Expr::Convert(v, src_frac, dst_frac) => {
            assert_eq!(v.parse::<f64>().unwrap(), val);
            check_fraction_parse(*src_frac, src_up, src_dn);
            check_fraction_parse(*dst_frac, dst_up, dst_dn);
        }
        _ => panic!("test failed"),
    }
}

#[test]
fn test_enter_validation() {
    // two spaces
    assert!(enter_validation("1  кг=>т")
        .is_err_and(|e| e.message().contains("0 or 1 is allowed")));

    // wrong f32
    assert!(enter_validation("f1 кг=>т")
        .is_err_and(|e| e.message().contains("float input wrong")));

    // wrong f32
    assert!(enter_validation("1,0 кг=>т")
        .is_err_and(|e| e.message().contains("float input wrong")));

    // exactly 1 =>
    assert!(enter_validation("10.1 кг")
        .is_err_and(|e| e.message().contains("one '=>' occurrence")));

    // exactly 1 =>
    assert!(enter_validation("10.1 =>кг=>")
        .is_err_and(|e| e.message().contains("one '=>' occurrence")));
}

#[test]
fn test_enter_validation_messages() {
    let e = enter_validation("1  кг=>т").unwrap_err();
    assert_eq!(
        e.message(),
        "input cannot contain: 2 spaces, 0 or 1 is allowed"
    );
    assert_eq!(enter_validation("1 кг=>т").unwrap(), "1 кг=>т");
    assert_eq!(enter_validation("кг/м^3").unwrap(), "кг/м^3");
    // the float grammar accepts scientific notation and special words
    assert!(enter_validation("1.5e-3 кг=>т").is_ok());
    assert!(enter_validation("-.5 кг=>т").is_ok());
    assert!(enter_validation("inf кг=>т").is_ok());
    assert!(enter_validation("NaN кг=>т").is_ok());
    assert!(enter_validation(". кг=>т").is_err());
    assert!(enter_validation("1e кг=>т").is_err());
}

#[test]
fn test_parse_unit_nyn() {
    // prefix N; tag Y; pow N;
    let ast = parse_unit("кг", false).unwrap();
    check_unit_parse(ast, None, "кг".to_string(), 1, false);
}

#[test]
fn test_parse_unit_yyn() {
    // prefix Y; tag Y; pow N
    let ast = parse_unit("мк_кг", false).unwrap();
    check_unit_parse(ast, Some("мк".to_string()), "кг".to_string(), 1, false);
}

#[test]
fn test_parse_unit_nyy() {
    // prefix N; tag Y; pow Y
    let ast = parse_unit("кг^3", false).unwrap();
    check_unit_parse(ast, None, "кг".to_string(), 3, false);
}

#[test]
fn test_parse_unit_yyy() {
    // prefix Y; tag Y; pow Y
    let ast = parse_unit("мк_кг^3", false).unwrap();
    check_unit_parse(ast, Some("мк".to_string()), "кг".to_string(), 3, false);
}

#[test]
fn test_parse_unit_errors() {
    assert!(parse_unit("", false)
        .is_err_and(|e| e.message() == "Unit entry is wrong"));
    assert!(parse_unit("м^x", false)
        .is_err_and(|e| e.message() == "pow cannot be parsed as valid i8: x"));
    assert!(parse_unit("м^", false).is_err());
    // the exponent must fit a signed byte
    let ast = parse_unit("м^127", false).unwrap();
    check_unit_parse(ast, None, "м".to_string(), 127, false);
    let ast = parse_unit("м^-128", false).unwrap();
    check_unit_parse(ast, None, "м".to_string(), -128, false);
    assert!(parse_unit("м^128", false).is_err());
    assert!(parse_unit("м^-129", false).is_err());
    check_unit_parse(parse_unit("м^0012", false).unwrap(), None, "м".to_string(), 12, false);
}

#[test]
fn test_parse_fraction_yn() {
    // numerator Y; denominator N;
    let ex = "м_г^3*см^2*к_с^-1";

    let n1: Expr = parse_unit("м_г^3", false).unwrap();
    let n2: Expr = parse_unit("см^2", false).unwrap();
    let n3: Expr = parse_unit("к_с^-1", false).unwrap();

    let up: Vec<Expr> = vec![n1, n2, n3];
    let dn: Vec<Expr> = vec![];

    let frac: Expr = parse_expr(ex).unwrap();
    check_fraction_parse(frac, up, dn);
}

#[test]
fn test_parse_fraction_yy() {
    // numerator Y; denominator Y;
    let ex = "м_г^3*см^2*к_с^-1/Т_Гц^2*д_м^3";

    let n1: Expr = parse_unit("м_г^3", false).unwrap();
    let n2: Expr = parse_unit("см^2", false).unwrap();
    let n3: Expr = parse_unit("к_с^-1", false).unwrap();

    let d1: Expr = parse_unit("Т_Гц^2", true).unwrap();
    let d2: Expr = parse_unit("д_м^3", true).unwrap();

    let up: Vec<Expr> = vec![n1, n2, n3];
    let dn: Vec<Expr> = vec![d1, d2];

    let frac: Expr = parse_expr(ex).unwrap();
    check_fraction_parse(frac, up, dn);
}

#[test]
fn test_parse_convert_yy_yn() {
    // src: numerator Y; denominator Y,
    // dst: numerator Y; denominator N;
    let ex = "11.3 м_г^3*см^2*к_с^-1/Т_Гц^2*д_м^3=>н_Па^-2";

    let vl: f64 = 11.3;

    let sn1: Expr = parse_unit("м_г^3", false).unwrap();
    let sn2: Expr = parse_unit("см^2", false).unwrap();
    let sn3: Expr = parse_unit("к_с^-1", false).unwrap();

    let sd1: Expr = parse_unit("Т_Гц^2", true).unwrap();
    let sd2: Expr = parse_unit("д_м^3", true).unwrap();

    let src_up: Vec<Expr> = vec![sn1, sn2, sn3];
    let src_dn: Vec<Expr> = vec![sd1, sd2];

    let dn1: Expr = parse_unit("н_Па^-2", false).unwrap();

    let dst_up: Vec<Expr> = vec![dn1];
    let dst_dn: Vec<Expr> = vec![];
    let convert: Stmt = parse_stmt(ex).unwrap();

    match convert {
        Stmt::Conversation(conv) => {
            check_convert_parse(conv, vl, src_up, src_dn, dst_up, dst_dn);
        }
        _ => panic!("test failed"),
    }
}

#[test]
fn test_statement_dispatch() {
    // if input contain =>  stmt will be Conversation
    let ex = "11.3 м_г^3*см^2*к_с^-1/Т_Гц^2*д_м^3=>н_Па^-2";

    let stmt: Stmt = parse_stmt(ex).unwrap();
    match stmt {
        Stmt::Conversation(_ast) => {}
        _ => panic!("test failed"),
    }

    // else stmt will be Decomposition
    let ex = "м_г^3*см^2*к_с^-1/Т_Гц^2*д_м^3*н_Па^-2";

    let stmt: Stmt = parse_stmt(ex).unwrap();
    match stmt {
        Stmt::Decomposition(_ast) => {}
        _ => panic!("test failed"),
    }

    // ...and simple unit will be Decomposition too
    let ex = "н_Па^-2";

    let stmt: Stmt = parse_stmt(ex).unwrap();
    match stmt {
        Stmt::Decomposition(_ast) => {}
        _ => panic!("test failed"),
    }
}
