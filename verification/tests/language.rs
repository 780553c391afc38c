use neant::compile::compile;
use neant::decimals::{show_constant, show_plain};
use neant::dump::{lex_kind_number, program};
use neant::lex::{lex, Tok};
use neant::parse::parse;

fn complaint(src: &str) -> (u32, u32, String) {
    match compile(&format!("{}\nfn main() {{ }}\n", src)) {
        Ok(_) => panic!("compiles: {}", src),
        Err(d) => (d.line, d.col, d.msg.to_string()),
    }
}

#[test]
fn tokens_end_with_the_end() {
    for src in ["", "fn", "// only a comment", "a + 1\n"] {
        let t = lex(src).unwrap();
        assert!(matches!(t[t.len() - 1].tok, Tok::Eof));
    }
}

#[test]
fn token_kinds_are_numbered() {
    let t = lex("fn f(x: i64) -> i64 { x + 1 }").unwrap();
    let k: Vec<i32> = t.iter().map(|t| lex_kind_number(&t.tok)).collect();
    assert_eq!(k, vec![6, 0, 23, 0, 31, 0, 24, 32, 0, 27, 0, 42, 1, 28, 57]);
}

#[test]
fn node_kinds_are_listed_depth_first() {
    let p = parse(lex("fn f(x: i64) -> i64 { let y = x + 1; y }").unwrap()).unwrap();
    assert_eq!(program(&p), Ok(vec![110, 111, 100, 100, 76, 90, 66, 65, 60, 65]));
    let p = parse(lex("struct P { x: f64 }\nfn f() { }").unwrap()).unwrap();
    assert_eq!(program(&p), Ok(vec![112, 113, 100, 110, 76]));
    let p = parse(lex("fn f(xs: &[i64]) -> i64 { xs.len() }").unwrap()).unwrap();
    assert_eq!(program(&p), Ok(vec![110, 111, 103, 100, 100, 76, 72, 65]));
}

#[test]
fn what_is_out_of_the_slice_is_said() {
    let p = parse(lex("#[cost(work_at_most = \"1\")]\nfn f() { }").unwrap()).unwrap();
    assert_eq!(program(&p), Err("a `#[cost(...)]` attribute".to_string()));
}

#[test]
fn a_stray_character_is_where_it_is() {
    let (line, col, msg) = complaint("fn f() {\n  ?\n}");
    assert_eq!((line, col), (2, 3));
    assert_eq!(msg, "unexpected character `?`");
}

#[test]
fn an_unknown_name_is_an_error() {
    let (line, _, _) = complaint("fn f() -> i64 {\n  y\n}");
    assert_eq!(line, 2);
}

#[test]
fn types_must_agree() {
    let (line, _, _) = complaint("fn f() -> i64 {\n  true\n}");
    assert!(line == 1 || line == 2);
    complaint("fn f(x: f64, n: i64) -> f64 { x + n }");
}

#[test]
fn decimal_literals_are_written_out() {
    let cases = [
        ("1.50", "1.5", "1.5"),
        ("1e3", "1000", "1000.0"),
        ("1.0", "1", "1.0"),
        ("0.0", "0", "0.0"),
        ("0.0001", "0.0001", "0.0001"),
        ("0.00001", "0.00001", "1e-5"),
        ("1e15", "1000000000000000", "1000000000000000.0"),
        ("1e16", "10000000000000000", "1e16"),
        ("12.5e17", "1250000000000000000", "1.25e18"),
        ("00.5", "0.5", "0.5"),
    ];
    for (text, plain, constant) in cases {
        assert_eq!(show_plain(text), plain);
        assert_eq!(show_constant(text), constant);
    }
    let (_, _, msg) = complaint("fn f() { let 1.50 = 2; }");
    assert!(msg.ends_with("found `1.5`"), "{}", msg);
}
