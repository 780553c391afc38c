use neant::compile::compile;
use neant::cost::analyze::analyze;
use neant::cost::lock::{self, diff, render, report};
use neant::cost::machine::Machine;
use neant::cost::measure::{baseline, driver, perf_count, update_lock, Shape};
use neant::cost::scop::export;
use neant::ir::{ExprKind, Stmt};

const SRC: &str = "fn total(xs: &[f64]) -> f64 { let mut s = 0.0; for i in 0..xs.len() { s += xs[i]; } s }
fn stuck(xs: &[i64]) -> i64 { let mut i = 0; while xs[i] > 0 { i += 1; } i }
fn main() { }
";

fn machine() -> Machine {
    Machine { m_bytes: 2 << 20, b_bytes: 64, p_cores: 4 }
}

#[test]
fn a_line_per_function_in_order() {
    let m = compile(SRC).unwrap();
    let c = analyze(&m, &machine());
    let text = render("f.nt", &c);
    let lines: Vec<&str> = text.lines().collect();
    assert_eq!(lines.len(), 4);
    assert_eq!(lines[0], "# neant costs.lock — generated from f.nt; do not edit");
    assert!(lines[2].starts_with("stuck            unknown: `while` has no measure"));
    assert!(lines[2].ends_with("(line 2)"));
    assert!(lines[3].starts_with("total            work 4·xs.len()"));
    assert!(lines[3].ends_with(" exact"));
    assert_eq!(lines[3], lock::line(&c[0]));
}

#[test]
fn a_lockfile_does_not_differ_from_itself() {
    let m = compile(SRC).unwrap();
    let text = render("f.nt", &analyze(&m, &machine()));
    assert!(diff(&text, &text).is_empty());
}

#[test]
fn a_changed_line_is_a_difference() {
    let old = "# head\na work 1\nb work 2\n";
    let new = "# other\na work 1\nb work 3\nc work 4\n";
    assert_eq!(
        diff(old, new),
        vec![
            ("b work 2".to_string(), "b work 3".to_string()),
            ("".to_string(), "c work 4".to_string()),
        ]
    );
}

#[test]
fn a_measured_line_replaces_the_old() {
    let old = "# head\nb work 2\na work 1\n";
    assert_eq!(update_lock(old, "b", "b measured"), "# head\na work 1\nb measured\n");
    assert_eq!(update_lock(old, "c", "c measured"), "# head\na work 1\nb work 2\nc measured\n");
    assert_eq!(update_lock("", "c", "c measured"), "c measured\n");
}

#[test]
fn the_report_names_bounds_and_their_gap() {
    let m = compile(SRC).unwrap();
    let c = analyze(&m, &machine());
    let r = report(&c[0], &machine());
    assert!(r.contains("lower bound      moves 8·xs.len()"), "{}", r);
    assert!(r.contains("(footprint, every distinct element crosses once)   gap 1× at M = 2 MiB, B = 64"), "{}", r);
}

#[test]
fn shapes_are_read() {
    assert_eq!(Shape::parse("n"), Some(Shape::N));
    assert_eq!(Shape::parse("n * n"), Some(Shape::NTimesN));
    assert_eq!(Shape::parse("n²"), Some(Shape::NTimesN));
    assert_eq!(Shape::parse("n*4"), Some(Shape::NTimes(4)));
    assert_eq!(Shape::parse("4*n"), Some(Shape::NTimes(4)));
    assert_eq!(Shape::parse("n/2"), Some(Shape::NDiv(2)));
    assert_eq!(Shape::parse("-7"), Some(Shape::Const(-7)));
    assert_eq!(Shape::parse("m"), None);
    assert_eq!(Shape::NTimesN.at(12), 144);
    assert_eq!(Shape::NDiv(2).at(-7), -3);
    assert_eq!(Shape::NDiv(-2).at(7), -3);
    assert_eq!(Shape::Const(5).at(12), 5);
}

#[test]
fn counts_are_summed_by_event() {
    let err = "1000,,instructions,1,100.00\n5,,l2d_cache_refill,1,100.00\n7,,l2d_cache_refill:u,1,100.00\n<not counted>,,cycles,0,0\n";
    assert_eq!(perf_count(err, "instructions"), Some(1000));
    assert_eq!(perf_count(err, "l2d_cache_refill"), Some(12));
    assert_eq!(perf_count(err, "cycles"), None);
    assert_eq!(perf_count("", "cycles"), None);
}

#[test]
fn the_driver_calls_the_function() {
    let m = compile(SRC).unwrap();
    let d = driver(&m, 0, 100, 3, &[Shape::N]);
    assert_eq!(d.funcs.len(), 3);
    assert_eq!(d.funcs[2].name, "main");
    let names: Vec<&str> = d.funcs[2].locals.iter().map(|l| l.name.as_str()).collect();
    assert_eq!(names, vec!["xs", "i", "r", "acc"]);
    let stmts = &d.funcs[2].body.as_ref().unwrap().stmts;
    assert_eq!(stmts.len(), 5);
    match &stmts[3] {
        Stmt::For { body, .. } => match &body.stmts[0] {
            Stmt::Assign(_, _, e) => assert!(matches!(e.kind, ExprKind::Call(0, _))),
            _ => panic!("not an assignment"),
        },
        _ => panic!("not a loop"),
    }
    let b = baseline(&m, 0, 100, 3, &[Shape::N]);
    match &b.funcs[2].body.as_ref().unwrap().stmts[3] {
        Stmt::For { body, .. } => match &body.stmts[0] {
            Stmt::Assign(_, _, e) => assert!(matches!(&e.kind, ExprKind::Float(s) if s == "1.0")),
            _ => panic!("not an assignment"),
        },
        _ => panic!("not a loop"),
    }
}

#[test]
fn a_product_is_exported_with_rows() {
    let src = "fn mv(a: &[f64], x: &[f64], y: &mut [f64], n: i64) {
    for i in 0..n { for j in 0..n { y[i] += a[i * n + j] * x[j]; } }
}
fn main() { }";
    let m = compile(src).unwrap();
    let (c, assumes) = export(&m, &m.funcs[0]).unwrap();
    assert!(assumes.is_empty());
    assert_eq!(
        c,
        "// exported by neant for IOLB: mv
void nt_mv(long n, long a_rows, long x_n, long y_n, double a[a_rows][n], double x[x_n], double y[y_n])
{
#pragma scop
  for (long i_4 = 0; i_4 < n; i_4++) {
    for (long j_5 = 0; j_5 < n; j_5++) {
      y[i_4] += (a[i_4][j_5] * x[j_5]);
    }
  }
#pragma endscop
}
"
    );
}

#[test]
fn a_tiled_loop_is_untiled() {
    let src = "fn f(y: &mut [f64], n: i64) {
    for ii in 0..n / 8 { for i in ii * 8..ii * 8 + 8 { y[i] = 1.0; } }
}
fn main() { }";
    let m = compile(src).unwrap();
    let (c, assumes) = export(&m, &m.funcs[0]).unwrap();
    assert_eq!(assumes, vec!["8 | n".to_string()]);
    assert!(c.contains("for (long i_3 = 0; i_3 < n; i_3++) {"), "{}", c);
    assert!(!c.contains("ii_2"), "{}", c);
}

#[test]
fn what_is_not_static_control_is_refused() {
    let m = compile(SRC).unwrap();
    assert_eq!(
        export(&m, &m.funcs[1]),
        Err(
            "a `while` (line 2) is not static control; the polyhedral model needs `for` with affine bounds".to_string()
        )
    );
    let m = compile("fn g(n: i64) -> i64 { n }\nfn f(n: i64) -> i64 { g(n) }\nfn main() { }").unwrap();
    assert_eq!(export(&m, &m.funcs[1]), Err("a call to `g` is not part of a SCoP".to_string()));
}

#[test]
fn swapping_lockfiles_swaps_the_differences() {
    let (a, b) = ("# x\nf 1\nh 3\n", "# y\ng 2\n\nf 4\n");
    let d = diff(a, b);
    assert_eq!(d.len(), 3);
    assert_eq!(d[0], ("f 1".to_string(), "f 4".to_string()));
    assert_eq!(d[1], ("".to_string(), "g 2".to_string()));
    assert_eq!(d[2], ("h 3".to_string(), "".to_string()));
    let back: Vec<(String, String)> = diff(b, a).into_iter().map(|(x, y)| (y, x)).collect();
    assert_eq!(back, d);
}

#[test]
fn a_second_update_changes_nothing() {
    let once = update_lock("b work 2\n# head\na work 1\n", "b", "b measured");
    assert_eq!(once, "# head\na work 1\nb measured\n");
    assert_eq!(update_lock(&once, "b", "b measured"), once);
}
