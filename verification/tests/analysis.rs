use neant::compile::compile;
use neant::diag::Diag;
use neant::ir::Module;
use neant::cost::analyze::{analyze, apply_rewrites};
use neant::cost::evaluate::{eval_one, parse_bytes};
use neant::cost::machine::Machine;
use neant::cost::signature::{CostResult, FuncCost};
use neant::cost::show::show_poly;

const MATMUL: &str = "fn matmul(a: &[f64], b: &[f64], c: &mut [f64], n: i64) {
    for i in 0..n {
        for j in 0..n {
            let mut acc = 0.0;
            for k in 0..n {
                acc += a[i * n + k] * b[k * n + j];
            }
            c[i * n + j] = acc;
        }
    }
}
";

fn machine() -> Machine {
    Machine { m_bytes: 2 << 20, b_bytes: 64, p_cores: 4 }
}

fn module(src: &str) -> Result<Module, Diag> {
    compile(&format!("{}\nfn main() {{ }}\n", src))
}

fn costs(src: &str) -> Vec<FuncCost> {
    let m = match module(src) {
        Ok(m) => m,
        Err(d) => panic!("{}:{}: {}", d.line, d.col, d.msg),
    };
    analyze(&m, &machine())
}

fn work_text(c: &FuncCost) -> String {
    match &c.result {
        CostResult::Exact { work, .. } => work.display(&c.names).to_string(),
        CostResult::Unknown { reason, line } => panic!("unknown: {} (line {})", reason, line),
    }
}

fn reason(c: &FuncCost) -> String {
    match &c.result {
        CostResult::Exact { .. } => panic!("{} has a cost", c.name),
        CostResult::Unknown { reason, .. } => reason.to_string(),
    }
}

fn work_at(c: &FuncCost, ev: &str) -> String {
    match &c.result {
        CostResult::Exact { work, .. } => eval_one(c, work, ev, &machine()).unwrap().show(),
        CostResult::Unknown { reason, .. } => panic!("unknown: {}", reason),
    }
}

fn moves_at(c: &FuncCost, ev: &str) -> String {
    match &c.result {
        CostResult::Exact { moves, .. } => eval_one(c, moves, ev, &machine()).unwrap().show(),
        CostResult::Unknown { reason, .. } => panic!("unknown: {}", reason),
    }
}

#[test]
fn the_product_costs_ten_per_step() {
    let c = costs(MATMUL);
    assert_eq!(c.len(), 2);
    assert_eq!(c[0].name, "matmul");
    assert_eq!(c[0].tier, "exact");
    assert_eq!(work_text(&c[0]), "10·n³ + 5·n² + 2·n");
}

#[test]
fn the_product_has_its_bound() {
    let c = costs(MATMUL);
    assert!(c[0].bounds.iter().any(|b| b.kind == "HBL, σ = 3/2"));
    assert!(c[0].notes.iter().any(|n| n.starts_with("`b` moves by 8·n bytes per iteration")));
}

#[test]
fn the_product_is_offered_tiles_and_a_transpose() {
    let c = costs(MATMUL);
    let flags: Vec<&str> = c[0].suggestions.iter().map(|s| s.flag.as_str()).collect();
    assert!(flags.iter().any(|f| f.starts_with("matmul:tile=")), "{:?}", flags);
    assert!(flags.contains(&"matmul:transpose"), "{:?}", flags);
}

#[test]
fn a_rewrite_is_applied_by_name() {
    let mut m = module(MATMUL).unwrap();
    let n = m.funcs[0].locals.len();
    apply_rewrites(&mut m, &["matmul:tile=64".to_string()], &machine()).unwrap();
    assert_eq!(m.funcs[0].locals.len(), n + 3);
    assert_eq!(m.funcs[0].locals[n].name, "ii");
    let mut m = module(MATMUL).unwrap();
    apply_rewrites(&mut m, &["matmul:transpose".to_string()], &machine()).unwrap();
    assert_eq!(m.funcs[0].locals[n].name, "b_t");
}

#[test]
fn a_rewrite_that_cannot_be_applied_is_refused() {
    let src = "fn f(n: i64) -> i64 { n }";
    let cases = [
        ("f", "--apply takes `function:tile` or `function:transpose`, not `f`"),
        ("g:tile", "--apply: no function `g`"),
        ("f:tile=x", "--apply: `tile=x` needs an integer tile side"),
        ("f:turn", "--apply: unknown rewrite `turn`"),
        (
            "f:tile",
            "--apply: `f` does not have the shape `tile` applies to (a product with `let mut acc = 0` over the inner loop)",
        ),
    ];
    for (what, why) in cases {
        let mut m = module(src).unwrap();
        assert_eq!(apply_rewrites(&mut m, &[what.to_string()], &machine()), Err(why.to_string()));
    }
}

#[test]
fn a_pass_over_an_array_moves_it_once() {
    let c = costs("fn total(xs: &[f64]) -> f64 { let mut s = 0.0; for i in 0..xs.len() { s += xs[i]; } s }");
    assert_eq!(work_text(&c[0]), "4·xs.len()");
    assert_eq!(moves_at(&c[0], "xs.len()=1000"), "8064");
    assert_eq!(c[0].footprint.len(), 1);
    assert!(c[0].footprint[0].exact);
    assert_eq!(show_poly(&c[0].footprint[0].hi, &c[0].names), "8·xs.len()");
    assert_eq!(c[0].bounds.len(), 1);
    assert_eq!(c[0].bounds[0].kind, "footprint");
    assert_eq!(show_poly(&c[0].bounds[0].moves, &c[0].names), "8·xs.len()");
}

#[test]
fn a_triangle_is_counted_exactly() {
    let c = costs("fn tri(n: i64) -> i64 { let mut s = 0; for i in 0..n { for j in i..n { s += 1; } } s }");
    assert_eq!(work_at(&c[0], "n=10"), "185");
    assert_eq!(work_at(&c[0], "n=1"), "5");
}

#[test]
fn the_larger_branch_is_charged() {
    let c = costs("fn f(n: i64) -> i64 { if n < 1 { n + 1 + 2 + 3 } else { n } }");
    assert_eq!(work_text(&c[0]), "5");
}

#[test]
fn an_induction_variable_gives_the_trip_count() {
    let src = "fn w(n: i64) -> i64 { let mut i = 0; let mut s = 0; while i < n { s += i; i += 1; } s }";
    let c = costs(src);
    assert_eq!(work_at(&c[0], "n=10"), "31");
}

#[test]
fn a_while_without_a_measure_is_asked_for_one() {
    let src = "fn w(xs: &[i64]) -> i64 { let mut i = 0; while xs[i] > 0 { i += 1; } i }";
    let c = costs(src);
    assert!(reason(&c[0]).starts_with("`while` has no measure the compiler can find"));
}

#[test]
fn a_measure_must_fall() {
    let good = "fn g(n: i64) -> i64 { let mut k = n; let mut s = 0; while s < 9 decreasing k { k -= 2; s += 1; } s }";
    assert_eq!(work_at(&costs(good)[0], "n=10"), "31");
    let bad = "fn g(n: i64) -> i64 { let mut k = n; let mut s = 0; while s < 9 decreasing k { k += 1; s += 1; } s }";
    assert_eq!(
        reason(&costs(bad)[0]),
        "the `decreasing` measure is not shown to decrease: there is a path through the body along which it changes by +1"
    );
}

#[test]
fn a_recursion_that_steps_down_is_summed() {
    let c = costs("fn f(n: i64) -> i64 { if n <= 0 { 0 } else { f(n - 1) + 1 } }");
    assert_eq!(c[0].tier, "recurrence");
    assert_eq!(work_at(&c[0], "n=9"), "60");
}

#[test]
fn an_exponential_recursion_is_refused() {
    let c = costs("fn fib(n: i64) -> i64 { if n < 2 { n } else { fib(n - 1) + fib(n - 2) } }");
    assert_eq!(reason(&c[0]), "2 recursive calls each shrinking `n` by a constant: exponential");
}

#[test]
fn a_recursion_that_does_not_shrink_is_refused() {
    let c = costs("fn f(n: i64) -> i64 { if n <= 0 { 0 } else { f(n + 1) } }");
    assert!(reason(&c[0]).starts_with("no argument shrinks toward a base case"));
}

#[test]
fn mutual_recursion_is_not_solved() {
    let c = costs(
        "fn a(n: i64) -> i64 { if n <= 0 { 0 } else { b(n - 1) } }
fn b(n: i64) -> i64 { if n <= 0 { 0 } else { a(n - 1) } }",
    );
    assert!(reason(&c[0]).starts_with("calls `"));
}

#[test]
fn a_call_costs_what_the_callee_does() {
    let c = costs(
        "fn total(xs: &[f64]) -> f64 { let mut s = 0.0; for i in 0..xs.len() { s += xs[i]; } s }
fn twice(ys: &[f64]) -> f64 { total(ys) + total(ys) }",
    );
    assert_eq!(work_at(&c[1], "ys.len()=1000"), "8005");
}

#[test]
fn what_prints_has_the_effect() {
    let c = costs("fn f(n: i64) { println(n); }");
    assert_eq!(c[0].effects, vec!["io".to_string()]);
}

#[test]
fn a_declared_bound_is_checked() {
    let broken = "#[cost(work_at_most = \"n\")]
fn f(n: i64) -> i64 { let mut s = 0; for i in 0..n { for j in 0..n { s += 1; } } s }";
    let c = costs(broken);
    assert_eq!(c[0].violations.len(), 1);
    assert!(c[0].violations[0].starts_with("line 1: `f` is asserted work at most n but its work is "), "{}", c[0].violations[0]);
    let kept = "#[cost(work_at_most = \"n^2\")]
fn f(n: i64) -> i64 { let mut s = 0; for i in 0..n { for j in 0..n { s += 1; } } s }";
    assert!(costs(kept)[0].violations.is_empty());
}

#[test]
fn a_budget_is_checked_at_the_declared_sizes() {
    let src = "#[cost(work_at_most = \"100\", sizes = \"n <= 50\")]
fn f(n: i64) -> i64 { let mut s = 0; for i in 0..n { s += 1; } s }";
    let c = costs(src);
    assert_eq!(
        c[0].violations,
        vec!["line 1: `f` has a work budget of 100 at the declared sizes but needs 150".to_string()]
    );
    let src = "#[cost(work_at_most = \"150\", sizes = \"n <= 5e1\")]
fn f(n: i64) -> i64 { let mut s = 0; for i in 0..n { s += 1; } s }";
    assert!(costs(src)[0].violations.is_empty());
}

#[test]
fn a_declaration_that_cannot_be_read_is_said() {
    let src = "#[cost(work_at_most = \"m\", speed = \"1\", sizes = \"n\")]
fn f(n: i64) -> i64 { n }";
    let v = &costs(src)[0].violations;
    assert_eq!(v.len(), 3);
    assert!(v[0].starts_with("line 1: in `work_at_most = \"m\"`: "));
    assert_eq!(v[1], "line 1: unknown bound `speed`; use `work_at_most`, `moves_at_most`, `sizes`");
    assert_eq!(v[2], "line 1: `sizes` entries are `name <= value`");
}

#[test]
fn sizes_in_bytes() {
    assert_eq!(parse_bytes("64"), Some(64));
    assert_eq!(parse_bytes("512K"), Some(512 * 1024));
    assert_eq!(parse_bytes("2M"), Some(2 << 20));
    assert_eq!(parse_bytes("2G"), None);
    assert_eq!(parse_bytes("100000000000000000000"), Some(100000000000000000000));
    assert_eq!(parse_bytes("170141183460469231731687303715884105728"), None);
    assert_eq!(parse_bytes(""), None);
}

#[test]
fn a_declared_size_may_be_infinite_or_no_number() {
    let body = "fn f(n: i64) -> i64 { let mut s = 0; for i in 0..n { s += 1; } s }";
    let c = costs(&format!("#[cost(work_at_most = \"100\", sizes = \"n <= inf\")]\n{}", body));
    assert_eq!(
        c[0].violations,
        vec!["line 1: `f` has a work budget of 100 at the declared sizes but needs inf".to_string()]
    );
    // nothing is above a bound that is no number, nor above anything else
    let c = costs(&format!("#[cost(work_at_most = \"100\", sizes = \"n <= NaN\")]\n{}", body));
    assert_eq!(c[0].violations, Vec::<String>::new());
    assert_eq!(work_at(&c[0], "n=-inf"), "-inf");
    assert_eq!(work_at(&c[0], "n = nan"), "NaN");
}

#[test]
fn a_budget_may_hold_a_logarithm() {
    let body = "fn f(n: i64) -> i64 { if n <= 1 { 0 } else { f(n / 2) + 1 } }";
    let c = costs(body);
    assert_eq!(c[0].tier, "recurrence");
    assert!(work_text(&c[0]).contains("log"), "{}", work_text(&c[0]));
    let c = costs(&format!("#[cost(work_at_most = \"1000\", sizes = \"n <= 1000\")]\n{}", body));
    assert_eq!(c[0].violations, Vec::<String>::new());
    let c = costs(&format!("#[cost(work_at_most = \"10\", sizes = \"n <= 1000\")]\n{}", body));
    assert_eq!(c[0].violations.len(), 1);
    assert!(c[0].violations[0].contains("has a work budget of 10 at the declared sizes but needs"), "{}", c[0].violations[0]);
}

#[test]
fn a_fractional_power_has_a_value() {
    let c = costs("fn f(n: i64) -> i64 { if n <= 1 { 1 } else { f(n / 2) + f(n / 2) + f(n / 2) } }");
    assert_eq!(c[0].tier, "recurrence");
    assert!(work_text(&c[0]).contains("1.585") || work_text(&c[0]).contains("317/200"), "{}", work_text(&c[0]));
    // between n^1.5 and n^2, times what a call costs
    let v: i64 = work_at(&c[0], "n=1024").parse().unwrap();
    assert!(32768 < v && v < 20 * 1048576, "{}", v);
}

#[test]
fn a_variable_may_go_down_to_a_local() {
    let down = |cond: &str| {
        work_text(&costs(&format!("fn f(n: i64, e: i64) -> i64 {{ let mut i = n; while {} {{ i -= 1; }} i }}", cond))[0])
    };
    let up = costs("fn f(n: i64, e: i64) -> i64 { let mut i = e; while i < n { i += 1; } i }");
    assert_eq!(down("i > e"), work_text(&up[0]));
    assert_eq!(down("e < i"), work_text(&up[0]));
    let c = costs("fn f(n: i64, e: i64) -> i64 { let mut i = n; while i > e { i += 1; } i }");
    assert!(reason(&c[0]).starts_with("`i` steps away from its bound; "), "{}", reason(&c[0]));
}

#[test]
fn an_assignment_counts_wherever_it_stands() {
    let lost = "the `decreasing` measure is not shown to decrease: the body changes one of its variables in a way the compiler cannot follow";
    let bodies = [
        "i += 1; { i -= 1; }",
        "i += 1; let x = if i > 3 { i -= 1; 1 } else { 0 };",
        "i += 1; if { i -= 1; i > 3 } { }",
        "i += 1; let x = g({ i -= 1; i });",
    ];
    for body in bodies {
        let c = costs(&format!(
            "fn g(x: i64) -> i64 {{ x }}\nfn f(n: i64) -> i64 {{ let mut i = 0; while i < n decreasing n - i {{ {} }} i }}",
            body
        ));
        assert_eq!(reason(&c[1]), lost, "{}", body);
    }
    let c = costs("fn f(n: i64) -> i64 { let mut i = 0; while { i -= 1; i < n } decreasing n - i { i += 1; } i }");
    assert!(reason(&c[0]).starts_with("the `decreasing` measure is not "), "{}", reason(&c[0]));
    let c = costs("fn f(n: i64) -> i64 { let mut i = 0; while i < n { i += 1; { i -= 1; } } i }");
    assert!(reason(&c[0]).contains("is not stepped by a constant exactly once in the body"), "{}", reason(&c[0]));
    let c = costs("fn f(n: i64) -> i64 { let mut i = 0; let mut m = n; while i < m { i += 1; { m += 1; } } i }");
    assert!(reason(&c[0]).starts_with("the bound of `i` is assigned inside the body"), "{}", reason(&c[0]));
    let c = costs("fn f(n: i64) -> i64 { let mut i = 0; while i < n decreasing n - i { { i > 3; } i += 1; } i }");
    assert_eq!(c[0].tier, "exact");
}

#[test]
fn a_nested_loop_may_not_raise_the_measure_and_break() {
    let outer = |inner: &str| {
        costs(&format!(
            "fn f(n: i64) -> i64 {{ let mut i = 0; while i < n decreasing n - i {{ i += 1; for j in 0..3 {{ {} }} }} i }}",
            inner
        ))
    };
    let c = outer("if j > 1 { i -= 2; break; }");
    assert!(reason(&c[0]).ends_with("in a way the compiler cannot follow"), "{}", reason(&c[0]));
    // a path that does not raise it may leave, and one that raises it on the way to less
    assert_eq!(outer("if j > 1 { i += 2; break; }")[0].tier, "exact");
    assert_eq!(outer("i -= 1; i += 1; if j > 1 { break; }")[0].tier, "exact");
    assert!(reason(&outer("i -= 1; if j > 1 { break; } i += 1;")[0]).ends_with("cannot follow"));
}
