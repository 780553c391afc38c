use neant::compile::compile;
use neant::cost::analyze::analyze;
use neant::cost::evaluate::{bound_in_output, take_bound, take_refusal};
use neant::cost::lock::{self, diff, render};
use neant::cost::machine::Machine;
use neant::cost::measure::{confirms, measured_line, repeats, sizes_at, update_lock, Shape};
use neant::cost::rat::Rat;
use neant::cost::show::show_poly;
use neant::cost::size::{Atom, Poly};
use neant::cost::wide::Number;

const SUM: &str = "fn sum(xs: &[f64], k: i64) -> f64 { let mut s = 0.0; for i in 0..xs.len() { s += xs[i]; } s }
fn twice(n: i64) -> i64 { n + n }
fn main() { }
";

fn machine() -> Machine {
    Machine { m_bytes: 2097152, b_bytes: 64, p_cores: 4 }
}

#[test]
fn the_bound_stands_before_the_last_line() {
    let names = vec!["n".to_string()];
    let out = "reading\n\nn^2\nn^3\n8\n";
    let p = bound_in_output(Some(0), out, "", &names).unwrap();
    assert_eq!(show_poly(&p, &names), "8·n³");
}

#[test]
fn a_run_without_a_bound_says_why() {
    let names = vec!["n".to_string()];
    let why = |code: Option<i32>, out: &str, err: &str| bound_in_output(code, out, err, &names).err().unwrap();
    assert_eq!(why(None, "", ""), "IOLB did not finish within IOLB_TIMEOUT");
    assert_eq!(why(Some(137), "a\nb\nc\n", ""), "IOLB did not finish within IOLB_TIMEOUT");
    assert_eq!(why(Some(2), "a\nb\nc\n", ""), "IOLB exited with 2");
    assert_eq!(why(Some(0), "one\n \ntwo\n", "first\nlast\n"), "IOLB gave no bound: last");
    assert_eq!(why(Some(0), "", ""), "IOLB gave no bound: (no output)");
}

#[test]
fn a_bound_joins_the_others() {
    let m = compile(SUM).unwrap();
    let mut costs = analyze(&m, &machine());
    let before = costs[0].bounds.len();
    let names: Vec<String> = costs[0].names.iter().map(|s| s.to_string()).collect();
    let p = bound_in_output(Some(0), "a\n1\nb\n", "", &names).unwrap();
    take_bound(&mut costs[0], 1, &vec!["n divides".to_string()], p, &machine());
    assert_eq!(costs[0].bounds.len(), before + 1);
    assert!(costs[0].bounds.iter().any(|b| b.kind == "whole function, untiled, if n divides"));
    let notes = costs[1].notes.len();
    take_refusal(&mut costs[1], true, "nothing");
    assert_eq!(costs[1].notes.len(), notes + 1);
    assert_eq!(costs[1].notes[notes], "IOLB gave no bound: nothing");
}

#[test]
fn costs_go_by_the_names_of_the_functions() {
    let m = compile(SUM).unwrap();
    let costs = analyze(&m, &machine());
    let names: Vec<String> = costs.iter().map(|c| c.name.to_string()).collect();
    assert_eq!(names, vec!["sum", "twice", "main"]);
}

#[test]
fn what_is_written_is_read_and_an_update_changes_one_line() {
    let m = compile(SUM).unwrap();
    let costs = analyze(&m, &machine());
    let text = render("sum.nt", &costs);
    for c in &costs {
        assert!(text.lines().any(|l| l == lock::line(c)));
    }
    let new = measured_line(&lock::line(&costs[1]), 10, 20, true);
    let after = update_lock(&text, "twice", &new);
    let d = diff(&text, &after);
    assert_eq!(d, vec![(lock::line(&costs[1]), new)]);
    assert!(diff(&after, &after).is_empty());
}

#[test]
fn sizes_follow_the_shapes() {
    let m = compile(SUM).unwrap();
    let shapes = vec![Shape::NTimesN, Shape::Const(7)];
    assert_eq!(sizes_at(&m.funcs[0], &shapes, 10), "xs.len()=100,k=7");
    assert_eq!(sizes_at(&m.funcs[2], &shapes, 10), "");
}

#[test]
fn a_declaration_is_confirmed_per_call() {
    assert_eq!(repeats(true, 1), 10000);
    assert_eq!(repeats(false, 1), 1);
    assert_eq!(repeats(true, 5), 5);
    let (w, v) = (Number::integer(10), Number::integer(80));
    assert!(confirms(1700, 22400, 100, &w, &v, &machine()));
    assert!(!confirms(1701, 22400, 100, &w, &v, &machine()));
    assert!(!confirms(1700, 22401, 100, &w, &v, &machine()));
    assert!(confirms(1701, 22400, 100, &Number::Infinite(false), &v, &machine()));
    assert!(!confirms(1700, 22400, 100, &Number::Undefined, &v, &machine()));
}

#[test]
fn a_measured_line_gives_its_range() {
    assert_eq!(measured_line("f work n", 1000, 4000, true), "f work n  measured over n = 1000..4000: confirmed");
    assert_eq!(measured_line("f work n", 1, 2, false), "f work n  measured over n = 1..2: EXCEEDED");
}

#[test]
fn a_power_of_the_cache_is_kept_to_four_decimals() {
    let names: Vec<String> = vec![];
    let p = bound_in_output(Some(0), "a\nS^3\nb\n", "", &names).unwrap();
    let m3 = Poly::constant(1).mul_atom_pow(Atom::M, &Rat::integer(3));
    // 8/8³ = 1/64
    assert!(p.same(&m3.scale(&Rat::new(156, 10000))));
}

#[test]
fn a_lockfile_with_carriage_returns_is_updated_once() {
    let once = update_lock("# head\r\na work 1\r\nb work 2\r\n", "b", "b measured");
    assert_eq!(once, "# head\na work 1\nb measured\n");
    assert_eq!(update_lock(&once, "b", "b measured"), once);
}
