use neant::ast::BinOp;
use neant::compile::compile;
use neant::cost::analyze::analyze;
use neant::cost::evaluate::eval_one;
use neant::cost::machine::Machine;
use neant::cost::rat::Rat;
use neant::cost::rewrite::tile;
use neant::cost::signature::CostResult;
use neant::cost::size::Poly;
use neant::ir::{Expr, ExprKind, Module, Stmt};

fn machine() -> Machine {
    Machine { m_bytes: 2 << 20, b_bytes: 64, p_cores: 4 }
}

fn module(src: &str) -> Module {
    match compile(&format!("{}\nfn main() {{ }}\n", src)) {
        Ok(m) => m,
        Err(d) => panic!("{}", d.msg),
    }
}

/// The first function's work at a size `n`.
fn work(src: &str, n: i64) -> i64 {
    let c = &analyze(&module(src), &machine())[0];
    match &c.result {
        CostResult::Exact { work, .. } => {
            eval_one(c, work, &format!("n={}", n), &machine()).unwrap().show().parse().unwrap()
        }
        CostResult::Unknown { reason, .. } => panic!("unknown: {}", reason),
    }
}

fn n() -> Poly {
    Poly::var(0)
}

fn m() -> Poly {
    Poly::var(1)
}

fn one() -> Poly {
    Poly::constant(1)
}

#[test]
fn a_replaced_variable_is_gone() {
    let p = n().mul(&m()).mul(&m()).add(&m()).add(&Poly::var(2));
    let r = p.subst(1, &n().add(&one()));
    assert!(p.mentions(1) && !r.mentions(1) && r.mentions(2));
    let more = n().add(&one());
    assert!(r.same(&n().mul(&more).mul(&more).add(&more).add(&Poly::var(2))));
}

#[test]
fn a_substitution_goes_through_products_and_others() {
    let (p, q, by) = (n().add(&m()), m().mul(&m()), n().add(&Poly::constant(3)));
    assert!(p.mul(&q).subst(1, &by).same(&p.subst(1, &by).mul(&q.subst(1, &by))));
    // m := n + 3, then n := 2·k
    let two = Poly::var(2).scale(&Rat::integer(2));
    assert!(q.subst(1, &by).subst(0, &two).same(&q.subst(1, &by.subst(0, &two))));
}

#[test]
fn a_sum_follows_its_turns() {
    // the sum of m² over m = 5, 8, 11, ..
    let (p, lo) = (m().mul(&m()), Poly::constant(5));
    assert!(p.sum_over(1, &lo, 3, &Poly::zero()).same(&Poly::zero()));
    let at = p.subst(1, &lo.add(&n().scale(&Rat::integer(3))));
    let more = p.sum_over(1, &lo, 3, &n().add(&one()));
    assert!(more.same(&p.sum_over(1, &lo, 3, &n()).add(&at)));
    // a body that does not mention the variable
    assert!(Poly::var(2).sum_over(1, &lo, 3, &n()).same(&Poly::var(2).mul(&n())));
    assert!(p.sum_over(1, &lo, 3, &Poly::constant(3)).same(&Poly::constant(25 + 64 + 121)));
}

#[test]
fn a_linear_recurrence_is_the_sum_of_its_charges() {
    // every call adds a loop of n turns: the differences grow by the turn of the loop
    let src = "fn f(n: i64) -> i64 { if n <= 0 { 0 } else { let mut s = f(n - 1); for i in 0..n { s += 1; } s } }";
    let step = |k: i64| work(src, k) - work(src, k - 1);
    let turn = step(11) - step(10);
    assert!(turn > 0);
    for k in 2..20 {
        assert_eq!(step(k + 1) - step(k), turn);
    }
    // every call costs the same
    let flat = "fn f(n: i64) -> i64 { if n <= 0 { 0 } else { f(n - 1) + 1 } }";
    let step = |k: i64| work(flat, k) - work(flat, k - 1);
    assert!(step(5) > 0);
    assert_eq!(step(5), step(17));
}

fn amount(e: &Expr, env: &[i64]) -> i64 {
    match &e.kind {
        ExprKind::Int(v) => *v,
        ExprKind::Local(l) => env[*l],
        ExprKind::Binary(BinOp::Add, a, b) => amount(a, env) + amount(b, env),
        ExprKind::Binary(BinOp::Sub, a, b) => amount(a, env) - amount(b, env),
        ExprKind::Binary(BinOp::Mul, a, b) => amount(a, env) * amount(b, env),
        ExprKind::Binary(BinOp::Div, a, b) => amount(a, env) / amount(b, env),
        ExprKind::MinMax(min, a, b) => {
            let (x, y) = (amount(a, env), amount(b, env));
            if *min { x.min(y) } else { x.max(y) }
        }
        _ => panic!("not a bound"),
    }
}

/// The values of three locals at every assignment that adds to something.
fn turns(s: &[Stmt], of: [usize; 3], env: &mut Vec<i64>, out: &mut Vec<[i64; 3]>) {
    for x in s {
        match x {
            Stmt::For { var, start, end, body } => {
                let (lo, hi) = (amount(start, env), amount(end, env));
                for v in lo..hi {
                    env[*var] = v;
                    turns(&body.stmts, of, env, out);
                }
            }
            Stmt::Assign(_, Some(BinOp::Add), _) => out.push([env[of[0]], env[of[1]], env[of[2]]]),
            _ => {}
        }
    }
}

#[test]
fn tiles_run_the_same_turns_each_once() {
    let src = "fn matmul(a: &[f64], b: &[f64], c: &mut [f64], n: i64, m: i64) {
    for i in 0..n {
        for j in 0..m {
            let mut acc = 0.0;
            for k in 0..n {
                acc += a[i * n + k] * b[k * n + j];
            }
            c[i * n + j] = acc;
        }
    }
}";
    let before = module(src);
    let f = &before.funcs[0];
    let place = |name: &str| f.locals.iter().position(|l| l.name == name).unwrap();
    let of = [place("i"), place("j"), place("k")];
    let sizes = [(7, 10), (8, 4), (1, 1), (0, 5), (5, 0)];
    for side in [1, 3, 4, 64] {
        let g = tile(f, side).unwrap();
        for (n, m) in sizes {
            let mut env = vec![0; g.locals.len()];
            env[place("n")] = n;
            env[place("m")] = m;
            let (mut a, mut b) = (vec![], vec![]);
            turns(&f.body.as_ref().unwrap().stmts, of, &mut env.clone(), &mut a);
            turns(&g.body.as_ref().unwrap().stmts, of, &mut env, &mut b);
            assert_eq!(a.len() as i64, n * m * n);
            b.sort();
            assert_eq!(a, b, "side {}, {} by {}", side, n, m);
        }
    }
}
