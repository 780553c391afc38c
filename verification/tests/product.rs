use neant::compile::compile;
use neant::cost::analyze::analyze;
use neant::cost::declare::round;
use neant::cost::lock::{gap, report};
use neant::cost::machine::Machine;
use neant::cost::rat::Rat;
use neant::cost::size::{Atom, Poly};
use neant::text::show_int;

const PRODUCT: &str = "fn matmul(a: &[f64], b: &[f64], c: &mut [f64], n: i64) {
    for i in 0..n {
        for j in 0..n {
            let mut acc = 0.0;
            for k in 0..n {
                acc += a[i * n + k] * b[k * n + j];
            }
            c[i * n + j] = acc;
        }
    }
}
fn main() {
    let a = [0.0; 3936256];
    let b = [0.0; 3936256];
    let mut c = [0.0; 3936256];
    matmul(&a, &b, &mut c, 1984);
}
";

fn machine() -> Machine {
    Machine { m_bytes: 2 << 20, b_bytes: 64, p_cores: 4 }
}

#[test]
fn a_caller_with_numbers_gets_numbers() {
    let m = compile(PRODUCT).unwrap();
    let c = analyze(&m, &machine());
    let r = report(&c[1], &machine());
    assert!(r.starts_with("main             work 78126813058                  moves 3968·B + 62633705472         exact\n"), "{}", r);
    assert!(r.contains("lower bound      moves 62476255232/√M − M           (HBL, σ = 3/2, CDKSY 2013)   gap 1526× at M = 2 MiB, B = 64\n"), "{}", r);
    assert!(r.contains("in `matmul`: `b` moves by 8·n bytes per iteration of the innermost loop: a new line every time (line 6)\n"), "{}", r);
}

#[test]
fn a_rewrite_is_offered_with_its_cost() {
    let m = compile(PRODUCT).unwrap();
    let c = analyze(&m, &machine());
    let r = report(&c[0], &machine());
    assert!(r.contains("transpose the column operand work ≈ 10·n³                      moves 16·n³ + 4·B·n² + 16·n² + B·n if 16·n + 3·B ≥ M"), "{}", r);
    assert!(r.contains("[--apply matmul:transpose]"), "{}", r);
}

#[test]
fn the_gap_is_the_ratio_of_the_leading_terms() {
    let n = Poly::var(0);
    let n3 = n.mul(&n).mul(&n);
    let b = Poly::atom(Atom::B);
    let moves = b.mul(&n3).add(&n3.scale(&Rat::integer(8))).add(&b.mul(&n).mul(&n));
    let bound = n3.scale(&Rat::integer(8)).mul_atom_pow(Atom::M, &Rat::new(-1, 2));
    let shown = |p: &Poly| show_int(&round(&gap(p, &bound, &machine()).unwrap()));
    assert_eq!(shown(&moves), "13033");
    // tiled by 256, and with the column operand transposed
    assert_eq!(shown(&n3.scale(&Rat::new(1, 8))), "23");
    assert_eq!(shown(&n3.scale(&Rat::integer(16))), "2896");
    assert!(gap(&n, &bound, &machine()).is_none());
}

#[test]
fn a_product_whose_coefficients_cancel_still_leads() {
    let n = Poly::var(0);
    // (B − 64)·n + 5 at lines of 64 bytes
    let moves = Poly::atom(Atom::B).mul(&n).sub(&n.scale(&Rat::integer(64))).add(&Poly::constant(5));
    assert!(gap(&moves, &n, &machine()).unwrap().is_zero());
    assert!(gap(&Poly::constant(5), &moves, &machine()).is_none());
}
