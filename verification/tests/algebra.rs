use neant::cost::asserted;
use neant::cost::bounds::hbl_sigma;
use neant::cost::costs::with_cond;
use neant::cost::declare::round;
use neant::cost::machine::Machine;
use neant::cost::piece::{dominates, feasible, Cond, Cost, Piece};
use neant::cost::point::Point;
use neant::cost::rat::Rat;
use neant::cost::rewrite::tile_side;
use neant::cost::show::show_poly;
use neant::cost::size::{Atom, Opaque, Poly};
use neant::cost::wide::{read_number, Number};
use neant::text::{chars_of, show_int};

fn names() -> Vec<String> {
    vec!["n".to_string(), "m".to_string()]
}

fn n() -> Poly {
    Poly::var(0)
}

fn machine() -> Machine {
    Machine { m_bytes: 1 << 20, b_bytes: 64, p_cores: 4 }
}

fn cost_at(c: &Cost, v: i128) -> String {
    c.eval(&vec![(0, Number::integer(v))], &machine()).unwrap().show()
}

fn at(p: &Poly, v: i128) -> Option<Rat> {
    Point { sizes: vec![(0, Some(Rat::integer(v)))], rest: None }.value(p, &machine())
}

#[test]
fn a_square_dominates_a_line() {
    let sq = n().mul(&n());
    assert!(dominates(&sq, &n()));
    assert!(!dominates(&n(), &sq));
    assert!(dominates(&sq, &sq));
    // at every size of one or more the dominating one is at least as large
    for v in 1..20 {
        assert!(!matches!(at(&sq, v).unwrap().side(&at(&n(), v).unwrap()), neant::num::Side::Before));
    }
}

#[test]
fn what_is_subtracted_has_to_be_covered() {
    let p = n().sub(&Poly::constant(5));
    assert!(!dominates(&p, &Poly::constant(1)));
    assert!(dominates(&n().add(&Poly::constant(5)), &n()));
}

#[test]
fn conditions_that_exclude_each_other() {
    let small = Cond { ws: n(), fits: false };
    let large = Cond { ws: n().mul(&n()), fits: true };
    assert!(!feasible(&[small.copy(), large.copy()]));
    assert!(feasible(&[Cond { ws: n(), fits: true }, Cond { ws: n().mul(&n()), fits: false }]));
}

#[test]
fn pruning_keeps_the_larger_piece() {
    let two = Cost::poly(n()).max(&Cost::poly(n().mul(&n())));
    assert_eq!(two.pieces.len(), 1);
    assert_eq!(two.display(&names()).to_string(), "n²");
}

#[test]
fn sums_and_maxima_of_costs() {
    let fits = Cond { ws: n(), fits: true };
    let not = Cond { ws: n(), fits: false };
    let a = Cost::from_pieces(vec![
        Piece { conds: with_cond(&[], fits), poly: Poly::constant(1) },
        Piece { conds: with_cond(&[], not), poly: n() },
    ]);
    let s = a.add(&a);
    assert_eq!(cost_at(&s, 10), "2");
    assert_eq!(cost_at(&s, 1 << 20), "2097152");
}

#[test]
fn a_sum_over_a_loop_is_exact() {
    // the sum of j over j = 0 .. n
    let s = Poly::var(1).sum_over(1, &Poly::zero(), 1, &n());
    assert_eq!(show_poly(&s, &names()), "n²/2 − n/2");
    for v in 0..8i128 {
        assert!(at(&s, v + 1).unwrap().same(&Rat::integer((v + 1) * v / 2)));
    }
}

#[test]
fn a_substitution_is_exact() {
    let p = n().mul(&n()).subst(0, &Poly::var(1).add(&Poly::constant(1)));
    assert_eq!(show_poly(&p, &names()), "m² + 2·m + 1");
}

#[test]
fn bounds_are_read() {
    let p = asserted::parse("n log n", &names()).unwrap();
    assert_eq!(show_poly(&p, &names()), "n·log n");
    assert!(asserted::parse("k", &names()).is_err());
    assert!(asserted::dominated(&n(), &p));
}

#[test]
fn letters_beyond_ascii_make_names() {
    let names = vec!["größe".to_string(), "n".to_string()];
    let p = asserted::parse("größe^2", &names).unwrap();
    assert!(p.same(&Poly::var(0).mul(&Poly::var(0))));
    assert!(asserted::parse("→", &names).is_err());
}

#[test]
fn powers_of_the_machine() {
    let p = Poly::atom(Atom::M).root_mono(2).unwrap();
    assert!(at(&p, 1).unwrap().same(&Rat::integer(1024)));
}

#[test]
fn the_largest_tile_that_fits_three() {
    assert_eq!(tile_side(2 << 20, 8), 256);
    assert_eq!(tile_side(100, 8), 2);
    assert_eq!(tile_side(1, 8), 1);
    // three elements fill the memory: not strictly inside
    assert_eq!(tile_side(24, 8), 1);
    assert_eq!(tile_side(97, 8), 2);
    assert_eq!(tile_side(96, 8), 1);
}

#[test]
fn a_stream_has_exponent_one() {
    assert!(hbl_sigma(1, &[1]).unwrap().same(&Rat::one()));
    assert!(hbl_sigma(2, &[1]).is_none());
}

#[test]
fn sums_of_powers() {
    assert_eq!(show_poly(&Poly::faulhaber(0, &n()), &names()), "n");
    assert_eq!(show_poly(&Poly::faulhaber(2, &n()), &names()), "n³/3 − n²/2 + n/6");
}

#[test]
fn single_terms_divide() {
    let q = n().mul(&n()).div_mono(&n()).unwrap();
    assert_eq!(show_poly(&q, &names()), "n");
    assert!(n().div_mono(&n().add(&Poly::constant(1))).is_none());
}

#[test]
fn an_atom_behind_a_pointer_is_the_atom() {
    assert!(matches!(*Atom::Var(3).clone_ref(), Atom::Var(3)));
    let mut out: Vec<String> = vec!["f".to_string()];
    n().opaque_callees(&mut out);
    assert_eq!(out, vec!["f".to_string()]);
}

#[test]
fn logarithms_have_values() {
    let log = Poly::atom(Atom::Log(Box::new(n())));
    let p = n().mul(&log).scale(&Rat::integer(1000));
    // 1000·n·ln n
    assert_eq!(show_int(&round(&at(&p, 1000).unwrap())), "6907755");
    assert_eq!(show_int(&round(&at(&p, 2).unwrap())), "1386");
    assert_eq!(show_int(&round(&at(&p, 1).unwrap())), "0");
    assert_eq!(show_int(&round(&at(&log.scale(&Rat::integer(1000000000)), 1000000).unwrap())), "13815510558");
}

fn log(i: usize) -> Poly {
    Poly::atom(Atom::Log(Box::new(Poly::var(i))))
}

fn call(arg: Option<Poly>) -> Poly {
    Poly::atom(Atom::Opaque(Box::new(Opaque { callee: "f".to_string(), moves: false, args: vec![arg] })))
}

#[test]
fn a_whole_power_at_the_machine_is_exact() {
    let p = n().mul_atom_pow(Atom::B, &Rat::integer(-1)).at_machine(64, 2097152);
    assert!(p.same(&n().scale(&Rat::new(1, 64))));
    let p = Poly::constant(1).mul_atom_pow(Atom::M, &Rat::new(-1, 2));
    // an irrational coefficient is kept to four decimals
    assert!(p.at_machine(64, 2097152).same(&Poly::constant(7).scale(&Rat::new(1, 10000))));
    assert!(p.at_machine(64, 1 << 20).same(&Poly::constant(1).scale(&Rat::new(1, 1024))));
}

#[test]
fn values_keep_their_digits() {
    let k = Machine { m_bytes: 2097152, b_bytes: 64, p_cores: 4 };
    let x = Point { sizes: vec![], rest: None };
    let at = |e: Rat, c: i128| show_int(&round(&x.value(&Poly::constant(c).mul_atom_pow(Atom::M, &e), &k).unwrap()));
    // 10^15/√M and 10^18/M^(3/2)
    assert_eq!(at(Rat::new(-1, 2), 1_000_000_000_000_000), "690533966002");
    assert_eq!(at(Rat::new(-3, 2), 1_000_000_000_000_000_000), "329272254");
}

#[test]
fn variables_under_a_logarithm_are_mentioned() {
    assert_eq!(log(5).vars(), vec![5]);
    assert_eq!(n().mul(&log(5)).max_var(), Some(5));
    assert_eq!(n().mul(&log(0)).vars(), vec![0]);
    assert_eq!(Poly::constant(3).max_var(), None);
}

#[test]
fn logarithms_that_become_equal_multiply() {
    let p = log(0).mul(&log(1)).subst(0, &Poly::var(1));
    assert!(p.same(&log(1).mul(&log(1))));
    let p = log(0).mul(&log(1)).subst_pow(0, &Poly::var(1));
    assert!(p.same(&log(1).mul(&log(1))));
}

#[test]
fn arguments_are_hidden_by_a_test() {
    let p = call(Some(Poly::var(0))).add(&call(Some(Poly::var(1)))).add(&n());
    assert!(p.hide_args(|_| true).same(&call(None).scale(&Rat::integer(2)).add(&n())));
    assert!(p.hide_args(|_| false).same(&p));
    let q = call(Some(Poly::var(0))).mul(&call(Some(Poly::var(1))));
    assert!(q.hide_args(|_| true).same(&call(None).mul(&call(None))));
    assert!(q.hide_args(|a| a.mentions(0)).same(&call(None).mul(&call(Some(Poly::var(1))))));
}

#[test]
fn a_name_may_carry_a_superscript() {
    assert!(asserted::parse("n²", &names()).unwrap().same(&n().mul(&n())));
    assert!(asserted::parse("n^0", &names()).unwrap().same(&Poly::constant(1)));
    assert!(asserted::parse("3·n³ + m", &names()).is_ok());
}

#[test]
fn polynomials_are_canonical() {
    let m = Poly::var(1);
    let i = Poly::var(7);
    let three_n = n().scale(&Rat::integer(3));
    let text = |p: &Poly| show_poly(p, &names());
    assert_eq!(text(&three_n.add(&three_n)), "6·n");
    assert_eq!(n().mul(&n()).sub(&n().mul(&n())).len(), 0);
    assert_eq!(text(&Poly::constant(3).sum_over(7, &Poly::zero(), 1, &n())), "3·n");
    assert_eq!(text(&i.scale(&Rat::integer(2)).sum_over(7, &Poly::zero(), 1, &n())), "n² − n");
    assert_eq!(text(&n().mul(&m)), "n·m");
    assert_eq!(n().add(&m).len(), 2);
    assert_eq!(text(&n().scale(&Rat::new(6, 4))), "3·n/2");
    assert_eq!(n().scale(&Rat::zero()).len(), 0);
}

#[test]
fn degrees_add_in_a_product() {
    let m = Poly::var(1);
    let p = n().mul(&n()).add(&m);
    let q = n().sub(&m.mul(&m).mul(&m));
    assert!(p.degree_in(&[0]).same(&Rat::integer(2)));
    assert!(q.degree_in(&[0]).same(&Rat::integer(1)));
    assert!(p.mul(&q).degree_in(&[0]).same(&Rat::integer(3)));
    assert!(p.mul(&q).degree_in(&[0, 1]).same(&Rat::integer(5)));
    assert!(Poly::zero().degree_in(&[0]).is_zero());
    // (n + m)(n − m) is not zero
    assert_eq!(n().add(&m).mul(&n().sub(&m)).len(), 2);
}

#[test]
fn variables_are_replaced_at_once() {
    let m = Poly::var(1);
    let p = n().mul(&n()).add(&m.scale(&Rat::integer(3)));
    let swapped = p.subst_many(&[(0, Poly::var(1)), (1, Poly::var(0))]);
    assert!(swapped.same(&m.mul(&m).add(&n().scale(&Rat::integer(3)))));
    assert!(p.subst(5, &Poly::constant(9)).same(&p));
}

#[test]
fn a_root_undoes_a_power() {
    let p = n().scale(&Rat::new(3, 2));
    let cube = p.mul(&p).mul(&p);
    assert!(cube.root_mono(3).unwrap().same(&p));
    assert!(n().add(&Poly::constant(1)).root_mono(2).is_none());
}

#[test]
fn a_shift_under_conditions() {
    // n + 7 where n·B < M, else n
    let fits = Cond { ws: n(), fits: true };
    let c = Cost::poly(n()).add_under(&vec![fits], &Poly::constant(7));
    assert_eq!(cost_at(&c, 10), "17");
    assert_eq!(cost_at(&c, 1 << 20), "1048576");
}

#[test]
fn pruning_at_a_machine_keeps_the_values() {
    let fits = Cond { ws: n(), fits: true };
    let mut c = Cost::poly(n()).add_under(&vec![fits], &Poly::constant(7));
    let sizes = [1, 2, 16383, 16384, 16385, 100000];
    let before: Vec<String> = sizes.iter().map(|v| cost_at(&c, *v)).collect();
    c.prune_at(&machine());
    for (v, x) in sizes.iter().zip(&before) {
        assert_eq!(&cost_at(&c, *v), x);
    }
}

#[test]
fn one_more_trip_adds_one_more_turn() {
    let square = Poly::var(1).mul(&Poly::var(1));
    let s = square.sum_over(1, &Poly::zero(), 1, &n());
    let t = square.sum_over(1, &Poly::zero(), 1, &n().add(&Poly::constant(1)));
    assert!(t.sub(&s).same(&n().mul(&n())));
}

#[test]
fn leading_terms_and_callees_settle() {
    let p = n().mul(&n()).add(&n()).add(&call(Some(n())));
    let l = p.leading();
    assert_eq!(l.len(), 2);
    assert!(l.leading().same(&l));
    let mut out: Vec<String> = vec![];
    p.opaque_callees(&mut out);
    p.opaque_callees(&mut out);
    assert_eq!(out, vec!["f".to_string()]);
}

#[test]
fn numbers_may_be_infinite_or_none() {
    let read = |s: &str| read_number(&chars_of(s)).map(|n| n.show());
    for (text, shown) in [
        ("1e3", "1000"),
        ("inf", "inf"),
        ("+Inf", "inf"),
        ("-INFINITY", "-inf"),
        ("nan", "NaN"),
        ("-NaN", "NaN"),
    ] {
        assert_eq!(read(text).as_deref(), Some(shown), "{}", text);
    }
    for text in ["", "-", "infi", "infinit", "nano", "in f", "--inf"] {
        assert_eq!(read(text), None, "{}", text);
    }
}

#[test]
fn infinite_sizes_follow_floating_point() {
    let at = |p: &Poly, x: Number| Cost::poly(p.copy()).eval(&vec![(0, x)], &machine()).unwrap().show();
    let inv = |e: i128| Poly::constant(3).mul_atom_pow(Atom::Var(0), &Rat::integer(e));
    let cubes = Poly::constant(3).mul_atom_pow(Atom::Var(0), &Rat::integer(3));
    let roots = Poly::constant(3).mul_atom_pow(Atom::Var(0), &Rat::new(1, 2));
    assert_eq!(at(&n(), Number::Infinite(false)), "inf");
    assert_eq!(at(&cubes, Number::Infinite(true)), "-inf");
    assert_eq!(at(&cubes.mul(&cubes), Number::Infinite(true)), "inf");
    assert_eq!(at(&inv(-1), Number::Infinite(false)), "0");
    assert_eq!(at(&inv(-1), Number::integer(0)), "inf");
    assert_eq!(at(&inv(-1), Number::integer(-3)), "-1");
    assert_eq!(at(&roots, Number::integer(-4)), "NaN");
    assert_eq!(at(&cubes.add(&n().scale(&Rat::integer(-1))), Number::Infinite(false)), "NaN");
    assert_eq!(at(&n().add(&Poly::constant(1)), Number::Undefined), "NaN");
    assert_eq!(at(&log(0), Number::Undefined), "0");
    assert_eq!(at(&log(0), Number::Infinite(false)), "inf");
    assert_eq!(at(&log(0), Number::Infinite(true)), "0");
    // n·B < M holds of no size that is not a number, so that the other piece applies
    let c = Cost::from_pieces(vec![
        Piece { conds: vec![Cond { ws: n(), fits: true }], poly: Poly::constant(1) },
        Piece { conds: vec![Cond { ws: n(), fits: false }], poly: Poly::constant(2) },
    ]);
    assert_eq!(c.eval(&vec![(0, Number::Undefined)], &machine()).unwrap().show(), "2");
    assert_eq!(c.eval(&vec![(0, Number::Infinite(true))], &machine()).unwrap().show(), "1");
    assert!(c.eval(&vec![(1, Number::integer(5))], &machine()).is_none());
}
