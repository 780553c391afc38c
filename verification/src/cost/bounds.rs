//! Lower bounds the compiler derives itself, without a catalogue and without a tool.
//!
//! **HBL.** For a statement inside a loop nest whose array references are, after
//! delinearisation, injective affine maps on the loop variables — so that each behaves as a
//! coordinate projection `π_D` onto the loop variables `D` it mentions — the discrete
//! Brascamp–Lieb inequality (Bennett–Carbery–Christ–Tao; Christ, Demmel, Knight, Scanlon, Yelick
//! 2013, §6 for coordinate projections) says `|V| ≤ ∏_j |π_{D_j}(V)|^{s_j}` for every finite
//! `V` whenever, for every subset `S` of the loop variables, `|S| ≤ Σ_j s_j·|S ∩ D_j|`. Cut any
//! execution into segments of `S` words moved: within a segment each array has at most `2S`
//! accessible elements, so a segment runs at most `(2S)^σ` iterations with `σ = min Σ s_j`, and
//! the `|I|` iterations need at least `|I|/(2S)^σ` segments:
//!
//! ```text
//!   Q  ≥  |I| / (2^σ · S^(σ−1))  −  S      words        (S the cache in words, no recomputation)
//!      =  |I| · 4^σ · M^(1−σ)    −  M      bytes        (8-byte words, S = M/8)
//! ```
//!
//! The product has `σ = 3/2` and gets `8·N/√M − M`: Hong–Kung with Irony–Toledo–Tiskin's
//! constant.
//!
//! **Footprint.** Every distinct element of a parameter array that the function reads was in slow
//! memory when it was called and crosses at least once; every distinct element it writes crosses
//! back. The sum over parameter arrays of the largest injective image among their references is a
//! lower bound from a cold cache, tight on every streaming kernel.
//!
//! Both are lower bounds on *words* touched, and words move inside lines, so they bound the
//! calculus's line traffic too.

use vstd::prelude::*;
use crate::ast::BinOp;
use crate::cost::algebra::{p_atom, p_mul, p_scale, p_sub, p_term};
use crate::cost::assoc::bump;
use crate::cost::forms::opt_real;
use crate::cost::linear::{least_sum, least_vertex, rows_v, total, vertex, Row, RowV};
use crate::cost::machine::Machine;
use crate::cost::model::{AtomV, MonoV, PolyV};
use crate::cost::piece::{dominates, p_dominates};
use crate::cost::point::{sum_at, Point, PointV};
use crate::cost::rat::Rat;
use crate::cost::root::{power, rat_pow};
use crate::cost::size::{atom_view_is, Atom, Poly};
use crate::cost::subst::p_has_vars;
use crate::cost::sums::binom;
use crate::ir;
use crate::ir::{Expr, ExprKind, LValue, LocalId, Stmt};
use crate::num::Side;
use crate::text::copy_text;

verus! {

/// A lower bound on the bytes a function moves.
#[derive(Debug)]
pub struct Bound {
    pub kind: String,
    pub citation: String,
    /// The bound on moves, in bytes, over the function's atoms.
    pub moves: Poly,
    pub line: u32,
    /// The bound assumes the operands start in slow memory (a footprint bound); such a bound is
    /// handed to a caller only for arrays the caller received the same way.
    pub cold: bool,
}

pub struct BoundV {
    pub kind: Seq<char>,
    pub citation: Seq<char>,
    pub moves: PolyV,
    pub line: u32,
    pub cold: bool,
}

impl View for Bound {
    type V = BoundV;

    open spec fn view(&self) -> BoundV {
        BoundV {
            kind: self.kind@,
            citation: self.citation@,
            moves: self.moves@,
            line: self.line,
            cold: self.cold,
        }
    }
}

impl Bound {
    pub fn copy(&self) -> (r: Bound)
        ensures
            r@ == self@,
    {
        Bound {
            kind: copy_text(&self.kind),
            citation: copy_text(&self.citation),
            moves: self.moves.copy(),
            line: self.line,
            cold: self.cold,
        }
    }
}

pub open spec fn bounds_v(s: Seq<Bound>) -> Seq<BoundV> {
    Seq::new(s.len(), |i: int| s[i]@)
}

/// The shape of a multiply-accumulate statement — for the operand notes.
#[derive(Debug)]
pub struct Mac<'a> {
    pub a: LocalId,
    pub ia: &'a Expr,
    pub b: LocalId,
    pub ib: &'a Expr,
    pub line: u32,
}

pub struct MacV {
    pub a: LocalId,
    pub ia: ir::ExprV,
    pub b: LocalId,
    pub ib: ir::ExprV,
    pub line: u32,
}

impl<'a> View for Mac<'a> {
    type V = MacV;

    open spec fn view(&self) -> MacV {
        MacV { a: self.a, ia: self.ia@, b: self.b, ib: self.ib@, line: self.line }
    }
}

/// The product of two elements that an expression is.
pub open spec fn product_of(e: ir::ExprV) -> Option<MacV> {
    match e.kind {
        ir::KindV::Binary(op, l, r) => match (l.kind, r.kind) {
            (ir::KindV::Index(a, ia), ir::KindV::Index(b, ib)) => if op == BinOp::Mul {
                Some(MacV { a, ia: *ia, b, ib: *ib, line: e.line })
            } else {
                None
            },
            _ => None,
        },
        _ => None,
    }
}

/// `x += a[i] * b[j]`, into a variable or an element.
pub open spec fn mac_of(s: ir::StmtV) -> Option<MacV> {
    match s {
        ir::StmtV::Assign(lv, op, e) => if op == Some(BinOp::Add) && (lv is Var || lv is Index) {
            product_of(e)
        } else {
            None
        },
        _ => None,
    }
}

fn as_product<'a>(e: &'a Expr) -> (r: Option<Mac<'a>>)
    ensures
        match r {
            Some(m) => product_of(e@) == Some(m@),
            None => product_of(e@) is None,
        },
{
    proof {
        ir::expr_parts(*e);
    }
    if let ExprKind::Binary(op, l, r) = &e.kind {
        proof {
            ir::expr_parts(**l);
            ir::expr_parts(**r);
        }
        if let ExprKind::Index(a, ia) = &l.kind {
            if let ExprKind::Index(b, ib) = &r.kind {
                if matches!(op, BinOp::Mul) {
                    return Some(Mac { a: *a, ia, b: *b, ib, line: e.line });
                }
            }
        }
    }
    None
}

/// The shape of a multiply-accumulate statement, if `s` is one.
pub fn as_mac<'a>(s: &'a Stmt) -> (r: Option<Mac<'a>>)
    ensures
        match r {
            Some(m) => mac_of(s@) == Some(m@),
            None => mac_of(s@) is None,
        },
{
    proof {
        ir::stmt_parts(*s);
    }
    if let Stmt::Assign(lv, op, e) = s {
        proof {
            ir::lvalue_parts(*lv);
        }
        let plain: bool = matches!(lv, LValue::Var(_) | LValue::Index(_, _, _));
        if let Some(o) = op {
            if matches!(o, BinOp::Add) && plain {
                return as_product(e);
            }
        }
    }
    None
}

// ---- the exponent ----

/// How many of the lowest `n` bits are set.
pub open spec fn ones(x: u32, n: nat) -> nat
    decreases n,
{
    if n == 0 {
        0
    } else {
        ones(x, (n - 1) as nat) + (if (x >> ((n - 1) as u32)) & 1 == 1 {
            1nat
        } else {
            0
        })
    }
}

fn count_ones(x: u32) -> (r: u32)
    ensures
        r == ones(x, 32),
{
    let mut c: u32 = 0;
    let mut i: u32 = 0;
    while i < 32
        invariant
            i <= 32,
            c <= i,
            c == ones(x, i as nat),
        decreases 32 - i,
    {
        if (x >> i) & 1 == 1 {
            c += 1;
        }
        i += 1;
    }
    c
}

/// `x` put into an ascending list, unless it is there.
pub open spec fn mask_insert(s: Seq<u32>, x: u32) -> Seq<u32>
    decreases s.len(),
{
    if s.len() == 0 || s.last() < x {
        s.push(x)
    } else if s.last() == x {
        s
    } else {
        mask_insert(s.drop_last(), x).push(s.last())
    }
}

/// The references that mention a loop variable, in order, each once.
pub open spec fn masks(refs: Seq<u32>) -> Seq<u32>
    decreases refs.len(),
{
    if refs.len() == 0 {
        refs
    } else if refs.last() == 0 {
        masks(refs.drop_last())
    } else {
        mask_insert(masks(refs.drop_last()), refs.last())
    }
}

/// `Σ_j s_j·|S ∩ D_j| ≥ |S|` for one subset `S`.
pub open spec fn subset_row(d: Seq<u32>, s: u32) -> RowV {
    RowV { a: Seq::new(d.len(), |j: int| ones(s & d[j], 32) as real), b: ones(s, 32) as real }
}

/// `s_j ≥ 0`.
pub open spec fn unit_row(k: nat, j: int) -> RowV {
    RowV { a: Seq::new(k, |i: int| if i == j { 1real } else { 0real }), b: 0real }
}

/// The rows for the subsets `1 .. n`, then those for the coordinates.
pub open spec fn hbl_rows(d: Seq<u32>, n: nat) -> Seq<RowV> {
    Seq::new(
        (n - 1 + d.len()) as nat,
        |i: int|
            if i < n - 1 {
                subset_row(d, (i + 1) as u32)
            } else {
                unit_row(d.len(), i - (n - 1))
            },
    )
}

/// Two to a small power.
pub open spec fn two_to(k: nat) -> nat
    decreases k,
{
    if k == 0 {
        1
    } else {
        2 * two_to((k - 1) as nat)
    }
}

/// The enumeration of `k` rows out of `m` would be too large.
pub open spec fn too_many(m: nat, k: nat) -> bool {
    binom(m, k) > 300_000 || exists|i: nat| i <= k && #[trigger] binom(m, i) > 0x100_0000_0000
}

/// The exponent of the loop nest: the least `Σ s_j` at a vertex of the constraints.
pub open spec fn is_sigma(dims: nat, refs: Seq<u32>, r: Option<real>) -> bool {
    let d = masks(refs);
    let k = d.len();
    if k == 0 || dims == 0 || dims > 12 || too_many((two_to(dims) - 1 + k) as nat, k) {
        r is None
    } else {
        least_vertex(hbl_rows(d, two_to(dims)), k, r)
    }
}

/// The exponent of the loop nest.
pub open spec fn sigma(dims: nat, refs: Seq<u32>) -> Option<real> {
    choose|r: Option<real>| is_sigma(dims, refs, r)
}

/// A loop nest has one exponent.
pub proof fn sigma_is(dims: nat, refs: Seq<u32>, r: Option<real>)
    requires
        is_sigma(dims, refs, r),
    ensures
        sigma(dims, refs) == r,
{
    let o = sigma(dims, refs);
    assert(is_sigma(dims, refs, o));
    let d = masks(refs);
    let k = d.len();
    let rows = hbl_rows(d, two_to(dims));
    if let (Some(a), Some(b)) = (o, r) {
        let x = choose|x: Seq<real>| #[trigger] vertex(rows, x, k) && total(x, k) == a;
        let y = choose|y: Seq<real>| #[trigger] vertex(rows, y, k) && total(y, k) == b;
        assert(total(x, k) >= b && total(y, k) >= a);
    }
}

#[verifier::loop_isolation(false)]
fn insert_mask(s: &mut Vec<u32>, x: u32)
    ensures
        final(s)@ == mask_insert(old(s)@, x),
{
    let ghost all = s@;
    let n: usize = s.len();
    let mut i: usize = n;
    proof {
        assert(all.take(n as int) =~= all);
        assert(mask_insert(all, x) =~= mask_insert(all.take(n as int), x) + all.skip(n as int));
    }
    while i > 0
        invariant
            i <= n,
            s@ == all,
            mask_insert(all, x) == mask_insert(all.take(i as int), x) + all.skip(i as int),
        decreases i,
    {
        proof {
            assert(all.take(i as int).last() == all[i - 1]);
            assert(all.take(i as int).drop_last() =~= all.take(i - 1));
        }
        if s[i - 1] == x {
            proof {
                assert(all =~= all.take(i as int) + all.skip(i as int));
            }
            return;
        }
        if s[i - 1] < x {
            s.insert(i, x);
            proof {
                assert(s@ =~= all.take(i as int).push(x) + all.skip(i as int));
            }
            return;
        }
        proof {
            assert(mask_insert(all.take(i - 1), x).push(all[i - 1]) + all.skip(i as int) =~= mask_insert(
                all.take(i - 1),
                x,
            ) + all.skip(i - 1));
        }
        i -= 1;
    }
    s.insert(0, x);
    proof {
        assert(s@ =~= all.take(0).push(x) + all.skip(0));
    }
}

fn mask_set(refs: &[u32]) -> (r: Vec<u32>)
    ensures
        r@ == masks(refs@),
{
    let mut out: Vec<u32> = Vec::new();
    let mut i: usize = 0;
    proof {
        assert(refs@.take(0) =~= Seq::empty());
    }
    while i < refs.len()
        invariant
            i <= refs@.len(),
            out@ == masks(refs@.take(i as int)),
        decreases refs@.len() - i,
    {
        proof {
            assert(refs@.take(i + 1).drop_last() =~= refs@.take(i as int));
        }
        if refs[i] != 0 {
            insert_mask(&mut out, refs[i]);
        }
        i += 1;
    }
    proof {
        assert(refs@.take(i as int) =~= refs@);
    }
    out
}

proof fn binom_next(n: nat, k: nat)
    requires
        k <= n,
    ensures
        binom(n, k + 1) * (k + 1) == binom(n, k) * (n - k),
    decreases n,
{
    if n == 0 {
        reveal_with_fuel(binom, 2);
    } else {
        let c = binom((n - 1) as nat, k);
        if k < n {
            binom_next((n - 1) as nat, k);
        } else {
            binom_edge((n - 1) as nat, k);
            binom_edge((n - 1) as nat, k + 1);
        }
        let d = binom((n - 1) as nat, k + 1);
        assert(binom(n, k + 1) == c + d) by {
            assert(((k + 1) - 1) as nat == k);
        }
        // (k+1)·d = (n−1−k)·c, so (k+1)·(c+d) = n·c
        assert((c + d) * (k + 1) == n * c) by (nonlinear_arith)
            requires
                d * (k + 1) == c * (n - 1 - k) || (k == n && c == 0 && d == 0),
        ;
        if k > 0 {
            binom_next((n - 1) as nat, (k - 1) as nat);
            let e = binom((n - 1) as nat, (k - 1) as nat);
            assert(binom(n, k) == e + c);
            // k·c = (n−k)·e, so (n−k)·(e+c) = n·c
            assert((e + c) * (n - k) == n * c) by (nonlinear_arith)
                requires
                    c * k == e * (n - k),
            ;
        } else {
            assert(c == 1 && binom(n, k) == 1);
            assert(n * c == n) by (nonlinear_arith)
                requires
                    c == 1,
            ;
            assert(1 * (n - k) == n) by (nonlinear_arith)
                requires
                    k == 0,
            ;
        }
    }
}

proof fn binom_edge(n: nat, k: nat)
    requires
        k > n,
    ensures
        binom(n, k) == 0,
    decreases n,
{
    if n > 0 {
        binom_edge((n - 1) as nat, (k - 1) as nat);
        binom_edge((n - 1) as nat, k);
    }
}

/// How many ways there are to pick `k` of `n`; `None` once the count passes 2^40.
fn binomial(n: u128, k: u128) -> (r: Option<u64>)
    requires
        k <= n < 0x1_0000_0000_0000_0000_0000,
    ensures
        match r {
            Some(v) => v == binom(n as nat, k as nat) && forall|i: nat| i <= k ==> #[trigger] binom(n as nat, i)
                <= 0x100_0000_0000,
            None => exists|i: nat| i <= k && #[trigger] binom(n as nat, i) > 0x100_0000_0000,
        },
{
    let mut r: u128 = 1;
    let mut i: u128 = 0;
    proof {
        assert(binom(n as nat, 0) == 1);
    }
    while i < k
        invariant
            i <= k <= n < 0x1_0000_0000_0000_0000_0000,
            r == binom(n as nat, i as nat),
            r <= 0x100_0000_0000,
            forall|j: nat| j <= i ==> #[trigger] binom(n as nat, j) <= 0x100_0000_0000,
        decreases k - i,
    {
        proof {
            binom_next(n as nat, i as nat);
            let b = binom(n as nat, (i + 1) as nat);
            let rest = (n - i) as int;
            assert(r * rest <= 0x100_0000_0000 * 0xffff_ffff_ffff_ffff_ffff) by (nonlinear_arith)
                requires
                    0 <= r <= 0x100_0000_0000,
                    0 <= rest <= 0xffff_ffff_ffff_ffff_ffff,
            ;
            assert(b * (i + 1) == r * rest);
            vstd::arithmetic::div_mod::lemma_fundamental_div_mod_converse(
                r * rest,
                (i + 1) as int,
                b as int,
                0,
            );
        }
        r = r * (n - i) / (i + 1);
        i += 1;
        if r > 0x100_0000_0000 {
            proof {
                assert(binom(n as nat, i as nat) > 0x100_0000_0000);
            }
            return None;
        }
    }
    Some(r as u64)
}

fn row_of_subset(d: &Vec<u32>, s: u32) -> (r: Row)
    ensures
        r@ == subset_row(d@, s),
{
    let mut a: Vec<Rat> = Vec::new();
    let mut j: usize = 0;
    while j < d.len()
        invariant
            j <= d@.len(),
            a@.len() == j,
            forall|t: int| 0 <= t < j ==> (#[trigger] a@[t])@ == ones(s & d@[t], 32) as real,
        decreases d@.len() - j,
    {
        a.push(Rat::integer(count_ones(s & d[j]) as i128));
        j += 1;
    }
    proof {
        assert(crate::cost::linear::rats(a@) =~= subset_row(d@, s).a);
    }
    Row { a, b: Rat::integer(count_ones(s) as i128) }
}

fn row_of_unit(k: usize, j: usize) -> (r: Row)
    ensures
        r@ == unit_row(k as nat, j as int),
{
    let mut a: Vec<Rat> = Vec::new();
    let mut i: usize = 0;
    while i < k
        invariant
            i <= k,
            a@.len() == i,
            forall|t: int| 0 <= t < i ==> (#[trigger] a@[t])@ == (if t == j { 1real } else { 0real }),
        decreases k - i,
    {
        a.push(
            if i == j {
                Rat::one()
            } else {
                Rat::zero()
            },
        );
        i += 1;
    }
    proof {
        assert(crate::cost::linear::rats(a@) =~= unit_row(k as nat, j as int).a);
    }
    Row { a, b: Rat::zero() }
}

fn power_of_two(k: usize) -> (r: u32)
    requires
        k <= 12,
    ensures
        r == two_to(k as nat),
        1 <= r <= 4096,
{
    let mut p: u32 = 1;
    let mut i: usize = 0;
    proof {
        reveal_with_fuel(two_to, 13);
    }
    while i < k
        invariant
            i <= k <= 12,
            p == two_to(i as nat),
            p * two_to((k - i) as nat) == two_to(k as nat),
            two_to(k as nat) <= 4096,
            p >= 1,
        decreases k - i,
    {
        proof {
            let q = two_to((k - i - 1) as nat);
            assert(two_to((k - i) as nat) == 2 * q);
            two_positive((k - i - 1) as nat);
            assert(p * (2 * q) == (2 * p) * q) by (nonlinear_arith);
            assert(2 * p <= (2 * p) * q) by (nonlinear_arith)
                requires
                    q >= 1,
                    p >= 1,
            ;
        }
        p = p * 2;
        i += 1;
    }
    p
}

proof fn two_positive(k: nat)
    ensures
        two_to(k) >= 1,
    decreases k,
{
    if k > 0 {
        two_positive((k - 1) as nat);
    }
}

/// `σ = min Σ s_j` over `s ≥ 0` with `Σ_j s_j·|S ∩ D_j| ≥ |S|` for every nonempty subset `S` of
/// the `dims` loop variables; `refs[j]` is `D_j` as a bitmask. `None` when infeasible (a loop
/// variable no reference mentions) or when the enumeration would be too large. The optimum sits
/// at a vertex: as many tight constraints as there are references.
#[verifier::loop_isolation(false)]
pub fn hbl_sigma(dims: usize, refs: &[u32]) -> (r: Option<Rat>)
    ensures
        is_sigma(dims as nat, refs@, opt_real(r)),
{
    let d = mask_set(refs);
    let k: usize = d.len();
    if k == 0 || dims == 0 || dims > 12 {
        return None;
    }
    let n: u32 = power_of_two(dims);
    let m: u128 = n as u128 - 1 + k as u128;
    match binomial(m, k as u128) {
        Some(c) => {
            if c > 300_000 {
                return None;
            }
        },
        None => {
            return None;
        },
    }
    let ghost rv = hbl_rows(d@, n as nat);
    let mut rows: Vec<Row> = Vec::new();
    let mut s: u32 = 1;
    while s < n
        invariant
            1 <= s <= n,
            rows@.len() == s - 1,
            forall|t: int| 0 <= t < rows@.len() ==> (#[trigger] rows@[t])@ == rv[t],
        decreases n - s,
    {
        rows.push(row_of_subset(&d, s));
        s += 1;
    }
    let mut j: usize = 0;
    while j < k
        invariant
            j <= k,
            rows@.len() == n - 1 + j,
            forall|t: int| 0 <= t < rows@.len() ==> (#[trigger] rows@[t])@ == rv[t],
        decreases k - j,
    {
        rows.push(row_of_unit(k, j));
        j += 1;
    }
    proof {
        assert(rows_v(rows@) =~= rv);
        assert forall|t: int| 0 <= t < rv.len() implies (#[trigger] rv[t]).a.len() == k by {}
    }
    least_sum(&rows, k)
}

// ---- the bound ----

/// `|I| · 4^σ · M^(1−σ) − M` bytes.
pub open spec fn p_hbl_bound(n: PolyV, sigma: real) -> PolyV {
    p_sub(
        p_mul(
            p_scale(n, power(4real, sigma)),
            p_term(MonoV { factors: bump(Seq::empty(), AtomV::M, 1real - sigma) }, 1real),
        ),
        p_atom(AtomV::M),
    )
}

/// `|I| · 4^σ · M^(1−σ) − M` bytes.
pub fn hbl_bound(n_iters: &Poly, sigma: Rat) -> (r: Poly)
    ensures
        r@ == p_hbl_bound(n_iters@, sigma@),
{
    proof {
        atom_view_is(Atom::M);
    }
    let coef = rat_pow(&Rat::integer(4), &sigma);
    n_iters.scale(&coef).mul_atom_pow(Atom::M, &Rat::one().sub(&sigma)).sub(&Poly::atom(Atom::M))
}

/// A bound's value at the machine with every size at a million; zero where it has none.
pub open spec fn at_million(p: PolyV, k: Machine) -> real {
    match sum_at(p.terms, k, PointV { sizes: Seq::empty(), rest: Some(1000000real) }) {
        Some(v) => v,
        None => 0real,
    }
}

/// The first bound goes before the second: it dominates, or neither does and it is larger at a
/// million.
pub open spec fn stronger(a: BoundV, b: BoundV, k: Machine) -> bool {
    let ab = p_dominates(a.moves, b.moves);
    let ba = p_dominates(b.moves, a.moves);
    if ab != ba {
        ab
    } else {
        at_million(a.moves, k) > at_million(b.moves, k)
    }
}

pub open spec fn bound_insert(s: Seq<BoundV>, x: BoundV, k: Machine) -> Seq<BoundV>
    decreases s.len(),
{
    if s.len() == 0 || !stronger(x, s.last(), k) {
        s.push(x)
    } else {
        bound_insert(s.drop_last(), x, k).push(s.last())
    }
}

/// The list without bounds of the kind and value of the one before them.
pub open spec fn bounds_distinct(s: Seq<BoundV>) -> Seq<BoundV>
    decreases s.len(),
{
    if s.len() == 0 {
        s
    } else {
        let before = bounds_distinct(s.drop_last());
        if before.len() > 0 && before.last().kind == s.last().kind && before.last().moves == s.last().moves {
            before
        } else {
            before.push(s.last())
        }
    }
}

/// A bound that is a number and not positive at this machine says nothing: `216/√M − M`.
pub open spec fn says_something(b: BoundV, k: Machine) -> bool {
    p_has_vars(b.moves) || at_million(b.moves, k) > 0real
}

/// The bounds that say something, each put in before the weaker ones.
pub open spec fn bounds_sorted(s: Seq<BoundV>, k: Machine) -> Seq<BoundV>
    decreases s.len(),
{
    if s.len() == 0 {
        s
    } else {
        let before = bounds_sorted(s.drop_last(), k);
        if says_something(s.last(), k) {
            bound_insert(before, s.last(), k)
        } else {
            before
        }
    }
}

fn value_at_million(p: &Poly, k: &Machine) -> (r: Rat)
    requires
        k.ok(),
    ensures
        r@ == at_million(p@, *k),
{
    let x = Point { sizes: Vec::new(), rest: Some(Rat::integer(1000000)) };
    assert(x@.sizes =~= Seq::empty());
    match x.value(p, k) {
        Some(v) => v,
        None => Rat::zero(),
    }
}

fn is_stronger(a: &Bound, b: &Bound, k: &Machine) -> (r: bool)
    requires
        k.ok(),
    ensures
        r == stronger(a@, b@, *k),
{
    let ab: bool = dominates(&a.moves, &b.moves);
    let ba: bool = dominates(&b.moves, &a.moves);
    if ab != ba {
        return ab;
    }
    value_at_million(&a.moves, k).side(&value_at_million(&b.moves, k)) == Side::After
}

#[verifier::loop_isolation(false)]
fn insert_bound(s: &mut Vec<Bound>, x: Bound, k: &Machine)
    requires
        k.ok(),
    ensures
        bounds_v(final(s)@) == bound_insert(bounds_v(old(s)@), x@, *k),
{
    let ghost all = bounds_v(s@);
    let ghost xv = x@;
    let n: usize = s.len();
    let mut i: usize = n;
    proof {
        assert(all.take(n as int) =~= all);
        assert(bound_insert(all, xv, *k) =~= bound_insert(all.take(n as int), xv, *k) + all.skip(n as int));
    }
    while i > 0 && is_stronger(&x, &s[i - 1], k)
        invariant
            i <= n,
            bound_insert(all, xv, *k) == bound_insert(all.take(i as int), xv, *k) + all.skip(i as int),
        decreases i,
    {
        proof {
            assert(all.take(i as int).last() == all[i - 1]);
            assert(all.take(i as int).drop_last() =~= all.take(i - 1));
            assert(bound_insert(all.take(i - 1), xv, *k).push(all[i - 1]) + all.skip(i as int) =~= bound_insert(
                all.take(i - 1),
                xv,
                *k,
            ) + all.skip(i - 1));
        }
        i -= 1;
    }
    s.insert(i, x);
    proof {
        if i > 0 {
            assert(all.take(i as int).last() == all[i - 1]);
        }
        assert(bounds_v(s@) =~= all.take(i as int).push(xv) + all.skip(i as int));
    }
}

/// Strongest first: a bound that asymptotically dominates another goes before it; between
/// bounds neither of which dominates, the larger at the machine's `B` and `M` with every size at
/// a million. The report's gap for a rewrite is measured against the first.
#[verifier::loop_isolation(false)]
pub fn strongest_first(bounds: &mut Vec<Bound>, k: &Machine)
    requires
        k.ok(),
    ensures
        bounds_v(final(bounds)@) == bounds_sorted(bounds_distinct(bounds_v(old(bounds)@)), *k),
{
    let ghost given = bounds_v(bounds@);
    let mut once: Vec<Bound> = Vec::new();
    let mut i: usize = 0;
    proof {
        assert(given.take(0) =~= Seq::empty());
        assert(bounds_v(once@) =~= Seq::empty());
    }
    while i < bounds.len()
        invariant
            i <= given.len(),
            bounds_v(once@) == bounds_distinct(given.take(i as int)),
        decreases given.len() - i,
    {
        let b = &bounds[i];
        proof {
            assert(given.take(i + 1).drop_last() =~= given.take(i as int));
            assert(given.take(i + 1).last() == b@);
        }
        let again: bool = once.len() > 0 && once[once.len() - 1].kind == b.kind && once[once.len() - 1].moves.same(
            &b.moves,
        );
        if !again {
            let ghost was = once@;
            once.push(b.copy());
            proof {
                assert(bounds_v(once@) =~= bounds_v(was).push(b@));
            }
        }
        i += 1;
    }
    proof {
        assert(given.take(i as int) =~= given);
    }
    let ghost ov = bounds_v(once@);
    let mut out: Vec<Bound> = Vec::new();
    let mut j: usize = 0;
    proof {
        assert(ov.take(0) =~= Seq::empty());
        assert(bounds_v(out@) =~= Seq::empty());
    }
    while j < once.len()
        invariant
            j <= ov.len(),
            bounds_v(out@) == bounds_sorted(ov.take(j as int), *k),
        decreases ov.len() - j,
    {
        let b = &once[j];
        proof {
            assert(ov.take(j + 1).drop_last() =~= ov.take(j as int));
            assert(ov.take(j + 1).last() == b@);
        }
        if b.moves.has_vars() || value_at_million(&b.moves, k).is_positive() {
            insert_bound(&mut out, b.copy(), k);
        }
        j += 1;
    }
    proof {
        assert(ov.take(j as int) =~= ov);
    }
    *bounds = out;
}

} // verus!
