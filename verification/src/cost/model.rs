//! The mathematics of costs: atoms, monomials and polynomials as values, their
//! order, and the operations of the calculus on them.

use vstd::prelude::*;
use crate::cost::assoc::Ranked;
use crate::cost::rat::real_side;
use crate::num::{int_side, Side};

verus! {

/// An atom: a size variable, a machine parameter, a logarithm, or the unknown
/// cost of one call.
pub enum AtomV {
    Var(int),
    B,
    M,
    P,
    Log(Box<PolyV>),
    Opaque(Box<OpaqueV>),
}

/// The unknown cost of one call: the callee, which of its costs, and the
/// arguments that are size expressions.
pub struct OpaqueV {
    pub callee: Seq<char>,
    pub moves: bool,
    pub args: Seq<Option<PolyV>>,
}

/// A product of atoms raised to rational powers.
#[verifier::ext_equal]
pub struct MonoV {
    pub factors: Seq<(AtomV, real)>,
}

/// A sum of monomials with rational coefficients.
#[verifier::ext_equal]
pub struct PolyV {
    pub terms: Seq<(MonoV, real)>,
}

/// The first comparison that tells the two apart.
pub open spec fn lex(a: Side, b: Side) -> Side {
    if a == Side::Same {
        b
    } else {
        a
    }
}

pub open spec fn bool_side(a: bool, b: bool) -> Side {
    if a == b {
        Side::Same
    } else if b {
        Side::Before
    } else {
        Side::After
    }
}

/// Texts in the order of a dictionary.
pub open spec fn text_side(s: Seq<char>, t: Seq<char>) -> Side
    decreases s.len(),
{
    if s.len() == 0 || t.len() == 0 {
        int_side(s.len() as int, t.len() as int)
    } else {
        lex(int_side(s[0] as int, t[0] as int), text_side(s.drop_first(), t.drop_first()))
    }
}

/// Where an atom's kind stands among the kinds.
pub open spec fn kind(a: AtomV) -> int {
    match a {
        AtomV::Var(_) => 0,
        AtomV::B => 1,
        AtomV::M => 2,
        AtomV::P => 3,
        AtomV::Log(_) => 4,
        AtomV::Opaque(_) => 5,
    }
}

/// Atoms by kind, then by what they hold.
pub open spec fn atom_side(a: AtomV, b: AtomV) -> Side
    decreases a,
{
    match (a, b) {
        (AtomV::Var(i), AtomV::Var(j)) => int_side(i, j),
        (AtomV::Log(p), AtomV::Log(q)) => terms_side(p.terms, q.terms),
        (AtomV::Opaque(x), AtomV::Opaque(y)) => lex(
            text_side(x.callee, y.callee),
            lex(bool_side(x.moves, y.moves), args_side(x.args, y.args)),
        ),
        _ => int_side(kind(a), kind(b)),
    }
}

pub open spec fn arg_side(a: Option<PolyV>, b: Option<PolyV>) -> Side
    decreases a,
{
    match (a, b) {
        (Some(p), Some(q)) => terms_side(p.terms, q.terms),
        _ => bool_side(a is Some, b is Some),
    }
}

pub open spec fn args_side(s: Seq<Option<PolyV>>, t: Seq<Option<PolyV>>) -> Side
    decreases s,
{
    if s.len() == 0 || t.len() == 0 {
        int_side(s.len() as int, t.len() as int)
    } else {
        lex(arg_side(s[0], t[0]), args_side(s.drop_first(), t.drop_first()))
    }
}

pub open spec fn factors_side(s: Seq<(AtomV, real)>, t: Seq<(AtomV, real)>) -> Side
    decreases s,
{
    if s.len() == 0 || t.len() == 0 {
        int_side(s.len() as int, t.len() as int)
    } else {
        lex(
            lex(atom_side(s[0].0, t[0].0), real_side(s[0].1, t[0].1)),
            factors_side(s.drop_first(), t.drop_first()),
        )
    }
}

pub open spec fn terms_side(s: Seq<(MonoV, real)>, t: Seq<(MonoV, real)>) -> Side
    decreases s,
{
    if s.len() == 0 || t.len() == 0 {
        int_side(s.len() as int, t.len() as int)
    } else {
        lex(
            lex(factors_side(s[0].0.factors, t[0].0.factors), real_side(s[0].1, t[0].1)),
            terms_side(s.drop_first(), t.drop_first()),
        )
    }
}

/// Monomials by their factors, in the order of a dictionary.
pub open spec fn mono_side(a: MonoV, b: MonoV) -> Side {
    factors_side(a.factors, b.factors)
}

/// Polynomials by their terms, in the order of a dictionary.
pub open spec fn poly_side(a: PolyV, b: PolyV) -> Side {
    terms_side(a.terms, b.terms)
}

proof fn rejoin<T>(s: Seq<T>, t: Seq<T>)
    requires
        s.len() > 0,
        t.len() > 0,
    ensures
        s == t <==> s[0] == t[0] && s.drop_first() == t.drop_first(),
{
    assert(s =~= seq![s[0]] + s.drop_first());
    assert(t =~= seq![t[0]] + t.drop_first());
}

pub proof fn text_side_same(s: Seq<char>, t: Seq<char>)
    ensures
        text_side(s, t) == Side::Same <==> s == t,
        text_side(t, s) == text_side(s, t).flip(),
    decreases s.len(),
{
    if s.len() == 0 || t.len() == 0 {
        assert(s.len() == t.len() ==> s =~= t);
    } else {
        text_side_same(s.drop_first(), t.drop_first());
        rejoin(s, t);
    }
}

pub proof fn text_side_chain(a: Seq<char>, b: Seq<char>, c: Seq<char>)
    requires
        text_side(a, b) == Side::Before,
        text_side(b, c) == Side::Before,
    ensures
        text_side(a, c) == Side::Before,
    decreases a.len(),
{
    if a.len() > 0 && b.len() > 0 && c.len() > 0 {
        if a[0] == b[0] && b[0] == c[0] {
            text_side_chain(a.drop_first(), b.drop_first(), c.drop_first());
        }
    }
}

proof fn atom_side_same(a: AtomV, b: AtomV)
    ensures
        atom_side(a, b) == Side::Same <==> a == b,
        atom_side(b, a) == atom_side(a, b).flip(),
    decreases a,
{
    match (a, b) {
        (AtomV::Log(p), AtomV::Log(q)) => {
            terms_side_same(p.terms, q.terms);
            assert(p.terms == q.terms ==> *p == *q);
        },
        (AtomV::Opaque(x), AtomV::Opaque(y)) => {
            text_side_same(x.callee, y.callee);
            args_side_same(x.args, y.args);
            assert(x.callee == y.callee && x.moves == y.moves && x.args == y.args ==> *x == *y);
        },
        _ => {},
    }
}

proof fn arg_side_same(a: Option<PolyV>, b: Option<PolyV>)
    ensures
        arg_side(a, b) == Side::Same <==> a == b,
        arg_side(b, a) == arg_side(a, b).flip(),
    decreases a,
{
    match (a, b) {
        (Some(p), Some(q)) => {
            terms_side_same(p.terms, q.terms);
            assert(p.terms == q.terms ==> p == q);
        },
        _ => {},
    }
}

proof fn args_side_same(s: Seq<Option<PolyV>>, t: Seq<Option<PolyV>>)
    ensures
        args_side(s, t) == Side::Same <==> s == t,
        args_side(t, s) == args_side(s, t).flip(),
    decreases s,
{
    if s.len() == 0 || t.len() == 0 {
        assert(s.len() == t.len() ==> s =~= t);
    } else {
        arg_side_same(s[0], t[0]);
        args_side_same(s.drop_first(), t.drop_first());
        rejoin(s, t);
    }
}

proof fn factors_side_same(s: Seq<(AtomV, real)>, t: Seq<(AtomV, real)>)
    ensures
        factors_side(s, t) == Side::Same <==> s == t,
        factors_side(t, s) == factors_side(s, t).flip(),
    decreases s,
{
    if s.len() == 0 || t.len() == 0 {
        assert(s.len() == t.len() ==> s =~= t);
    } else {
        atom_side_same(s[0].0, t[0].0);
        factors_side_same(s.drop_first(), t.drop_first());
        rejoin(s, t);
    }
}

pub proof fn terms_side_same(s: Seq<(MonoV, real)>, t: Seq<(MonoV, real)>)
    ensures
        terms_side(s, t) == Side::Same <==> s == t,
        terms_side(t, s) == terms_side(s, t).flip(),
    decreases s,
{
    if s.len() == 0 || t.len() == 0 {
        assert(s.len() == t.len() ==> s =~= t);
    } else {
        factors_side_same(s[0].0.factors, t[0].0.factors);
        assert(s[0].0.factors == t[0].0.factors ==> s[0].0 == t[0].0);
        terms_side_same(s.drop_first(), t.drop_first());
        rejoin(s, t);
    }
}

proof fn atom_side_chain(a: AtomV, b: AtomV, c: AtomV)
    requires
        atom_side(a, b) == Side::Before,
        atom_side(b, c) == Side::Before,
    ensures
        atom_side(a, c) == Side::Before,
    decreases a,
{
    match (a, b, c) {
        (AtomV::Log(p), AtomV::Log(q), AtomV::Log(r)) => {
            terms_side_chain(p.terms, q.terms, r.terms);
        },
        (AtomV::Opaque(x), AtomV::Opaque(y), AtomV::Opaque(z)) => {
            text_side_same(x.callee, y.callee);
            text_side_same(y.callee, z.callee);
            if x.callee != y.callee && y.callee != z.callee {
                text_side_chain(x.callee, y.callee, z.callee);
            }
            if x.callee == y.callee && y.callee == z.callee && x.moves == y.moves && y.moves == z.moves {
                args_side_chain(x.args, y.args, z.args);
            }
        },
        _ => {},
    }
}

proof fn args_side_chain(a: Seq<Option<PolyV>>, b: Seq<Option<PolyV>>, c: Seq<Option<PolyV>>)
    requires
        args_side(a, b) == Side::Before,
        args_side(b, c) == Side::Before,
    ensures
        args_side(a, c) == Side::Before,
    decreases a,
{
    if a.len() > 0 && b.len() > 0 && c.len() > 0 {
        arg_side_same(a[0], b[0]);
        arg_side_same(b[0], c[0]);
        if a[0] == b[0] && b[0] == c[0] {
            args_side_chain(a.drop_first(), b.drop_first(), c.drop_first());
        } else if a[0] != b[0] && b[0] != c[0] {
            arg_side_chain(a[0], b[0], c[0]);
        }
    }
}

proof fn arg_side_chain(a: Option<PolyV>, b: Option<PolyV>, c: Option<PolyV>)
    requires
        arg_side(a, b) == Side::Before,
        arg_side(b, c) == Side::Before,
    ensures
        arg_side(a, c) == Side::Before,
    decreases a,
{
    match (a, b, c) {
        (Some(p), Some(q), Some(r)) => {
            terms_side_chain(p.terms, q.terms, r.terms);
        },
        _ => {},
    }
}

proof fn factors_side_chain(a: Seq<(AtomV, real)>, b: Seq<(AtomV, real)>, c: Seq<(AtomV, real)>)
    requires
        factors_side(a, b) == Side::Before,
        factors_side(b, c) == Side::Before,
    ensures
        factors_side(a, c) == Side::Before,
    decreases a,
{
    if a.len() > 0 && b.len() > 0 && c.len() > 0 {
        atom_side_same(a[0].0, b[0].0);
        atom_side_same(b[0].0, c[0].0);
        if a[0].0 != b[0].0 && b[0].0 != c[0].0 {
            atom_side_chain(a[0].0, b[0].0, c[0].0);
        }
        if a[0] == b[0] && b[0] == c[0] {
            factors_side_chain(a.drop_first(), b.drop_first(), c.drop_first());
        }
    }
}

pub proof fn terms_side_chain(a: Seq<(MonoV, real)>, b: Seq<(MonoV, real)>, c: Seq<(MonoV, real)>)
    requires
        terms_side(a, b) == Side::Before,
        terms_side(b, c) == Side::Before,
    ensures
        terms_side(a, c) == Side::Before,
    decreases a,
{
    if a.len() > 0 && b.len() > 0 && c.len() > 0 {
        factors_side_same(a[0].0.factors, b[0].0.factors);
        factors_side_same(b[0].0.factors, c[0].0.factors);
        if a[0].0.factors != b[0].0.factors && b[0].0.factors != c[0].0.factors {
            factors_side_chain(a[0].0.factors, b[0].0.factors, c[0].0.factors);
        }
        if a[0].0.factors == b[0].0.factors && b[0].0.factors == c[0].0.factors {
            if a[0].1 == b[0].1 && b[0].1 == c[0].1 {
                terms_side_chain(a.drop_first(), b.drop_first(), c.drop_first());
            }
        }
    }
}

/// Two atoms stand level only where they are one atom.
pub proof fn atom_order(a: AtomV, b: AtomV)
    ensures
        atom_side(a, b) == Side::Same <==> a == b,
{
    atom_side_same(a, b);
}

/// Two monomials stand level only where they are one monomial.
pub proof fn mono_order(a: MonoV, b: MonoV)
    ensures
        mono_side(a, b) == Side::Same <==> a == b,
{
    factors_side_same(a.factors, b.factors);
    assert(a.factors == b.factors ==> a == b);
}

/// Two polynomials stand level only where they are one polynomial.
pub proof fn poly_order(a: PolyV, b: PolyV)
    ensures
        poly_side(a, b) == Side::Same <==> a == b,
{
    terms_side_same(a.terms, b.terms);
    assert(a.terms == b.terms ==> a == b);
}

impl Ranked for AtomV {
    open spec fn before(self, o: AtomV) -> bool {
        atom_side(self, o) == Side::Before
    }

    proof fn rank_total(a: AtomV, b: AtomV) {
        atom_side_same(a, b);
    }

    proof fn rank_strict(a: AtomV, b: AtomV) {
        atom_side_same(a, b);
    }

    proof fn rank_chain(a: AtomV, b: AtomV, c: AtomV) {
        if a.before(b) && b.before(c) {
            atom_side_chain(a, b, c);
        }
    }
}

impl Ranked for MonoV {
    open spec fn before(self, o: MonoV) -> bool {
        mono_side(self, o) == Side::Before
    }

    proof fn rank_total(a: MonoV, b: MonoV) {
        factors_side_same(a.factors, b.factors);
        mono_order(a, b);
    }

    proof fn rank_strict(a: MonoV, b: MonoV) {
        factors_side_same(a.factors, b.factors);
    }

    proof fn rank_chain(a: MonoV, b: MonoV, c: MonoV) {
        if a.before(b) && b.before(c) {
            factors_side_chain(a.factors, b.factors, c.factors);
        }
    }
}

} // verus!
