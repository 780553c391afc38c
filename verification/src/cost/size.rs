//! Symbolic sizes and costs. A `Poly` is a sum of terms, each a rational coefficient times a
//! product of atoms raised to rational powers. Atoms are the function's size variables and the
//! machine parameters `B` (bytes per cache line) and `M` (bytes of cache). `√M` is `M^(1/2)`,
//! `n/B` is `n·B⁻¹`. Everything the calculus produces is one of these.

use vstd::prelude::*;
use crate::cost::algebra::{
    bump_wf, m_atom, m_mul, m_one, m_wf, mul_row, mul_rows, p_add, p_atom, p_mul, p_pow, p_rat, p_scale, p_scale_wf,
    p_sub, p_term, p_var, p_wf, p_zero,
};
use crate::cost::assoc::{
    bump, canonical, erase, holds, merge, put, put_sorted, slot, slot_known, slot_place, value, Ranked,
};
use crate::cost::model::{
    arg_side, args_side, atom_order, atom_side, bool_side, factors_side, kind, mono_order, mono_side, poly_order,
    poly_side, terms_side, text_side, AtomV, MonoV, OpaqueV, PolyV,
};
use crate::cost::rat::Rat;
use crate::num::{BigNat, Side};
use crate::text::copy_text;

verus! {

/// What a polynomial is made of.
#[derive(Debug)]
pub enum Atom {
    /// A size variable, indexed into the owning function's name table.
    Var(usize),
    B,
    M,
    /// Processors a parallel chain divides work over; only appears in the `T ≤ work/P + span`
    /// bound, never inside `work`, `moves` or `span` themselves.
    P,
    /// `log` of a size expression, from a recurrence or an asserted bound.
    Log(Box<Poly>),
    /// What one call to a function whose cost is unknown costs: its work, or its moves, at the
    /// arguments shown. It stands in the caller's cost where the callee's would, and it is never
    /// given a value.
    Opaque(Box<Opaque>),
}

/// `work[f](n, _)`: the cost of one call to `f`, in terms of the arguments that are size
/// expressions. An argument that is not one is `_`, and the term is then the most one call costs
/// over every value that argument takes, so two calls that differ only there are the same term.
#[derive(Debug)]
pub struct Opaque {
    pub callee: String,
    pub moves: bool,
    pub args: Vec<Option<Poly>>,
}

/// A product of atoms with nonzero exponents. The empty product is 1.
#[derive(Debug)]
pub struct Mono {
    factors: Vec<(Atom, Rat)>,
}

/// A sum of monomials with nonzero coefficients. The empty sum is 0.
#[derive(Debug)]
pub struct Poly {
    terms: Vec<(Mono, Rat)>,
}

pub closed spec fn atom_view(a: Atom) -> AtomV
    decreases a,
{
    match a {
        Atom::Var(i) => AtomV::Var(i as int),
        Atom::B => AtomV::B,
        Atom::M => AtomV::M,
        Atom::P => AtomV::P,
        Atom::Log(p) => AtomV::Log(Box::new(poly_view(*p))),
        Atom::Opaque(o) => AtomV::Opaque(Box::new(opaque_view(*o))),
    }
}

pub closed spec fn opaque_view(o: Opaque) -> OpaqueV
    decreases o,
{
    OpaqueV {
        callee: o.callee@,
        moves: o.moves,
        args: Seq::new(
            o.args@.len(),
            |i: int|
                if 0 <= i < o.args@.len() {
                    arg_view(o.args@[i])
                } else {
                    None
                },
        ),
    }
}

pub closed spec fn arg_view(a: Option<Poly>) -> Option<PolyV>
    decreases a,
{
    match a {
        Some(p) => Some(poly_view(p)),
        None => None,
    }
}

pub closed spec fn mono_view(m: Mono) -> MonoV
    decreases m,
{
    MonoV {
        factors: Seq::new(
            m.factors@.len(),
            |i: int|
                if 0 <= i < m.factors@.len() {
                    (atom_view(m.factors@[i].0), m.factors@[i].1@)
                } else {
                    arbitrary()
                },
        ),
    }
}

pub closed spec fn poly_view(p: Poly) -> PolyV
    decreases p,
{
    PolyV {
        terms: Seq::new(
            p.terms@.len(),
            |i: int|
                if 0 <= i < p.terms@.len() {
                    (mono_view(p.terms@[i].0), p.terms@[i].1@)
                } else {
                    arbitrary()
                },
        ),
    }
}

impl View for Atom {
    type V = AtomV;

    open spec fn view(&self) -> AtomV {
        atom_view(*self)
    }
}

impl View for Opaque {
    type V = OpaqueV;

    open spec fn view(&self) -> OpaqueV {
        opaque_view(*self)
    }
}

impl View for Mono {
    type V = MonoV;

    open spec fn view(&self) -> MonoV {
        mono_view(*self)
    }
}

impl View for Poly {
    type V = PolyV;

    open spec fn view(&self) -> PolyV {
        poly_view(*self)
    }
}

/// The value of an argument of an unknown call.
pub open spec fn arg_v(a: Option<Poly>) -> Option<PolyV> {
    match a {
        Some(p) => Some(p@),
        None => None,
    }
}

proof fn arg_view_is(a: Option<Poly>)
    ensures
        arg_view(a) == arg_v(a),
{
    reveal_with_fuel(arg_view, 2);
}

spec fn factors_v(s: Seq<(Atom, Rat)>) -> Seq<(AtomV, real)> {
    Seq::new(s.len(), |i: int| (s[i].0@, s[i].1@))
}

spec fn terms_v(s: Seq<(Mono, Rat)>) -> Seq<(MonoV, real)> {
    Seq::new(s.len(), |i: int| (s[i].0@, s[i].1@))
}

proof fn mono_view_is(m: Mono)
    ensures
        m@.factors == factors_v(m.factors@),
{
    assert(m@.factors =~= factors_v(m.factors@));
}

proof fn poly_view_is(p: Poly)
    ensures
        p@.terms == terms_v(p.terms@),
{
    assert(p@.terms =~= terms_v(p.terms@));
}

/// What an atom's value says of the atom.
pub proof fn atom_view_is(a: Atom)
    ensures
        a@ == (match a {
            Atom::Var(i) => AtomV::Var(i as int),
            Atom::B => AtomV::B,
            Atom::M => AtomV::M,
            Atom::P => AtomV::P,
            Atom::Log(p) => AtomV::Log(Box::new(p@)),
            Atom::Opaque(o) => AtomV::Opaque(Box::new(o@)),
        }),
{
    reveal_with_fuel(atom_view, 2);
}

/// What the value of an unknown call says of it.
pub proof fn opaque_view_is(o: Opaque)
    ensures
        o@.callee == o.callee@,
        o@.moves == o.moves,
        o@.args.len() == o.args@.len(),
        forall|i: int| 0 <= i < o.args@.len() ==> #[trigger] o@.args[i] == arg_v(o.args@[i]),
{
    assert forall|i: int| 0 <= i < o.args@.len() implies #[trigger] o@.args[i] == arg_v(o.args@[i]) by {
        arg_view_is(o.args@[i]);
    }
}

/// How `a` stands to `b` in the order of a dictionary.
#[verifier::loop_isolation(false)]
pub fn side_of_texts(a: &str, b: &str) -> (r: Side)
    ensures
        r == text_side(a@, b@),
{
    let s = crate::text::chars_of(a);
    let t = crate::text::chars_of(b);
    let mut i: usize = 0;
    proof {
        assert(s@.skip(0) =~= s@);
        assert(t@.skip(0) =~= t@);
    }
    while i < s.len() && i < t.len()
        invariant
            i <= s.len(),
            i <= t.len(),
            text_side(s@, t@) == text_side(s@.skip(i as int), t@.skip(i as int)),
        decreases s.len() - i,
    {
        proof {
            assert(s@.skip(i as int).drop_first() =~= s@.skip(i + 1));
            assert(t@.skip(i as int).drop_first() =~= t@.skip(i + 1));
        }
        if s[i] < t[i] {
            return Side::Before;
        }
        if s[i] > t[i] {
            return Side::After;
        }
        i += 1;
    }
    if i < t.len() {
        Side::Before
    } else if i < s.len() {
        Side::After
    } else {
        Side::Same
    }
}

fn side_of_flags(a: bool, b: bool) -> (r: Side)
    ensures
        r == bool_side(a, b),
{
    if a == b {
        Side::Same
    } else if b {
        Side::Before
    } else {
        Side::After
    }
}

impl Atom {
    /// The number of the atom's kind in the order of atoms.
    fn rank(&self) -> (r: u8)
        ensures
            r == kind(self@),
    {
        proof {
            atom_view_is(*self);
        }
        match self {
            Atom::Var(_) => 0,
            Atom::B => 1,
            Atom::M => 2,
            Atom::P => 3,
            Atom::Log(_) => 4,
            Atom::Opaque(_) => 5,
        }
    }

    /// Atoms by kind, then by what they hold.
    pub fn side(&self, o: &Atom) -> (r: Side)
        ensures
            r == atom_side(self@, o@),
        decreases self,
    {
        proof {
            atom_view_is(*self);
            atom_view_is(*o);
        }
        match (self, o) {
            (Atom::Var(i), Atom::Var(j)) => {
                if *i < *j {
                    Side::Before
                } else if *i > *j {
                    Side::After
                } else {
                    Side::Same
                }
            },
            (Atom::Log(p), Atom::Log(q)) => p.side(q),
            (Atom::Opaque(x), Atom::Opaque(y)) => {
                proof {
                    opaque_view_is(**x);
                    opaque_view_is(**y);
                }
                let a = side_of_texts(&x.callee, &y.callee);
                if a != Side::Same {
                    return a;
                }
                let b = side_of_flags(x.moves, y.moves);
                if b != Side::Same {
                    return b;
                }
                x.args_against(y)
            },
            _ => {
                let (a, b) = (self.rank(), o.rank());
                if a < b {
                    Side::Before
                } else if a > b {
                    Side::After
                } else {
                    Side::Same
                }
            },
        }
    }

    /// True when the two atoms are one.
    pub fn same(&self, o: &Atom) -> (r: bool)
        ensures
            r == (self@ == o@),
    {
        proof {
            atom_order(self@, o@);
        }
        self.side(o) == Side::Same
    }

    pub fn copy(&self) -> (r: Atom)
        ensures
            r@ == self@,
        decreases self,
    {
        proof {
            atom_view_is(*self);
        }
        let r = match self {
            Atom::Var(i) => Atom::Var(*i),
            Atom::B => Atom::B,
            Atom::M => Atom::M,
            Atom::P => Atom::P,
            Atom::Log(p) => Atom::Log(Box::new(p.copy())),
            Atom::Opaque(o) => Atom::Opaque(Box::new(o.copy())),
        };
        proof {
            atom_view_is(r);
        }
        r
    }

    /// A copy of the atom behind a pointer.
    pub fn clone_ref(&self) -> (r: Box<Atom>)
        ensures
            (*r)@ == self@,
    {
        Box::new(self.copy())
    }
}

fn side_of_args(a: &Option<Poly>, b: &Option<Poly>) -> (r: Side)
    ensures
        r == arg_side(arg_v(*a), arg_v(*b)),
    decreases a,
{
    match (a, b) {
        (Some(p), Some(q)) => p.side(q),
        (Some(_), None) => Side::After,
        (None, Some(_)) => Side::Before,
        (None, None) => Side::Same,
    }
}

impl Opaque {
    #[verifier::loop_isolation(false)]
    fn args_against(&self, o: &Opaque) -> (r: Side)
        ensures
            r == args_side(self@.args, o@.args),
        decreases self,
    {
        let ghost s = self@.args;
        let ghost t = o@.args;
        let mut i: usize = 0;
        proof {
            opaque_view_is(*self);
            opaque_view_is(*o);
            assert(s.skip(0) =~= s);
            assert(t.skip(0) =~= t);
        }
        while i < self.args.len() && i < o.args.len()
            invariant
                s == self@.args,
                t == o@.args,
                i <= self.args.len(),
                i <= o.args.len(),
                s.len() == self.args@.len(),
                t.len() == o.args@.len(),
                forall|k: int| 0 <= k < s.len() ==> #[trigger] s[k] == arg_v(self.args@[k]),
                forall|k: int| 0 <= k < t.len() ==> #[trigger] t[k] == arg_v(o.args@[k]),
                args_side(s, t) == args_side(s.skip(i as int), t.skip(i as int)),
            decreases self.args.len() - i,
        {
            proof {
                assert(s.skip(i as int).drop_first() =~= s.skip(i + 1));
                assert(t.skip(i as int).drop_first() =~= t.skip(i + 1));
                assert(s.skip(i as int)[0] == s[i as int]);
                assert(t.skip(i as int)[0] == t[i as int]);
            }
            let a = side_of_args(&self.args[i], &o.args[i]);
            if a != Side::Same {
                return a;
            }
            i += 1;
        }
        if i < o.args.len() {
            Side::Before
        } else if i < self.args.len() {
            Side::After
        } else {
            Side::Same
        }
    }

    pub fn copy(&self) -> (r: Opaque)
        ensures
            r@ == self@,
        decreases self,
    {
        let mut args: Vec<Option<Poly>> = Vec::new();
        let mut i: usize = 0;
        while i < self.args.len()
            invariant
                i <= self.args.len(),
                args@.len() == i,
                forall|k: int| 0 <= k < i ==> arg_v(#[trigger] args@[k]) == arg_v(self.args@[k]),
            decreases self.args.len() - i,
        {
            let a = match &self.args[i] {
                Some(p) => Some(p.copy()),
                None => None,
            };
            args.push(a);
            i += 1;
        }
        let r = Opaque { callee: copy_text(&self.callee), moves: self.moves, args };
        proof {
            opaque_view_is(*self);
            opaque_view_is(r);
            assert(r@.args =~= self@.args);
        }
        r
    }
}

impl Mono {
    #[verifier::type_invariant]
    closed spec fn inv(self) -> bool {
        canonical(self@.factors)
    }

    /// Brings to hand that the product is in canonical form; runs nothing.
    pub(crate) fn known(&self)
        ensures
            m_wf(self@),
    {
        proof {
            use_type_invariant(self);
        }
    }

    /// How many atoms the product has.
    pub fn len(&self) -> (r: usize)
        ensures
            r == self@.factors.len(),
    {
        proof {
            mono_view_is(*self);
        }
        self.factors.len()
    }

    /// The atom of one factor.
    pub fn atom_at(&self, i: usize) -> (r: &Atom)
        requires
            i < self@.factors.len(),
        ensures
            r@ == self@.factors[i as int].0,
            decreases_to!(self => r),
    {
        proof {
            mono_view_is(*self);
        }
        &self.factors[i].0
    }

    /// The exponent of one factor.
    pub fn exponent_at(&self, i: usize) -> (r: &Rat)
        requires
            i < self@.factors.len(),
        ensures
            r@ == self@.factors[i as int].1,
    {
        proof {
            mono_view_is(*self);
        }
        &self.factors[i].1
    }

    /// Monomials by their factors, in the order of a dictionary.
    #[verifier::loop_isolation(false)]
    pub fn side(&self, o: &Mono) -> (r: Side)
        ensures
            r == mono_side(self@, o@),
        decreases self,
    {
        let ghost s = self@.factors;
        let ghost t = o@.factors;
        let mut i: usize = 0;
        proof {
            mono_view_is(*self);
            mono_view_is(*o);
            assert(s.skip(0) =~= s);
            assert(t.skip(0) =~= t);
        }
        while i < self.factors.len() && i < o.factors.len()
            invariant
                i <= self.factors.len(),
                i <= o.factors.len(),
                s == factors_v(self.factors@),
                t == factors_v(o.factors@),
                factors_side(s, t) == factors_side(s.skip(i as int), t.skip(i as int)),
            decreases self.factors.len() - i,
        {
            proof {
                assert(s.skip(i as int).drop_first() =~= s.skip(i + 1));
                assert(t.skip(i as int).drop_first() =~= t.skip(i + 1));
                assert(s.skip(i as int)[0] == s[i as int]);
                assert(t.skip(i as int)[0] == t[i as int]);
            }
            let a = self.factors[i].0.side(&o.factors[i].0);
            if a != Side::Same {
                return a;
            }
            let b = self.factors[i].1.side(&o.factors[i].1);
            if b != Side::Same {
                return b;
            }
            i += 1;
        }
        if i < o.factors.len() {
            Side::Before
        } else if i < self.factors.len() {
            Side::After
        } else {
            Side::Same
        }
    }

    /// True when the two products are one.
    pub fn same(&self, o: &Mono) -> (r: bool)
        ensures
            r == (self@ == o@),
    {
        proof {
            mono_order(self@, o@);
        }
        self.side(o) == Side::Same
    }

    pub fn copy(&self) -> (r: Mono)
        ensures
            r@ == self@,
        decreases self,
    {
        let mut factors: Vec<(Atom, Rat)> = Vec::new();
        let mut i: usize = 0;
        while i < self.factors.len()
            invariant
                i <= self.factors.len(),
                factors@.len() == i,
                forall|k: int| 0 <= k < i ==> (#[trigger] factors@[k]).0@ == self.factors@[k].0@ && factors@[k].1@
                    == self.factors@[k].1@,
            decreases self.factors.len() - i,
        {
            let a = self.factors[i].0.copy();
            let e = self.factors[i].1.copy();
            factors.push((a, e));
            i += 1;
        }
        proof {
            use_type_invariant(self);
            mono_view_is(*self);
            assert(factors_v(factors@) =~= factors_v(self.factors@));
        }
        Mono::of_factors(factors)
    }

    /// The product with these factors, which are in canonical form.
    fn of_factors(factors: Vec<(Atom, Rat)>) -> (r: Mono)
        requires
            canonical(factors_v(factors@)),
        ensures
            r@.factors == factors_v(factors@),
    {
        proof {
            let m = Mono { factors };
            mono_view_is(m);
        }
        Mono { factors }
    }

    /// The empty product.
    pub fn one() -> (r: Mono)
        ensures
            r@ == m_one(),
    {
        let factors: Vec<(Atom, Rat)> = Vec::new();
        proof {
            assert(factors_v(factors@) =~= m_one().factors);
        }
        Mono::of_factors(factors)
    }

    /// One atom.
    pub fn atom(a: Atom) -> (r: Mono)
        ensures
            r@ == m_atom(a@),
    {
        let mut factors: Vec<(Atom, Rat)> = Vec::new();
        factors.push((a, Rat::one()));
        proof {
            assert(factors_v(factors@) =~= m_atom(a@).factors);
            crate::cost::algebra::m_atom_wf(a@);
        }
        Mono::of_factors(factors)
    }

    fn slot_of(&self, a: &Atom) -> (r: usize)
        ensures
            r == slot(self@.factors, a@),
            r <= self.factors@.len(),
    {
        proof {
            mono_view_is(*self);
        }
        let mut i: usize = 0;
        while i < self.factors.len() && self.factors[i].0.side(a) == Side::Before
            invariant
                i <= self.factors.len(),
                self@.factors == factors_v(self.factors@),
                forall|k: int| 0 <= k < i ==> (#[trigger] self@.factors[k]).0.before(a@),
            decreases self.factors.len() - i,
        {
            i += 1;
        }
        proof {
            slot_known(self@.factors, a@, i as int);
        }
        i
    }

    /// Whether the atom occurs.
    pub fn has_atom(&self, a: &Atom) -> (r: bool)
        ensures
            r == holds(self@.factors, a@),
    {
        proof {
            mono_view_is(*self);
        }
        let i: usize = self.slot_of(a);
        i < self.factors.len() && self.factors[i].0.same(a)
    }

    /// The exponent of an atom, zero where it does not occur.
    pub fn exponent(&self, a: &Atom) -> (r: Rat)
        ensures
            r@ == value(self@.factors, a@),
    {
        proof {
            mono_view_is(*self);
        }
        let i: usize = self.slot_of(a);
        if i < self.factors.len() && self.factors[i].0.same(a) {
            self.factors[i].1.copy()
        } else {
            Rat::zero()
        }
    }

    /// The product with `a` at the exponent `e`, whatever its exponent was.
    pub fn with(self, a: Atom, e: Rat) -> (r: Mono)
        requires
            e@ != 0real,
        ensures
            r@.factors == put(self@.factors, a@, e@),
    {
        proof {
            use_type_invariant(&self);
            mono_view_is(self);
            put_sorted(self@.factors, a@, e@);
            slot_place(self@.factors, a@);
        }
        let ghost before = self@.factors;
        let i: usize = self.slot_of(&a);
        let mut factors = self.factors;
        if i < factors.len() && factors[i].0.same(&a) {
            factors.set(i, (a, e));
        } else {
            factors.insert(i, (a, e));
        }
        proof {
            assert(factors_v(factors@) =~= put(before, a@, e@));
        }
        Mono::of_factors(factors)
    }

    /// The product without the atom.
    pub fn without(self, a: &Atom) -> (r: Mono)
        ensures
            r@.factors == erase(self@.factors, a@),
    {
        proof {
            use_type_invariant(&self);
            mono_view_is(self);
            crate::cost::assoc::erase_sorted(self@.factors, a@);
            slot_place(self@.factors, a@);
        }
        let ghost before = self@.factors;
        let i: usize = self.slot_of(a);
        let mut factors = self.factors;
        if i < factors.len() && factors[i].0.same(a) {
            let _ = factors.remove(i);
        }
        proof {
            assert(factors_v(factors@) =~= erase(before, a@));
        }
        Mono::of_factors(factors)
    }

    /// The product with `e` added to the exponent of `a`; an exponent that becomes zero takes the
    /// atom away.
    pub fn bumped(self, a: &Atom, e: &Rat) -> (r: Mono)
        ensures
            r@.factors == bump(self@.factors, a@, e@),
    {
        let sum = self.exponent(a).add(e);
        if sum.is_zero() {
            self.without(a)
        } else {
            self.with(a.copy(), sum)
        }
    }

    /// The product: exponents add.
    pub fn mul(&self, o: &Mono) -> (r: Mono)
        ensures
            r@ == m_mul(self@, o@),
    {
        let mut out = self.copy();
        let ghost s = self@.factors;
        let ghost t = o@.factors;
        let mut i: usize = 0;
        proof {
            assert(t.take(0) =~= Seq::empty());
        }
        while i < o.len()
            invariant
                i <= t.len(),
                t == o@.factors,
                out@.factors == merge(s, t.take(i as int)),
            decreases t.len() - i,
        {
            out = out.bumped(o.atom_at(i), o.exponent_at(i));
            proof {
                assert(t.take(i + 1).drop_last() =~= t.take(i as int));
            }
            i += 1;
        }
        proof {
            assert(t.take(i as int) =~= t);
        }
        out
    }

    /// The product with every exponent times `k`.
    pub fn raised(&self, k: &Rat) -> (r: Mono)
        requires
            k@ != 0real,
        ensures
            r@ == m_raise(self@, k@),
    {
        let mut factors: Vec<(Atom, Rat)> = Vec::new();
        let mut i: usize = 0;
        proof {
            use_type_invariant(self);
            mono_view_is(*self);
        }
        while i < self.factors.len()
            invariant
                i <= self.factors.len(),
                self@.factors == factors_v(self.factors@),
                factors@.len() == i,
                forall|j: int| 0 <= j < i ==> (#[trigger] factors@[j]).0@ == self.factors@[j].0@ && factors@[j].1@
                    == self.factors@[j].1@ * k@,
            decreases self.factors.len() - i,
        {
            let a = self.factors[i].0.copy();
            let e = self.factors[i].1.mul(k);
            factors.push((a, e));
            i += 1;
        }
        proof {
            m_raise_wf(self@, k@);
            assert(factors_v(factors@) =~= m_raise(self@, k@).factors);
        }
        Mono::of_factors(factors)
    }

    /// Total degree in size variables, for ordering terms. `B` and `M` do not count.
    pub fn degree(&self) -> (r: Rat)
        ensures
            r@ == degree(self@.factors),
    {
        let mut sum = Rat::zero();
        let ghost t = self@.factors;
        let mut i: usize = 0;
        proof {
            assert(t.take(0) =~= Seq::empty());
        }
        while i < self.len()
            invariant
                i <= t.len(),
                t == self@.factors,
                sum@ == degree(t.take(i as int)),
            decreases t.len() - i,
        {
            let a = self.atom_at(i);
            proof {
                atom_view_is(*a);
                assert(t.take(i + 1).drop_last() =~= t.take(i as int));
            }
            if let Atom::Var(_) = a {
                sum = sum.add(self.exponent_at(i));
            }
            i += 1;
        }
        proof {
            assert(t.take(i as int) =~= t);
        }
        sum
    }
}

/// The exponents of the size variables, summed.
pub open spec fn degree(f: Seq<(AtomV, real)>) -> real
    decreases f.len(),
{
    if f.len() == 0 {
        0real
    } else {
        degree(f.drop_last()) + (if f.last().0 is Var { f.last().1 } else { 0real })
    }
}

/// Every exponent times `k`.
pub open spec fn m_raise(m: MonoV, k: real) -> MonoV {
    MonoV { factors: Seq::new(m.factors.len(), |i: int| (m.factors[i].0, m.factors[i].1 * k)) }
}

pub proof fn m_raise_wf(m: MonoV, k: real)
    requires
        m_wf(m),
        k != 0real,
    ensures
        m_wf(m_raise(m, k)),
{
    let r = m_raise(m, k);
    assert forall|i: int| 0 <= i < r.factors.len() implies (#[trigger] r.factors[i]).1 != 0real by {
        let x = m.factors[i].1;
        assert(x * k != 0real) by (nonlinear_arith)
            requires
                x != 0real,
                k != 0real,
        ;
    }
    assert forall|i: int, j: int| 0 <= i < j < r.factors.len() implies (#[trigger] r.factors[i]).0.before(
        (#[trigger] r.factors[j]).0,
    ) by {
        assert(m.factors[i].0.before(m.factors[j].0));
    }
}

impl Poly {
    #[verifier::type_invariant]
    closed spec fn inv(self) -> bool {
        p_wf(self@)
    }

    /// Brings to hand that the polynomial is in canonical form; runs nothing.
    pub(crate) fn known(&self)
        ensures
            p_wf(self@),
    {
        proof {
            use_type_invariant(self);
        }
    }

    /// How many terms the sum has.
    pub fn len(&self) -> (r: usize)
        ensures
            r == self@.terms.len(),
    {
        proof {
            poly_view_is(*self);
        }
        self.terms.len()
    }

    /// The monomial of one term.
    pub fn mono_at(&self, i: usize) -> (r: &Mono)
        requires
            i < self@.terms.len(),
        ensures
            r@ == self@.terms[i as int].0,
            decreases_to!(self => r),
    {
        proof {
            poly_view_is(*self);
        }
        &self.terms[i].0
    }

    /// The coefficient of one term.
    pub fn coeff_at(&self, i: usize) -> (r: &Rat)
        requires
            i < self@.terms.len(),
        ensures
            r@ == self@.terms[i as int].1,
    {
        proof {
            poly_view_is(*self);
        }
        &self.terms[i].1
    }

    /// Polynomials by their terms, in the order of a dictionary.
    #[verifier::loop_isolation(false)]
    pub fn side(&self, o: &Poly) -> (r: Side)
        ensures
            r == poly_side(self@, o@),
        decreases self,
    {
        let ghost s = self@.terms;
        let ghost t = o@.terms;
        let mut i: usize = 0;
        proof {
            poly_view_is(*self);
            poly_view_is(*o);
            assert(s.skip(0) =~= s);
            assert(t.skip(0) =~= t);
        }
        while i < self.terms.len() && i < o.terms.len()
            invariant
                i <= self.terms.len(),
                i <= o.terms.len(),
                s == terms_v(self.terms@),
                t == terms_v(o.terms@),
                terms_side(s, t) == terms_side(s.skip(i as int), t.skip(i as int)),
            decreases self.terms.len() - i,
        {
            proof {
                assert(s.skip(i as int).drop_first() =~= s.skip(i + 1));
                assert(t.skip(i as int).drop_first() =~= t.skip(i + 1));
                assert(s.skip(i as int)[0] == s[i as int]);
                assert(t.skip(i as int)[0] == t[i as int]);
            }
            let a = self.terms[i].0.side(&o.terms[i].0);
            if a != Side::Same {
                return a;
            }
            let b = self.terms[i].1.side(&o.terms[i].1);
            if b != Side::Same {
                return b;
            }
            i += 1;
        }
        if i < o.terms.len() {
            Side::Before
        } else if i < self.terms.len() {
            Side::After
        } else {
            Side::Same
        }
    }

    /// True when the two polynomials are one.
    pub fn same(&self, o: &Poly) -> (r: bool)
        ensures
            r == (self@ == o@),
    {
        proof {
            poly_order(self@, o@);
        }
        self.side(o) == Side::Same
    }

    pub fn copy(&self) -> (r: Poly)
        ensures
            r@ == self@,
        decreases self,
    {
        let mut terms: Vec<(Mono, Rat)> = Vec::new();
        let mut i: usize = 0;
        while i < self.terms.len()
            invariant
                i <= self.terms.len(),
                terms@.len() == i,
                forall|k: int| 0 <= k < i ==> (#[trigger] terms@[k]).0@ == self.terms@[k].0@ && terms@[k].1@
                    == self.terms@[k].1@,
            decreases self.terms.len() - i,
        {
            let m = self.terms[i].0.copy();
            let c = self.terms[i].1.copy();
            terms.push((m, c));
            i += 1;
        }
        proof {
            use_type_invariant(self);
            poly_view_is(*self);
            assert(terms_v(terms@) =~= terms_v(self.terms@));
        }
        Poly::of_terms(terms)
    }

    /// The sum of these terms, which are in canonical form.
    fn of_terms(terms: Vec<(Mono, Rat)>) -> (r: Poly)
        requires
            p_wf((PolyV { terms: terms_v(terms@) })),
        ensures
            r@.terms == terms_v(terms@),
    {
        proof {
            let p = Poly { terms };
            poly_view_is(p);
        }
        Poly { terms }
    }

    pub fn zero() -> (r: Poly)
        ensures
            r@ == p_zero(),
    {
        let terms: Vec<(Mono, Rat)> = Vec::new();
        proof {
            assert(terms_v(terms@) =~= p_zero().terms);
        }
        Poly::of_terms(terms)
    }

    /// The sum of one term.
    pub fn term(m: Mono, c: Rat) -> (r: Poly)
        ensures
            r@ == p_term(m@, c@),
    {
        let mut terms: Vec<(Mono, Rat)> = Vec::new();
        proof {
            use_type_invariant(&m);
        }
        if !c.is_zero() {
            terms.push((m, c));
        }
        proof {
            assert(terms_v(terms@) =~= p_term(m@, c@).terms);
            crate::cost::algebra::p_term_wf(m@, c@);
        }
        Poly::of_terms(terms)
    }

    pub fn constant(c: i128) -> (r: Poly)
        ensures
            r@ == p_rat(c as real),
    {
        Poly::from_rat(Rat::integer(c))
    }

    pub fn from_rat(c: Rat) -> (r: Poly)
        ensures
            r@ == p_rat(c@),
    {
        Poly::term(Mono::one(), c)
    }

    pub fn atom(a: Atom) -> (r: Poly)
        ensures
            r@ == p_atom(a@),
    {
        Poly::term(Mono::atom(a), Rat::one())
    }

    /// The size variable of index `i`.
    pub fn var(i: usize) -> (r: Poly)
        ensures
            r@ == p_var(i as int),
    {
        let a = Atom::Var(i);
        proof {
            atom_view_is(a);
        }
        Poly::atom(a)
    }

    pub fn is_zero(&self) -> (r: bool)
        ensures
            r == (self@ == p_zero()),
    {
        proof {
            assert(self@.terms.len() == 0 ==> self@.terms =~= p_zero().terms);
        }
        self.len() == 0
    }

    fn slot_of(&self, m: &Mono) -> (r: usize)
        ensures
            r == slot(self@.terms, m@),
            r <= self.terms@.len(),
    {
        proof {
            poly_view_is(*self);
        }
        let mut i: usize = 0;
        while i < self.terms.len() && self.terms[i].0.side(m) == Side::Before
            invariant
                i <= self.terms.len(),
                self@.terms == terms_v(self.terms@),
                forall|k: int| 0 <= k < i ==> (#[trigger] self@.terms[k]).0.before(m@),
            decreases self.terms.len() - i,
        {
            i += 1;
        }
        proof {
            slot_known(self@.terms, m@, i as int);
        }
        i
    }

    /// The coefficient of a monomial, zero where it does not occur.
    pub fn coefficient(&self, m: &Mono) -> (r: Rat)
        ensures
            r@ == crate::cost::algebra::coefficient(self@, m@),
    {
        proof {
            poly_view_is(*self);
        }
        let i: usize = self.slot_of(m);
        if i < self.terms.len() && self.terms[i].0.same(m) {
            self.terms[i].1.copy()
        } else {
            Rat::zero()
        }
    }

    /// The sum with one more term.
    pub fn bumped(self, m: Mono, c: &Rat) -> (r: Poly)
        ensures
            r@.terms == bump(self@.terms, m@, c@),
    {
        proof {
            use_type_invariant(&self);
            use_type_invariant(&m);
            poly_view_is(self);
            assert(self@ == PolyV { terms: self@.terms });
            bump_wf(self@.terms, m@, c@);
            slot_place(self@.terms, m@);
        }
        let ghost before = self@.terms;
        let sum = self.coefficient(&m).add(c);
        let i: usize = self.slot_of(&m);
        let mut terms = self.terms;
        let found: bool = i < terms.len() && terms[i].0.same(&m);
        if sum.is_zero() {
            if found {
                let _ = terms.remove(i);
            }
        } else if found {
            terms.set(i, (m, sum));
        } else {
            terms.insert(i, (m, sum));
        }
        proof {
            assert(terms_v(terms@) =~= bump(before, m@, c@));
        }
        Poly::of_terms(terms)
    }

    /// The sum: coefficients add.
    pub fn add(&self, o: &Poly) -> (r: Poly)
        ensures
            r@ == p_add(self@, o@),
    {
        let mut out = self.copy();
        let ghost s = self@.terms;
        let ghost t = o@.terms;
        let mut i: usize = 0;
        proof {
            assert(t.take(0) =~= Seq::empty());
        }
        while i < o.len()
            invariant
                i <= t.len(),
                t == o@.terms,
                out@.terms == merge(s, t.take(i as int)),
            decreases t.len() - i,
        {
            out = out.bumped(o.mono_at(i).copy(), o.coeff_at(i));
            proof {
                assert(t.take(i + 1).drop_last() =~= t.take(i as int));
            }
            i += 1;
        }
        proof {
            assert(t.take(i as int) =~= t);
        }
        out
    }

    /// The multiple by a number.
    pub fn scale(&self, c: &Rat) -> (r: Poly)
        ensures
            r@ == p_scale(self@, c@),
    {
        if c.is_zero() {
            return Poly::zero();
        }
        proof {
            poly_view_is(*self);
        }
        let mut terms: Vec<(Mono, Rat)> = Vec::new();
        let mut i: usize = 0;
        while i < self.terms.len()
            invariant
                i <= self.terms.len(),
                c@ != 0real,
                self@.terms == terms_v(self.terms@),
                terms@.len() == i,
                forall|j: int| 0 <= j < i ==> (#[trigger] terms@[j]).0@ == self.terms@[j].0@ && terms@[j].1@
                    == self.terms@[j].1@ * c@,
            decreases self.terms.len() - i,
        {
            terms.push((self.terms[i].0.copy(), self.terms[i].1.mul(c)));
            i += 1;
        }
        proof {
            use_type_invariant(self);
            p_scale_wf(self@, c@);
            assert(terms_v(terms@) =~= p_scale(self@, c@).terms);
        }
        Poly::of_terms(terms)
    }

    /// The difference.
    pub fn sub(&self, o: &Poly) -> (r: Poly)
        ensures
            r@ == p_sub(self@, o@),
    {
        self.add(&o.scale(&Rat::integer(-1)))
    }

    /// The product: every term of one times every term of the other.
    pub fn mul(&self, o: &Poly) -> (r: Poly)
        ensures
            r@ == p_mul(self@, o@),
    {
        let mut out = Poly::zero();
        let ghost s = self@.terms;
        let ghost t = o@.terms;
        let mut i: usize = 0;
        proof {
            assert(s.take(0) =~= Seq::empty());
        }
        while i < self.len()
            invariant
                i <= s.len(),
                s == self@.terms,
                t == o@.terms,
                out@.terms == mul_rows(s.take(i as int), t),
            decreases s.len() - i,
        {
            let ghost acc = out@.terms;
            let m = self.mono_at(i);
            let c = self.coeff_at(i);
            let mut j: usize = 0;
            proof {
                assert(t.take(0) =~= Seq::empty());
            }
            while j < o.len()
                invariant
                    j <= t.len(),
                    t == o@.terms,
                    out@.terms == mul_row(acc, m@, c@, t.take(j as int)),
                decreases t.len() - j,
            {
                out = out.bumped(m.mul(o.mono_at(j)), &c.mul(o.coeff_at(j)));
                proof {
                    assert(t.take(j + 1).drop_last() =~= t.take(j as int));
                }
                j += 1;
            }
            proof {
                assert(t.take(j as int) =~= t);
                assert(s.take(i + 1).drop_last() =~= s.take(i as int));
            }
            i += 1;
        }
        proof {
            assert(s.take(i as int) =~= s);
        }
        out
    }

    /// The product with a power of one atom.
    pub fn mul_atom_pow(&self, a: Atom, e: &Rat) -> (r: Poly)
        ensures
            r@ == p_mul(self@, p_term((MonoV { factors: bump(Seq::empty(), a@, e@) }), 1real)),
    {
        let m = Mono::one().bumped(&a, e);
        self.mul(&Poly::term(m, Rat::one()))
    }

    /// Integer power, for substitution; a power that is not positive is 1.
    pub fn pow(&self, k: i128) -> (r: Poly)
        ensures
            r@ == p_pow(self@, if k > 0 { k as nat } else { 0 }),
    {
        let mut r = Poly::constant(1);
        let mut i: i128 = 0;
        while i < k
            invariant
                0 <= i,
                i <= k || k < 0 && i == 0,
                r@ == p_pow(self@, i as nat),
            decreases k - i,
        {
            r = r.mul(self);
            i += 1;
        }
        r
    }

    /// Power to a natural exponent of any size.
    pub fn pow_nat(&self, k: &BigNat) -> (r: Poly)
        ensures
            r@ == p_pow(self@, k@),
    {
        let mut r = Poly::constant(1);
        let one = BigNat::from_u128(1);
        let mut i = BigNat::zero();
        while i.side(k) == Side::Before
            invariant
                one@ == 1,
                i@ <= k@,
                r@ == p_pow(self@, i@),
            decreases k@ - i@,
        {
            r = r.mul(self);
            i = i.plus(&one);
        }
        r
    }
}

} // verus!
