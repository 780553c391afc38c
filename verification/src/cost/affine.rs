//! Index expressions as affine functions of the enclosing loop variables.

use vstd::prelude::*;
use crate::cost::algebra::{p_add, p_mul, p_rat, p_zero};
use crate::cost::model::PolyV;
use crate::cost::size::Poly;

verus! {

/// An index expression as an affine function of the enclosing loop variables, with
/// coefficients that are size polynomials.
#[derive(Debug)]
pub struct Affine {
    /// by local, in ascending order
    pub coeffs: Vec<(usize, Poly)>,
    pub konst: Poly,
}

pub type Coeffs = Seq<(usize, PolyV)>;

#[verifier::ext_equal]
pub struct AffineV {
    pub coeffs: Coeffs,
    pub konst: PolyV,
}

pub open spec fn coeffs_v(s: Seq<(usize, Poly)>) -> Coeffs {
    Seq::new(s.len(), |i: int| (s[i].0, s[i].1@))
}

impl View for Affine {
    type V = AffineV;

    open spec fn view(&self) -> AffineV {
        AffineV { coeffs: coeffs_v(self.coeffs@), konst: self.konst@ }
    }
}

/// The coefficient of a local, if it has one.
pub open spec fn coeff(s: Coeffs, l: usize) -> Option<PolyV>
    decreases s.len(),
{
    if s.len() == 0 {
        None
    } else if s[0].0 == l {
        Some(s[0].1)
    } else {
        coeff(s.drop_first(), l)
    }
}

/// The coefficients with that of `l` made `p`: gone where `p` is zero, else in its place.
pub open spec fn with_coeff(s: Coeffs, l: usize, p: PolyV) -> Coeffs
    decreases s.len(),
{
    let new = if p == p_zero() {
        Seq::empty()
    } else {
        seq![(l, p)]
    };
    if s.len() == 0 {
        new
    } else if s[0].0 == l {
        new + s.drop_first()
    } else if s[0].0 > l {
        new + s
    } else {
        seq![s[0]] + with_coeff(s.drop_first(), l, p)
    }
}

/// The coefficients with the first `n` of `o` added.
pub open spec fn coeffs_sum(s: Coeffs, o: Coeffs, n: nat) -> Coeffs
    decreases n,
{
    if n == 0 {
        s
    } else {
        let t = coeffs_sum(s, o, (n - 1) as nat);
        let (l, p) = o[n - 1];
        with_coeff(
            t,
            l,
            match coeff(t, l) {
                Some(x) => p_add(x, p),
                None => p,
            },
        )
    }
}

pub open spec fn f_const(p: PolyV) -> AffineV {
    AffineV { coeffs: Seq::empty(), konst: p }
}

pub open spec fn f_var(l: usize) -> AffineV {
    AffineV { coeffs: seq![(l, p_rat(1real))], konst: p_zero() }
}

pub open spec fn f_add(a: AffineV, b: AffineV) -> AffineV {
    AffineV { coeffs: coeffs_sum(a.coeffs, b.coeffs, b.coeffs.len()), konst: p_add(a.konst, b.konst) }
}

pub open spec fn f_scale(a: AffineV, p: PolyV) -> AffineV {
    AffineV {
        coeffs: Seq::new(a.coeffs.len(), |i: int| (a.coeffs[i].0, p_mul(a.coeffs[i].1, p))),
        konst: p_mul(a.konst, p),
    }
}

pub open spec fn opt_affine(x: Option<Affine>) -> Option<AffineV> {
    match x {
        Some(a) => Some(a@),
        None => None,
    }
}

#[verifier::loop_isolation(false)]
fn coeffs_with(s: Vec<(usize, Poly)>, l: usize, p: Poly) -> (r: Vec<(usize, Poly)>)
    ensures
        coeffs_v(r@) == with_coeff(coeffs_v(s@), l, p@),
{
    let ghost v = coeffs_v(s@);
    let mut i: usize = 0;
    proof {
        assert(v.take(0) + with_coeff(v.skip(0), l, p@) =~= with_coeff(v, l, p@)) by {
            assert(v.skip(0) =~= v);
        }
    }
    while i < s.len() && s[i].0 < l
        invariant
            i <= s@.len(),
            v.take(i as int) + with_coeff(v.skip(i as int), l, p@) == with_coeff(v, l, p@),
        decreases s@.len() - i,
    {
        proof {
            let rest = v.skip(i as int);
            assert(rest[0] == v[i as int]);
            assert(rest.drop_first() =~= v.skip(i + 1));
            assert(v.take(i + 1) =~= v.take(i as int) + seq![v[i as int]]);
            assert(v.take(i as int) + (seq![rest[0]] + with_coeff(v.skip(i + 1), l, p@)) =~= v.take(i + 1) + with_coeff(
                v.skip(i + 1),
                l,
                p@,
            ));
        }
        i += 1;
    }
    let mut r = s;
    let ghost rest = v.skip(i as int);
    proof {
        if i < s@.len() {
            assert(rest[0] == v[i as int]);
            assert(rest.drop_first() =~= v.skip(i + 1));
        }
    }
    if i < r.len() && r[i].0 == l {
        r.remove(i);
        assert(coeffs_v(r@) =~= v.take(i as int) + v.skip(i + 1));
    } else {
        assert(coeffs_v(r@) =~= v.take(i as int) + v.skip(i as int));
    }
    let ghost after = if i < s@.len() && s@[i as int].0 == l {
        v.skip(i + 1)
    } else {
        v.skip(i as int)
    };
    if p.is_zero() {
        assert(Seq::<(usize, PolyV)>::empty() + after =~= after);
    } else {
        let ghost pv = p@;
        let ghost before = r@;
        r.insert(i, (l, p));
        assert(coeffs_v(r@) =~= v.take(i as int) + (seq![(l, pv)] + after)) by {
            assert(r@[i as int] == (l, p));
            assert forall|j: int| 0 <= j < r@.len() implies #[trigger] coeffs_v(r@)[j] == (v.take(i as int) + (seq![
                (l, pv),
            ] + after))[j] by {
                if j < i {
                    assert(r@[j] == before[j]);
                    assert(coeffs_v(before)[j] == (v.take(i as int) + after)[j]);
                } else if j > i {
                    assert(r@[j] == before[j - 1]);
                    assert(coeffs_v(before)[j - 1] == (v.take(i as int) + after)[j - 1]);
                }
            }
        }
        assert(seq![(l, pv)] + Seq::<(usize, PolyV)>::empty() =~= seq![(l, pv)]);
    }
    proof {
        if rest.len() == 0 {
            assert(after =~= Seq::empty());
        }
    }
    r
}

fn copy_coeffs(s: &Vec<(usize, Poly)>) -> (r: Vec<(usize, Poly)>)
    ensures
        coeffs_v(r@) == coeffs_v(s@),
{
    let mut r: Vec<(usize, Poly)> = Vec::new();
    let mut i: usize = 0;
    while i < s.len()
        invariant
            i <= s@.len(),
            r@.len() == i,
            forall|j: int| 0 <= j < i ==> r@[j].0 == s@[j].0 && (#[trigger] r@[j]).1@ == s@[j].1@,
        decreases s@.len() - i,
    {
        r.push((s[i].0, s[i].1.copy()));
        i += 1;
    }
    assert(coeffs_v(r@) =~= coeffs_v(s@));
    r
}

impl Affine {
    pub fn copy(&self) -> (r: Affine)
        ensures
            r@ == self@,
    {
        Affine { coeffs: copy_coeffs(&self.coeffs), konst: self.konst.copy() }
    }

    pub fn same(&self, o: &Affine) -> (r: bool)
        ensures
            r == (self@ == o@),
    {
        if self.coeffs.len() != o.coeffs.len() {
            assert(self@.coeffs.len() != o@.coeffs.len());
            return false;
        }
        let mut i: usize = 0;
        while i < self.coeffs.len()
            invariant
                i <= self.coeffs@.len(),
                self.coeffs@.len() == o.coeffs@.len(),
                forall|j: int| 0 <= j < i ==> #[trigger] self@.coeffs[j] == o@.coeffs[j],
            decreases self.coeffs@.len() - i,
        {
            if self.coeffs[i].0 != o.coeffs[i].0 || !self.coeffs[i].1.same(&o.coeffs[i].1) {
                assert(self@.coeffs[i as int] != o@.coeffs[i as int]);
                return false;
            }
            i += 1;
        }
        assert(self@.coeffs =~= o@.coeffs);
        self.konst.same(&o.konst)
    }

    pub fn constant(p: Poly) -> (r: Affine)
        ensures
            r@ == f_const(p@),
    {
        let r = Affine { coeffs: Vec::new(), konst: p };
        assert(r@.coeffs =~= Seq::empty());
        r
    }

    pub fn var(l: usize) -> (r: Affine)
        ensures
            r@ == f_var(l),
    {
        let mut coeffs: Vec<(usize, Poly)> = Vec::new();
        coeffs.push((l, Poly::constant(1)));
        let r = Affine { coeffs, konst: Poly::zero() };
        assert(r@.coeffs =~= seq![(l, p_rat(1real))]);
        r
    }

    /// The coefficient of a local.
    pub fn coeff(&self, l: usize) -> (r: Option<&Poly>)
        ensures
            match r {
                Some(p) => coeff(self@.coeffs, l) == Some(p@),
                None => coeff(self@.coeffs, l) is None,
            },
    {
        let ghost v = self@.coeffs;
        let mut i: usize = 0;
        assert(v.skip(0) =~= v);
        while i < self.coeffs.len()
            invariant
                i <= self.coeffs@.len(),
                v == self@.coeffs,
                coeff(v, l) == coeff(v.skip(i as int), l),
            decreases self.coeffs@.len() - i,
        {
            proof {
                assert(v.skip(i as int)[0] == v[i as int]);
                assert(v.skip(i as int).drop_first() =~= v.skip(i + 1));
            }
            if self.coeffs[i].0 == l {
                return Some(&self.coeffs[i].1);
            }
            i += 1;
        }
        None
    }

    #[verifier::loop_isolation(false)]
    pub fn add(&self, o: &Affine) -> (r: Affine)
        ensures
            r@ == f_add(self@, o@),
    {
        let mut acc = Affine { coeffs: copy_coeffs(&self.coeffs), konst: self.konst.add(&o.konst) };
        let mut i: usize = 0;
        while i < o.coeffs.len()
            invariant
                i <= o.coeffs@.len(),
                acc@.coeffs == coeffs_sum(self@.coeffs, o@.coeffs, i as nat),
                acc@.konst == p_add(self@.konst, o@.konst),
            decreases o.coeffs@.len() - i,
        {
            let l = o.coeffs[i].0;
            let p = match acc.coeff(l) {
                Some(x) => x.add(&o.coeffs[i].1),
                None => o.coeffs[i].1.copy(),
            };
            assert(o@.coeffs[i as int] == (l, o.coeffs@[i as int].1@));
            acc = Affine { coeffs: coeffs_with(acc.coeffs, l, p), konst: acc.konst };
            i += 1;
        }
        acc
    }

    pub fn scale(&self, p: &Poly) -> (r: Affine)
        ensures
            r@ == f_scale(self@, p@),
    {
        let mut out: Vec<(usize, Poly)> = Vec::new();
        let mut i: usize = 0;
        while i < self.coeffs.len()
            invariant
                i <= self.coeffs@.len(),
                out@.len() == i,
                forall|j: int|
                    0 <= j < i ==> out@[j].0 == self.coeffs@[j].0 && (#[trigger] out@[j]).1@ == p_mul(self.coeffs@[j].1@, p@),
            decreases self.coeffs@.len() - i,
        {
            out.push((self.coeffs[i].0, self.coeffs[i].1.mul(p)));
            i += 1;
        }
        let r = Affine { coeffs: out, konst: self.konst.mul(p) };
        assert(r@.coeffs =~= f_scale(self@, p@).coeffs);
        r
    }

    pub fn is_const(&self) -> (r: bool)
        ensures
            r == (self@.coeffs.len() == 0),
    {
        self.coeffs.len() == 0
    }
}

} // verus!
