//! What a function touches of its parameters' arrays.

use vstd::prelude::*;
use crate::ast::views;
use crate::cost::affine::Coeffs;
use crate::cost::algebra::{p_add, p_mul, p_rat, p_scale, p_sub, p_zero};
use crate::cost::machine::Machine;
use crate::cost::model::PolyV;
use crate::cost::piece::{Cond, CondV};
use crate::cost::rat::Rat;
use crate::cost::reading::{numeric, rec_last, value_of};
use crate::cost::recognise::{all_nonnegative, no_negative_terms, root_of};
use crate::cost::scope::{Cx, CxV, Known, LoopRec, RecV, Site, SiteV, Walk, WalkV};
use crate::cost::settle::per_line;
use crate::cost::signature::{opt_cond, Foot, FootV};
use crate::cost::size::{atom_view_is, Atom, Poly};

verus! {

/// The first loop of a path, from the `i`-th on, over a local.
pub open spec fn path_rec(recs: Seq<RecV>, path: Seq<usize>, v: usize, i: nat) -> Option<RecV>
    decreases path.len() - i,
{
    if i >= path.len() {
        None
    } else if path[i as int] < recs.len() && recs[path[i as int] as int].var == Some(v) {
        Some(recs[path[i as int] as int])
    } else {
        path_rec(recs, path, v, i + 1)
    }
}

/// Whether a coefficient is negative, if that is known.
pub open spec fn known_negative(k: Machine, c: PolyV) -> Option<bool> {
    match numeric(k, c) {
        Some(x) => Some(x < 0real),
        None => if no_negative_terms(c) {
            Some(false)
        } else {
            None
        },
    }
}

/// The least and greatest value that the first `n` terms of an index add to it.
pub open spec fn span_of(k: Machine, recs: Seq<RecV>, path: Seq<usize>, s: Coeffs, start: PolyV, n: nat) -> Option<
    (PolyV, PolyV),
>
    decreases n,
{
    if n == 0 {
        Some((start, start))
    } else {
        let (v, c) = s[n - 1];
        match (span_of(k, recs, path, s, start, (n - 1) as nat), path_rec(recs, path, v, 0), known_negative(k, c)) {
            (Some((lo, hi)), Some(r), Some(negative)) => {
                let a = p_mul(c, r.lo);
                let b = p_mul(c, rec_last(r));
                if negative {
                    Some((p_add(lo, b), p_add(hi, a)))
                } else {
                    Some((p_add(lo, a), p_add(hi, b)))
                }
            },
            _ => None,
        }
    }
}

/// The byte range one access site covers over its loop nest, from its affine index and the
/// ranges of the loop variables it mentions; `None` when a coefficient's sign is not known or
/// the index is not affine.
pub open spec fn site_range(k: Machine, recs: Seq<RecV>, s: SiteV) -> Option<(PolyV, PolyV)> {
    match s.aff {
        None => None,
        Some(a) => match span_of(k, recs, s.path, a.coeffs, a.konst, a.coeffs.len()) {
            Some((lo, hi)) => Some(
                (p_scale(lo, s.stride as real), p_add(p_scale(hi, s.stride as real), p_rat(s.es as real))),
            ),
            None => None,
        },
    }
}

/// The place of a local among the parameters, from the `i`-th on.
pub open spec fn param_place(params: Seq<usize>, l: usize, i: nat) -> Option<nat>
    decreases params.len() - i,
{
    if i >= params.len() {
        None
    } else if params[i as int] == l {
        Some(i)
    } else {
        param_place(params, l, i + 1)
    }
}

/// The bytes of a whole array.
pub open spec fn whole_bytes(sizes: Known<PolyV>, root: usize, es: int) -> PolyV {
    p_scale(
        match sizes(root) {
            Some(p) => p,
            None => p_zero(),
        },
        es as real,
    )
}

/// The ranges found: of parameters, and of arrays the caller does not see, which compete for the
/// cache all the same.
pub struct FeetV {
    pub feet: Seq<FootV>,
    pub inner: Seq<(usize, PolyV)>,
}

/// The place of a parameter's range, from the `i`-th on.
pub open spec fn foot_place(s: Seq<FootV>, param: usize, i: nat) -> Option<nat>
    decreases s.len() - i,
{
    if i >= s.len() {
        None
    } else if s[i as int].param == param {
        Some(i)
    } else {
        foot_place(s, param, i + 1)
    }
}

/// Two ranges on one parameter: exact only if identical, else the whole array.
pub open spec fn with_foot(s: Seq<FootV>, x: FootV, whole: PolyV) -> Seq<FootV> {
    match foot_place(s, x.param, 0) {
        None => s.push(x),
        Some(i) => {
            let e = s[i as int];
            if x.exact && e.exact && e.lo == x.lo && e.hi == x.hi {
                s
            } else {
                s.update(i as int, FootV { param: x.param, lo: p_zero(), hi: whole, exact: false })
            }
        },
    }
}

pub open spec fn has_inner(s: Seq<(usize, PolyV)>, root: usize) -> bool {
    exists|i: int| 0 <= i < s.len() && (#[trigger] s[i]).0 == root
}

/// The ranges of the first `n` sites.
pub open spec fn feet_of(cx: CxV, w: WalkV, n: nat) -> FeetV
    decreases n,
{
    if n == 0 {
        FeetV { feet: Seq::empty(), inner: Seq::empty() }
    } else {
        let before = feet_of(cx, w, (n - 1) as nat);
        let s = w.sites[n - 1];
        let root = root_of(w.roots, s.arr);
        let whole = whole_bytes(w.sizes, root, s.es);
        match param_place(cx.f.params, root, 0) {
            None => if has_inner(before.inner, root) {
                before
            } else {
                FeetV { inner: before.inner.push((root, whole)), ..before }
            },
            Some(pi) => {
                let x = match site_range(cx.k, w.recs, s) {
                    Some((lo, hi)) => FootV { param: pi as usize, lo, hi, exact: true },
                    None => FootV { param: pi as usize, lo: p_zero(), hi: whole, exact: false },
                };
                FeetV { feet: with_foot(before.feet, x, whole), ..before }
            },
        }
    }
}

pub open spec fn feet_bytes(s: Seq<FootV>, n: nat) -> PolyV
    decreases n,
{
    if n == 0 {
        p_zero()
    } else {
        p_add(feet_bytes(s, (n - 1) as nat), p_sub(s[n - 1].hi, s[n - 1].lo))
    }
}

pub open spec fn inner_bytes(start: PolyV, s: Seq<(usize, PolyV)>, n: nat) -> PolyV
    decreases n,
{
    if n == 0 {
        start
    } else {
        p_add(inner_bytes(start, s, (n - 1) as nat), s[n - 1].1)
    }
}

/// The ranges of the first `n` parameters, in order.
pub open spec fn feet_in_order(s: Seq<FootV>, n: nat) -> Seq<FootV>
    decreases n,
{
    if n == 0 {
        Seq::empty()
    } else {
        let before = feet_in_order(s, (n - 1) as nat);
        match foot_place(s, (n - 1) as usize, 0) {
            Some(i) => before.push(s[i as int]),
            None => before,
        }
    }
}

pub open spec fn all_exact(s: Seq<FootV>) -> bool {
    forall|i: int| 0 <= i < s.len() ==> (#[trigger] s[i]).exact
}

/// The function's footprint over its parameters, and the condition under which all of it is
/// resident on return. A site whose range is not exact makes its parameter's range the whole
/// array and forfeits the residue.
#[verifier::opaque]
pub open spec fn footprint(cx: CxV, w: WalkV) -> (Seq<FootV>, Option<CondV>) {
    let f = feet_of(cx, w, w.sites.len());
    let out = feet_in_order(f.feet, cx.f.params.len());
    let total = inner_bytes(feet_bytes(f.feet, f.feet.len()), f.inner, f.inner.len());
    (
        out,
        if all_exact(f.feet) && out.len() > 0 {
            Some(CondV { ws: per_line(total), fits: true })
        } else {
            None
        },
    )
}

// ---- the computation ----

fn rec_of_path<'r>(recs: &'r Vec<LoopRec>, path: &Vec<usize>, v: usize) -> (r: Option<&'r LoopRec>)
    ensures
        match r {
            Some(x) => path_rec(views(recs@), path@, v, 0) == Some(x@),
            None => path_rec(views(recs@), path@, v, 0) is None,
        },
{
    let ghost rv = views(recs@);
    let mut i: usize = 0;
    while i < path.len()
        invariant
            i <= path@.len(),
            rv == views(recs@),
            path_rec(rv, path@, v, 0) == path_rec(rv, path@, v, i as nat),
        decreases path@.len() - i,
    {
        let l = path[i];
        if l < recs.len() {
            assert(rv[l as int] == recs@[l as int]@);
            match recs[l].var {
                Some(x) => {
                    if x == v {
                        return Some(&recs[l]);
                    }
                },
                None => {},
            }
        }
        i += 1;
    }
    None
}

fn is_negative(k: &Machine, c: &Poly) -> (r: Option<bool>)
    requires
        k.ok(),
    ensures
        r == known_negative(*k, c@),
{
    match value_of(k, c) {
        Some(x) => Some(x.is_negative()),
        None => {
            if all_nonnegative(c) {
                Some(false)
            } else {
                None
            }
        },
    }
}

proof fn span_fails(k: Machine, recs: Seq<RecV>, path: Seq<usize>, s: Coeffs, start: PolyV, n: nat, m: nat)
    requires
        n <= m,
        span_of(k, recs, path, s, start, n) is None,
    ensures
        span_of(k, recs, path, s, start, m) is None,
    decreases m - n,
{
    if n < m {
        assert(span_of(k, recs, path, s, start, n + 1) is None);
        span_fails(k, recs, path, s, start, n + 1, m);
    }
}

#[verifier::loop_isolation(false)]
fn range_of(k: &Machine, recs: &Vec<LoopRec>, s: &Site) -> (r: Option<(Poly, Poly)>)
    requires
        k.ok(),
    ensures
        (match r {
            Some(p) => Some((p.0@, p.1@)),
            None => None,
        }) == site_range(*k, views(recs@), s@),
{
    let a = match &s.aff {
        Some(a) => a,
        None => {
            return None;
        },
    };
    let ghost rv = views(recs@);
    let ghost cv = a@.coeffs;
    let mut lo = a.konst.copy();
    let mut hi = a.konst.copy();
    let mut i: usize = 0;
    while i < a.coeffs.len()
        invariant
            i <= a.coeffs@.len(),
            span_of(*k, rv, s.path@, cv, a@.konst, i as nat) == Some((lo@, hi@)),
        decreases a.coeffs@.len() - i,
    {
        let c = &a.coeffs[i].1;
        assert(cv[i as int] == (a.coeffs@[i as int].0, c@));
        match (rec_of_path(recs, &s.path, a.coeffs[i].0), is_negative(k, c)) {
            (Some(r), Some(negative)) => {
                let x = c.mul(&r.lo);
                let y = c.mul(&r.last());
                if negative {
                    lo = lo.add(&y);
                    hi = hi.add(&x);
                } else {
                    lo = lo.add(&x);
                    hi = hi.add(&y);
                }
            },
            _ => {
                proof {
                    assert(span_of(*k, rv, s.path@, cv, a@.konst, (i + 1) as nat) is None);
                    span_fails(*k, rv, s.path@, cv, a@.konst, (i + 1) as nat, cv.len());
                }
                return None;
            },
        }
        i += 1;
    }
    let st = Rat::integer(s.stride);
    Some((lo.scale(&st), hi.scale(&st).add(&Poly::constant(s.es))))
}

pub fn place_of_param(params: &Vec<usize>, l: usize) -> (r: Option<usize>)
    ensures
        match r {
            Some(i) => param_place(params@, l, 0) == Some(i as nat) && i < params@.len(),
            None => param_place(params@, l, 0) is None,
        },
{
    let mut i: usize = 0;
    while i < params.len()
        invariant
            i <= params@.len(),
            param_place(params@, l, 0) == param_place(params@, l, i as nat),
        decreases params@.len() - i,
    {
        if params[i] == l {
            return Some(i);
        }
        i += 1;
    }
    None
}

fn place_of_foot(s: &Vec<Foot>, param: usize) -> (r: Option<usize>)
    ensures
        match r {
            Some(i) => foot_place(views(s@), param, 0) == Some(i as nat) && i < s@.len(),
            None => foot_place(views(s@), param, 0) is None,
        },
{
    let ghost v = views(s@);
    let mut i: usize = 0;
    while i < s.len()
        invariant
            i <= s@.len(),
            v == views(s@),
            foot_place(v, param, 0) == foot_place(v, param, i as nat),
        decreases s@.len() - i,
    {
        assert(v[i as int] == s@[i as int]@);
        if s[i].param == param {
            return Some(i);
        }
        i += 1;
    }
    None
}

fn add_foot(s: &mut Vec<Foot>, x: Foot, whole: Poly)
    ensures
        views(final(s)@) == with_foot(views(old(s)@), x@, whole@),
{
    let ghost v = views(s@);
    match place_of_foot(s, x.param) {
        None => {
            assert(views(s@.push(x)) =~= v.push(x@));
            s.push(x);
        },
        Some(i) => {
            assert(v[i as int] == s@[i as int]@);
            let e = &s[i];
            if !(x.exact && e.exact && e.lo.same(&x.lo) && e.hi.same(&x.hi)) {
                let y = Foot { param: x.param, lo: Poly::zero(), hi: whole, exact: false };
                let ghost yv = y@;
                s.set(i, y);
                assert(views(s@) =~= v.update(i as int, yv));
            }
        },
    }
}

pub open spec fn inner_v(s: Seq<(usize, Poly)>) -> Seq<(usize, PolyV)> {
    Seq::new(s.len(), |i: int| (s[i].0, s[i].1@))
}

fn is_inner(s: &Vec<(usize, Poly)>, root: usize) -> (r: bool)
    ensures
        r == has_inner(inner_v(s@), root),
{
    let ghost v = inner_v(s@);
    let mut i: usize = 0;
    while i < s.len()
        invariant
            i <= s@.len(),
            v == inner_v(s@),
            forall|j: int| 0 <= j < i ==> (#[trigger] v[j]).0 != root,
        decreases s@.len() - i,
    {
        if s[i].0 == root {
            assert(v[i as int].0 == root);
            return true;
        }
        i += 1;
    }
    false
}

impl<'a> Walk<'a> {
    fn bytes_of_whole(&self, root: usize, es: i128) -> (r: Poly)
        ensures
            r@ == whole_bytes(self@.sizes, root, es as int),
    {
        let n = match self.sizes.get(root) {
            Some(p) => p.copy(),
            None => Poly::zero(),
        };
        n.scale(&Rat::integer(es))
    }

    #[verifier::loop_isolation(false)]
    fn feet(&self, cx: &Cx) -> (r: (Vec<Foot>, Vec<(usize, Poly)>))
        requires
            cx.k.ok(),
        ensures
            views(r.0@) == feet_of(cx@, self@, self@.sites.len()).feet,
            inner_v(r.1@) == feet_of(cx@, self@, self@.sites.len()).inner,
    {
        let ghost w = self@;
        let mut feet: Vec<Foot> = Vec::new();
        let mut inner: Vec<(usize, Poly)> = Vec::new();
        let mut n: usize = 0;
        assert(views(feet@) =~= Seq::empty());
        assert(inner_v(inner@) =~= Seq::empty());
        while n < self.sites.len()
            invariant
                n <= self.sites@.len(),
                views(feet@) == feet_of(cx@, w, n as nat).feet,
                inner_v(inner@) == feet_of(cx@, w, n as nat).inner,
            decreases self.sites@.len() - n,
        {
            let s = &self.sites[n];
            assert(w.sites[n as int] == s@);
            let root = self.root(s.arr);
            let whole = self.bytes_of_whole(root, s.es);
            match place_of_param(&cx.f.params, root) {
                None => {
                    if !is_inner(&inner, root) {
                        let ghost hv = whole@;
                        assert(inner_v(inner@.push((root, whole))) =~= inner_v(inner@).push((root, hv)));
                        inner.push((root, whole));
                    }
                },
                Some(pi) => {
                    let x = match range_of(&cx.k, &self.recs, s) {
                        Some((lo, hi)) => Foot { param: pi, lo, hi, exact: true },
                        None => Foot { param: pi, lo: Poly::zero(), hi: whole.copy(), exact: false },
                    };
                    add_foot(&mut feet, x, whole);
                },
            }
            n += 1;
        }
        (feet, inner)
    }

    /// The function's footprint over its parameters, and the condition under which all of it is
    /// resident on return.
    #[verifier::loop_isolation(false)]
    pub fn signature_footprint(&self, cx: &Cx) -> (r: (Vec<Foot>, Option<Cond>))
        requires
            cx.k.ok(),
        ensures
            (views(r.0@), opt_cond(r.1)) == footprint(cx@, self@),
    {
        let (feet, inner) = self.feet(cx);
        let ghost fv = views(feet@);
        let ghost iv = inner_v(inner@);
        proof {
            reveal(footprint);
        }
        let mut total = Poly::zero();
        let mut exact = true;
        let mut i: usize = 0;
        while i < feet.len()
            invariant
                i <= feet@.len(),
                total@ == feet_bytes(fv, i as nat),
                exact == (forall|j: int| 0 <= j < i ==> (#[trigger] fv[j]).exact),
            decreases feet@.len() - i,
        {
            assert(fv[i as int] == feet@[i as int]@);
            total = total.add(&feet[i].hi.sub(&feet[i].lo));
            if !feet[i].exact {
                assert(!fv[i as int].exact);
                exact = false;
            }
            i += 1;
        }
        let ghost start = total@;
        let mut j: usize = 0;
        while j < inner.len()
            invariant
                j <= inner@.len(),
                total@ == inner_bytes(start, iv, j as nat),
            decreases inner@.len() - j,
        {
            assert(iv[j as int].1 == inner@[j as int].1@);
            total = total.add(&inner[j].1);
            j += 1;
        }
        let mut out: Vec<Foot> = Vec::new();
        let mut n: usize = 0;
        assert(views(out@) =~= Seq::empty());
        while n < cx.f.params.len()
            invariant
                n <= cx.f.params@.len(),
                views(out@) == feet_in_order(fv, n as nat),
            decreases cx.f.params@.len() - n,
        {
            match place_of_foot(&feet, n) {
                Some(p) => {
                    let x = feet[p].copy();
                    assert(fv[p as int] == feet@[p as int]@);
                    assert(views(out@.push(x)) =~= views(out@).push(x@));
                    out.push(x);
                },
                None => {},
            }
            n += 1;
        }
        proof {
            atom_view_is(Atom::B);
        }
        let resident = if exact && out.len() > 0 {
            Some(Cond { ws: total.mul_atom_pow(Atom::B, &Rat::integer(-1)), fits: true })
        } else {
            None
        };
        (out, resident)
    }
}

} // verus!
