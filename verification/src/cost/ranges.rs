//! The bytes of an array that a site covers.

use vstd::prelude::*;
use crate::cost::affine::Coeffs;
use crate::cost::algebra::{
    m_one, m_wf, p_mul, p_rat, p_scale, p_value, p_wf, product_value, scale_value, sum_value, term_value, valuation,
};
use crate::cost::assoc::weigh;
use crate::cost::footprint::{known_negative, path_rec, site_range, span_of};
use crate::cost::laws::{grows, Weight};
use crate::cost::machine::Machine;
use crate::cost::model::{MonoV, PolyV};
use crate::cost::reading::{numeric, rec_last};
use crate::cost::scope::{RecV, SiteV};
use crate::cost::sizing::{coeffs_value, f_value, last_coeff};

verus! {

/// Every loop of the index is at one of its values: from its first up to its last.
pub open spec fn within_loops(recs: Seq<RecV>, path: Seq<usize>, s: Coeffs, at: spec_fn(usize) -> real, x: Weight) -> bool {
    forall|i: int|
        0 <= i < s.len() ==> match path_rec(recs, path, (#[trigger] s[i]).0, 0) {
            Some(r) => p_value(r.lo, x) <= at(s[i].0) <= p_value(rec_last(r), x),
            None => false,
        }
}

/// Sizes are in canonical form, and a coefficient that is a number on the machine is that number.
pub open spec fn index_ok(k: Machine, recs: Seq<RecV>, path: Seq<usize>, s: Coeffs, x: Weight) -> bool {
    forall|i: int|
        0 <= i < s.len() ==> p_wf((#[trigger] s[i]).1) && (numeric(k, s[i].1) is Some ==> numeric(k, s[i].1) == Some(
            p_value(s[i].1, x),
        )) && match path_rec(recs, path, s[i].0, 0) {
            Some(r) => p_wf(r.lo) && p_wf(rec_last(r)),
            None => true,
        }
}

proof fn weigh_not_negative(t: Seq<(MonoV, real)>, x: Weight)
    requires
        grows(x),
        forall|i: int| 0 <= i < t.len() ==> m_wf((#[trigger] t[i]).0) && t[i].1 >= 0real,
    ensures
        weigh(t, x) >= 0real,
    decreases t.len(),
{
    if t.len() > 0 {
        let u = t.drop_last();
        assert forall|i: int| 0 <= i < u.len() implies m_wf((#[trigger] u[i]).0) && u[i].1 >= 0real by {
            assert(u[i] == t[i]);
        }
        weigh_not_negative(u, x);
        let l = t[t.len() - 1];
        assert(m_wf(l.0) && l.1 >= 0real);
        let (c, y) = (l.1, x(l.0));
        assert(c * y >= 0real) by (nonlinear_arith)
            requires
                c >= 0real,
                y >= 0real,
        ;
    }
}

proof fn sign_is(k: Machine, c: PolyV, x: Weight)
    requires
        grows(x),
        p_wf(c),
        numeric(k, c) is Some ==> numeric(k, c) == Some(p_value(c, x)),
        known_negative(k, c) is Some,
    ensures
        known_negative(k, c)->0 ==> p_value(c, x) <= 0real,
        !known_negative(k, c)->0 ==> p_value(c, x) >= 0real,
{
    if numeric(k, c) is None {
        weigh_not_negative(c.terms, x);
    }
}

proof fn span_covers(k: Machine, recs: Seq<RecV>, path: Seq<usize>, s: Coeffs, start: PolyV, n: nat, at: spec_fn(usize) -> real, x: Weight)
    requires
        valuation(x),
        grows(x),
        n <= s.len(),
        index_ok(k, recs, path, s, x),
        within_loops(recs, path, s, at, x),
        span_of(k, recs, path, s, start, n) is Some,
    ensures
        ({
            let (lo, hi) = span_of(k, recs, path, s, start, n)->0;
            p_value(lo, x) <= p_value(start, x) + coeffs_value(s.take(n as int), at, x) <= p_value(hi, x)
        }),
    decreases n,
{
    assert(s.take(0) =~= Seq::empty());
    if n > 0 {
        span_covers(k, recs, path, s, start, (n - 1) as nat, at, x);
        last_coeff(s.take(n as int), at, x);
        assert(s.take(n as int).drop_last() =~= s.take(n - 1));
        let (v, c) = s[n - 1];
        assert(p_wf(s[n - 1].1));
        let r = path_rec(recs, path, v, 0)->0;
        let (lo, hi) = span_of(k, recs, path, s, start, (n - 1) as nat)->0;
        sign_is(k, c, x);
        product_value(c, r.lo, x);
        product_value(c, rec_last(r), x);
        let (a, b) = (p_mul(c, r.lo), p_mul(c, rec_last(r)));
        sum_value(lo, a, x);
        sum_value(lo, b, x);
        sum_value(hi, a, x);
        sum_value(hi, b, x);
        let (y, l, z, h) = (p_value(c, x), p_value(r.lo, x), at(v), p_value(rec_last(r), x));
        if known_negative(k, c)->0 {
            assert(y * h <= y * z <= y * l) by (nonlinear_arith)
                requires
                    y <= 0real,
                    l <= z <= h,
            ;
        } else {
            assert(y * l <= y * z <= y * h) by (nonlinear_arith)
                requires
                    y >= 0real,
                    l <= z <= h,
            ;
        }
    }
}

/// The range of a site holds every byte it touches: with its loops at any of their values, the element
/// that the index names lies in it whole.
pub proof fn range_covers(k: Machine, recs: Seq<RecV>, s: SiteV, at: spec_fn(usize) -> real, x: Weight)
    requires
        valuation(x),
        grows(x),
        s.aff is Some,
        s.stride >= 0,
        index_ok(k, recs, s.path, s.aff->0.coeffs, x),
        within_loops(recs, s.path, s.aff->0.coeffs, at, x),
        site_range(k, recs, s) is Some,
    ensures
        ({
            let (lo, hi) = site_range(k, recs, s)->0;
            let byte = (s.stride as real) * f_value(s.aff->0, at, x);
            p_value(lo, x) <= byte && byte + s.es as real <= p_value(hi, x)
        }),
{
    let a = s.aff->0;
    let n = a.coeffs.len();
    span_covers(k, recs, s.path, a.coeffs, a.konst, n, at, x);
    assert(a.coeffs.take(n as int) =~= a.coeffs);
    let (lo, hi) = span_of(k, recs, s.path, a.coeffs, a.konst, n)->0;
    let es = s.stride as real;
    scale_value(lo, es, x);
    scale_value(hi, es, x);
    sum_value(p_scale(hi, es), p_rat(s.es as real), x);
    term_value(m_one(), s.es as real, x);
    let (l, f, h) = (p_value(lo, x), f_value(a, at, x), p_value(hi, x));
    assert(es * l <= es * f <= es * h) by (nonlinear_arith)
        requires
            es >= 0real,
            l <= f <= h,
    ;
}

/// Every loop of the index is at its first value, or at its last where the index falls as it runs.
pub open spec fn lowest_turns(k: Machine, recs: Seq<RecV>, path: Seq<usize>, s: Coeffs, at: spec_fn(usize) -> real, x: Weight) -> bool {
    forall|i: int|
        0 <= i < s.len() ==> match path_rec(recs, path, (#[trigger] s[i]).0, 0) {
            Some(r) => at(s[i].0) == if p_value(s[i].1, x) < 0real {
                p_value(rec_last(r), x)
            } else {
                p_value(r.lo, x)
            },
            None => false,
        }
}

proof fn span_starts(k: Machine, recs: Seq<RecV>, path: Seq<usize>, s: Coeffs, start: PolyV, n: nat, at: spec_fn(usize) -> real, x: Weight)
    requires
        valuation(x),
        grows(x),
        n <= s.len(),
        index_ok(k, recs, path, s, x),
        lowest_turns(k, recs, path, s, at, x),
        span_of(k, recs, path, s, start, n) is Some,
    ensures
        p_value((span_of(k, recs, path, s, start, n)->0).0, x) == p_value(start, x) + coeffs_value(s.take(n as int), at, x),
    decreases n,
{
    assert(s.take(0) =~= Seq::empty());
    if n > 0 {
        span_starts(k, recs, path, s, start, (n - 1) as nat, at, x);
        last_coeff(s.take(n as int), at, x);
        assert(s.take(n as int).drop_last() =~= s.take(n - 1));
        let (v, c) = s[n - 1];
        assert(p_wf(s[n - 1].1));
        let r = path_rec(recs, path, v, 0)->0;
        let lo = (span_of(k, recs, path, s, start, (n - 1) as nat)->0).0;
        sign_is(k, c, x);
        product_value(c, r.lo, x);
        product_value(c, rec_last(r), x);
        sum_value(lo, p_mul(c, r.lo), x);
        sum_value(lo, p_mul(c, rec_last(r)), x);
        let (y, l, h) = (p_value(c, x), p_value(r.lo, x), p_value(rec_last(r), x));
        if y == 0real {
            assert(y * l == 0real && y * h == 0real) by (nonlinear_arith)
                requires
                    y == 0real,
            ;
        }
    }
}

/// The range begins where the site is with its index lowest.
pub proof fn range_starts(k: Machine, recs: Seq<RecV>, s: SiteV, at: spec_fn(usize) -> real, x: Weight)
    requires
        valuation(x),
        grows(x),
        s.aff is Some,
        index_ok(k, recs, s.path, s.aff->0.coeffs, x),
        lowest_turns(k, recs, s.path, s.aff->0.coeffs, at, x),
        site_range(k, recs, s) is Some,
    ensures
        p_value((site_range(k, recs, s)->0).0, x) == (s.stride as real) * f_value(s.aff->0, at, x),
{
    let a = s.aff->0;
    let n = a.coeffs.len();
    span_starts(k, recs, s.path, a.coeffs, a.konst, n, at, x);
    assert(a.coeffs.take(n as int) =~= a.coeffs);
    scale_value((span_of(k, recs, s.path, a.coeffs, a.konst, n)->0).0, s.stride as real, x);
}

} // verus!
