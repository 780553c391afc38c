//! Pruning a cost at a machine does not change what it is there, at sizes that are whole numbers.

use vstd::prelude::*;
use crate::cost::algebra::{m_wf, p_value, p_wf};
use crate::cost::assoc::weigh;
use crate::cost::laws::{cond_true, conds_ok, conds_true, placed, Place};
use crate::cost::machine::{
    all_powers_ok, conds_vars, earliest_fit, first_outgrown, horizon, latest_miss, mono_at, no_size, only, open_conds,
    outgrown, outgrown_stays, piece_at, pieces_at, poly_at, powers_ok, settled, sooner, threshold, thresholds,
    tight_conds, Given, Machine, Reach,
};
use crate::cost::model::{AtomV, MonoV, PolyV};
use crate::cost::piece::{c_prune, CondV, PieceV};
use crate::cost::pruning::{cost_is, pieces_ok, prune_keeps};
use crate::cost::root::fine_power;

verus! {

/// The place is the machine with every size a whole number from one up to the horizon: a product of
/// `B`, `M` and a size is worth there what it is worth at the machine.
pub open spec fn stands_at(x: Place, k: Machine, sizes: spec_fn(int) -> nat) -> bool {
    &&& placed(x)
    &&& x.b == k.b_bytes as real
    &&& x.m == k.m_bytes as real
    &&& forall|v: int| 1 <= #[trigger] sizes(v) <= horizon()
    &&& forall|v: int, m: MonoV|
        m_wf(m) && (#[trigger] mono_at(m.factors, k, Some((v, sizes(v) as real)))) is Some ==> (x.w)(m) == mono_at(
            m.factors,
            k,
            Some((v, sizes(v) as real)),
        )->0
}

spec fn at_size(v: int, sizes: spec_fn(int) -> nat) -> Given {
    Some((v, sizes(v) as real))
}

// ---- values ----

spec fn keys_canonical(t: Seq<(MonoV, real)>) -> bool {
    forall|i: int| 0 <= i < t.len() ==> m_wf((#[trigger] t[i]).0)
}

proof fn value_stands(t: Seq<(MonoV, real)>, x: Place, k: Machine, sizes: spec_fn(int) -> nat, v: int)
    requires
        stands_at(x, k, sizes),
        keys_canonical(t),
        poly_at(t, k, at_size(v, sizes)) is Some,
    ensures
        weigh(t, x.w) == poly_at(t, k, at_size(v, sizes))->0,
    decreases t.len(),
{
    if t.len() > 0 {
        let u = t.drop_last();
        assert forall|i: int| 0 <= i < u.len() implies m_wf((#[trigger] u[i]).0) by {
            assert(m_wf(t[i].0));
        }
        value_stands(u, x, k, sizes, v);
        let m = t[t.len() - 1].0;
        assert(m_wf(t[t.len() - 1].0));
        assert(mono_at(m.factors, k, Some((v, sizes(v) as real))) is Some);
    }
}

proof fn mono_without_size(f: Seq<(AtomV, real)>, k: Machine, g: Given)
    requires
        mono_at(f, k, None) is Some,
    ensures
        mono_at(f, k, g) == mono_at(f, k, None),
    decreases f.len(),
{
    if f.len() > 0 {
        mono_without_size(f.drop_last(), k, g);
    }
}

proof fn value_without_size(t: Seq<(MonoV, real)>, k: Machine, g: Given)
    requires
        poly_at(t, k, None) is Some,
    ensures
        poly_at(t, k, g) == poly_at(t, k, None),
    decreases t.len(),
{
    if t.len() > 0 {
        value_without_size(t.drop_last(), k, g);
        mono_without_size(t.last().0.factors, k, g);
    }
}

/// The powers of the machine's sizes are not negative.
proof fn powers_not_negative(t: Seq<(MonoV, real)>, x: Place, k: Machine, sizes: spec_fn(int) -> nat)
    requires
        stands_at(x, k, sizes),
        keys_canonical(t),
    ensures
        all_powers_ok(t, k),
{
    assert forall|i: int| 0 <= i < t.len() implies powers_ok((#[trigger] t[i]).0.factors, k) by {
        let f = t[i].0.factors;
        assert(m_wf(t[i].0));
        assert forall|j: int| 0 <= j < f.len() implies match (#[trigger] f[j]).0 {
            AtomV::B => fine_power(k.b_bytes as real, f[j].1) >= 0real,
            AtomV::M => fine_power(k.m_bytes as real, f[j].1) >= 0real,
            _ => true,
        } by {
            let one = seq![f[j]];
            let m = MonoV { factors: one };
            assert(f[j].1 != 0real);
            assert(m_wf(m));
            assert(one.drop_last() =~= Seq::empty());
            assert(mono_at(one.drop_last(), k, Some((0, sizes(0) as real))) == Some(1real));
            if f[j].0 is B || f[j].0 is M {
                assert(mono_at(m.factors, k, Some((0, sizes(0) as real))) is Some);
                let y = mono_at(m.factors, k, Some((0, sizes(0) as real)))->0;
                assert((x.w)(m) == y);
                assert((x.w)(m) >= 0real);
                let p = if f[j].0 is B {
                    fine_power(k.b_bytes as real, f[j].1)
                } else {
                    fine_power(k.m_bytes as real, f[j].1)
                };
                assert(1real * p == p) by (nonlinear_arith);
                assert(y == 1real * p);
            }
        }
    }
}

// ---- conditions ----

/// The size has come to the threshold.
spec fn reached(t: Reach, n: nat) -> bool {
    match t {
        Reach::At(a) => n >= a,
        Reach::Never => false,
    }
}

proof fn first_exists(ws: PolyV, v: int, k: Machine, n: nat) -> (r: nat)
    requires
        n >= 1,
        outgrown(ws, v, n, k),
    ensures
        first_outgrown(ws, v, r, k),
    decreases n,
{
    if forall|j: nat| 1 <= j < n ==> !#[trigger] outgrown(ws, v, j, k) {
        n
    } else {
        let j = choose|j: nat| 1 <= j < n && #[trigger] outgrown(ws, v, j, k);
        first_exists(ws, v, k, j)
    }
}

proof fn threshold_decides(c: CondV, t: Reach, x: Place, k: Machine, sizes: spec_fn(int) -> nat, v: int)
    requires
        stands_at(x, k, sizes),
        k.ok(),
        p_wf(c.ws),
        threshold(c.ws, v, k) == Some(t),
    ensures
        cond_true(c, x) <==> c.fits == !reached(t, sizes(v)),
{
    let n = sizes(v);
    assert(1 <= n <= horizon());
    assert forall|i: int| 0 <= i < c.ws.terms.len() implies m_wf((#[trigger] c.ws.terms[i]).0) by {}
    powers_not_negative(c.ws.terms, x, k, sizes);
    outgrown_stays(c.ws, v, 1, n, k);
    value_stands(c.ws.terms, x, k, sizes, v);
    if outgrown(c.ws, v, horizon(), k) {
        let some = first_exists(c.ws, v, k, horizon());
        let a = t->At_0;
        assert(first_outgrown(c.ws, v, a, k));
        if n >= a {
            outgrown_stays(c.ws, v, a, n, k);
        } else {
            assert(!outgrown(c.ws, v, n, k));
        }
    } else {
        outgrown_stays(c.ws, v, n, horizon(), k);
    }
}

proof fn settled_decides(c: CondV, x: Place, k: Machine, sizes: spec_fn(int) -> nat)
    requires
        stands_at(x, k, sizes),
        p_wf(c.ws),
        settled(c, k) is Some,
    ensures
        cond_true(c, x) == settled(c, k)->0,
{
    assert forall|i: int| 0 <= i < c.ws.terms.len() implies m_wf((#[trigger] c.ws.terms[i]).0) by {}
    value_without_size(c.ws.terms, k, at_size(0, sizes));
    value_stands(c.ws.terms, x, k, sizes, 0);
}

proof fn last_true(s: Seq<CondV>, x: Place)
    requires
        s.len() > 0,
    ensures
        conds_true(s, x) <==> conds_true(s.drop_last(), x) && cond_true(s.last(), x),
{
    let u = s.drop_last();
    if conds_true(s, x) {
        assert forall|i: int| 0 <= i < u.len() implies cond_true(#[trigger] u[i], x) by {
            assert(cond_true(s[i], x));
        }
        assert(cond_true(s[s.len() - 1], x));
    }
    if conds_true(u, x) && cond_true(s.last(), x) {
        assert forall|i: int| 0 <= i < s.len() implies cond_true(#[trigger] s[i], x) by {
            if i < u.len() {
                assert(cond_true(u[i], x));
            }
        }
    }
}

proof fn open_true(s: Seq<CondV>, x: Place, k: Machine, sizes: spec_fn(int) -> nat)
    requires
        stands_at(x, k, sizes),
        conds_ok(s),
    ensures
        match open_conds(s, k) {
            Some(open) => conds_ok(open) && (conds_true(open, x) <==> conds_true(s, x)),
            None => !conds_true(s, x),
        },
    decreases s.len(),
{
    if s.len() > 0 {
        let u = s.drop_last();
        assert forall|i: int| 0 <= i < u.len() implies p_wf((#[trigger] u[i]).ws) by {
            assert(p_wf(s[i].ws));
        }
        assert(p_wf(s[s.len() - 1].ws));
        open_true(u, x, k, sizes);
        last_true(s, x);
        if let Some(before) = open_conds(u, k) {
            match settled(s.last(), k) {
                Some(b) => {
                    settled_decides(s.last(), x, k, sizes);
                },
                None => {
                    let open = before.push(s.last());
                    assert(open.drop_last() =~= before);
                    last_true(open, x);
                    assert forall|i: int| 0 <= i < open.len() implies p_wf((#[trigger] open[i]).ws) by {
                        if i < before.len() {
                            assert(p_wf(before[i].ws));
                        }
                    }
                },
            }
        }
    }
}

// ---- intervals ----

proof fn threshold_of_each(s: Seq<CondV>, v: int, k: Machine)
    requires
        thresholds(s, v, k) is Some,
    ensures
        thresholds(s, v, k)->0.len() == s.len(),
        forall|i: int| 0 <= i < s.len() ==> threshold((#[trigger] s[i]).ws, v, k) == Some(thresholds(s, v, k)->0[i]),
    decreases s.len(),
{
    if s.len() > 0 {
        let u = s.drop_last();
        threshold_of_each(u, v, k);
        assert forall|i: int| 0 <= i < s.len() implies threshold((#[trigger] s[i]).ws, v, k) == Some(
            thresholds(s, v, k)->0[i],
        ) by {
            if i < u.len() {
                assert(threshold(u[i].ws, v, k) == Some(thresholds(u, v, k)->0[i]));
            }
        }
    }
}

/// Each condition holds exactly where its threshold says.
spec fn decided(s: Seq<CondV>, t: Seq<Reach>, x: Place, n: nat) -> bool {
    &&& t.len() == s.len()
    &&& forall|i: int| 0 <= i < s.len() ==> cond_true(#[trigger] s[i], x) == (s[i].fits == !reached(t[i], n))
}

proof fn earliest_is(s: Seq<CondV>, t: Seq<Reach>, n: nat)
    requires
        n <= s.len(),
        t.len() == s.len(),
    ensures
        forall|i: int| 0 <= i < n && (#[trigger] s[i]).fits ==> !sooner(t[i], earliest_fit(s, t, n)),
        earliest_fit(s, t, n) is Never || exists|j: int|
            0 <= j < n && (#[trigger] s[j]).fits && t[j] == earliest_fit(s, t, n),
    decreases n,
{
    if n > 0 {
        earliest_is(s, t, (n - 1) as nat);
        let before = earliest_fit(s, t, (n - 1) as nat);
        if s[n - 1].fits && sooner(t[n - 1], before) {
            assert(s[n - 1].fits);
        } else if !(before is Never) {
            let j = choose|j: int| 0 <= j < n - 1 && (#[trigger] s[j]).fits && t[j] == before;
            assert(s[j].fits);
        }
    }
}

proof fn latest_is(s: Seq<CondV>, t: Seq<Reach>, n: nat, first: nat)
    requires
        n <= s.len(),
        t.len() == s.len(),
    ensures
        forall|i: int| 0 <= i < n && !(#[trigger] s[i]).fits ==> !sooner(latest_miss(s, t, n, first), t[i]),
        latest_miss(s, t, n, first) == Reach::At(first) || exists|j: int|
            0 <= j < n && !(#[trigger] s[j]).fits && t[j] == latest_miss(s, t, n, first),
        !sooner(latest_miss(s, t, n, first), Reach::At(first)),
    decreases n,
{
    if n > 0 {
        latest_is(s, t, (n - 1) as nat, first);
        let before = latest_miss(s, t, (n - 1) as nat, first);
        if !s[n - 1].fits && sooner(before, t[n - 1]) {
            assert(!s[n - 1].fits);
        } else if before != Reach::At(first) {
            let j = choose|j: int| 0 <= j < n - 1 && !(#[trigger] s[j]).fits && t[j] == before;
            assert(!s[j].fits);
        }
    }
}

proof fn no_size_false(s: Seq<CondV>, t: Seq<Reach>, x: Place, n: nat)
    requires
        decided(s, t, x, n),
        n >= 1,
        no_size(s, t),
    ensures
        !conds_true(s, x),
{
    earliest_is(s, t, s.len());
    latest_is(s, t, s.len(), 1);
    if conds_true(s, x) {
        let (late, early) = (latest_miss(s, t, s.len(), 1), earliest_fit(s, t, s.len()));
        let j = choose|j: int| 0 <= j < s.len() && (#[trigger] s[j]).fits && t[j] == early;
        assert(cond_true(s[j], x));
        assert(!reached(t[j], n));
        if late != Reach::At(1) {
            let i = choose|i: int| 0 <= i < s.len() && !(#[trigger] s[i]).fits && t[i] == late;
            assert(cond_true(s[i], x));
            assert(reached(t[i], n));
        }
    }
}

spec fn kept_cond(s: Seq<CondV>, t: Seq<Reach>, i: int) -> bool {
    if s[i].fits {
        !sooner(earliest_fit(s, t, s.len()), t[i])
    } else {
        !sooner(t[i], latest_miss(s, t, s.len(), 0))
    }
}

proof fn tight_members(s: Seq<CondV>, t: Seq<Reach>, n: nat)
    requires
        n <= s.len(),
    ensures
        forall|c: CondV|
            #[trigger] tight_conds(s, t, n).contains(c) <==> exists|i: int|
                0 <= i < n && kept_cond(s, t, i) && #[trigger] s[i] == c,
    decreases n,
{
    if n > 0 {
        let before = tight_conds(s, t, (n - 1) as nat);
        let r = tight_conds(s, t, n);
        tight_members(s, t, (n - 1) as nat);
        assert forall|c: CondV|
            #[trigger] r.contains(c) <==> exists|i: int| 0 <= i < n && kept_cond(s, t, i) && #[trigger] s[i] == c by {
            if r.contains(c) {
                let j = choose|j: int| 0 <= j < r.len() && r[j] == c;
                if j < before.len() {
                    assert(before.contains(before[j]));
                    let i = choose|i: int| 0 <= i < n - 1 && kept_cond(s, t, i) && #[trigger] s[i] == c;
                    assert(s[i] == c);
                } else {
                    assert(s[n - 1] == c);
                }
            }
            if exists|i: int| 0 <= i < n && kept_cond(s, t, i) && #[trigger] s[i] == c {
                let i = choose|i: int| 0 <= i < n && kept_cond(s, t, i) && #[trigger] s[i] == c;
                if i < n - 1 {
                    assert(before.contains(c));
                    let j = choose|j: int| 0 <= j < before.len() && before[j] == c;
                    assert(r[j] == c);
                } else {
                    assert(r[r.len() - 1] == c);
                }
            }
        }
    }
}

proof fn tight_true(s: Seq<CondV>, t: Seq<Reach>, x: Place, n: nat)
    requires
        decided(s, t, x, n),
        conds_ok(s),
    ensures
        conds_ok(tight_conds(s, t, s.len())),
        conds_true(tight_conds(s, t, s.len()), x) <==> conds_true(s, x),
{
    let r = tight_conds(s, t, s.len());
    let (late, early) = (latest_miss(s, t, s.len(), 0), earliest_fit(s, t, s.len()));
    tight_members(s, t, s.len());
    earliest_is(s, t, s.len());
    latest_is(s, t, s.len(), 0);
    assert forall|i: int| 0 <= i < r.len() implies p_wf((#[trigger] r[i]).ws) && s.contains(r[i]) by {
        assert(r.contains(r[i]));
        let j = choose|j: int| 0 <= j < s.len() && kept_cond(s, t, j) && #[trigger] s[j] == r[i];
        assert(p_wf(s[j].ws));
    }
    if conds_true(s, x) {
        assert forall|i: int| 0 <= i < r.len() implies cond_true(#[trigger] r[i], x) by {
            assert(s.contains(r[i]));
            let j = choose|j: int| 0 <= j < s.len() && s[j] == r[i];
            assert(cond_true(s[j], x));
        }
    }
    if conds_true(r, x) {
        assert forall|i: int| 0 <= i < s.len() implies cond_true(#[trigger] s[i], x) by {
            let j = if kept_cond(s, t, i) {
                i
            } else if s[i].fits {
                choose|j: int| 0 <= j < s.len() && (#[trigger] s[j]).fits && t[j] == early
            } else {
                choose|j: int| 0 <= j < s.len() && !(#[trigger] s[j]).fits && t[j] == late
            };
            assert(kept_cond(s, t, j) && s[j] == s[j]);
            assert(r.contains(s[j]));
            let l = choose|l: int| 0 <= l < r.len() && r[l] == s[j];
            assert(cond_true(r[l], x));
            assert(cond_true(s[j], x));
        }
    }
}

// ---- pieces ----

proof fn piece_stands(p: PieceV, x: Place, k: Machine, sizes: spec_fn(int) -> nat)
    requires
        stands_at(x, k, sizes),
        k.ok(),
        conds_ok(p.conds),
    ensures
        match piece_at(p, k) {
            Some(q) => q.poly == p.poly && conds_ok(q.conds) && (conds_true(q.conds, x) <==> conds_true(p.conds, x)),
            None => !conds_true(p.conds, x),
        },
{
    open_true(p.conds, x, k, sizes);
    if let Some(open) = open_conds(p.conds, k) {
        if let Some(v) = only(conds_vars(open)) {
            if let Some(t) = thresholds(open, v, k) {
                threshold_of_each(open, v, k);
                assert forall|i: int| 0 <= i < open.len() implies cond_true(#[trigger] open[i], x) == (open[i].fits
                    == !reached(t[i], sizes(v))) by {
                    assert(p_wf(open[i].ws));
                    assert(threshold(open[i].ws, v, k) == Some(t[i]));
                    threshold_decides(open[i], t[i], x, k, sizes, v);
                }
                assert(decided(open, t, x, sizes(v)));
                assert(sizes(v) >= 1);
                if no_size(open, t) {
                    no_size_false(open, t, x, sizes(v));
                } else {
                    tight_true(open, t, x, sizes(v));
                }
            }
        }
    }
}

/// Whether the pieces that are left say at the place what all of them said.
spec fn same_there(s: Seq<PieceV>, r: Seq<PieceV>, x: Place) -> bool {
    &&& pieces_ok(r)
    &&& forall|j: int|
        0 <= j < r.len() && conds_true((#[trigger] r[j]).conds, x) ==> exists|i: int|
            0 <= i < s.len() && conds_true((#[trigger] s[i]).conds, x) && s[i].poly == r[j].poly
    &&& forall|i: int|
        0 <= i < s.len() && conds_true((#[trigger] s[i]).conds, x) ==> exists|j: int|
            0 <= j < r.len() && conds_true((#[trigger] r[j]).conds, x) && r[j].poly == s[i].poly
}

/// What is left of the `i`-th piece is `y`.
spec fn left(s: Seq<PieceV>, k: Machine, i: int, y: PieceV) -> bool {
    0 <= i < s.len() && piece_at(s[i], k) == Some(y)
}

proof fn left_members(s: Seq<PieceV>, k: Machine)
    ensures
        forall|y: PieceV| #[trigger] pieces_at(s, k).contains(y) <==> exists|i: int| #[trigger] left(s, k, i, y),
    decreases s.len(),
{
    if s.len() > 0 {
        let u = s.drop_last();
        let last = s.len() - 1;
        let (before, r) = (pieces_at(u, k), pieces_at(s, k));
        let p = piece_at(s.last(), k);
        left_members(u, k);
        assert forall|y: PieceV| #[trigger] r.contains(y) <==> exists|i: int| #[trigger] left(s, k, i, y) by {
            if r.contains(y) {
                let j = choose|j: int| 0 <= j < r.len() && r[j] == y;
                if j < before.len() {
                    assert(before.contains(before[j]));
                    let i = choose|i: int| #[trigger] left(u, k, i, y);
                    assert(left(s, k, i, y));
                } else {
                    assert(left(s, k, last, y));
                }
            }
            if exists|i: int| #[trigger] left(s, k, i, y) {
                let i = choose|i: int| #[trigger] left(s, k, i, y);
                if i < last {
                    assert(left(u, k, i, y));
                    assert(before.contains(y));
                    let j = choose|j: int| 0 <= j < before.len() && before[j] == y;
                    assert(r[j] == y);
                } else {
                    assert(r[r.len() - 1] == y);
                }
            }
        }
    }
}

proof fn pieces_stand(s: Seq<PieceV>, x: Place, k: Machine, sizes: spec_fn(int) -> nat)
    requires
        stands_at(x, k, sizes),
        k.ok(),
        pieces_ok(s),
    ensures
        same_there(s, pieces_at(s, k), x),
{
    let r = pieces_at(s, k);
    left_members(s, k);
    assert forall|i: int, y: PieceV| #[trigger] left(s, k, i, y) implies y.poly == s[i].poly && conds_ok(y.conds) && p_wf(
        y.poly,
    ) && (conds_true(y.conds, x) <==> conds_true(s[i].conds, x)) by {
        assert(p_wf(s[i].poly) && conds_ok(s[i].conds));
        piece_stands(s[i], x, k, sizes);
    }
    assert forall|j: int| 0 <= j < r.len() implies p_wf((#[trigger] r[j]).poly) && conds_ok(r[j].conds) by {
        assert(r.contains(r[j]));
        let i = choose|i: int| #[trigger] left(s, k, i, r[j]);
    }
    assert forall|j: int| 0 <= j < r.len() && conds_true((#[trigger] r[j]).conds, x) implies exists|i: int|
        0 <= i < s.len() && conds_true((#[trigger] s[i]).conds, x) && s[i].poly == r[j].poly by {
        assert(r.contains(r[j]));
        let i = choose|i: int| #[trigger] left(s, k, i, r[j]);
        assert(conds_true(s[i].conds, x));
    }
    assert forall|i: int| 0 <= i < s.len() && conds_true((#[trigger] s[i]).conds, x) implies exists|j: int|
        0 <= j < r.len() && conds_true((#[trigger] r[j]).conds, x) && r[j].poly == s[i].poly by {
        assert(p_wf(s[i].poly) && conds_ok(s[i].conds));
        piece_stands(s[i], x, k, sizes);
        let y = piece_at(s[i], k)->0;
        assert(left(s, k, i, y));
        assert(r.contains(y));
        let j = choose|j: int| 0 <= j < r.len() && r[j] == y;
        assert(conds_true(r[j].conds, x));
    }
}

/// Pruning at a machine keeps the cost there: at whole sizes it is what it was.
pub proof fn prune_at_keeps(s: Seq<PieceV>, x: Place, k: Machine, sizes: spec_fn(int) -> nat, v: real)
    requires
        stands_at(x, k, sizes),
        k.ok(),
        pieces_ok(s),
        cost_is(s, x, v),
    ensures
        cost_is(c_prune(pieces_at(s, k)), x, v),
{
    let r = pieces_at(s, k);
    pieces_stand(s, x, k, sizes);
    let i = choose|i: int| 0 <= i < s.len() && conds_true((#[trigger] s[i]).conds, x) && p_value(s[i].poly, x.w) == v;
    let j = choose|j: int| 0 <= j < r.len() && conds_true((#[trigger] r[j]).conds, x) && r[j].poly == s[i].poly;
    assert(conds_true(r[j].conds, x) && p_value(r[j].poly, x.w) == v);
    assert forall|l: int| 0 <= l < r.len() && conds_true((#[trigger] r[l]).conds, x) implies p_value(r[l].poly, x.w)
        <= v by {
        let a = choose|a: int| 0 <= a < s.len() && conds_true((#[trigger] s[a]).conds, x) && s[a].poly == r[l].poly;
        assert(p_value(s[a].poly, x.w) <= v);
    }
    assert(cost_is(r, x, v));
    prune_keeps(r, x, v);
}

} // verus!
