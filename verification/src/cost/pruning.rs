//! Pruning a cost does not change what it is anywhere, and neither sums nor maxima lose anything
//! by it.

use vstd::prelude::*;
use crate::cost::algebra::{p_add, p_add_wf, p_value, p_wf, sum_value};
use crate::cost::costs::{all_escapes, c_add, c_add_under, c_max, escapes, opposite, shifted_piece, sum_row, sum_rows};
use crate::cost::laws::{
    cond_true, conds_ok, conds_true, dominates_is_larger, fits_below, grows, has_top, never_less, never_less_both,
    placed, true_is_feasible, Place, Weight,
};
use crate::cost::model::{terms_side_chain, terms_side_same, PolyV};
use crate::cost::piece::{
    able_pieces, c_prune, cond_implied, cond_insert, cond_needed, cond_set, cond_side, distinct, fewer_conds,
    needed_conds, outdone, piece_insert, piece_side, s_feasible, s_simplify, standing, stands, CondV, PieceV,
};
use crate::num::Side;

verus! {

// ---- conditions in order ----

proof fn cond_order(a: CondV, b: CondV)
    ensures
        cond_side(a, b) == Side::Same <==> a == b,
        cond_side(b, a) == cond_side(a, b).flip(),
{
    terms_side_same(a.ws.terms, b.ws.terms);
    assert(a.ws.terms == b.ws.terms ==> a.ws == b.ws);
}

proof fn cond_chain(a: CondV, b: CondV, c: CondV)
    requires
        cond_side(a, b) == Side::Before,
        cond_side(b, c) == Side::Before,
    ensures
        cond_side(a, c) == Side::Before,
{
    terms_side_same(a.ws.terms, b.ws.terms);
    terms_side_same(b.ws.terms, c.ws.terms);
    terms_side_same(a.ws.terms, c.ws.terms);
    if a.ws.terms != b.ws.terms && b.ws.terms != c.ws.terms {
        terms_side_chain(a.ws.terms, b.ws.terms, c.ws.terms);
    }
}

spec fn ascending(s: Seq<CondV>) -> bool {
    forall|i: int, j: int| 0 <= i < j < s.len() ==> cond_side(#[trigger] s[i], #[trigger] s[j]) == Side::Before
}

proof fn insert_ascends(s: Seq<CondV>, c: CondV)
    requires
        ascending(s),
    ensures
        ascending(cond_insert(s, c)),
        forall|x: CondV| #[trigger] cond_insert(s, c).contains(x) <==> s.contains(x) || x == c,
    decreases s.len(),
{
    let r = cond_insert(s, c);
    if s.len() == 0 {
        assert(r[0] == c);
        assert forall|x: CondV| #[trigger] r.contains(x) <==> s.contains(x) || x == c by {
            if x == c {
                assert(r.contains(r[0]));
            }
        }
    } else {
        let n = s.len() - 1;
        cond_order(s.last(), c);
        match cond_side(s.last(), c) {
            Side::Before => {
                assert(r == s.push(c));
                assert forall|i: int, j: int| 0 <= i < j < r.len() implies cond_side(#[trigger] r[i], #[trigger] r[j])
                    == Side::Before by {
                    if j == s.len() && i < n {
                        cond_chain(s[i], s[n], c);
                    }
                }
                assert forall|x: CondV| #[trigger] r.contains(x) <==> s.contains(x) || x == c by {
                    if s.contains(x) {
                        let k = choose|k: int| 0 <= k < s.len() && s[k] == x;
                        assert(r[k] == x);
                    }
                    if x == c {
                        assert(r[s.len() as int] == x);
                    }
                    if r.contains(x) {
                        let k = choose|k: int| 0 <= k < r.len() && r[k] == x;
                        if k < s.len() {
                            assert(s[k] == x);
                        }
                    }
                }
            },
            Side::Same => {
                assert(s[n] == c);
            },
            Side::After => {
                let u = s.drop_last();
                assert(ascending(u)) by {
                    assert forall|i: int, j: int| 0 <= i < j < u.len() implies cond_side(#[trigger] u[i], #[trigger] u[j])
                        == Side::Before by {
                        assert(u[i] == s[i] && u[j] == s[j]);
                    }
                }
                insert_ascends(u, c);
                let t = cond_insert(u, c);
                assert(r == t.push(s.last()));
                assert forall|i: int, j: int| 0 <= i < j < r.len() implies cond_side(#[trigger] r[i], #[trigger] r[j])
                    == Side::Before by {
                    if j == t.len() {
                        assert(t.contains(t[i]));
                        if t[i] != c {
                            assert(u.contains(t[i]));
                            let k = choose|k: int| 0 <= k < u.len() && u[k] == t[i];
                            assert(s[k] == t[i]);
                            assert(cond_side(s[k], s[n]) == Side::Before);
                        } else {
                            cond_order(c, s.last());
                        }
                    }
                }
                assert forall|x: CondV| #[trigger] r.contains(x) <==> s.contains(x) || x == c by {
                    if s.contains(x) {
                        let k = choose|k: int| 0 <= k < s.len() && s[k] == x;
                        if k < n {
                            assert(u[k] == x);
                            assert(t.contains(x));
                            let l = choose|l: int| 0 <= l < t.len() && t[l] == x;
                            assert(r[l] == x);
                        } else {
                            assert(r[t.len() as int] == x);
                        }
                    }
                    if x == c {
                        assert(t.contains(x));
                        let l = choose|l: int| 0 <= l < t.len() && t[l] == x;
                        assert(r[l] == x);
                    }
                    if r.contains(x) {
                        let l = choose|l: int| 0 <= l < r.len() && r[l] == x;
                        if l < t.len() {
                            assert(t.contains(t[l]));
                            if x != c {
                                assert(u.contains(x));
                                let k = choose|k: int| 0 <= k < u.len() && u[k] == x;
                                assert(s[k] == x);
                            }
                        } else {
                            assert(s[n] == x);
                        }
                    }
                }
            },
        }
    }
}

proof fn set_ascends(s: Seq<CondV>)
    ensures
        ascending(cond_set(s)),
        forall|x: CondV| #[trigger] cond_set(s).contains(x) <==> s.contains(x),
    decreases s.len(),
{
    if s.len() > 0 {
        let u = s.drop_last();
        set_ascends(u);
        insert_ascends(cond_set(u), s.last());
        assert forall|x: CondV| #[trigger] cond_set(s).contains(x) <==> s.contains(x) by {
            if s.contains(x) {
                let k = choose|k: int| 0 <= k < s.len() && s[k] == x;
                if k < u.len() {
                    assert(u[k] == x);
                }
            }
            if u.contains(x) {
                let k = choose|k: int| 0 <= k < u.len() && u[k] == x;
                assert(s[k] == x);
            }
            if x == s.last() {
                assert(s[s.len() - 1] == x);
            }
        }
    }
}

proof fn needed_members(s: Seq<CondV>, n: nat)
    requires
        n <= s.len(),
        ascending(s),
    ensures
        forall|x: CondV|
            #[trigger] needed_conds(s, n).contains(x) <==> exists|k: int| 0 <= k < n && #[trigger] s[k] == x && cond_needed(s, x),
        needed_conds(s, n).no_duplicates(),
    decreases n,
{
    let r = needed_conds(s, n);
    if n == 0 {
        assert(r =~= Seq::empty());
    } else {
        let b = needed_conds(s, (n - 1) as nat);
        needed_members(s, (n - 1) as nat);
        assert forall|x: CondV|
            #[trigger] r.contains(x) <==> exists|k: int| 0 <= k < n && #[trigger] s[k] == x && cond_needed(s, x) by {
            if r.contains(x) {
                let l = choose|l: int| 0 <= l < r.len() && r[l] == x;
                if l < b.len() {
                    assert(b.contains(b[l]));
                    let k = choose|k: int| 0 <= k < n - 1 && #[trigger] s[k] == x && cond_needed(s, x);
                    assert(s[k] == x);
                } else {
                    assert(s[n - 1] == x);
                }
            }
            if exists|k: int| 0 <= k < n && #[trigger] s[k] == x && cond_needed(s, x) {
                let k = choose|k: int| 0 <= k < n && #[trigger] s[k] == x && cond_needed(s, x);
                if k < n - 1 {
                    assert(b.contains(x));
                    let l = choose|l: int| 0 <= l < b.len() && b[l] == x;
                    assert(r[l] == x);
                } else {
                    assert(r[b.len() as int] == x);
                }
            }
        }
        if cond_needed(s, s[n - 1]) {
            assert(!b.contains(s[n - 1])) by {
                if b.contains(s[n - 1]) {
                    let k = choose|k: int| 0 <= k < n - 1 && #[trigger] s[k] == s[n - 1] && cond_needed(s, s[n - 1]);
                    cond_order(s[k], s[n - 1]);
                    assert(cond_side(s[k], s[n - 1]) == Side::Before);
                }
            }
        }
    }
}

/// What a condition follows from, in what it says of all sizes.
spec fn says_more(d: CondV, c: CondV) -> bool {
    c.fits == d.fits && if c.fits {
        never_less(d.ws, c.ws)
    } else {
        never_less(c.ws, d.ws)
    }
}

proof fn says_more_true(d: CondV, c: CondV, x: Place)
    requires
        placed(x),
        says_more(d, c),
        cond_true(d, x),
    ensures
        cond_true(c, x),
{
    let (a, b) = (p_value(d.ws, x.w), p_value(c.ws, x.w));
    assert(grows(x.w));
    if c.fits {
        fits_below(a, b, x);
    } else if b * x.b < x.m {
        fits_below(b, a, x);
    }
}

proof fn implied_says(c: CondV, d: CondV)
    requires
        p_wf(c.ws),
        p_wf(d.ws),
        cond_implied(c, d),
    ensures
        says_more(d, c),
        !says_more(c, d),
{
    if c.fits {
        assert forall|w: Weight| #[trigger] grows(w) implies p_value(d.ws, w) >= p_value(c.ws, w) by {
            dominates_is_larger(d.ws, c.ws, w);
        }
    } else {
        assert forall|w: Weight| #[trigger] grows(w) implies p_value(c.ws, w) >= p_value(d.ws, w) by {
            dominates_is_larger(c.ws, d.ws, w);
        }
    }
    if says_more(c, d) {
        never_less_both(c.ws, d.ws);
    }
}

proof fn never_less_chain(p: PolyV, q: PolyV, r: PolyV)
    requires
        never_less(p, q),
        never_less(q, r),
    ensures
        never_less(p, r),
{
    assert forall|w: Weight| #[trigger] grows(w) implies p_value(p, w) >= p_value(r, w) by {
        assert(p_value(p, w) >= p_value(q, w));
        assert(p_value(q, w) >= p_value(r, w));
    }
}

proof fn says_chain(a: CondV, b: CondV, c: CondV)
    requires
        says_more(a, b),
        says_more(b, c),
    ensures
        says_more(a, c),
{
    if a.fits {
        never_less_chain(a.ws, b.ws, c.ws);
    } else {
        never_less_chain(c.ws, b.ws, a.ws);
    }
}

/// The conditions that are left say what all of them said.
pub proof fn simplify_keeps(s: Seq<CondV>, x: Place)
    requires
        conds_ok(s),
        placed(x),
    ensures
        conds_true(s_simplify(s), x) <==> conds_true(s, x),
{
    let c = cond_set(s);
    let r = s_simplify(s);
    set_ascends(s);
    needed_members(c, c.len());
    assert forall|i: int| 0 <= i < c.len() implies p_wf((#[trigger] c[i]).ws) by {
        assert(c.contains(c[i]));
        let k = choose|k: int| 0 <= k < s.len() && s[k] == c[i];
        assert(p_wf(s[k].ws));
    }
    if conds_true(s, x) {
        assert forall|i: int| 0 <= i < r.len() implies cond_true(#[trigger] r[i], x) by {
            assert(r.contains(r[i]));
            let k = choose|k: int| 0 <= k < c.len() && #[trigger] c[k] == r[i] && cond_needed(c, r[i]);
            assert(c.contains(c[k]));
            let l = choose|l: int| 0 <= l < s.len() && s[l] == r[i];
            assert(cond_true(s[l], x));
        }
    }
    if conds_true(r, x) {
        let b = |j: int, i: int| says_more(c[j], c[i]) && !says_more(c[i], c[j]);
        assert forall|i: int, j: int, k: int|
            0 <= i < c.len() && 0 <= j < c.len() && 0 <= k < c.len() && #[trigger] b(i, j) && #[trigger] b(j, k) implies b(
            i,
            k,
        ) by {
            says_chain(c[i], c[j], c[k]);
            if says_more(c[k], c[i]) {
                says_chain(c[j], c[k], c[i]);
            }
        }
        assert forall|l: int| 0 <= l < s.len() implies cond_true(#[trigger] s[l], x) by {
            assert(s.contains(s[l]));
            assert(c.contains(s[l]));
            let i = choose|i: int| 0 <= i < c.len() && c[i] == s[l];
            let j = has_top(c.len(), b, i);
            assert(cond_needed(c, c[j])) by {
                assert forall|k: int| 0 <= k < c.len() implies !cond_implied(c[j], #[trigger] c[k]) by {
                    if cond_implied(c[j], c[k]) {
                        implied_says(c[j], c[k]);
                        assert(b(k, j));
                    }
                }
            }
            assert(c[j] == c[j]);
            assert(r.contains(c[j]));
            let q = choose|q: int| 0 <= q < r.len() && r[q] == c[j];
            assert(cond_true(r[q], x));
            if j != i {
                says_more_true(c[j], c[i], x);
            }
        }
    }
}

// ---- pieces ----

pub open spec fn pieces_ok(s: Seq<PieceV>) -> bool {
    forall|i: int| 0 <= i < s.len() ==> p_wf((#[trigger] s[i]).poly) && conds_ok(s[i].conds)
}

/// The cost is `v` at the place: the greatest value of a piece whose conditions hold.
pub open spec fn cost_is(s: Seq<PieceV>, x: Place, v: real) -> bool {
    &&& exists|i: int| 0 <= i < s.len() && conds_true((#[trigger] s[i]).conds, x) && p_value(s[i].poly, x.w) == v
    &&& forall|i: int| 0 <= i < s.len() && conds_true((#[trigger] s[i]).conds, x) ==> p_value(s[i].poly, x.w) <= v
}

proof fn insert_members(s: Seq<PieceV>, p: PieceV)
    ensures
        forall|y: PieceV| #[trigger] piece_insert(s, p).contains(y) <==> s.contains(y) || y == p,
    decreases s.len(),
{
    let r = piece_insert(s, p);
    if s.len() == 0 || piece_side(s.last(), p) != Side::After {
        assert forall|y: PieceV| #[trigger] r.contains(y) <==> s.contains(y) || y == p by {
            if s.contains(y) {
                let k = choose|k: int| 0 <= k < s.len() && s[k] == y;
                assert(r[k] == y);
            }
            if y == p {
                assert(r[s.len() as int] == y);
            }
            if r.contains(y) {
                let k = choose|k: int| 0 <= k < r.len() && r[k] == y;
                if k < s.len() {
                    assert(s[k] == y);
                }
            }
        }
    } else {
        let u = s.drop_last();
        insert_members(u, p);
        let t = piece_insert(u, p);
        assert forall|y: PieceV| #[trigger] r.contains(y) <==> s.contains(y) || y == p by {
            if s.contains(y) {
                let k = choose|k: int| 0 <= k < s.len() && s[k] == y;
                if k < u.len() {
                    assert(u[k] == y);
                    assert(t.contains(y));
                    let l = choose|l: int| 0 <= l < t.len() && t[l] == y;
                    assert(r[l] == y);
                } else {
                    assert(r[t.len() as int] == y);
                }
            }
            if y == p {
                assert(t.contains(y));
                let l = choose|l: int| 0 <= l < t.len() && t[l] == y;
                assert(r[l] == y);
            }
            if r.contains(y) {
                let l = choose|l: int| 0 <= l < r.len() && r[l] == y;
                if l < t.len() {
                    assert(t.contains(t[l]));
                    if y != p {
                        assert(u.contains(y));
                        let k = choose|k: int| 0 <= k < u.len() && u[k] == y;
                        assert(s[k] == y);
                    }
                } else {
                    assert(s[s.len() - 1] == y);
                }
            }
        }
    }
}

spec fn simplified(p: PieceV) -> PieceV {
    PieceV { conds: s_simplify(p.conds), poly: p.poly }
}

proof fn able_members(s: Seq<PieceV>)
    ensures
        forall|y: PieceV|
            #[trigger] able_pieces(s).contains(y) <==> exists|k: int|
                0 <= k < s.len() && s_feasible((#[trigger] s[k]).conds) && y == simplified(s[k]),
    decreases s.len(),
{
    let r = able_pieces(s);
    if s.len() > 0 {
        let u = s.drop_last();
        let n = s.len() - 1;
        able_members(u);
        insert_members(able_pieces(u), simplified(s.last()));
        assert forall|y: PieceV|
            #[trigger] r.contains(y) <==> exists|k: int|
                0 <= k < s.len() && s_feasible((#[trigger] s[k]).conds) && y == simplified(s[k]) by {
            if r.contains(y) {
                if able_pieces(u).contains(y) {
                    let k = choose|k: int|
                        0 <= k < u.len() && s_feasible((#[trigger] u[k]).conds) && y == simplified(u[k]);
                    assert(s[k] == u[k]);
                } else {
                    assert(s[n] == s.last());
                }
            }
            if exists|k: int| 0 <= k < s.len() && s_feasible((#[trigger] s[k]).conds) && y == simplified(s[k]) {
                let k = choose|k: int| 0 <= k < s.len() && s_feasible((#[trigger] s[k]).conds) && y == simplified(s[k]);
                if k < n {
                    assert(u[k] == s[k]);
                    assert(able_pieces(u).contains(y));
                }
            }
        }
    }
}

proof fn distinct_members(s: Seq<PieceV>)
    ensures
        forall|y: PieceV| #[trigger] distinct(s).contains(y) <==> s.contains(y),
    decreases s.len(),
{
    if s.len() > 0 {
        let u = s.drop_last();
        let b = distinct(u);
        let r = distinct(s);
        distinct_members(u);
        assert forall|y: PieceV| #[trigger] r.contains(y) <==> s.contains(y) by {
            if s.contains(y) {
                let k = choose|k: int| 0 <= k < s.len() && s[k] == y;
                if k < u.len() {
                    assert(u[k] == y);
                    assert(b.contains(y));
                    let l = choose|l: int| 0 <= l < b.len() && b[l] == y;
                    assert(r[l] == y);
                } else {
                    assert(r[r.len() - 1] == y);
                }
            }
            if r.contains(y) {
                let l = choose|l: int| 0 <= l < r.len() && r[l] == y;
                if l < b.len() {
                    assert(b.contains(b[l]));
                    let k = choose|k: int| 0 <= k < u.len() && u[k] == y;
                    assert(s[k] == y);
                } else {
                    assert(s[s.len() - 1] == y);
                }
            }
        }
    }
}

proof fn standing_members(s: Seq<PieceV>, n: nat)
    requires
        n <= s.len(),
    ensures
        forall|y: PieceV|
            #[trigger] standing(s, n).contains(y) <==> exists|k: int| 0 <= k < n && #[trigger] s[k] == y && stands(s, k),
    decreases n,
{
    let r = standing(s, n);
    if n > 0 {
        let b = standing(s, (n - 1) as nat);
        standing_members(s, (n - 1) as nat);
        assert forall|y: PieceV|
            #[trigger] r.contains(y) <==> exists|k: int| 0 <= k < n && #[trigger] s[k] == y && stands(s, k) by {
            if r.contains(y) {
                let l = choose|l: int| 0 <= l < r.len() && r[l] == y;
                if l < b.len() {
                    assert(b.contains(b[l]));
                    let k = choose|k: int| 0 <= k < n - 1 && #[trigger] s[k] == y && stands(s, k);
                    assert(s[k] == y);
                } else {
                    assert(s[n - 1] == y);
                }
            }
            if exists|k: int| 0 <= k < n && #[trigger] s[k] == y && stands(s, k) {
                let k = choose|k: int| 0 <= k < n && #[trigger] s[k] == y && stands(s, k);
                if k < n - 1 {
                    assert(b.contains(y));
                    let l = choose|l: int| 0 <= l < b.len() && b[l] == y;
                    assert(r[l] == y);
                } else {
                    assert(r[b.len() as int] == y);
                }
            }
        }
    }
}

/// Piece `j` holds wherever `i` does and is at least as large, in what they say of all sizes.
spec fn as_good(d: Seq<PieceV>, j: int, i: int) -> bool {
    fewer_conds(d[j], d[i]) && never_less(d[j].poly, d[i].poly)
}

/// Piece `j` is preferred to `i`: it is better, or as good with fewer conditions or an earlier
/// place.
spec fn preferred(d: Seq<PieceV>, j: int, i: int) -> bool {
    as_good(d, j, i) && (!as_good(d, i, j) || d[j].conds.len() < d[i].conds.len() || (d[j].conds.len()
        == d[i].conds.len() && j < i))
}

proof fn as_good_chain(d: Seq<PieceV>, a: int, b: int, c: int)
    requires
        as_good(d, a, b),
        as_good(d, b, c),
    ensures
        as_good(d, a, c),
{
    never_less_chain(d[a].poly, d[b].poly, d[c].poly);
    assert forall|i: int| 0 <= i < d[a].conds.len() implies d[c].conds.contains(#[trigger] d[a].conds[i]) by {
        assert(d[b].conds.contains(d[a].conds[i]));
        let k = choose|k: int| 0 <= k < d[b].conds.len() && d[b].conds[k] == d[a].conds[i];
        assert(d[c].conds.contains(d[b].conds[k]));
    }
}

proof fn fewer_is_shorter(b: PieceV, a: PieceV)
    requires
        fewer_conds(b, a),
        b.conds.no_duplicates(),
    ensures
        b.conds.len() <= a.conds.len(),
{
    let (x, y) = (b.conds.to_set(), a.conds.to_set());
    b.conds.unique_seq_to_set();
    assert(x.subset_of(y)) by {
        assert forall|c: CondV| x.contains(c) implies y.contains(c) by {
            let k = choose|k: int| 0 <= k < b.conds.len() && b.conds[k] == c;
            assert(a.conds.contains(b.conds[k]));
        }
    }
    a.conds.lemma_cardinality_of_set();
    vstd::set_lib::lemma_len_subset(x, y);
}

proof fn outdone_is_preferred(d: Seq<PieceV>, i: int, j: int)
    requires
        pieces_ok(d),
        forall|k: int| 0 <= k < d.len() ==> (#[trigger] d[k]).conds.no_duplicates(),
        0 <= i < d.len(),
        0 <= j < d.len(),
        outdone(d, i, j),
    ensures
        preferred(d, j, i),
{
    assert forall|w: Weight| #[trigger] grows(w) implies p_value(d[j].poly, w) >= p_value(d[i].poly, w) by {
        dominates_is_larger(d[j].poly, d[i].poly, w);
    }
    if as_good(d, i, j) {
        never_less_both(d[i].poly, d[j].poly);
        fewer_is_shorter(d[j], d[i]);
    }
}

proof fn fewer_true(b: PieceV, a: PieceV, x: Place)
    requires
        fewer_conds(b, a),
        conds_true(a.conds, x),
    ensures
        conds_true(b.conds, x),
{
    assert forall|i: int| 0 <= i < b.conds.len() implies cond_true(#[trigger] b.conds[i], x) by {
        assert(a.conds.contains(b.conds[i]));
        let k = choose|k: int| 0 <= k < a.conds.len() && a.conds[k] == b.conds[i];
        assert(cond_true(a.conds[k], x));
    }
}

proof fn simplify_ok(s: Seq<CondV>)
    requires
        conds_ok(s),
    ensures
        conds_ok(s_simplify(s)),
        s_simplify(s).no_duplicates(),
{
    let c = cond_set(s);
    let r = s_simplify(s);
    set_ascends(s);
    needed_members(c, c.len());
    assert forall|i: int| 0 <= i < r.len() implies p_wf((#[trigger] r[i]).ws) by {
        assert(r.contains(r[i]));
        let k = choose|k: int| 0 <= k < c.len() && #[trigger] c[k] == r[i] && cond_needed(c, r[i]);
        assert(c.contains(c[k]));
        let l = choose|l: int| 0 <= l < s.len() && s[l] == r[i];
        assert(p_wf(s[l].ws));
    }
}

/// Each piece that holds is met by one that stands, holds too and is at least as large.
proof fn standing_covers(d: Seq<PieceV>, i: int, x: Place) -> (j: int)
    requires
        placed(x),
        pieces_ok(d),
        forall|k: int| 0 <= k < d.len() ==> (#[trigger] d[k]).conds.no_duplicates(),
        0 <= i < d.len(),
        conds_true(d[i].conds, x),
    ensures
        0 <= j < d.len(),
        stands(d, j),
        conds_true(d[j].conds, x),
        p_value(d[j].poly, x.w) >= p_value(d[i].poly, x.w),
{
    let b = |j: int, i: int| preferred(d, j, i);
    assert forall|p: int, q: int, r: int|
        0 <= p < d.len() && 0 <= q < d.len() && 0 <= r < d.len() && #[trigger] b(p, q) && #[trigger] b(q, r) implies b(
        p,
        r,
    ) by {
        as_good_chain(d, p, q, r);
        if as_good(d, r, p) {
            as_good_chain(d, r, p, q);
            as_good_chain(d, q, r, p);
        }
    }
    let j = has_top(d.len(), b, i);
    assert forall|k: int| 0 <= k < d.len() implies !#[trigger] outdone(d, j, k) by {
        if outdone(d, j, k) {
            outdone_is_preferred(d, j, k);
            assert(b(k, j));
        }
    }
    if j != i {
        assert(b(j, i));
        fewer_true(d[j], d[i], x);
        assert(grows(x.w));
    }
    j
}

/// Pruning keeps the cost: at every place it is what it was.
pub proof fn prune_keeps(s: Seq<PieceV>, x: Place, v: real)
    requires
        pieces_ok(s),
        placed(x),
        cost_is(s, x, v),
    ensures
        cost_is(c_prune(s), x, v),
{
    reveal(c_prune);
    let a = able_pieces(s);
    let d = distinct(a);
    let r = standing(d, d.len());
    able_members(s);
    distinct_members(a);
    standing_members(d, d.len());
    // every piece of `d` is a simplified piece of `s`
    assert forall|k: int| 0 <= k < d.len() implies exists|l: int|
        0 <= l < s.len() && s_feasible((#[trigger] s[l]).conds) && #[trigger] d[k] == simplified(s[l]) by {
        assert(d.contains(d[k]));
        assert(a.contains(d[k]));
    }
    assert(pieces_ok(d) && forall|k: int| 0 <= k < d.len() ==> (#[trigger] d[k]).conds.no_duplicates()) by {
        assert forall|k: int| 0 <= k < d.len() implies p_wf((#[trigger] d[k]).poly) && conds_ok(d[k].conds)
            && d[k].conds.no_duplicates() by {
            let l = choose|l: int| 0 <= l < s.len() && s_feasible((#[trigger] s[l]).conds) && d[k] == simplified(s[l]);
            assert(p_wf(s[l].poly) && conds_ok(s[l].conds));
            simplify_ok(s[l].conds);
        }
    }
    // the piece that gives `v` is met
    let i = choose|i: int| 0 <= i < s.len() && conds_true((#[trigger] s[i]).conds, x) && p_value(s[i].poly, x.w) == v;
    assert(conds_ok(s[i].conds));
    true_is_feasible(s[i].conds, x);
    simplify_keeps(s[i].conds, x);
    assert(a.contains(simplified(s[i])));
    assert(d.contains(simplified(s[i])));
    let k = choose|k: int| 0 <= k < d.len() && d[k] == simplified(s[i]);
    let j = standing_covers(d, k, x);
    assert(d[j] == d[j]);
    assert(r.contains(d[j]));
    let q = choose|q: int| 0 <= q < r.len() && r[q] == d[j];
    // no piece that holds is larger
    assert forall|n: int| 0 <= n < r.len() && conds_true((#[trigger] r[n]).conds, x) implies p_value(r[n].poly, x.w)
        <= v by {
        assert(r.contains(r[n]));
        let k2 = choose|k2: int| 0 <= k2 < d.len() && #[trigger] d[k2] == r[n] && stands(d, k2);
        let l = choose|l: int| 0 <= l < s.len() && s_feasible((#[trigger] s[l]).conds) && d[k2] == simplified(s[l]);
        assert(conds_ok(s[l].conds));
        simplify_keeps(s[l].conds, x);
        assert(p_value(s[l].poly, x.w) <= v);
    }
    assert(conds_true(r[q].conds, x));
    assert(p_value(r[q].poly, x.w) <= v);
}

/// Pruning leaves canonical pieces.
pub proof fn prune_ok(s: Seq<PieceV>)
    requires
        pieces_ok(s),
    ensures
        pieces_ok(c_prune(s)),
{
    reveal(c_prune);
    let a = able_pieces(s);
    let d = distinct(a);
    let r = standing(d, d.len());
    able_members(s);
    distinct_members(a);
    standing_members(d, d.len());
    assert forall|n: int| 0 <= n < r.len() implies p_wf((#[trigger] r[n]).poly) && conds_ok(r[n].conds) by {
        assert(r.contains(r[n]));
        let k = choose|k: int| 0 <= k < d.len() && #[trigger] d[k] == r[n] && stands(d, k);
        assert(d.contains(d[k]));
        assert(a.contains(d[k]));
        let l = choose|l: int| 0 <= l < s.len() && s_feasible((#[trigger] s[l]).conds) && d[k] == simplified(s[l]);
        assert(p_wf(s[l].poly) && conds_ok(s[l].conds));
        simplify_ok(s[l].conds);
    }
    crate::cost::turns::zero_wf();
}

// ---- sums and maxima ----

/// The larger of two costs is the larger of what they are.
pub proof fn max_is(s: Seq<PieceV>, t: Seq<PieceV>, x: Place, u: real, v: real)
    requires
        pieces_ok(s),
        pieces_ok(t),
        placed(x),
        cost_is(s, x, u),
        cost_is(t, x, v),
    ensures
        cost_is(
            c_max(s, t),
            x,
            if u < v {
                v
            } else {
                u
            },
        ),
{
    let b = s + t;
    let top = if u < v {
        v
    } else {
        u
    };
    assert(pieces_ok(b)) by {
        assert forall|i: int| 0 <= i < b.len() implies p_wf((#[trigger] b[i]).poly) && conds_ok(b[i].conds) by {
            if i < s.len() {
                assert(b[i] == s[i]);
            } else {
                assert(b[i] == t[i - s.len()]);
            }
        }
    }
    assert(cost_is(b, x, top)) by {
        let i = choose|i: int| 0 <= i < s.len() && conds_true((#[trigger] s[i]).conds, x) && p_value(s[i].poly, x.w) == u;
        let j = choose|j: int| 0 <= j < t.len() && conds_true((#[trigger] t[j]).conds, x) && p_value(t[j].poly, x.w) == v;
        assert(b[i] == s[i]);
        assert(b[s.len() + j] == t[j]);
        assert forall|k: int| 0 <= k < b.len() && conds_true((#[trigger] b[k]).conds, x) implies p_value(b[k].poly, x.w)
            <= top by {
            if k < s.len() {
                assert(b[k] == s[k]);
            } else {
                assert(b[k] == t[k - s.len()]);
            }
        }
    }
    prune_keeps(b, x, top);
}

spec fn summed(a: PieceV, b: PieceV) -> PieceV {
    PieceV { conds: a.conds + b.conds, poly: p_add(a.poly, b.poly) }
}

proof fn row_members(a: PieceV, t: Seq<PieceV>)
    ensures
        forall|y: PieceV|
            #[trigger] sum_row(a, t).contains(y) <==> exists|k: int|
                0 <= k < t.len() && s_feasible(a.conds + (#[trigger] t[k]).conds) && y == summed(a, t[k]),
    decreases t.len(),
{
    let r = sum_row(a, t);
    if t.len() > 0 {
        let u = t.drop_last();
        let n = t.len() - 1;
        let b = sum_row(a, u);
        row_members(a, u);
        assert forall|y: PieceV|
            #[trigger] r.contains(y) <==> exists|k: int|
                0 <= k < t.len() && s_feasible(a.conds + (#[trigger] t[k]).conds) && y == summed(a, t[k]) by {
            if r.contains(y) {
                let l = choose|l: int| 0 <= l < r.len() && r[l] == y;
                if l < b.len() {
                    assert(b.contains(b[l]));
                    let k = choose|k: int|
                        0 <= k < u.len() && s_feasible(a.conds + (#[trigger] u[k]).conds) && y == summed(a, u[k]);
                    assert(t[k] == u[k]);
                } else {
                    assert(t[n] == t.last());
                }
            }
            if exists|k: int| 0 <= k < t.len() && s_feasible(a.conds + (#[trigger] t[k]).conds) && y == summed(a, t[k]) {
                let k = choose|k: int|
                    0 <= k < t.len() && s_feasible(a.conds + (#[trigger] t[k]).conds) && y == summed(a, t[k]);
                if k < n {
                    assert(u[k] == t[k]);
                    assert(b.contains(y));
                    let l = choose|l: int| 0 <= l < b.len() && b[l] == y;
                    assert(r[l] == y);
                } else {
                    assert(r[b.len() as int] == y);
                }
            }
        }
    }
}

proof fn rows_members(s: Seq<PieceV>, t: Seq<PieceV>)
    ensures
        forall|y: PieceV|
            #[trigger] sum_rows(s, t).contains(y) <==> exists|i: int, k: int|
                0 <= i < s.len() && 0 <= k < t.len() && s_feasible((#[trigger] s[i]).conds + (#[trigger] t[k]).conds) && y
                    == summed(s[i], t[k]),
    decreases s.len(),
{
    let r = sum_rows(s, t);
    if s.len() > 0 {
        let u = s.drop_last();
        let n = s.len() - 1;
        let b = sum_rows(u, t);
        let c = sum_row(s.last(), t);
        rows_members(u, t);
        row_members(s.last(), t);
        assert forall|y: PieceV|
            #[trigger] r.contains(y) <==> exists|i: int, k: int|
                0 <= i < s.len() && 0 <= k < t.len() && s_feasible((#[trigger] s[i]).conds + (#[trigger] t[k]).conds) && y
                    == summed(s[i], t[k]) by {
            if r.contains(y) {
                let l = choose|l: int| 0 <= l < r.len() && r[l] == y;
                if l < b.len() {
                    assert(b.contains(b[l]));
                    let (i, k) = choose|i: int, k: int|
                        0 <= i < u.len() && 0 <= k < t.len() && s_feasible(
                            (#[trigger] u[i]).conds + (#[trigger] t[k]).conds,
                        ) && y == summed(u[i], t[k]);
                    assert(s[i] == u[i]);
                } else {
                    assert(c[l - b.len()] == y);
                    assert(c.contains(y));
                    let k = choose|k: int|
                        0 <= k < t.len() && s_feasible(s.last().conds + (#[trigger] t[k]).conds) && y == summed(
                            s.last(),
                            t[k],
                        );
                    assert(s[n] == s.last());
                }
            }
            if exists|i: int, k: int|
                0 <= i < s.len() && 0 <= k < t.len() && s_feasible((#[trigger] s[i]).conds + (#[trigger] t[k]).conds) && y
                    == summed(s[i], t[k]) {
                let (i, k) = choose|i: int, k: int|
                    0 <= i < s.len() && 0 <= k < t.len() && s_feasible((#[trigger] s[i]).conds + (#[trigger] t[k]).conds)
                        && y == summed(s[i], t[k]);
                if i < n {
                    assert(u[i] == s[i]);
                    assert(b.contains(y));
                    let l = choose|l: int| 0 <= l < b.len() && b[l] == y;
                    assert(r[l] == y);
                } else {
                    assert(c.contains(y));
                    let l = choose|l: int| 0 <= l < c.len() && c[l] == y;
                    assert(r[b.len() + l] == y);
                }
            }
        }
    }
}

proof fn both_true(a: Seq<CondV>, b: Seq<CondV>, x: Place)
    ensures
        conds_true(a + b, x) <==> conds_true(a, x) && conds_true(b, x),
{
    let c = a + b;
    if conds_true(c, x) {
        assert forall|i: int| 0 <= i < a.len() implies cond_true(#[trigger] a[i], x) by {
            assert(c[i] == a[i]);
        }
        assert forall|i: int| 0 <= i < b.len() implies cond_true(#[trigger] b[i], x) by {
            assert(c[a.len() + i] == b[i]);
        }
    }
    if conds_true(a, x) && conds_true(b, x) {
        assert forall|i: int| 0 <= i < c.len() implies cond_true(#[trigger] c[i], x) by {
            if i < a.len() {
                assert(c[i] == a[i]);
            } else {
                assert(c[i] == b[i - a.len()]);
            }
        }
    }
}

/// A sum of canonical pieces is one.
pub proof fn sum_ok(s: Seq<PieceV>, t: Seq<PieceV>)
    requires
        pieces_ok(s),
        pieces_ok(t),
    ensures
        pieces_ok(c_add(s, t)),
{
    let r = sum_rows(s, t);
    rows_members(s, t);
    assert forall|n: int| 0 <= n < r.len() implies p_wf((#[trigger] r[n]).poly) && conds_ok(r[n].conds) by {
        assert(r.contains(r[n]));
        let (i, k) = choose|i: int, k: int|
            0 <= i < s.len() && 0 <= k < t.len() && s_feasible((#[trigger] s[i]).conds + (#[trigger] t[k]).conds) && r[n]
                == summed(s[i], t[k]);
        assert(p_wf(s[i].poly) && p_wf(t[k].poly));
        assert(conds_ok(s[i].conds) && conds_ok(t[k].conds));
        crate::cost::algebra::p_add_wf(s[i].poly, t[k].poly);
        assert forall|c: int| 0 <= c < r[n].conds.len() implies p_wf((#[trigger] r[n].conds[c]).ws) by {
            if c < s[i].conds.len() {
                assert(r[n].conds[c] == s[i].conds[c]);
            } else {
                assert(r[n].conds[c] == t[k].conds[c - s[i].conds.len()]);
            }
        }
    }
    prune_ok(r);
}

/// The sum of two costs is the sum of what they are.
pub proof fn sum_is(s: Seq<PieceV>, t: Seq<PieceV>, x: Place, u: real, v: real)
    requires
        pieces_ok(s),
        pieces_ok(t),
        placed(x),
        cost_is(s, x, u),
        cost_is(t, x, v),
    ensures
        cost_is(c_add(s, t), x, u + v),
{
    let r = sum_rows(s, t);
    rows_members(s, t);
    assert(pieces_ok(r)) by {
        assert forall|n: int| 0 <= n < r.len() implies p_wf((#[trigger] r[n]).poly) && conds_ok(r[n].conds) by {
            assert(r.contains(r[n]));
            let (i, k) = choose|i: int, k: int|
                0 <= i < s.len() && 0 <= k < t.len() && s_feasible((#[trigger] s[i]).conds + (#[trigger] t[k]).conds)
                    && r[n] == summed(s[i], t[k]);
            assert(p_wf(s[i].poly) && p_wf(t[k].poly));
            crate::cost::algebra::p_add_wf(s[i].poly, t[k].poly);
            assert forall|c: int| 0 <= c < r[n].conds.len() implies p_wf((#[trigger] r[n].conds[c]).ws) by {
                if c < s[i].conds.len() {
                    assert(r[n].conds[c] == s[i].conds[c]);
                } else {
                    assert(r[n].conds[c] == t[k].conds[c - s[i].conds.len()]);
                }
            }
        }
    }
    assert(cost_is(r, x, u + v)) by {
        let i = choose|i: int| 0 <= i < s.len() && conds_true((#[trigger] s[i]).conds, x) && p_value(s[i].poly, x.w) == u;
        let k = choose|k: int| 0 <= k < t.len() && conds_true((#[trigger] t[k]).conds, x) && p_value(t[k].poly, x.w) == v;
        both_true(s[i].conds, t[k].conds, x);
        let c = s[i].conds + t[k].conds;
        assert(conds_ok(c)) by {
            assert forall|n: int| 0 <= n < c.len() implies p_wf((#[trigger] c[n]).ws) by {
                if n < s[i].conds.len() {
                    assert(c[n] == s[i].conds[n]);
                } else {
                    assert(c[n] == t[k].conds[n - s[i].conds.len()]);
                }
            }
        }
        true_is_feasible(c, x);
        assert(r.contains(summed(s[i], t[k])));
        let l = choose|l: int| 0 <= l < r.len() && r[l] == summed(s[i], t[k]);
        sum_value(s[i].poly, t[k].poly, x.w);
        assert(conds_true(r[l].conds, x));
        assert forall|n: int| 0 <= n < r.len() && conds_true((#[trigger] r[n]).conds, x) implies p_value(r[n].poly, x.w)
            <= u + v by {
            assert(r.contains(r[n]));
            let (i2, k2) = choose|i2: int, k2: int|
                0 <= i2 < s.len() && 0 <= k2 < t.len() && s_feasible((#[trigger] s[i2]).conds + (#[trigger] t[k2]).conds)
                    && r[n] == summed(s[i2], t[k2]);
            both_true(s[i2].conds, t[k2].conds, x);
            sum_value(s[i2].poly, t[k2].poly, x.w);
            assert(p_value(s[i2].poly, x.w) <= u);
            assert(p_value(t[k2].poly, x.w) <= v);
        }
    }
    prune_keeps(r, x, u + v);
}

// ---- a shift under conditions ----

proof fn escapes_members(p: PieceV, conds: Seq<CondV>, n: nat)
    requires
        n <= conds.len(),
    ensures
        forall|y: PieceV|
            #[trigger] escapes(p, conds, n).contains(y) <==> exists|k: int|
                0 <= k < n && s_feasible(p.conds.push(opposite(#[trigger] conds[k]))) && y == escape(p, conds[k]),
    decreases n,
{
    if n > 0 {
        let before = escapes(p, conds, (n - 1) as nat);
        let r = escapes(p, conds, n);
        escapes_members(p, conds, (n - 1) as nat);
        assert forall|y: PieceV|
            #[trigger] r.contains(y) <==> exists|k: int|
                0 <= k < n && s_feasible(p.conds.push(opposite(#[trigger] conds[k]))) && y == escape(p, conds[k]) by {
            if r.contains(y) {
                let j = choose|j: int| 0 <= j < r.len() && r[j] == y;
                if j < before.len() {
                    assert(before.contains(before[j]));
                    let k = choose|k: int|
                        0 <= k < n - 1 && s_feasible(p.conds.push(opposite(#[trigger] conds[k]))) && y == escape(
                            p,
                            conds[k],
                        );
                    assert(s_feasible(p.conds.push(opposite(conds[k]))));
                } else {
                    assert(y == escape(p, conds[n - 1]));
                }
            }
            if exists|k: int|
                0 <= k < n && s_feasible(p.conds.push(opposite(#[trigger] conds[k]))) && y == escape(p, conds[k]) {
                let k = choose|k: int|
                    0 <= k < n && s_feasible(p.conds.push(opposite(#[trigger] conds[k]))) && y == escape(p, conds[k]);
                if k < n - 1 {
                    assert(before.contains(y));
                    let j = choose|j: int| 0 <= j < before.len() && before[j] == y;
                    assert(r[j] == y);
                } else {
                    assert(r[r.len() - 1] == y);
                }
            }
        }
    }
}

spec fn escape(p: PieceV, c: CondV) -> PieceV {
    PieceV { conds: p.conds.push(opposite(c)), poly: p.poly }
}

/// A piece and a condition that it escapes.
spec fn escaped(s: Seq<PieceV>, conds: Seq<CondV>, i: int, k: int, y: PieceV) -> bool {
    0 <= i < s.len() && 0 <= k < conds.len() && s_feasible(s[i].conds.push(opposite(conds[k]))) && y == escape(
        s[i],
        conds[k],
    )
}

proof fn all_escapes_members(s: Seq<PieceV>, conds: Seq<CondV>)
    ensures
        forall|y: PieceV|
            #[trigger] all_escapes(s, conds).contains(y) <==> exists|i: int, k: int| #[trigger]
                escaped(s, conds, i, k, y),
    decreases s.len(),
{
    if s.len() > 0 {
        let u = s.drop_last();
        let n = s.len() - 1;
        let (a, b) = (all_escapes(u, conds), escapes(s.last(), conds, conds.len()));
        let r = all_escapes(s, conds);
        all_escapes_members(u, conds);
        escapes_members(s.last(), conds, conds.len());
        assert forall|y: PieceV|
            #[trigger] r.contains(y) <==> exists|i: int, k: int| #[trigger] escaped(s, conds, i, k, y) by {
            if r.contains(y) {
                let j = choose|j: int| 0 <= j < r.len() && r[j] == y;
                if j < a.len() {
                    assert(a.contains(a[j]));
                    let (i, k) = choose|i: int, k: int| #[trigger] escaped(u, conds, i, k, y);
                    assert(escaped(s, conds, i, k, y));
                } else {
                    assert(b.contains(b[j - a.len()]));
                    let k = choose|k: int|
                        0 <= k < conds.len() && s_feasible(s.last().conds.push(opposite(#[trigger] conds[k]))) && y
                            == escape(s.last(), conds[k]);
                    assert(escaped(s, conds, n, k, y));
                }
            }
            if exists|i: int, k: int| #[trigger] escaped(s, conds, i, k, y) {
                let (i, k) = choose|i: int, k: int| #[trigger] escaped(s, conds, i, k, y);
                if i < n {
                    assert(escaped(u, conds, i, k, y));
                    assert(a.contains(y));
                    let j = choose|j: int| 0 <= j < a.len() && a[j] == y;
                    assert(r[j] == y);
                } else {
                    assert(s_feasible(s.last().conds.push(opposite(conds[k]))));
                    assert(b.contains(y));
                    let j = choose|j: int| 0 <= j < b.len() && b[j] == y;
                    assert(r[a.len() + j] == y);
                }
            }
        }
    }
}

proof fn pushed_true(a: Seq<CondV>, c: CondV, x: Place)
    ensures
        conds_true(a.push(c), x) <==> conds_true(a, x) && cond_true(c, x),
{
    let b = a.push(c);
    if conds_true(b, x) {
        assert forall|i: int| 0 <= i < a.len() implies cond_true(#[trigger] a[i], x) by {
            assert(b[i] == a[i]);
        }
        assert(cond_true(b[a.len() as int], x));
    }
    if conds_true(a, x) && cond_true(c, x) {
        assert forall|i: int| 0 <= i < b.len() implies cond_true(#[trigger] b[i], x) by {
            if i < a.len() {
                assert(b[i] == a[i]);
            }
        }
    }
}

/// A shift under conditions adds to the cost where all of them hold, and leaves it where one fails.
pub proof fn add_under_is(s: Seq<PieceV>, conds: Seq<CondV>, d: PolyV, x: Place, v: real)
    requires
        pieces_ok(s),
        conds_ok(conds),
        p_wf(d),
        placed(x),
        cost_is(s, x, v),
    ensures
        pieces_ok(c_add_under(s, conds, d)),
        cost_is(
            c_add_under(s, conds, d),
            x,
            if conds_true(conds, x) {
                v + p_value(d, x.w)
            } else {
                v
            },
        ),
{
    let shifted = Seq::new(s.len(), |i: int| shifted_piece(s[i], conds, d));
    let out = all_escapes(s, conds);
    let all = shifted + out;
    let n = s.len() as int;
    let to = if conds_true(conds, x) {
        v + p_value(d, x.w)
    } else {
        v
    };
    all_escapes_members(s, conds);
    assert forall|j: int| 0 <= j < all.len() implies p_wf((#[trigger] all[j]).poly) && conds_ok(all[j].conds) && (
    conds_true(all[j].conds, x) ==> p_value(all[j].poly, x.w) <= to) by {
        if j < n {
            let p = s[j];
            assert(all[j] == shifted_piece(p, conds, d));
            assert(p_wf(s[j].poly) && conds_ok(s[j].conds));
            p_add_wf(p.poly, d);
            sum_value(p.poly, d, x.w);
            both_true(p.conds, conds, x);
            let cs = p.conds + conds;
            assert(conds_ok(cs)) by {
                assert forall|i: int| 0 <= i < cs.len() implies p_wf((#[trigger] cs[i]).ws) by {
                    if i < p.conds.len() {
                        assert(cs[i] == p.conds[i]);
                    } else {
                        assert(cs[i] == conds[i - p.conds.len()]);
                    }
                }
            }
            if conds_true(p.conds, x) && conds_true(conds, x) {
                true_is_feasible(cs, x);
            }
        } else {
            assert(out.contains(out[j - n]));
            assert(all[j] == out[j - n]);
            let (i, k) = choose|i: int, k: int| #[trigger] escaped(s, conds, i, k, all[j]);
            assert(p_wf(s[i].poly) && conds_ok(s[i].conds));
            let cs = all[j].conds;
            assert forall|l: int| 0 <= l < cs.len() implies p_wf((#[trigger] cs[l]).ws) by {
                if l < s[i].conds.len() {
                    assert(cs[l] == s[i].conds[l]);
                } else {
                    assert(p_wf(conds[k].ws));
                }
            }
            pushed_true(s[i].conds, opposite(conds[k]), x);
            if conds_true(cs, x) {
                assert(!cond_true(conds[k], x));
            }
        }
    }
    let i = choose|i: int| 0 <= i < s.len() && conds_true((#[trigger] s[i]).conds, x) && p_value(s[i].poly, x.w) == v;
    let p = s[i];
    assert(p_wf(s[i].poly) && conds_ok(s[i].conds));
    let cs = p.conds + conds;
    assert(conds_ok(cs)) by {
        assert forall|l: int| 0 <= l < cs.len() implies p_wf((#[trigger] cs[l]).ws) by {
            if l < p.conds.len() {
                assert(cs[l] == p.conds[l]);
            } else {
                assert(cs[l] == conds[l - p.conds.len()]);
            }
        }
    }
    both_true(p.conds, conds, x);
    if conds_true(conds, x) {
        true_is_feasible(cs, x);
        sum_value(p.poly, d, x.w);
        assert(conds_true(all[i].conds, x) && p_value(all[i].poly, x.w) == to);
    } else {
        let k = choose|k: int| 0 <= k < conds.len() && !cond_true(#[trigger] conds[k], x);
        let e = escape(p, conds[k]);
        pushed_true(p.conds, opposite(conds[k]), x);
        assert forall|l: int| 0 <= l < e.conds.len() implies p_wf((#[trigger] e.conds[l]).ws) by {
            if l < p.conds.len() {
                assert(e.conds[l] == p.conds[l]);
            } else {
                assert(p_wf(conds[k].ws));
            }
        }
        true_is_feasible(e.conds, x);
        assert(escaped(s, conds, i, k, e));
        assert(out.contains(e));
        let j = choose|j: int| 0 <= j < out.len() && out[j] == e;
        assert(all[n + j] == e);
        assert(conds_true(all[n + j].conds, x) && p_value(all[n + j].poly, x.w) == to);
    }
    assert(cost_is(all, x, to));
    assert(pieces_ok(all));
    prune_keeps(all, x, to);
    prune_ok(all);
}

} // verus!
