//! The least sum of coordinates sits at a vertex. From any point that satisfies the rows, move
//! along a direction that keeps the rows met so far and does not raise the sum, until one more row
//! is met; as many rows as coordinates leave one point.

use vstd::prelude::*;
use crate::cost::bounds::{hbl_rows, is_sigma, masks, sigma, sigma_is, too_many, two_to, unit_row};
use crate::cost::linear::{
    ascending, dot, dot_unit, least_vertex, only_solution, picked, satisfies, solves, total, vertex, vertex_at, RowV,
};

verus! {

spec fn along(x: Seq<real>, d: Seq<real>, t: real) -> Seq<real> {
    Seq::new(x.len(), |i: int| x[i] + t * d[i])
}

proof fn dot_along(a: Seq<real>, x: Seq<real>, d: Seq<real>, t: real, n: nat)
    requires
        n <= x.len(),
    ensures
        dot(a, along(x, d, t), n) == dot(a, x, n) + t * dot(a, d, n),
    decreases n,
{
    if n > 0 {
        dot_along(a, x, d, t, (n - 1) as nat);
        let (p, q) = (dot(a, x, (n - 1) as nat), dot(a, d, (n - 1) as nat));
        let (c, u, v) = (a[n - 1], x[n - 1], d[n - 1]);
        assert(p + t * q + c * (u + t * v) == (p + c * u) + t * (q + c * v)) by (nonlinear_arith);
    } else {
        assert(t * 0real == 0real) by (nonlinear_arith);
    }
}

proof fn total_along(x: Seq<real>, d: Seq<real>, t: real, n: nat)
    requires
        n <= x.len(),
    ensures
        total(along(x, d, t), n) == total(x, n) + t * total(d, n),
    decreases n,
{
    if n > 0 {
        total_along(x, d, t, (n - 1) as nat);
        let (q, v) = (total(d, (n - 1) as nat), d[n - 1]);
        assert(t * (q + v) == t * q + t * v) by (nonlinear_arith);
    } else {
        assert(t * 0real == 0real) by (nonlinear_arith);
    }
}

/// A sum that is not positive has a negative part, unless every part is zero.
proof fn negative_part(d: Seq<real>, n: nat)
    requires
        forall|c: int| 0 <= c < n ==> #[trigger] d[c] >= 0real,
    ensures
        total(d, n) >= 0real,
        forall|c: int| 0 <= c < n ==> total(d, n) >= #[trigger] d[c],
    decreases n,
{
    if n > 0 {
        negative_part(d, (n - 1) as nat);
    }
}

/// The direction leaves the rows `idx` as they are.
spec fn flat(rows: Seq<RowV>, idx: Seq<int>, z: Seq<real>, k: nat) -> bool {
    z.len() == k && forall|t: int| 0 <= t < idx.len() ==> dot(rows[#[trigger] idx[t]].a, z, k) == 0real
}

/// The rows `idx` are met with equality.
spec fn tight(rows: Seq<RowV>, idx: Seq<int>, x: Seq<real>, k: nat) -> bool {
    forall|t: int| 0 <= t < idx.len() ==> dot(rows[#[trigger] idx[t]].a, x, k) == rows[idx[t]].b
}

spec fn vanishes(z: Seq<real>, fs: Seq<int>) -> bool {
    forall|j: int| 0 <= j < fs.len() ==> z[#[trigger] fs[j]] == 0real
}

spec fn is_zero(z: Seq<real>) -> bool {
    forall|c: int| 0 <= c < z.len() ==> #[trigger] z[c] == 0real
}

spec fn at_most_one(z: Seq<real>, fs: Seq<int>, i: int) -> bool {
    forall|j: int| 0 <= j < fs.len() ==> z[#[trigger] fs[j]] == (if i == j { 1real } else { 0real })
}

/// The coordinates `fs` are free under the rows `idx`: each has a direction that moves it alone
/// among them, and a direction that moves none of them moves nothing.
spec fn framed(rows: Seq<RowV>, k: nat, idx: Seq<int>, bs: Seq<Seq<real>>, fs: Seq<int>) -> bool {
    &&& bs.len() == fs.len()
    &&& fs.len() + idx.len() == k
    &&& forall|j: int| 0 <= j < fs.len() ==> 0 <= #[trigger] fs[j] < k
    &&& forall|i: int| 0 <= i < bs.len() ==> flat(rows, idx, #[trigger] bs[i], k) && at_most_one(bs[i], fs, i)
    &&& forall|z: Seq<real>| #[trigger] flat(rows, idx, z, k) && vanishes(z, fs) ==> is_zero(z)
}

/// Every coordinate has a row that keeps it from being negative.
pub open spec fn unit_at(rows: Seq<RowV>, k: nat, c: int) -> bool {
    exists|i: int| 0 <= i < rows.len() && #[trigger] rows[i] == unit_row(k, c)
}

pub open spec fn units_in(rows: Seq<RowV>, k: nat) -> bool {
    forall|c: int| 0 <= c < k ==> #[trigger] unit_at(rows, k, c)
}

// ---- one step ----

/// How far to go along `d` until the row is met.
spec fn reach(r: RowV, x: Seq<real>, d: Seq<real>, k: nat) -> real {
    (dot(r.a, x, k) - r.b) / (-dot(r.a, d, k))
}

spec fn closing(rows: Seq<RowV>, d: Seq<real>, k: nat, i: int) -> bool {
    0 <= i < rows.len() && dot(rows[i].a, d, k) < 0real
}

/// The first row met among the first `n`, if the direction closes in on any.
proof fn first_met(rows: Seq<RowV>, x: Seq<real>, d: Seq<real>, k: nat, n: nat) -> (r: Option<int>)
    requires
        n <= rows.len(),
    ensures
        match r {
            Some(b) => closing(rows, d, k, b) && forall|i: int|
                0 <= i < n && #[trigger] closing(rows, d, k, i) ==> reach(rows[b], x, d, k) <= reach(
                    rows[i],
                    x,
                    d,
                    k,
                ),
            None => forall|i: int| 0 <= i < n ==> !#[trigger] closing(rows, d, k, i),
        },
    decreases n,
{
    if n == 0 {
        None
    } else {
        let last = n - 1;
        match first_met(rows, x, d, k, (n - 1) as nat) {
            None => if closing(rows, d, k, last) {
                Some(last)
            } else {
                None
            },
            Some(b) => if closing(rows, d, k, last) && reach(rows[last], x, d, k) < reach(rows[b], x, d, k) {
                Some(last)
            } else {
                Some(b)
            },
        }
    }
}

/// Going along a direction until the first row is met keeps all rows satisfied.
proof fn go_until_met(rows: Seq<RowV>, x: Seq<real>, d: Seq<real>, k: nat) -> (r: (int, real))
    requires
        satisfies(rows, x, k),
        units_in(rows, k),
        d.len() == k,
        total(d, k) <= 0real,
        !is_zero(d),
    ensures
        closing(rows, d, k, r.0),
        r.1 >= 0real,
        satisfies(rows, along(x, d, r.1), k),
        dot(rows[r.0].a, along(x, d, r.1), k) == rows[r.0].b,
{
    let c = choose|c: int| 0 <= c < d.len() && #[trigger] d[c] != 0real;
    if forall|c: int| 0 <= c < k ==> #[trigger] d[c] >= 0real {
        negative_part(d, k);
        assert(d[c] > 0real);
        assert(false);
    }
    let e = choose|e: int| 0 <= e < k && !(#[trigger] d[e] >= 0real);
    assert(unit_at(rows, k, e));
    let u = choose|i: int| 0 <= i < rows.len() && #[trigger] rows[i] == unit_row(k, e);
    dot_unit(rows[u].a, d, e, k);
    assert(closing(rows, d, k, u));
    let met = first_met(rows, x, d, k, rows.len());
    assert(met is Some);
    let b = met->0;
    let t = reach(rows[b], x, d, k);
    let y = along(x, d, t);
    assert(dot(rows[b].a, x, k) >= rows[b].b);
    dot_along(rows[b].a, x, d, t, k);
    let (p, q) = (dot(rows[b].a, x, k) - rows[b].b, dot(rows[b].a, d, k));
    assert(t >= 0real && p + t * q == 0real) by (nonlinear_arith)
        requires
            q < 0real,
            p >= 0real,
            t == p / (-q),
    ;
    assert forall|i: int| 0 <= i < rows.len() implies dot((#[trigger] rows[i]).a, y, k) >= rows[i].b by {
        dot_along(rows[i].a, x, d, t, k);
        assert(dot(rows[i].a, x, k) >= rows[i].b);
        let (g, h) = (dot(rows[i].a, x, k) - rows[i].b, dot(rows[i].a, d, k));
        if h < 0real {
            assert(closing(rows, d, k, i));
            let s = reach(rows[i], x, d, k);
            assert(g + t * h >= 0real) by (nonlinear_arith)
                requires
                    h < 0real,
                    g >= 0real,
                    s == g / (-h),
                    t <= s,
            ;
        } else {
            assert(t * h >= 0real) by (nonlinear_arith)
                requires
                    t >= 0real,
                    h >= 0real,
            ;
        }
    }
    (b, t)
}

// ---- one more row ----

proof fn place_new(idx: Seq<int>, m: int, r: int) -> (p: int)
    requires
        ascending(idx, m),
        0 <= r < m,
        forall|t: int| 0 <= t < idx.len() ==> #[trigger] idx[t] != r,
    ensures
        0 <= p <= idx.len(),
        ascending(idx.insert(p, r), m),
        forall|t: int| 0 <= t < p ==> #[trigger] idx[t] < r,
        forall|t: int| p <= t < idx.len() ==> #[trigger] idx[t] > r,
    decreases idx.len(),
{
    if idx.len() == 0 || idx.last() < r {
        let p = idx.len() as int;
        assert forall|t: int| 0 <= t < p implies #[trigger] idx[t] < r by {
            if t < p - 1 {
                assert(idx[t] < idx[p - 1]);
            }
        }
        let s = idx.insert(p, r);
        assert forall|t: int, u: int| 0 <= t < u < s.len() implies (#[trigger] s[t]) < (#[trigger] s[u]) by {
            if u < p {
                assert(idx[t] < idx[u]);
            } else {
                assert(idx[t] < r);
            }
        }
        p
    } else {
        let less = idx.drop_last();
        assert forall|t: int| 0 <= t < less.len() implies 0 <= (#[trigger] less[t]) < m && less[t] != r by {
            assert(less[t] == idx[t]);
        }
        assert(ascending(less, m));
        let p = place_new(less, m, r);
        let s = idx.insert(p, r);
        assert(idx[idx.len() - 1] != r);
        assert forall|t: int| 0 <= t < p implies #[trigger] idx[t] < r by {
            assert(less[t] == idx[t]);
        }
        assert forall|t: int| p <= t < idx.len() implies #[trigger] idx[t] > r by {
            if t < idx.len() - 1 {
                assert(less[t] == idx[t]);
            }
        }
        assert forall|t: int, u: int| 0 <= t < u < s.len() implies (#[trigger] s[t]) < (#[trigger] s[u]) by {
            if t < p {
                assert(s[t] == idx[t]);
                if u < p {
                    assert(idx[t] < idx[u]);
                } else if u > p {
                    assert(s[u] == idx[u - 1]);
                }
            } else if t == p {
                assert(s[u] == idx[u - 1]);
            } else {
                assert(idx[t - 1] < idx[u - 1]);
            }
        }
        assert forall|t: int| 0 <= t < s.len() implies 0 <= (#[trigger] s[t]) < m by {
            if t > p {
                assert(s[t] == idx[t - 1]);
            }
        }
        p
    }
}

proof fn flat_with(rows: Seq<RowV>, idx: Seq<int>, p: int, r: int, z: Seq<real>, k: nat)
    requires
        0 <= p <= idx.len(),
    ensures
        flat(rows, idx.insert(p, r), z, k) == (flat(rows, idx, z, k) && dot(rows[r].a, z, k) == 0real),
{
    let s = idx.insert(p, r);
    if flat(rows, s, z, k) {
        assert(s[p] == r);
        assert forall|t: int| 0 <= t < idx.len() implies dot(rows[#[trigger] idx[t]].a, z, k) == 0real by {
            let u = if t < p {
                t
            } else {
                t + 1
            };
            assert(s[u] == idx[t]);
        }
    }
    if flat(rows, idx, z, k) && dot(rows[r].a, z, k) == 0real {
        assert forall|t: int| 0 <= t < s.len() implies dot(rows[#[trigger] s[t]].a, z, k) == 0real by {
            if t < p {
                assert(s[t] == idx[t]);
            } else if t > p {
                assert(s[t] == idx[t - 1]);
            }
        }
    }
}

proof fn flat_along(rows: Seq<RowV>, idx: Seq<int>, z: Seq<real>, d: Seq<real>, t: real, k: nat)
    requires
        flat(rows, idx, z, k),
        flat(rows, idx, d, k),
    ensures
        flat(rows, idx, along(z, d, t), k),
{
    let y = along(z, d, t);
    assert forall|u: int| 0 <= u < idx.len() implies dot(rows[#[trigger] idx[u]].a, y, k) == 0real by {
        dot_along(rows[idx[u]].a, z, d, t, k);
        assert(t * 0real == 0real) by (nonlinear_arith);
    }
}

/// A row that a direction's last coordinate meets takes that coordinate's freedom away.
proof fn frame_with(rows: Seq<RowV>, k: nat, idx: Seq<int>, bs: Seq<Seq<real>>, fs: Seq<int>, p: int, r: int) -> (bt: Seq<
    Seq<real>,
>)
    requires
        framed(rows, k, idx, bs, fs),
        bs.len() > 0,
        0 <= p <= idx.len(),
        dot(rows[r].a, bs.last(), k) != 0real,
    ensures
        framed(rows, k, idx.insert(p, r), bt, fs.drop_last()),
{
    let (last, n) = (bs.last(), bs.len() - 1);
    let a = rows[r].a;
    let q = dot(a, last, k);
    let gs = fs.drop_last();
    let jdx = idx.insert(p, r);
    let bt = Seq::new(n as nat, |i: int| along(bs[i], last, -(dot(a, bs[i], k) / q)));
    assert(flat(rows, idx, bs[n], k) && at_most_one(bs[n], fs, n));
    assert forall|i: int| 0 <= i < bt.len() implies flat(rows, jdx, #[trigger] bt[i], k) && at_most_one(bt[i], gs, i) by {
        assert(flat(rows, idx, bs[i], k) && at_most_one(bs[i], fs, i));
        let c = dot(a, bs[i], k);
        let t = -(c / q);
        flat_along(rows, idx, bs[i], last, t, k);
        dot_along(a, bs[i], last, t, k);
        assert(c + t * q == 0real) by (nonlinear_arith)
            requires
                t == -(c / q),
                q != 0real,
        ;
        flat_with(rows, idx, p, r, bt[i], k);
        assert forall|j: int| 0 <= j < gs.len() implies bt[i][#[trigger] gs[j]] == (if i == j { 1real } else { 0real }) by {
            assert(fs[j] == gs[j]);
            assert(bs[i][fs[j]] == (if i == j { 1real } else { 0real }));
            assert(last[fs[j]] == 0real);
            assert(t * 0real == 0real) by (nonlinear_arith);
        }
    }
    assert forall|z: Seq<real>| #[trigger] flat(rows, jdx, z, k) && vanishes(z, gs) implies is_zero(z) by {
        flat_with(rows, idx, p, r, z, k);
        let f = fs[n];
        let t = -z[f];
        let y = along(z, last, t);
        flat_along(rows, idx, z, last, t, k);
        dot_along(a, z, last, t, k);
        assert forall|j: int| 0 <= j < fs.len() implies y[#[trigger] fs[j]] == 0real by {
            assert(last[fs[j]] == (if n == j { 1real } else { 0real }));
            if j < n {
                assert(gs[j] == fs[j]);
                assert(z[gs[j]] == 0real);
                assert(t * 0real == 0real) by (nonlinear_arith);
            } else {
                assert(t * 1real == t) by (nonlinear_arith);
            }
        }
        assert(vanishes(y, fs));
        assert(is_zero(y));
        dot_zero(a, y, k);
        assert(t == 0real) by (nonlinear_arith)
            requires
                t * q == 0real,
                q != 0real,
        ;
        assert forall|c: int| 0 <= c < z.len() implies #[trigger] z[c] == 0real by {
            assert(y[c] == 0real);
            let v = last[c];
            assert(0real * v == 0real) by (nonlinear_arith);
        }
    }
    bt
}

proof fn dot_zero(a: Seq<real>, z: Seq<real>, n: nat)
    requires
        n <= z.len(),
        is_zero(z),
    ensures
        dot(a, z, n) == 0real,
    decreases n,
{
    if n > 0 {
        dot_zero(a, z, (n - 1) as nat);
        let c = a[n - 1];
        assert(c * 0real == 0real) by (nonlinear_arith);
        assert(z[n - 1] == 0real);
    }
}

/// As many rows as coordinates leave one point.
proof fn framed_full(rows: Seq<RowV>, k: nat, x: Seq<real>, idx: Seq<int>, bs: Seq<Seq<real>>, fs: Seq<int>)
    requires
        framed(rows, k, idx, bs, fs),
        fs.len() == 0,
        x.len() == k,
        tight(rows, idx, x, k),
    ensures
        only_solution(picked(rows, idx), x, k),
{
    let s = picked(rows, idx);
    assert forall|t: int| 0 <= t < s.len() implies dot((#[trigger] s[t]).a, x, k) == s[t].b by {
        assert(s[t] == rows[idx[t]]);
    }
    assert forall|y: Seq<real>| #[trigger] solves(s, y, k) implies y == x by {
        let z = along(y, x, -1real);
        assert forall|t: int| 0 <= t < idx.len() implies dot(rows[#[trigger] idx[t]].a, z, k) == 0real by {
            assert(s[t] == rows[idx[t]]);
            dot_along(s[t].a, y, x, -1real, k);
            let v = s[t].b;
            assert(v + -1real * v == 0real) by (nonlinear_arith);
        }
        assert(flat(rows, idx, z, k) && vanishes(z, fs));
        assert forall|c: int| 0 <= c < k implies y[c] == x[c] by {
            assert(z[c] == 0real);
            let v = x[c];
            assert(-1real * v == -v) by (nonlinear_arith);
        }
        assert(y =~= x);
    }
}

proof fn to_vertex(rows: Seq<RowV>, k: nat, x: Seq<real>, idx: Seq<int>, bs: Seq<Seq<real>>, fs: Seq<int>) -> (y: Seq<
    real,
>)
    requires
        satisfies(rows, x, k),
        units_in(rows, k),
        ascending(idx, rows.len() as int),
        tight(rows, idx, x, k),
        framed(rows, k, idx, bs, fs),
    ensures
        vertex(rows, y, k),
        total(y, k) <= total(x, k),
    decreases fs.len(),
{
    if fs.len() == 0 {
        framed_full(rows, k, x, idx, bs, fs);
        assert(vertex_at(rows, x, k, idx));
        x
    } else {
        let n = bs.len() - 1;
        let b = bs[n];
        assert(flat(rows, idx, b, k) && at_most_one(b, fs, n));
        assert(b[fs[n]] == 1real);
        let zero = Seq::new(k, |i: int| 0real);
        let sign = if total(b, k) > 0real {
            -1real
        } else {
            1real
        };
        let d = along(zero, b, sign);
        assert(is_zero(zero));
        assert forall|t: int| 0 <= t < idx.len() implies dot(rows[#[trigger] idx[t]].a, zero, k) == 0real by {
            dot_zero(rows[idx[t]].a, zero, k);
        }
        flat_along(rows, idx, zero, b, sign, k);
        total_along(zero, b, sign, k);
        negative_part(zero, k);
        total_zero(zero, k);
        assert(d[fs[n]] == sign);
        assert(!is_zero(d));
        let (r, t) = go_until_met(rows, x, d, k);
        let y = along(x, d, t);
        total_along(x, d, t, k);
        let td = total(d, k);
        assert(t * td <= 0real) by (nonlinear_arith)
            requires
                t >= 0real,
                td <= 0real,
        ;
        assert forall|u: int| 0 <= u < idx.len() implies #[trigger] idx[u] != r by {
            assert(dot(rows[idx[u]].a, d, k) == 0real);
        }
        let p = place_new(idx, rows.len() as int, r);
        dot_along(rows[r].a, zero, b, sign, k);
        dot_zero(rows[r].a, zero, k);
        let q = dot(rows[r].a, b, k);
        assert(q != 0real) by (nonlinear_arith)
            requires
                sign * q < 0real,
        ;
        let bt = frame_with(rows, k, idx, bs, fs, p, r);
        let jdx = idx.insert(p, r);
        assert forall|u: int| 0 <= u < jdx.len() implies dot(rows[#[trigger] jdx[u]].a, y, k) == rows[jdx[u]].b by {
            if u != p {
                let v = if u < p {
                    u
                } else {
                    u - 1
                };
                assert(jdx[u] == idx[v]);
                dot_along(rows[idx[v]].a, x, d, t, k);
                assert(t * 0real == 0real) by (nonlinear_arith);
            }
        }
        to_vertex(rows, k, y, jdx, bt, fs.drop_last())
    }
}

proof fn total_zero(z: Seq<real>, n: nat)
    requires
        n <= z.len(),
        is_zero(z),
    ensures
        total(z, n) == 0real,
    decreases n,
{
    if n > 0 {
        total_zero(z, (n - 1) as nat);
        assert(z[n - 1] == 0real);
    }
}

// ---- the laws ----

/// The optimum sits at a vertex: where no coordinate may be negative, every point that satisfies
/// the rows has a vertex whose sum is no larger.
pub proof fn vertex_below(rows: Seq<RowV>, k: nat, x: Seq<real>)
    requires
        satisfies(rows, x, k),
        units_in(rows, k),
    ensures
        exists|y: Seq<real>| #[trigger] vertex(rows, y, k) && total(y, k) <= total(x, k),
{
    let fs = Seq::new(k, |i: int| i);
    let bs = Seq::new(k, |i: int| unit_row(k, i).a);
    let none = Seq::<int>::empty();
    assert forall|z: Seq<real>| #[trigger] flat(rows, none, z, k) && vanishes(z, fs) implies is_zero(z) by {
        assert forall|c: int| 0 <= c < z.len() implies #[trigger] z[c] == 0real by {
            assert(z[fs[c]] == 0real);
        }
    }
    let y = to_vertex(rows, k, x, none, bs, fs);
    assert(vertex(rows, y, k));
}

/// The least sum at a vertex is the least sum of all, and there is one where any point satisfies
/// the rows.
pub proof fn least_vertex_least(rows: Seq<RowV>, k: nat, r: Option<real>, x: Seq<real>)
    requires
        least_vertex(rows, k, r),
        units_in(rows, k),
        satisfies(rows, x, k),
    ensures
        r is Some,
        r->0 <= total(x, k),
{
    vertex_below(rows, k, x);
}

/// The exponent of a loop nest is the least `Σ s_j` of all that meet the condition on every subset
/// of the loops, where the enumeration is not too large.
pub proof fn sigma_least(dims: nat, refs: Seq<u32>, r: Option<real>, x: Seq<real>)
    requires
        is_sigma(dims, refs, r),
        0 < dims <= 12,
        masks(refs).len() > 0,
        !too_many((two_to(dims) - 1 + masks(refs).len()) as nat, masks(refs).len()),
        satisfies(hbl_rows(masks(refs), two_to(dims)), x, masks(refs).len()),
    ensures
        r is Some,
        r->0 <= total(x, masks(refs).len()),
        sigma(dims, refs) == r,
{
    let d = masks(refs);
    let n = two_to(dims);
    let rows = hbl_rows(d, n);
    at_least_one(dims);
    assert forall|c: int| 0 <= c < d.len() implies #[trigger] unit_at(rows, d.len(), c) by {
        assert(rows[n - 1 + c] == unit_row(d.len(), c));
    }
    least_vertex_least(rows, d.len(), r, x);
    sigma_is(dims, refs, r);
}

proof fn at_least_one(k: nat)
    ensures
        two_to(k) >= 1,
    decreases k,
{
    if k > 0 {
        at_least_one((k - 1) as nat);
    }
}

} // verus!
