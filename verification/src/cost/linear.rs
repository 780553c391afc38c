//! Square systems of linear equations and the vertices of a system of inequalities, exactly.

use vstd::prelude::*;
use crate::cost::forms::opt_real;
use crate::cost::rat::Rat;
use crate::num::Side;

verus! {

/// One row `a·x` against `b`.
#[derive(Debug)]
pub struct Row {
    pub a: Vec<Rat>,
    pub b: Rat,
}

#[verifier::ext_equal]
pub struct RowV {
    pub a: Seq<real>,
    pub b: real,
}

pub open spec fn rats(s: Seq<Rat>) -> Seq<real> {
    Seq::new(s.len(), |i: int| s[i]@)
}

impl View for Row {
    type V = RowV;

    open spec fn view(&self) -> RowV {
        RowV { a: rats(self.a@), b: self.b@ }
    }
}

pub open spec fn rows_v(s: Seq<Row>) -> Seq<RowV> {
    Seq::new(s.len(), |i: int| s[i]@)
}

/// The first `n` products summed.
pub open spec fn dot(a: Seq<real>, x: Seq<real>, n: nat) -> real
    decreases n,
{
    if n == 0 {
        0real
    } else {
        dot(a, x, (n - 1) as nat) + a[n - 1] * x[n - 1]
    }
}

/// The numbers summed.
pub open spec fn total(x: Seq<real>, n: nat) -> real
    decreases n,
{
    if n == 0 {
        0real
    } else {
        total(x, (n - 1) as nat) + x[n - 1]
    }
}

/// `x` meets every row with equality.
pub open spec fn solves(rows: Seq<RowV>, x: Seq<real>, k: nat) -> bool {
    x.len() == k && forall|i: int| 0 <= i < rows.len() ==> dot((#[trigger] rows[i]).a, x, k) == rows[i].b
}

/// `x` meets every row with `≥`.
pub open spec fn satisfies(rows: Seq<RowV>, x: Seq<real>, k: nat) -> bool {
    x.len() == k && forall|i: int| 0 <= i < rows.len() ==> dot((#[trigger] rows[i]).a, x, k) >= rows[i].b
}

/// `x` is the one solution.
pub open spec fn only_solution(rows: Seq<RowV>, x: Seq<real>, k: nat) -> bool {
    &&& solves(rows, x, k)
    &&& forall|y: Seq<real>| #[trigger] solves(rows, y, k) ==> y == x
}

/// Every row has `k` coefficients.
pub open spec fn wide(rows: Seq<RowV>, k: nat) -> bool {
    forall|i: int| 0 <= i < rows.len() ==> (#[trigger] rows[i]).a.len() == k
}

/// The rows at the places in `idx`.
pub open spec fn picked(rows: Seq<RowV>, idx: Seq<int>) -> Seq<RowV> {
    Seq::new(idx.len(), |t: int| rows[idx[t]])
}

/// Places that ascend, from `start` on and below `m`.
pub open spec fn ascending(idx: Seq<int>, m: int) -> bool {
    &&& forall|t: int| 0 <= t < idx.len() ==> 0 <= (#[trigger] idx[t]) < m
    &&& forall|t: int, u: int| 0 <= t < u < idx.len() ==> (#[trigger] idx[t]) < (#[trigger] idx[u])
}

/// `x` is a vertex at the rows `idx`: it satisfies all rows, and these hold with equality at it
/// alone.
pub open spec fn vertex_at(rows: Seq<RowV>, x: Seq<real>, k: nat, idx: Seq<int>) -> bool {
    &&& idx.len() == k
    &&& ascending(idx, rows.len() as int)
    &&& satisfies(rows, x, k)
    &&& only_solution(picked(rows, idx), x, k)
}

/// A vertex of the system `rows ≥`.
pub open spec fn vertex(rows: Seq<RowV>, x: Seq<real>, k: nat) -> bool {
    exists|idx: Seq<int>| #[trigger] vertex_at(rows, x, k, idx)
}

/// The smallest sum of coordinates at a vertex, if there is a vertex.
pub open spec fn least_vertex(rows: Seq<RowV>, k: nat, r: Option<real>) -> bool {
    match r {
        Some(v) => {
            &&& exists|x: Seq<real>| #[trigger] vertex(rows, x, k) && total(x, k) == v
            &&& forall|x: Seq<real>| #[trigger] vertex(rows, x, k) ==> total(x, k) >= v
        },
        None => forall|x: Seq<real>| !#[trigger] vertex(rows, x, k),
    }
}

// ---- elimination ----

spec fn scaled_row(r: RowV, c: real) -> RowV {
    RowV { a: Seq::new(r.a.len(), |i: int| r.a[i] * c), b: r.b * c }
}

spec fn reduced_row(r: RowV, f: real, p: RowV) -> RowV {
    RowV { a: Seq::new(r.a.len(), |i: int| r.a[i] - f * p.a[i]), b: r.b - f * p.b }
}

proof fn dot_scaled(r: RowV, c: real, x: Seq<real>, n: nat)
    requires
        n <= r.a.len(),
    ensures
        dot(scaled_row(r, c).a, x, n) == dot(r.a, x, n) * c,
    decreases n,
{
    if n > 0 {
        dot_scaled(r, c, x, (n - 1) as nat);
        let (d, a, y) = (dot(r.a, x, (n - 1) as nat), r.a[n - 1], x[n - 1]);
        assert((d + a * y) * c == d * c + (a * c) * y) by (nonlinear_arith);
    } else {
        assert(0real * c == 0real) by (nonlinear_arith);
    }
}

proof fn dot_reduced(r: RowV, f: real, p: RowV, x: Seq<real>, n: nat)
    requires
        n <= r.a.len(),
        n <= p.a.len(),
    ensures
        dot(reduced_row(r, f, p).a, x, n) == dot(r.a, x, n) - f * dot(p.a, x, n),
    decreases n,
{
    if n > 0 {
        dot_reduced(r, f, p, x, (n - 1) as nat);
        let (d, e, a, b, y) = (
            dot(r.a, x, (n - 1) as nat),
            dot(p.a, x, (n - 1) as nat),
            r.a[n - 1],
            p.a[n - 1],
            x[n - 1],
        );
        assert(d - f * e + (a - f * b) * y == (d + a * y) - f * (e + b * y)) by (nonlinear_arith);
    } else {
        assert(f * 0real == 0real) by (nonlinear_arith);
    }
}

/// The two systems have the same solutions.
spec fn same_solutions(r: Seq<RowV>, s: Seq<RowV>, k: nat) -> bool {
    forall|x: Seq<real>| #[trigger] solves(r, x, k) == solves(s, x, k)
}

proof fn swap_keeps(r: Seq<RowV>, i: int, j: int, k: nat)
    requires
        0 <= i < r.len(),
        0 <= j < r.len(),
    ensures
        same_solutions(r, r.update(i, r[j]).update(j, r[i]), k),
{
    let s = r.update(i, r[j]).update(j, r[i]);
    assert forall|x: Seq<real>| #[trigger] solves(r, x, k) == solves(s, x, k) by {
        if solves(r, x, k) {
            assert forall|t: int| 0 <= t < s.len() implies dot((#[trigger] s[t]).a, x, k) == s[t].b by {
                let u = if t == j {
                    i
                } else if t == i {
                    j
                } else {
                    t
                };
                assert(s[t] == r[u]);
            }
        }
        if solves(s, x, k) {
            assert forall|t: int| 0 <= t < r.len() implies dot((#[trigger] r[t]).a, x, k) == r[t].b by {
                let u = if t == j {
                    i
                } else if t == i {
                    j
                } else {
                    t
                };
                assert(s[u] == r[t]);
            }
        }
    }
}

proof fn scale_keeps(r: Seq<RowV>, i: int, c: real, k: nat)
    requires
        0 <= i < r.len(),
        c != 0real,
        wide(r, k),
    ensures
        same_solutions(r, r.update(i, scaled_row(r[i], c)), k),
        wide(r.update(i, scaled_row(r[i], c)), k),
{
    let s = r.update(i, scaled_row(r[i], c));
    assert forall|x: Seq<real>| #[trigger] solves(r, x, k) == solves(s, x, k) by {
        dot_scaled(r[i], c, x, k);
        let (d, b) = (dot(r[i].a, x, k), r[i].b);
        assert(d * c == b * c <==> d == b) by (nonlinear_arith)
            requires
                c != 0real,
        ;
        if solves(r, x, k) {
            assert forall|t: int| 0 <= t < s.len() implies dot((#[trigger] s[t]).a, x, k) == s[t].b by {
                assert(dot(r[t].a, x, k) == r[t].b);
            }
        }
        if solves(s, x, k) {
            assert forall|t: int| 0 <= t < r.len() implies dot((#[trigger] r[t]).a, x, k) == r[t].b by {
                assert(dot(s[t].a, x, k) == s[t].b);
            }
        }
    }
}

proof fn reduce_keeps(r: Seq<RowV>, i: int, p: int, f: real, k: nat)
    requires
        0 <= i < r.len(),
        0 <= p < r.len(),
        i != p,
        wide(r, k),
    ensures
        same_solutions(r, r.update(i, reduced_row(r[i], f, r[p])), k),
        wide(r.update(i, reduced_row(r[i], f, r[p])), k),
{
    let s = r.update(i, reduced_row(r[i], f, r[p]));
    assert forall|x: Seq<real>| #[trigger] solves(r, x, k) == solves(s, x, k) by {
        dot_reduced(r[i], f, r[p], x, k);
        assert(s[p] == r[p]);
        if solves(r, x, k) {
            assert(dot(r[p].a, x, k) == r[p].b);
            assert forall|t: int| 0 <= t < s.len() implies dot((#[trigger] s[t]).a, x, k) == s[t].b by {
                assert(dot(r[t].a, x, k) == r[t].b);
            }
        }
        if solves(s, x, k) {
            assert(dot(s[p].a, x, k) == s[p].b);
            assert forall|t: int| 0 <= t < r.len() implies dot((#[trigger] r[t]).a, x, k) == r[t].b by {
                assert(dot(s[t].a, x, k) == s[t].b);
            }
        }
    }
}

/// The first `n` columns are those of the identity.
spec fn unit_columns(r: Seq<RowV>, n: int) -> bool {
    forall|i: int, c: int|
        #![trigger r[i].a[c]]
        0 <= i < r.len() && 0 <= c < n ==> r[i].a[c] == (if i == c { 1real } else { 0real })
}

pub proof fn dot_unit(a: Seq<real>, x: Seq<real>, i: int, n: nat)
    requires
        n <= a.len(),
        forall|c: int| 0 <= c < n ==> (#[trigger] a[c]) == (if c == i { 1real } else { 0real }),
    ensures
        dot(a, x, n) == (if 0 <= i < n { x[i] } else { 0real }),
    decreases n,
{
    if n > 0 {
        dot_unit(a, x, i, (n - 1) as nat);
        let y = x[n - 1];
        assert(a[n - 1] == (if n - 1 == i { 1real } else { 0real }));
        assert(1real * y == y) by (nonlinear_arith);
        assert(0real * y == 0real) by (nonlinear_arith);
    }
}

proof fn dot_moved(a: Seq<real>, x: Seq<real>, y: Seq<real>, n: nat, i: int, col: int, v: real)
    requires
        n <= a.len(),
        n <= x.len(),
        n <= y.len(),
        forall|c: int| 0 <= c < col ==> (#[trigger] a[c]) == (if c == i { 1real } else { 0real }),
        0 <= col < a.len(),
        a[col] == v,
        forall|c: int|
            0 <= c < n ==> (#[trigger] y[c]) == (if c == col {
                x[c] + 1real
            } else if c == i && c < col {
                x[c] - v
            } else {
                x[c]
            }) || c < col && c != i,
        i >= col ==> v == 0real,
    ensures
        n > col && (0 <= i < col || v == 0real) ==> dot(a, y, n) == dot(a, x, n),
        n <= col ==> dot(a, y, n) == dot(a, x, n) - (if 0 <= i < n { v } else { 0real }),
    decreases n,
{
    if n > 0 {
        dot_moved(a, x, y, (n - 1) as nat, i, col, v);
        let c = n - 1;
        let (p, q) = (x[c], y[c]);
        let w = a[c];
        if c < col {
            if c == i {
                assert(1real * (p - v) == 1real * p - v) by (nonlinear_arith);
            } else {
                assert(0real * q == 0real * p) by (nonlinear_arith);
            }
        } else if c == col {
            assert(v * (p + 1real) == v * p + v) by (nonlinear_arith);
        }
    }
}

/// Where a column has no pivot, no solution is the only one.
proof fn no_pivot(r: Seq<RowV>, col: int, k: nat, x: Seq<real>)
    requires
        r.len() == k,
        wide(r, k),
        0 <= col < k,
        unit_columns(r, col),
        forall|i: int| col <= i < k ==> (#[trigger] r[i]).a[col] == 0real,
    ensures
        !only_solution(r, x, k),
{
    if solves(r, x, k) {
        let y = Seq::new(
            k,
            |c: int|
                if c == col {
                    x[c] + 1real
                } else if c < col {
                    x[c] - r[c].a[col]
                } else {
                    x[c]
                },
        );
        assert forall|i: int| 0 <= i < r.len() implies dot((#[trigger] r[i]).a, y, k) == r[i].b by {
            let a = r[i].a;
            assert(a.len() == k);
            assert forall|c: int| 0 <= c < col implies (#[trigger] a[c]) == (if c == i { 1real } else { 0real }) by {
                assert(r[i].a[c] == (if i == c { 1real } else { 0real }));
            }
            dot_moved(a, x, y, k, i, col, a[col]);
            assert(dot(r[i].a, x, k) == r[i].b);
        }
        assert(solves(r, y, k));
        assert(y[col] != x[col]);
    }
}

/// A system whose matrix is the identity has its right sides for its one solution.
proof fn unit_solved(r: Seq<RowV>, k: nat, x: Seq<real>)
    requires
        r.len() == k,
        wide(r, k),
        unit_columns(r, k as int),
        x.len() == k,
        forall|i: int| 0 <= i < k ==> (#[trigger] x[i]) == r[i].b,
    ensures
        only_solution(r, x, k),
{
    assert forall|y: Seq<real>| #[trigger] solves(r, y, k) implies y == x by {
        assert forall|i: int| 0 <= i < k implies #[trigger] y[i] == x[i] by {
            assert(dot(r[i].a, y, k) == r[i].b);
            assert forall|c: int| 0 <= c < k implies (#[trigger] r[i].a[c]) == (if c == i { 1real } else { 0real }) by {}
            dot_unit(r[i].a, y, i, k);
        }
        assert(y =~= x);
    }
    assert forall|i: int| 0 <= i < r.len() implies dot((#[trigger] r[i]).a, x, k) == r[i].b by {
        assert forall|c: int| 0 <= c < k implies (#[trigger] r[i].a[c]) == (if c == i { 1real } else { 0real }) by {}
        dot_unit(r[i].a, x, i, k);
    }
}

fn copy_row(r: &Row) -> (q: Row)
    ensures
        q@ == r@,
        q.a@.len() == r.a@.len(),
{
    let mut a: Vec<Rat> = Vec::new();
    let mut i: usize = 0;
    while i < r.a.len()
        invariant
            i <= r.a@.len(),
            a@.len() == i,
            forall|t: int| 0 <= t < i ==> (#[trigger] a@[t])@ == r.a@[t]@,
        decreases r.a@.len() - i,
    {
        a.push(r.a[i].copy());
        i += 1;
    }
    proof {
        assert(rats(a@) =~= rats(r.a@));
    }
    Row { a, b: r.b.copy() }
}

fn scale_row(r: &Row, c: &Rat) -> (q: Row)
    ensures
        q@ == scaled_row(r@, c@),
{
    let mut a: Vec<Rat> = Vec::new();
    let mut i: usize = 0;
    while i < r.a.len()
        invariant
            i <= r.a@.len(),
            a@.len() == i,
            forall|t: int| 0 <= t < i ==> (#[trigger] a@[t])@ == r.a@[t]@ * c@,
        decreases r.a@.len() - i,
    {
        a.push(r.a[i].mul(c));
        i += 1;
    }
    proof {
        assert(rats(a@) =~= scaled_row(r@, c@).a);
    }
    Row { a, b: r.b.mul(c) }
}

fn reduce_row(r: &Row, f: &Rat, p: &Row) -> (q: Row)
    requires
        r.a@.len() == p.a@.len(),
    ensures
        q@ == reduced_row(r@, f@, p@),
{
    let mut a: Vec<Rat> = Vec::new();
    let mut i: usize = 0;
    while i < r.a.len()
        invariant
            i <= r.a@.len(),
            r.a@.len() == p.a@.len(),
            a@.len() == i,
            forall|t: int| 0 <= t < i ==> (#[trigger] a@[t])@ == r.a@[t]@ - f@ * p.a@[t]@,
        decreases r.a@.len() - i,
    {
        a.push(r.a[i].sub(&f.mul(&p.a[i])));
        i += 1;
    }
    proof {
        assert(rats(a@) =~= reduced_row(r@, f@, p@).a);
    }
    Row { a, b: r.b.sub(&f.mul(&p.b)) }
}

/// The first row from `col` on that has something in that column; `k` if none has.
#[verifier::loop_isolation(false)]
fn find_pivot(m: &Vec<Row>, col: usize, k: usize) -> (r: usize)
    requires
        m@.len() == k,
        wide(rows_v(m@), k as nat),
        col < k,
    ensures
        col <= r <= k,
        r < k ==> rows_v(m@)[r as int].a[col as int] != 0real,
        forall|i: int| col <= i < r ==> (#[trigger] rows_v(m@)[i]).a[col as int] == 0real,
{
    let mut piv: usize = col;
    while piv < k
        invariant
            col <= piv <= k,
            forall|i: int| col <= i < piv ==> (#[trigger] rows_v(m@)[i]).a[col as int] == 0real,
        decreases k - piv,
    {
        proof {
            assert(rows_v(m@)[piv as int].a.len() == k);
        }
        if !m[piv].a[col].is_zero() {
            return piv;
        }
        piv += 1;
    }
    piv
}

/// Solve the square system `a·x = b` exactly; `None` when it has no single solution.
#[verifier::loop_isolation(false)]
#[verifier::rlimit(40)]
pub fn solve(rows: Vec<Row>, k: usize) -> (r: Option<Vec<Rat>>)
    requires
        rows@.len() == k,
        wide(rows_v(rows@), k as nat),
    ensures
        match r {
            Some(x) => only_solution(rows_v(rows@), rats(x@), k as nat) && x@.len() == k,
            None => forall|x: Seq<real>| !#[trigger] only_solution(rows_v(rows@), x, k as nat),
        },
{
    let ghost first = rows_v(rows@);
    let mut m = rows;
    let mut col: usize = 0;
    while col < k
        invariant
            col <= k,
            m@.len() == k,
            wide(rows_v(m@), k as nat),
            same_solutions(first, rows_v(m@), k as nat),
            unit_columns(rows_v(m@), col as int),
        decreases k - col,
    {
        let ghost start = rows_v(m@);
        let piv: usize = find_pivot(&m, col, k);
        if piv == k {
            proof {
                assert forall|x: Seq<real>| !#[trigger] only_solution(first, x, k as nat) by {
                    no_pivot(start, col as int, k as nat, x);
                    if only_solution(first, x, k as nat) {
                        assert(solves(start, x, k as nat));
                        assert forall|y: Seq<real>| #[trigger] solves(start, y, k as nat) implies y == x by {
                            assert(solves(first, y, k as nat));
                        }
                        assert(only_solution(start, x, k as nat));
                    }
                }
            }
            return None;
        }
        proof {
            assert(start[piv as int].a.len() == k);
        }
        // bring the pivot up, and scale it to one
        let up = copy_row(&m[piv]);
        let down = copy_row(&m[col]);
        m.set(col, up);
        m.set(piv, down);
        let ghost swapped = rows_v(m@);
        proof {
            swap_keeps(start, col as int, piv as int, k as nat);
            assert(swapped =~= start.update(col as int, start[piv as int]).update(piv as int, start[col as int]));
            assert forall|i: int| 0 <= i < swapped.len() implies (#[trigger] swapped[i]).a.len() == k by {}
            assert(start[piv as int].a[col as int] != 0real);
            assert forall|i: int, c: int|
                #![trigger swapped[i].a[c]]
                0 <= i < swapped.len() && 0 <= c < col implies swapped[i].a[c] == (if i == c { 1real } else { 0real }) by {
                let u = if i == piv {
                    col as int
                } else if i == col {
                    piv as int
                } else {
                    i
                };
                assert(start[u].a[c] == (if u == c { 1real } else { 0real }));
            }
        }
        let p = m[col].a[col].inverse();
        let unit = scale_row(&m[col], &p);
        m.set(col, unit);
        let ghost scaled = rows_v(m@);
        proof {
            let q = swapped[col as int].a[col as int];
            assert(p@ == 1real / q);
            assert(p@ != 0real && q * p@ == 1real) by (nonlinear_arith)
                requires
                    p@ == 1real / q,
                    q != 0real,
            ;
            scale_keeps(swapped, col as int, p@, k as nat);
            assert(scaled =~= swapped.update(col as int, scaled_row(swapped[col as int], p@)));
            assert(scaled[col as int].a[col as int] == 1real);
            assert forall|i: int, c: int|
                #![trigger scaled[i].a[c]]
                0 <= i < scaled.len() && 0 <= c < col implies scaled[i].a[c] == (if i == c { 1real } else { 0real }) by {
                assert(swapped[i].a[c] == (if i == c { 1real } else { 0real }));
                if i == col {
                    let z = p@;
                    assert(0real * z == 0real) by (nonlinear_arith);
                }
            }
        }
        // clear the column in every other row
        let mut row: usize = 0;
        while row < k
            invariant
                row <= k,
                m@.len() == k,
                wide(rows_v(m@), k as nat),
                same_solutions(scaled, rows_v(m@), k as nat),
                unit_columns(rows_v(m@), col as int),
                rows_v(m@)[col as int].a[col as int] == 1real,
                forall|i: int| 0 <= i < row && i != col ==> (#[trigger] rows_v(m@)[i]).a[col as int] == 0real,
            decreases k - row,
        {
            let ghost cur = rows_v(m@);
            proof {
                assert(cur[row as int].a.len() == k);
                assert(cur[col as int].a.len() == k);
            }
            if row != col {
                let f = m[row].a[col].copy();
                let next = reduce_row(&m[row], &f, &m[col]);
                m.set(row, next);
                proof {
                    reduce_keeps(cur, row as int, col as int, f@, k as nat);
                    let now = rows_v(m@);
                    assert(now =~= cur.update(row as int, reduced_row(cur[row as int], f@, cur[col as int])));
                    let z = f@;
                    assert(z - z * 1real == 0real) by (nonlinear_arith);
                    assert(now[row as int].a[col as int] == 0real);
                    assert forall|i: int, c: int|
                        #![trigger now[i].a[c]]
                        0 <= i < now.len() && 0 <= c < col implies now[i].a[c] == (if i == c { 1real } else { 0real }) by {
                        assert(cur[i].a[c] == (if i == c { 1real } else { 0real }));
                        if i == row {
                            assert(cur[col as int].a[c] == 0real);
                            assert(z * 0real == 0real) by (nonlinear_arith);
                        }
                    }
                    assert forall|x: Seq<real>| #[trigger] solves(scaled, x, k as nat) == solves(now, x, k as nat) by {
                        assert(solves(cur, x, k as nat) == solves(now, x, k as nat));
                    }
                    assert forall|i: int| 0 <= i < row + 1 && i != col implies (#[trigger] now[i]).a[col as int]
                        == 0real by {
                        if i < row {
                            assert(now[i] == cur[i]);
                        }
                    }
                }
            }
            row += 1;
        }
        proof {
            let now = rows_v(m@);
            assert forall|x: Seq<real>| #[trigger] solves(first, x, k as nat) == solves(now, x, k as nat) by {
                assert(solves(start, x, k as nat) == solves(swapped, x, k as nat));
                assert(solves(swapped, x, k as nat) == solves(scaled, x, k as nat));
                assert(solves(scaled, x, k as nat) == solves(now, x, k as nat));
            }
            assert forall|i: int, c: int|
                #![trigger now[i].a[c]]
                0 <= i < now.len() && 0 <= c < col + 1 implies now[i].a[c] == (if i == c { 1real } else { 0real }) by {
                if c == col && i != col {
                    assert(now[i].a[col as int] == 0real);
                }
            }
        }
        col += 1;
    }
    let ghost last = rows_v(m@);
    let mut out: Vec<Rat> = Vec::new();
    let mut i: usize = 0;
    while i < k
        invariant
            i <= k,
            out@.len() == i,
            forall|t: int| 0 <= t < i ==> (#[trigger] out@[t])@ == last[t].b,
        decreases k - i,
    {
        out.push(m[i].b.copy());
        i += 1;
    }
    proof {
        let x = rats(out@);
        assert forall|t: int| 0 <= t < k implies (#[trigger] x[t]) == last[t].b by {
            assert(out@[t]@ == last[t].b);
        }
        unit_solved(last, k as nat, x);
        assert(solves(first, x, k as nat));
        assert forall|y: Seq<real>| #[trigger] solves(first, y, k as nat) implies y == x by {
            assert(solves(last, y, k as nat));
        }
    }
    Some(out)
}

// ---- vertices ----

fn sum_of(x: &Vec<Rat>) -> (r: Rat)
    ensures
        r@ == total(rats(x@), x@.len()),
{
    let mut s = Rat::zero();
    let mut i: usize = 0;
    while i < x.len()
        invariant
            i <= x@.len(),
            s@ == total(rats(x@), i as nat),
        decreases x@.len() - i,
    {
        s = s.add(&x[i]);
        i += 1;
    }
    s
}

fn dot_of(a: &Vec<Rat>, x: &Vec<Rat>) -> (r: Rat)
    requires
        a@.len() == x@.len(),
    ensures
        r@ == dot(rats(a@), rats(x@), x@.len()),
{
    let mut s = Rat::zero();
    let mut i: usize = 0;
    while i < x.len()
        invariant
            i <= x@.len(),
            a@.len() == x@.len(),
            s@ == dot(rats(a@), rats(x@), i as nat),
        decreases x@.len() - i,
    {
        s = s.add(&a[i].mul(&x[i]));
        i += 1;
    }
    s
}

fn is_satisfied(rows: &Vec<Row>, x: &Vec<Rat>) -> (r: bool)
    requires
        wide(rows_v(rows@), x@.len()),
    ensures
        r == satisfies(rows_v(rows@), rats(x@), x@.len()),
{
    let ghost rv = rows_v(rows@);
    let mut i: usize = 0;
    while i < rows.len()
        invariant
            rv == rows_v(rows@),
            wide(rv, x@.len()),
            i <= rows@.len(),
            forall|t: int| 0 <= t < i ==> dot((#[trigger] rv[t]).a, rats(x@), x@.len()) >= rv[t].b,
        decreases rows@.len() - i,
    {
        proof {
            assert(rv[i as int].a.len() == x@.len());
        }
        if dot_of(&rows[i].a, x).side(&rows[i].b) == Side::Before {
            proof {
                assert(dot(rv[i as int].a, rats(x@), x@.len()) < rv[i as int].b);
            }
            return false;
        }
        i += 1;
    }
    true
}

/// `x` is a vertex at places that continue `chosen` from `start` on.
pub open spec fn continues(rows: Seq<RowV>, x: Seq<real>, k: nat, chosen: Seq<int>, start: int, idx: Seq<int>) -> bool {
    &&& vertex_at(rows, x, k, idx)
    &&& chosen.len() <= idx.len()
    &&& idx.take(chosen.len() as int) == chosen
    &&& forall|t: int| chosen.len() <= t < idx.len() ==> (#[trigger] idx[t]) >= start
}

pub open spec fn reachable(rows: Seq<RowV>, x: Seq<real>, k: nat, chosen: Seq<int>, start: int) -> bool {
    exists|idx: Seq<int>| #[trigger] continues(rows, x, k, chosen, start, idx)
}

/// The smallest sum at a vertex that continues `chosen`.
spec fn least_from(rows: Seq<RowV>, k: nat, chosen: Seq<int>, start: int, r: Option<real>) -> bool {
    match r {
        Some(v) => {
            &&& exists|x: Seq<real>| #[trigger] reachable(rows, x, k, chosen, start) && total(x, k) == v
            &&& forall|x: Seq<real>| #[trigger] reachable(rows, x, k, chosen, start) ==> total(x, k) >= v
        },
        None => forall|x: Seq<real>| !#[trigger] reachable(rows, x, k, chosen, start),
    }
}

spec fn places(s: Seq<usize>) -> Seq<int> {
    Seq::new(s.len(), |i: int| s[i] as int)
}

/// The vertex at exactly these rows, if there is one.
fn vertex_of(rows: &Vec<Row>, k: usize, chosen: &Vec<usize>) -> (r: Option<Rat>)
    requires
        wide(rows_v(rows@), k as nat),
        chosen@.len() == k,
        ascending(places(chosen@), rows@.len() as int),
    ensures
        forall|start: int| #[trigger] least_from(rows_v(rows@), k as nat, places(chosen@), start, opt_real(r)),
{
    let ghost rv = rows_v(rows@);
    let ghost cv = places(chosen@);
    let mut sub: Vec<Row> = Vec::new();
    let mut i: usize = 0;
    while i < k
        invariant
            rv == rows_v(rows@),
            cv == places(chosen@),
            wide(rv, k as nat),
            chosen@.len() == k,
            ascending(cv, rows@.len() as int),
            i <= k,
            sub@.len() == i,
            forall|t: int| 0 <= t < i ==> (#[trigger] sub@[t])@ == rv[cv[t]],
        decreases k - i,
    {
        proof {
            assert(cv[i as int] < rows@.len());
        }
        sub.push(copy_row(&rows[chosen[i]]));
        i += 1;
    }
    let ghost sv = picked(rv, cv);
    proof {
        assert(rows_v(sub@) =~= sv);
        assert forall|t: int| 0 <= t < sv.len() implies (#[trigger] sv[t]).a.len() == k by {
            assert(cv[t] < rows@.len());
            assert(rv[cv[t]].a.len() == k);
        }
        assert forall|x: Seq<real>, start: int, idx: Seq<int>| #[trigger]
            continues(rv, x, k as nat, cv, start, idx) implies idx == cv by {
            assert(idx.take(cv.len() as int) =~= idx);
        }
    }
    match solve(sub, k) {
        None => {
            proof {
                assert forall|start: int| #[trigger] least_from(rv, k as nat, cv, start, None) by {
                    assert forall|x: Seq<real>| !#[trigger] reachable(rv, x, k as nat, cv, start) by {
                        if reachable(rv, x, k as nat, cv, start) {
                            let idx = choose|idx: Seq<int>| #[trigger] continues(rv, x, k as nat, cv, start, idx);
                            assert(idx == cv);
                            assert(only_solution(sv, x, k as nat));
                        }
                    }
                }
            }
            None
        },
        Some(x) => {
            let ghost xv = rats(x@);
            let ok: bool = is_satisfied(rows, &x);
            let s = sum_of(&x);
            proof {
                assert forall|start: int, y: Seq<real>| #[trigger]
                    reachable(rv, y, k as nat, cv, start) implies y == xv && ok by {
                    let idx = choose|idx: Seq<int>| #[trigger] continues(rv, y, k as nat, cv, start, idx);
                    assert(idx == cv);
                    assert(only_solution(sv, y, k as nat));
                    assert(solves(sv, y, k as nat));
                }
                assert forall|start: int| ok implies #[trigger] reachable(rv, xv, k as nat, cv, start) by {
                    assert(cv.take(cv.len() as int) =~= cv);
                    assert(continues(rv, xv, k as nat, cv, start, cv));
                }
                let found: Option<real> = if ok {
                    Some(s@)
                } else {
                    None
                };
                assert forall|start: int| #[trigger] least_from(rv, k as nat, cv, start, found) by {
                    if ok {
                        assert(reachable(rv, xv, k as nat, cv, start));
                    }
                }
            }
            if ok {
                Some(s)
            } else {
                None
            }
        },
    }
}

/// The smallest sum of coordinates at a vertex whose rows continue `chosen`.
#[verifier::loop_isolation(false)]
fn search(rows: &Vec<Row>, k: usize, chosen: &mut Vec<usize>, start: usize) -> (r: Option<Rat>)
    requires
        wide(rows_v(rows@), k as nat),
        old(chosen)@.len() <= k,
        ascending(places(old(chosen)@), rows@.len() as int),
        start <= rows@.len(),
        forall|t: int| 0 <= t < old(chosen)@.len() ==> (#[trigger] old(chosen)@[t]) < start,
    ensures
        final(chosen)@ == old(chosen)@,
        least_from(rows_v(rows@), k as nat, places(old(chosen)@), start as int, opt_real(r)),
    decreases k - old(chosen)@.len(),
{
    let ghost rv = rows_v(rows@);
    let ghost c0 = chosen@;
    let ghost cv = places(chosen@);
    let ghost m = rows@.len() as int;
    if chosen.len() == k {
        return vertex_of(rows, k, chosen);
    }
    let mut best: Option<Rat> = None;
    let mut i: usize = start;
    // what was seen: the vertices whose next row is below i
    while i < rows.len()
        invariant
            start <= i <= m,
            chosen@ == c0,
            match best {
                Some(v) => {
                    &&& exists|x: Seq<real>|
                        #[trigger] reachable(rv, x, k as nat, cv, start as int) && total(x, k as nat) == v@
                    &&& forall|x: Seq<real>, idx: Seq<int>| #[trigger]
                        continues(rv, x, k as nat, cv, start as int, idx) && idx[cv.len() as int] < i ==> total(
                            x,
                            k as nat,
                        ) >= v@
                },
                None => forall|x: Seq<real>, idx: Seq<int>| #[trigger]
                    continues(rv, x, k as nat, cv, start as int, idx) ==> idx[cv.len() as int] >= i,
            },
        decreases m - i,
    {
        chosen.push(i);
        let ghost cv2 = cv.push(i as int);
        proof {
            assert(places(chosen@) =~= cv2);
            assert forall|t: int, u: int| 0 <= t < u < cv2.len() implies (#[trigger] cv2[t]) < (#[trigger] cv2[u]) by {
                if u == cv.len() {
                    assert(c0[t] < start);
                } else {
                    assert(cv[t] < cv[u]);
                }
            }
            assert forall|t: int| 0 <= t < cv2.len() implies 0 <= (#[trigger] cv2[t]) < m by {
                if t < cv.len() {
                    assert(0 <= cv[t] < m);
                }
            }
            assert forall|t: int| 0 <= t < chosen@.len() implies (#[trigger] chosen@[t]) < i + 1 by {
                if t < c0.len() {
                    assert(c0[t] < start);
                }
            }
        }
        let found = search(rows, k, chosen, i + 1);
        let _ = chosen.pop();
        proof {
            assert(chosen@ =~= c0);
            // a vertex whose next row is i continues the longer list, and the other way round
            assert forall|x: Seq<real>, idx: Seq<int>| #[trigger]
                continues(rv, x, k as nat, cv, start as int, idx) && idx[cv.len() as int] == i implies continues(
                rv,
                x,
                k as nat,
                cv2,
                i + 1,
                idx,
            ) by {
                assert(idx.take(cv2.len() as int) =~= cv2) by {
                    assert forall|t: int| 0 <= t < cv2.len() implies idx.take(cv2.len() as int)[t] == cv2[t] by {
                        if t < cv.len() {
                            assert(idx.take(cv.len() as int)[t] == cv[t]);
                        }
                    }
                }
                assert forall|t: int| cv2.len() <= t < idx.len() implies (#[trigger] idx[t]) >= i + 1 by {
                    assert(idx[cv.len() as int] < idx[t]);
                }
            }
            assert forall|x: Seq<real>| reachable(rv, x, k as nat, cv2, i + 1) implies #[trigger] reachable(
                rv,
                x,
                k as nat,
                cv,
                start as int,
            ) by {
                let idx = choose|idx: Seq<int>| #[trigger] continues(rv, x, k as nat, cv2, i + 1, idx);
                assert(idx.take(cv.len() as int) =~= cv) by {
                    assert forall|t: int| 0 <= t < cv.len() implies idx.take(cv.len() as int)[t] == cv[t] by {
                        assert(idx.take(cv2.len() as int)[t] == cv2[t]);
                    }
                }
                assert(idx[cv.len() as int] == i) by {
                    assert(idx.take(cv2.len() as int)[cv.len() as int] == cv2[cv.len() as int]);
                }
                assert(continues(rv, x, k as nat, cv, start as int, idx));
            }
            assert forall|x: Seq<real>, idx: Seq<int>| #[trigger]
                continues(rv, x, k as nat, cv, start as int, idx) && idx[cv.len() as int] == i implies reachable(
                rv,
                x,
                k as nat,
                cv2,
                i + 1,
            ) by {
                assert(continues(rv, x, k as nat, cv2, i + 1, idx));
            }
        }
        let ghost old_best = best;
        best = match (best, found) {
            (Some(a), Some(b)) => if b.side(&a) == Side::Before {
                Some(b)
            } else {
                Some(a)
            },
            (Some(a), None) => Some(a),
            (None, f) => f,
        };
        proof {
            let fv = opt_real(found);
            if let Some(v) = fv {
                let x = choose|x: Seq<real>| #[trigger] reachable(rv, x, k as nat, cv2, i + 1) && total(x, k as nat) == v;
                assert(reachable(rv, x, k as nat, cv2, i + 1));
                assert(reachable(rv, x, k as nat, cv, start as int));
            }
            assert forall|x: Seq<real>, idx: Seq<int>| #[trigger]
                continues(rv, x, k as nat, cv, start as int, idx) && idx[cv.len() as int] < i + 1 implies best is Some
                && total(x, k as nat) >= best->0@ by {
                if idx[cv.len() as int] == i {
                    assert(reachable(rv, x, k as nat, cv2, i + 1));
                }
            }
        }
        i += 1;
    }
    proof {
        assert forall|x: Seq<real>| #[trigger] reachable(rv, x, k as nat, cv, start as int) implies exists|
            idx: Seq<int>,
        | #[trigger]
            continues(rv, x, k as nat, cv, start as int, idx) && idx[cv.len() as int] < m by {
            let idx = choose|idx: Seq<int>| #[trigger] continues(rv, x, k as nat, cv, start as int, idx);
            assert(idx[cv.len() as int] < m);
        }
    }
    best
}

/// The smallest sum of coordinates at a vertex of `rows ≥`, if there is a vertex.
pub fn least_sum(rows: &Vec<Row>, k: usize) -> (r: Option<Rat>)
    requires
        wide(rows_v(rows@), k as nat),
    ensures
        least_vertex(rows_v(rows@), k as nat, opt_real(r)),
{
    let mut chosen: Vec<usize> = Vec::new();
    let ghost rv = rows_v(rows@);
    let ghost none: Seq<int> = Seq::empty();
    proof {
        assert(places(chosen@) =~= none);
    }
    let r = search(rows, k, &mut chosen, 0);
    proof {
        assert forall|x: Seq<real>| #[trigger] vertex(rv, x, k as nat) == reachable(rv, x, k as nat, none, 0) by {
            if vertex(rv, x, k as nat) {
                let idx = choose|idx: Seq<int>| #[trigger] vertex_at(rv, x, k as nat, idx);
                assert(idx.take(0) =~= none);
                assert(continues(rv, x, k as nat, none, 0, idx));
            }
            if reachable(rv, x, k as nat, none, 0) {
                let idx = choose|idx: Seq<int>| #[trigger] continues(rv, x, k as nat, none, 0, idx);
                assert(vertex_at(rv, x, k as nat, idx));
            }
        }
        match opt_real(r) {
            Some(v) => {
                let x = choose|x: Seq<real>| #[trigger] reachable(rv, x, k as nat, none, 0) && total(x, k as nat) == v;
                assert(vertex(rv, x, k as nat));
                assert forall|y: Seq<real>| #[trigger] vertex(rv, y, k as nat) implies total(y, k as nat) >= v by {
                    assert(reachable(rv, y, k as nat, none, 0));
                }
            },
            None => {
                assert forall|y: Seq<real>| !#[trigger] vertex(rv, y, k as nat) by {
                    assert(!reachable(rv, y, k as nat, none, 0));
                }
            },
        }
    }
    r
}

} // verus!
