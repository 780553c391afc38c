//! The tiled loops of a product run over the turns of the loops they replace, each once.

use vstd::prelude::*;
use crate::ast::BinOp;
use crate::cost::measure::whole_quotient;
use crate::cost::rewrite::{
    mac_line, naive_from, naive_here, naive_of, replaced_at, s_tile, stmt_of, under, v_clear, v_hi, v_lo, v_side,
    v_tile_body, v_tiled, v_tiles, NaiveV, TileV,
};
use crate::cost::scope::local_of;
use crate::ir::{BlockV, ExprV, FuncV, KindV, LocalV, StmtV, Ty};
use crate::irbuild::{v_for, v_int};

verus! {

// ---- what a bound is worth, and when a statement runs ----

/// The values of the locals.
pub type Env = spec_fn(usize) -> int;

/// The values of the expressions that are not arithmetic on locals.
pub type Other = spec_fn(ExprV, Env) -> int;

pub open spec fn with_value(env: Env, v: usize, x: int) -> Env {
    |l: usize|
        if l == v {
            x
        } else {
            env(l)
        }
}

/// The value of an integer expression.
pub open spec fn amount(e: ExprV, env: Env, other: Other) -> int
    decreases e,
{
    match e.kind {
        KindV::Int(v) => v as int,
        KindV::Local(l) => env(l),
        KindV::Binary(op, a, b) => match op {
            BinOp::Add => amount(*a, env, other) + amount(*b, env, other),
            BinOp::Sub => amount(*a, env, other) - amount(*b, env, other),
            BinOp::Mul => amount(*a, env, other) * amount(*b, env, other),
            BinOp::Div => whole_quotient(amount(*a, env, other), amount(*b, env, other)),
            _ => other(e, env),
        },
        KindV::MinMax(min, a, b) => {
            let (x, y) = (amount(*a, env, other), amount(*b, env, other));
            if (x < y) == min {
                x
            } else {
                y
            }
        },
        _ => other(e, env),
    }
}

/// A turn of three loops.
pub type Turn = (int, int, int);

/// The statement whose turns are asked for, and the three loop variables.
pub struct Asked {
    pub at: StmtV,
    pub i: usize,
    pub j: usize,
    pub k: usize,
}

/// The turns, in order, at which a statement inside `for` loops runs, where only the loops change
/// what their bounds depend on.
pub open spec fn stmt_turns(s: StmtV, q: Asked, env: Env, other: Other) -> Seq<Turn>
    decreases s, 0nat,
{
    if s == q.at {
        seq![(env(q.i), env(q.j), env(q.k))]
    } else {
        match s {
            StmtV::For { var, start, end, body } => range_turns(
                body.stmts,
                var,
                amount(start, env, other),
                amount(end, env, other),
                q,
                env,
                other,
            ),
            _ => Seq::empty(),
        }
    }
}

pub open spec fn list_turns(s: Seq<StmtV>, q: Asked, env: Env, other: Other) -> Seq<Turn>
    decreases s, 0nat,
{
    if s.len() == 0 {
        Seq::empty()
    } else {
        list_turns(s.drop_last(), q, env, other) + stmt_turns(s.last(), q, env, other)
    }
}

/// The turns of a loop body with the variable from `lo` up to below `hi`.
pub open spec fn range_turns(s: Seq<StmtV>, var: usize, lo: int, hi: int, q: Asked, env: Env, other: Other) -> Seq<Turn>
    decreases s, (if lo < hi { (hi - lo) as nat } else { 0nat }) + 1,
{
    if lo >= hi {
        Seq::empty()
    } else {
        range_turns(s, var, lo, hi - 1, q, env, other) + list_turns(s, q, with_value(env, var, hi - 1), other)
    }
}

/// How often a turn occurs.
pub open spec fn times(s: Seq<Turn>, x: Turn) -> nat
    decreases s.len(),
{
    if s.len() == 0 {
        0
    } else {
        times(s.drop_last(), x) + (if s.last() == x {
            1nat
        } else {
            0
        })
    }
}

proof fn times_append(a: Seq<Turn>, b: Seq<Turn>, x: Turn)
    ensures
        times(a + b, x) == times(a, x) + times(b, x),
    decreases b.len(),
{
    if b.len() == 0 {
        assert(a + b =~= a);
    } else {
        assert((a + b).drop_last() =~= a + b.drop_last());
        assert((a + b).last() == b.last());
        times_append(a, b.drop_last(), x);
    }
}

/// Where only one value of the variable gives the turn, the loop gives it as often as that value.
proof fn range_times(
    s: Seq<StmtV>,
    var: usize,
    lo: int,
    hi: int,
    q: Asked,
    env: Env,
    other: Other,
    x: Turn,
    target: int,
)
    requires
        forall|v: int|
            lo <= v < hi && v != target ==> times(#[trigger] list_turns(s, q, with_value(env, var, v), other), x) == 0,
    ensures
        times(range_turns(s, var, lo, hi, q, env, other), x) == if lo <= target < hi {
            times(list_turns(s, q, with_value(env, var, target), other), x)
        } else {
            0
        },
    decreases (if lo < hi { hi - lo } else { 0 }),
{
    if lo < hi {
        range_times(s, var, lo, hi - 1, q, env, other, x, target);
        times_append(
            range_turns(s, var, lo, hi - 1, q, env, other),
            list_turns(s, q, with_value(env, var, hi - 1), other),
            x,
        );
    }
}

proof fn one_statement(s: Seq<StmtV>, q: Asked, env: Env, other: Other)
    requires
        s.len() == 1,
    ensures
        list_turns(s, q, env, other) == stmt_turns(s[0], q, env, other),
{
    assert(s.drop_last() =~= Seq::empty());
    assert(list_turns(s.drop_last(), q, env, other) =~= Seq::empty());
    assert(Seq::<Turn>::empty() + stmt_turns(s[0], q, env, other) =~= stmt_turns(s[0], q, env, other));
}

/// Of three statements only the one in the middle counts.
proof fn middle_statement(s: Seq<StmtV>, q: Asked, env: Env, other: Other)
    requires
        s.len() == 3,
        s[0] != q.at,
        s[2] != q.at,
        !(s[0] is For),
        !(s[2] is For),
    ensures
        list_turns(s, q, env, other) == stmt_turns(s[1], q, env, other),
{
    let two = s.drop_last();
    let one = two.drop_last();
    assert(one.drop_last() =~= Seq::empty());
    assert(list_turns(one.drop_last(), q, env, other) =~= Seq::empty());
    assert(one.last() == s[0] && two.last() == s[1] && s.last() == s[2]);
    assert(stmt_turns(s[0], q, env, other) =~= Seq::empty());
    assert(stmt_turns(s[2], q, env, other) =~= Seq::empty());
    assert(list_turns(one, q, env, other) =~= Seq::empty());
    assert(list_turns(two, q, env, other) =~= stmt_turns(s[1], q, env, other));
    assert(list_turns(s, q, env, other) =~= stmt_turns(s[1], q, env, other));
}

// ---- what the law asks of the bounds ----

/// The values agree but for the loop variables.
pub open spec fn agree(a: Env, b: Env, loops: Seq<usize>) -> bool {
    forall|l: usize| !loops.contains(l) ==> #[trigger] a(l) == b(l)
}

/// The bound has one value, whatever the loop variables are.
pub open spec fn steady(e: ExprV, env: Env, other: Other, loops: Seq<usize>, n: int) -> bool {
    forall|h: Env| agree(env, h, loops) ==> #[trigger] amount(e, h, other) == n
}

pub open spec fn distinct(s: Seq<usize>) -> bool {
    forall|a: int, b: int| 0 <= a < b < s.len() ==> s[a] != s[b]
}

/// The turns of a product: every coordinate below its bound.
pub open spec fn in_box(x: Turn, ni: int, nj: int, nk: int) -> bool {
    0 <= x.0 < ni && 0 <= x.1 < nj && 0 <= x.2 < nk
}

proof fn with_agrees(env: Env, h: Env, loops: Seq<usize>, v: usize, x: int)
    requires
        agree(env, h, loops),
        loops.contains(v),
    ensures
        agree(env, with_value(h, v, x), loops),
{
}

// ---- the loops as they were ----

/// What the loops of the shape give.
proof fn naive_times(s: StmtV, nv: NaiveV, env: Env, other: Other, ni: int, nj: int, nk: int, x: Turn)
    requires
        naive_here(s) == Some(nv),
        distinct(seq![nv.i, nv.j, nv.k]),
        steady(nv.ni, env, other, seq![nv.i, nv.j, nv.k], ni),
        steady(nv.nj, env, other, seq![nv.i, nv.j, nv.k], nj),
        steady(nv.nk, env, other, seq![nv.i, nv.j, nv.k], nk),
    ensures
        times(stmt_turns(s, asked(nv), env, other), x) == if in_box(x, ni, nj, nk) {
            1nat
        } else {
            0
        },
{
    let q = asked(nv);
    let loops = seq![nv.i, nv.j, nv.k];
    assert(loops[0] == nv.i && loops[1] == nv.j && loops[2] == nv.k);
    assert(loops.contains(nv.i) && loops.contains(nv.j) && loops.contains(nv.k));
    let b1 = s->For_body;
    let s2 = b1.stmts[0];
    let b2 = s2->For_body;
    let s3 = b2.stmts[1];
    let b3 = s3->For_body;
    assert(s3 is For && s2 is For && s is For);
    assert(agree(env, env, loops));
    assert forall|a: int| #[trigger] times(list_turns(b1.stmts, q, with_value(env, nv.i, a), other), x) == (if a == x.0
        && 0 <= x.1 < nj && 0 <= x.2 < nk {
        1nat
    } else {
        0
    }) by {
        let e1 = with_value(env, nv.i, a);
        with_agrees(env, env, loops, nv.i, a);
        one_statement(b1.stmts, q, e1, other);
        assert forall|b: int| #[trigger] times(list_turns(b2.stmts, q, with_value(e1, nv.j, b), other), x) == (if a
            == x.0 && b == x.1 && 0 <= x.2 < nk {
            1nat
        } else {
            0
        }) by {
            let e2 = with_value(e1, nv.j, b);
            with_agrees(env, e1, loops, nv.j, b);
            middle_statement(b2.stmts, q, e2, other);
            innermost(b3.stmts, nv, e2, other, 0, nk, x);
            assert(amount(nv.nk, e2, other) == nk);
            assert(e2(nv.i) == a && e2(nv.j) == b);
        }
        assert(amount(nv.nj, e1, other) == nj);
        range_times(b2.stmts, nv.j, 0, nj, q, e1, other, x, x.1);
    }
    assert(amount(nv.ni, env, other) == ni);
    range_times(b1.stmts, nv.i, 0, ni, q, env, other, x, x.0);
}

pub open spec fn asked(nv: NaiveV) -> Asked {
    Asked { at: nv.mac, i: nv.i, j: nv.j, k: nv.k }
}

/// The innermost loop at one turn of the two around it.
proof fn innermost(s: Seq<StmtV>, nv: NaiveV, env: Env, other: Other, lo: int, hi: int, x: Turn)
    requires
        s.len() == 1,
        s[0] == nv.mac,
        nv.k != nv.i,
        nv.k != nv.j,
    ensures
        times(range_turns(s, nv.k, lo, hi, asked(nv), env, other), x) == if env(nv.i) == x.0 && env(nv.j) == x.1 && lo
            <= x.2 < hi {
            1nat
        } else {
            0
        },
{
    let q = asked(nv);
    assert forall|c: int| #[trigger] times(list_turns(s, q, with_value(env, nv.k, c), other), x) == (if env(nv.i) == x.0
        && env(nv.j) == x.1 && c == x.2 {
        1nat
    } else {
        0
    }) by {
        let h = with_value(env, nv.k, c);
        one_statement(s, q, h, other);
        let t = stmt_turns(s[0], q, h, other);
        assert(t == seq![(h(q.i), h(q.j), h(q.k))]);
        assert(t.drop_last() =~= Seq::empty());
        assert(times(t, x) == times(t.drop_last(), x) + (if t.last() == x {
            1nat
        } else {
            0
        }));
    }
    range_times(s, nv.k, lo, hi, q, env, other, x, x.2);
}

// ---- the tiled loops ----

/// The coordinate is in the tile.
pub open spec fn in_tile(x: int, v: int, side: int, n: int) -> bool {
    v * side <= x < v * side + side && x < n
}

/// A coordinate is in one tile, and below the bound exactly where the tile is one of those.
proof fn tile_of(x: int, side: int, n: int, count: int)
    requires
        side >= 1,
        count == whole_quotient(n + side - 1, side) || (count == whole_quotient(n, side) && n % side == 0),
    ensures
        forall|v: int| #[trigger] in_tile(x, v, side, n) ==> v == x / side,
        0 <= x < n <==> 0 <= x / side < count && in_tile(x, x / side, side, n),
{
    let v0 = x / side;
    vstd::arithmetic::div_mod::lemma_fundamental_div_mod(x, side);
    vstd::arithmetic::div_mod::lemma_mod_bound(x, side);
    assert(side * v0 == v0 * side) by (nonlinear_arith);
    assert forall|v: int| #[trigger] in_tile(x, v, side, n) implies v == v0 by {
        assert(v == v0) by (nonlinear_arith)
            requires
                v * side <= x < v * side + side,
                v0 * side <= x < v0 * side + side,
                side >= 1,
        ;
    }
    if 0 <= x < n {
        assert(v0 >= 0) by (nonlinear_arith)
            requires
                x >= 0,
                x < v0 * side + side,
                side >= 1,
        ;
        let top = if n % side == 0 && count == whole_quotient(n, side) {
            n
        } else {
            n + side - 1
        };
        let k = top / side;
        vstd::arithmetic::div_mod::lemma_fundamental_div_mod(top, side);
        vstd::arithmetic::div_mod::lemma_mod_bound(top, side);
        assert(side * k == k * side) by (nonlinear_arith);
        assert(count == k);
        assert(v0 < k) by (nonlinear_arith)
            requires
                v0 * side <= x,
                x < n,
                n <= k * side,
                side >= 1,
        ;
    }
    if 0 <= v0 && in_tile(x, v0, side, n) {
        assert(x >= 0) by (nonlinear_arith)
            requires
                v0 >= 0,
                v0 * side <= x,
                side >= 1,
        ;
    }
}

/// The six loop variables of the tiled loops.
pub open spec fn tile_loops(nv: NaiveV, ii: usize, jj: usize, kk: usize) -> Seq<usize> {
    seq![nv.i, nv.j, nv.k, ii, jj, kk]
}

/// The tile side has a value, which is at least one; a side that is a parameter divides the bounds.
pub open spec fn side_is(t: TileV, env: Env, loops: Seq<usize>, side: int, ni: int, nj: int, nk: int) -> bool {
    &&& side >= 1
    &&& match t {
        TileV::Fixed(n) => n == side,
        TileV::Param(l) => env(l) == side && !loops.contains(l) && ni % side == 0 && nj % side == 0 && nk % side == 0,
    }
}

proof fn bounds_of(t: TileV, v: usize, n: ExprV, line: u32, h: Env, other: Other, side: int, x: int)
    requires
        side >= 1,
        match t {
            TileV::Fixed(k) => k == side,
            TileV::Param(l) => h(l) == side,
        },
        amount(n, h, other) == x,
    ensures
        amount(v_lo(t, v, line), h, other) == h(v) * side,
        amount(v_hi(t, v, n, line), h, other) == if h(v) * side + side < x {
            h(v) * side + side
        } else {
            x
        },
        amount(v_tiles(t, n, line), h, other) == match t {
            TileV::Fixed(_) => whole_quotient(x + side - 1, side),
            TileV::Param(_) => whole_quotient(x, side),
        },
{
    reveal_with_fuel(amount, 5);
    assert(amount(v_side(t, line), h, other) == side);
    assert(amount(v_lo(t, v, line), h, other) == h(v) * side);
}

/// What the innermost three loops of a tile give, one after the other.
proof fn tile_times(
    nv: NaiveV,
    t: TileV,
    ii: usize,
    jj: usize,
    kk: usize,
    stmts: Seq<StmtV>,
    line: u32,
    env: Env,
    h: Env,
    other: Other,
    side: int,
    ni: int,
    nj: int,
    nk: int,
    x: Turn,
)
    requires
        distinct(tile_loops(nv, ii, jj, kk)),
        side_is(t, env, tile_loops(nv, ii, jj, kk), side, ni, nj, nk),
        steady(nv.ni, env, other, tile_loops(nv, ii, jj, kk), ni),
        steady(nv.nj, env, other, tile_loops(nv, ii, jj, kk), nj),
        steady(nv.nk, env, other, tile_loops(nv, ii, jj, kk), nk),
        agree(env, h, tile_loops(nv, ii, jj, kk)),
        !(nv.mac is For),
        stmts.len() == 3,
        stmts[0] is Let,
        stmts[2] is Assign,
        nv.mac is Assign,
        stmts[2] != nv.mac,
        stmts[1] == v_for(nv.k, v_lo(t, kk, line), v_hi(t, kk, nv.nk, line), seq![nv.mac]),
    ensures
        ({
            let over_j = v_for(nv.j, v_lo(t, jj, line), v_hi(t, jj, nv.nj, line), stmts);
            let over_i = v_for(nv.i, v_lo(t, ii, line), v_hi(t, ii, nv.ni, line), seq![over_j]);
            times(stmt_turns(over_i, asked(nv), h, other), x) == if in_tile(x.0, h(ii), side, ni) && in_tile(
                x.1,
                h(jj),
                side,
                nj,
            ) && in_tile(x.2, h(kk), side, nk) {
                1nat
            } else {
                0
            }
        }),
{
    let q = asked(nv);
    let loops = tile_loops(nv, ii, jj, kk);
    let over_j = v_for(nv.j, v_lo(t, jj, line), v_hi(t, jj, nv.nj, line), stmts);
    let over_i = v_for(nv.i, v_lo(t, ii, line), v_hi(t, ii, nv.ni, line), seq![over_j]);
    assert(loops[0] == nv.i && loops[1] == nv.j && loops[2] == nv.k && loops[3] == ii && loops[4] == jj && loops[5]
        == kk);
    assert(loops.contains(nv.i) && loops.contains(nv.j) && loops.contains(nv.k));
    bounds_of(t, ii, nv.ni, line, h, other, side, ni);
    let (lo_i, hi_i) = (h(ii) * side, amount(v_hi(t, ii, nv.ni, line), h, other));
    assert forall|a: int| #[trigger] times(list_turns(seq![over_j], q, with_value(h, nv.i, a), other), x) == (if a == x.0
        && in_tile(x.1, h(jj), side, nj) && in_tile(x.2, h(kk), side, nk) {
        1nat
    } else {
        0
    }) by {
        let e1 = with_value(h, nv.i, a);
        with_agrees(env, h, loops, nv.i, a);
        one_statement(seq![over_j], q, e1, other);
        bounds_of(t, jj, nv.nj, line, e1, other, side, nj);
        assert forall|b: int| #[trigger] times(list_turns(stmts, q, with_value(e1, nv.j, b), other), x) == (if a == x.0
            && b == x.1 && in_tile(x.2, h(kk), side, nk) {
            1nat
        } else {
            0
        }) by {
            let e2 = with_value(e1, nv.j, b);
            with_agrees(env, e1, loops, nv.j, b);
            middle_statement(stmts, q, e2, other);
            bounds_of(t, kk, nv.nk, line, e2, other, side, nk);
            innermost(
                seq![nv.mac],
                nv,
                e2,
                other,
                h(kk) * side,
                amount(v_hi(t, kk, nv.nk, line), e2, other),
                x,
            );
            assert(e2(nv.i) == a && e2(nv.j) == b && e2(kk) == h(kk));
            assert(stmts[1] != q.at);
        }
        range_times(stmts, nv.j, h(jj) * side, amount(v_hi(t, jj, nv.nj, line), e1, other), q, e1, other, x, x.1);
        assert(e1(jj) == h(jj));
        assert(over_j != q.at);
    }
    range_times(seq![over_j], nv.i, lo_i, hi_i, q, h, other, x, x.0);
    assert(over_i != q.at);
}

/// The tiled loops give every turn of the product once, and nothing else.
proof fn tiled_times(
    nv: NaiveV,
    t: TileV,
    ii: usize,
    jj: usize,
    kk: usize,
    stmts: Seq<StmtV>,
    line: u32,
    env: Env,
    other: Other,
    side: int,
    ni: int,
    nj: int,
    nk: int,
    x: Turn,
)
    requires
        distinct(tile_loops(nv, ii, jj, kk)),
        side_is(t, env, tile_loops(nv, ii, jj, kk), side, ni, nj, nk),
        steady(nv.ni, env, other, tile_loops(nv, ii, jj, kk), ni),
        steady(nv.nj, env, other, tile_loops(nv, ii, jj, kk), nj),
        steady(nv.nk, env, other, tile_loops(nv, ii, jj, kk), nk),
        stmts.len() == 3,
        stmts[0] is Let,
        stmts[2] is Assign,
        nv.mac is Assign,
        stmts[2] != nv.mac,
        stmts[1] == v_for(nv.k, v_lo(t, kk, line), v_hi(t, kk, nv.nk, line), seq![nv.mac]),
    ensures
        ({
            let over_j = v_for(nv.j, v_lo(t, jj, line), v_hi(t, jj, nv.nj, line), stmts);
            let over_i = v_for(nv.i, v_lo(t, ii, line), v_hi(t, ii, nv.ni, line), seq![over_j]);
            let over_kk = v_for(kk, v_int(0, line), v_tiles(t, nv.nk, line), seq![over_i]);
            let over_jj = v_for(jj, v_int(0, line), v_tiles(t, nv.nj, line), seq![over_kk]);
            let over_ii = v_for(ii, v_int(0, line), v_tiles(t, nv.ni, line), seq![over_jj]);
            times(stmt_turns(over_ii, asked(nv), env, other), x) == if in_box(x, ni, nj, nk) {
                1nat
            } else {
                0
            }
        }),
{
    let q = asked(nv);
    let loops = tile_loops(nv, ii, jj, kk);
    let over_j = v_for(nv.j, v_lo(t, jj, line), v_hi(t, jj, nv.nj, line), stmts);
    let over_i = v_for(nv.i, v_lo(t, ii, line), v_hi(t, ii, nv.ni, line), seq![over_j]);
    let over_kk = v_for(kk, v_int(0, line), v_tiles(t, nv.nk, line), seq![over_i]);
    let over_jj = v_for(jj, v_int(0, line), v_tiles(t, nv.nj, line), seq![over_kk]);
    let over_ii = v_for(ii, v_int(0, line), v_tiles(t, nv.ni, line), seq![over_jj]);
    assert(loops[0] == nv.i && loops[1] == nv.j && loops[2] == nv.k && loops[3] == ii && loops[4] == jj && loops[5]
        == kk);
    assert(loops.contains(ii) && loops.contains(jj) && loops.contains(kk));
    assert(agree(env, env, loops));
    let ti = amount(v_tiles(t, nv.ni, line), env, other);
    bounds_of(t, ii, nv.ni, line, env, other, side, ni);
    tile_of(x.0, side, ni, ti);
    assert forall|a: int| #[trigger] times(list_turns(seq![over_jj], q, with_value(env, ii, a), other), x) == (
    if in_tile(x.0, a, side, ni) && 0 <= x.1 < nj && 0 <= x.2 < nk {
        1nat
    } else {
        0
    }) by {
        let e1 = with_value(env, ii, a);
        with_agrees(env, env, loops, ii, a);
        one_statement(seq![over_jj], q, e1, other);
        let tj = amount(v_tiles(t, nv.nj, line), e1, other);
        bounds_of(t, jj, nv.nj, line, e1, other, side, nj);
        tile_of(x.1, side, nj, tj);
        assert forall|b: int| #[trigger] times(list_turns(seq![over_kk], q, with_value(e1, jj, b), other), x) == (
        if in_tile(x.0, a, side, ni) && in_tile(x.1, b, side, nj) && 0 <= x.2 < nk {
            1nat
        } else {
            0
        }) by {
            let e2 = with_value(e1, jj, b);
            with_agrees(env, e1, loops, jj, b);
            one_statement(seq![over_kk], q, e2, other);
            let tk = amount(v_tiles(t, nv.nk, line), e2, other);
            bounds_of(t, kk, nv.nk, line, e2, other, side, nk);
            tile_of(x.2, side, nk, tk);
            assert forall|c: int| #[trigger] times(list_turns(seq![over_i], q, with_value(e2, kk, c), other), x) == (
            if in_tile(x.0, a, side, ni) && in_tile(x.1, b, side, nj) && in_tile(x.2, c, side, nk) {
                1nat
            } else {
                0
            }) by {
                let e3 = with_value(e2, kk, c);
                with_agrees(env, e2, loops, kk, c);
                one_statement(seq![over_i], q, e3, other);
                tile_times(nv, t, ii, jj, kk, stmts, line, env, e3, other, side, ni, nj, nk, x);
                assert(e3(ii) == a && e3(jj) == b && e3(kk) == c);
            }
            range_times(seq![over_i], kk, 0, tk, q, e2, other, x, x.2 / side);
            assert(over_kk != q.at);
            assert(amount(v_int(0, line), e2, other) == 0);
        }
        range_times(seq![over_kk], jj, 0, tj, q, e1, other, x, x.1 / side);
        assert(over_jj != q.at);
        assert(amount(v_int(0, line), e1, other) == 0);
    }
    range_times(seq![over_jj], ii, 0, ti, q, env, other, x, x.0 / side);
    assert(over_ii != q.at);
    assert(amount(v_int(0, line), env, other) == 0);
}

// ---- the law ----

/// Two sequences of turns give the turns of a product, each once.
pub open spec fn same_turns(a: Seq<Turn>, b: Seq<Turn>, ni: int, nj: int, nk: int) -> bool {
    forall|x: Turn|
        #![trigger times(a, x)]
        #![trigger times(b, x)]
        times(a, x) == times(b, x) && times(a, x) == if in_box(x, ni, nj, nk) {
            1nat
        } else {
            0
        }
}

/// The tiled loops run the multiply-accumulate at the turns `(i, j, k)` at which the loops they
/// replace run it, each once: where the bounds do not depend on the loop variables, and the side is
/// at least one and, where it is a parameter, divides the bounds.
pub proof fn tiled_same_turns(
    s: StmtV,
    nv: NaiveV,
    t: TileV,
    ii: usize,
    jj: usize,
    kk: usize,
    elem: Ty,
    line: u32,
    env: Env,
    other: Other,
    side: int,
    ni: int,
    nj: int,
    nk: int,
)
    requires
        naive_here(s) == Some(nv),
        distinct(tile_loops(nv, ii, jj, kk)),
        side_is(t, env, tile_loops(nv, ii, jj, kk), side, ni, nj, nk),
        steady(nv.ni, env, other, tile_loops(nv, ii, jj, kk), ni),
        steady(nv.nj, env, other, tile_loops(nv, ii, jj, kk), nj),
        steady(nv.nk, env, other, tile_loops(nv, ii, jj, kk), nk),
    ensures
        same_turns(
            stmt_turns(s, asked(nv), env, other),
            stmt_turns(v_tiled(nv, t, ii, jj, kk, elem, line), asked(nv), env, other),
            ni,
            nj,
            nk,
        ),
{
    let loops = tile_loops(nv, ii, jj, kk);
    let three = seq![nv.i, nv.j, nv.k];
    let stmts = v_tile_body(nv, t, kk, elem, line);
    assert(loops[0] == nv.i && loops[1] == nv.j && loops[2] == nv.k);
    assert(distinct(three));
    assert forall|h: Env| agree(env, h, three) implies agree(env, h, loops) by {
        assert forall|l: usize| !loops.contains(l) implies #[trigger] env(l) == h(l) by {
            if three.contains(l) {
                let a = choose|a: int| 0 <= a < three.len() && three[a] == l;
                assert(loops[a] == l);
            }
        }
    }
    let b2 = s->For_body.stmts[0]->For_body;
    assert(nv.mac is Assign);
    assert(stmts[2] != nv.mac);
    let (a, b) = (
        stmt_turns(s, asked(nv), env, other),
        stmt_turns(v_tiled(nv, t, ii, jj, kk, elem, line), asked(nv), env, other),
    );
    assert forall|x: Turn| times(a, x) == times(b, x) && #[trigger] times(a, x) == (if in_box(x, ni, nj, nk) {
        1nat
    } else {
        0
    }) by {
        naive_times(s, nv, env, other, ni, nj, nk, x);
        tiled_times(nv, t, ii, jj, kk, stmts, line, env, other, side, ni, nj, nk, x);
    }
    assert forall|x: Turn| times(a, x) == #[trigger] times(b, x) && times(a, x) == (if in_box(x, ni, nj, nk) {
        1nat
    } else {
        0
    }) by {
        assert(times(a, x) == times(b, x));
    }
}

// ---- the place of the loops ----

pub open spec fn pathless(nv: NaiveV) -> NaiveV {
    NaiveV { path: Seq::empty(), ..nv }
}

pub proof fn naive_found(s: Seq<StmtV>, n: nat)
    ensures
        match naive_from(s, n) {
            Some(nv) => nv.path.len() > 0 && stmt_of(s, nv.path) is Some && naive_here(stmt_of(s, nv.path)->0) == Some(
                pathless(nv),
            ),
            None => true,
        },
    decreases s, s.len() - n,
{
    if n < s.len() {
        let here = naive_here(s[n as int]);
        if here is Some {
            let nv = here->0;
            assert(nv.path =~= Seq::empty());
            let p = seq![n as int] + nv.path;
            assert(p =~= seq![n as int]);
        } else {
            match s[n as int] {
                StmtV::For { var, start, end, body } => {
                    naive_found(body.stmts, 0);
                    if let Some(nv) = naive_from(body.stmts, 0) {
                        let p = seq![n as int] + nv.path;
                        assert(p.drop_first() =~= nv.path);
                        assert(p[0] == n);
                        assert(p.len() > 1);
                        assert(under(n as int, Some(nv)) == Some(NaiveV { path: p, ..nv }));
                        assert(stmt_of(s, p) == stmt_of(body.stmts, nv.path));
                    }
                },
                _ => {},
            }
            naive_found(s, n + 1);
        }
    }
}

/// The path to the statement behind the one that a path leads to.
pub open spec fn behind(path: Seq<int>) -> Seq<int> {
    path.update(path.len() - 1, path.last() + 1)
}

pub proof fn replaced_found(b: BlockV, path: Seq<int>, first: StmtV, second: StmtV)
    requires
        path.len() > 0,
        stmt_of(b.stmts, path) is Some,
    ensures
        stmt_of(replaced_at(b, path, seq![first, second]).stmts, behind(path)) == Some(second),
    decreases path.len(),
{
    let with = seq![first, second];
    let r = replaced_at(b, path, with);
    let p = behind(path);
    if path.len() == 1 {
        assert(r.stmts[path[0] + 1] == second);
        assert(p.len() == 1 && p[0] == path[0] + 1);
    } else {
        match b.stmts[path[0]] {
            StmtV::For { var, start, end, body } => {
                replaced_found(body, path.drop_first(), first, second);
                assert(p.drop_first() =~= behind(path.drop_first()));
                assert(p[0] == path[0]);
                assert(r.stmts[p[0]] == StmtV::For {
                    var,
                    start,
                    end,
                    body: replaced_at(body, path.drop_first(), with),
                });
            },
            _ => {},
        }
    }
}

/// Tiling a function puts, behind the loops that clear the result, loops that run the
/// multiply-accumulate at the same turns as the loops that they replace, each once.
pub proof fn tile_keeps_turns(f: FuncV, t: i64, env: Env, other: Other, ni: int, nj: int, nk: int)
    requires
        naive_of(f) is Some,
        t >= 1,
        f.locals.len() + 2 <= usize::MAX,
        ({
            let nv = naive_of(f)->0;
            let n = f.locals.len() as usize;
            let loops = tile_loops(nv, n, (n + 1) as usize, (n + 2) as usize);
            &&& nv.i < n && nv.j < n && nv.k < n
            &&& distinct(seq![nv.i, nv.j, nv.k])
            &&& steady(nv.ni, env, other, loops, ni)
            &&& steady(nv.nj, env, other, loops, nj)
            &&& steady(nv.nk, env, other, loops, nk)
        }),
    ensures
        ({
            let nv = naive_of(f)->0;
            let was = stmt_of(f.body->0.stmts, nv.path);
            let now = stmt_of(s_tile(f, t)->0.body->0.stmts, behind(nv.path));
            &&& was is Some
            &&& now is Some
            &&& same_turns(
                stmt_turns(was->0, asked(nv), env, other),
                stmt_turns(now->0, asked(nv), env, other),
                ni,
                nj,
                nk,
            )
        }),
{
    let nv = naive_of(f)->0;
    let bare = pathless(nv);
    let n = f.locals.len() as usize;
    let (jj, kk) = ((n + 1) as usize, (n + 2) as usize);
    let line = mac_line(nv.mac);
    let elem = local_of(f, nv.acc).ty;
    naive_found(f.body->0.stmts, 0);
    let clear = v_clear(nv, line);
    let nest = v_tiled(nv, TileV::Fixed(t), n, jj, kk, elem, line);
    replaced_found(f.body->0, nv.path, clear, nest);
    assert(f.locals + Seq::<LocalV>::empty() =~= f.locals);
    let three = seq![nv.i, nv.j, nv.k];
    assert(three[0] == nv.i && three[1] == nv.j && three[2] == nv.k);
    assert(distinct(tile_loops(bare, n, jj, kk)));
    tiled_same_turns(
        stmt_of(f.body->0.stmts, nv.path)->0,
        bare,
        TileV::Fixed(t),
        n,
        jj,
        kk,
        elem,
        line,
        env,
        other,
        t as int,
        ni,
        nj,
        nk,
    );
    assert(v_tiled(bare, TileV::Fixed(t), n, jj, kk, elem, line) == nest);
    assert(asked(bare) == asked(nv));
}

} // verus!
