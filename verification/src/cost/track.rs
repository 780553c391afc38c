//! What the walk keeps track of: charges, access sites, and the scalars that stand for elements.

use vstd::prelude::*;
use crate::ast::views;
use crate::cost::piece::Cost;
use crate::cost::rat::Rat;
use crate::cost::rules::{
    access, add_work, add_work_n, done, element_read, forget_all, loop_ids, named, no_cost, paired, resting,
    same_element, same_site, scalar_read, scan_block, stmt_alias, stream, with_site, without, FailV,
};
use crate::cost::scope::{
    called, elem_bytes, func_names, stays, touch_bytes, Alias, AliasV, Cx, CxV, MemoV, Site, SiteV, Walk, WalkV,
};
use crate::cost::size::Poly;
use crate::cost::table::has_id;
use crate::ir::{block_lists, expr_parts, lvalue_parts, stmt_parts, Block, Expr, ExprKind, LValue, Stmt};
use crate::text::texts;

verus! {

/// Why a cost is unknown, and the line it comes from.
#[derive(Debug)]
pub struct Fail {
    pub reason: String,
    pub line: u32,
}

pub open spec fn opt_fail(x: Option<Fail>) -> Option<FailV> {
    match x {
        Some(f) => Some((f.reason@, f.line)),
        None => None,
    }
}

/// The machine has sizes, the memory a place for every function of the module with its name, and
/// at most `d` functions rest.
pub open spec fn ready(cx: CxV, memo: MemoV, d: nat) -> bool {
    &&& cx.k.ok()
    &&& memo.done.len() == cx.m.funcs.len()
    &&& memo.active.len() == cx.m.funcs.len()
    &&& memo.names == func_names(cx.m)
    &&& called(memo)
    &&& resting(memo) <= d
}

pub fn stop(reason: String, line: u32) -> (r: Option<Fail>)
    ensures
        opt_fail(r) == Some((reason@, line)),
{
    Some(Fail { reason, line })
}

/// The costs set aside while a loop's body or a branch is walked.
pub struct Frame {
    pub work: Cost,
    pub moves: Cost,
    pub calls: Cost,
    pub called: bool,
}

impl<'a> Walk<'a> {
    pub(crate) fn add_work(&mut self, p: &Poly)
        ensures
            final(self)@ == add_work(old(self)@, p@),
    {
        if !self.replay {
            self.work = self.work.add_poly(p);
        }
    }

    pub(crate) fn add_work_n(&mut self, n: i128)
        ensures
            final(self)@ == add_work_n(old(self)@, n as int),
    {
        self.add_work(&Poly::constant(n));
    }

    pub(crate) fn stream(&mut self, n: &Poly, es: i128)
        ensures
            final(self)@ == stream(old(self)@, n@, es as int),
    {
        if !self.replay {
            self.moves = self.moves.add_poly(&n.scale(&Rat::integer(es)));
        }
    }

    pub(crate) fn new_atom(&mut self, name: String)
        ensures
            final(self)@ == named(old(self)@, name@),
    {
        assert(texts(self.names@.push(name)) =~= texts(self.names@).push(name@));
        self.names.push(name);
    }

    pub(crate) fn open_frame(&mut self) -> (r: Frame)
        ensures
            final(self)@ == (WalkV { work: no_cost(), moves: no_cost(), calls: no_cost(), called: false, ..old(self)@ }),
            r.work@ == old(self)@.work,
            r.moves@ == old(self)@.moves,
            r.calls@ == old(self)@.calls,
            r.called == old(self)@.called,
    {
        let mut work = Cost::zero();
        let mut moves = Cost::zero();
        let mut calls = Cost::zero();
        core::mem::swap(&mut work, &mut self.work);
        core::mem::swap(&mut moves, &mut self.moves);
        core::mem::swap(&mut calls, &mut self.calls);
        let called = self.called;
        self.called = false;
        Frame { work, moves, calls, called }
    }

    /// The frame put back in place of the current one, which is handed out.
    pub(crate) fn close_frame(&mut self, f: Frame) -> (r: Frame)
        ensures
            final(self)@ == (WalkV { work: f.work@, moves: f.moves@, calls: f.calls@, called: f.called, ..old(self)@ }),
            r.work@ == old(self)@.work,
            r.moves@ == old(self)@.moves,
            r.calls@ == old(self)@.calls,
            r.called == old(self)@.called,
    {
        let mut work = f.work;
        let mut moves = f.moves;
        let mut calls = f.calls;
        core::mem::swap(&mut work, &mut self.work);
        core::mem::swap(&mut moves, &mut self.moves);
        core::mem::swap(&mut calls, &mut self.calls);
        let called = self.called;
        self.called = f.called;
        Frame { work, moves, calls, called }
    }

    // ---- access sites ----

    #[verifier::loop_isolation(false)]
    pub(crate) fn access(&mut self, cx: &Cx, arr: usize, idx: &Expr, field: Option<usize>)
        ensures
            final(self)@ == access(cx@, old(self)@, arr, idx@, field),
            stays(old(self)@, final(self)@),
    {
        proof {
            reveal(access);
        }
        if self.replay {
            return;
        }
        let ghost w = self@;
        let mut path: Vec<usize> = Vec::new();
        let mut i: usize = 0;
        while i < self.loops.len()
            invariant
                i <= self.loops@.len(),
                self@ == w,
                path@.len() == i,
                forall|j: int| 0 <= j < i ==> #[trigger] path@[j] == w.loops[j].id,
            decreases self.loops@.len() - i,
        {
            assert(w.loops[i as int] == self.loops@[i as int]@);
            path.push(self.loops[i].id);
            i += 1;
        }
        assert(path@ =~= loop_ids(w.loops));
        let site = Site {
            arr,
            aff: self.affine(idx),
            es: cx.touch_bytes(arr, field),
            stride: cx.elem_bytes(arr),
            field,
            path,
            branch: copy_branch(&self.branch),
        };
        add_site(&mut self.sites, site);
    }

    // ---- aliases ----

    /// The scalars of a block that stand for an array element; those newly known are handed out.
    #[verifier::loop_isolation(false)]
    pub(crate) fn open_aliases(&mut self, cx: &Cx, b: &'a Block) -> (r: Vec<usize>)
        ensures
            ({
                let t = scan_block(cx@, old(self)@, b@.stmts, b@.stmts.len());
                final(self)@ == (WalkV { aliases: t.aliases, ..old(self)@ }) && r@ == t.opened
            }),
    {
        let ghost w = self@;
        let ghost v = b@.stmts;
        proof {
            block_lists(*b);
        }
        let mut opened: Vec<usize> = Vec::new();
        let mut torn: Vec<usize> = Vec::new();
        let mut n: usize = 0;
        while n < b.stmts.len()
            invariant
                n <= b.stmts@.len(),
                self@ == (WalkV { aliases: scan_block(cx@, w, v, n as nat).aliases, ..w }),
                opened@ == scan_block(cx@, w, v, n as nat).opened,
                torn@ == scan_block(cx@, w, v, n as nat).torn,
            decreases b.stmts@.len() - n,
        {
            let ghost t = scan_block(cx@, w, v, n as nat);
            assert(v[n as int] == b.stmts@[n as int]@);
            match alias_in(&b.stmts[n]) {
                Some((x, a)) => {
                    if cx.is_scalar(x) && !has_id(&torn, x) {
                        let (is_known, same): (bool, bool) = match self.aliases.get(x) {
                            Some(o) => (true, self.is_same_element(o, &a, Ghost(w))),
                            None => (false, false),
                        };
                        if is_known {
                            if !same {
                                self.aliases.forget(x);
                                torn.push(x);
                                opened = drop_id(&opened, x);
                            }
                        } else {
                            self.aliases.put(x, a);
                            opened.push(x);
                        }
                    }
                },
                None => {},
            }
            n += 1;
        }
        opened
    }

    fn is_same_element(&self, a: &Alias<'a>, b: &Alias<'a>, Ghost(w): Ghost<WalkV>) -> (r: bool)
        requires
            w.loops == self@.loops,
            w.affines == self@.affines,
            w.sizes == self@.sizes,
        ensures
            r == same_element(w, a@, b@),
    {
        proof {
            crate::cost::recognise::same_reading(self@, w, a@.idx);
            crate::cost::recognise::same_reading(self@, w, b@.idx);
        }
        if a.arr != b.arr || a.field != b.field {
            return false;
        }
        match (self.affine(a.idx), self.affine(b.idx)) {
            (Some(x), Some(y)) => x.same(&y),
            _ => false,
        }
    }

    pub(crate) fn close_aliases(&mut self, opened: &Vec<usize>)
        ensures
            final(self)@ == (WalkV { aliases: forget_all(old(self)@.aliases, opened@, opened@.len()), ..old(self)@ }),
    {
        let ghost w = self@;
        let mut n: usize = 0;
        while n < opened.len()
            invariant
                n <= opened@.len(),
                self@ == (WalkV { aliases: forget_all(w.aliases, opened@, n as nat), ..w }),
            decreases opened@.len() - n,
        {
            self.aliases.forget(opened[n]);
            n += 1;
        }
    }
}

fn copy_branch(s: &Vec<(usize, bool)>) -> (r: Vec<(usize, bool)>)
    ensures
        r@ == s@,
{
    let mut r: Vec<(usize, bool)> = Vec::new();
    let mut i: usize = 0;
    while i < s.len()
        invariant
            i <= s@.len(),
            r@ == s@.take(i as int),
        decreases s@.len() - i,
    {
        r.push(s[i]);
        assert(r@ =~= s@.take(i + 1));
        i += 1;
    }
    assert(r@ =~= s@);
    r
}

fn same_branch(a: &Vec<(usize, bool)>, b: &Vec<(usize, bool)>) -> (r: bool)
    ensures
        r == (a@ == b@),
{
    if a.len() != b.len() {
        return false;
    }
    let mut i: usize = 0;
    while i < a.len()
        invariant
            i <= a@.len(),
            a@.len() == b@.len(),
            forall|j: int| 0 <= j < i ==> #[trigger] a@[j] == b@[j],
        decreases a@.len() - i,
    {
        if a[i].0 != b[i].0 || a[i].1 != b[i].1 {
            assert(a@[i as int] != b@[i as int]);
            return false;
        }
        i += 1;
    }
    assert(a@ =~= b@);
    true
}

fn same_path(a: &Vec<usize>, b: &Vec<usize>) -> (r: bool)
    ensures
        r == (a@ == b@),
{
    if a.len() != b.len() {
        return false;
    }
    let mut i: usize = 0;
    while i < a.len()
        invariant
            i <= a@.len(),
            a@.len() == b@.len(),
            forall|j: int| 0 <= j < i ==> #[trigger] a@[j] == b@[j],
        decreases a@.len() - i,
    {
        if a[i] != b[i] {
            assert(a@[i as int] != b@[i as int]);
            return false;
        }
        i += 1;
    }
    assert(a@ =~= b@);
    true
}

fn is_same_site(s: &Site, o: &Site) -> (r: bool)
    ensures
        r == same_site(s@, o@),
{
    if s.arr != o.arr || s.stride != o.stride {
        return false;
    }
    match (&s.aff, &o.aff) {
        (Some(a), Some(b)) => a.same(b) && same_path(&s.path, &o.path) && same_branch(&s.branch, &o.branch),
        _ => false,
    }
}

#[verifier::loop_isolation(false)]
fn add_site(s: &mut Vec<Site>, x: Site)
    ensures
        views(final(s)@) == with_site(views(old(s)@), x@),
{
    let ghost v = views(s@);
    let ghost start = s@;
    let ghost xv = x@;
    let mut i: usize = 0;
    proof {
        assert(v.skip(0) =~= v);
        assert(v.take(0) + with_site(v, xv) =~= with_site(v, xv));
    }
    while i < s.len() && !is_same_site(&s[i], &x)
        invariant
            i <= s@.len(),
            s@ == start,
            x@ == xv,
            with_site(v, xv) == v.take(i as int) + with_site(v.skip(i as int), xv),
        decreases s@.len() - i,
    {
        proof {
            let rest = v.skip(i as int);
            assert(rest[0] == s@[i as int]@);
            assert(rest.drop_first() =~= v.skip(i + 1));
            assert(v.take(i as int) + (seq![rest[0]] + with_site(v.skip(i + 1), xv)) =~= v.take(i + 1) + with_site(
                v.skip(i + 1),
                xv,
            ));
        }
        i += 1;
    }
    let ghost rest = v.skip(i as int);
    if i < s.len() {
        assert(rest[0] == s@[i as int]@);
        if s[i].field != x.field {
            s[i].es = x.stride;
            assert(views(s@) =~= v.take(i as int) + (seq![SiteV { es: xv.stride, ..rest[0] }] + rest.drop_first()));
        } else {
            assert(v.take(i as int) + (seq![rest[0]] + rest.drop_first()) =~= v);
        }
    } else {
        assert(views(s@.push(x)) =~= v.take(i as int) + seq![xv]);
        s.push(x);
    }
}

fn drop_id(s: &Vec<usize>, v: usize) -> (r: Vec<usize>)
    ensures
        r@ == without(s@, v),
{
    let mut r: Vec<usize> = Vec::new();
    let mut i: usize = 0;
    assert(s@.take(0) =~= Seq::empty());
    while i < s.len()
        invariant
            i <= s@.len(),
            r@ == without(s@.take(i as int), v),
        decreases s@.len() - i,
    {
        assert(s@.take(i + 1).drop_last() =~= s@.take(i as int));
        if s[i] != v {
            r.push(s[i]);
        }
        i += 1;
    }
    assert(s@.take(i as int) =~= s@);
    r
}

fn scalar_of(e: &Expr) -> (r: Option<usize>)
    ensures
        r == scalar_read(e@),
{
    proof {
        expr_parts(*e);
    }
    match &e.kind {
        ExprKind::Local(v) => Some(*v),
        ExprKind::Cast(x, _) => {
            proof {
                expr_parts(**x);
            }
            match &x.kind {
                ExprKind::Local(v) => Some(*v),
                _ => None,
            }
        },
        _ => None,
    }
}

pub open spec fn opt_alias<'a>(x: Option<Alias<'a>>) -> Option<AliasV> {
    match x {
        Some(a) => Some(a@),
        None => None,
    }
}

fn element_of<'a>(e: &'a Expr) -> (r: Option<Alias<'a>>)
    ensures
        opt_alias(r) == element_read(e@),
{
    proof {
        expr_parts(*e);
    }
    match &e.kind {
        ExprKind::Index(arr, idx) => Some(Alias { arr: *arr, idx: &**idx, field: None }),
        ExprKind::Field(base, fi) => {
            proof {
                expr_parts(**base);
            }
            match &base.kind {
                ExprKind::Index(arr, idx) => Some(Alias { arr: *arr, idx: &**idx, field: Some(*fi) }),
                _ => None,
            }
        },
        _ => None,
    }
}

fn pair_up<'a>(v: Option<usize>, a: Option<Alias<'a>>) -> (r: Option<(usize, Alias<'a>)>)
    ensures
        (match r {
            Some(p) => Some((p.0, p.1@)),
            None => None,
        }) == paired(v, opt_alias(a)),
{
    match (v, a) {
        (Some(x), Some(y)) => Some((x, y)),
        _ => None,
    }
}

fn alias_in<'a>(s: &'a Stmt) -> (r: Option<(usize, Alias<'a>)>)
    ensures
        (match r {
            Some(p) => Some((p.0, p.1@)),
            None => None,
        }) == stmt_alias(s@),
{
    proof {
        stmt_parts(*s);
    }
    match s {
        Stmt::Assign(lv, op, e) => {
            proof {
                lvalue_parts(*lv);
            }
            match lv {
                LValue::Index(arr, idx, _) => pair_up(scalar_of(e), Some(Alias { arr: *arr, idx, field: None })),
                LValue::IndexField(arr, idx, fi, _) => pair_up(
                    scalar_of(e),
                    Some(Alias { arr: *arr, idx, field: Some(*fi) }),
                ),
                LValue::Var(v) => {
                    if op.is_none() {
                        pair_up(Some(*v), element_of(e))
                    } else {
                        None
                    }
                },
                LValue::Field(..) => None,
            }
        },
        Stmt::Let(v, e) => pair_up(Some(*v), element_of(e)),
        _ => None,
    }
}

} // verus!
