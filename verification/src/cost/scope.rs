//! The state of the walk over one function's body: what is known where it stands, and what it
//! has found so far.

use vstd::prelude::*;
use crate::ast::views;
use crate::cost::affine::{opt_affine, Affine, AffineV};
use crate::cost::bounds::{bounds_v, Bound, BoundV};
use crate::cost::forms::opt_poly;
use crate::cost::machine::Machine;
use crate::cost::model::PolyV;
use crate::cost::piece::{conds_v, Cond, CondV, Cost, PieceV};
use crate::cost::signature::{copy_opt_poly, FuncCost, FuncCostV};
use crate::cost::size::Poly;
use crate::cost::table::Table;
use crate::ir::{Expr, ExprV, Func, FuncV, LocalV, Module, ModuleV, Ty};
use crate::text::{copy_text, texts};

verus! {

/// What the walk reads and never changes.
pub struct Cx<'a> {
    pub m: &'a Module,
    pub k: Machine,
    pub f: &'a Func,
    /// the function being analysed, when it may call itself
    pub own: Option<usize>,
}

pub struct CxV {
    pub m: ModuleV,
    pub k: Machine,
    pub f: FuncV,
    pub own: Option<usize>,
}

impl<'a> View for Cx<'a> {
    type V = CxV;

    open spec fn view(&self) -> CxV {
        CxV { m: self.m@, k: self.k, f: self.f@, own: self.own }
    }
}

/// An open loop.
#[derive(Debug)]
pub struct Loop {
    pub id: usize,
    /// `None` where no index can depend on the loop: it only ever repeats its body.
    pub var: Option<usize>,
    /// The loop variable as a size atom, so a cost accumulated in the body may mention it and
    /// be summed over it exactly when the loop is left. `None` for `decreasing` loops.
    pub atom: Option<usize>,
    pub trip: Poly,
    /// first value of the variable, and how much it moves per iteration
    pub lo: Poly,
    pub step: i128,
    /// The loop's start as an affine function of the loops outside it, so that an index written
    /// in terms of this variable is seen to move with the outer loops too. `None` when the start
    /// is not affine, in which case any index using this variable is treated as non-affine.
    pub offset: Option<Affine>,
}

pub struct LoopV {
    pub id: usize,
    pub var: Option<usize>,
    pub atom: Option<usize>,
    pub trip: PolyV,
    pub lo: PolyV,
    pub step: int,
    pub offset: Option<AffineV>,
}

impl View for Loop {
    type V = LoopV;

    open spec fn view(&self) -> LoopV {
        LoopV {
            id: self.id,
            var: self.var,
            atom: self.atom,
            trip: self.trip@,
            lo: self.lo@,
            step: self.step as int,
            offset: opt_affine(self.offset),
        }
    }
}

/// What is remembered of a loop after it is left.
#[derive(Debug)]
pub struct LoopRec {
    pub var: Option<usize>,
    pub atom: Option<usize>,
    pub trip: Poly,
    pub lo: Poly,
    pub step: i128,
}

pub struct RecV {
    pub var: Option<usize>,
    pub atom: Option<usize>,
    pub trip: PolyV,
    pub lo: PolyV,
    pub step: int,
}

impl View for LoopRec {
    type V = RecV;

    open spec fn view(&self) -> RecV {
        RecV { var: self.var, atom: self.atom, trip: self.trip@, lo: self.lo@, step: self.step as int }
    }
}

/// One `x[i]` in the source, with the loops it sits in (outermost first). Moves are settled
/// for all sites together once the body has been walked, because whether a level reuses its
/// lines depends on every site sharing that loop.
#[derive(Debug)]
pub struct Site {
    pub arr: usize,
    pub aff: Option<Affine>,
    /// bytes the site actually touches: the element's size, or one field's
    pub es: i128,
    /// bytes the address moves per unit of the index: the element's size in memory
    pub stride: i128,
    /// which field, when the site is one field of a struct element
    pub field: Option<usize>,
    pub path: Vec<usize>,
    /// the `if` branches this site sits in, outermost first: sites on different sides of one
    /// `if` are alternatives, and their moves combine by max, not sum
    pub branch: Vec<(usize, bool)>,
}

#[verifier::ext_equal]
pub struct SiteV {
    pub arr: usize,
    pub aff: Option<AffineV>,
    pub es: int,
    pub stride: int,
    pub field: Option<usize>,
    pub path: Seq<usize>,
    pub branch: Seq<(usize, bool)>,
}

impl View for Site {
    type V = SiteV;

    open spec fn view(&self) -> SiteV {
        SiteV {
            arr: self.arr,
            aff: opt_affine(self.aff),
            es: self.es as int,
            stride: self.stride as int,
            field: self.field,
            path: self.path@,
            branch: self.branch@,
        }
    }
}

/// The bytes of the largest injective image found of one field of an array.
#[derive(Debug)]
pub struct Image {
    pub root: usize,
    pub field: Option<usize>,
    pub bytes: Poly,
}

pub struct ImageV {
    pub root: usize,
    pub field: Option<usize>,
    pub bytes: PolyV,
}

impl View for Image {
    type V = ImageV;

    open spec fn view(&self) -> ImageV {
        ImageV { root: self.root, field: self.field, bytes: self.bytes@ }
    }
}

/// The array element that a scalar stands for.
#[derive(Debug)]
pub struct Alias<'a> {
    pub arr: usize,
    pub idx: &'a Expr,
    pub field: Option<usize>,
}

pub struct AliasV {
    pub arr: usize,
    pub idx: ExprV,
    pub field: Option<usize>,
}

impl<'a> View for Alias<'a> {
    type V = AliasV;

    open spec fn view(&self) -> AliasV {
        AliasV { arr: self.arr, idx: self.idx@, field: self.field }
    }
}

/// The values that a mutable local may hold, one per definition that reaches; `None` where a
/// definition is not a size.
#[derive(Debug)]
pub struct Values {
    pub of: Option<Vec<Poly>>,
}

impl View for Values {
    type V = Option<Seq<PolyV>>;

    open spec fn view(&self) -> Option<Seq<PolyV>> {
        match self.of {
            Some(v) => Some(views(v@)),
            None => None,
        }
    }
}

/// A call of the function to itself: the argument sizes by parameter (`None` when not a size),
/// how many times the call runs per invocation, and its line.
#[derive(Debug)]
pub struct SelfCall {
    pub args: Vec<Option<Poly>>,
    pub times: Poly,
    pub line: u32,
}

pub struct SelfCallV {
    pub args: Seq<Option<PolyV>>,
    pub times: PolyV,
    pub line: u32,
}

pub open spec fn args_v(s: Seq<Option<Poly>>) -> Seq<Option<PolyV>> {
    Seq::new(s.len(), |i: int| opt_poly(s[i]))
}

impl View for SelfCall {
    type V = SelfCallV;

    open spec fn view(&self) -> SelfCallV {
        SelfCallV { args: args_v(self.args@), times: self.times@, line: self.line }
    }
}

/// A resident range in the function's arrays, and under what conditions it is resident.
#[derive(Debug)]
pub struct Res {
    pub root: usize,
    pub lo: Poly,
    pub hi: Poly,
    pub conds: Vec<Cond>,
}

pub struct ResV {
    pub root: usize,
    pub lo: PolyV,
    pub hi: PolyV,
    pub conds: Seq<CondV>,
}

impl View for Res {
    type V = ResV;

    open spec fn view(&self) -> ResV {
        ResV { root: self.root, lo: self.lo@, hi: self.hi@, conds: conds_v(self.conds@) }
    }
}

/// The functions analysed so far, and those being analysed.
pub struct Memo {
    pub done: Vec<Option<FuncCost>>,
    pub active: Vec<bool>,
    /// what the functions are called
    pub names: Ghost<Seq<Seq<char>>>,
}

#[verifier::ext_equal]
pub struct MemoV {
    pub done: Seq<Option<FuncCostV>>,
    pub active: Seq<bool>,
    pub names: Seq<Seq<char>>,
}

pub open spec fn done_v(s: Seq<Option<FuncCost>>) -> Seq<Option<FuncCostV>> {
    Seq::new(
        s.len(),
        |i: int|
            match s[i] {
                Some(c) => Some(c@),
                None => None,
            },
    )
}

impl View for Memo {
    type V = MemoV;

    open spec fn view(&self) -> MemoV {
        MemoV { done: done_v(self.done@), active: self.active@, names: self.names@ }
    }
}

/// The state of the walk.
pub struct Walk<'a> {
    pub names: Vec<String>,
    pub sites: Vec<Site>,
    pub recs: Vec<LoopRec>,
    pub bounds: Vec<Bound>,
    /// per array and field, the largest injective image (bytes) any reference to it has. Two
    /// fields of one struct array are disjoint words, so they add; two references to the same
    /// field cover each other, so the larger stands.
    pub images: Vec<Image>,
    /// A scalar that a statement of the enclosing block stores into, or loads from, an array
    /// element: inside that block the scalar *is* that element's running value, and a statement
    /// using it references the element.
    pub aliases: Table<Alias<'a>>,
    pub notes: Vec<String>,
    pub io: bool,
    pub self_calls: Vec<SelfCall>,
    /// size in elements of every array local
    pub sizes: Table<Poly>,
    /// value of every immutable `i64` local that is an affine expression
    pub affines: Table<Affine>,
    /// every value a mutable `i64` local may hold here
    pub initial: Table<Values>,
    /// the array a view local looks into (parameters and arrays are their own root)
    pub roots: Table<usize>,
    pub loops: Vec<Loop>,
    /// cost accumulated in the innermost open loop body or branch (or the function body)
    pub work: Cost,
    pub moves: Cost,
    /// moves of calls, kept apart from the function's own sites: a loop body is walked a second
    /// time with the residue of its first iteration to cost the iterations after the first
    pub calls: Cost,
    /// whether anything was called in the innermost open loop body or branch
    pub called: bool,
    /// the `if` branches currently open
    pub branch: Vec<(usize, bool)>,
    pub next_if: usize,
    /// what is resident in this function's arrays at the current point
    pub resident: Vec<Res>,
    /// the second walk: only call moves are recounted
    pub replay: bool,
    /// declarations this function's cost composes, transitively
    pub rests_on: Vec<String>,
    pub memo: Memo,
}

pub type Known<V> = spec_fn(usize) -> Option<V>;

#[verifier::ext_equal]
pub struct WalkV {
    pub names: Seq<Seq<char>>,
    pub sites: Seq<SiteV>,
    pub recs: Seq<RecV>,
    pub bounds: Seq<BoundV>,
    pub images: Seq<ImageV>,
    pub aliases: Known<AliasV>,
    pub notes: Seq<Seq<char>>,
    pub io: bool,
    pub self_calls: Seq<SelfCallV>,
    pub sizes: Known<PolyV>,
    pub affines: Known<AffineV>,
    pub initial: Known<Option<Seq<PolyV>>>,
    pub roots: Known<usize>,
    pub loops: Seq<LoopV>,
    pub work: Seq<PieceV>,
    pub moves: Seq<PieceV>,
    pub calls: Seq<PieceV>,
    pub called: bool,
    pub branch: Seq<(usize, bool)>,
    pub next_if: usize,
    pub resident: Seq<ResV>,
    pub replay: bool,
    pub rests_on: Seq<Seq<char>>,
    pub memo: MemoV,
}

impl<'a> View for Walk<'a> {
    type V = WalkV;

    open spec fn view(&self) -> WalkV {
        WalkV {
            names: texts(self.names@),
            sites: views(self.sites@),
            recs: views(self.recs@),
            bounds: bounds_v(self.bounds@),
            images: views(self.images@),
            aliases: self.aliases@,
            notes: texts(self.notes@),
            io: self.io,
            self_calls: views(self.self_calls@),
            sizes: self.sizes@,
            affines: self.affines@,
            initial: self.initial@,
            roots: self.roots@,
            loops: views(self.loops@),
            work: self.work@,
            moves: self.moves@,
            calls: self.calls@,
            called: self.called,
            branch: self.branch@,
            next_if: self.next_if,
            resident: views(self.resident@),
            replay: self.replay,
            rests_on: texts(self.rests_on@),
            memo: self.memo@,
        }
    }
}

/// What no part of the walk takes away.
pub open spec fn keeps(a: WalkV, b: WalkV) -> bool {
    &&& remembers(a.memo, b.memo)
    &&& b.self_calls.len() >= a.self_calls.len()
}

pub open spec fn func_names(m: ModuleV) -> Seq<Seq<char>> {
    Seq::new(m.funcs.len(), |i: int| m.funcs[i].name)
}

/// Every cost found goes by the name of its function.
#[verifier::opaque]
pub open spec fn called(a: MemoV) -> bool {
    forall|j: int| 0 <= j < a.done.len() && a.done[j] is Some ==> (#[trigger] a.done[j])->0.name == a.names[j]
}

/// The same functions are being analysed, and what was found is not forgotten.
pub open spec fn remembers(a: MemoV, b: MemoV) -> bool {
    &&& b.active == a.active
    &&& b.names == a.names
    &&& called(a) ==> called(b)
    &&& b.done.len() == a.done.len()
    &&& forall|j: int| 0 <= j < a.done.len() && a.done[j] is Some ==> (#[trigger] b.done[j]) is Some
}

/// What a walk that was not stopped leaves besides: the same loops and branches open.
pub open spec fn stays(a: WalkV, b: WalkV) -> bool {
    keeps(a, b) && b.loops == a.loops && b.branch == a.branch
}

// ---- locals ----

/// A local of the function; one it does not have reads as a nameless unit.
pub open spec fn local_of(f: FuncV, l: usize) -> LocalV {
    if l < f.locals.len() {
        f.locals[l as int]
    } else {
        LocalV { name: ""@, ty: Ty::Unit, mutable: false }
    }
}

/// Bytes of one scalar of a type.
pub open spec fn scalar_bytes(t: Ty) -> int {
    if t is Bool || t is U8 {
        1
    } else {
        8
    }
}

pub open spec fn fields_bytes(s: Seq<(Seq<char>, Ty)>) -> int
    decreases s.len(),
{
    if s.len() == 0 {
        0
    } else {
        fields_bytes(s.drop_last()) + scalar_bytes(s.last().1)
    }
}

/// Bytes of one value of a type in memory: a struct is its fields, one after the other.
pub open spec fn bytes_of(m: ModuleV, t: Ty) -> int {
    match t {
        Ty::Struct(s) => if s < m.structs.len() {
            fields_bytes(m.structs[s as int].fields)
        } else {
            8
        },
        _ => scalar_bytes(t),
    }
}

/// Bytes of one element of the array `l` in memory.
pub open spec fn elem_bytes(cx: CxV, l: usize) -> int {
    match local_of(cx.f, l).ty.s_elem() {
        Some(t) => bytes_of(cx.m, t),
        None => 8,
    }
}

/// What a site on `l` touches: one field's bytes, or the whole element.
pub open spec fn touch_bytes(cx: CxV, l: usize, field: Option<usize>) -> int {
    match (local_of(cx.f, l).ty.s_elem(), field) {
        (Some(Ty::Struct(s)), Some(fi)) => if s < cx.m.structs.len() && fi < cx.m.structs[s as int].fields.len() {
            scalar_bytes(cx.m.structs[s as int].fields[fi as int].1)
        } else {
            elem_bytes(cx, l)
        },
        _ => elem_bytes(cx, l),
    }
}

impl Module {
    /// Bytes of one value of a type in memory.
    #[verifier::loop_isolation(false)]
    pub fn size_of(&self, t: &Ty) -> (r: i128)
        ensures
            r == bytes_of(self@, *t),
            0 <= r <= 8 * usize::MAX + 8,
    {
        match t {
            Ty::Struct(s) => {
                if *s < self.structs.len() {
                    let d = &self.structs[*s];
                    let ghost fs = d@.fields;
                    assert(self@.structs[*s as int] == d@);
                    let mut n: i128 = 0;
                    let mut i: usize = 0;
                    assert(fs.take(0) =~= Seq::empty());
                    while i < d.fields.len()
                        invariant
                            i <= d.fields@.len(),
                            n == fields_bytes(fs.take(i as int)),
                            0 <= n <= 8 * i,
                        decreases d.fields@.len() - i,
                    {
                        assert(fs.take(i + 1).drop_last() =~= fs.take(i as int));
                        assert(fs[i as int].1 == d.fields@[i as int].1);
                        n = n + d.fields[i].1.elem_bytes();
                        i += 1;
                    }
                    assert(fs.take(i as int) =~= fs);
                    n
                } else {
                    8
                }
            },
            _ => t.elem_bytes(),
        }
    }
}

impl<'a> Cx<'a> {
    pub fn is_arrayish(&self, l: usize) -> (r: bool)
        ensures
            r == local_of(self@.f, l).ty.arrayish(),
    {
        if l < self.f.locals.len() {
            assert(self@.f.locals[l as int] == self.f.locals@[l as int]@);
            self.f.locals[l].ty.is_arrayish()
        } else {
            false
        }
    }

    pub fn is_i64(&self, l: usize) -> (r: bool)
        ensures
            r == (local_of(self@.f, l).ty is I64),
    {
        if l < self.f.locals.len() {
            assert(self@.f.locals[l as int] == self.f.locals@[l as int]@);
            matches!(self.f.locals[l].ty, Ty::I64)
        } else {
            false
        }
    }

    pub fn is_scalar(&self, l: usize) -> (r: bool)
        ensures
            r == local_of(self@.f, l).ty.scalar(),
    {
        if l < self.f.locals.len() {
            assert(self@.f.locals[l as int] == self.f.locals@[l as int]@);
            self.f.locals[l].ty.is_scalar()
        } else {
            false
        }
    }

    pub fn is_mutable(&self, l: usize) -> (r: bool)
        ensures
            r == local_of(self@.f, l).mutable,
    {
        if l < self.f.locals.len() {
            assert(self@.f.locals[l as int] == self.f.locals@[l as int]@);
            self.f.locals[l].mutable
        } else {
            false
        }
    }

    pub fn name(&self, l: usize) -> (r: String)
        ensures
            r@ == local_of(self@.f, l).name,
    {
        if l < self.f.locals.len() {
            assert(self@.f.locals[l as int] == self.f.locals@[l as int]@);
            copy_text(&self.f.locals[l].name)
        } else {
            "".to_owned()
        }
    }

    pub fn elem_bytes(&self, l: usize) -> (r: i128)
        ensures
            r == elem_bytes(self@, l),
            0 <= r <= 8 * usize::MAX + 8,
    {
        if l < self.f.locals.len() {
            assert(self@.f.locals[l as int] == self.f.locals@[l as int]@);
            match self.f.locals[l].ty.elem() {
                Some(t) => self.m.size_of(t),
                None => 8,
            }
        } else {
            8
        }
    }

    pub fn touch_bytes(&self, l: usize, field: Option<usize>) -> (r: i128)
        ensures
            r == touch_bytes(self@, l, field),
            0 <= r <= 8 * usize::MAX + 8,
    {
        if l < self.f.locals.len() {
            assert(self@.f.locals[l as int] == self.f.locals@[l as int]@);
            match (self.f.locals[l].ty.elem(), field) {
                (Some(Ty::Struct(s)), Some(fi)) => {
                    if *s < self.m.structs.len() {
                        let d = &self.m.structs[*s];
                        assert(self@.m.structs[*s as int] == d@);
                        if fi < d.fields.len() {
                            assert(d@.fields[fi as int].1 == d.fields@[fi as int].1);
                            return d.fields[fi].1.elem_bytes();
                        }
                    }
                    self.elem_bytes(l)
                },
                _ => self.elem_bytes(l),
            }
        } else {
            self.elem_bytes(l)
        }
    }
}

// ---- copies ----

pub fn copy_opt_affine(x: &Option<Affine>) -> (r: Option<Affine>)
    ensures
        opt_affine(r) == opt_affine(*x),
{
    match x {
        Some(a) => Some(a.copy()),
        None => None,
    }
}

pub fn copy_polys(s: &Vec<Poly>) -> (r: Vec<Poly>)
    ensures
        views(r@) == views(s@),
{
    let mut r: Vec<Poly> = Vec::new();
    let mut i: usize = 0;
    while i < s.len()
        invariant
            i <= s@.len(),
            r@.len() == i,
            forall|j: int| 0 <= j < i ==> (#[trigger] r@[j])@ == s@[j]@,
        decreases s@.len() - i,
    {
        r.push(s[i].copy());
        i += 1;
    }
    assert(views(r@) =~= views(s@));
    r
}

impl Loop {
    pub fn copy(&self) -> (r: Loop)
        ensures
            r@ == self@,
            r.step == self.step,
    {
        Loop {
            id: self.id,
            var: self.var,
            atom: self.atom,
            trip: self.trip.copy(),
            lo: self.lo.copy(),
            step: self.step,
            offset: copy_opt_affine(&self.offset),
        }
    }
}

impl LoopRec {
    pub fn copy(&self) -> (r: LoopRec)
        ensures
            r@ == self@,
    {
        LoopRec { var: self.var, atom: self.atom, trip: self.trip.copy(), lo: self.lo.copy(), step: self.step }
    }
}

impl SelfCall {
    pub fn copy(&self) -> (r: SelfCall)
        ensures
            r@ == self@,
    {
        let mut args: Vec<Option<Poly>> = Vec::new();
        let mut i: usize = 0;
        while i < self.args.len()
            invariant
                i <= self.args@.len(),
                args@.len() == i,
                forall|j: int| 0 <= j < i ==> opt_poly(#[trigger] args@[j]) == opt_poly(self.args@[j]),
            decreases self.args@.len() - i,
        {
            args.push(copy_opt_poly(&self.args[i]));
            i += 1;
        }
        assert(args_v(args@) =~= args_v(self.args@));
        SelfCall { args, times: self.times.copy(), line: self.line }
    }
}

impl Values {
    pub fn copy(&self) -> (r: Values)
        ensures
            r@ == self@,
    {
        match &self.of {
            Some(v) => Values { of: Some(copy_polys(v)) },
            None => Values { of: None },
        }
    }
}

} // verus!
