//! What the analysis says of a function: its cost, its bounds, what it touches and what it rests on.

use vstd::prelude::*;
use crate::cost::wide::{numbers_v, NumV, Number};
use crate::ast::views;
use crate::cost::bounds::{bounds_v, Bound, BoundV};
use crate::cost::forms::opt_poly;
use crate::cost::model::PolyV;
use crate::cost::piece::{Cond, CondV, Cost, PieceV};
use crate::cost::size::Poly;
use crate::text::{copy_text, texts};

verus! {

#[derive(Debug)]
pub enum CostResult {
    Exact { work: Cost, moves: Cost },
    Unknown { reason: String, line: u32 },
}

pub enum ResultV {
    Exact { work: Seq<PieceV>, moves: Seq<PieceV> },
    Unknown { reason: Seq<char>, line: u32 },
}

impl View for CostResult {
    type V = ResultV;

    open spec fn view(&self) -> ResultV {
        match *self {
            CostResult::Exact { work, moves } => ResultV::Exact { work: work@, moves: moves@ },
            CostResult::Unknown { reason, line } => ResultV::Unknown { reason: reason@, line },
        }
    }
}

#[derive(Debug)]
pub struct FuncCost {
    pub name: String,
    /// Names of `Atom::Var(i)` for this function. The first `params.len()` are the parameters,
    /// in order, so a caller can substitute by position.
    pub names: Vec<String>,
    pub result: CostResult,
    /// Lower bounds the catalogue recognised in this function's body.
    pub bounds: Vec<Bound>,
    /// What the bound's operands do in the innermost loop, when it is worth saying.
    pub notes: Vec<String>,
    /// Rewrites that were tried on this function, with what they cost.
    pub suggestions: Vec<Suggestion>,
    /// Inferred effects: `io` when it prints or calls something that does.
    pub effects: Vec<String>,
    /// How the cost was obtained: `exact`, or `recurrence` when a self-recursion was solved.
    pub tier: String,
    /// `#[cost]` bounds this function breaks, as sentences.
    pub violations: Vec<String>,
    /// What the function touches, by parameter, in bytes — the part of its cost a caller can
    /// credit when the data is already resident.
    pub footprint: Vec<Foot>,
    /// The condition under which the whole footprint is resident when the function returns
    /// (its total working set, in lines, under `M`); `None` when some range is not exact, so
    /// no residue is claimed.
    pub resident: Option<Cond>,
    /// `#[cost(...)]` as parsed: the declared work and moves bounds. When present they are the
    /// function's line in the lockfile and all a caller sees of it.
    pub declared: Declared,
    /// What this line rests on besides the machine model: the declarations it composes,
    /// transitively.
    pub rests_on: Vec<String>,
}

#[verifier::ext_equal]
pub struct FuncCostV {
    pub name: Seq<char>,
    pub names: Seq<Seq<char>>,
    pub result: ResultV,
    pub bounds: Seq<BoundV>,
    pub notes: Seq<Seq<char>>,
    pub suggestions: Seq<SuggestionV>,
    pub effects: Seq<Seq<char>>,
    pub tier: Seq<char>,
    pub violations: Seq<Seq<char>>,
    pub footprint: Seq<FootV>,
    pub resident: Option<CondV>,
    pub declared: DeclaredV,
    pub rests_on: Seq<Seq<char>>,
}

impl View for FuncCost {
    type V = FuncCostV;

    open spec fn view(&self) -> FuncCostV {
        FuncCostV {
            name: self.name@,
            names: texts(self.names@),
            result: self.result@,
            bounds: bounds_v(self.bounds@),
            notes: texts(self.notes@),
            suggestions: views(self.suggestions@),
            effects: texts(self.effects@),
            tier: self.tier@,
            violations: texts(self.violations@),
            footprint: views(self.footprint@),
            resident: opt_cond(self.resident),
            declared: self.declared@,
            rests_on: texts(self.rests_on@),
        }
    }
}

pub open spec fn opt_cond(x: Option<Cond>) -> Option<CondV> {
    match x {
        Some(c) => Some(c@),
        None => None,
    }
}

#[derive(Debug)]
pub struct Declared {
    pub work: Option<Poly>,
    pub moves: Option<Poly>,
    /// `sizes = "n <= 512, a.len() <= 4096"`: the size bounds a budget is checked under
    pub sizes: Vec<(usize, Number)>,
}

#[verifier::ext_equal]
pub struct DeclaredV {
    pub work: Option<PolyV>,
    pub moves: Option<PolyV>,
    pub sizes: Seq<(usize, NumV)>,
}

impl View for Declared {
    type V = DeclaredV;

    open spec fn view(&self) -> DeclaredV {
        DeclaredV { work: opt_poly(self.work), moves: opt_poly(self.moves), sizes: numbers_v(self.sizes@) }
    }
}

/// Nothing declared.
pub open spec fn undeclared() -> DeclaredV {
    DeclaredV { work: None, moves: None, sizes: Seq::empty() }
}

/// A byte range of one parameter's array: `[lo, hi)`.
#[derive(Debug)]
pub struct Foot {
    pub param: usize,
    pub lo: Poly,
    pub hi: Poly,
    /// false when the range is the whole array because the exact range could not be found
    pub exact: bool,
}

pub struct FootV {
    pub param: usize,
    pub lo: PolyV,
    pub hi: PolyV,
    pub exact: bool,
}

impl View for Foot {
    type V = FootV;

    open spec fn view(&self) -> FootV {
        FootV { param: self.param, lo: self.lo@, hi: self.hi@, exact: self.exact }
    }
}

#[derive(Debug)]
pub struct Suggestion {
    pub label: String,
    /// The `--apply` request that performs it.
    pub flag: String,
    pub result: CostResult,
}

pub struct SuggestionV {
    pub label: Seq<char>,
    pub flag: Seq<char>,
    pub result: ResultV,
}

impl View for Suggestion {
    type V = SuggestionV;

    open spec fn view(&self) -> SuggestionV {
        SuggestionV { label: self.label@, flag: self.flag@, result: self.result@ }
    }
}

pub fn copy_opt_poly(x: &Option<Poly>) -> (r: Option<Poly>)
    ensures
        opt_poly(r) == opt_poly(*x),
{
    match x {
        Some(p) => Some(p.copy()),
        None => None,
    }
}

pub fn copy_texts(s: &Vec<String>) -> (r: Vec<String>)
    ensures
        texts(r@) == texts(s@),
{
    let mut r: Vec<String> = Vec::new();
    let mut i: usize = 0;
    while i < s.len()
        invariant
            i <= s@.len(),
            r@.len() == i,
            forall|j: int| 0 <= j < i ==> (#[trigger] r@[j])@ == s@[j]@,
        decreases s@.len() - i,
    {
        r.push(copy_text(&s[i]));
        i += 1;
    }
    assert(texts(r@) =~= texts(s@));
    r
}

pub fn copy_bounds(s: &Vec<Bound>) -> (r: Vec<Bound>)
    ensures
        bounds_v(r@) == bounds_v(s@),
{
    let mut r: Vec<Bound> = Vec::new();
    let mut i: usize = 0;
    while i < s.len()
        invariant
            i <= s@.len(),
            r@.len() == i,
            forall|j: int| 0 <= j < i ==> (#[trigger] r@[j])@ == s@[j]@,
        decreases s@.len() - i,
    {
        r.push(s[i].copy());
        i += 1;
    }
    assert(bounds_v(r@) =~= bounds_v(s@));
    r
}

impl CostResult {
    pub fn copy(&self) -> (r: CostResult)
        ensures
            r@ == self@,
    {
        match self {
            CostResult::Exact { work, moves } => CostResult::Exact { work: work.copy(), moves: moves.copy() },
            CostResult::Unknown { reason, line } => CostResult::Unknown { reason: copy_text(reason), line: *line },
        }
    }
}

impl Declared {
    pub fn none() -> (r: Declared)
        ensures
            r@ == undeclared(),
    {
        let r = Declared { work: None, moves: None, sizes: Vec::new() };
        assert(r@.sizes =~= Seq::empty());
        r
    }

    pub fn copy(&self) -> (r: Declared)
        ensures
            r@ == self@,
    {
        let mut sizes: Vec<(usize, Number)> = Vec::new();
        let mut i: usize = 0;
        while i < self.sizes.len()
            invariant
                i <= self.sizes@.len(),
                sizes@.len() == i,
                forall|j: int|
                    0 <= j < i ==> sizes@[j].0 == self.sizes@[j].0 && (#[trigger] sizes@[j]).1@ == self.sizes@[j].1@,
            decreases self.sizes@.len() - i,
        {
            sizes.push((self.sizes[i].0, self.sizes[i].1.copy()));
            i += 1;
        }
        let r = Declared { work: copy_opt_poly(&self.work), moves: copy_opt_poly(&self.moves), sizes };
        assert(r@.sizes =~= self@.sizes);
        r
    }
}

impl Foot {
    pub fn copy(&self) -> (r: Foot)
        ensures
            r@ == self@,
    {
        Foot { param: self.param, lo: self.lo.copy(), hi: self.hi.copy(), exact: self.exact }
    }
}

impl Suggestion {
    pub fn copy(&self) -> (r: Suggestion)
        ensures
            r@ == self@,
    {
        Suggestion { label: copy_text(&self.label), flag: copy_text(&self.flag), result: self.result.copy() }
    }
}

impl FuncCost {
    pub fn copy(&self) -> (r: FuncCost)
        ensures
            r@ == self@,
    {
        let mut footprint: Vec<Foot> = Vec::new();
        let mut i: usize = 0;
        while i < self.footprint.len()
            invariant
                i <= self.footprint@.len(),
                footprint@.len() == i,
                forall|j: int| 0 <= j < i ==> (#[trigger] footprint@[j])@ == self.footprint@[j]@,
            decreases self.footprint@.len() - i,
        {
            footprint.push(self.footprint[i].copy());
            i += 1;
        }
        let mut suggestions: Vec<Suggestion> = Vec::new();
        let mut i: usize = 0;
        while i < self.suggestions.len()
            invariant
                i <= self.suggestions@.len(),
                suggestions@.len() == i,
                forall|j: int| 0 <= j < i ==> (#[trigger] suggestions@[j])@ == self.suggestions@[j]@,
            decreases self.suggestions@.len() - i,
        {
            suggestions.push(self.suggestions[i].copy());
            i += 1;
        }
        assert(views(footprint@) =~= views(self.footprint@));
        assert(views(suggestions@) =~= views(self.suggestions@));
        FuncCost {
            name: copy_text(&self.name),
            names: copy_texts(&self.names),
            result: self.result.copy(),
            bounds: copy_bounds(&self.bounds),
            notes: copy_texts(&self.notes),
            suggestions,
            effects: copy_texts(&self.effects),
            tier: copy_text(&self.tier),
            violations: copy_texts(&self.violations),
            footprint,
            resident: match &self.resident {
                Some(c) => Some(c.copy()),
                None => None,
            },
            declared: self.declared.copy(),
            rests_on: copy_texts(&self.rests_on),
        }
    }
}

} // verus!
