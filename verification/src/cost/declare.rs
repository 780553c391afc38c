//! `#[cost(...)]`: what a function declares of its cost, and whether what was found stays
//! within it.

use vstd::prelude::*;
use crate::ast::{Pair, PairV};
use crate::cost::asserted::{dominated, p_dominated, parse, s_bound};
use crate::cost::machine::Machine;
use crate::cost::model::PolyV;
use crate::cost::piece::{Cost, Piece, PieceV};
use crate::cost::wide::{cost_value, n_over, number_text, numbers_v, read_number, value, w_sum, wide_value, SpotV};
use crate::cost::rat::{den, num, Rat};
use crate::cost::scan::{find_name, name_index};
use crate::cost::show::{cond_text, conds_texts, join, join_texts, poly_text, show_poly};
use crate::cost::signature::{undeclared, CostResult, Declared, DeclaredV, ResultV};
use crate::cost::size::Poly;
use crate::ir::{Func, FuncV};
use crate::num::{BigInt, BigNat, Side};
use crate::text::{cat2, cat3, cat4, cat5, cat7, chars_of, decimal, say, show_u64, text_of, texts};
use crate::words::{find_pair, lists, number, pair_at, pieces_from, split, trim, trimmed};
use crate::lex::slice_of;

verus! {

/// What is read so far, and what is wrong with it.
pub struct ReadV {
    pub declared: DeclaredV,
    pub wrong: Seq<Seq<char>>,
}

pub open spec fn line_text(line: u32) -> Seq<char> {
    "line "@ + decimal(line as nat) + ": "@
}

/// One `name <= value` of `sizes`.
pub open spec fn read_size(r: ReadV, names: Seq<Seq<char>>, part: Seq<char>, line: u32) -> ReadV {
    match pair_at(part, '<', '=', 0) {
        None => ReadV { wrong: r.wrong.push(line_text(line) + "`sizes` entries are `name <= value`"@), ..r },
        Some(i) => {
            let name = trimmed(part.take(i));
            let val = trimmed(part.skip(i + 2));
            match (name_index(names, name, 0), wide_value(val)) {
                (Some(n), Some(v)) => ReadV {
                    declared: DeclaredV { sizes: r.declared.sizes.push((n as usize, v)), ..r.declared },
                    ..r
                },
                _ => ReadV {
                    wrong: r.wrong.push(
                        line_text(line) + "`sizes`: `"@ + name + "` is not a size of this function or `"@ + val
                            + "` is not a number"@,
                    ),
                    ..r
                },
            }
        },
    }
}

/// The first `n` parts of `sizes`.
pub open spec fn read_sizes(r: ReadV, names: Seq<Seq<char>>, parts: Seq<Seq<char>>, line: u32, n: nat) -> ReadV
    decreases n,
{
    if n == 0 {
        r
    } else {
        read_size(read_sizes(r, names, parts, line, (n - 1) as nat), names, parts[n - 1], line)
    }
}

/// One entry of the declaration.
pub open spec fn read_entry(r: ReadV, names: Seq<Seq<char>>, p: PairV) -> ReadV {
    if p.key == "work_at_most"@ || p.key == "moves_at_most"@ {
        match s_bound(p.val, names) {
            Ok(b) => if p.key == "work_at_most"@ {
                ReadV { declared: DeclaredV { work: Some(b), ..r.declared }, ..r }
            } else {
                ReadV { declared: DeclaredV { moves: Some(b), ..r.declared }, ..r }
            },
            Err(e) => ReadV {
                wrong: r.wrong.push(line_text(p.line) + "in `"@ + p.key + " = \""@ + p.val + "\"`: "@ + e),
                ..r
            },
        }
    } else if p.key == "sizes"@ {
        let parts = pieces_from(p.val, ',', 0);
        read_sizes(r, names, parts, p.line, parts.len())
    } else {
        ReadV {
            wrong: r.wrong.push(
                line_text(p.line) + "unknown bound `"@ + p.key
                    + "`; use `work_at_most`, `moves_at_most`, `sizes`"@,
            ),
            ..r
        }
    }
}

/// The first `n` entries of the declaration.
pub open spec fn read_entries(names: Seq<Seq<char>>, s: Seq<PairV>, n: nat) -> ReadV
    decreases n,
{
    if n == 0 {
        ReadV { declared: undeclared(), wrong: Seq::empty() }
    } else {
        read_entry(read_entries(names, s, (n - 1) as nat), names, s[n - 1])
    }
}

// ---- the check ----

/// The line of the first entry of a key, from the `i`-th on, else `line`.
pub open spec fn entry_line(s: Seq<PairV>, key: Seq<char>, line: u32, i: nat) -> u32
    decreases s.len() - i,
{
    if i >= s.len() {
        line
    } else if s[i as int].key == key {
        s[i as int].line
    } else {
        entry_line(s, key, line, i + 1)
    }
}

pub open spec fn when_text(p: PieceV, names: Seq<Seq<char>>) -> Seq<char> {
    if p.conds.len() == 0 {
        ""@
    } else {
        " when "@ + join(conds_texts(p.conds, names), " and "@)
    }
}

/// What the declaration of one of the two costs is about: its name, the bound and its line.
pub struct ClaimV {
    pub func: Seq<char>,
    pub which: Seq<char>,
    pub bound: PolyV,
    pub line: u32,
    pub names: Seq<Seq<char>>,
}

/// The pieces among the first `n` that the bound does not dominate.
pub open spec fn beyond(c: ClaimV, s: Seq<PieceV>, n: nat) -> Seq<Seq<char>>
    decreases n,
{
    if n == 0 {
        Seq::empty()
    } else {
        let before = beyond(c, s, (n - 1) as nat);
        if p_dominated(s[n - 1].poly, c.bound) {
            before
        } else {
            before.push(
                line_text(c.line) + "`"@ + c.func + "` is asserted "@ + c.which + " at most "@ + poly_text(
                    c.bound,
                    c.names,
                ) + " but its "@ + c.which + " is "@ + poly_text(s[n - 1].poly, c.names) + when_text(s[n - 1], c.names),
            )
        }
    }
}

/// The nearest integer; of two equally near the even one.
pub open spec fn rounded(x: real) -> int {
    let n = num(x);
    let d = den(x);
    let q = n / d;
    let r = n % d;
    if 2 * r < d {
        q
    } else if 2 * r > d {
        q + 1
    } else if q % 2 == 0 {
        q
    } else {
        q + 1
    }
}

/// What breaks a budget at the declared sizes.
pub open spec fn over_budget(c: ClaimV, k: Machine, sizes: SpotV, s: Seq<PieceV>) -> Seq<Seq<char>> {
    match (cost_value(s, k, sizes), w_sum(c.bound.terms, k, sizes)) {
        (Some(got), Some(limit)) => if n_over(got, limit) {
            seq![
                line_text(c.line) + "`"@ + c.func + "` has a "@ + c.which + " budget of "@ + number_text(limit)
                    + " at the declared sizes but needs "@ + number_text(got),
            ]
        } else {
            Seq::empty()
        },
        _ => seq![
            line_text(c.line) + "`"@ + c.func + "`'s "@ + c.which
                + " budget cannot be evaluated: every size the cost mentions needs a bound in `sizes`"@,
        ],
    }
}

/// The inferred cost must stay within the declaration. Without `sizes`, by asymptotic dominance
/// in every regime; with `sizes`, as numbers at those bounds and the machine's B and M — a budget
/// in real units.
pub open spec fn broken(c: ClaimV, k: Machine, sizes: SpotV, r: ResultV, work: bool) -> Seq<Seq<char>> {
    match r {
        ResultV::Exact { work: w, moves: m } => {
            let s = if work {
                w
            } else {
                m
            };
            if sizes.len() == 0 {
                beyond(c, s, s.len())
            } else {
                over_budget(c, k, sizes, s)
            }
        },
        ResultV::Unknown { reason, line } => seq![
            line_text(c.line) + "`"@ + c.func + "` asserts "@ + c.which + " at most "@ + poly_text(c.bound, c.names)
                + " but its cost is unknown: "@ + reason,
        ],
    }
}

pub open spec fn claim_broken(f: FuncV, names: Seq<Seq<char>>, k: Machine, d: DeclaredV, r: ResultV, work: bool) -> Seq<
    Seq<char>,
> {
    let which = if work {
        "work"@
    } else {
        "moves"@
    };
    match if work { d.work } else { d.moves } {
        Some(bound) => broken(
            ClaimV {
                func: f.name,
                which,
                bound,
                line: entry_line(f.asserts, which + "_at_most"@, f.line, 0),
                names,
            },
            k,
            d.sizes,
            r,
            work,
        ),
        None => Seq::empty(),
    }
}

/// What the result breaks of the declaration.
#[verifier::opaque]
pub open spec fn all_broken(f: FuncV, names: Seq<Seq<char>>, k: Machine, d: DeclaredV, r: ResultV) -> Seq<Seq<char>> {
    claim_broken(f, names, k, d, r, true) + claim_broken(f, names, k, d, r, false)
}

// ---- the computation ----

/// What is read so far, and what is wrong with it.
pub struct Read {
    pub declared: Declared,
    pub wrong: Vec<String>,
}

impl View for Read {
    type V = ReadV;

    open spec fn view(&self) -> ReadV {
        ReadV { declared: self.declared@, wrong: texts(self.wrong@) }
    }
}

fn show_line(line: u32) -> (r: String)
    ensures
        r@ == line_text(line),
{
    cat3("line ", &show_u64(line as u64), ": ")
}

impl Read {
    fn size(&mut self, names: &Vec<String>, part: &Vec<char>, line: u32)
        ensures
            final(self)@ == read_size(old(self)@, texts(names@), part@, line),
    {
        match find_pair(part, '<', '=') {
            None => {
                say(&mut self.wrong, cat2(&show_line(line), "`sizes` entries are `name <= value`"));
            },
            Some(i) => {
                let head = slice_of(part, 0, i);
                let n = part.len();
                let tail = slice_of(part, i + 2, n);
                assert(head@ =~= part@.take(i as int));
                assert(tail@ =~= part@.skip(i + 2));
                let name = text_of(&trim(&head));
                let val = trim(&tail);
                match (find_name(names, &name), read_number(&val)) {
                    (Some(n), Some(v)) => {
                        let ghost vv = v@;
                        assert(numbers_v(self.declared.sizes@.push((n, v))) =~= numbers_v(self.declared.sizes@).push((n, vv)));
                        self.declared.sizes.push((n, v));
                    },
                    _ => {
                        let head = cat5(
                            &show_line(line),
                            "`sizes`: `",
                            &name,
                            "` is not a size of this function or `",
                            &text_of(&val),
                        );
                        say(&mut self.wrong, cat2(&head, "` is not a number"));
                    },
                }
            },
        }
    }

    #[verifier::loop_isolation(false)]
    fn entry(&mut self, names: &Vec<String>, p: &Pair)
        ensures
            final(self)@ == read_entry(old(self)@, texts(names@), p@),
    {
        let work = p.key == "work_at_most".to_owned();
        let moves = p.key == "moves_at_most".to_owned();
        if work || moves {
            match parse(&p.val, names) {
                Ok(b) => {
                    if work {
                        self.declared.work = Some(b);
                    } else {
                        self.declared.moves = Some(b);
                    }
                },
                Err(e) => {
                    let head = cat5(&show_line(p.line), "in `", &p.key, " = \"", &p.val);
                    say(&mut self.wrong, cat3(&head, "\"`: ", &e));
                },
            }
        } else if p.key == "sizes".to_owned() {
            let parts = split(&chars_of(&p.val), ',');
            let ghost pv = lists(parts@);
            let ghost start = self@;
            let mut n: usize = 0;
            while n < parts.len()
                invariant
                    n <= parts@.len(),
                    self@ == read_sizes(start, texts(names@), pv, p.line, n as nat),
                decreases parts@.len() - n,
            {
                assert(pv[n as int] == parts@[n as int]@);
                self.size(names, &parts[n], p.line);
                n += 1;
            }
        } else {
            say(
                &mut self.wrong,
                cat4(&show_line(p.line), "unknown bound `", &p.key, "`; use `work_at_most`, `moves_at_most`, `sizes`"),
            );
        }
    }
}

/// The declaration, parsed: bounds and the size limits budgets are checked under.
#[verifier::loop_isolation(false)]
pub fn read_declaration(f: &Func, names: &Vec<String>) -> (r: Read)
    ensures
        r@ == read_entries(texts(names@), f@.asserts, f@.asserts.len()),
{
    let mut r = Read { declared: Declared::none(), wrong: Vec::new() };
    assert(texts(r.wrong@) =~= Seq::empty());
    let mut n: usize = 0;
    while n < f.asserts.len()
        invariant
            n <= f.asserts@.len(),
            r@ == read_entries(texts(names@), f@.asserts, n as nat),
        decreases f.asserts@.len() - n,
    {
        assert(f@.asserts[n as int] == f.asserts@[n as int]@);
        r.entry(names, &f.asserts[n]);
        n += 1;
    }
    r
}

fn line_of(f: &Func, key: &String) -> (r: u32)
    ensures
        r == entry_line(f@.asserts, key@, f.line, 0),
{
    let mut i: usize = 0;
    while i < f.asserts.len()
        invariant
            i <= f.asserts@.len(),
            entry_line(f@.asserts, key@, f.line, 0) == entry_line(f@.asserts, key@, f.line, i as nat),
        decreases f.asserts@.len() - i,
    {
        assert(f@.asserts[i as int] == f.asserts@[i as int]@);
        if f.asserts[i].key == *key {
            return f.asserts[i].line;
        }
        i += 1;
    }
    f.line
}

fn show_when(p: &Piece, names: &Vec<String>) -> (r: String)
    ensures
        r@ == when_text(p@, texts(names@)),
{
    if p.conds.len() == 0 {
        return "".to_owned();
    }
    let mut out: Vec<String> = Vec::new();
    let mut i: usize = 0;
    while i < p.conds.len()
        invariant
            i <= p.conds@.len(),
            out@.len() == i,
            forall|j: int| 0 <= j < i ==> (#[trigger] out@[j])@ == cond_text(p.conds@[j]@, texts(names@)),
        decreases p.conds@.len() - i,
    {
        out.push(p.conds[i].display(names));
        i += 1;
    }
    assert(texts(out@) =~= conds_texts(p@.conds, texts(names@)));
    cat2(" when ", &join_texts(&out, " and "))
}

/// The nearest integer; of two equally near the even one.
pub fn round(x: &Rat) -> (r: BigInt)
    ensures
        r@ == rounded(x@),
{
    let n = x.numer();
    let d = x.denom();
    let size = n.magnitude();
    let (q, r) = size.div_rem(&d);
    let zero = BigNat::zero();
    let one = BigInt::from_i128(1);
    // floor division of a negative numerator
    let ghost nn = n@;
    let ghost dd = d@;
    let (fq, fr): (BigInt, BigNat) = if n.is_negative() {
        if r.is_zero() {
            proof {
                vstd::arithmetic::div_mod::lemma_fundamental_div_mod(size@ as int, dd as int);
                let qq = -(q@ as int);
                assert(nn == qq * dd) by (nonlinear_arith)
                    requires
                        -nn == dd * (q@ as int),
                        qq == -(q@ as int),
                ;
                vstd::arithmetic::div_mod::lemma_fundamental_div_mod_converse(nn, dd as int, qq, 0);
            }
            (BigInt::from_nat(q).negated(), zero)
        } else {
            proof {
                vstd::arithmetic::div_mod::lemma_fundamental_div_mod(size@ as int, dd as int);
                let qq = -(q@ as int) - 1;
                let rr = dd - r@;
                assert(nn == qq * dd + rr) by (nonlinear_arith)
                    requires
                        -nn == dd * (q@ as int) + r@,
                        qq == -(q@ as int) - 1,
                        rr == dd - r@,
                ;
                vstd::arithmetic::div_mod::lemma_fundamental_div_mod_converse(nn, dd as int, qq, rr);
            }
            (BigInt::from_nat(q).negated().minus(&one), d.minus(&r))
        }
    } else {
        (BigInt::from_nat(q), r)
    };
    assert(fq@ == nn / (dd as int) && fr@ == nn % (dd as int));
    let twice = fr.plus(&fr);
    match twice.side(&d) {
        Side::Before => fq,
        Side::After => fq.plus(&one),
        Side::Same => {
            let even = is_even(&fq);
            if even {
                fq
            } else {
                fq.plus(&one)
            }
        },
    }
}

fn is_even(x: &BigInt) -> (r: bool)
    ensures
        r == (x@ % 2 == 0),
{
    let m = x.magnitude();
    let (q, r) = m.div_rem(&BigNat::from_u128(2));
    r.is_zero()
}

/// One of the two costs against its declaration.
struct Claim<'a> {
    func: &'a String,
    which: &'a str,
    bound: &'a Poly,
    line: u32,
    names: &'a Vec<String>,
}

impl<'a> Claim<'a> {
    spec fn is(self, c: ClaimV) -> bool {
        c == (ClaimV {
            func: self.func@,
            which: self.which@,
            bound: self.bound@,
            line: self.line,
            names: texts(self.names@),
        })
    }

    #[verifier::loop_isolation(false)]
    fn beyond(&self, s: &Cost, out: &mut Vec<String>, Ghost(c): Ghost<ClaimV>)
        requires
            self.is(c),
        ensures
            texts(final(out)@) == texts(old(out)@) + beyond(c, s@, s@.len()),
    {
        let ghost start = texts(out@);
        let ghost v = s@;
        let mut n: usize = 0;
        assert(start + Seq::<Seq<char>>::empty() =~= start);
        while n < s.pieces.len()
            invariant
                n <= s.pieces@.len(),
                texts(out@) == start + beyond(c, v, n as nat),
            decreases s.pieces@.len() - n,
        {
            let p = &s.pieces[n];
            assert(v[n as int] == p@);
            if !dominated(&p.poly, self.bound) {
                let a = cat7(
                    &show_line(self.line),
                    "`",
                    self.func,
                    "` is asserted ",
                    self.which,
                    " at most ",
                    &show_poly(self.bound, self.names),
                );
                let b = cat5(&a, " but its ", self.which, " is ", &show_poly(&p.poly, self.names));
                let m = cat2(&b, &show_when(p, self.names));
                assert((start + beyond(c, v, n as nat)).push(m@) =~= start + beyond(c, v, n as nat).push(m@));
                say(out, m);
            }
            n += 1;
        }
    }

    fn budget(&self, k: &Machine, d: &Declared, s: &Cost, out: &mut Vec<String>, Ghost(c): Ghost<ClaimV>)
        requires
            k.ok(),
            self.is(c),
        ensures
            texts(final(out)@) == texts(old(out)@) + over_budget(c, *k, d@.sizes, s@),
    {
        let ghost start = texts(out@);
        match (s.eval(&d.sizes, k), value(&d.sizes, self.bound, k)) {
            (Some(got), Some(limit)) => {
                if got.over(&limit) {
                    let a = cat7(
                        &show_line(self.line),
                        "`",
                        self.func,
                        "` has a ",
                        self.which,
                        " budget of ",
                        &limit.show(),
                    );
                    let m = cat3(&a, " at the declared sizes but needs ", &got.show());
                    assert(start.push(m@) =~= start + seq![m@]);
                    say(out, m);
                } else {
                    assert(start + Seq::<Seq<char>>::empty() =~= start);
                }
            },
            _ => {
                let a = cat5(&show_line(self.line), "`", self.func, "`'s ", self.which);
                let m = cat2(&a, " budget cannot be evaluated: every size the cost mentions needs a bound in `sizes`");
                assert(start.push(m@) =~= start + seq![m@]);
                say(out, m);
            },
        }
    }

    fn check(&self, k: &Machine, d: &Declared, r: &CostResult, work: bool, out: &mut Vec<String>, Ghost(c): Ghost<ClaimV>)
        requires
            k.ok(),
            self.is(c),
        ensures
            texts(final(out)@) == texts(old(out)@) + broken(c, *k, d@.sizes, r@, work),
    {
        let ghost start = texts(out@);
        match r {
            CostResult::Exact { work: w, moves: m } => {
                let s = if work {
                    w
                } else {
                    m
                };
                if d.sizes.len() == 0 {
                    self.beyond(s, out, Ghost(c));
                } else {
                    self.budget(k, d, s, out, Ghost(c));
                }
            },
            CostResult::Unknown { reason, line } => {
                let a = cat7(
                    &show_line(self.line),
                    "`",
                    self.func,
                    "` asserts ",
                    self.which,
                    " at most ",
                    &show_poly(self.bound, self.names),
                );
                let m = cat3(&a, " but its cost is unknown: ", reason);
                assert(start.push(m@) =~= start + seq![m@]);
                say(out, m);
            },
        }
    }
}

/// What the result breaks of the declaration, added to `out`.
pub fn check_declaration(f: &Func, names: &Vec<String>, k: &Machine, d: &Declared, r: &CostResult, out: &mut Vec<String>)
    requires
        k.ok(),
    ensures
        texts(final(out)@) == texts(old(out)@) + all_broken(f@, texts(names@), *k, d@, r@),
{
    let ghost start = texts(out@);
    let ghost nv = texts(names@);
    proof {
        reveal(all_broken);
        assert(start + Seq::<Seq<char>>::empty() =~= start);
    }
    match &d.work {
        Some(bound) => {
            let line = line_of(f, &cat2("work", "_at_most"));
            let claim = Claim { func: &f.name, which: "work", bound, line, names };
            claim.check(
                k,
                d,
                r,
                true,
                out,
                Ghost(ClaimV { func: f.name@, which: "work"@, bound: bound@, line, names: nv }),
            );
        },
        None => {},
    }
    let ghost mid = texts(out@);
    assert(mid =~= start + claim_broken(f@, nv, *k, d@, r@, true));
    match &d.moves {
        Some(bound) => {
            let line = line_of(f, &cat2("moves", "_at_most"));
            let claim = Claim { func: &f.name, which: "moves", bound, line, names };
            claim.check(
                k,
                d,
                r,
                false,
                out,
                Ghost(ClaimV { func: f.name@, which: "moves"@, bound: bound@, line, names: nv }),
            );
        },
        None => {},
    }
    assert(texts(out@) =~= mid + claim_broken(f@, nv, *k, d@, r@, false));
    assert(texts(out@) =~= start + (claim_broken(f@, nv, *k, d@, r@, true) + claim_broken(f@, nv, *k, d@, r@, false)));
}

} // verus!
