//! Finite maps from ranked keys to numbers, as sequences of pairs in key order:
//! the model under monomials (atom to exponent) and polynomials (monomial to
//! coefficient). A key that is absent stands for the number zero.

use vstd::prelude::*;

verus! {

/// Keys under a strict total order.
pub trait Ranked: Sized {
    spec fn before(self, o: Self) -> bool;

    proof fn rank_total(a: Self, b: Self)
        ensures
            a.before(b) || a == b || b.before(a),
    ;

    proof fn rank_strict(a: Self, b: Self)
        ensures
            a.before(b) ==> !b.before(a) && a != b,
    ;

    proof fn rank_chain(a: Self, b: Self, c: Self)
        ensures
            a.before(b) && b.before(c) ==> a.before(c),
    ;
}

/// How many leading entries have a key before `k`.
pub open spec fn slot<K: Ranked>(s: Seq<(K, real)>, k: K) -> int
    decreases s.len(),
{
    if s.len() == 0 {
        0
    } else if s[0].0.before(k) {
        1 + slot(s.drop_first(), k)
    } else {
        0
    }
}

/// `k` has an entry.
pub open spec fn holds<K: Ranked>(s: Seq<(K, real)>, k: K) -> bool {
    slot(s, k) < s.len() && s[slot(s, k)].0 == k
}

/// The number at `k`: that of its entry, or zero.
pub open spec fn value<K: Ranked>(s: Seq<(K, real)>, k: K) -> real {
    if holds(s, k) {
        s[slot(s, k)].1
    } else {
        0real
    }
}

/// The map with `v` at `k`.
pub open spec fn put<K: Ranked>(s: Seq<(K, real)>, k: K, v: real) -> Seq<(K, real)> {
    if holds(s, k) {
        s.update(slot(s, k), (k, v))
    } else {
        s.insert(slot(s, k), (k, v))
    }
}

/// The map without an entry for `k`.
pub open spec fn erase<K: Ranked>(s: Seq<(K, real)>, k: K) -> Seq<(K, real)> {
    if holds(s, k) {
        s.remove(slot(s, k))
    } else {
        s
    }
}

/// The map with `c` added at `k`; an entry that becomes zero goes away.
pub open spec fn bump<K: Ranked>(s: Seq<(K, real)>, k: K, c: real) -> Seq<(K, real)> {
    if value(s, k) + c == 0real {
        erase(s, k)
    } else {
        put(s, k, value(s, k) + c)
    }
}

/// Every entry of `t` added to `s`.
pub open spec fn merge<K: Ranked>(s: Seq<(K, real)>, t: Seq<(K, real)>) -> Seq<(K, real)>
    decreases t.len(),
{
    if t.len() == 0 {
        s
    } else {
        bump(merge(s, t.drop_last()), t.last().0, t.last().1)
    }
}

/// Keys ascend, so none occurs twice.
pub open spec fn sorted<K: Ranked>(s: Seq<(K, real)>) -> bool {
    forall|i: int, j: int| 0 <= i < j < s.len() ==> (#[trigger] s[i]).0.before((#[trigger] s[j]).0)
}

/// Keys ascend and no number is zero: the one sequence that writes its map.
pub open spec fn canonical<K: Ranked>(s: Seq<(K, real)>) -> bool {
    &&& sorted(s)
    &&& forall|i: int| 0 <= i < s.len() ==> (#[trigger] s[i]).1 != 0real
}

pub proof fn slot_place<K: Ranked>(s: Seq<(K, real)>, k: K)
    ensures
        0 <= slot(s, k) <= s.len(),
        forall|i: int| 0 <= i < slot(s, k) ==> (#[trigger] s[i]).0.before(k),
        slot(s, k) < s.len() ==> !s[slot(s, k)].0.before(k),
    decreases s.len(),
{
    if s.len() > 0 && s[0].0.before(k) {
        let t = s.drop_first();
        slot_place(t, k);
        assert forall|i: int| 0 <= i < slot(s, k) implies (#[trigger] s[i]).0.before(k) by {
            if i > 0 {
                assert(t[i - 1] == s[i]);
            }
        }
    }
}

/// The slot is the only index with smaller keys below it and none at it.
pub proof fn slot_known<K: Ranked>(s: Seq<(K, real)>, k: K, n: int)
    requires
        0 <= n <= s.len(),
        forall|i: int| 0 <= i < n ==> (#[trigger] s[i]).0.before(k),
        n < s.len() ==> !s[n].0.before(k),
    ensures
        slot(s, k) == n,
{
    slot_place(s, k);
    if slot(s, k) < n {
        assert(s[slot(s, k)].0.before(k));
    }
    if slot(s, k) > n {
        assert(s[n].0.before(k));
    }
}

/// In key order, the entry at index `i` is the one its key finds.
pub proof fn entry_found<K: Ranked>(s: Seq<(K, real)>, i: int)
    requires
        sorted(s),
        0 <= i < s.len(),
    ensures
        slot(s, s[i].0) == i,
        holds(s, s[i].0),
        value(s, s[i].0) == s[i].1,
{
    let k = s[i].0;
    K::rank_strict(k, k);
    slot_known(s, k, i);
}

/// In key order, a key found nowhere has no entry, and the entries from its
/// slot on lie after it.
pub proof fn slot_splits<K: Ranked>(s: Seq<(K, real)>, k: K)
    requires
        sorted(s),
    ensures
        0 <= slot(s, k) <= s.len(),
        forall|i: int| 0 <= i < slot(s, k) ==> (#[trigger] s[i]).0.before(k),
        forall|i: int| slot(s, k) < i < s.len() ==> k.before((#[trigger] s[i]).0),
        !holds(s, k) && slot(s, k) < s.len() ==> k.before(s[slot(s, k)].0),
        !holds(s, k) ==> forall|i: int| 0 <= i < s.len() ==> (#[trigger] s[i]).0 != k,
{
    slot_place(s, k);
    let n = slot(s, k);
    if n < s.len() {
        K::rank_total(s[n].0, k);
        assert forall|i: int| n < i < s.len() implies k.before((#[trigger] s[i]).0) by {
            assert(s[n].0.before(s[i].0));
            K::rank_chain(k, s[n].0, s[i].0);
        }
    }
    if !holds(s, k) {
        assert forall|i: int| 0 <= i < s.len() implies (#[trigger] s[i]).0 != k by {
            if s[i].0 == k {
                entry_found(s, i);
            }
        }
    }
}

pub proof fn put_sorted<K: Ranked>(s: Seq<(K, real)>, k: K, v: real)
    requires
        sorted(s),
    ensures
        sorted(put(s, k, v)),
        canonical(s) && v != 0real ==> canonical(put(s, k, v)),
        value(put(s, k, v), k) == v,
        holds(put(s, k, v), k),
        forall|j: K| j != k ==> #[trigger] value(put(s, k, v), j) == value(s, j),
{
    slot_splits(s, k);
    let n = slot(s, k);
    let t = put(s, k, v);
    assert forall|i: int, j: int| 0 <= i < j < t.len() implies (#[trigger] t[i]).0.before((#[trigger] t[j]).0) by {
        if holds(s, k) {
            assert(s[i].0.before(s[j].0));
        } else {
            let i2 = if i <= n { i } else { i - 1 };
            let j2 = if j <= n { j } else { j - 1 };
            if i == n {
                assert(k.before(s[j2].0));
            } else if j == n {
                assert(s[i2].0.before(k));
            } else {
                assert(s[i2].0.before(s[j2].0));
            }
        }
    }
    assert(t[n] == (k, v));
    entry_found(t, n);
    assert forall|j: K| j != k implies #[trigger] value(t, j) == value(s, j) by {
        slot_splits(s, j);
        slot_splits(t, j);
        if holds(s, j) {
            let i = slot(s, j);
            let i2 = if holds(s, k) || i < n { i } else { i + 1 };
            assert(t[i2] == s[i]);
            entry_found(t, i2);
        } else if holds(t, j) {
            let i = slot(t, j);
            let i2 = if holds(s, k) || i < n { i } else { i - 1 };
            assert(s[i2] == t[i]);
        }
    }
    if canonical(s) && v != 0real {
        assert forall|i: int| 0 <= i < t.len() implies (#[trigger] t[i]).1 != 0real by {
            if !holds(s, k) {
                if i < n {
                    assert(t[i] == s[i]);
                } else if i > n {
                    assert(t[i] == s[i - 1]);
                }
            } else if i != n {
                assert(t[i] == s[i]);
            }
        }
    }
}

pub proof fn erase_sorted<K: Ranked>(s: Seq<(K, real)>, k: K)
    requires
        sorted(s),
    ensures
        sorted(erase(s, k)),
        canonical(s) ==> canonical(erase(s, k)),
        !holds(erase(s, k), k),
        value(erase(s, k), k) == 0real,
        forall|j: K| j != k ==> #[trigger] value(erase(s, k), j) == value(s, j),
{
    slot_splits(s, k);
    let n = slot(s, k);
    let t = erase(s, k);
    if holds(s, k) {
        assert forall|i: int, j: int| 0 <= i < j < t.len() implies (#[trigger] t[i]).0.before((#[trigger] t[j]).0) by {
            let i2 = if i < n { i } else { i + 1 };
            let j2 = if j < n { j } else { j + 1 };
            assert(s[i2].0.before(s[j2].0));
        }
        assert forall|i: int| 0 <= i < t.len() implies #[trigger] t[i] == s[if i < n { i } else { i + 1 }] by {}
        slot_splits(t, k);
        if holds(t, k) {
            let i = slot(t, k);
            K::rank_strict(k, k);
            assert(t[i].0 == k);
            if i < n {
                assert(s[i].0.before(k));
            } else {
                assert(k.before(s[i + 1].0));
            }
        }
        assert forall|j: K| j != k implies #[trigger] value(t, j) == value(s, j) by {
            slot_splits(s, j);
            slot_splits(t, j);
            if holds(s, j) {
                let i = slot(s, j);
                let i2 = if i < n { i } else { i - 1 };
                assert(t[i2] == s[i]);
                entry_found(t, i2);
            } else if holds(t, j) {
                let i = slot(t, j);
                assert(t[i].0 == j);
            }
        }
    }
}

/// Adding at one key leaves the canonical form and changes that number alone.
pub proof fn bump_value<K: Ranked>(s: Seq<(K, real)>, k: K, c: real)
    requires
        canonical(s),
    ensures
        canonical(bump(s, k, c)),
        forall|j: K| #[trigger] value(bump(s, k, c), j) == value(s, j) + (if j == k { c } else { 0real }),
{
    put_sorted(s, k, value(s, k) + c);
    erase_sorted(s, k);
}

/// The merge of two maps adds them number by number.
pub proof fn merge_value<K: Ranked>(s: Seq<(K, real)>, t: Seq<(K, real)>)
    requires
        canonical(s),
        sorted(t),
    ensures
        canonical(merge(s, t)),
        forall|j: K| #[trigger] value(merge(s, t), j) == value(s, j) + value(t, j),
    decreases t.len(),
{
    if t.len() > 0 {
        let u = t.drop_last();
        let (k, c) = t.last();
        assert(sorted(u)) by {
            assert forall|i: int, j: int| 0 <= i < j < u.len() implies (#[trigger] u[i]).0.before((#[trigger] u[j]).0) by {
                assert(t[i].0.before(t[j].0));
            }
        }
        merge_value(s, u);
        bump_value(merge(s, u), k, c);
        assert(u.push((k, c)) =~= t);
        slot_splits(u, k);
        K::rank_strict(k, k);
        assert(slot(u, k) == u.len()) by {
            slot_known(u, k, u.len() as int);
        }
        assert(put(u, k, c) =~= t);
        put_sorted(u, k, c);
        assert forall|j: K| #[trigger] value(merge(s, t), j) == value(s, j) + value(t, j) by {
            if j != k {
                assert(value(put(u, k, c), j) == value(u, j));
            }
        }
    }
}

proof fn tail_value<K: Ranked>(s: Seq<(K, real)>)
    requires
        canonical(s),
        s.len() > 0,
    ensures
        canonical(s.drop_first()),
        forall|k: K| k != s[0].0 ==> #[trigger] value(s.drop_first(), k) == value(s, k),
        value(s.drop_first(), s[0].0) == 0real,
{
    entry_found(s, 0);
    assert(erase(s, s[0].0) =~= s.drop_first());
    erase_sorted(s, s[0].0);
}

/// Two canonical sequences with the same number at every key are one sequence.
pub proof fn canonical_unique<K: Ranked>(s: Seq<(K, real)>, t: Seq<(K, real)>)
    requires
        canonical(s),
        canonical(t),
        forall|k: K| #[trigger] value(s, k) == value(t, k),
    ensures
        s == t,
    decreases s.len(),
{
    if s.len() == 0 || t.len() == 0 {
        if s.len() > 0 {
            entry_found(s, 0);
            assert(value(s, s[0].0) == value(t, s[0].0));
        }
        if t.len() > 0 {
            entry_found(t, 0);
            assert(value(s, t[0].0) == value(t, t[0].0));
        }
        assert(s =~= t);
    } else {
        let a = s[0].0;
        let b = t[0].0;
        entry_found(s, 0);
        entry_found(t, 0);
        assert(value(s, a) == value(t, a));
        assert(value(s, b) == value(t, b));
        slot_splits(s, b);
        slot_splits(t, a);
        assert(a == b) by {
            let i = slot(t, a);
            let j = slot(s, b);
            assert(t[i].0 == a);
            assert(s[j].0 == b);
            if i > 0 && j > 0 {
                assert(t[0].0.before(t[i].0));
                assert(s[0].0.before(s[j].0));
                K::rank_strict(a, b);
            }
        }
        tail_value(s);
        tail_value(t);
        assert forall|k: K| #[trigger] value(s.drop_first(), k) == value(t.drop_first(), k) by {
            assert(value(s, k) == value(t, k));
        }
        canonical_unique(s.drop_first(), t.drop_first());
        assert(s =~= seq![s[0]] + s.drop_first());
        assert(t =~= seq![t[0]] + t.drop_first());
    }
}

/// The numbers of a map weighted by `w` at their keys, summed. With the value of
/// each monomial for `w` this is the value of a polynomial.
pub open spec fn weigh<K>(s: Seq<(K, real)>, w: spec_fn(K) -> real) -> real
    decreases s.len(),
{
    if s.len() == 0 {
        0real
    } else {
        weigh(s.drop_last(), w) + s.last().1 * w(s.last().0)
    }
}

pub proof fn weigh_split<K>(s: Seq<(K, real)>, t: Seq<(K, real)>, w: spec_fn(K) -> real)
    ensures
        weigh(s + t, w) == weigh(s, w) + weigh(t, w),
    decreases t.len(),
{
    if t.len() == 0 {
        assert(s + t =~= s);
    } else {
        assert((s + t).drop_last() =~= s + t.drop_last());
        weigh_split(s, t.drop_last(), w);
    }
}

pub proof fn weigh_one<K>(e: (K, real), w: spec_fn(K) -> real)
    ensures
        weigh(seq![e], w) == e.1 * w(e.0),
{
    reveal_with_fuel(weigh, 2);
    assert(seq![e].drop_last() =~= Seq::empty());
}

/// Adding at one key adds that key's weight.
pub proof fn bump_weigh<K: Ranked>(s: Seq<(K, real)>, k: K, c: real, w: spec_fn(K) -> real)
    ensures
        weigh(bump(s, k, c), w) == weigh(s, w) + c * w(k),
{
    slot_place(s, k);
    let n = slot(s, k);
    let lo = s.take(n);
    let hi = if holds(s, k) { s.skip(n + 1) } else { s.skip(n) };
    let v = value(s, k);
    let x = w(k);
    weigh_split(lo, hi, w);
    if holds(s, k) {
        assert(s =~= lo + seq![(k, v)] + hi);
        weigh_split(lo + seq![(k, v)], hi, w);
        weigh_split(lo, seq![(k, v)], w);
        weigh_one((k, v), w);
    } else {
        assert(s =~= lo + hi);
    }
    if v + c == 0real {
        assert(bump(s, k, c) =~= lo + hi);
        assert(v * x + c * x == 0real) by (nonlinear_arith)
            requires
                v + c == 0real,
        ;
    } else {
        let e = (k, v + c);
        assert(bump(s, k, c) =~= lo + seq![e] + hi);
        weigh_split(lo + seq![e], hi, w);
        weigh_split(lo, seq![e], w);
        weigh_one(e, w);
        assert((v + c) * x == v * x + c * x) by (nonlinear_arith);
    }
    if !holds(s, k) {
        assert(v * x == 0real) by (nonlinear_arith)
            requires
                v == 0real,
        ;
    }
}

pub proof fn merge_weigh<K: Ranked>(s: Seq<(K, real)>, t: Seq<(K, real)>, w: spec_fn(K) -> real)
    ensures
        weigh(merge(s, t), w) == weigh(s, w) + weigh(t, w),
    decreases t.len(),
{
    if t.len() > 0 {
        merge_weigh(s, t.drop_last(), w);
        bump_weigh(merge(s, t.drop_last()), t.last().0, t.last().1, w);
    }
}

/// The weight that picks one key out.
pub open spec fn pick<K>(k: K) -> spec_fn(K) -> real {
    |j: K| if j == k { 1real } else { 0real }
}

pub proof fn weigh_pick<K: Ranked>(s: Seq<(K, real)>, k: K)
    requires
        sorted(s),
    ensures
        weigh(s, pick(k)) == value(s, k),
    decreases s.len(),
{
    if s.len() > 0 {
        let u = s.drop_last();
        let (j, c) = s.last();
        assert(sorted(u)) by {
            assert forall|i: int, l: int| 0 <= i < l < u.len() implies (#[trigger] u[i]).0.before((#[trigger] u[l]).0) by {
                assert(s[i].0.before(s[l].0));
            }
        }
        weigh_pick(u, k);
        slot_known(u, j, u.len() as int);
        K::rank_strict(j, j);
        assert(put(u, j, c) =~= s);
        put_sorted(u, j, c);
        if j == k {
            assert(!holds(u, k));
            assert(c * 1real == c) by (nonlinear_arith);
        } else {
            assert(value(put(u, j, c), k) == value(u, k));
            assert(c * 0real == 0real) by (nonlinear_arith);
        }
    }
}

/// Two canonical sequences that weigh the same under every weight are one.
pub proof fn weigh_unique<K: Ranked>(s: Seq<(K, real)>, t: Seq<(K, real)>)
    requires
        canonical(s),
        canonical(t),
        forall|w: spec_fn(K) -> real| #[trigger] weigh(s, w) == weigh(t, w),
    ensures
        s == t,
{
    assert forall|k: K| #[trigger] value(s, k) == value(t, k) by {
        weigh_pick(s, k);
        weigh_pick(t, k);
        assert(weigh(s, pick(k)) == weigh(t, pick(k)));
    }
    canonical_unique(s, t);
}

} // verus!
