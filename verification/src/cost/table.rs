//! What is known of a function's locals: a value for some of the ids.

use vstd::prelude::*;

verus! {

/// A finite map from ids to values.
#[derive(Debug)]
pub struct Table<T> {
    rows: Vec<(usize, T)>,
}

/// The value of the first row of that id.
pub closed spec fn row_of<T: View>(s: Seq<(usize, T)>, k: usize) -> Option<T::V>
    decreases s.len(),
{
    if s.len() == 0 {
        None
    } else if s[0].0 == k {
        Some(s[0].1@)
    } else {
        row_of(s.drop_first(), k)
    }
}

impl<T: View> View for Table<T> {
    type V = spec_fn(usize) -> Option<T::V>;

    closed spec fn view(&self) -> spec_fn(usize) -> Option<T::V> {
        |k: usize| row_of(self.rows@, k)
    }
}

/// Nothing known.
pub open spec fn nothing<V>() -> spec_fn(usize) -> Option<V> {
    |k: usize| None
}

/// What is known once `k` has the value `v`.
pub open spec fn known<V>(t: spec_fn(usize) -> Option<V>, k: usize, v: V) -> spec_fn(usize) -> Option<V> {
    |j: usize| if j == k { Some(v) } else { t(j) }
}

/// What is known once `k` is forgotten.
pub open spec fn forgotten<V>(t: spec_fn(usize) -> Option<V>, k: usize) -> spec_fn(usize) -> Option<V> {
    |j: usize| if j == k { None } else { t(j) }
}

proof fn row_skip<T: View>(s: Seq<(usize, T)>, i: int, k: usize)
    requires
        0 <= i <= s.len(),
        forall|j: int| 0 <= j < i ==> (#[trigger] s[j]).0 != k,
    ensures
        row_of(s, k) == row_of(s.skip(i), k),
    decreases i,
{
    if i == 0 {
        assert(s.skip(0) =~= s);
    } else {
        let t = s.drop_first();
        assert forall|j: int| 0 <= j < i - 1 implies (#[trigger] t[j]).0 != k by {
            assert(t[j] == s[j + 1]);
        }
        row_skip(t, i - 1, k);
        assert(t.skip(i - 1) =~= s.skip(i));
    }
}

/// Rows without the id `k` leave the others as they were.
proof fn row_without<T: View>(s: Seq<(usize, T)>, t: Seq<(usize, T)>, i: int)
    requires
        0 <= i < s.len(),
        t == s.remove(i),
        forall|j: int| 0 <= j < i ==> (#[trigger] s[j]).0 != s[i].0,
    ensures
        forall|k: usize| k != s[i].0 ==> #[trigger] row_of(t, k) == row_of(s, k),
    decreases i,
{
    assert forall|k: usize| k != s[i].0 implies #[trigger] row_of(t, k) == row_of(s, k) by {
        if i == 0 {
            assert(t =~= s.drop_first());
            assert(row_of(s, k) == row_of(s.drop_first(), k));
        } else {
            let s1 = s.drop_first();
            let t1 = t.drop_first();
            assert(t1 =~= s1.remove(i - 1));
            assert forall|j: int| 0 <= j < i - 1 implies (#[trigger] s1[j]).0 != s1[i - 1].0 by {
                assert(s1[j] == s[j + 1]);
            }
            row_without(s1, t1, i - 1);
            assert(t[0] == s[0]);
            assert(s1[i - 1] == s[i]);
            assert(row_of(t1, k) == row_of(s1, k));
            assert(row_of(t, k) == (if t[0].0 == k { Some(t[0].1@) } else { row_of(t1, k) }));
            assert(row_of(s, k) == (if s[0].0 == k { Some(s[0].1@) } else { row_of(s1, k) }));
        }
    }
}

proof fn row_absent<T: View>(s: Seq<(usize, T)>, k: usize)
    requires
        forall|j: int| 0 <= j < s.len() ==> (#[trigger] s[j]).0 != k,
    ensures
        row_of(s, k) is None,
{
    row_skip(s, s.len() as int, k);
}

impl<T: View> Table<T> {
    pub fn new() -> (r: Table<T>)
        ensures
            r@ =~= nothing::<T::V>(),
    {
        let r = Table { rows: Vec::new() };
        assert(r@ =~= nothing::<T::V>());
        r
    }

    fn find(&self, k: usize) -> (r: Option<usize>)
        ensures
            match r {
                Some(i) => i < self.rows@.len() && self.rows@[i as int].0 == k && (forall|j: int|
                    0 <= j < i ==> (#[trigger] self.rows@[j]).0 != k) && self@(k) == Some(self.rows@[i as int].1@),
                None => self@(k) is None && (forall|j: int|
                    0 <= j < self.rows@.len() ==> (#[trigger] self.rows@[j]).0 != k),
            },
    {
        let mut i: usize = 0;
        while i < self.rows.len()
            invariant
                i <= self.rows@.len(),
                forall|j: int| 0 <= j < i ==> (#[trigger] self.rows@[j]).0 != k,
            decreases self.rows@.len() - i,
        {
            if self.rows[i].0 == k {
                proof {
                    row_skip(self.rows@, i as int, k);
                }
                return Some(i);
            }
            i += 1;
        }
        proof {
            row_absent(self.rows@, k);
        }
        None
    }

    pub fn get(&self, k: usize) -> (r: Option<&T>)
        ensures
            match r {
                Some(x) => self@(k) == Some(x@),
                None => self@(k) is None,
            },
    {
        match self.find(k) {
            Some(i) => Some(&self.rows[i].1),
            None => None,
        }
    }

    pub fn put(&mut self, k: usize, x: T)
        ensures
            final(self)@ =~= known(old(self)@, k, x@),
    {
        let ghost s = self.rows@;
        match self.find(k) {
            Some(i) => {
                self.rows.remove(i);
                proof {
                    row_without(s, self.rows@, i as int);
                }
            },
            None => {},
        }
        let ghost t = self.rows@;
        let ghost v = x@;
        self.rows.insert(0, (k, x));
        proof {
            assert(self.rows@.drop_first() =~= t);
            assert(self.rows@[0].1@ == v);
            assert forall|j: usize| #[trigger] row_of(self.rows@, j) == (known(old(self)@, k, v))(j) by {
                assert(row_of(self.rows@, j) == (if k == j { Some(v) } else { row_of(t, j) }));
            }
            assert(self@ =~= known(old(self)@, k, v));
        }
    }

    pub fn forget(&mut self, k: usize)
        ensures
            final(self)@ =~= forgotten(old(self)@, k),
    {
        let ghost s0 = self.rows@;
        let mut kept: Vec<(usize, T)> = Vec::new();
        core::mem::swap(&mut kept, &mut self.rows);
        let mut found = true;
        while found
            invariant
                forall|j: usize| j != k ==> #[trigger] row_of(kept@, j) == row_of(s0, j),
                !found ==> row_of(kept@, k) is None,
            decreases kept@.len() + (if found { 1int } else { 0 }),
        {
            let t = Table { rows: kept };
            let at = t.find(k);
            kept = t.rows;
            match at {
                Some(i) => {
                    let ghost s = kept@;
                    kept.remove(i);
                    proof {
                        row_without(s, kept@, i as int);
                    }
                },
                None => {
                    proof {
                        row_absent(kept@, k);
                    }
                    found = false;
                },
            }
        }
        self.rows = kept;
        assert(self@ =~= forgotten(old(self)@, k));
    }

    /// The ids that have a value.
    #[verifier::loop_isolation(false)]
    pub fn ids(&self) -> (r: Vec<usize>)
        ensures
            r@.no_duplicates(),
            forall|k: usize| self@(k) is Some ==> r@.contains(k),
            forall|i: int| 0 <= i < r@.len() ==> self@(#[trigger] r@[i]) is Some,
    {
        let mut r: Vec<usize> = Vec::new();
        let mut i: usize = 0;
        while i < self.rows.len()
            invariant
                i <= self.rows@.len(),
                r@.no_duplicates(),
                forall|j: int| 0 <= j < i ==> r@.contains((#[trigger] self.rows@[j]).0),
                forall|j: int| 0 <= j < r@.len() ==> self@(#[trigger] r@[j]) is Some,
            decreases self.rows@.len() - i,
        {
            let ghost r0 = r@;
            let k = self.rows[i].0;
            if !has_id(&r, k) {
                r.push(k);
                proof {
                    row_present(self.rows@, i as int);
                    assert(r@[r0.len() as int] == k);
                    assert forall|j: int| 0 <= j < i implies r@.contains((#[trigger] self.rows@[j]).0) by {
                        let n = choose|n: int| 0 <= n < r0.len() && r0[n] == self.rows@[j].0;
                        assert(r@[n] == self.rows@[j].0);
                    }
                }
            }
            i += 1;
        }
        proof {
            assert forall|k: usize| self@(k) is Some implies r@.contains(k) by {
                if forall|j: int| 0 <= j < self.rows@.len() ==> (#[trigger] self.rows@[j]).0 != k {
                    row_absent(self.rows@, k);
                } else {
                    let j = choose|j: int| 0 <= j < self.rows@.len() && (#[trigger] self.rows@[j]).0 == k;
                    assert(r@.contains(self.rows@[j].0));
                }
            }
        }
        r
    }
}

/// Whether a list of ids has `k`.
pub fn has_id(s: &Vec<usize>, k: usize) -> (r: bool)
    ensures
        r == s@.contains(k),
{
    let mut i: usize = 0;
    while i < s.len()
        invariant
            i <= s@.len(),
            forall|j: int| 0 <= j < i ==> #[trigger] s@[j] != k,
        decreases s@.len() - i,
    {
        if s[i] == k {
            return true;
        }
        i += 1;
    }
    false
}

proof fn row_present<T: View>(s: Seq<(usize, T)>, i: int)
    requires
        0 <= i < s.len(),
    ensures
        row_of(s, s[i].0) is Some,
    decreases i,
{
    if s[0].0 != s[i].0 {
        row_present(s.drop_first(), i - 1);
        assert(s.drop_first()[i - 1] == s[i]);
    }
}

} // verus!
