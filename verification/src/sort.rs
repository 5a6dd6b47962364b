//! Sorting by an integer key.

use crate::vecs::part;
use vstd::prelude::*;

verus! {

/// Values that are ordered by an integer.
pub trait Keyed: Sized {
    spec fn spec_key(self) -> u64;

    fn key(&self) -> (k: u64)
        ensures
            k == self.spec_key(),
    ;
}

impl Keyed for u64 {
    open spec fn spec_key(self) -> u64 {
        self
    }

    fn key(&self) -> (k: u64) {
        *self
    }
}

impl Keyed for (u32, u32) {
    open spec fn spec_key(self) -> u64 {
        self.0 as u64
    }

    fn key(&self) -> (k: u64) {
        self.0 as u64
    }
}

/// Keys never fall.
pub open spec fn ascending<T: Keyed>(s: Seq<T>) -> bool {
    forall|i: int, j: int| 0 <= i <= j < s.len() ==> s[i].spec_key() <= s[j].spec_key()
}

/// The same elements, in some order.
pub open spec fn same_elements<T>(s: Seq<T>, t: Seq<T>) -> bool {
    s.to_multiset() == t.to_multiset()
}

proof fn lemma_concat<T>(a: Seq<T>, b: Seq<T>)
    ensures
        (a + b).to_multiset() == a.to_multiset().add(b.to_multiset()),
    decreases b.len(),
{
    broadcast use vstd::seq_lib::group_to_multiset_ensures;

    if b.len() == 0 {
        assert(a + b =~= a);
        assert(a.to_multiset().add(b.to_multiset()) =~= a.to_multiset());
    } else {
        lemma_concat(a, b.drop_last());
        assert(a + b =~= (a + b.drop_last()).push(b.last()));
        assert(b =~= b.drop_last().push(b.last()));
        assert(a.to_multiset().add(b.to_multiset()) =~= a.to_multiset().add(
            b.drop_last().to_multiset(),
        ).insert(b.last()));
    }
}

fn is_ascending<T: Keyed>(v: &Vec<T>) -> (yes: bool)
    ensures
        yes == ascending(v@),
{
    let mut i: usize = 1;
    while i < v.len()
        invariant
            1 <= i,
            i <= v@.len() || v@.len() == 0,
            forall|a: int, b: int|
                0 <= a <= b < i && b < v@.len() ==> v@[a].spec_key() <= v@[b].spec_key(),
        decreases v@.len() - i,
    {
        if v[i - 1].key() > v[i].key() {
            assert(v@[i - 1].spec_key() > v@[i as int].spec_key());
            return false;
        }
        i += 1;
    }
    true
}

fn merge<T: Keyed + Copy>(a: &Vec<T>, b: &Vec<T>) -> (out: Vec<T>)
    requires
        ascending(a@),
        ascending(b@),
    ensures
        ascending(out@),
        out@.to_multiset() == a@.to_multiset().add(b@.to_multiset()),
{
    let mut out: Vec<T> = Vec::new();
    let mut i: usize = 0;
    let mut j: usize = 0;
    proof {
        broadcast use vstd::seq_lib::group_to_multiset_ensures;

        assert(a@.take(0) =~= Seq::<T>::empty());
        assert(b@.take(0) =~= Seq::<T>::empty());
        assert(out@.to_multiset() =~= a@.take(0).to_multiset().add(b@.take(0).to_multiset()));
    }
    while i < a.len() || j < b.len()
        invariant
            i <= a@.len(),
            j <= b@.len(),
            ascending(a@),
            ascending(b@),
            ascending(out@),
            forall|p: int, q: int|
                0 <= p < out@.len() && i <= q < a@.len() ==> out@[p].spec_key()
                    <= a@[q].spec_key(),
            forall|p: int, q: int|
                0 <= p < out@.len() && j <= q < b@.len() ==> out@[p].spec_key()
                    <= b@[q].spec_key(),
            out@.to_multiset() == a@.take(i as int).to_multiset().add(
                b@.take(j as int).to_multiset(),
            ),
        decreases a@.len() - i + b@.len() - j,
    {
        broadcast use vstd::seq_lib::group_to_multiset_ensures;

        if j >= b.len() || (i < a.len() && a[i].key() <= b[j].key()) {
            out.push(a[i]);
            proof {
                assert(a@.take(i + 1) =~= a@.take(i as int).push(a@[i as int]));
                assert(out@.to_multiset() =~= a@.take(i + 1).to_multiset().add(
                    b@.take(j as int).to_multiset(),
                ));
            }
            i += 1;
        } else {
            out.push(b[j]);
            proof {
                assert(b@.take(j + 1) =~= b@.take(j as int).push(b@[j as int]));
                assert(out@.to_multiset() =~= a@.take(i as int).to_multiset().add(
                    b@.take(j + 1).to_multiset(),
                ));
            }
            j += 1;
        }
    }
    assert(a@.take(i as int) =~= a@);
    assert(b@.take(j as int) =~= b@);
    out
}

/// The same values in the order of their keys.
pub fn sorted<T: Keyed + Copy>(v: Vec<T>) -> (out: Vec<T>)
    ensures
        ascending(out@),
        same_elements(out@, v@),
    decreases v@.len(),
{
    if is_ascending(&v) {
        return v;
    }
    let n: usize = v.len();
    let mid: usize = n / 2;
    assert(n >= 2) by {
        if n < 2 {
            assert(ascending(v@));
        }
    }
    let left: Vec<T> = sorted(part(v.as_slice(), 0, mid));
    let right: Vec<T> = sorted(part(v.as_slice(), mid, n));
    proof {
        lemma_concat(v@.subrange(0, mid as int), v@.subrange(mid as int, n as int));
        assert(v@.subrange(0, mid as int) + v@.subrange(mid as int, n as int) =~= v@);
    }
    merge(&left, &right)
}

/// Sorting leaves only one order of distinct keys: any two sorted arrangements agree.
pub proof fn sorting_is_unique(s: Seq<u64>, t: Seq<u64>)
    requires
        ascending(s),
        ascending(t),
        same_elements(s, t),
    ensures
        s == t,
    decreases s.len(),
{
    broadcast use vstd::seq_lib::group_to_multiset_ensures;

    assert(s.to_multiset().len() == s.len() && t.to_multiset().len() == t.len());
    if s.len() > 0 {
        let (a, b) = (s.last(), t.last());
        assert(s.contains(b)) by {
            assert(t.contains(b));
            assert(t.to_multiset().count(b) > 0);
        }
        assert(t.contains(a)) by {
            assert(s.contains(a));
            assert(s.to_multiset().count(a) > 0);
        }
        let i = choose|i: int| 0 <= i < s.len() && s[i] == b;
        let j = choose|j: int| 0 <= j < t.len() && t[j] == a;
        assert(s[i].spec_key() <= s[s.len() - 1].spec_key());
        assert(t[j].spec_key() <= t[t.len() - 1].spec_key());
        assert(a == b);
        assert(s.drop_last() =~= s.remove(s.len() - 1));
        assert(t.drop_last() =~= t.remove(t.len() - 1));
        assert forall|x: int, y: int| 0 <= x <= y < s.len() - 1 implies s.drop_last()[x].spec_key()
            <= s.drop_last()[y].spec_key() by {
            assert(s[x].spec_key() <= s[y].spec_key());
        }
        assert forall|x: int, y: int| 0 <= x <= y < t.len() - 1 implies t.drop_last()[x].spec_key()
            <= t.drop_last()[y].spec_key() by {
            assert(t[x].spec_key() <= t[y].spec_key());
        }
        sorting_is_unique(s.drop_last(), t.drop_last());
        assert(s =~= s.drop_last().push(a));
        assert(t =~= t.drop_last().push(b));
    } else {
        assert(s =~= t);
    }
}

}
