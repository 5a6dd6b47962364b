//! Which weight changes a worker sends, and what both ends keep of them. Changes are bit
//! patterns of floats.

use crate::codec;
use crate::codec::{can_round, carry};
use crate::ntuple;
use crate::sort;
use crate::sort::sorted;
use vstd::prelude::*;

verus! {

/// The size of a change: its pattern without the sign.
pub open spec fn size_of(d: u32) -> u32 {
    d % 0x8000_0000
}

fn size(d: u32) -> (m: u32)
    ensures
        m == size_of(d),
{
    d % 0x8000_0000
}

/// How many changes are larger than `t`.
pub open spec fn count_above(s: Seq<(u32, u32)>, t: int) -> nat
    decreases s.len(),
{
    if s.len() == 0 {
        0
    } else {
        count_above(s.drop_last(), t) + if size_of(s.last().1) > t {
            1nat
        } else {
            0nat
        }
    }
}

/// What is left of changes on the wire: rounded, without those that round to zero.
pub open spec fn cleaned(s: Seq<(u32, u32)>) -> Seq<(u32, u32)>
    decreases s.len(),
{
    if s.len() == 0 {
        seq![]
    } else {
        let (i, c) = (s.last().0, codec::carried(s.last().1));
        if ntuple::is_zero(c) {
            cleaned(s.drop_last())
        } else {
            cleaned(s.drop_last()).push((i, c))
        }
    }
}

/// `kept` is `n` of the changes in `raw`, by index, and none left out is larger than one kept.
pub open spec fn is_largest(raw: Seq<(u32, u32)>, n: nat, kept: Seq<(u32, u32)>) -> bool {
    &&& kept.len() == n
    &&& codec::in_order(kept)
    &&& exists|out: Seq<(u32, u32)>| #[trigger] is_split(raw, kept, out)
}

/// `raw` is `kept` and `out` together, and nothing in `out` is larger than anything in `kept`.
pub open spec fn is_split(
    raw: Seq<(u32, u32)>,
    kept: Seq<(u32, u32)>,
    out: Seq<(u32, u32)>,
) -> bool {
    &&& raw.to_multiset() == kept.to_multiset().add(out.to_multiset())
    &&& forall|i: int, j: int|
        0 <= i < kept.len() && 0 <= j < out.len() ==> size_of(out[j].1) <= size_of(kept[i].1)
}

/// Some choice of the `keep` largest changes holds this one.
pub open spec fn may_stay(raw: Seq<(u32, u32)>, keep: nat, d: u32) -> bool {
    raw.len() <= keep || count_above(raw, size_of(d) as int) < keep
}

/// Every change that may be sent has a bf16.
pub open spec fn picks_round(raw: Seq<(u32, u32)>, keep: nat) -> bool {
    forall|i: int|
        0 <= i < raw.len() && may_stay(raw, keep, #[trigger] raw[i].1) ==> codec::rounds(raw[i].1)
}

proof fn lemma_count_mono(s: Seq<(u32, u32)>, a: int, b: int)
    requires
        a <= b,
    ensures
        count_above(s, b) <= count_above(s, a),
    decreases s.len(),
{
    if s.len() > 0 {
        lemma_count_mono(s.drop_last(), a, b);
    }
}

proof fn lemma_count_strict(s: Seq<(u32, u32)>, a: int, i: int)
    requires
        0 <= i < s.len(),
        a < size_of(s[i].1),
    ensures
        count_above(s, size_of(s[i].1) as int) < count_above(s, a),
    decreases s.len(),
{
    let m = size_of(s[i].1) as int;
    if i == s.len() - 1 {
        lemma_count_mono(s.drop_last(), a, m);
    } else {
        assert(s.drop_last()[i] == s[i]);
        lemma_count_strict(s.drop_last(), a, i);
    }
}

proof fn lemma_count_bounds(s: Seq<(u32, u32)>, t: int)
    ensures
        count_above(s, t) <= s.len(),
        t < 0 ==> count_above(s, t) == s.len(),
        t >= 0x7FFF_FFFF ==> count_above(s, t) == 0,
    decreases s.len(),
{
    if s.len() > 0 {
        lemma_count_bounds(s.drop_last(), t);
    }
}

fn count_larger(raw: &Vec<(u32, u32)>, t: u32) -> (n: usize)
    ensures
        n == count_above(raw@, t as int),
{
    let mut n: usize = 0;
    let mut k: usize = 0;
    assert(raw@.take(0) =~= seq![]);
    while k < raw.len()
        invariant
            k <= raw@.len(),
            n <= k,
            n == count_above(raw@.take(k as int), t as int),
        decreases raw@.len() - k,
    {
        assert(raw@.take(k + 1).drop_last() =~= raw@.take(k as int));
        if size(raw[k].1) > t {
            n += 1;
        }
        k += 1;
    }
    assert(raw@.take(k as int) =~= raw@);
    n
}

/// The smallest size with at most `keep` larger changes.
fn threshold(raw: &Vec<(u32, u32)>, keep: usize) -> (t: u32)
    ensures
        t <= 0x7FFF_FFFF,
        count_above(raw@, t as int) <= keep,
        t > 0 ==> count_above(raw@, t - 1) > keep,
{
    let mut lo: u32 = 0;
    let mut hi: u32 = 0x7FFF_FFFF;
    proof {
        lemma_count_bounds(raw@, 0x7FFF_FFFF);
    }
    while lo < hi
        invariant
            lo <= hi <= 0x7FFF_FFFF,
            count_above(raw@, hi as int) <= keep,
            lo > 0 ==> count_above(raw@, lo - 1) > keep,
        decreases hi - lo,
    {
        let mid: u32 = lo + (hi - lo) / 2;
        if count_larger(raw, mid) <= keep {
            hi = mid;
        } else {
            lo = mid + 1;
        }
    }
    lo
}

/// Rounds changes to what the wire carries and leaves out those that round to zero.
fn clean(s: &Vec<(u32, u32)>) -> (out: Vec<(u32, u32)>)
    requires
        codec::all_round(s@),
    ensures
        out@ == cleaned(s@),
{
    let mut out: Vec<(u32, u32)> = Vec::new();
    let mut k: usize = 0;
    assert(s@.take(0) =~= seq![]);
    while k < s.len()
        invariant
            k <= s@.len(),
            codec::all_round(s@),
            out@ == cleaned(s@.take(k as int)),
        decreases s@.len() - k,
    {
        assert(s@.take(k + 1).drop_last() =~= s@.take(k as int));
        let (i, d): (u32, u32) = s[k];
        assert(codec::rounds(s@[k as int].1));
        let c: u32 = carry(d);
        if c != 0 && c != 0x8000_0000 {
            out.push((i, c));
        }
        k += 1;
    }
    assert(s@.take(k as int) =~= s@);
    out
}

/// The `keep` largest changes, in any order.
fn keep_largest(raw: &Vec<(u32, u32)>, keep: usize) -> (kept: Vec<(u32, u32)>)
    requires
        0 < keep < raw@.len(),
        picks_round(raw@, keep as nat),
    ensures
        kept@.len() == keep,
        codec::all_round(kept@),
        exists|out: Seq<(u32, u32)>| #[trigger] is_split(raw@, kept@, out),
{
    let t: u32 = threshold(raw, keep);
    let over: usize = count_larger(raw, t);
    let need: usize = keep - over;
    let mut kept: Vec<(u32, u32)> = Vec::new();
    let ghost mut out: Seq<(u32, u32)> = seq![];
    let mut used: usize = 0;
    let mut k: usize = 0;
    proof {
        broadcast use vstd::seq_lib::group_to_multiset_ensures;

        assert(raw@.take(0) =~= seq![]);
        assert(raw@.take(0).to_multiset() =~= kept@.to_multiset().add(out.to_multiset()));
    }
    while k < raw.len()
        invariant
            k <= raw@.len(),
            0 < keep < raw@.len(),
            picks_round(raw@, keep as nat),
            over == count_above(raw@, t as int),
            need == keep - over,
            used <= need,
            used < need ==> used == count_above(raw@.take(k as int), t - 1) - count_above(
                raw@.take(k as int),
                t as int,
            ),
            used == need ==> used <= count_above(raw@.take(k as int), t - 1) - count_above(
                raw@.take(k as int),
                t as int,
            ),
            kept@.len() == count_above(raw@.take(k as int), t as int) + used,
            kept@.len() <= k,
            codec::all_round(kept@),
            forall|i: int| 0 <= i < kept@.len() ==> size_of(#[trigger] kept@[i].1) >= t,
            forall|i: int| 0 <= i < out.len() ==> size_of(#[trigger] out[i].1) <= t,
            raw@.take(k as int).to_multiset() == kept@.to_multiset().add(out.to_multiset()),
        decreases raw@.len() - k,
    {
        broadcast use vstd::seq_lib::group_to_multiset_ensures;

        let e: (u32, u32) = raw[k];
        let m: u32 = size(e.1);
        let ghost before = raw@.take(k as int);
        let ghost kept0 = kept@;
        let ghost out0 = out;
        assert(raw@.take(k + 1).drop_last() =~= before);
        assert(raw@.take(k + 1) =~= before.push(e));
        if m > t || (m == t && used < need) {
            proof {
                if m > t {
                    lemma_count_strict(raw@, t as int, k as int);
                }
                assert(may_stay(raw@, keep as nat, raw@[k as int].1));
                assert(codec::rounds(e.1));
            }
            kept.push(e);
            if m == t {
                used += 1;
            }
            assert(kept@.to_multiset().add(out.to_multiset()) =~= kept0.to_multiset().add(
                out.to_multiset(),
            ).insert(e));
        } else {
            proof {
                out = out.push(e);
                assert(kept@.to_multiset().add(out.to_multiset()) =~= kept@.to_multiset().add(
                    out0.to_multiset(),
                ).insert(e));
            }
        }
        k += 1;
    }
    proof {
        assert(raw@.take(k as int) =~= raw@);
        lemma_count_bounds(raw@, t - 1);
        assert(used == need);
        assert(is_split(raw@, kept@, out));
    }
    kept
}

/// Whether every change that may be sent has a bf16.
pub fn can_pick(raw: &Vec<(u32, u32)>, keep: usize) -> (yes: bool)
    ensures
        yes == picks_round(raw@, keep as nat),
{
    let mut k: usize = 0;
    while k < raw.len()
        invariant
            k <= raw@.len(),
            forall|i: int|
                0 <= i < k && may_stay(raw@, keep as nat, #[trigger] raw@[i].1) ==> codec::rounds(
                    raw@[i].1,
                ),
        decreases raw@.len() - k,
    {
        let d: u32 = raw[k].1;
        if !can_round(d) {
            if raw.len() <= keep || count_larger(raw, size(d)) < keep {
                assert(may_stay(raw@, keep as nat, raw@[k as int].1));
                return false;
            }
        }
        k += 1;
    }
    true
}

/// The `keep` largest changes, rounded to what the wire carries, by index. Whatever is left
/// out stays with the caller and goes in a later chunk.
pub fn pick_largest(raw: Vec<(u32, u32)>, keep: usize) -> (sent: Vec<(u32, u32)>)
    requires
        picks_round(raw@, keep as nat),
    ensures
        raw@.len() <= keep ==> sent@ == cleaned(raw@),
        keep < raw@.len() ==> exists|kept: Seq<(u32, u32)>| #[trigger]
            is_largest(raw@, keep as nat, kept) && sent@ == cleaned(kept),
        sent@.len() <= keep,
        keep == 0 ==> sent@ == Seq::<(u32, u32)>::empty(),
        codec::in_order(raw@) || keep < raw@.len() ==> codec::in_order(sent@),
        codec::all_round(sent@),
{
    if raw.len() > keep && keep == 0 {
        let none: Vec<(u32, u32)> = Vec::new();
        proof {
            broadcast use vstd::seq_lib::group_to_multiset_ensures;

            assert(raw@.to_multiset() =~= none@.to_multiset().add(raw@.to_multiset()));
            assert(is_split(raw@, none@, raw@));
            assert(is_largest(raw@, 0, none@));
        }
        return none;
    }
    if raw.len() > keep {
        let kept: Vec<(u32, u32)> = keep_largest(&raw, keep);
        let ghost loose = kept@;
        let ghost out = choose|out: Seq<(u32, u32)>| #[trigger] is_split(raw@, loose, out);
        let kept: Vec<(u32, u32)> = sorted(kept);
        proof {
            broadcast use vstd::seq_lib::group_to_multiset_ensures;

            assert(kept@.to_multiset().len() == loose.to_multiset().len());
            assert(kept@.len() == keep) by {
                assert(kept@.to_multiset().len() == kept@.len());
                assert(loose.to_multiset().len() == loose.len());
            }
            assert forall|i: int| 0 <= i < kept@.len() implies exists|j: int|
                0 <= j < loose.len() && #[trigger] kept@[i] == #[trigger] loose[j] by {
                assert(kept@.contains(kept@[i]));
                assert(kept@.to_multiset().count(kept@[i]) > 0);
                assert(loose.contains(kept@[i]));
            }
            assert forall|i: int| 0 <= i < kept@.len() implies codec::rounds(
                #[trigger] kept@[i].1,
            ) by {
                let j = choose|j: int| 0 <= j < loose.len() && kept@[i] == #[trigger] loose[j];
                assert(codec::rounds(loose[j].1));
            }
            assert forall|i: int, j: int| 0 <= i < kept@.len() && 0 <= j < out.len() implies size_of(
                out[j].1,
            ) <= size_of(kept@[i].1) by {
                let q = choose|q: int| 0 <= q < loose.len() && kept@[i] == #[trigger] loose[q];
                assert(size_of(out[j].1) <= size_of(loose[q].1));
            }
            assert(is_split(raw@, kept@, out));
            assert forall|i: int, j: int| 0 <= i <= j < kept@.len() implies kept@[i].0
                <= kept@[j].0 by {
                assert(sort::Keyed::spec_key(kept@[i]) <= sort::Keyed::spec_key(kept@[j]));
            }
            assert(is_largest(raw@, keep as nat, kept@));
        }
        proof {
            lemma_cleaned(kept@);
        }
        return clean(&kept);
    }
    proof {
        assert forall|i: int| 0 <= i < raw@.len() implies codec::rounds(#[trigger] raw@[i].1) by {
            assert(may_stay(raw@, keep as nat, raw@[i].1));
        }
        lemma_cleaned(raw@);
    }
    clean(&raw)
}

/// `p` is a delta with every change multiplied by `scale`.
pub open spec fn is_products<F: Fn(u32, u32) -> u32>(
    times: F,
    delta: Seq<(u32, u32)>,
    scale: u32,
    p: Seq<(u32, u32)>,
) -> bool {
    &&& p.len() == delta.len()
    &&& forall|k: int|
        0 <= k < delta.len() ==> (#[trigger] p[k]).0 == delta[k].0 && call_ensures(
            times,
            (delta[k].1, scale),
            p[k].1,
        )
}

/// A delta with every change multiplied by `scale`.
pub fn products<F: Fn(u32, u32) -> u32>(delta: &[(u32, u32)], scale: u32, times: F) -> (out: Vec<
    (u32, u32),
>)
    requires
        forall|x: u32, y: u32| call_requires(times, (x, y)),
    ensures
        is_products(times, delta@, scale, out@),
{
    let mut out: Vec<(u32, u32)> = Vec::new();
    let mut k: usize = 0;
    while k < delta.len()
        invariant
            forall|x: u32, y: u32| call_requires(times, (x, y)),
            k <= delta@.len(),
            out@.len() == k,
            forall|q: int|
                0 <= q < k ==> (#[trigger] out@[q]).0 == delta@[q].0 && call_ensures(
                    times,
                    (delta@[q].1, scale),
                    out@[q].1,
                ),
        decreases delta@.len() - k,
    {
        let (i, d): (u32, u32) = delta[k];
        let p: u32 = times(d, scale);
        out.push((i, p));
        k += 1;
    }
    out
}

/// Whether every change has a bf16.
pub fn can_scale(products: &Vec<(u32, u32)>) -> (yes: bool)
    ensures
        yes == codec::all_round(products@),
{
    let mut k: usize = 0;
    while k < products.len()
        invariant
            k <= products@.len(),
            forall|i: int| 0 <= i < k ==> codec::rounds(#[trigger] products@[i].1),
        decreases products@.len() - k,
    {
        if !can_round(products[k].1) {
            assert(!codec::rounds(products@[k as int].1));
            return false;
        }
        k += 1;
    }
    true
}

/// A delta's scaled changes, rounded to what the wire carries so both ends agree exactly.
pub fn scaled(products: &Vec<(u32, u32)>) -> (out: Vec<(u32, u32)>)
    requires
        codec::all_round(products@),
    ensures
        out@ == cleaned(products@),
{
    clean(products)
}

/// How many of the entries in `taken` the first `k` sent entries have met.
pub open spec fn met(sent: Seq<(u32, u32)>, taken: Seq<(u32, u32)>, k: int) -> nat
    decreases k,
{
    if k <= 0 {
        0
    } else {
        let u = met(sent, taken, k - 1);
        if u < taken.len() && taken[u as int].0 == sent[k - 1].0 {
            u + 1
        } else {
            u
        }
    }
}

/// What was taken of the sent entry `k`: zero where the next entry taken is another one.
pub open spec fn part_taken(sent: Seq<(u32, u32)>, taken: Seq<(u32, u32)>, k: int) -> u32 {
    let u = met(sent, taken, k);
    if u < taken.len() && taken[u as int].0 == sent[k].0 {
        taken[u as int].1
    } else {
        0
    }
}

/// What has to be added to the weights that were sent, so that they keep what was taken of
/// each: the part taken minus the part sent.
pub fn settle<F: Fn(u32, u32) -> u32>(
    sent: &[(u32, u32)],
    taken: &[(u32, u32)],
    minus: F,
) -> (back: Vec<(u32, u32)>)
    requires
        forall|x: u32, y: u32| call_requires(minus, (x, y)),
    ensures
        back@.len() == sent@.len(),
        forall|k: int|
            0 <= k < sent@.len() ==> (#[trigger] back@[k]).0 == sent@[k].0 && call_ensures(
                minus,
                (part_taken(sent@, taken@, k), sent@[k].1),
                back@[k].1,
            ),
{
    let mut back: Vec<(u32, u32)> = Vec::new();
    let mut t: usize = 0;
    let mut k: usize = 0;
    while k < sent.len()
        invariant
            forall|x: u32, y: u32| call_requires(minus, (x, y)),
            k <= sent@.len(),
            back@.len() == k,
            t <= taken@.len(),
            t == met(sent@, taken@, k as int),
            forall|q: int|
                0 <= q < k ==> (#[trigger] back@[q]).0 == sent@[q].0 && call_ensures(
                    minus,
                    (part_taken(sent@, taken@, q), sent@[q].1),
                    back@[q].1,
                ),
        decreases sent@.len() - k,
    {
        let (i, d): (u32, u32) = sent[k];
        let mut a: u32 = 0;
        if t < taken.len() && taken[t].0 == i {
            a = taken[t].1;
            t += 1;
        }
        let x: u32 = minus(a, d);
        back.push((i, x));
        k += 1;
    }
    back
}

pub proof fn lemma_cleaned(s: Seq<(u32, u32)>)
    requires
        codec::all_round(s),
    ensures
        codec::all_round(cleaned(s)),
        codec::received(cleaned(s)) == cleaned(s),
        cleaned(s).len() <= s.len(),
        forall|i: int|
            0 <= i < cleaned(s).len() ==> !ntuple::is_zero((#[trigger] cleaned(s)[i]).1) && exists|
                k: int,
            |
                0 <= k < s.len() && (#[trigger] s[k]).0 == cleaned(s)[i].0,
        codec::in_order(s) ==> codec::in_order(cleaned(s)),
    decreases s.len(),
{
    if s.len() == 0 {
        assert(codec::received(cleaned(s)) =~= cleaned(s));
    } else {
        let t = s.drop_last();
        assert forall|i: int| 0 <= i < t.len() implies codec::rounds(#[trigger] t[i].1) by {
            assert(codec::rounds(s[i].1));
        }
        lemma_cleaned(t);
        assert(codec::rounds(s[s.len() - 1].1));
        codec::carrying_twice_is_carrying_once(s.last().1);
        let c = cleaned(s);
        assert forall|i: int| 0 <= i < c.len() implies !ntuple::is_zero((#[trigger] c[i]).1)
            && exists|k: int| 0 <= k < s.len() && (#[trigger] s[k]).0 == c[i].0 by {
            if i < cleaned(t).len() {
                assert(c[i] == cleaned(t)[i]);
                let k = choose|k: int| 0 <= k < t.len() && (#[trigger] t[k]).0 == cleaned(t)[i].0;
                assert(s[k].0 == c[i].0);
            } else {
                assert(s[s.len() - 1].0 == c[i].0);
            }
        }
        assert(codec::received(c) =~= c) by {
            assert forall|i: int| 0 <= i < c.len() implies codec::received(c)[i] == c[i] by {
                if i < cleaned(t).len() {
                    assert(codec::received(cleaned(t))[i] == cleaned(t)[i]);
                }
            }
        }
        assert forall|i: int| 0 <= i < c.len() implies codec::rounds(#[trigger] c[i].1) by {
            if i < cleaned(t).len() {
                assert(codec::rounds(cleaned(t)[i].1));
            }
        }
        if codec::in_order(s) {
            assert(codec::in_order(t));
            assert forall|i: int, j: int| 0 <= i <= j < c.len() implies c[i].0 <= c[j].0 by {
                if j < cleaned(t).len() {
                    assert(cleaned(t)[i].0 <= cleaned(t)[j].0);
                } else if i < cleaned(t).len() {
                    let k = choose|k: int|
                        0 <= k < t.len() && (#[trigger] t[k]).0 == cleaned(t)[i].0;
                    assert(s[k].0 <= s[s.len() - 1].0);
                }
            }
        }
    }
}

/// What was rounded for the wire arrives exactly: a worker's sent changes at the coordinator,
/// and the coordinator's scaled changes at every other worker.
pub proof fn cleaned_deltas_arrive_exactly(s: Seq<(u32, u32)>)
    requires
        codec::in_order(s),
        codec::all_round(s),
        s.len() <= u32::MAX,
    ensures
        codec::in_order(cleaned(s)),
        codec::all_round(cleaned(s)),
        codec::decoded(codec::encoded(cleaned(s))) == Some(cleaned(s)),
        codec::indices_fit(codec::encoded(cleaned(s))),
{
    lemma_cleaned(s);
    codec::encoding_then_decoding_rounds(cleaned(s));
}

proof fn lemma_cleaned_prefix(s: Seq<(u32, u32)>, k: int)
    requires
        0 <= k <= s.len(),
    ensures
        cleaned(s.take(k)).len() <= cleaned(s).len(),
        cleaned(s).take(cleaned(s.take(k)).len() as int) == cleaned(s.take(k)),
    decreases s.len() - k,
{
    if k == s.len() {
        assert(s.take(k) =~= s);
        assert(cleaned(s).take(cleaned(s).len() as int) =~= cleaned(s));
    } else {
        lemma_cleaned_prefix(s, k + 1);
        let (a, b) = (cleaned(s.take(k)), cleaned(s.take(k + 1)));
        assert(s.take(k + 1).drop_last() =~= s.take(k));
        assert(cleaned(s).take(a.len() as int) =~= b.take(a.len() as int));
        assert(b.take(a.len() as int) =~= a);
    }
}

proof fn lemma_met(sent: Seq<(u32, u32)>, p: Seq<(u32, u32)>, k: int)
    requires
        p.len() == sent.len(),
        codec::all_round(p),
        forall|i: int| 0 <= i < p.len() ==> (#[trigger] p[i]).0 == sent[i].0,
        forall|i: int, j: int| 0 <= i < j < sent.len() ==> sent[i].0 < sent[j].0,
        0 <= k <= p.len(),
    ensures
        met(sent, cleaned(p), k) == cleaned(p.take(k)).len(),
    decreases k,
{
    let taken = cleaned(p);
    if k == 0 {
        assert(p.take(0) =~= seq![]);
    } else {
        lemma_met(sent, p, k - 1);
        lemma_cleaned_prefix(p, k - 1);
        lemma_cleaned_prefix(p, k);
        let a = cleaned(p.take(k - 1));
        let b = cleaned(p.take(k));
        let u = a.len() as int;
        assert(p.take(k).drop_last() =~= p.take(k - 1));
        assert(p.take(k).last() == p[k - 1]);
        if b.len() == u + 1 {
            assert(taken.take(b.len() as int)[u] == b[u]);
        } else if u < taken.len() && taken[u].0 == sent[k - 1].0 {
            lemma_tail_from(p, k, u);
            let q = choose|q: int| k <= q < p.len() && (#[trigger] p[q]).0 == taken[u].0;
            assert(sent[k - 1].0 < sent[q].0);
        }
    }
}

/// Entries past those of a prefix stem from past the prefix.
proof fn lemma_tail_from(p: Seq<(u32, u32)>, k: int, i: int)
    requires
        0 <= k <= p.len(),
        cleaned(p.take(k)).len() <= i < cleaned(p).len(),
    ensures
        exists|q: int| k <= q < p.len() && (#[trigger] p[q]).0 == cleaned(p)[i].0,
    decreases p.len() - k,
{
    if k == p.len() {
        assert(p.take(k) =~= p);
    } else {
        lemma_cleaned_prefix(p, k + 1);
        assert(p.take(k + 1).drop_last() =~= p.take(k));
        let b = cleaned(p.take(k + 1));
        if i < b.len() {
            assert(cleaned(p).take(b.len() as int)[i] == b[i]);
            assert(p[k].0 == b[i].0);
        } else {
            lemma_tail_from(p, k + 1, i);
        }
    }
}

/// Settling a worker's own changes leaves of each exactly what the coordinator took: its
/// scaled change as the wire carries it, and zero where that is zero.
pub proof fn settling_keeps_what_was_taken(sent: Seq<(u32, u32)>, p: Seq<(u32, u32)>, k: int)
    requires
        p.len() == sent.len(),
        codec::all_round(p),
        forall|i: int| 0 <= i < p.len() ==> (#[trigger] p[i]).0 == sent[i].0,
        forall|i: int, j: int| 0 <= i < j < sent.len() ==> sent[i].0 < sent[j].0,
        0 <= k < p.len(),
    ensures
        part_taken(sent, cleaned(p), k) == if ntuple::is_zero(codec::carried(p[k].1)) {
            0
        } else {
            codec::carried(p[k].1)
        },
{
    let taken = cleaned(p);
    let u = met(sent, taken, k) as int;
    lemma_met(sent, p, k);
    lemma_met(sent, p, k + 1);
    lemma_cleaned_prefix(p, k + 1);
    assert(p.take(k + 1).drop_last() =~= p.take(k));
    assert(p.take(k + 1).last() == p[k]);
    let b = cleaned(p.take(k + 1));
    if b.len() == u + 1 {
        assert(taken.take(b.len() as int)[u] == b[u]);
    }
}

}
