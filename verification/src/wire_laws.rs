//! What machines send each other: how changes are written down, what is left of them, what the
//! master makes of them, and which of them its log keeps and hands out.

use crate::codec;
use crate::coord;
use crate::deltas;
use crate::deltas::{DeltaView, LogView};
use crate::le;
use crate::ntuple;
use crate::ntuple::NTupleView;
use crate::select;
use vstd::prelude::*;

verus! {

/// How far two numbers are apart.
pub open spec fn apart(a: int, b: int) -> int {
    if a < b {
        b - a
    } else {
        a - b
    }
}

/// The wire carries the nearest pattern that has no low half; of two that are equally near, the
/// one with an even top half. Only patterns too close to the end of the range have none.
pub proof fn the_nearest_short_value_is_carried(b: u32, m: int)
    ensures
        codec::rounds(b) <==> b < 0xFFFF_8000,
        codec::rounds(b) ==> {
            let c = codec::carried(b) as int;
            &&& c % 0x1_0000 == 0
            &&& apart(c, b as int) <= apart(m * 0x1_0000, b as int)
            &&& apart(c, b as int) == apart(m * 0x1_0000, b as int) && c != m * 0x1_0000 ==> (c
                / 0x1_0000) % 2 == 0
        },
{
    let (q, r) = (b as int / 0x1_0000, b as int % 0x1_0000);
    assert(b == q * 0x1_0000 + r);
    if codec::rounds(b) {
        let c = codec::carried(b) as int;
        assert(c == 0x1_0000 * codec::rounded_half(b));
        if m <= q {
            assert(m * 0x1_0000 <= q * 0x1_0000);
        } else {
            assert(m * 0x1_0000 >= (q + 1) * 0x1_0000);
        }
    }
}

/// Numbers are written as their digits in base 256, the lowest first.
pub proof fn numbers_are_written_lowest_byte_first(x: u16, y: u32, z: u64)
    ensures
        le::le16(x) == seq![(x % 256) as u8, (x / 256) as u8],
        le::le32(y) == seq![
            (y % 256) as u8,
            (y / 256 % 256) as u8,
            (y / 0x1_0000 % 256) as u8,
            (y / 0x100_0000) as u8,
        ],
        le::le64(z) == seq![
            (z % 256) as u8,
            (z / 256 % 256) as u8,
            (z / 0x1_0000 % 256) as u8,
            (z / 0x100_0000 % 256) as u8,
            (z / 0x1_0000_0000 % 256) as u8,
            (z / 0x100_0000_0000 % 256) as u8,
            (z / 0x1_0000_0000_0000 % 256) as u8,
            (z / 0x100_0000_0000_0000) as u8,
        ],
{
    lemma_written16(x);
    lemma_written32(y);
    lemma_written64(z);
}

proof fn lemma_written16(x: u16)
    ensures
        le::le16(x) == seq![(x % 256) as u8, (x / 256) as u8],
{
    let s = le::le16(x);
    lemma_byte(x as nat, 1);
    assert(s[0] == x % 256 && s[1] == x / 256);
    assert(s =~= seq![(x % 256) as u8, (x / 256) as u8]);
}

proof fn lemma_written32(y: u32)
    ensures
        le::le32(y) == seq![
            (y % 256) as u8,
            (y / 256 % 256) as u8,
            (y / 0x1_0000 % 256) as u8,
            (y / 0x100_0000) as u8,
        ],
{
    let s = le::le32(y);
    lemma_byte(y as nat, 1);
    lemma_byte(y as nat, 2);
    lemma_byte(y as nat, 3);
    assert(s[0] == y % 256 && s[1] == y / 256 % 256 && s[2] == y / 0x1_0000 % 256 && s[3] == y
        / 0x100_0000);
    assert(s =~= seq![
        (y % 256) as u8,
        (y / 256 % 256) as u8,
        (y / 0x1_0000 % 256) as u8,
        (y / 0x100_0000) as u8,
    ]);
}

proof fn lemma_written64(z: u64)
    ensures
        le::le64(z) == seq![
            (z % 256) as u8,
            (z / 256 % 256) as u8,
            (z / 0x1_0000 % 256) as u8,
            (z / 0x100_0000 % 256) as u8,
            (z / 0x1_0000_0000 % 256) as u8,
            (z / 0x100_0000_0000 % 256) as u8,
            (z / 0x1_0000_0000_0000 % 256) as u8,
            (z / 0x100_0000_0000_0000) as u8,
        ],
{
    let s = le::le64(z);
    lemma_byte(z as nat, 1);
    lemma_byte(z as nat, 2);
    lemma_byte(z as nat, 3);
    lemma_byte(z as nat, 4);
    lemma_byte(z as nat, 5);
    lemma_byte(z as nat, 6);
    lemma_byte(z as nat, 7);
    assert(s[0] == z % 256 && s[1] == z / 256 % 256 && s[2] == z / 0x1_0000 % 256 && s[3] == z
        / 0x100_0000 % 256);
    assert(s[4] == z / 0x1_0000_0000 % 256 && s[5] == z / 0x100_0000_0000 % 256 && s[6] == z
        / 0x1_0000_0000_0000 % 256 && s[7] == z / 0x100_0000_0000_0000);
    assert(s =~= seq![
        (z % 256) as u8,
        (z / 256 % 256) as u8,
        (z / 0x1_0000 % 256) as u8,
        (z / 0x100_0000 % 256) as u8,
        (z / 0x1_0000_0000 % 256) as u8,
        (z / 0x100_0000_0000 % 256) as u8,
        (z / 0x1_0000_0000_0000 % 256) as u8,
        (z / 0x100_0000_0000_0000) as u8,
    ]);
}

/// The value of a place in base 256.
spec fn step(i: int) -> int {
    if i == 1 {
        0x100
    } else if i == 2 {
        0x1_0000
    } else if i == 3 {
        0x100_0000
    } else if i == 4 {
        0x1_0000_0000
    } else if i == 5 {
        0x100_0000_0000
    } else if i == 6 {
        0x1_0000_0000_0000
    } else if i == 7 {
        0x100_0000_0000_0000
    } else {
        1
    }
}

proof fn lemma_byte(x: nat, i: int)
    requires
        0 <= i < 8,
    ensures
        le::byte_of(x, i) == x as int / step(i) % 256,
    decreases i,
{
    if i > 0 {
        lemma_byte(x / 256, i - 1);
        vstd::arithmetic::div_mod::lemma_div_denominator(x as int, 256, step(i - 1));
    }
}

/// What groups of seven bits add up to, the lowest first.
pub open spec fn spelt(bytes: Seq<u8>) -> int
    decreases bytes.len(),
{
    if bytes.len() == 0 {
        0
    } else {
        bytes[0] % 128 + 128 * spelt(bytes.skip(1))
    }
}

/// A gap is written in groups of seven bits that add up to it, the lowest first: all but the
/// last are marked, and no group is wasted.
pub proof fn gaps_spell_their_number(g: nat)
    ensures
        ({
            let bytes = codec::gap_bytes(g);
            &&& bytes.len() > 0
            &&& spelt(bytes) == g
            &&& forall|i: int| 0 <= i < bytes.len() - 1 ==> #[trigger] bytes[i] >= 128
            &&& bytes.last() < 128
            &&& bytes.len() > 1 ==> bytes.last() > 0
        }),
    decreases g,
{
    let bytes = codec::gap_bytes(g);
    reveal_with_fuel(spelt, 2);
    if g < 128 {
        assert(bytes.skip(1) =~= seq![]);
    } else {
        gaps_spell_their_number(g / 128);
        let rest = codec::gap_bytes(g / 128);
        assert(bytes.skip(1) =~= rest);
        assert forall|i: int| 0 <= i < bytes.len() - 1 implies #[trigger] bytes[i] >= 128 by {
            if i > 0 {
                assert(bytes[i] == rest[i - 1]);
            }
        }
        assert(bytes.last() == rest.last());
    }
}

/// The index that a delta ends with; none is zero.
pub open spec fn last_index(delta: Seq<(u32, u32)>) -> u32 {
    if delta.len() == 0 {
        0
    } else {
        delta.last().0
    }
}

proof fn lemma_body_push(prev: u32, delta: Seq<(u32, u32)>, e: (u32, u32))
    ensures
        codec::body_bytes(prev, delta.push(e)) == codec::body_bytes(prev, delta)
            + codec::entry_bytes(
            if delta.len() == 0 {
                prev
            } else {
                delta.last().0
            },
            e,
        ),
    decreases delta.len(),
{
    let all = delta.push(e);
    if delta.len() == 0 {
        assert(all.skip(1) =~= seq![]);
        assert(codec::body_bytes(e.0, all.skip(1)) =~= seq![]);
        assert(codec::body_bytes(prev, all) =~= codec::entry_bytes(prev, e));
        assert(codec::body_bytes(prev, delta) =~= seq![]);
    } else {
        assert(all.skip(1) =~= delta.skip(1).push(e));
        lemma_body_push(delta[0].0, delta.skip(1), e);
        if delta.len() > 1 {
            assert(delta.skip(1).last() == delta.last());
        }
        assert(codec::body_bytes(prev, all) =~= codec::body_bytes(prev, delta)
            + codec::entry_bytes(delta.last().0, e));
    }
}

/// A delta on the wire is its number of entries and then each entry: the gap from the entry
/// before it, and the top half of the change that is carried, low byte first.
pub proof fn deltas_are_written_entry_by_entry(delta: Seq<(u32, u32)>, e: (u32, u32))
    requires
        delta.len() < u32::MAX,
        last_index(delta) <= e.0,
        codec::rounds(e.1),
    ensures
        codec::encoded(Seq::empty()) == seq![0u8, 0, 0, 0],
        codec::encoded(delta).take(4) == le::le32(delta.len() as u32),
        codec::encoded(delta.push(e)).take(4) == le::le32((delta.len() + 1) as u32),
        codec::encoded(delta.push(e)).skip(4) == codec::encoded(delta).skip(4) + codec::gap_bytes(
            (e.0 - last_index(delta)) as nat,
        ) + seq![
            (codec::carried(e.1) / 0x1_0000 % 256) as u8,
            (codec::carried(e.1) / 0x100_0000) as u8,
        ],
{
    let none = Seq::<(u32, u32)>::empty();
    numbers_are_written_lowest_byte_first(codec::rounded_half(e.1) as u16, 0, 0);
    assert(codec::body_bytes(0, none) =~= seq![]);
    assert(codec::encoded(none) =~= seq![0u8, 0, 0, 0]);
    lemma_body_push(0, delta, e);
    let (a, b) = (codec::encoded(delta), codec::encoded(delta.push(e)));
    assert(a.take(4) =~= le::le32(delta.len() as u32));
    assert(b.take(4) =~= le::le32((delta.len() + 1) as u32));
    assert(a.skip(4) =~= codec::body_bytes(0, delta));
    assert(b.skip(4) =~= codec::body_bytes(0, delta.push(e)));
    let h = codec::rounded_half(e.1);
    assert(codec::carried(e.1) == 0x1_0000 * h);
    assert(codec::carried(e.1) / 0x1_0000 % 256 == h % 256);
    assert(codec::carried(e.1) / 0x100_0000 == h / 256);
    assert(b.skip(4) =~= a.skip(4) + codec::gap_bytes((e.0 - last_index(delta)) as nat)
        + le::le16(h as u16));
}

/// What is left of changes for the wire is left of each by itself, in their order: its carried
/// pattern, or nothing where that is a zero.
pub proof fn changes_are_cleaned_one_by_one(a: Seq<(u32, u32)>, b: Seq<(u32, u32)>, e: (u32, u32))
    ensures
        select::cleaned(a + b) == select::cleaned(a) + select::cleaned(b),
        select::cleaned(seq![e]) == if codec::carried(e.1) == 0 || codec::carried(e.1)
            == 0x8000_0000 {
            Seq::<(u32, u32)>::empty()
        } else {
            seq![(e.0, codec::carried(e.1))]
        },
    decreases b.len(),
{
    reveal_with_fuel(select::cleaned, 2);
    assert(seq![e].drop_last() =~= seq![]);
    assert(select::cleaned(seq![e]) =~= if codec::carried(e.1) == 0 || codec::carried(e.1)
        == 0x8000_0000 {
        Seq::<(u32, u32)>::empty()
    } else {
        seq![(e.0, codec::carried(e.1))]
    });
    if b.len() == 0 {
        assert(a + b =~= a);
        assert(select::cleaned(a + b) =~= select::cleaned(a) + select::cleaned(b));
    } else {
        assert((a + b).drop_last() =~= a + b.drop_last());
        assert((a + b).last() == b.last());
        changes_are_cleaned_one_by_one(a, b.drop_last(), e);
        assert(select::cleaned(a + b) =~= select::cleaned(a) + select::cleaned(b));
    }
}

/// The size of a change is its pattern without the sign.
pub proof fn sizes_have_no_sign(d: u32)
    ensures
        d < 0x8000_0000 ==> select::size_of(d) == d,
        d >= 0x8000_0000 ==> select::size_of(d) == d - 0x8000_0000,
{
}

/// What the first `n` entries of a delta hold for weight `i`, all together.
pub open spec fn held_for(delta: Seq<(u32, u32)>, i: int, n: int) -> int
    decreases n,
{
    if n <= 0 {
        0
    } else {
        held_for(delta, i, n - 1) + if delta[n - 1].0 == i {
            delta[n - 1].1 as int
        } else {
            0
        }
    }
}

proof fn lemma_held<P: Fn(u32, u32) -> u32>(
    plus: P,
    delta: Seq<(u32, u32)>,
    hist: Seq<Seq<u32>>,
    i: int,
    n: int,
)
    requires
        forall|x: u32, y: u32, z: u32| #[trigger]
            call_ensures(plus, (x, y), z) ==> z == (x + y) % 0x1_0000_0000,
        ntuple::added_all(plus, delta, hist),
        0 <= n <= delta.len(),
        0 <= i < hist[0].len(),
    ensures
        hist[n].len() == hist[0].len(),
        hist[n][i] == (hist[0][i] + held_for(delta, i, n)) % 0x1_0000_0000,
    decreases n,
{
    if n > 0 {
        lemma_held(plus, delta, hist, i, n - 1);
        assert(ntuple::added_one(plus, delta[n - 1], hist[n - 1], hist[n - 1 + 1]));
    }
}

/// Adding a delta moves every weight by all that the delta holds for it, and by nothing else;
/// what it holds for weights that are not there is left. Seen under whole-number addition,
/// where a sum has one outcome.
pub proof fn weights_gain_what_a_delta_holds<P: Fn(u32, u32) -> u32>(
    plus: P,
    delta: Seq<(u32, u32)>,
    w: Seq<u32>,
    to: Seq<u32>,
    i: int,
)
    requires
        forall|x: u32, y: u32, z: u32| #[trigger]
            call_ensures(plus, (x, y), z) ==> z == (x + y) % 0x1_0000_0000,
        ntuple::is_added(plus, delta, w, to),
        0 <= i < w.len(),
    ensures
        to.len() == w.len(),
        to[i] == (w[i] + held_for(delta, i, delta.len() as int)) % 0x1_0000_0000,
{
    let hist = choose|hist: Seq<Seq<u32>>| #[trigger]
        ntuple::added_all(plus, delta, hist) && hist.first() == w && hist.last() == to;
    lemma_held(plus, delta, hist, i, delta.len() as int);
}

/// What is carried of the first `n` changes `p` for weight `i`, all together; zeros of either
/// sign count for nothing.
pub open spec fn carried_for(p: Seq<(u32, u32)>, i: int, n: int) -> int
    decreases n,
{
    if n <= 0 {
        0
    } else {
        let c = codec::carried(p[n - 1].1);
        carried_for(p, i, n - 1) + if p[n - 1].0 == i && c != 0x8000_0000 {
            c as int
        } else {
            0
        }
    }
}

proof fn lemma_carried(p: Seq<(u32, u32)>, i: int, n: int)
    requires
        0 <= n <= p.len(),
    ensures
        ({
            let d = select::cleaned(p.take(n));
            held_for(d, i, d.len() as int) == carried_for(p, i, n)
        }),
    decreases n,
{
    if n == 0 {
        assert(p.take(0) =~= seq![]);
    } else {
        lemma_carried(p, i, n - 1);
        let (a, d) = (select::cleaned(p.take(n - 1)), select::cleaned(p.take(n)));
        assert(p.take(n).drop_last() =~= p.take(n - 1));
        assert(p.take(n).last() == p[n - 1]);
        if d.len() == a.len() + 1 {
            lemma_held_prefix(a, d, i, a.len() as int);
        }
    }
}

proof fn lemma_held_prefix(a: Seq<(u32, u32)>, b: Seq<(u32, u32)>, i: int, n: int)
    requires
        0 <= n <= a.len() <= b.len(),
        forall|k: int| 0 <= k < n ==> a[k] == b[k],
    ensures
        held_for(a, i, n) == held_for(b, i, n),
    decreases n,
{
    if n > 0 {
        lemma_held_prefix(a, b, i, n - 1);
    }
}

/// A delta that is merged moves each of the master's weights by its own changes to it, each
/// times the share and carried as the wire does; the log gains one update, with the next
/// number, under the sender's name and the time, which tells exactly those changes. Nothing
/// else of net and log changes.
#[verifier::rlimit(40)]
pub proof fn merging_adds_the_scaled_changes<T: Fn(u32, u32) -> u32, P: Fn(u32, u32) -> u32>(
    times: T,
    plus: P,
    me: Seq<char>,
    delta: Seq<(u32, u32)>,
    scale: u32,
    now: u64,
    from: (NTupleView, LogView),
    to: (NTupleView, LogView),
    seq: u64,
    i: int,
)
    requires
        forall|x: u32, y: u32, z: u32| #[trigger]
            call_ensures(plus, (x, y), z) ==> z == (x + y) % 0x1_0000_0000,
        coord::is_merged(times, plus, me, delta, scale, now, from, to, Some(seq)),
        codec::in_order(delta),
        delta.len() <= u32::MAX,
        0 <= i < from.0.w.len(),
    ensures
        to.0.layout == from.0.layout,
        to.0.tc == from.0.tc,
        to.0.w.len() == from.0.w.len(),
        exists|p: Seq<(u32, u32)>|
            {
                &&& p.len() == delta.len()
                &&& forall|k: int|
                    0 <= k < delta.len() ==> (#[trigger] p[k]).0 == delta[k].0 && call_ensures(
                        times,
                        (delta[k].1, scale),
                        p[k].1,
                    )
                &&& to.0.w[i] == (from.0.w[i] + #[trigger] carried_for(p, i, p.len() as int))
                    % 0x1_0000_0000
                &&& codec::decoded(to.1.entries.last().bytes) == Some(select::cleaned(p))
            },
        seq == from.1.seq + 1,
        to.1.seq == seq,
        to.1.saved_seq == from.1.saved_seq,
        to.1.saved_at == from.1.saved_at,
        to.1.entries.len() == from.1.entries.len() + 1,
        to.1.entries.drop_last() == from.1.entries,
        to.1.entries.last().seq == seq,
        to.1.entries.last().from == me,
        to.1.entries.last().at == now,
{
    let p = choose|p: Seq<(u32, u32)>| #[trigger]
        select::is_products(times, delta, scale, p) && codec::all_round(p) && seq == from.1.seq + 1
            && coord::is_taken(plus, me, p, now, from, to);
    weights_gain_what_a_delta_holds(plus, select::cleaned(p), from.0.w, to.0.w, i);
    lemma_carried(p, i, p.len() as int);
    assert(p.take(p.len() as int) =~= p);
    coord::workers_get_what_the_master_added(delta, p);
    assert(to.1.entries.drop_last() =~= from.1.entries);
    assert(to.0.w[i] == (from.0.w[i] + carried_for(p, i, p.len() as int)) % 0x1_0000_0000);
}

/// A worker that pulls is handed the bytes of just those updates that are later than its own
/// and that others made, in their order.
pub proof fn pulls_hand_out_the_later_updates_of_others(
    entries: Seq<DeltaView>,
    since: u64,
    me: Seq<char>,
)
    ensures
        deltas::picked(entries, since, me, entries.len() as int) == entries.filter(
            |d: DeltaView| d.seq > since && d.from != me,
        ).map_values(|d: DeltaView| d.bytes),
{
    lemma_picked_filter(entries, since, me, entries.len() as int);
    assert(entries.take(entries.len() as int) =~= entries);
}

proof fn lemma_picked_filter(entries: Seq<DeltaView>, since: u64, me: Seq<char>, n: int)
    requires
        0 <= n <= entries.len(),
    ensures
        deltas::picked(entries, since, me, n) == entries.take(n).filter(
            |d: DeltaView| d.seq > since && d.from != me,
        ).map_values(|d: DeltaView| d.bytes),
    decreases n,
{
    reveal(Seq::filter);
    let f = |d: DeltaView| d.seq > since && d.from != me;
    let g = |d: DeltaView| d.bytes;
    if n > 0 {
        lemma_picked_filter(entries, since, me, n - 1);
        assert(entries.take(n).drop_last() =~= entries.take(n - 1));
        assert(entries.take(n).last() == entries[n - 1]);
        let before = entries.take(n - 1).filter(f);
        if f(entries[n - 1]) {
            assert(entries.take(n).filter(f) =~= before.push(entries[n - 1]));
            assert(before.push(entries[n - 1]).map_values(g) =~= before.map_values(g).push(
                entries[n - 1].bytes,
            ));
        } else {
            assert(entries.take(n).filter(f) =~= before);
        }
    } else {
        assert(entries.take(0) =~= seq![]);
        assert(entries.take(0).filter(f) =~= seq![]);
        assert(entries.take(0).filter(f).map_values(g) =~= seq![]);
    }
}

/// The log can bring a worker up to date exactly if it holds every update after the worker's.
pub proof fn logs_reach_where_nothing_is_missing(l: LogView, since: u64)
    requires
        l.valid(),
    ensures
        l.reaches(since) <==> forall|u: u64| since < u <= l.seq ==> #[trigger] holds(l, u),
{
    if l.reaches(since) {
        assert forall|u: u64| since < u <= l.seq implies #[trigger] holds(l, u) by {
            deltas::no_update_is_skipped(l, since, u);
        }
    } else {
        assert(!holds(l, (since + 1) as u64));
    }
}

/// Update `u` is in the log.
pub open spec fn holds(l: LogView, u: u64) -> bool {
    exists|i: int| 0 <= i < l.entries.len() && (#[trigger] l.entries[i]).seq == u
}

/// The bytes of a log are those of its updates.
pub proof fn logs_count_every_byte(entries: Seq<DeltaView>)
    ensures
        deltas::total_bytes(entries) == entries.fold_right(
            |d: DeltaView, n: int| n + d.bytes.len(),
            0int,
        ),
{
    let f = |d: DeltaView, n: int| n + d.bytes.len();
    entries.lemma_fold_right_alt(f, 0int);
    lemma_total_alt(entries);
}

proof fn lemma_total_alt(entries: Seq<DeltaView>)
    ensures
        deltas::total_bytes(entries) == entries.fold_right_alt(
            |d: DeltaView, n: int| n + d.bytes.len(),
            0int,
        ),
    decreases entries.len(),
{
    if entries.len() > 0 {
        lemma_total_alt(entries.skip(1));
        assert(entries.subrange(1, entries.len() as int) =~= entries.skip(1));
    }
}

/// A save keeps the newest updates: what goes was saved and was too much or too old while it
/// was the oldest, and the oldest that stays is not saved, or is neither.
pub proof fn saves_stop_at_the_first_to_keep(entries: Seq<DeltaView>, saved: u64, now: u64)
    ensures
        ({
            let t = deltas::trimmed(entries, saved, now);
            let gone = entries.len() - t.len();
            &&& 0 <= gone
            &&& t == entries.skip(gone)
            &&& forall|i: int|
                0 <= i < gone ==> (#[trigger] entries[i]).seq <= saved && (deltas::total_bytes(
                    entries.skip(i),
                ) > 0x4000_0000 || now - entries[i].at >= 21_600_000_000_000)
            &&& t.len() > 0 && t[0].seq <= saved ==> deltas::total_bytes(t) <= 0x4000_0000 && now
                - t[0].at < 21_600_000_000_000
        }),
    decreases entries.len(),
{
    let t = deltas::trimmed(entries, saved, now);
    if entries.len() == 0 || entries[0].seq > saved || (deltas::total_bytes(entries)
        <= 0x4000_0000 && now - entries[0].at < 21_600_000_000_000) {
        assert(t == entries);
        assert(entries.skip(0) =~= entries);
    } else {
        let rest = entries.skip(1);
        saves_stop_at_the_first_to_keep(rest, saved, now);
        let gone = entries.len() - t.len();
        assert(t == deltas::trimmed(rest, saved, now));
        assert(rest.skip(gone - 1) =~= entries.skip(gone));
        assert forall|i: int| 0 <= i < gone implies (#[trigger] entries[i]).seq <= saved && (
        deltas::total_bytes(entries.skip(i)) > 0x4000_0000 || now - entries[i].at
            >= 21_600_000_000_000) by {
            if i == 0 {
                assert(entries.skip(0) =~= entries);
            } else {
                assert(rest[i - 1] == entries[i]);
                assert(rest.skip(i - 1) =~= entries.skip(i));
            }
        }
    }
}

/// New stages begin as copies of the last one, weight by weight, and learn afresh; the others
/// keep their weights and accumulators.
pub proof fn new_stages_copy_the_last(w: Seq<u32>, tc: Seq<(u32, u32)>, z: int, n: int, i: int)
    requires
        0 < z <= w.len() <= n,
        w.len() as int % z == 0,
        tc.len() == 0 || tc.len() == w.len(),
        0 <= i < n,
    ensures
        ntuple::expanded(w, z, n).len() == n,
        i < w.len() ==> ntuple::expanded(w, z, n)[i] == w[i],
        i >= w.len() ==> ntuple::expanded(w, z, n)[i] == ntuple::expanded(w, z, n)[i - z],
        tc.len() == 0 ==> ntuple::grown(tc, n).len() == 0,
        tc.len() > 0 ==> ntuple::grown(tc, n).len() == n && ntuple::grown(tc, n)[i] == if i
            < tc.len() {
            tc[i]
        } else {
            (0u32, 0u32)
        },
{
    if i >= w.len() {
        let k = w.len() as int;
        vstd::arithmetic::div_mod::lemma_mod_sub_multiples_vanish(i, z);
        if i - z < k {
            let d = i - k;
            assert(0 <= d < z);
            vstd::arithmetic::div_mod::lemma_fundamental_div_mod(k, z);
            vstd::arithmetic::div_mod::lemma_mod_multiples_vanish(k / z, d, z);
            vstd::arithmetic::div_mod::lemma_small_mod(d as nat, z as nat);
            assert(i == z * (k / z) + d);
            assert(i % z == d);
        }
    }
}

}
