//! Weight changes on the wire: entry count, then per entry the gap from the previous index
//! as a varint and the change as bf16, the top half of an `f32`. Floats are bit patterns.

use crate::le;
use crate::le::{get_u16, get_u32, push_u16, push_u32};
use vstd::prelude::*;

verus! {

/// The top half of a bit pattern, rounded to the nearest with ties to even.
pub open spec fn rounded_half(b: u32) -> int {
    let (q, r) = (b as int / 0x1_0000, b as int % 0x1_0000);
    if r > 0x8000 || (r == 0x8000 && q % 2 == 1) {
        q + 1
    } else {
        q
    }
}

/// The rounded half still fits: only some NaNs have none.
pub open spec fn rounds(b: u32) -> bool {
    rounded_half(b) <= 0xFFFF
}

/// What the wire carries of a bit pattern.
pub open spec fn carried(b: u32) -> u32 {
    (0x1_0000 * rounded_half(b)) as u32
}

pub fn to_bf16(b: u32) -> (h: u16)
    requires
        rounds(b),
    ensures
        h == rounded_half(b),
{
    assert((b >> 16) == b / 0x1_0000) by (bit_vector);
    let q: u32 = b >> 16;
    assert((q & 1) == q % 2) by (bit_vector);
    let odd: u32 = q & 1;
    ((b + 0x7FFF + odd) / 0x1_0000) as u16
}

pub fn from_bf16(h: u16) -> (b: u32)
    ensures
        b == 0x1_0000 * h,
{
    (h as u32) * 0x1_0000
}

/// Whether a bit pattern has a bf16.
pub fn can_round(b: u32) -> (yes: bool)
    ensures
        yes == rounds(b),
{
    b < 0xFFFF_8000
}

/// A bit pattern as the wire carries it.
pub fn carry(b: u32) -> (c: u32)
    requires
        rounds(b),
    ensures
        c == carried(b),
{
    from_bf16(to_bf16(b))
}

/// What was carried once is carried unchanged.
pub proof fn carrying_twice_is_carrying_once(b: u32)
    requires
        rounds(b),
    ensures
        rounds(carried(b)),
        carried(carried(b)) == carried(b),
{
}

/// A pattern without a low half is carried unchanged.
pub proof fn short_values_are_carried_exactly(b: u32)
    requires
        b % 0x1_0000 == 0,
    ensures
        rounds(b),
        carried(b) == b,
{
}

/// A number in groups of seven bits, lowest first, all but the last marked with the top bit.
pub open spec fn gap_bytes(g: nat) -> Seq<u8>
    decreases g,
{
    if g < 128 {
        seq![g as u8]
    } else {
        seq![(g % 128 + 128) as u8] + gap_bytes(g / 128)
    }
}

/// The number that starts at `pos`, and its length; `j` groups of it came before. A number has
/// at most five groups: the fifth ends it, marked or not.
pub open spec fn groups_at(bytes: Seq<u8>, pos: int, j: nat) -> Option<(nat, nat)>
    decreases 5 - j,
{
    if pos < 0 || pos >= bytes.len() {
        None
    } else if bytes[pos] < 128 || j >= 4 {
        Some(((bytes[pos] % 128) as nat, 1nat))
    } else {
        match groups_at(bytes, pos + 1, j + 1) {
            None => None,
            Some((v, n)) => Some(((bytes[pos] % 128) as nat + 128 * v, n + 1)),
        }
    }
}

/// The gap that starts at `pos`, cut to 32 bits, and its length.
pub open spec fn gap_at(bytes: Seq<u8>, pos: int) -> Option<(nat, nat)> {
    match groups_at(bytes, pos, 0) {
        None => None,
        Some((v, n)) => Some((v % 0x1_0000_0000, n)),
    }
}

/// One entry after index `prev`.
pub open spec fn entry_bytes(prev: u32, e: (u32, u32)) -> Seq<u8> {
    gap_bytes((e.0 - prev) as nat) + le::le16(rounded_half(e.1) as u16)
}

/// Entries after index `prev`.
pub open spec fn body_bytes(prev: u32, delta: Seq<(u32, u32)>) -> Seq<u8>
    decreases delta.len(),
{
    if delta.len() == 0 {
        seq![]
    } else {
        entry_bytes(prev, delta[0]) + body_bytes(delta[0].0, delta.skip(1))
    }
}

/// A delta on the wire.
pub open spec fn encoded(delta: Seq<(u32, u32)>) -> Seq<u8> {
    le::le32(delta.len() as u32) + body_bytes(0, delta)
}

/// Indices never fall.
pub open spec fn in_order(delta: Seq<(u32, u32)>) -> bool {
    forall|i: int, j: int| 0 <= i <= j < delta.len() ==> delta[i].0 <= delta[j].0
}

/// Every change has a bf16.
pub open spec fn all_round(delta: Seq<(u32, u32)>) -> bool {
    forall|i: int| 0 <= i < delta.len() ==> rounds(#[trigger] delta[i].1)
}

/// A delta as the other end gets it.
pub open spec fn received(delta: Seq<(u32, u32)>) -> Seq<(u32, u32)> {
    delta.map_values(|e: (u32, u32)| (e.0, carried(e.1)))
}

fn push_gap(out: &mut Vec<u8>, gap: u32)
    ensures
        final(out)@ == old(out)@ + gap_bytes(gap as nat),
{
    let mut g: u32 = gap;
    while g >= 128
        invariant
            out@ + gap_bytes(g as nat) == old(out)@ + gap_bytes(gap as nat),
        decreases g,
    {
        let ghost before = out@;
        out.push((g % 128 + 128) as u8);
        proof {
            assert(out@ + gap_bytes((g / 128) as nat) =~= before + gap_bytes(g as nat));
        }
        g = g / 128;
    }
    let ghost before = out@;
    out.push(g as u8);
    assert(out@ =~= before + gap_bytes(g as nat));
}

/// A delta as bytes.
pub fn encode(delta: &[(u32, u32)]) -> (out: Vec<u8>)
    requires
        in_order(delta@),
        all_round(delta@),
    ensures
        out@ == encoded(delta@),
{
    let mut out: Vec<u8> = Vec::new();
    push_u32(&mut out, delta.len() as u32);
    let mut prev: u32 = 0;
    let mut k: usize = 0;
    assert(delta@.skip(0) =~= delta@);
    assert(out@ + body_bytes(0, delta@) =~= encoded(delta@));
    while k < delta.len()
        invariant
            k <= delta@.len(),
            in_order(delta@),
            all_round(delta@),
            prev == if k == 0 {
                0
            } else {
                delta@[k - 1].0
            },
            out@ + body_bytes(prev, delta@.skip(k as int)) == encoded(delta@),
        decreases delta@.len() - k,
    {
        let (i, d): (u32, u32) = delta[k];
        let ghost before = out@;
        let ghost rest = delta@.skip(k as int);
        assert(rest[0] == delta@[k as int]);
        assert(rounds(delta@[k as int].1));
        push_gap(&mut out, i - prev);
        push_u16(&mut out, to_bf16(d));
        proof {
            assert(rest.skip(1) =~= delta@.skip(k + 1));
            assert(out@ + body_bytes(i, delta@.skip(k + 1)) =~= before + body_bytes(prev, rest));
        }
        prev = i;
        k += 1;
    }
    assert(out@ =~= encoded(delta@));
    out
}

/// `n` entries from `pos` on, the first counted from index `idx`.
pub open spec fn entries_at(bytes: Seq<u8>, pos: int, n: nat, idx: int) -> Option<Seq<(u32, u32)>>
    decreases n,
{
    if n == 0 {
        Some(seq![])
    } else {
        match gap_at(bytes, pos) {
            None => None,
            Some((g, len)) => {
                let (i, p) = (idx + g, pos + len);
                if p + 2 > bytes.len() {
                    None
                } else {
                    match entries_at(bytes, p + 2, (n - 1) as nat, i) {
                        None => None,
                        Some(rest) => Some(
                            seq![(i as u32, (0x1_0000 * le::read16(bytes, p)) as u32)] + rest,
                        ),
                    }
                }
            },
        }
    }
}

/// No index among those read leaves 32 bits.
pub open spec fn indices_fit_from(bytes: Seq<u8>, pos: int, n: nat, idx: int) -> bool
    decreases n,
{
    n == 0 || match gap_at(bytes, pos) {
        None => true,
        Some((g, len)) => {
            &&& idx + g <= u32::MAX
            &&& pos + len + 2 > bytes.len() || indices_fit_from(
                bytes,
                pos + len + 2,
                (n - 1) as nat,
                idx + g,
            )
        },
    }
}

/// The delta in `bytes`, if they hold one. What follows it is ignored.
pub open spec fn decoded(bytes: Seq<u8>) -> Option<Seq<(u32, u32)>> {
    if bytes.len() < 4 {
        None
    } else {
        entries_at(bytes, 4, le::read32(bytes, 0) as nat, 0)
    }
}

/// Reading `bytes` leads to no index past 32 bits.
pub open spec fn indices_fit(bytes: Seq<u8>) -> bool {
    bytes.len() >= 4 ==> indices_fit_from(bytes, 4, le::read32(bytes, 0) as nat, 0)
}

/// What bytes from another machine turn out to be.
#[derive(Debug, PartialEq, Eq)]
pub enum Parsed {
    Delta(Vec<(u32, u32)>),
    /// The bytes end too early.
    Malformed,
    /// An index leaves 32 bits.
    IndexTooLarge,
}

/// The gap at `pos` and where it ends.
fn read_gap(bytes: &[u8], pos: usize) -> (res: Option<(u32, usize)>)
    requires
        pos <= bytes@.len(),
    ensures
        match gap_at(bytes@, pos as int) {
            None => res is None,
            Some((g, n)) => res == Some((g as u32, (pos + n) as usize)) && pos + n <= bytes@.len(),
        },
{
    let total: usize = bytes.len();
    let mut acc: u64 = 0;
    let mut place: u64 = 1;
    let mut j: usize = 0;
    loop
        invariant
            j <= 4,
            total == bytes@.len(),
            pos + j <= total,
            place == (if j == 0 {
                1
            } else if j == 1 {
                0x80
            } else if j == 2 {
                0x4000
            } else if j == 3 {
                0x20_0000
            } else {
                0x1000_0000int
            }),
            acc < place,
            groups_at(bytes@, pos as int, 0) == (match groups_at(bytes@, pos + j, j as nat) {
                None => None::<(nat, nat)>,
                Some((v, n)) => Some(((acc + place * v) as nat, (j + n) as nat)),
            }),
        decreases 5 - j,
    {
        if pos + j >= total {
            return None;
        }
        let byte: u8 = bytes[pos + j];
        let low: u64 = (byte % 128) as u64;
        assert(place * low <= place * 127) by (nonlinear_arith)
            requires
                low <= 127,
        ;
        let sum: u64 = acc + place * low;
        if byte < 128 || j == 4 {
            assert((sum as u32) as int == sum as int % 0x1_0000_0000) by {
                assert((sum as u32) == sum % 0x1_0000_0000) by (bit_vector);
            }
            return Some((sum as u32, pos + j + 1));
        }
        proof {
            match groups_at(bytes@, pos + j + 1, (j + 1) as nat) {
                None => {},
                Some((v, n)) => {
                    assert(acc + place * (low + 128 * v) == sum + (place * 128) * v)
                        by (nonlinear_arith)
                        requires
                            sum == acc + place * low,
                    ;
                },
            }
        }
        acc = sum;
        place = place * 128;
        j += 1;
    }
}

/// Reads a delta.
pub fn parse(bytes: &[u8]) -> (res: Parsed)
    ensures
        match res {
            Parsed::Delta(v) => indices_fit(bytes@) && decoded(bytes@) == Some(v@) && in_order(v@)
                && all_round(v@),
            Parsed::Malformed => indices_fit(bytes@) && decoded(bytes@) is None,
            Parsed::IndexTooLarge => !indices_fit(bytes@),
        },
{
    let total: usize = bytes.len();
    if total < 4 {
        return Parsed::Malformed;
    }
    let n: u32 = get_u32(bytes, 0);
    let mut out: Vec<(u32, u32)> = Vec::new();
    let mut pos: usize = 4;
    let mut idx: u32 = 0;
    let mut k: u32 = 0;
    proof {
        match entries_at(bytes@, 4, n as nat, 0) {
            None => {},
            Some(rest) => {
                assert(out@ + rest =~= rest);
            },
        }
    }
    while k < n
        invariant
            k <= n,
            n == le::read32(bytes@, 0),
            total == bytes@.len(),
            4 <= pos <= total,
            in_order(out@),
            all_round(out@),
            forall|i: int| 0 <= i < out@.len() ==> (#[trigger] out@[i]).0 <= idx,
            indices_fit(bytes@) == indices_fit_from(bytes@, pos as int, (n - k) as nat, idx as int),
            decoded(bytes@) == (match entries_at(bytes@, pos as int, (n - k) as nat, idx as int) {
                None => None::<Seq<(u32, u32)>>,
                Some(rest) => Some(out@ + rest),
            }),
        decreases n - k,
    {
        let (gap, after): (u32, usize) = match read_gap(bytes, pos) {
            None => {
                return Parsed::Malformed;
            },
            Some(x) => x,
        };
        if idx > u32::MAX - gap {
            return Parsed::IndexTooLarge;
        }
        if total - after < 2 {
            return Parsed::Malformed;
        }
        let ghost before = out@;
        let e: (u32, u32) = (idx + gap, from_bf16(get_u16(bytes, after)));
        out.push(e);
        proof {
            short_values_are_carried_exactly(e.1);
            match entries_at(bytes@, after + 2, (n - k - 1) as nat, idx + gap) {
                None => {},
                Some(rest) => {
                    assert(before + (seq![e] + rest) =~= out@ + rest);
                },
            }
        }
        idx = e.0;
        pos = after + 2;
        k += 1;
    }
    assert(out@ + Seq::<(u32, u32)>::empty() =~= out@);
    Parsed::Delta(out)
}

/// Reads a delta; None if the bytes end too early.
pub fn decode(bytes: &[u8]) -> (res: Option<Vec<(u32, u32)>>)
    requires
        indices_fit(bytes@),
    ensures
        match decoded(bytes@) {
            Some(d) => res matches Some(v) && v@ == d,
            None => res is None,
        },
{
    match parse(bytes) {
        Parsed::Delta(v) => Some(v),
        _ => None,
    }
}

spec fn group_limit(j: nat) -> nat {
    if j == 0 {
        0x8_0000_0000
    } else if j == 1 {
        0x1000_0000
    } else if j == 2 {
        0x20_0000
    } else if j == 3 {
        0x4000
    } else {
        0x80
    }
}

proof fn lemma_groups(bytes: Seq<u8>, pos: int, g: nat, j: nat)
    requires
        0 <= pos,
        j <= 4,
        g < group_limit(j),
        pos + gap_bytes(g).len() <= bytes.len(),
        bytes.subrange(pos, pos + gap_bytes(g).len()) == gap_bytes(g),
    ensures
        groups_at(bytes, pos, j) == Some((g, gap_bytes(g).len())),
    decreases g,
{
    let s = bytes.subrange(pos, pos + gap_bytes(g).len());
    assert(s[0] == gap_bytes(g)[0] && s[0] == bytes[pos]);
    if g >= 128 {
        let tail = gap_bytes(g / 128);
        assert(gap_bytes(g).len() == 1 + tail.len());
        assert(bytes.subrange(pos + 1, pos + 1 + tail.len()) =~= tail) by {
            assert forall|i: int| 0 <= i < tail.len() implies bytes[pos + 1 + i] == tail[i] by {
                assert(s[1 + i] == gap_bytes(g)[1 + i]);
            }
        }
        lemma_groups(bytes, pos + 1, g / 128, j + 1);
    }
}

proof fn lemma_gap_not_empty(g: nat)
    ensures
        gap_bytes(g).len() >= 1,
{
}

proof fn lemma_entries(bytes: Seq<u8>, pos: int, prev: u32, delta: Seq<(u32, u32)>)
    requires
        0 <= pos <= bytes.len(),
        bytes.skip(pos) == body_bytes(prev, delta),
        in_order(delta),
        delta.len() > 0 ==> prev <= delta[0].0,
        all_round(delta),
    ensures
        entries_at(bytes, pos, delta.len(), prev as int) == Some(received(delta)),
        indices_fit_from(bytes, pos, delta.len(), prev as int),
        end_at(bytes, pos, delta.len()) == bytes.len(),
    decreases delta.len(),
{
    if delta.len() == 0 {
        assert(bytes.skip(pos).len() == 0);
        assert(received(delta) =~= seq![]);
    } else {
        let (e, rest) = (delta[0], delta.skip(1));
        let gap = (e.0 - prev) as nat;
        let gb = gap_bytes(gap);
        let p = pos + gb.len();
        let h = rounded_half(e.1) as u16;
        let tail = bytes.skip(pos);
        lemma_gap_not_empty(gap);
        assert(tail == entry_bytes(prev, e) + body_bytes(e.0, rest));
        assert(bytes.subrange(pos, p) =~= gb) by {
            assert forall|i: int| 0 <= i < gb.len() implies bytes[pos + i] == gb[i] by {
                assert(tail[i] == bytes[pos + i]);
            }
        }
        lemma_groups(bytes, pos, gap, 0);
        assert(rounds(delta[0].1));
        assert(bytes.subrange(p, p + 2) =~= le::le16(h)) by {
            assert forall|i: int| 0 <= i < 2 implies bytes[p + i] == le::le16(h)[i] by {
                assert(tail[gb.len() + i] == bytes[p + i]);
            }
        }
        le::lemma_read16(bytes, p, h);
        assert(bytes.skip(p + 2) =~= body_bytes(e.0, rest)) by {
            let b = body_bytes(e.0, rest);
            assert forall|i: int| 0 <= i < b.len() implies bytes[p + 2 + i] == b[i] by {
                assert(tail[gb.len() + 2 + i] == bytes[p + 2 + i]);
            }
        }
        if rest.len() > 0 {
            assert(rest[0] == delta[1]);
        }
        assert forall|i: int, j: int| 0 <= i <= j < rest.len() implies rest[i].0 <= rest[j].0 by {
            assert(delta[i + 1].0 <= delta[j + 1].0);
        }
        assert forall|i: int| 0 <= i < rest.len() implies rounds(#[trigger] rest[i].1) by {
            assert(rounds(delta[i + 1].1));
        }
        lemma_entries(bytes, p + 2, e.0, rest);
        assert(received(delta) =~= seq![(e.0, carried(e.1))] + received(rest));
    }
}

/// The other end gets every change, rounded to what the wire carries.
pub proof fn encoding_then_decoding_rounds(delta: Seq<(u32, u32)>)
    requires
        in_order(delta),
        all_round(delta),
        delta.len() <= u32::MAX,
    ensures
        indices_fit(encoded(delta)),
        decoded(encoded(delta)) == Some(received(delta)),
{
    let bytes = encoded(delta);
    assert(bytes.subrange(0, 4) =~= le::le32(delta.len() as u32));
    le::lemma_read32(bytes, 0, delta.len() as u32);
    assert(bytes.skip(4) =~= body_bytes(0, delta));
    lemma_entries(bytes, 4, 0, delta);
}

/// A delta that went through the wire once goes through unchanged: both ends agree exactly.
pub proof fn received_deltas_roundtrip(delta: Seq<(u32, u32)>)
    requires
        in_order(delta),
        all_round(delta),
        delta.len() <= u32::MAX,
    ensures
        in_order(received(delta)),
        all_round(received(delta)),
        decoded(encoded(received(delta))) == Some(received(delta)),
{
    let r = received(delta);
    assert forall|i: int| 0 <= i < r.len() implies rounds(#[trigger] r[i].1) && carried(r[i].1)
        == r[i].1 by {
        assert(rounds(delta[i].1));
        carrying_twice_is_carrying_once(delta[i].1);
    }
    encoding_then_decoding_rounds(r);
    assert(received(r) =~= r);
}

/// Where `n` entries from `pos` on end.
spec fn end_at(bytes: Seq<u8>, pos: int, n: nat) -> int
    decreases n,
{
    if n == 0 {
        pos
    } else {
        match gap_at(bytes, pos) {
            None => pos,
            Some((_, len)) => end_at(bytes, pos + len + 2, (n - 1) as nat),
        }
    }
}

proof fn lemma_groups_more(a: Seq<u8>, more: Seq<u8>, pos: int, j: nat)
    requires
        groups_at(a, pos, j) is Some,
    ensures
        groups_at(a + more, pos, j) == groups_at(a, pos, j),
        0 <= pos,
        groups_at(a, pos, j) matches Some(g) && 1 <= g.1 <= a.len() - pos,
    decreases 5 - j,
{
    assert((a + more)[pos] == a[pos]);
    if a[pos] >= 128 && j < 4 {
        lemma_groups_more(a, more, pos + 1, j + 1);
    }
}

proof fn lemma_entries_more(a: Seq<u8>, more: Seq<u8>, pos: int, n: nat, idx: int)
    requires
        0 <= pos <= a.len(),
        entries_at(a, pos, n, idx) is Some,
    ensures
        entries_at(a + more, pos, n, idx) == entries_at(a, pos, n, idx),
        end_at(a + more, pos, n) == end_at(a, pos, n),
        end_at(a, pos, n) <= a.len(),
        indices_fit_from(a, pos, n, idx) == indices_fit_from(a + more, pos, n, idx),
    decreases n,
{
    if n > 0 {
        lemma_groups_more(a, more, pos, 0);
        let (g, len) = gap_at(a, pos)->0;
        let p = pos + len;
        assert((a + more)[p] == a[p] && (a + more)[p + 1] == a[p + 1]);
        lemma_entries_more(a, more, p + 2, (n - 1) as nat, idx + g);
    }
}

proof fn lemma_fits_less(a: Seq<u8>, more: Seq<u8>, pos: int, n: nat, idx: int)
    requires
        indices_fit_from(a + more, pos, n, idx),
    ensures
        indices_fit_from(a, pos, n, idx),
    decreases n,
{
    if n > 0 && gap_at(a, pos) is Some {
        lemma_groups_more(a, more, pos, 0);
        let (g, len) = gap_at(a, pos)->0;
        if pos + len + 2 <= a.len() {
            lemma_fits_less(a, more, pos + len + 2, (n - 1) as nat, idx + g);
        }
    }
}

proof fn lemma_count_of(delta: Seq<(u32, u32)>)
    requires
        in_order(delta),
        all_round(delta),
        delta.len() <= u32::MAX,
    ensures
        encoded(delta).len() >= 4,
        le::read32(encoded(delta), 0) == delta.len(),
        end_at(encoded(delta), 4, delta.len()) == encoded(delta).len(),
{
    let bytes = encoded(delta);
    assert(bytes.subrange(0, 4) =~= le::le32(delta.len() as u32));
    le::lemma_read32(bytes, 0, delta.len() as u32);
    assert(bytes.skip(4) =~= body_bytes(0, delta));
    lemma_entries(bytes, 4, 0, delta);
}

/// A delta whose last bytes are missing is refused, however many they are.
pub proof fn cut_deltas_are_refused(delta: Seq<(u32, u32)>, k: int)
    requires
        in_order(delta),
        all_round(delta),
        delta.len() <= u32::MAX,
        0 <= k < encoded(delta).len(),
    ensures
        indices_fit(encoded(delta).take(k)),
        decoded(encoded(delta).take(k)) is None,
{
    let bytes = encoded(delta);
    let (a, more) = (bytes.take(k), bytes.skip(k));
    assert(a + more =~= bytes);
    encoding_then_decoding_rounds(delta);
    lemma_count_of(delta);
    if k >= 4 {
        assert(a[0] == bytes[0] && a[1] == bytes[1] && a[2] == bytes[2] && a[3] == bytes[3]);
        lemma_fits_less(a, more, 4, delta.len(), 0);
        if decoded(a) is Some {
            lemma_entries_more(a, more, 4, delta.len(), 0);
        }
    }
}

/// What follows a delta is ignored.
pub proof fn bytes_after_a_delta_are_ignored(delta: Seq<(u32, u32)>, more: Seq<u8>)
    requires
        in_order(delta),
        all_round(delta),
        delta.len() <= u32::MAX,
    ensures
        indices_fit(encoded(delta) + more),
        decoded(encoded(delta) + more) == Some(received(delta)),
{
    let a = encoded(delta);
    let all = a + more;
    encoding_then_decoding_rounds(delta);
    lemma_count_of(delta);
    assert(all[0] == a[0] && all[1] == a[1] && all[2] == a[2] && all[3] == a[3]);
    lemma_entries_more(a, more, 4, delta.len(), 0);
}

proof fn lemma_gap_len(g: nat, j: nat)
    requires
        j <= 4,
        g < group_limit(j),
    ensures
        1 <= gap_bytes(g).len() <= 5 - j,
    decreases g,
{
    if g >= 128 {
        lemma_gap_len(g / 128, j + 1);
    }
}

/// An entry takes at most seven bytes.
pub proof fn lemma_body_len(prev: u32, delta: Seq<(u32, u32)>)
    requires
        in_order(delta),
        delta.len() > 0 ==> prev <= delta[0].0,
    ensures
        body_bytes(prev, delta).len() <= 7 * delta.len(),
    decreases delta.len(),
{
    if delta.len() > 0 {
        let rest = delta.skip(1);
        lemma_gap_len((delta[0].0 - prev) as nat, 0);
        if rest.len() > 0 {
            assert(rest[0] == delta[1]);
        }
        assert forall|i: int, j: int| 0 <= i <= j < rest.len() implies rest[i].0 <= rest[j].0 by {
            assert(delta[i + 1].0 <= delta[j + 1].0);
        }
        lemma_body_len(delta[0].0, rest);
    }
}

/// A delta on the wire takes at most seven bytes per entry, and four.
pub proof fn deltas_stay_small(delta: Seq<(u32, u32)>)
    requires
        in_order(delta),
    ensures
        encoded(delta).len() <= 4 + 7 * delta.len(),
{
    lemma_body_len(0, delta);
}

}
