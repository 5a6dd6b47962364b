//! One row of four cells packed into a `u16`: a 4-bit rank per cell, cell 0 lowest
//! (0 = empty, `k` = the tile 2^k).

use vstd::arithmetic::power2::*;
use vstd::bits::lemma_u32_shl_is_mul;
use vstd::prelude::*;

verus! {

/// The rank a packed row holds in cell `i`.
pub open spec fn row_rank(row: u16, i: int) -> u8 {
    ((row >> ((4 * i) as u16)) & 0xF) as u8
}

/// The four ranks of a packed row.
pub open spec fn row_ranks(row: u16) -> Seq<u8> {
    Seq::new(4, |i: int| row_rank(row, i))
}

/// The tiles of a line, in order, without the empty cells between them.
pub open spec fn tiles(line: Seq<u8>) -> Seq<u8> {
    line.filter(|r: u8| r != 0)
}

/// The rank that two tiles of rank `r` merge into. 65536 has no rank of its own, so two
/// 32768s leave a 32768.
pub open spec fn merge_rank(r: u8) -> u8 {
    if r >= 15 {
        15
    } else {
        (r + 1) as u8
    }
}

/// Merging adjacent equal tiles from the front, each tile at most once.
pub open spec fn merged(ts: Seq<u8>) -> Seq<u8>
    decreases ts.len(),
{
    if ts.len() >= 2 && ts[0] == ts[1] {
        seq![merge_rank(ts[0])] + merged(ts.skip(2))
    } else if ts.len() >= 1 {
        seq![ts[0]] + merged(ts.skip(1))
    } else {
        seq![]
    }
}

/// The points for those merges: each is worth the tile it makes.
pub open spec fn merge_points(ts: Seq<u8>) -> nat
    decreases ts.len(),
{
    if ts.len() >= 2 && ts[0] == ts[1] {
        pow2((ts[0] + 1) as nat) + merge_points(ts.skip(2))
    } else if ts.len() >= 1 {
        merge_points(ts.skip(1))
    } else {
        0
    }
}

/// A line of four cells after a slide towards its cell 0.
pub open spec fn slid(line: Seq<u8>) -> Seq<u8> {
    let m = merged(tiles(line));
    Seq::new(4, |i: int| if i < m.len() { m[i] } else { 0 })
}

/// The points that slide gains.
pub open spec fn slide_points(line: Seq<u8>) -> nat {
    merge_points(tiles(line))
}

pub proof fn lemma_row_or(acc: u16, v: u16, k: u16, j: u16)
    by (bit_vector)
    requires
        v < 16,
        k < 4,
        j < 4,
        (acc >> (4 * k)) & 0xF == 0,
    ensures
        ((acc | (v << (4 * k))) >> (4 * j)) & 0xF == if j == k {
            v
        } else {
            (acc >> (4 * j)) & 0xF
        },
{
}

/// A packed row's ranks stay below 16.
pub proof fn lemma_row_rank_small(row: u16, i: int)
    requires
        0 <= i < 4,
    ensures
        row_rank(row, i) < 16,
        row_rank(row, i) == (row >> ((4 * i) as u16)) & 0xF,
        row_ranks(row).len() == 4,
        row_ranks(row)[i] == row_rank(row, i),
{
    let k = (4 * i) as u16;
    assert((row >> k) & 0xF < 16) by (bit_vector);
}

pub proof fn lemma_tiles_step(line: Seq<u8>, i: int)
    requires
        0 <= i < line.len(),
    ensures
        tiles(line.take(i + 1)) == if line[i] != 0 {
            tiles(line.take(i)).push(line[i])
        } else {
            tiles(line.take(i))
        },
{
    assert(line.take(i + 1).drop_last() =~= line.take(i));
    reveal(Seq::filter);
}

/// Merging never lengthens a line, and its points stay below 2^17 per pair of tiles.
pub proof fn lemma_merged_bounds(ts: Seq<u8>)
    requires
        forall|i: int| 0 <= i < ts.len() ==> #[trigger] ts[i] < 16,
    ensures
        merged(ts).len() <= ts.len(),
        merge_points(ts) <= 65536 * (ts.len() / 2),
        forall|i: int| 0 <= i < merged(ts).len() ==> #[trigger] merged(ts)[i] < 16,
    decreases ts.len(),
{
    if ts.len() >= 2 && ts[0] == ts[1] {
        lemma_merged_bounds(ts.skip(2));
        lemma_points_of_rank(ts[0]);
    } else if ts.len() >= 1 {
        lemma_merged_bounds(ts.skip(1));
    }
}

pub proof fn lemma_points_of_rank(r: u8)
    requires
        r < 16,
    ensures
        pow2((r + 1) as nat) <= 65536,
        (1u32 << ((r + 1) as u32)) == pow2((r + 1) as nat),
{
    lemma2_to64();
    if r < 15 {
        lemma_pow2_strictly_increases((r + 1) as nat, 16);
    }
    lemma_u32_shl_is_mul(1, (r + 1) as u32);
}

/// Slides one row towards cell 0, merging each tile at most once, and counts the points.
pub fn slide_row(row: u16) -> (res: (u16, u32))
    ensures
        row_ranks(res.0) == slid(row_ranks(row)),
        res.1 == slide_points(row_ranks(row)),
{
    let ghost ranks = row_ranks(row);
    let mut line: [u8; 4] = [0u8; 4];
    let mut n: usize = 0;
    let mut i: usize = 0;
    assert(tiles(ranks.take(0)) =~= line@.take(0)) by {
        reveal(Seq::filter);
    }
    while i < 4
        invariant
            i <= 4,
            n <= i,
            ranks == row_ranks(row),
            line@.take(n as int) == tiles(ranks.take(i as int)),
            forall|k: int| 0 <= k < n ==> 1 <= #[trigger] line@[k] < 16,
        decreases 4 - i,
    {
        let v: u8 = ((row >> (4 * i as u16)) & 0xF) as u8;
        proof {
            lemma_row_rank_small(row, i as int);
            lemma_tiles_step(ranks, i as int);
        }
        if v != 0 {
            let ghost before = line@;
            line[n] = v;
            assert(line@.take(n + 1) =~= before.take(n as int).push(v));
            n += 1;
        }
        i += 1;
    }
    let ghost ts = line@.take(n as int);
    assert(ranks.take(4) =~= ranks);
    let mut out: [u8; 4] = [0u8; 4];
    let mut score: u32 = 0;
    let mut o: usize = 0;
    i = 0;
    assert(ts.skip(0) =~= ts);
    assert(out@.take(0) + merged(ts) =~= merged(ts));
    proof {
        lemma_merged_bounds(ts);
    }
    while i < n
        invariant
            i <= n <= 4,
            o <= i,
            ts == line@.take(n as int),
            forall|k: int| 0 <= k < n ==> 1 <= #[trigger] line@[k] < 16,
            forall|k: int| 0 <= k < 4 ==> #[trigger] out@[k] < 16,
            forall|k: int| o <= k < 4 ==> #[trigger] out@[k] == 0,
            merge_points(ts) <= 131072,
            out@.take(o as int) + merged(ts.skip(i as int)) == merged(ts),
            score + merge_points(ts.skip(i as int)) == merge_points(ts),
        decreases n - i,
    {
        let ghost before = out@;
        let ghost rest = ts.skip(i as int);
        proof {
            lemma_points_of_rank(line@[i as int]);
        }
        if i + 1 < n && line[i] == line[i + 1] {
            let r: u8 = line[i];
            out[o] = if r + 1 < 15 { r + 1 } else { 15 };
            proof {
                assert(rest[0] == r && rest[1] == r);
                assert(rest.skip(2) =~= ts.skip(i + 2));
                assert(out@.take(o + 1) =~= before.take(o as int) + seq![merge_rank(r)]);
                assert(out@.take(o + 1) + merged(ts.skip(i + 2)) =~= before.take(o as int)
                    + merged(rest));
            }
            score += 1u32 << ((r + 1) as u32);
            i += 2;
        } else {
            out[o] = line[i];
            proof {
                assert(rest[0] == line@[i as int]);
                assert(rest.len() >= 2 ==> rest[1] == line@[i + 1]);
                assert(rest.skip(1) =~= ts.skip(i + 1));
                assert(out@.take(o + 1) =~= before.take(o as int) + seq![rest[0]]);
                assert(out@.take(o + 1) + merged(ts.skip(i + 1)) =~= before.take(o as int)
                    + merged(rest));
            }
            i += 1;
        }
        o += 1;
    }
    assert(ts.skip(n as int) =~= Seq::<u8>::empty());
    assert(out@.take(o as int) =~= merged(ts));
    let r: u16 = pack_row(out);
    assert(row_ranks(r) =~= slid(ranks)) by {
        assert forall|k: int| 0 <= k < 4 implies row_ranks(r)[k] == slid(ranks)[k] by {
            assert(row_ranks(r)[k] == out@[k]);
            if k < o {
                assert(out@.take(o as int)[k] == out@[k]);
            }
        }
    }
    (r, score)
}

/// Packs four ranks into a row.
pub fn pack_row(cells: [u8; 4]) -> (row: u16)
    requires
        forall|k: int| 0 <= k < 4 ==> #[trigger] cells@[k] < 16,
    ensures
        row_ranks(row) == cells@,
{
    let mut acc: u16 = 0;
    let mut k: usize = 0;
    assert forall|j: int| 0 <= j < 4 implies row_rank(0, j) == 0 by {
        let s = (4 * j) as u16;
        assert((0u16 >> s) & 0xF == 0) by (bit_vector);
    }
    while k < 4
        invariant
            k <= 4,
            forall|j: int| 0 <= j < 4 ==> #[trigger] cells@[j] < 16,
            forall|j: int| 0 <= j < k ==> #[trigger] row_rank(acc, j) == cells@[j],
            forall|j: int| k <= j < 4 ==> #[trigger] row_rank(acc, j) == 0,
        decreases 4 - k,
    {
        let v: u16 = cells[k] as u16;
        let ghost before = acc;
        acc = acc | (v << (4 * k as u16));
        proof {
            assert(row_rank(before, k as int) == 0);
            assert forall|j: int| 0 <= j < 4 implies #[trigger] row_rank(acc, j) == if j == k {
                cells@[j]
            } else {
                row_rank(before, j)
            } by {
                lemma_row_rank_small(before, k as int);
                lemma_row_rank_small(before, j);
                lemma_row_or(before, v, k as u16, j as u16);
            }
        }
        k += 1;
    }
    assert(row_ranks(acc) =~= cells@);
    acc
}

/// The same row read from its other end.
pub fn reverse_row(r: u16) -> (rev: u16)
    ensures
        row_ranks(rev) == row_ranks(r).reverse(),
{
    let rev: u16 = (r >> 12) | ((r >> 4) & 0x00F0) | ((r << 4) & 0x0F00) | (r << 12);
    proof {
        assert(rev & 0xF == (r >> 12) & 0xF && (rev >> 4) & 0xF == (r >> 8) & 0xF && (rev >> 8)
            & 0xF == (r >> 4) & 0xF && (rev >> 12) & 0xF == r & 0xF && r >> 0 == r && rev >> 0
            == rev) by (bit_vector)
            requires
                rev == (r >> 12) | ((r >> 4) & 0x00F0) | ((r << 4) & 0x0F00) | (r << 12),
        ;
        assert(row_ranks(rev) =~= row_ranks(r).reverse()) by {
            assert(row_rank(rev, 0) == row_rank(r, 3));
            assert(row_rank(rev, 1) == row_rank(r, 2));
            assert(row_rank(rev, 2) == row_rank(r, 1));
            assert(row_rank(rev, 3) == row_rank(r, 0));
        }
    }
    rev
}

/// A line of four cells gains at most two merges' worth of points, and its ranks stay
/// below 16.
pub proof fn lemma_slid_bound(line: Seq<u8>)
    requires
        line.len() == 4,
        forall|i: int| 0 <= i < 4 ==> #[trigger] line[i] < 16,
    ensures
        slide_points(line) <= 131072,
        forall|i: int| 0 <= i < 4 ==> #[trigger] slid(line)[i] < 16,
{
    let ts = tiles(line);
    line.lemma_filter_len(|r: u8| r != 0);
    assert forall|i: int| 0 <= i < ts.len() implies #[trigger] ts[i] < 16 by {
        line.lemma_filter_contains_rev(|r: u8| r != 0, ts[i]);
    }
    lemma_merged_bounds(ts);
}

}
