//! 4x4 board packed into a `u64`: one 4-bit rank per cell (0 = empty, `k` = the tile 2^k).
//! Cell (row `r`, column `c`) lives at nibble `4 * r + c`.

use crate::rng;
use crate::rng::Rng;
use crate::row;
use crate::row::{reverse_row, slide_row};
use crate::text;
use vstd::arithmetic::power2::pow2;
use vstd::prelude::*;

verus! {

pub type Board = u64;

#[derive(Clone, Copy, Debug, PartialEq, Eq, Structural)]
pub enum Dir {
    Up,
    Down,
    Left,
    Right,
}

/// The order in which moves are tried.
pub const DIRS: [Dir; 4] = [Dir::Up, Dir::Down, Dir::Left, Dir::Right];

/// The rank in cell `i`.
pub open spec fn cell(b: Board, i: int) -> u8 {
    ((b >> ((4 * i) as u64)) & 0xF) as u8
}

/// The ranks of all sixteen cells.
pub open spec fn cells(b: Board) -> Seq<u8> {
    Seq::new(16, |i: int| cell(b, i))
}

/// The cell at place `i` of line `k` when tiles move in direction `d`: place 0 is at the
/// wall the tiles move to.
pub open spec fn line_cell(d: Dir, k: int, i: int) -> int {
    match d {
        Dir::Left => 4 * k + i,
        Dir::Right => 4 * k + 3 - i,
        Dir::Up => 4 * i + k,
        Dir::Down => 4 * (3 - i) + k,
    }
}

/// Line `k` of the board, read from the wall that direction `d` points to.
pub open spec fn line(b: Board, d: Dir, k: int) -> Seq<u8> {
    Seq::new(4, |i: int| cell(b, line_cell(d, k, i)))
}

/// `nb` is `b` with each of its four lines slid in direction `d`.
pub open spec fn is_moved(b: Board, d: Dir, nb: Board) -> bool {
    forall|k: int| 0 <= k < 4 ==> #[trigger] line(nb, d, k) == row::slid(line(b, d, k))
}

/// The board after a move in direction `d`.
pub open spec fn moved(b: Board, d: Dir) -> Board {
    choose|nb: Board| is_moved(b, d, nb)
}

/// The points gained by a move in direction `d`.
pub open spec fn move_points(b: Board, d: Dir) -> nat {
    row::slide_points(line(b, d, 0)) + row::slide_points(line(b, d, 1)) + row::slide_points(line(b, d, 2))
        + row::slide_points(line(b, d, 3))
}

pub proof fn lemma_cell_small(b: Board, i: int)
    requires
        0 <= i < 16,
    ensures
        cell(b, i) < 16,
        cell(b, i) == (b >> ((4 * i) as u64)) & 0xF,
{
    let k = (4 * i) as u64;
    assert((b >> k) & 0xF < 16) by (bit_vector);
}

pub proof fn lemma_cell_or(b: Board, r: u64, i: u64, j: u64)
    by (bit_vector)
    requires
        r < 16,
        i < 16,
        j < 16,
        (b >> (4 * i)) & 0xF == 0,
    ensures
        ((b | (r << (4 * i))) >> (4 * j)) & 0xF == if j == i {
            r
        } else {
            (b >> (4 * j)) & 0xF
        },
{
}

proof fn lemma_bits_from_cells(a: Board, b: Board)
    by (bit_vector)
    requires
        (a >> 0) & 0xF == (b >> 0) & 0xF,
        (a >> 4) & 0xF == (b >> 4) & 0xF,
        (a >> 8) & 0xF == (b >> 8) & 0xF,
        (a >> 12) & 0xF == (b >> 12) & 0xF,
        (a >> 16) & 0xF == (b >> 16) & 0xF,
        (a >> 20) & 0xF == (b >> 20) & 0xF,
        (a >> 24) & 0xF == (b >> 24) & 0xF,
        (a >> 28) & 0xF == (b >> 28) & 0xF,
        (a >> 32) & 0xF == (b >> 32) & 0xF,
        (a >> 36) & 0xF == (b >> 36) & 0xF,
        (a >> 40) & 0xF == (b >> 40) & 0xF,
        (a >> 44) & 0xF == (b >> 44) & 0xF,
        (a >> 48) & 0xF == (b >> 48) & 0xF,
        (a >> 52) & 0xF == (b >> 52) & 0xF,
        (a >> 56) & 0xF == (b >> 56) & 0xF,
        (a >> 60) & 0xF == (b >> 60) & 0xF,
    ensures
        a == b,
{
}

/// A board is its sixteen cells.
pub proof fn lemma_board_is_cells(a: Board, b: Board)
    requires
        forall|i: int| 0 <= i < 16 ==> cell(a, i) == #[trigger] cell(b, i),
    ensures
        a == b,
{
    assert forall|i: int| 0 <= i < 16 implies #[trigger] cell(a, i) == cell(b, i) && cell(a, i) == (a
        >> ((4 * i) as u64)) & 0xF && cell(b, i) == (b >> ((4 * i) as u64)) & 0xF by {
        assert(cell(a, i) == cell(b, i));
        lemma_cell_small(a, i);
        lemma_cell_small(b, i);
    }
    assert(cell(a, 0) == cell(b, 0));
    assert(cell(a, 1) == cell(b, 1));
    assert(cell(a, 2) == cell(b, 2));
    assert(cell(a, 3) == cell(b, 3));
    assert(cell(a, 4) == cell(b, 4));
    assert(cell(a, 5) == cell(b, 5));
    assert(cell(a, 6) == cell(b, 6));
    assert(cell(a, 7) == cell(b, 7));
    assert(cell(a, 8) == cell(b, 8));
    assert(cell(a, 9) == cell(b, 9));
    assert(cell(a, 10) == cell(b, 10));
    assert(cell(a, 11) == cell(b, 11));
    assert(cell(a, 12) == cell(b, 12));
    assert(cell(a, 13) == cell(b, 13));
    assert(cell(a, 14) == cell(b, 14));
    assert(cell(a, 15) == cell(b, 15));
    lemma_bits_from_cells(a, b);
}

/// The line and place of cell `c` in direction `d`: the inverse of `line_cell`.
pub open spec fn line_of(d: Dir, c: int) -> (int, int) {
    match d {
        Dir::Left => (c / 4, c % 4),
        Dir::Right => (c / 4, 3 - c % 4),
        Dir::Up => (c % 4, c / 4),
        Dir::Down => (c % 4, 3 - c / 4),
    }
}

/// A move has one outcome.
pub proof fn lemma_moved_unique(b: Board, d: Dir, nb: Board)
    requires
        is_moved(b, d, nb),
    ensures
        nb == moved(b, d),
{
    let other = moved(b, d);
    assert(is_moved(b, d, other));
    assert forall|c: int| 0 <= c < 16 implies cell(nb, c) == #[trigger] cell(other, c) by {
        let (k, i) = line_of(d, c);
        assert(line_cell(d, k, i) == c);
        assert(line(nb, d, k) == row::slid(line(b, d, k)));
        assert(line(other, d, k) == row::slid(line(b, d, k)));
        assert(line(nb, d, k)[i] == line(other, d, k)[i]);
    }
    lemma_board_is_cells(nb, other);
}

/// Swaps rows and columns.
pub fn transpose(x: u64) -> (t: u64)
    ensures
        is_transposed(x, t),
        forall|d: Dir, k: int|
            0 <= k < 4 ==> #[trigger] line(t, d, k) == line(x, across(d), k),
{
    let a1: u64 = x & 0xF0F0_0F0F_F0F0_0F0F;
    let a2: u64 = x & 0x0000_F0F0_0000_F0F0;
    let a3: u64 = x & 0x0F0F_0000_0F0F_0000;
    let a: u64 = a1 | (a2 << 12) | (a3 >> 12);
    let b1: u64 = a & 0xFF00_FF00_00FF_00FF;
    let b2: u64 = a & 0x00FF_00FF_0000_0000;
    let b3: u64 = a & 0x0000_0000_FF00_FF00;
    let t: u64 = b1 | (b2 >> 24) | (b3 << 24);
    proof {
        lemma_transpose_bits(x, a, t);
        assert(cell(t, 0) == cell(x, 0));
        assert(cell(t, 1) == cell(x, 4));
        assert(cell(t, 2) == cell(x, 8));
        assert(cell(t, 3) == cell(x, 12));
        assert(cell(t, 4) == cell(x, 1));
        assert(cell(t, 5) == cell(x, 5));
        assert(cell(t, 6) == cell(x, 9));
        assert(cell(t, 7) == cell(x, 13));
        assert(cell(t, 8) == cell(x, 2));
        assert(cell(t, 9) == cell(x, 6));
        assert(cell(t, 10) == cell(x, 10));
        assert(cell(t, 11) == cell(x, 14));
        assert(cell(t, 12) == cell(x, 3));
        assert(cell(t, 13) == cell(x, 7));
        assert(cell(t, 14) == cell(x, 11));
        assert(cell(t, 15) == cell(x, 15));
        assert forall|r: int, c: int| 0 <= r < 4 && 0 <= c < 4 implies #[trigger] cell(t, 4 * r + c)
            == cell(x, 4 * c + r) by {}
        assert forall|d: Dir, k: int| 0 <= k < 4 implies #[trigger] line(t, d, k) == line(
            x,
            across(d),
            k,
        ) by {
            assert(line(t, d, k) =~= line(x, across(d), k)) by {
                assert forall|i: int| 0 <= i < 4 implies line(t, d, k)[i] == line(
                    x,
                    across(d),
                    k,
                )[i] by {
                    match d {
                        Dir::Left => assert(cell(t, 4 * k + i) == cell(x, 4 * i + k)),
                        Dir::Right => assert(cell(t, 4 * k + (3 - i)) == cell(x, 4 * (3 - i) + k)),
                        Dir::Up => assert(cell(t, 4 * i + k) == cell(x, 4 * k + i)),
                        Dir::Down => assert(cell(t, 4 * (3 - i) + k) == cell(x, 4 * k + (3 - i))),
                    }
                }
            }
        }
    }
    t
}

/// `t` is `x` with rows and columns swapped.
pub open spec fn is_transposed(x: Board, t: Board) -> bool {
    forall|r: int, c: int|
        0 <= r < 4 && 0 <= c < 4 ==> #[trigger] cell(t, 4 * r + c) == cell(x, 4 * c + r)
}

/// Swapping rows and columns twice gives the board back.
pub proof fn transpose_roundtrip(x: Board, t: Board, u: Board)
    requires
        is_transposed(x, t),
        is_transposed(t, u),
    ensures
        u == x,
{
    assert forall|i: int| 0 <= i < 16 implies cell(u, i) == #[trigger] cell(x, i) by {
        let (r, c) = (i / 4, i % 4);
        assert(cell(u, 4 * r + c) == cell(t, 4 * c + r));
        assert(cell(t, 4 * c + r) == cell(x, 4 * r + c));
    }
    lemma_board_is_cells(u, x);
}

/// The direction that `d` becomes when rows and columns are swapped.
pub open spec fn across(d: Dir) -> Dir {
    match d {
        Dir::Left => Dir::Up,
        Dir::Right => Dir::Down,
        Dir::Up => Dir::Left,
        Dir::Down => Dir::Right,
    }
}

proof fn lemma_transpose_bits(x: u64, a: u64, t: u64)
    by (bit_vector)
    requires
        a == (x & 0xF0F0_0F0F_F0F0_0F0F) | ((x & 0x0000_F0F0_0000_F0F0) << 12) | ((x
            & 0x0F0F_0000_0F0F_0000) >> 12),
        t == (a & 0xFF00_FF00_00FF_00FF) | ((a & 0x00FF_00FF_0000_0000) >> 24) | ((a
            & 0x0000_0000_FF00_FF00) << 24),
    ensures
        (t >> 0) & 0xF == (x >> 0) & 0xF,
        (t >> 4) & 0xF == (x >> 16) & 0xF,
        (t >> 8) & 0xF == (x >> 32) & 0xF,
        (t >> 12) & 0xF == (x >> 48) & 0xF,
        (t >> 16) & 0xF == (x >> 4) & 0xF,
        (t >> 20) & 0xF == (x >> 20) & 0xF,
        (t >> 24) & 0xF == (x >> 36) & 0xF,
        (t >> 28) & 0xF == (x >> 52) & 0xF,
        (t >> 32) & 0xF == (x >> 8) & 0xF,
        (t >> 36) & 0xF == (x >> 24) & 0xF,
        (t >> 40) & 0xF == (x >> 40) & 0xF,
        (t >> 44) & 0xF == (x >> 56) & 0xF,
        (t >> 48) & 0xF == (x >> 12) & 0xF,
        (t >> 52) & 0xF == (x >> 28) & 0xF,
        (t >> 56) & 0xF == (x >> 44) & 0xF,
        (t >> 60) & 0xF == (x >> 60) & 0xF,
{
}

/// Every row's slide, looked up instead of computed.
pub struct Tables {
    left: Vec<u16>,
    right: Vec<u16>,
    score: Vec<u32>,
    score_rev: Vec<u32>,
}

/// The entries of `row`: its slides to the left and to the right, and their points.
pub open spec fn is_entry(row: u16, e: (u16, u16, u32, u32)) -> bool {
    let fwd = row::row_ranks(row);
    let bwd = fwd.reverse();
    &&& row::row_ranks(e.0) == row::slid(fwd)
    &&& row::row_ranks(e.1) == row::slid(bwd).reverse()
    &&& e.2 == row::slide_points(fwd)
    &&& e.3 == row::slide_points(bwd)
}

/// The four tables hold the entries of `row`.
spec fn holds_slides(
    left: Seq<u16>,
    right: Seq<u16>,
    score: Seq<u32>,
    score_rev: Seq<u32>,
    row: u16,
) -> bool {
    is_entry(row, (left[row as int], right[row as int], score[row as int], score_rev[row as int]))
}

impl Tables {
    #[verifier::type_invariant]
    spec fn wf(self) -> bool {
        &&& self.left@.len() == 65536
        &&& self.right@.len() == 65536
        &&& self.score@.len() == 65536
        &&& self.score_rev@.len() == 65536
        &&& forall|row: u16| #[trigger]
            holds_slides(self.left@, self.right@, self.score@, self.score_rev@, row)
    }

    /// What the tables hold of `row`.
    pub closed spec fn entry(self, row: u16) -> (u16, u16, u32, u32) {
        (
            self.left@[row as int],
            self.right@[row as int],
            self.score@[row as int],
            self.score_rev@[row as int],
        )
    }

    /// The tables of all rows.
    pub fn new() -> (t: Tables)
        ensures
            forall|row: u16| is_entry(row, #[trigger] t.entry(row)),
    {
        let mut left: Vec<u16> = Vec::new();
        let mut right: Vec<u16> = Vec::new();
        let mut score: Vec<u32> = Vec::new();
        let mut score_rev: Vec<u32> = Vec::new();
        let mut row: u32 = 0;
        while row < 65536
            invariant
                row <= 65536,
                left@.len() == row,
                right@.len() == row,
                score@.len() == row,
                score_rev@.len() == row,
                forall|r: u16|
                    r < row ==> #[trigger] holds_slides(left@, right@, score@, score_rev@, r),
            decreases 65536 - row,
        {
            let r: u16 = row as u16;
            let (l, s) = slide_row(r);
            let (rl, rs) = slide_row(reverse_row(r));
            let ghost (left0, right0) = (left@, right@);
            let ghost (score0, score_rev0) = (score@, score_rev@);
            left.push(l);
            score.push(s);
            right.push(reverse_row(rl));
            score_rev.push(rs);
            assert forall|q: u16| q < row + 1 implies #[trigger] holds_slides(
                left@,
                right@,
                score@,
                score_rev@,
                q,
            ) by {
                if q < row {
                    assert(holds_slides(left0, right0, score0, score_rev0, q));
                }
            }
            row += 1;
        }
        let t: Tables = Tables { left, right, score, score_rev };
        assert forall|row: u16| is_entry(row, #[trigger] t.entry(row)) by {
            assert(holds_slides(t.left@, t.right@, t.score@, t.score_rev@, row));
        }
        t
    }

    /// The new board and the points gained. The board is unchanged if the move is illegal.
    pub fn apply(&self, b: Board, d: Dir) -> (res: (Board, u32))
        ensures
            is_moved(b, d, res.0),
            res.0 == moved(b, d),
            res.1 == move_points(b, d),
    {
        slide_board(Some(self), b, d)
    }
}

/// A board's slide and its points, looked up where there are tables.
pub fn slide_board(t: Option<&Tables>, b: Board, d: Dir) -> (res: (Board, u32))
    ensures
        is_moved(b, d, res.0),
        res.0 == moved(b, d),
        res.1 == move_points(b, d),
{
    let horizontal: bool = match d {
        Dir::Left | Dir::Right => true,
        Dir::Up | Dir::Down => false,
    };
    let forward: bool = match d {
        Dir::Left | Dir::Up => true,
        Dir::Right | Dir::Down => false,
    };
    let src: u64 = if horizontal { b } else { transpose(b) };
    let ghost e = if horizontal { d } else { across(d) };
    assert(forall|k: int| 0 <= k < 4 ==> #[trigger] line(src, e, k) == line(b, d, k));
    let (out, score) = slide_rows(t, src, forward);
    let res: u64 = if horizontal { out } else { transpose(out) };
    proof {
        assert forall|k: int| 0 <= k < 4 implies #[trigger] line(res, d, k) == row::slid(
            line(b, d, k),
        ) by {
            assert(line(src, e, k) == line(b, d, k));
            assert(line(out, e, k) == row::slid(line(src, e, k)));
        }
        lemma_moved_unique(b, d, res);
        assert(line(src, e, 0) == line(b, d, 0));
        assert(line(src, e, 1) == line(b, d, 1));
        assert(line(src, e, 2) == line(b, d, 2));
        assert(line(src, e, 3) == line(b, d, 3));
    }
    (res, score)
}

/// A row's slide and its points, towards cell 0 or towards cell 3.
fn slide_one(t: Option<&Tables>, row: u16, forward: bool) -> (res: (u16, u32))
    ensures
        row_line(res.0, side(forward)) == row::slid(row_line(row, side(forward))),
        res.1 == row::slide_points(row_line(row, side(forward))),
        res.1 <= 131072,
{
    proof {
        lemma_row_points(row_line(row, side(forward)), row);
    }
    match t {
        Some(t) => {
            proof {
                use_type_invariant(t);
                assert(holds_slides(t.left@, t.right@, t.score@, t.score_rev@, row));
                let rl = row::row_ranks(t.right@[row as int]);
                assert(rl.reverse() =~= row::slid(row::row_ranks(row).reverse()));
            }
            if forward {
                (t.left[row as usize], t.score[row as usize])
            } else {
                (t.right[row as usize], t.score_rev[row as usize])
            }
        },
        None => {
            if forward {
                slide_row(row)
            } else {
                let (rl, points) = slide_row(reverse_row(row));
                assert(row::row_ranks(rl).reverse().reverse() =~= row::row_ranks(rl));
                (reverse_row(rl), points)
            }
        },
    }
}

/// Slides the four rows of `src` and adds up their points.
fn slide_rows(t: Option<&Tables>, src: u64, forward: bool) -> (res: (u64, u32))
    ensures
        is_moved(src, side(forward), res.0),
        res.1 == move_points(src, side(forward)),
{
    let ghost e = side(forward);
    let mut out: u64 = 0;
    let mut score: u32 = 0;
    let mut r: u64 = 0;
    assert forall|k: int| 0 <= k < 4 implies #[trigger] row_of(0, k) == 0 by {
        let s = (16 * k) as u64;
        assert((0u64 >> s) & 0xFFFF == 0) by (bit_vector);
    }
    while r < 4
        invariant
            r <= 4,
            e == side(forward),
            score <= 131072 * r,
            score == points_above(src, e, r as int),
            forall|k: int| 0 <= k < r ==> #[trigger] row_line(row_of(out, k), e) == row::slid(
                line(src, e, k),
            ),
            forall|k: int| r <= k < 4 ==> #[trigger] row_of(out, k) == 0,
        decreases 4 - r,
    {
        let row: u16 = ((src >> (16 * r)) & 0xFFFF) as u16;
        let ghost before = out;
        proof {
            lemma_row_line(src, r as int, e);
        }
        let (moved_row, gain) = slide_one(t, row, forward);
        out = out | ((moved_row as u64) << (16 * r));
        score += gain;
        proof {
            lemma_row_of(before, r as int);
            assert(row_of(before, r as int) == 0);
            assert forall|k: int| 0 <= k < 4 implies #[trigger] row_of(out, k) == if k == r {
                moved_row
            } else {
                row_of(before, k)
            } by {
                lemma_row_of(out, k);
                lemma_row_of(before, k);
                lemma_row_or(before, moved_row as u64, r, k as u64);
            }
            assert forall|k: int| 0 <= k < r + 1 implies #[trigger] row_line(row_of(out, k), e)
                == row::slid(line(src, e, k)) by {
                assert(row_of(out, k) == if k == r {
                    moved_row
                } else {
                    row_of(before, k)
                });
                if k < r {
                    assert(row_line(row_of(before, k), e) == row::slid(line(src, e, k)));
                }
            }
        }
        r += 1;
    }
    assert forall|k: int| 0 <= k < 4 implies #[trigger] line(out, e, k) == row::slid(
        line(src, e, k),
    ) by {
        lemma_row_line(out, k, e);
        assert(row_line(row_of(out, k), e) == row::slid(line(src, e, k)));
    }
    proof {
        reveal_with_fuel(points_above, 5);
    }
    (out, score)
}

/// The horizontal direction towards cell 0 or towards cell 3 of a row.
spec fn side(forward: bool) -> Dir {
    if forward {
        Dir::Left
    } else {
        Dir::Right
    }
}

/// The points of the lines before line `n`.
spec fn points_above(b: Board, d: Dir, n: int) -> nat
    decreases n,
{
    if n <= 0 {
        0
    } else {
        points_above(b, d, n - 1) + row::slide_points(line(b, d, n - 1))
    }
}

/// Row `r` of a board, packed.
pub open spec fn row_of(b: Board, r: int) -> u16 {
    ((b >> ((16 * r) as u64)) & 0xFFFF) as u16
}

/// A row's ranks read from the wall that a horizontal move goes to.
spec fn row_line(row: u16, d: Dir) -> Seq<u8> {
    if d == Dir::Left {
        row::row_ranks(row)
    } else {
        row::row_ranks(row).reverse()
    }
}

pub proof fn lemma_row_of(b: Board, r: int)
    requires
        0 <= r < 4,
    ensures
        row_of(b, r) == (b >> ((16 * r) as u64)) & 0xFFFF,
        forall|i: int|
            0 <= i < 4 ==> #[trigger] row::row_rank(row_of(b, r), i) == cell(b, 4 * r + i),
{
    let s = (16 * r) as u64;
    assert((b >> s) & 0xFFFF <= 0xFFFF) by (bit_vector);
    let w = row_of(b, r);
    assert forall|i: int| 0 <= i < 4 implies #[trigger] row::row_rank(w, i) == cell(b, 4 * r + i) by {
        let (ru, iu) = (r as u64, i as u64);
        let v = (b >> (16 * ru)) & 0xFFFF;
        let k = (4 * i) as u16;
        row::lemma_row_rank_small(w, i);
        lemma_cell_small(b, 4 * r + i);
        assert(((w >> k) & 0xF) as u64 == (b >> (4 * (4 * ru + iu))) & 0xF) by (bit_vector)
            requires
                ru < 4,
                iu < 4,
                k == 4 * iu,
                w as u64 == (b >> (16 * ru)) & 0xFFFF,
        ;
    }
}

proof fn lemma_row_line(b: Board, k: int, d: Dir)
    requires
        0 <= k < 4,
        d == Dir::Left || d == Dir::Right,
    ensures
        line(b, d, k) == row_line(row_of(b, k), d),
{
    lemma_row_of(b, k);
    assert(line(b, d, k) =~= row_line(row_of(b, k), d));
}

proof fn lemma_row_or(b: Board, w: u64, r: u64, k: u64)
    by (bit_vector)
    requires
        w < 0x1_0000,
        r < 4,
        k < 4,
        (b >> (16 * r)) & 0xFFFF == 0,
    ensures
        ((b | (w << (16 * r))) >> (16 * k)) & 0xFFFF == if k == r {
            w
        } else {
            (b >> (16 * k)) & 0xFFFF
        },
{
}

proof fn lemma_row_points(l: Seq<u8>, row: u16)
    requires
        l == row::row_ranks(row) || l == row::row_ranks(row).reverse(),
    ensures
        row::slide_points(l) <= 131072,
{
    assert forall|i: int| 0 <= i < 4 implies #[trigger] l[i] < 16 by {
        row::lemma_row_rank_small(row, i);
        row::lemma_row_rank_small(row, 3 - i);
    }
    row::lemma_slid_bound(l);
}

/// How often `r` occurs among `s`.
pub open spec fn count_in(s: Seq<u8>, r: int) -> nat
    decreases s.len(),
{
    if s.len() == 0 {
        0
    } else {
        count_in(s.drop_last(), r) + if s.last() == r {
            1nat
        } else {
            0
        }
    }
}

pub proof fn lemma_count_step(s: Seq<u8>, r: int, i: int)
    requires
        0 <= i < s.len(),
    ensures
        count_in(s.take(i + 1), r) == count_in(s.take(i), r) + if s[i] == r {
            1nat
        } else {
            0
        },
{
    assert(s.take(i + 1).drop_last() =~= s.take(i));
}

/// The rank in cell `i`.
pub fn cell_rank(b: Board, i: usize) -> (r: u8)
    requires
        i < 16,
    ensures
        r == cell(b, i as int),
        r < 16,
{
    proof {
        lemma_cell_small(b, i as int);
    }
    ((b >> (4 * i as u64)) & 0xF) as u8
}

/// The number of cells that hold `rank`.
pub fn count_rank(b: Board, rank: u64) -> (n: u32)
    ensures
        n == count_in(cells(b), rank as int),
        n <= 16,
{
    let mut n: u32 = 0;
    let mut i: usize = 0;
    assert(cells(b).take(0) =~= Seq::<u8>::empty());
    while i < 16
        invariant
            i <= 16,
            n <= i,
            n == count_in(cells(b).take(i as int), rank as int),
        decreases 16 - i,
    {
        proof {
            lemma_count_step(cells(b), rank as int, i as int);
        }
        if cell_rank(b, i) as u64 == rank {
            n += 1;
        }
        i += 1;
    }
    assert(cells(b).take(16) =~= cells(b));
    n
}

/// The number of empty cells.
pub fn count_empty(b: Board) -> (n: u32)
    ensures
        n == count_in(cells(b), 0),
        n <= 16,
{
    count_rank(b, 0)
}

/// The rank of the largest tile, 0 on an empty board.
pub open spec fn top_rank(b: Board) -> u8 {
    choose|r: u8| is_top_rank(b, r)
}

/// `r` is on the board and no cell holds more.
pub open spec fn is_top_rank(b: Board, r: u8) -> bool {
    &&& cells(b).contains(r)
    &&& forall|i: int| 0 <= i < 16 ==> #[trigger] cell(b, i) <= r
}

pub proof fn lemma_top_rank_unique(b: Board, r: u8)
    requires
        is_top_rank(b, r),
    ensures
        r == top_rank(b),
{
    let t = top_rank(b);
    let i = choose|i: int| 0 <= i < 16 && cells(b)[i] == r;
    let j = choose|j: int| 0 <= j < 16 && cells(b)[j] == t;
    assert(cell(b, i) == r && cell(b, j) == t);
}

/// Every board has a largest rank.
pub proof fn lemma_top_rank_exists(b: Board)
    ensures
        is_top_rank(b, top_rank(b)),
        top_rank(b) < 16,
{
    lemma_top_below(b, 16);
    let r = choose|r: u8|
        cells(b).contains(r) && forall|j: int| 0 <= j < 16 ==> #[trigger] cell(b, j) <= r;
    assert(is_top_rank(b, r));
    let t = top_rank(b);
    let i = choose|i: int| 0 <= i < 16 && cells(b)[i] == t;
    lemma_cell_small(b, i);
}

proof fn lemma_top_below(b: Board, n: int)
    requires
        1 <= n <= 16,
    ensures
        exists|r: u8|
            #![trigger cells(b).contains(r)]
            cells(b).contains(r) && forall|j: int| 0 <= j < n ==> #[trigger] cell(b, j) <= r,
    decreases n,
{
    assert(cells(b)[n - 1] == cell(b, n - 1));
    assert(cells(b).contains(cell(b, n - 1)));
    if n > 1 {
        lemma_top_below(b, n - 1);
        let r = choose|r: u8|
            #![trigger cells(b).contains(r)]
            cells(b).contains(r) && forall|j: int| 0 <= j < n - 1 ==> #[trigger] cell(b, j) <= r;
        if cell(b, n - 1) <= r {
            assert(cells(b).contains(r));
        }
    }
}

/// The rank of the largest tile on the board.
pub fn max_rank(b: Board) -> (r: u8)
    ensures
        is_top_rank(b, r),
        r == top_rank(b),
        r < 16,
{
    let mut r: u8 = cell_rank(b, 0);
    let mut i: usize = 1;
    assert(cells(b)[0] == r);
    while i < 16
        invariant
            1 <= i <= 16,
            r < 16,
            cells(b).contains(r),
            forall|j: int| 0 <= j < i ==> #[trigger] cell(b, j) <= r,
        decreases 16 - i,
    {
        let v: u8 = cell_rank(b, i);
        assert(cells(b)[i as int] == v);
        if v > r {
            r = v;
        }
        i += 1;
    }
    proof {
        lemma_top_rank_unique(b, r);
    }
    r
}

/// The number of ranks from 1 to `n` that occur on the board.
pub open spec fn distinct_upto(b: Board, n: int) -> nat
    decreases n,
{
    if n <= 0 {
        0
    } else {
        distinct_upto(b, n - 1) + if cells(b).contains(n as u8) {
            1nat
        } else {
            0
        }
    }
}

/// The number of different tiles on the board.
pub fn distinct_tiles(b: Board) -> (n: u32)
    ensures
        n == distinct_upto(b, 15),
        n <= 15,
{
    let seen: u16 = seen_ranks(b);
    let mut n: u32 = 0;
    let mut r: u16 = 1;
    while r < 16
        invariant
            1 <= r <= 16,
            n <= r - 1,
            n == distinct_upto(b, r - 1),
            forall|q: u16| q < 16 ==> (has_bit(seen, q) <==> #[trigger] cells(b).contains(q as u8)),
        decreases 16 - r,
    {
        assert(has_bit(seen, r) <==> cells(b).contains(r as u8));
        if seen & (1u16 << r) != 0 {
            n += 1;
        }
        r += 1;
    }
    n
}

/// Bit `q` of a set of ranks.
pub open spec fn has_bit(seen: u16, q: u16) -> bool {
    seen & (1u16 << q) != 0
}

/// The set of ranks on the board, empty cells as rank 0, one bit each.
pub fn seen_ranks(b: Board) -> (seen: u16)
    ensures
        forall|q: u16| q < 16 ==> (has_bit(seen, q) <==> #[trigger] cells(b).contains(q as u8)),
{
    let mut seen: u16 = 0;
    let mut i: usize = 0;
    assert forall|q: u16| q < 16 implies !#[trigger] has_bit(0, q) by {
        assert(0u16 & (1u16 << q) == 0) by (bit_vector);
    }
    while i < 16
        invariant
            i <= 16,
            forall|q: u16|
                q < 16 ==> (#[trigger] has_bit(seen, q) <==> exists|j: int|
                    0 <= j < i && #[trigger] cell(b, j) == q),
        decreases 16 - i,
    {
        let r: u16 = cell_rank(b, i) as u16;
        let ghost before = seen;
        seen = seen | (1u16 << r);
        proof {
            assert forall|q: u16| q < 16 implies (#[trigger] has_bit(seen, q) <==> exists|j: int|
                0 <= j < i + 1 && #[trigger] cell(b, j) == q) by {
                assert((before | (1u16 << r)) & (1u16 << q) != 0 <==> (before & (1u16 << q) != 0 || q
                    == r)) by (bit_vector)
                    requires
                        r < 16,
                        q < 16,
                ;
                assert(has_bit(before, q) <==> exists|j: int| 0 <= j < i && #[trigger] cell(b, j) == q);
                if q == r {
                    assert(cell(b, i as int) == q);
                }
            }
        }
        i += 1;
    }
    assert forall|q: u16| q < 16 implies (has_bit(seen, q) <==> #[trigger] cells(b).contains(
        q as u8,
    )) by {
        if has_bit(seen, q) {
            let j = choose|j: int| 0 <= j < 16 && #[trigger] cell(b, j) == q;
            assert(cells(b)[j] == q as u8);
        }
        if cells(b).contains(q as u8) {
            let j = choose|j: int| 0 <= j < 16 && cells(b)[j] == q as u8;
            assert(cell(b, j) == q);
        }
    }
    seen
}

/// Cell `i` is empty, with `k` empty cells before it.
pub open spec fn is_nth_empty(b: Board, k: int, i: int) -> bool {
    &&& 0 <= i < 16
    &&& cell(b, i) == 0
    &&& count_in(cells(b).take(i), 0) == k
}

/// `nb` is `b` with `rank` put into cell `i`.
pub open spec fn is_placed(b: Board, i: int, rank: int, nb: Board) -> bool {
    forall|j: int|
        0 <= j < 16 ==> #[trigger] cell(nb, j) == if j == i {
            rank
        } else {
            cell(b, j) as int
        }
}

/// The rank of a new tile in generator state `s`: a 4 for one draw of ten, else a 2.
pub open spec fn new_tile(s: u64) -> int {
    if rng::drawn_below(s, 10) == 0 {
        2
    } else {
        1
    }
}

/// `nb` is `b` with a new tile from generator state `s`: the cell from the first draw, the
/// tile from the second. A full board stays as it is.
pub open spec fn is_spawned(b: Board, s: u64, nb: Board) -> bool {
    let empty = count_in(cells(b), 0);
    let s1 = rng::advance(s);
    let s2 = rng::advance(s1);
    if empty == 0 {
        nb == b
    } else {
        exists|i: int|
            is_nth_empty(b, rng::drawn_below(s1, empty as u32) as int, i) && #[trigger] is_placed(
                b,
                i,
                new_tile(s2),
                nb,
            )
    }
}

/// The board with the new tile from generator state `s`.
pub open spec fn spawned(b: Board, s: u64) -> Board {
    choose|nb: Board| is_spawned(b, s, nb)
}

/// The state after a new tile has been drawn.
pub open spec fn after_spawn(b: Board, s: u64) -> u64 {
    if count_in(cells(b), 0) == 0 {
        s
    } else {
        rng::advance(rng::advance(s))
    }
}

proof fn lemma_count_grows(s: Seq<u8>, r: int, i: int, j: int)
    requires
        0 <= i <= j <= s.len(),
    ensures
        count_in(s.take(i), r) <= count_in(s.take(j), r),
    decreases j - i,
{
    if i < j {
        lemma_count_grows(s, r, i, j - 1);
        lemma_count_step(s, r, j - 1);
    }
}

pub proof fn lemma_placed_unique(b: Board, i: int, rank: int, x: Board, y: Board)
    requires
        is_placed(b, i, rank, x),
        is_placed(b, i, rank, y),
    ensures
        x == y,
{
    assert forall|c: int| 0 <= c < 16 implies cell(x, c) == #[trigger] cell(y, c) by {
        assert(cell(x, c) == cell(y, c));
    }
    lemma_board_is_cells(x, y);
}

/// The generator's state alone decides where the new tile goes and what it is.
pub proof fn spawn_is_determined(b: Board, s: u64, x: Board, y: Board)
    requires
        is_spawned(b, s, x),
        is_spawned(b, s, y),
    ensures
        x == y,
{
    let empty = count_in(cells(b), 0);
    if empty > 0 {
        let k = rng::drawn_below(rng::advance(s), empty as u32) as int;
        let rank = new_tile(rng::advance(rng::advance(s)));
        let i = choose|i: int| is_nth_empty(b, k, i) && #[trigger] is_placed(b, i, rank, x);
        let j = choose|j: int| is_nth_empty(b, k, j) && #[trigger] is_placed(b, j, rank, y);
        lemma_count_step(cells(b), 0, i);
        lemma_count_step(cells(b), 0, j);
        if i < j {
            lemma_count_grows(cells(b), 0, i + 1, j);
        } else if j < i {
            lemma_count_grows(cells(b), 0, j + 1, i);
        }
        lemma_placed_unique(b, i, rank, x, y);
    }
}

/// Puts a tile of `rank` into the empty cell `i`.
pub fn place(b: Board, i: usize, rank: u8) -> (nb: Board)
    requires
        i < 16,
        rank < 16,
        cell(b, i as int) == 0,
    ensures
        is_placed(b, i as int, rank as int, nb),
{
    let r: u64 = rank as u64;
    let nb: u64 = b | (r << (4 * i as u64));
    proof {
        lemma_cell_small(b, i as int);
        assert forall|j: int| 0 <= j < 16 implies #[trigger] cell(nb, j) == if j == i {
            rank
        } else {
            cell(b, j)
        } by {
            lemma_cell_small(b, j);
            lemma_cell_small(nb, j);
            lemma_cell_or(b, r, i as u64, j as u64);
        }
    }
    nb
}

/// Adds a tile: a uniformly drawn empty cell, 90% a 2, 10% a 4.
pub fn spawn(b: Board, rng: &mut Rng) -> (nb: Board)
    ensures
        is_spawned(b, old(rng).0, nb),
        nb == spawned(b, old(rng).0),
        final(rng).0 == after_spawn(b, old(rng).0),
{
    let empty: u32 = count_empty(b);
    if empty == 0 {
        proof {
            assert(is_spawned(b, rng.0, b));
            spawn_is_determined(b, rng.0, b, spawned(b, rng.0));
        }
        return b;
    }
    let mut pick: u32 = rng.below(empty);
    let rank: u8 = if rng.below(10) == 0 {
        2
    } else {
        1
    };
    let ghost picked = pick as int;
    let mut i: usize = 0;
    assert(cells(b).take(0) =~= Seq::<u8>::empty());
    assert(cells(b).take(16) =~= cells(b));
    while i < 16
        invariant
            i <= 16,
            cells(b).take(16) == cells(b),
            empty == count_in(cells(b), 0),
            0 <= picked < empty,
            rank == new_tile(rng::advance(rng::advance(old(rng).0))),
            rng.0 == rng::advance(rng::advance(old(rng).0)),
            picked == rng::drawn_below(rng::advance(old(rng).0), empty),
            count_in(cells(b).take(i as int), 0) + pick == picked,
        decreases 16 - i,
    {
        proof {
            lemma_count_step(cells(b), 0, i as int);
        }
        if cell_rank(b, i) == 0 {
            if pick == 0 {
                let nb: u64 = place(b, i, rank);
                proof {
                    assert(is_nth_empty(b, picked, i as int));
                    assert(is_placed(
                        b,
                        i as int,
                        new_tile(rng::advance(rng::advance(old(rng).0))),
                        nb,
                    ));
                    assert(is_spawned(b, old(rng).0, nb));
                    spawn_is_determined(b, old(rng).0, nb, spawned(b, old(rng).0));
                }
                return nb;
            }
            pick -= 1;
        }
        i += 1;
    }
    assert(false);
    b
}

/// A cell's tile in decimal, a dot for an empty cell.
pub open spec fn cell_text(rank: u8) -> Seq<char> {
    if rank == 0 {
        seq!['.']
    } else {
        text::decimal(pow2(rank as nat))
    }
}

/// The first `n` cells of a printed board: each six wide, a line end after each row.
pub open spec fn board_text(b: Board, n: int) -> Seq<char>
    decreases n,
{
    if n <= 0 {
        seq![]
    } else {
        board_text(b, n - 1) + text::padded(cell_text(cell(b, n - 1)), 6) + if n % 4 == 0 {
            seq!['\n']
        } else {
            seq![]
        }
    }
}

/// The board as four lines of text.
pub fn print(b: Board) -> (s: String)
    ensures
        s@ == board_text(b, 16),
{
    let mut s: String = String::new();
    let mut i: usize = 0;
    while i < 16
        invariant
            i <= 16,
            s@ == board_text(b, i as int),
        decreases 16 - i,
    {
        let ghost before = s@;
        let k: u8 = cell_rank(b, i);
        let mut cs: Vec<char> = Vec::new();
        if k == 0 {
            cs.push('.');
        } else {
            proof {
                row::lemma_points_of_rank((k - 1) as u8);
            }
            let v: u32 = 1u32 << (k as u32);
            cs = text::decimal_chars(v as u64);
        }
        assert(cs@ =~= cell_text(k));
        text::push_padded(&mut s, cs.as_slice(), 6);
        if i % 4 == 3 {
            s.push('\n');
        }
        i += 1;
        assert(s@ =~= board_text(b, i as int));
    }
    s
}

/// The board 0 is empty.
pub proof fn lemma_empty_board()
    ensures
        forall|i: int| 0 <= i < 16 ==> #[trigger] cell(0, i) == 0,
{
    assert forall|i: int| 0 <= i < 16 implies #[trigger] cell(0, i) == 0 by {
        let s = (4 * i) as u64;
        assert((0u64 >> s) & 0xF == 0) by (bit_vector);
    }
}

/// The board that holds the first `n` of the given ranks.
pub open spec fn board_of(rs: Seq<u8>, n: int) -> Board
    decreases n,
{
    if n <= 0 {
        0
    } else {
        board_of(rs, n - 1) | ((rs[n - 1] as u64) << ((4 * (n - 1)) as u64))
    }
}

/// Any sixteen ranks make a board.
pub proof fn lemma_board_of(rs: Seq<u8>, n: int)
    requires
        0 <= n <= 16,
        rs.len() == 16,
        forall|i: int| 0 <= i < 16 ==> #[trigger] rs[i] < 16,
    ensures
        forall|i: int|
            0 <= i < 16 ==> #[trigger] cell(board_of(rs, n), i) == if i < n {
                rs[i]
            } else {
                0
            },
    decreases n,
{
    if n == 0 {
        lemma_empty_board();
    } else {
        lemma_board_of(rs, n - 1);
        let before = board_of(rs, n - 1);
        let k = n - 1;
        assert(cell(before, k) == 0);
        lemma_cell_small(before, k);
        assert forall|i: int| 0 <= i < 16 implies #[trigger] cell(board_of(rs, n), i) == if i < n {
            rs[i]
        } else {
            0
        } by {
            assert(cell(before, i) == if i < n - 1 {
                rs[i]
            } else {
                0
            });
            lemma_cell_small(before, i);
            lemma_cell_small(board_of(rs, n), i);
            lemma_cell_or(before, rs[k] as u64, k as u64, i as u64);
        }
    }
}

/// Every move has an outcome.
pub proof fn lemma_moved_exists(b: Board, d: Dir)
    ensures
        is_moved(b, d, moved(b, d)),
{
    let rs = Seq::new(16, |c: int| row::slid(line(b, d, line_of(d, c).0))[line_of(d, c).1]);
    assert forall|c: int| 0 <= c < 16 implies #[trigger] rs[c] < 16 by {
        let (k, i) = line_of(d, c);
        lemma_slid_small(b, d, k);
        assert(row::slid(line(b, d, k))[i] < 16);
    }
    lemma_board_of(rs, 16);
    let nb = board_of(rs, 16);
    assert forall|k: int| 0 <= k < 4 implies #[trigger] line(nb, d, k) == row::slid(
        line(b, d, k),
    ) by {
        assert forall|i: int| 0 <= i < 4 implies line(nb, d, k)[i] == row::slid(line(b, d, k))[i] by {
            let c = line_cell(d, k, i);
            assert(line_of(d, c) == (k, i));
            assert(cell(nb, c) == rs[c]);
        }
        assert(line(nb, d, k) =~= row::slid(line(b, d, k)));
    }
    assert(is_moved(b, d, nb));
}

pub proof fn lemma_slid_small(b: Board, d: Dir, k: int)
    requires
        0 <= k < 4,
    ensures
        forall|i: int| 0 <= i < 4 ==> #[trigger] row::slid(line(b, d, k))[i] < 16,
        forall|i: int| 0 <= i < 4 ==> #[trigger] line(b, d, k)[i] < 16,
{
    let l = line(b, d, k);
    assert forall|i: int| 0 <= i < 4 implies #[trigger] l[i] < 16 by {
        lemma_cell_small(b, line_cell(d, k, i));
    }
    row::lemma_slid_bound(l);
}

proof fn lemma_nth_empty(b: Board, k: int, n: int)
    requires
        0 <= n <= 16,
        0 <= k < count_in(cells(b).take(n), 0),
    ensures
        exists|i: int| 0 <= i < n && #[trigger] is_nth_empty(b, k, i),
    decreases n,
{
    if n == 0 {
        assert(cells(b).take(0) =~= Seq::<u8>::empty());
    } else {
        lemma_count_step(cells(b), 0, n - 1);
        if k < count_in(cells(b).take(n - 1), 0) {
            lemma_nth_empty(b, k, n - 1);
            let i = choose|i: int| 0 <= i < n - 1 && #[trigger] is_nth_empty(b, k, i);
            assert(is_nth_empty(b, k, i));
        } else {
            assert(cells(b)[n - 1] == cell(b, n - 1));
            assert(is_nth_empty(b, k, n - 1));
        }
    }
}

/// A new tile always finds its place.
pub proof fn lemma_spawned_exists(b: Board, s: u64)
    ensures
        is_spawned(b, s, spawned(b, s)),
{
    let empty = count_in(cells(b), 0);
    assert(cells(b).take(16) =~= cells(b));
    if empty == 0 {
        assert(is_spawned(b, s, b));
    } else {
        let s1 = rng::advance(s);
        lemma_count_bound(cells(b), 0);
        let k = rng::drawn_below(s1, empty as u32) as int;
        rng::lemma_scaled((rng::drawn(s1) / 0x1_0000_0000) as int, empty as int);
        lemma_nth_empty(b, k, 16);
        let i = choose|i: int| 0 <= i < 16 && #[trigger] is_nth_empty(b, k, i);
        let rank = new_tile(rng::advance(s1));
        let rs = Seq::new(
            16,
            |c: int|
                if c == i {
                    rank as u8
                } else {
                    cell(b, c)
                },
        );
        assert forall|c: int| 0 <= c < 16 implies #[trigger] rs[c] < 16 by {
            lemma_cell_small(b, c);
        }
        lemma_board_of(rs, 16);
        let nb = board_of(rs, 16);
        assert forall|j: int| 0 <= j < 16 implies #[trigger] cell(nb, j) == if j == i {
            rank
        } else {
            cell(b, j) as int
        } by {
            assert(cell(nb, j) == rs[j]);
        }
        assert(is_placed(b, i, rank, nb));
        assert(is_spawned(b, s, nb));
    }
}

pub proof fn lemma_count_bound(s: Seq<u8>, r: int)
    ensures
        count_in(s, r) <= s.len(),
    decreases s.len(),
{
    if s.len() > 0 {
        lemma_count_bound(s.drop_last(), r);
    }
}

}
