//! The rules of the game, line by line: how four cells slide, which cells make up a line, what
//! a slide scores, and where new tiles come.

use crate::board;
use crate::board::{Board, Dir};
use crate::rng;
use crate::row;
use vstd::arithmetic::power2::pow2;
use vstd::prelude::*;

verus! {

/// The tile that two equal tiles make; two 32768s leave a 32768.
pub open spec fn doubled(r: u8) -> u8 {
    if r < 15 {
        (r + 1) as u8
    } else {
        15
    }
}

proof fn lemma_merged_four(ts: Seq<u8>)
    requires
        ts.len() <= 4,
    ensures
        ts.len() == 0 ==> row::merged(ts) == Seq::<u8>::empty() && row::merge_points(ts) == 0,
        ts.len() == 1 ==> row::merged(ts) == seq![ts[0]] && row::merge_points(ts) == 0,
        ts.len() == 2 ==> (if ts[0] == ts[1] {
            row::merged(ts) == seq![doubled(ts[0])] && row::merge_points(ts) == pow2(
                (ts[0] + 1) as nat,
            )
        } else {
            row::merged(ts) == seq![ts[0], ts[1]] && row::merge_points(ts) == 0
        }),
    decreases ts.len(),
{
    reveal_with_fuel(row::merged, 5);
    reveal_with_fuel(row::merge_points, 5);
    if ts.len() == 0 {
    } else if ts.len() == 1 {
        assert(ts.skip(1) =~= Seq::<u8>::empty());
        assert(row::merged(ts) =~= seq![ts[0]]);
    } else if ts.len() == 2 {
        assert(ts.skip(2) =~= Seq::<u8>::empty());
        assert(ts.skip(1) =~= seq![ts[1]]);
        lemma_merged_four(ts.skip(1));
        lemma_merged_four(ts.skip(2));
        if ts[0] == ts[1] {
            assert(row::merged(ts) =~= seq![doubled(ts[0])]);
        } else {
            assert(row::merged(ts) =~= seq![ts[0], ts[1]]);
        }
    }
}

proof fn lemma_merged_three(a: u8, b: u8, c: u8)
    ensures
        ({
            let ts = seq![a, b, c];
            if a == b {
                row::merged(ts) == seq![doubled(a), c] && row::merge_points(ts) == pow2(
                    (a + 1) as nat,
                )
            } else if b == c {
                row::merged(ts) == seq![a, doubled(b)] && row::merge_points(ts) == pow2(
                    (b + 1) as nat,
                )
            } else {
                row::merged(ts) == seq![a, b, c] && row::merge_points(ts) == 0
            }
        }),
{
    let ts = seq![a, b, c];
    assert(ts.skip(1) =~= seq![b, c]);
    assert(ts.skip(2) =~= seq![c]);
    lemma_merged_four(ts.skip(1));
    lemma_merged_four(ts.skip(2));
    assert(ts[0] == a && ts[1] == b);
    if a == b {
        assert(row::merged(ts) =~= seq![doubled(a), c]);
    } else if b == c {
        assert(row::merged(ts) =~= seq![a, doubled(b)]);
    } else {
        assert(row::merged(ts) =~= seq![a, b, c]);
    }
}

proof fn lemma_merged_all(a: u8, b: u8, c: u8, d: u8)
    ensures
        ({
            let ts = seq![a, b, c, d];
            let (m, p) = (row::merged(ts), row::merge_points(ts));
            if a == b && c == d {
                m == seq![doubled(a), doubled(c)] && p == pow2((a + 1) as nat) + pow2(
                    (c + 1) as nat,
                )
            } else if a == b {
                m == seq![doubled(a), c, d] && p == pow2((a + 1) as nat)
            } else if b == c {
                m == seq![a, doubled(b), d] && p == pow2((b + 1) as nat)
            } else if c == d {
                m == seq![a, b, doubled(c)] && p == pow2((c + 1) as nat)
            } else {
                m == seq![a, b, c, d] && p == 0
            }
        }),
{
    let ts = seq![a, b, c, d];
    assert(ts.skip(1) =~= seq![b, c, d]);
    assert(ts.skip(2) =~= seq![c, d]);
    lemma_merged_three(b, c, d);
    lemma_merged_four(ts.skip(2));
    assert(ts[0] == a && ts[1] == b);
    assert(ts.skip(2)[0] == c && ts.skip(2)[1] == d);
    if a == b && c == d {
        assert(row::merged(ts) =~= seq![doubled(a), doubled(c)]);
    } else if a == b {
        assert(row::merged(ts) =~= seq![doubled(a), c, d]);
    } else if b == c {
        assert(row::merged(ts) =~= seq![a, doubled(b), d]);
    } else if c == d {
        assert(row::merged(ts) =~= seq![a, b, doubled(c)]);
    } else {
        assert(row::merged(ts) =~= seq![a, b, c, d]);
    }
}

/// Four tiles in a line without gaps: equal neighbours merge from the wall on, each tile once,
/// the rest moves up, and each merge scores the tile it makes.
pub proof fn full_lines_slide_so(a: u8, b: u8, c: u8, d: u8)
    requires
        a != 0,
        b != 0,
        c != 0,
        d != 0,
    ensures
        ({
            let (s, p) = (row::slid(seq![a, b, c, d]), row::slide_points(seq![a, b, c, d]));
            if a == b && c == d {
                s == seq![doubled(a), doubled(c), 0, 0] && p == pow2((a + 1) as nat) + pow2(
                    (c + 1) as nat,
                )
            } else if a == b {
                s == seq![doubled(a), c, d, 0] && p == pow2((a + 1) as nat)
            } else if b == c {
                s == seq![a, doubled(b), d, 0] && p == pow2((b + 1) as nat)
            } else if c == d {
                s == seq![a, b, doubled(c), 0] && p == pow2((c + 1) as nat)
            } else {
                s == seq![a, b, c, d] && p == 0
            }
        }),
{
    let line = seq![a, b, c, d];
    reveal_with_fuel(squeezed, 5);
    assert(squeezed(line, 4) =~= line);
    lemma_tiles_are(line, line);
    lemma_merged_all(a, b, c, d);
    let s = row::slid(line);
    if a == b && c == d {
        assert(s =~= seq![doubled(a), doubled(c), 0, 0]);
    } else if a == b {
        assert(s =~= seq![doubled(a), c, d, 0]);
    } else if b == c {
        assert(s =~= seq![a, doubled(b), d, 0]);
    } else if c == d {
        assert(s =~= seq![a, b, doubled(c), 0]);
    } else {
        assert(s =~= seq![a, b, c, d]);
    }
}

/// What is in the four cells once the empty ones are taken out.
spec fn squeezed(l: Seq<u8>, n: int) -> Seq<u8>
    decreases n,
{
    if n <= 0 {
        seq![]
    } else if l[n - 1] != 0 {
        squeezed(l, n - 1).push(l[n - 1])
    } else {
        squeezed(l, n - 1)
    }
}

proof fn lemma_tiles(l: Seq<u8>, n: int)
    requires
        0 <= n <= l.len(),
    ensures
        row::tiles(l.take(n)) == squeezed(l, n),
    decreases n,
{
    reveal(Seq::filter);
    if n > 0 {
        lemma_tiles(l, n - 1);
        assert(l.take(n).drop_last() =~= l.take(n - 1));
        assert(l.take(n).last() == l[n - 1]);
    } else {
        assert(l.take(0) =~= Seq::<u8>::empty());
    }
}

proof fn lemma_tiles_are(l: Seq<u8>, ts: Seq<u8>)
    requires
        l.len() == 4,
        squeezed(l, 4) == ts,
    ensures
        row::tiles(l) == ts,
{
    lemma_tiles(l, 4);
    assert(l.take(4) =~= l);
}

/// Empty cells only give way: with two tiles or fewer, or three, whatever lies between them,
/// the tiles meet at the wall and merge as neighbours.
pub proof fn gaps_close_before_merging(l: Seq<u8>, ts: Seq<u8>)
    requires
        l.len() == 4,
        ts.len() <= 3,
        ts == l.filter(|r: u8| r != 0),
    ensures
        ({
            let (s, p) = (row::slid(l), row::slide_points(l));
            &&& ts.len() == 0 ==> s == seq![0u8, 0, 0, 0] && p == 0
            &&& ts.len() == 1 ==> s == seq![ts[0], 0, 0, 0] && p == 0
            &&& ts.len() == 2 ==> (if ts[0] == ts[1] {
                s == seq![doubled(ts[0]), 0, 0, 0] && p == pow2((ts[0] + 1) as nat)
            } else {
                s == seq![ts[0], ts[1], 0, 0] && p == 0
            })
            &&& ts.len() == 3 ==> (if ts[0] == ts[1] {
                s == seq![doubled(ts[0]), ts[2], 0, 0] && p == pow2((ts[0] + 1) as nat)
            } else if ts[1] == ts[2] {
                s == seq![ts[0], doubled(ts[1]), 0, 0] && p == pow2((ts[1] + 1) as nat)
            } else {
                s == seq![ts[0], ts[1], ts[2], 0] && p == 0
            })
        }),
{
    let s = row::slid(l);
    assert(row::tiles(l) =~= ts) by {
        lemma_tiles(l, 4);
        lemma_filter(l, 4);
        assert(l.take(4) =~= l);
    }
    if ts.len() == 3 {
        assert(ts =~= seq![ts[0], ts[1], ts[2]]);
        lemma_merged_three(ts[0], ts[1], ts[2]);
        if ts[0] == ts[1] {
            assert(s =~= seq![doubled(ts[0]), ts[2], 0, 0]);
        } else if ts[1] == ts[2] {
            assert(s =~= seq![ts[0], doubled(ts[1]), 0, 0]);
        } else {
            assert(s =~= seq![ts[0], ts[1], ts[2], 0]);
        }
    } else {
        lemma_merged_four(ts);
        if ts.len() == 0 {
            assert(s =~= seq![0u8, 0, 0, 0]);
        } else if ts.len() == 1 {
            assert(s =~= seq![ts[0], 0, 0, 0]);
        } else if ts[0] == ts[1] {
            assert(s =~= seq![doubled(ts[0]), 0, 0, 0]);
        } else {
            assert(s =~= seq![ts[0], ts[1], 0, 0]);
        }
    }
}

/// The tiles of a line are its cells that are not empty, in their order.
pub proof fn tiles_are_the_filled_cells(l: Seq<u8>)
    ensures
        row::tiles(l) == l.filter(|r: u8| r != 0),
{
    lemma_tiles(l, l.len() as int);
    lemma_filter(l, l.len() as int);
    assert(l.take(l.len() as int) =~= l);
}

proof fn lemma_filter(l: Seq<u8>, n: int)
    requires
        0 <= n <= l.len(),
    ensures
        l.take(n).filter(|r: u8| r != 0) == squeezed(l, n),
    decreases n,
{
    reveal(Seq::filter);
    if n > 0 {
        lemma_filter(l, n - 1);
        assert(l.take(n).drop_last() =~= l.take(n - 1));
        assert(l.take(n).last() == l[n - 1]);
    } else {
        assert(l.take(0) =~= Seq::<u8>::empty());
    }
}

/// Row `r` of a board, from left to right.
pub open spec fn row_of(b: Board, r: int) -> Seq<u8> {
    seq![
        board::cell(b, 4 * r),
        board::cell(b, 4 * r + 1),
        board::cell(b, 4 * r + 2),
        board::cell(b, 4 * r + 3),
    ]
}

/// Column `c` of a board, from top to bottom.
pub open spec fn column_of(b: Board, c: int) -> Seq<u8> {
    seq![
        board::cell(b, c),
        board::cell(b, c + 4),
        board::cell(b, c + 8),
        board::cell(b, c + 12),
    ]
}

/// A line the other way round.
pub open spec fn turned(l: Seq<u8>) -> Seq<u8> {
    seq![l[3], l[2], l[1], l[0]]
}

/// A move to the left or right slides every row towards that side, a move up or down every
/// column; each line is slid on its own.
pub proof fn moves_slide_every_line(b: Board, k: int)
    requires
        0 <= k < 4,
    ensures
        row_of(board::moved(b, Dir::Left), k) == row::slid(row_of(b, k)),
        turned(row_of(board::moved(b, Dir::Right), k)) == row::slid(turned(row_of(b, k))),
        column_of(board::moved(b, Dir::Up), k) == row::slid(column_of(b, k)),
        turned(column_of(board::moved(b, Dir::Down), k)) == row::slid(turned(column_of(b, k))),
{
    lemma_line(b, k);
    board::lemma_moved_exists(b, Dir::Left);
    board::lemma_moved_exists(b, Dir::Right);
    board::lemma_moved_exists(b, Dir::Up);
    board::lemma_moved_exists(b, Dir::Down);
    lemma_line(board::moved(b, Dir::Left), k);
    lemma_line(board::moved(b, Dir::Right), k);
    lemma_line(board::moved(b, Dir::Up), k);
    lemma_line(board::moved(b, Dir::Down), k);
    assert(board::line(board::moved(b, Dir::Left), Dir::Left, k) == row::slid(
        board::line(b, Dir::Left, k),
    ));
    assert(board::line(board::moved(b, Dir::Right), Dir::Right, k) == row::slid(
        board::line(b, Dir::Right, k),
    ));
    assert(board::line(board::moved(b, Dir::Up), Dir::Up, k) == row::slid(
        board::line(b, Dir::Up, k),
    ));
    assert(board::line(board::moved(b, Dir::Down), Dir::Down, k) == row::slid(
        board::line(b, Dir::Down, k),
    ));
}

proof fn lemma_line(b: Board, k: int)
    requires
        0 <= k < 4,
    ensures
        board::line(b, Dir::Left, k) == row_of(b, k),
        board::line(b, Dir::Right, k) == turned(row_of(b, k)),
        board::line(b, Dir::Up, k) == column_of(b, k),
        board::line(b, Dir::Down, k) == turned(column_of(b, k)),
{
    assert(board::line(b, Dir::Left, k) =~= row_of(b, k));
    assert(board::line(b, Dir::Right, k) =~= turned(row_of(b, k)));
    assert(board::line(b, Dir::Up, k) =~= column_of(b, k));
    assert(board::line(b, Dir::Down, k) =~= turned(column_of(b, k)));
}

/// A move scores what its four lines score.
pub proof fn moves_score_every_line(b: Board)
    ensures
        board::move_points(b, Dir::Left) == row::slide_points(row_of(b, 0)) + row::slide_points(
            row_of(b, 1),
        ) + row::slide_points(row_of(b, 2)) + row::slide_points(row_of(b, 3)),
        board::move_points(b, Dir::Right) == row::slide_points(turned(row_of(b, 0)))
            + row::slide_points(turned(row_of(b, 1))) + row::slide_points(turned(row_of(b, 2)))
            + row::slide_points(turned(row_of(b, 3))),
        board::move_points(b, Dir::Up) == row::slide_points(column_of(b, 0)) + row::slide_points(
            column_of(b, 1),
        ) + row::slide_points(column_of(b, 2)) + row::slide_points(column_of(b, 3)),
        board::move_points(b, Dir::Down) == row::slide_points(turned(column_of(b, 0)))
            + row::slide_points(turned(column_of(b, 1))) + row::slide_points(
            turned(column_of(b, 2)),
        ) + row::slide_points(turned(column_of(b, 3))),
{
    lemma_line(b, 0);
    lemma_line(b, 1);
    lemma_line(b, 2);
    lemma_line(b, 3);
}

/// The cells that hold `r`.
pub open spec fn cells_with(b: Board, r: int) -> Set<int> {
    Set::new(|i: int| 0 <= i < 16 && board::cell(b, i) == r)
}

proof fn lemma_cells_with(b: Board, r: int, n: int)
    requires
        0 <= n <= 16,
    ensures
        ({
            let c = Set::new(|i: int| 0 <= i < n && board::cell(b, i) == r);
            c.finite() && c.len() == board::count_in(board::cells(b).take(n), r)
        }),
    decreases n,
{
    let c = Set::new(|i: int| 0 <= i < n && board::cell(b, i) == r);
    if n == 0 {
        assert(c =~= Set::empty());
        assert(board::cells(b).take(0) =~= Seq::<u8>::empty());
    } else {
        lemma_cells_with(b, r, n - 1);
        board::lemma_count_step(board::cells(b), r, n - 1);
        let d = Set::new(|i: int| 0 <= i < n - 1 && board::cell(b, i) == r);
        if board::cell(b, n - 1) == r {
            assert(c =~= d.insert(n - 1));
        } else {
            assert(c =~= d);
        }
    }
}

/// Counting a rank counts the cells that hold it.
pub proof fn counts_are_of_cells(b: Board, r: int)
    ensures
        cells_with(b, r).finite(),
        cells_with(b, r).len() == board::count_in(board::cells(b), r),
{
    lemma_cells_with(b, r, 16);
    assert(board::cells(b).take(16) =~= board::cells(b));
}

/// A new tile comes on every board that has an empty cell: in the one that so many empty cells
/// lie before as the first draw tells, each equally likely; it is a 4 for a tenth of the second
/// draws, the lowest, and else a 2. The rest of the board stays, and both draws are used up.
pub proof fn new_tiles_come_by_two_draws(b: Board, s: u64)
    requires
        cells_with(b, 0).len() > 0,
    ensures
        ({
            let n = cells_with(b, 0).len() as int;
            let one = rng::advance(s);
            let two = rng::advance(one);
            let before = ((rng::drawn(one) / 0x1_0000_0000) * n) / 0x1_0000_0000;
            let four = (rng::drawn(two) / 0x1_0000_0000) * 10 < 0x1_0000_0000;
            &&& board::after_spawn(b, s) == two
            &&& exists|i: int|
                {
                    &&& 0 <= i < 16
                    &&& #[trigger] board::cell(b, i) == 0
                    &&& board::count_in(board::cells(b).take(i), 0) == before
                    &&& board::cell(board::spawned(b, s), i) == (if four {
                        2u8
                    } else {
                        1
                    })
                    &&& forall|j: int|
                        0 <= j < 16 && j != i ==> #[trigger] board::cell(board::spawned(b, s), j)
                            == board::cell(b, j)
                }
        }),
{
    counts_are_of_cells(b, 0);
    board::lemma_spawned_exists(b, s);
    board::lemma_count_bound(board::cells(b), 0);
    let n = board::count_in(board::cells(b), 0);
    let one = rng::advance(s);
    let two = rng::advance(one);
    let k = rng::drawn_below(one, n as u32) as int;
    rng::lemma_scaled((rng::drawn(one) / 0x1_0000_0000) as int, n as int);
    rng::lemma_scaled((rng::drawn(two) / 0x1_0000_0000) as int, 10);
    let i = choose|i: int|
        board::is_nth_empty(b, k, i) && #[trigger] board::is_placed(
            b,
            i,
            board::new_tile(two),
            board::spawned(b, s),
        );
    assert(board::is_placed(b, i, board::new_tile(two), board::spawned(b, s)));
    assert(board::cell(b, i) == 0);
    rng::drawn_below_is_even(two, 10, 0);
}

/// A full board gets no new tile, and no draw is made.
pub proof fn full_boards_get_no_tile(b: Board, s: u64)
    requires
        cells_with(b, 0).len() == 0,
    ensures
        board::spawned(b, s) == b,
        board::after_spawn(b, s) == s,
{
    counts_are_of_cells(b, 0);
    board::lemma_spawned_exists(b, s);
}

/// The largest rank is on the board, and no cell holds more.
pub proof fn the_top_tile_is_largest(b: Board, i: int)
    requires
        0 <= i < 16,
    ensures
        board::cell(b, i) <= board::top_rank(b),
        exists|k: int| 0 <= k < 16 && #[trigger] board::cell(b, k) == board::top_rank(b),
{
    board::lemma_top_rank_exists(b);
    let top = board::top_rank(b);
    let k = choose|k: int| 0 <= k < 16 && board::cells(b)[k] == top;
    assert(board::cell(b, k) == top);
}

/// A board's cells are the sixteen digits of its number in base 16, the first the lowest.
pub proof fn boards_are_their_digits(b: Board, i: int)
    requires
        0 <= i < 15,
    ensures
        board::cell(b, 0) == b % 16,
        board::cell(b, i + 1) == board::cell((b / 16) as u64, i),
{
    board::lemma_cell_small(b, 0);
    board::lemma_cell_small(b, i + 1);
    board::lemma_cell_small((b / 16) as u64, i);
    assert((b >> 0u64) & 0xF == b % 16) by (bit_vector);
    let (k, n) = ((4 * i) as u64, (4 * (i + 1)) as u64);
    let c = (b / 16) as u64;
    assert((b >> n) & 0xF == (c >> k) & 0xF) by (bit_vector)
        requires
            n == k + 4,
            k < 60,
            c == b / 16,
    ;
}

}
