//! What moves do to the tiles: their sum, their number, and the merge of two 32768s.

use crate::board;
use crate::board::{cell_rank, count_rank, slide_board, Board, Dir};
use crate::rng;
use crate::row;
use vstd::arithmetic::power2::*;
use vstd::prelude::*;

verus! {

/// The sum of `f` over ranks.
pub open spec fn sum_of(s: Seq<u8>, f: spec_fn(u8) -> nat) -> nat
    decreases s.len(),
{
    if s.len() == 0 {
        0
    } else {
        sum_of(s.drop_last(), f) + f(s.last())
    }
}

/// The number on a tile, 0 for an empty cell.
pub open spec fn face(r: u8) -> nat {
    if r == 0 {
        0
    } else {
        pow2(r as nat)
    }
}

/// One for the rank `r`, zero for others.
pub open spec fn is_rank(r: u8) -> spec_fn(u8) -> nat {
    |x: u8|
        if x == r {
            1
        } else {
            0
        }
}

/// The numbers on tiles.
pub open spec fn faces() -> spec_fn(u8) -> nat {
    |x: u8| face(x)
}

/// The sum of all numbers on the board.
pub open spec fn tile_sum(b: Board) -> nat {
    sum_of(board::cells(b), faces())
}

/// How many pairs of rank `r` merge among tiles in a line.
pub open spec fn merges_in(ts: Seq<u8>, r: u8) -> nat
    decreases ts.len(),
{
    if ts.len() >= 2 && ts[0] == ts[1] {
        merges_in(ts.skip(2), r) + if ts[0] == r {
            1nat
        } else {
            0nat
        }
    } else if ts.len() >= 1 {
        merges_in(ts.skip(1), r)
    } else {
        0
    }
}

/// How many pairs of rank `r` a move merges.
pub open spec fn merges_of(b: Board, d: Dir, r: u8) -> nat {
    merges_in(row::tiles(board::line(b, d, 0)), r) + merges_in(
        row::tiles(board::line(b, d, 1)),
        r,
    ) + merges_in(row::tiles(board::line(b, d, 2)), r) + merges_in(
        row::tiles(board::line(b, d, 3)),
        r,
    )
}

proof fn lemma_step(s: Seq<u8>, f: spec_fn(u8) -> nat, i: int)
    requires
        0 <= i < s.len(),
    ensures
        sum_of(s.take(i + 1), f) == sum_of(s.take(i), f) + f(s[i]),
{
    assert(s.take(i + 1).drop_last() =~= s.take(i));
}

proof fn lemma_front(x: u8, s: Seq<u8>, f: spec_fn(u8) -> nat)
    ensures
        sum_of(seq![x] + s, f) == f(x) + sum_of(s, f),
    decreases s.len(),
{
    let all = seq![x] + s;
    if s.len() == 0 {
        assert(all.drop_last() =~= seq![]);
        assert(sum_of(all.drop_last(), f) == 0);
    } else {
        lemma_front(x, s.drop_last(), f);
        assert(all.drop_last() =~= seq![x] + s.drop_last());
    }
}

proof fn lemma_tiles_sum(l: Seq<u8>, f: spec_fn(u8) -> nat, n: int)
    requires
        f(0) == 0,
        0 <= n <= l.len(),
    ensures
        sum_of(row::tiles(l.take(n)), f) == sum_of(l.take(n), f),
    decreases n,
{
    if n == 0 {
        assert(l.take(0) =~= seq![]);
        assert(row::tiles(l.take(0)) =~= seq![]) by {
            reveal(Seq::filter);
        }
    } else {
        lemma_tiles_sum(l, f, n - 1);
        row::lemma_tiles_step(l, n - 1);
        lemma_step(l, f, n - 1);
        let ts = row::tiles(l.take(n - 1));
        assert(ts.push(l[n - 1]).drop_last() =~= ts);
    }
}

proof fn lemma_padded_sum(s: Seq<u8>, m: Seq<u8>, f: spec_fn(u8) -> nat, n: int)
    requires
        f(0) == 0,
        m.len() <= s.len(),
        forall|i: int|
            0 <= i < s.len() ==> #[trigger] s[i] == if i < m.len() {
                m[i]
            } else {
                0
            },
        0 <= n <= s.len(),
    ensures
        n <= m.len() ==> sum_of(s.take(n), f) == sum_of(m.take(n), f),
        n >= m.len() ==> sum_of(s.take(n), f) == sum_of(m, f),
    decreases n,
{
    assert(m.take(m.len() as int) =~= m);
    if n == 0 {
        assert(s.take(0) =~= m.take(0));
    } else {
        lemma_padded_sum(s, m, f, n - 1);
        lemma_step(s, f, n - 1);
        assert(s[n - 1] == if n - 1 < m.len() {
            m[n - 1]
        } else {
            0
        });
        if n <= m.len() {
            lemma_step(m, f, n - 1);
        }
    }
}

proof fn lemma_real_tiles(l: Seq<u8>)
    requires
        forall|i: int| 0 <= i < l.len() ==> #[trigger] l[i] < 16,
    ensures
        row::tiles(l).len() <= l.len(),
        forall|i: int| 0 <= i < row::tiles(l).len() ==> 1 <= #[trigger] row::tiles(l)[i] < 16,
{
    let ts = row::tiles(l);
    l.lemma_filter_len(|r: u8| r != 0);
    assert forall|i: int| 0 <= i < ts.len() implies 1 <= #[trigger] ts[i] < 16 by {
        l.lemma_filter_contains_rev(|r: u8| r != 0, ts[i]);
        l.lemma_filter_pred(|r: u8| r != 0, i);
    }
}

proof fn lemma_merged_faces(ts: Seq<u8>)
    requires
        forall|i: int| 0 <= i < ts.len() ==> 1 <= #[trigger] ts[i] < 16,
    ensures
        sum_of(row::merged(ts), faces()) + 32768 * merges_in(ts, 15) == sum_of(ts, faces()),
    decreases ts.len(),
{
    let f = faces();
    if ts.len() >= 2 && ts[0] == ts[1] {
        let r = ts[0];
        let rest = ts.skip(2);
        lemma_merged_faces(rest);
        assert(ts =~= seq![r] + (seq![r] + rest));
        lemma_front(r, seq![r] + rest, f);
        lemma_front(r, rest, f);
        lemma_front(row::merge_rank(r), row::merged(rest), f);
        assert(1 <= ts[0] < 16);
        lemma2_to64();
        if r < 15 {
            lemma_pow2_unfold((r + 1) as nat);
        }
    } else if ts.len() >= 1 {
        let rest = ts.skip(1);
        lemma_merged_faces(rest);
        assert(ts =~= seq![ts[0]] + rest);
        lemma_front(ts[0], rest, f);
        lemma_front(ts[0], row::merged(rest), f);
    }
}

proof fn lemma_merged_tops(ts: Seq<u8>)
    requires
        forall|i: int| 0 <= i < ts.len() ==> 1 <= #[trigger] ts[i] < 16,
    ensures
        sum_of(row::merged(ts), is_rank(15)) + merges_in(ts, 15) == sum_of(ts, is_rank(15))
            + merges_in(ts, 14),
    decreases ts.len(),
{
    let f = is_rank(15);
    if ts.len() >= 2 && ts[0] == ts[1] {
        let r = ts[0];
        let rest = ts.skip(2);
        lemma_merged_tops(rest);
        assert(ts =~= seq![r] + (seq![r] + rest));
        lemma_front(r, seq![r] + rest, f);
        lemma_front(r, rest, f);
        lemma_front(row::merge_rank(r), row::merged(rest), f);
        assert(1 <= ts[0] < 16);
    } else if ts.len() >= 1 {
        let rest = ts.skip(1);
        lemma_merged_tops(rest);
        assert(ts =~= seq![ts[0]] + rest);
        lemma_front(ts[0], rest, f);
        lemma_front(ts[0], row::merged(rest), f);
    }
}

/// Sums over a slid line are sums over its merged tiles.
proof fn lemma_slid_sum(l: Seq<u8>, f: spec_fn(u8) -> nat)
    requires
        f(0) == 0,
        l.len() == 4,
        forall|i: int| 0 <= i < 4 ==> #[trigger] l[i] < 16,
    ensures
        sum_of(row::slid(l), f) == sum_of(row::merged(row::tiles(l)), f),
        sum_of(l, f) == sum_of(row::tiles(l), f),
{
    let m = row::merged(row::tiles(l));
    lemma_real_tiles(l);
    row::lemma_merged_bounds(row::tiles(l));
    lemma_padded_sum(row::slid(l), m, f, 4);
    assert(row::slid(l).take(4) =~= row::slid(l));
    lemma_tiles_sum(l, f, 4);
    assert(l.take(4) =~= l);
}

/// A sum over the board, line by line.
proof fn lemma_sum_by_lines(b: Board, d: Dir, f: spec_fn(u8) -> nat)
    ensures
        sum_of(board::cells(b), f) == sum_of(board::line(b, d, 0), f) + sum_of(
            board::line(b, d, 1),
            f,
        ) + sum_of(board::line(b, d, 2), f) + sum_of(board::line(b, d, 3), f),
{
    let s = board::cells(b);
    assert(s.take(16) =~= s);
    assert(s.take(0) =~= seq![]);
    lemma_four(s, 0, f);
    lemma_four(s, 4, f);
    lemma_four(s, 8, f);
    lemma_four(s, 12, f);
    lemma_line_sum(b, d, 0, f);
    lemma_line_sum(b, d, 1, f);
    lemma_line_sum(b, d, 2, f);
    lemma_line_sum(b, d, 3, f);
}

proof fn lemma_four(s: Seq<u8>, i: int, f: spec_fn(u8) -> nat)
    requires
        0 <= i,
        i + 4 <= s.len(),
    ensures
        sum_of(s.take(i + 4), f) == sum_of(s.take(i), f) + f(s[i]) + f(s[i + 1]) + f(s[i + 2]) + f(
            s[i + 3],
        ),
{
    lemma_step(s, f, i);
    lemma_step(s, f, i + 1);
    lemma_step(s, f, i + 2);
    lemma_step(s, f, i + 3);
}

proof fn lemma_line_sum(b: Board, d: Dir, k: int, f: spec_fn(u8) -> nat)
    requires
        0 <= k < 4,
    ensures
        sum_of(board::line(b, d, k), f) == f(board::cells(b)[board::line_cell(d, k, 0)]) + f(
            board::cells(b)[board::line_cell(d, k, 1)],
        ) + f(board::cells(b)[board::line_cell(d, k, 2)]) + f(
            board::cells(b)[board::line_cell(d, k, 3)],
        ),
{
    let l = board::line(b, d, k);
    assert(l.take(0) =~= seq![]);
    assert(l.take(4) =~= l);
    lemma_four(l, 0, f);
}

proof fn lemma_moved_line(b: Board, d: Dir, k: int)
    requires
        0 <= k < 4,
    ensures
        sum_of(board::line(board::moved(b, d), d, k), faces()) + 32768 * merges_in(
            row::tiles(board::line(b, d, k)),
            15,
        ) == sum_of(board::line(b, d, k), faces()),
        sum_of(board::line(board::moved(b, d), d, k), is_rank(15)) + merges_in(
            row::tiles(board::line(b, d, k)),
            15,
        ) == sum_of(board::line(b, d, k), is_rank(15)) + merges_in(
            row::tiles(board::line(b, d, k)),
            14,
        ),
{
    let l = board::line(b, d, k);
    board::lemma_moved_exists(b, d);
    board::lemma_slid_small(b, d, k);
    lemma_real_tiles(l);
    lemma_slid_sum(l, faces());
    lemma_slid_sum(l, is_rank(15));
    lemma_merged_faces(row::tiles(l));
    lemma_merged_tops(row::tiles(l));
    assert(board::line(board::moved(b, d), d, k) == row::slid(l));
}

/// A move keeps the sum of all tiles, but for each merge of two 32768s, which leaves one of
/// them.
pub proof fn moves_keep_the_tile_sum(b: Board, d: Dir)
    ensures
        tile_sum(board::moved(b, d)) + 32768 * merges_of(b, d, 15) == tile_sum(b),
{
    lemma_sum_by_lines(b, d, faces());
    lemma_sum_by_lines(board::moved(b, d), d, faces());
    lemma_moved_line(b, d, 0);
    lemma_moved_line(b, d, 1);
    lemma_moved_line(b, d, 2);
    lemma_moved_line(b, d, 3);
}

proof fn lemma_count_is_sum(s: Seq<u8>, r: u8)
    ensures
        board::count_in(s, r as int) == sum_of(s, is_rank(r)),
    decreases s.len(),
{
    if s.len() > 0 {
        lemma_count_is_sum(s.drop_last(), r);
    }
}

/// A move leaves one 32768 less for each merge of two of them, and one more for each merge of
/// two 16384s.
pub proof fn moves_change_the_32768s(b: Board, d: Dir)
    ensures
        board::count_in(board::cells(board::moved(b, d)), 15) + merges_of(b, d, 15)
            == board::count_in(board::cells(b), 15) + merges_of(b, d, 14),
{
    lemma_count_is_sum(board::cells(b), 15);
    lemma_count_is_sum(board::cells(board::moved(b, d)), 15);
    lemma_sum_by_lines(b, d, is_rank(15));
    lemma_sum_by_lines(board::moved(b, d), d, is_rank(15));
    lemma_moved_line(b, d, 0);
    lemma_moved_line(b, d, 1);
    lemma_moved_line(b, d, 2);
    lemma_moved_line(b, d, 3);
}

/// The step from `before` to `after` made a 65536: there are fewer 32768s, or the step is a
/// move that merged two of them.
pub open spec fn makes_65536(before: Board, after: Board) -> bool {
    ||| board::count_in(board::cells(after), 15) < board::count_in(board::cells(before), 15)
    ||| exists|d: Dir| #[trigger]
        board::moved(before, d) == after && merges_of(before, d, 15) > 0
}

/// Of a move: a 65536 was made if and only if two 32768s merged.
pub proof fn moves_make_65536_by_merging(b: Board, d: Dir)
    ensures
        makes_65536(b, board::moved(b, d)) <==> merges_of(b, d, 15) > 0,
{
    moves_change_the_32768s(b, d);
    moves_keep_the_tile_sum(b, d);
    if makes_65536(b, board::moved(b, d)) && merges_of(b, d, 15) == 0 {
        let e = choose|e: Dir| #[trigger]
            board::moved(b, e) == board::moved(b, d) && merges_of(b, e, 15) > 0;
        moves_keep_the_tile_sum(b, e);
    }
}

/// The sum of all numbers on the board.
fn add_tiles(b: Board) -> (n: u32)
    ensures
        n == tile_sum(b),
{
    let mut n: u32 = 0;
    let mut i: usize = 0;
    let ghost s = board::cells(b);
    assert(s.take(0) =~= seq![]);
    while i < 16
        invariant
            i <= 16,
            s == board::cells(b),
            n <= 65536 * i,
            n == sum_of(s.take(i as int), faces()),
        decreases 16 - i,
    {
        proof {
            lemma_step(s, faces(), i as int);
            board::lemma_cell_small(b, i as int);
        }
        let r: u8 = cell_rank(b, i);
        if r > 0 {
            proof {
                row::lemma_points_of_rank((r - 1) as u8);
            }
            n += 1u32 << (r as u32);
        }
        i += 1;
    }
    assert(s.take(16) =~= s);
    n
}

/// True if the move from `before` to `after` merged two 32768s, i.e. made 65536.
pub fn made_65536(before: Board, after: Board) -> (made: bool)
    ensures
        made == makes_65536(before, after),
{
    if count_rank(after, 15) < count_rank(before, 15) {
        return true;
    }
    if add_tiles(after) >= add_tiles(before) {
        proof {
            if makes_65536(before, after) {
                let d = choose|d: Dir| #[trigger]
                    board::moved(before, d) == after && merges_of(before, d, 15) > 0;
                moves_keep_the_tile_sum(before, d);
            }
        }
        return false;
    }
    let up: bool = slide_board(None, before, Dir::Up).0 == after;
    let down: bool = slide_board(None, before, Dir::Down).0 == after;
    let left: bool = slide_board(None, before, Dir::Left).0 == after;
    let right: bool = slide_board(None, before, Dir::Right).0 == after;
    proof {
        moves_keep_the_tile_sum(before, Dir::Up);
        moves_keep_the_tile_sum(before, Dir::Down);
        moves_keep_the_tile_sum(before, Dir::Left);
        moves_keep_the_tile_sum(before, Dir::Right);
        if makes_65536(before, after) {
            let d = choose|d: Dir| #[trigger]
                board::moved(before, d) == after && merges_of(before, d, 15) > 0;
            match d {
                Dir::Up => {},
                Dir::Down => {},
                Dir::Left => {},
                Dir::Right => {},
            }
        }
    }
    up || down || left || right
}

proof fn lemma_no_merges(ts: Seq<u8>)
    requires
        forall|i: int| 0 <= i < ts.len() ==> 1 <= #[trigger] ts[i] < 16,
    ensures
        row::merged(ts).len() <= ts.len(),
        row::merged(ts).len() == ts.len() ==> row::merged(ts) == ts && row::merge_points(ts) == 0,
        forall|i: int| 0 <= i < row::merged(ts).len() ==> 1 <= #[trigger] row::merged(ts)[i],
    decreases ts.len(),
{
    if ts.len() >= 2 && ts[0] == ts[1] {
        lemma_no_merges(ts.skip(2));
        assert(1 <= ts[0] < 16);
    } else if ts.len() >= 1 {
        lemma_no_merges(ts.skip(1));
        assert(1 <= ts[0] < 16);
        if row::merged(ts).len() == ts.len() {
            assert(row::merged(ts) =~= ts);
        }
    } else {
        assert(row::merged(ts) =~= ts);
    }
}

/// One for a tile, zero for an empty cell.
spec fn is_tile() -> spec_fn(u8) -> nat {
    |x: u8|
        if x == 0 {
            0
        } else {
            1
        }
}

proof fn lemma_all_tiles(s: Seq<u8>)
    requires
        forall|i: int| 0 <= i < s.len() ==> 1 <= #[trigger] s[i],
    ensures
        sum_of(s, is_tile()) == s.len(),
    decreases s.len(),
{
    if s.len() > 0 {
        lemma_all_tiles(s.drop_last());
        assert(1 <= s[s.len() - 1]);
    }
}

/// A line that keeps its tiles gains no points.
proof fn lemma_line_kept(l: Seq<u8>)
    requires
        l.len() == 4,
        forall|i: int| 0 <= i < 4 ==> #[trigger] l[i] < 16,
    ensures
        row::slid(l) == l ==> row::slide_points(l) == 0,
        (forall|i: int| 0 <= i < 4 ==> #[trigger] row::slid(l)[i] != 0) ==> row::slid(l) == l,
{
    let ts = row::tiles(l);
    let m = row::merged(ts);
    lemma_real_tiles(l);
    lemma_no_merges(ts);
    lemma_slid_sum(l, is_tile());
    lemma_all_tiles(ts);
    lemma_all_tiles(m);
    if forall|i: int| 0 <= i < 4 ==> #[trigger] row::slid(l)[i] != 0 {
        assert(row::slid(l)[3] != 0);
        assert(m.len() == 4);
        assert(ts.len() == 4);
        assert(ts =~= l) by {
            lemma_full_tiles(l, 4);
            assert(l.take(4) =~= l);
        }
        assert(row::slid(l) =~= l);
    }
}

proof fn lemma_full_tiles(l: Seq<u8>, n: int)
    requires
        0 <= n <= l.len(),
    ensures
        row::tiles(l.take(n)).len() <= n,
        row::tiles(l.take(n)).len() == n ==> row::tiles(l.take(n)) == l.take(n),
    decreases n,
{
    if n == 0 {
        assert(row::tiles(l.take(0)) =~= l.take(0)) by {
            reveal(Seq::filter);
        }
    } else {
        lemma_full_tiles(l, n - 1);
        row::lemma_tiles_step(l, n - 1);
        if row::tiles(l.take(n)).len() == n {
            assert(row::tiles(l.take(n)) =~= l.take(n));
        }
    }
}

/// A move that leaves the board as it is gains no points.
pub proof fn illegal_moves_gain_nothing(b: Board, d: Dir)
    requires
        board::moved(b, d) == b,
    ensures
        board::move_points(b, d) == 0,
{
    board::lemma_moved_exists(b, d);
    assert forall|k: int| 0 <= k < 4 implies row::slide_points(#[trigger] board::line(b, d, k))
        == 0 by {
        board::lemma_slid_small(b, d, k);
        lemma_line_kept(board::line(b, d, k));
        assert(board::line(b, d, k) == row::slid(board::line(b, d, k)));
    }
    assert(row::slide_points(board::line(b, d, 0)) == 0);
    assert(row::slide_points(board::line(b, d, 1)) == 0);
    assert(row::slide_points(board::line(b, d, 2)) == 0);
    assert(row::slide_points(board::line(b, d, 3)) == 0);
}

/// After a move that changes the board there is an empty cell, so a new tile always comes.
pub proof fn legal_moves_leave_room(b: Board, d: Dir)
    requires
        board::moved(b, d) != b,
    ensures
        board::count_in(board::cells(board::moved(b, d)), 0) > 0,
{
    let nb = board::moved(b, d);
    board::lemma_moved_exists(b, d);
    if board::count_in(board::cells(nb), 0) == 0 {
        lemma_count_is_sum(board::cells(nb), 0);
        assert(board::cells(nb).take(16) =~= board::cells(nb));
        lemma_none_there(board::cells(nb), 16);
        assert forall|k: int| 0 <= k < 4 implies #[trigger] board::line(b, d, k) == row::slid(
            board::line(b, d, k),
        ) by {
            let l = board::line(b, d, k);
            board::lemma_slid_small(b, d, k);
            assert(board::line(nb, d, k) == row::slid(l));
            assert forall|i: int| 0 <= i < 4 implies #[trigger] row::slid(l)[i] != 0 by {
                assert(board::line(nb, d, k)[i] == board::cells(nb)[board::line_cell(d, k, i)]);
            }
            lemma_line_kept(l);
        }
        assert(board::is_moved(b, d, b));
        board::lemma_moved_unique(b, d, b);
    }
}

proof fn lemma_none_there(s: Seq<u8>, n: int)
    requires
        0 <= n <= s.len(),
        sum_of(s.take(n), is_rank(0)) == 0,
    ensures
        forall|i: int| 0 <= i < n ==> #[trigger] s[i] != 0,
    decreases n,
{
    if n > 0 {
        lemma_step(s, is_rank(0), n - 1);
        lemma_none_there(s, n - 1);
    }
}

/// After a legal move the new tile is one 2 or 4 in a cell that was empty, and nothing else
/// changes.
pub proof fn turns_add_one_tile(b: Board, d: Dir, s: u64, nb: Board)
    requires
        board::moved(b, d) != b,
        board::is_spawned(board::moved(b, d), s, nb),
    ensures
        exists|i: int, r: int|
            0 <= i < 16 && board::cell(board::moved(b, d), i) == 0 && (r == 1 || r == 2)
                && #[trigger] board::is_placed(board::moved(b, d), i, r, nb),
{
    legal_moves_leave_room(b, d);
    let after = board::moved(b, d);
    let empty = board::count_in(board::cells(after), 0);
    let s1 = rng::advance(s);
    let i = choose|i: int|
        board::is_nth_empty(after, rng::drawn_below(s1, empty as u32) as int, i)
            && #[trigger] board::is_placed(after, i, board::new_tile(rng::advance(s1)), nb);
    assert(board::is_placed(after, i, board::new_tile(rng::advance(s1)), nb));
}

/// Swapping rows and columns swaps the directions: the moves correspond, points and all.
pub proof fn moves_commute_with_transposing(b: Board, t: Board, d: Dir)
    requires
        board::is_transposed(b, t),
    ensures
        board::is_transposed(board::moved(b, d), board::moved(t, board::across(d))),
        board::move_points(t, board::across(d)) == board::move_points(b, d),
{
    let e = board::across(d);
    let (x, y) = (board::moved(b, d), board::moved(t, e));
    board::lemma_moved_exists(b, d);
    board::lemma_moved_exists(t, e);
    assert forall|k: int| 0 <= k < 4 implies #[trigger] board::line(t, e, k) == board::line(
        b,
        d,
        k,
    ) by {
        assert forall|i: int| 0 <= i < 4 implies board::line(t, e, k)[i] == board::line(b, d, k)[i] by {
            let c = board::line_cell(d, k, i);
            assert(board::cell(t, 4 * (c % 4) + c / 4) == board::cell(b, 4 * (c / 4) + c % 4));
        }
        assert(board::line(t, e, k) =~= board::line(b, d, k));
    }
    assert(board::line(t, e, 0) == board::line(b, d, 0));
    assert(board::line(t, e, 1) == board::line(b, d, 1));
    assert(board::line(t, e, 2) == board::line(b, d, 2));
    assert(board::line(t, e, 3) == board::line(b, d, 3));
    assert forall|r: int, c: int| 0 <= r < 4 && 0 <= c < 4 implies #[trigger] board::cell(
        y,
        4 * r + c,
    ) == board::cell(x, 4 * c + r) by {
        let (k, i) = board::line_of(e, 4 * r + c);
        assert(board::line(y, e, k) == row::slid(board::line(t, e, k)));
        assert(board::line(x, d, k) == row::slid(board::line(b, d, k)));
        assert(board::line(y, e, k)[i] == board::cell(y, 4 * r + c));
        assert(board::line(x, d, k)[i] == board::cell(x, 4 * c + r));
    }
}

}
