//! What a training game does: which moves it can make, which it makes, what it learns from them
//! and where it starts.

use crate::board;
use crate::board::{Board, Dir, DIRS};
use crate::episode;
use crate::episode::Episode;
use crate::floats;
use crate::ntuple;
use crate::ntuple::{LayoutView, NTupleView};
use crate::pool;
use crate::train::{Moment, Teacher};
use vstd::prelude::*;

verus! {

/// Where a direction stands in the order in which moves are tried: up, down, left, right.
pub open spec fn turn_of(d: Dir) -> int {
    match d {
        Dir::Up => 0,
        Dir::Down => 1,
        Dir::Left => 2,
        Dir::Right => 3,
    }
}

proof fn lemma_listed(b: Board, n: int)
    requires
        0 <= n <= 4,
    ensures
        ({
            let ms = episode::moves(b, n);
            &&& forall|k: int|
                0 <= k < ms.len() ==> {
                    let (d, nb, points) = #[trigger] ms[k];
                    &&& turn_of(d) < n
                    &&& board::moved(b, d) != b
                    &&& nb == board::moved(b, d)
                    &&& points == board::move_points(b, d) as u32
                }
            &&& forall|j: int, k: int|
                0 <= j < k < ms.len() ==> turn_of((#[trigger] ms[j]).0) < turn_of(
                    (#[trigger] ms[k]).0,
                )
            &&& forall|d: Dir|
                turn_of(d) < n && #[trigger] board::moved(b, d) != b ==> ms.contains(
                    (d, board::moved(b, d), board::move_points(b, d) as u32),
                )
        }),
    decreases n,
{
    if n > 0 {
        lemma_listed(b, n - 1);
        let (before, ms) = (episode::moves(b, n - 1), episode::moves(b, n));
        let last = DIRS@[n - 1];
        assert(DIRS@[0] == Dir::Up && DIRS@[1] == Dir::Down && DIRS@[2] == Dir::Left && DIRS@[3]
            == Dir::Right);
        assert(turn_of(last) == n - 1);
        assert forall|d: Dir|
            turn_of(d) < n && #[trigger] board::moved(b, d) != b implies ms.contains(
            (d, board::moved(b, d), board::move_points(b, d) as u32),
        ) by {
            let e = (d, board::moved(b, d), board::move_points(b, d) as u32);
            if turn_of(d) < n - 1 {
                assert(before.contains(e));
                let k = choose|k: int| 0 <= k < before.len() && before[k] == e;
                assert(ms[k] == e);
            } else {
                assert(d == last);
                assert(ms[ms.len() - 1] == e);
            }
        }
    }
}

/// Every direction that changes the board is listed, once, in the order up, down, left, right,
/// with the board after it and its points; no other is.
pub proof fn legal_moves_are_all_listed(b: Board, d: Dir)
    ensures
        ({
            let ms = episode::moves(b, 4);
            &&& board::moved(b, d) != b <==> exists|k: int|
                0 <= k < ms.len() && (#[trigger] ms[k]).0 == d
            &&& forall|k: int|
                0 <= k < ms.len() ==> (#[trigger] ms[k]).1 == board::moved(b, ms[k].0) && ms[k].2
                    == board::move_points(b, ms[k].0) as u32
            &&& forall|j: int, k: int|
                0 <= j < k < ms.len() ==> turn_of((#[trigger] ms[j]).0) < turn_of(
                    (#[trigger] ms[k]).0,
                )
        }),
{
    lemma_listed(b, 4);
    let ms = episode::moves(b, 4);
    if board::moved(b, d) != b {
        let e = (d, board::moved(b, d), board::move_points(b, d) as u32);
        assert(ms.contains(e));
        let k = choose|k: int| 0 <= k < ms.len() && ms[k] == e;
        assert(ms[k].0 == d);
    }
}

/// Move `k` of those with the worths `values` is made: none is worth more, and none before it
/// as much.
pub open spec fn is_first_best(values: Seq<u32>, k: int) -> bool {
    &&& 0 <= k < values.len()
    &&& forall|i: int|
        0 <= i < values.len() ==> floats::place32(#[trigger] values[i]) <= floats::place32(
            values[k],
        )
    &&& forall|i: int|
        0 <= i < k ==> floats::place32(#[trigger] values[i]) < floats::place32(values[k])
}

/// A turn makes the move that is worth most, the first of several, and teaches just that worth
/// to the board before it. The board after the move, its points, its new tile and the
/// generator's draws are those of that move.
pub proof fn turns_teach_what_the_move_is_worth(
    e: Episode,
    l: LayoutView,
    values: Seq<u32>,
    boards: Seq<Seq<Board>>,
    cap: nat,
    s: u64,
)
    requires
        l.valid(),
        e.can_turn(l, values, boards, cap, s),
        episode::moves(e.board, 4).len() > 0,
        forall|i: int| 0 <= i < values.len() ==> !floats::is_nan32(#[trigger] values[i]),
    ensures
        ({
            let o = e.turned(l, values, boards, cap, s);
            let options = episode::moves(e.board, 4);
            exists|k: int|
                {
                    &&& #[trigger] is_first_best(values, k)
                    &&& !o.turn.over
                    &&& o.turn.learn == match e.after {
                        Some(p) => Some((p, values[k])),
                        None => None,
                    }
                    &&& o.episode.after == Some(options[k].1)
                    &&& o.episode.score == e.score + options[k].2
                    &&& board::is_spawned(options[k].1, s, o.episode.board)
                    &&& o.episode.fresh == e.fresh
                    &&& o.episode.stage == if l.stage(o.episode.board) > e.stage {
                        l.stage(o.episode.board)
                    } else {
                        e.stage as nat
                    }
                }
        }),
{
    let n = values.len() as int;
    floats::the_pick_is_the_first_maximum(values, n);
    let k = floats::best_among(values, n);
    assert(is_first_best(values, k));
    board::lemma_spawned_exists(episode::moves(e.board, 4)[k].1, s);
}

/// A turn on a board without a move ends the game: the board before it is taught that it was
/// worth nothing, and nothing else changes.
pub proof fn lost_games_teach_nothing_more(
    e: Episode,
    l: LayoutView,
    values: Seq<u32>,
    boards: Seq<Seq<Board>>,
    cap: nat,
    s: u64,
)
    requires
        forall|d: Dir| #[trigger] board::moved(e.board, d) == e.board,
    ensures
        ({
            let o = e.turned(l, values, boards, cap, s);
            &&& o.turn.over
            &&& o.turn.learn == match e.after {
                Some(p) => Some((p, 0u32)),
                None => None,
            }
            &&& o.episode == e
            &&& o.boards == boards
            &&& o.state == s
        }),
{
    episode::games_end_without_moves(e.board);
}

/// A board is saved when it enters a stage the game had not reached, among the boards of that
/// stage, and at no other time.
pub proof fn boards_are_saved_on_entering_a_stage(
    e: Episode,
    l: LayoutView,
    values: Seq<u32>,
    boards: Seq<Seq<Board>>,
    cap: nat,
    s: u64,
    i: int,
)
    requires
        l.valid(),
        e.can_turn(l, values, boards, cap, s),
        0 <= i < boards.len(),
        forall|k: int| 0 <= k < boards.len() ==> (#[trigger] boards[k]).len() <= usize::MAX,
    ensures
        ({
            let o = e.turned(l, values, boards, cap, s);
            let entered = o.episode.stage > e.stage;
            &&& o.boards.len() == boards.len()
            &&& !entered || i != o.episode.stage ==> o.boards[i] == boards[i]
            &&& entered && i == o.episode.stage ==> o.boards[i].contains(o.episode.board)
        }),
{
    let options = episode::moves(e.board, 4);
    if options.len() > 0 {
        let k = floats::best_among(values, values.len() as int);
        let (_, after, points) = options[k];
        let next = e.moved_on(l, after, points, s);
        let s1 = board::after_spawn(after, s);
        if next.stage > e.stage {
            let st = next.stage as int;
            assert(pool::takes(boards, cap, st));
            pool::stages_stay_within_the_cap(boards, cap, st, next.board, s1, i);
            pool::saved_boards_are_there(boards, cap, st, next.board, s1);
        }
    }
}

/// In a turn of training the network is asked what every legal move is worth, the first of the
/// best is made, and the board before it is corrected by the difference between that worth and
/// what the network says of it; without a move it is corrected towards nothing.
pub proof fn training_corrects_towards_the_best_worth<P, T, O, M, G>(
    t: Teacher<P, T, O, M, G>,
    alpha: u32,
    cap: nat,
    from: Moment,
    to: Moment,
) where
    P: Fn(u32, u32) -> u32,
    T: Fn(u32, u32) -> u32,
    O: Fn(u32, u32) -> u32,
    M: Fn(u32, u32) -> u32,
    G: Fn(u32, u32) -> u32,

    requires
        t.is_turn(alpha, cap, from, to),
        forall|n: u32, x: u32, y: u32| #[trigger]
            call_ensures(t.gain, (n, x), y) ==> !floats::is_nan32(y),
    ensures
        ({
            let options = episode::moves(from.episode.board, 4);
            exists|values: Seq<u32>|
                {
                    &&& #[trigger] are_worths(t, from.net, options, values)
                    &&& options.len() > 0 ==> exists|k: int|
                        {
                            &&& #[trigger] is_first_best(values, k)
                            &&& to.episode.after == Some(options[k].1)
                            &&& from.episode.after matches Some(p) ==> is_lesson(
                                t,
                                alpha,
                                p,
                                values[k],
                                from.net,
                                to.net,
                            )
                        }
                    &&& options.len() == 0 ==> (from.episode.after matches Some(p) ==> is_lesson(
                        t,
                        alpha,
                        p,
                        0,
                        from.net,
                        to.net,
                    ))
                    &&& from.episode.after is None ==> to.net == from.net
                }
        }),
{
    let options = episode::moves(from.episode.board, 4);
    let values = choose|values: Seq<u32>| #[trigger] t.is_turn_by(alpha, cap, values, from, to);
    let n = values.len() as int;
    assert forall|k: int| 0 <= k < options.len() implies is_worth(
        t,
        from.net,
        options[k].1,
        options[k].2,
        #[trigger] values[k],
    ) && !floats::is_nan32(values[k]) by {
        assert(t.is_worth(from.net, options[k].1, options[k].2, values[k]));
        let x = choose|x: u32| #[trigger]
            t.is_value(from.net, options[k].1, x) && call_ensures(
                t.gain,
                (options[k].2, x),
                values[k],
            );
        assert(ntuple::is_value(t.rule.plus, t.zero, from.net, options[k].1, x));
    }
    assert(are_worths(t, from.net, options, values));
    if let Some(p) = from.episode.after {
        let target = if n > 0 {
            values[floats::best_among(values, n)]
        } else {
            0
        };
        assert(t.is_corrected(alpha, p, target, from.net, to.net));
        let (x, err) = choose|x: u32, err: u32|
            {
                &&& #[trigger] t.is_value(from.net, p, x)
                &&& #[trigger] call_ensures(t.minus, (target, x), err)
                &&& ntuple::is_updated(t.rule, alpha, err, p, from.net, to.net)
            };
        assert(ntuple::is_value(t.rule.plus, t.zero, from.net, p, x));
        assert(is_lesson(t, alpha, p, target, from.net, to.net));
    }
    if n > 0 {
        floats::the_pick_is_the_first_maximum(values, n);
        assert(is_first_best(values, floats::best_among(values, n)));
    }
}

/// A move to `b` for `points` is worth `v`: its gain on top of the network's value of `b`.
pub open spec fn is_worth<P, T, O, M, G>(
    t: Teacher<P, T, O, M, G>,
    net: NTupleView,
    b: Board,
    points: u32,
    v: u32,
) -> bool where
    P: Fn(u32, u32) -> u32,
    T: Fn(u32, u32) -> u32,
    O: Fn(u32, u32) -> u32,
    M: Fn(u32, u32) -> u32,
    G: Fn(u32, u32) -> u32,
 {
    exists|x: u32| #[trigger]
        ntuple::is_value(t.rule.plus, t.zero, net, b, x) && call_ensures(t.gain, (points, x), v)
}

/// All moves are worth the values.
pub open spec fn are_worths<P, T, O, M, G>(
    t: Teacher<P, T, O, M, G>,
    net: NTupleView,
    options: Seq<(Dir, Board, u32)>,
    values: Seq<u32>,
) -> bool where
    P: Fn(u32, u32) -> u32,
    T: Fn(u32, u32) -> u32,
    O: Fn(u32, u32) -> u32,
    M: Fn(u32, u32) -> u32,
    G: Fn(u32, u32) -> u32,
 {
    &&& values.len() == options.len()
    &&& forall|k: int|
        0 <= k < options.len() ==> is_worth(
            t,
            net,
            options[k].1,
            options[k].2,
            #[trigger] values[k],
        )
}

/// The network learns of the error between `target` and what it says of `p`.
pub open spec fn is_lesson<P, T, O, M, G>(
    t: Teacher<P, T, O, M, G>,
    alpha: u32,
    p: Board,
    target: u32,
    from: NTupleView,
    to: NTupleView,
) -> bool where
    P: Fn(u32, u32) -> u32,
    T: Fn(u32, u32) -> u32,
    O: Fn(u32, u32) -> u32,
    M: Fn(u32, u32) -> u32,
    G: Fn(u32, u32) -> u32,
 {
    exists|x: u32, err: u32|
        {
            &&& #[trigger] ntuple::is_value(t.rule.plus, t.zero, from, p, x)
            &&& #[trigger] call_ensures(t.minus, (target, x), err)
            &&& ntuple::is_updated(t.rule, alpha, err, p, from, to)
        }
}

/// A game's result: the points it made, its largest tile, and whether it began anew.
pub proof fn results_tell_the_largest_tile(e: Episode, i: int)
    requires
        0 <= i < 16,
    ensures
        e.result().score == e.score,
        e.result().fresh == e.fresh,
        board::cell(e.board, i) <= e.result().max_rank,
        exists|k: int| 0 <= k < 16 && #[trigger] board::cell(e.board, k) == e.result().max_rank,
{
    board::lemma_top_rank_exists(e.board);
    let top = board::top_rank(e.board);
    let k = choose|k: int| 0 <= k < 16 && board::cells(e.board)[k] == top;
    assert(board::cell(e.board, k) == top);
}

}
