//! How games begin and end, how chance is drawn, and what the heuristic sees.

use crate::ai;
use crate::ai::Features;
use crate::board;
use crate::board::{Board, Dir};
use crate::episode;
use crate::episode::{Episode, EpisodeStats};
use crate::floats;
use crate::game_laws;
use crate::move_laws;
use crate::ntuple::{LayoutView, NTupleView};
use crate::pool;
use crate::rng;
use crate::row;
use crate::train::{Moment, Teacher};
use vstd::prelude::*;

verus! {

/// The generator's state after `s`, in whole numbers: the number above bit 12, the number below
/// bit 39 and the number above bit 27 are mixed in, one after the other.
pub proof fn states_follow_in_three_steps(s: u64)
    ensures
        ({
            let a = s ^ (s / 0x1000);
            let b = a ^ (((a % 0x80_0000_0000) * 0x200_0000) as u64);
            rng::advance(s) == b ^ (b / 0x800_0000)
        }),
{
    let a = s ^ (s >> 12);
    let b = a ^ (a << 25);
    assert(s >> 12 == s / 0x1000) by (bit_vector);
    assert((a % 0x80_0000_0000) * 0x200_0000 <= 0xFFFF_FFFF_FFFF_FFFF && a << 25 == (a
        % 0x80_0000_0000) * 0x200_0000) by (bit_vector);
    assert(b >> 27 == b / 0x800_0000) by (bit_vector);
}

/// A draw is the state times a fixed odd number, in 64 bits; a draw below `n` takes its upper
/// half as a fraction of `n`.
pub proof fn draws_are_multiples_of_the_state(s: u64, n: u32)
    ensures
        rng::drawn(s) == (s * 2_685_821_657_736_338_717) % 0x1_0000_0000_0000_0000,
        n > 0 ==> {
            let part = (rng::drawn(s) / 0x1_0000_0000) * n;
            &&& rng::drawn_below(s, n) < n
            &&& rng::drawn_below(s, n) * 0x1_0000_0000 <= part
            &&& part < (rng::drawn_below(s, n) + 1) * 0x1_0000_0000
        },
{
    if n > 0 {
        rng::lemma_scaled((rng::drawn(s) / 0x1_0000_0000) as int, n as int);
        let k = rng::drawn_below(s, n);
        rng::drawn_below_is_even(s, n, k);
    }
}

proof fn lemma_blank(i: int)
    requires
        0 <= i < 16,
    ensures
        board::cell(0, i) == 0,
{
    let k = (4 * i) as u64;
    assert((0u64 >> k) & 0xF == 0) by (bit_vector);
}

/// A cell holds a new tile.
pub open spec fn is_new(b: Board, i: int) -> bool {
    board::cell(b, i) == 1 || board::cell(b, i) == 2
}

/// A board with two tiles, each a 2 or a 4.
pub open spec fn has_two_tiles(b: Board) -> bool {
    exists|i: int, j: int|
        {
            &&& 0 <= i < 16
            &&& 0 <= j < 16
            &&& i != j
            &&& #[trigger] is_new(b, i)
            &&& #[trigger] is_new(b, j)
            &&& forall|k: int|
                0 <= k < 16 && k != i && k != j ==> #[trigger] board::cell(b, k) == 0
        }
}

/// A new game opens with two tiles, each a 2 or a 4, for four draws.
pub proof fn new_games_open_with_two_tiles(s: u64)
    ensures
        has_two_tiles(episode::opening(s)),
        episode::state_after_opening(s) == rng::advance(
            rng::advance(rng::advance(rng::advance(s))),
        ),
{
    let none: Board = 0;
    lemma_blank(0);
    lemma_has_empty(none, 0);
    move_laws::new_tiles_come_by_two_draws(none, s);
    let first = board::spawned(none, s);
    let s1 = board::after_spawn(none, s);
    let i = choose|i: int|
        {
            &&& 0 <= i < 16
            &&& #[trigger] board::cell(none, i) == 0
            &&& board::cell(first, i) == 1 || board::cell(first, i) == 2
            &&& forall|j: int|
                0 <= j < 16 && j != i ==> #[trigger] board::cell(first, j) == board::cell(none, j)
        };
    assert forall|k: int| 0 <= k < 16 && k != i implies #[trigger] board::cell(first, k) == 0 by {
        lemma_blank(k);
    }
    let other: int = if i == 0 {
        1
    } else {
        0
    };
    assert(board::cell(first, other) == 0);
    lemma_has_empty(first, other);
    move_laws::new_tiles_come_by_two_draws(first, s1);
    let both = board::spawned(first, s1);
    let j = choose|j: int|
        {
            &&& 0 <= j < 16
            &&& #[trigger] board::cell(first, j) == 0
            &&& board::cell(both, j) == 1 || board::cell(both, j) == 2
            &&& forall|k: int|
                0 <= k < 16 && k != j ==> #[trigger] board::cell(both, k) == board::cell(first, k)
        };
    assert(board::cell(both, i) == board::cell(first, i));
    assert(is_new(both, i) && is_new(both, j));
    assert forall|k: int| 0 <= k < 16 && k != i && k != j implies #[trigger] board::cell(both, k)
        == 0 by {
        assert(board::cell(both, k) == board::cell(first, k));
    }
    assert(has_two_tiles(both));
}

proof fn lemma_has_empty(b: Board, i: int)
    requires
        0 <= i < 16,
        board::cell(b, i) == 0,
    ensures
        move_laws::cells_with(b, 0).len() > 0,
{
    move_laws::counts_are_of_cells(b, 0);
    assert(move_laws::cells_with(b, 0).contains(i));
}

/// Some stage has a saved board.
pub open spec fn any_saved(boards: Seq<Seq<Board>>) -> bool {
    exists|i: int| 0 <= i < boards.len() && (#[trigger] boards[i]).len() > 0
}

/// `b` is a saved board.
pub open spec fn is_saved(boards: Seq<Seq<Board>>, b: Board) -> bool {
    exists|i: int| 0 <= i < boards.len() && (#[trigger] boards[i]).contains(b)
}

proof fn lemma_filled(boards: Seq<Seq<Board>>, n: int)
    requires
        0 <= n <= boards.len(),
    ensures
        ({
            let f = pool::filled(boards, n);
            &&& f.len() <= n
            &&& forall|k: int| 0 <= k < f.len() ==> 0 <= #[trigger] f[k] < n && boards[f[k]].len() > 0
            &&& forall|j: int, k: int| 0 <= j < k < f.len() ==> #[trigger] f[j] < #[trigger] f[k]
            &&& forall|i: int|
                0 <= i < n && (#[trigger] boards[i]).len() > 0 ==> f.contains(i)
        }),
    decreases n,
{
    if n > 0 {
        lemma_filled(boards, n - 1);
        let (f, g) = (pool::filled(boards, n - 1), pool::filled(boards, n));
        assert forall|i: int| 0 <= i < n && (#[trigger] boards[i]).len() > 0 implies g.contains(
            i,
        ) by {
            if i < n - 1 {
                assert(f.contains(i));
                let k = choose|k: int| 0 <= k < f.len() && f[k] == i;
                assert(g[k] == i);
            } else {
                assert(g[g.len() - 1] == i);
            }
        }
    }
}

/// The stages that boards are drawn from are all that hold one, each once, lowest first.
pub proof fn boards_are_drawn_from_every_stage(boards: Seq<Seq<Board>>, i: int)
    ensures
        ({
            let f = pool::filled(boards, boards.len() as int);
            &&& f.contains(i) <==> 0 <= i < boards.len() && boards[i].len() > 0
            &&& forall|j: int, k: int| 0 <= j < k < f.len() ==> #[trigger] f[j] < #[trigger] f[k]
        }),
{
    lemma_filled(boards, boards.len() as int);
}

/// The first draw picks among the stages that hold boards, the second among the boards of that
/// stage, each evenly; both draws are used up. Without boards nothing is drawn.
pub proof fn saved_boards_come_by_two_draws(boards: Seq<Seq<Board>>, s: u64)
    requires
        boards.len() <= u32::MAX,
        forall|i: int| 0 <= i < boards.len() ==> (#[trigger] boards[i]).len() <= u32::MAX,
    ensures
        !any_saved(boards) ==> pool::drawn_board(boards, s) is None && pool::state_after_pick(
            boards,
            s,
        ) == s,
        any_saved(boards) ==> ({
            let f = pool::filled(boards, boards.len() as int);
            let (one, two) = (rng::advance(s), rng::advance(rng::advance(s)));
            &&& pool::state_after_pick(boards, s) == two
            &&& exists|k: int, q: int|
                {
                    &&& 0 <= k < f.len()
                    &&& 0 <= q < boards[f[k]].len()
                    &&& k == ((rng::drawn(one) / 0x1_0000_0000) * f.len()) / 0x1_0000_0000
                    &&& q == ((rng::drawn(two) / 0x1_0000_0000) * boards[f[k]].len())
                        / 0x1_0000_0000
                    &&& pool::drawn_board(boards, s) == Some(#[trigger] boards[f[k]][q])
                }
        }),
{
    lemma_filled(boards, boards.len() as int);
    let f = pool::filled(boards, boards.len() as int);
    if f.len() > 0 {
        assert(boards[f[0]].len() > 0);
        let (one, two) = (rng::advance(s), rng::advance(rng::advance(s)));
        rng::lemma_scaled((rng::drawn(one) / 0x1_0000_0000) as int, f.len() as int);
        let k = rng::drawn_below(one, f.len() as u32) as int;
        assert(0 <= f[k] < boards.len());
        let v = boards[f[k]];
        rng::lemma_scaled((rng::drawn(two) / 0x1_0000_0000) as int, v.len() as int);
        let q = rng::drawn_below(two, v.len() as u32) as int;
        assert(pool::drawn_board(boards, s) == Some(boards[f[k]][q]));
    }
    if any_saved(boards) {
        let i = choose|i: int| 0 <= i < boards.len() && (#[trigger] boards[i]).len() > 0;
        assert(f.contains(i));
    }
}

/// A board that comes to a full stage takes the place of a drawn one, each equally likely; the
/// draw is used up. With room left no draw is made.
pub proof fn full_stages_give_up_a_drawn_board(
    boards: Seq<Seq<Board>>,
    cap: nat,
    stage: int,
    b: Board,
    s: u64,
)
    requires
        0 <= stage < boards.len(),
        0 < boards[stage].len() <= u32::MAX,
    ensures
        ({
            let (old, new) = (boards[stage], pool::with_board(boards, cap, stage, b, s)[stage]);
            let one = rng::advance(s);
            let k = ((rng::drawn(one) / 0x1_0000_0000) * old.len()) / 0x1_0000_0000;
            &&& old.len() >= cap ==> 0 <= k < old.len() && new == old.update(k, b)
                && pool::state_after_add(boards, cap, stage, s) == one
            &&& old.len() < cap ==> new == old.push(b) && pool::state_after_add(
                boards,
                cap,
                stage,
                s,
            ) == s
        }),
{
    let old = boards[stage];
    let one = rng::advance(s);
    rng::lemma_scaled((rng::drawn(one) / 0x1_0000_0000) as int, old.len() as int);
}

/// A game starts from a saved board if that is wanted, the draw falls so, and there is one;
/// else anew, with two tiles, which makes it fresh. It has no points then, and no move behind
/// it. Where restarts are not wanted no draw is made for them.
pub proof fn games_start_anew_or_from_a_saved_board(
    e: Episode,
    l: LayoutView,
    boards: Seq<Seq<Board>>,
    s: u64,
    wanted: bool,
    hit: bool,
    state: u64,
)
    requires
        e.is_start(l, episode::restart_of(boards, s, wanted, hit), state),
        boards.len() <= u32::MAX,
        forall|i: int| 0 <= i < boards.len() ==> (#[trigger] boards[i]).len() <= u32::MAX,
    ensures
        e.score == 0,
        e.after is None,
        e.stage == l.stage(e.board),
        e.fresh <==> !(wanted && hit && any_saved(boards)),
        !e.fresh ==> is_saved(boards, e.board) && state == rng::advance(
            rng::advance(rng::advance(s)),
        ),
        e.fresh ==> has_two_tiles(e.board) && state == rng::advance(
            rng::advance(
                rng::advance(
                    rng::advance(
                        if wanted {
                            rng::advance(s)
                        } else {
                            s
                        },
                    ),
                ),
            ),
        ),
{
    let s0 = rng::advance(s);
    saved_boards_come_by_two_draws(boards, s0);
    lemma_filled(boards, boards.len() as int);
    new_games_open_with_two_tiles(episode::restart_of(boards, s, wanted, hit).1);
    if wanted && hit && any_saved(boards) {
        let f = pool::filled(boards, boards.len() as int);
        let (k, q) = choose|k: int, q: int|
            {
                &&& 0 <= k < f.len()
                &&& 0 <= q < boards[f[k]].len()
                &&& pool::drawn_board(boards, s0) == Some(#[trigger] boards[f[k]][q])
            };
        assert(boards[f[k]].contains(boards[f[k]][q]));
        assert(is_saved(boards, e.board));
    }
}

/// One move of a game: a direction that changes the board, its points on top of the score.
pub open spec fn is_move(from: Episode, to: Episode, d: Dir) -> bool {
    &&& board::moved(from.board, d) != from.board
    &&& to.after == Some(board::moved(from.board, d))
    &&& to.score == from.score + board::move_points(from.board, d) as u32
    &&& to.fresh == from.fresh
}

/// A turn of training makes a legal move if there is one, and else leaves the game as it is.
pub proof fn turns_make_a_legal_move<P, T, O, M, G>(
    t: Teacher<P, T, O, M, G>,
    alpha: u32,
    cap: nat,
    from: Moment,
    to: Moment,
) where
    P: Fn(u32, u32) -> u32,
    T: Fn(u32, u32) -> u32,
    O: Fn(u32, u32) -> u32,
    M: Fn(u32, u32) -> u32,
    G: Fn(u32, u32) -> u32,

    requires
        t.is_turn(alpha, cap, from, to),
        from.episode.score <= u64::MAX - u32::MAX,
    ensures
        (exists|d: Dir| #[trigger] board::moved(from.episode.board, d) != from.episode.board)
            ==> exists|d: Dir| #[trigger] is_move(from.episode, to.episode, d),
        (forall|d: Dir| #[trigger] board::moved(from.episode.board, d) == from.episode.board)
            ==> to.episode == from.episode && to.boards == from.boards && to.state == from.state,
{
    let values = choose|values: Seq<u32>| #[trigger] t.is_turn_by(alpha, cap, values, from, to);
    let ms = episode::moves(from.episode.board, 4);
    if exists|d: Dir| #[trigger] board::moved(from.episode.board, d) != from.episode.board {
        let d = choose|d: Dir| #[trigger] board::moved(from.episode.board, d)
            != from.episode.board;
        game_laws::legal_moves_are_all_listed(from.episode.board, d);
        assert(ms.len() > 0);
        floats::lemma_pick_in_range(values, values.len() as int);
        let e = ms[floats::best_among(values, values.len() as int)];
        game_laws::legal_moves_are_all_listed(from.episode.board, e.0);
        assert(is_move(from.episode, to.episode, e.0));
    } else {
        episode::games_end_without_moves(from.episode.board);
    }
}

/// A game that ends was played to its end: nothing can move on its last board, on every board
/// before it something could, and its result is that of the last board.
pub proof fn games_are_played_to_their_end<P, T, O, M, G>(
    t: Teacher<P, T, O, M, G>,
    alpha: u32,
    cap: nat,
    trace: Seq<Moment>,
    turns: int,
    r: EpisodeStats,
    j: int,
    d: Dir,
) where
    P: Fn(u32, u32) -> u32,
    T: Fn(u32, u32) -> u32,
    O: Fn(u32, u32) -> u32,
    M: Fn(u32, u32) -> u32,
    G: Fn(u32, u32) -> u32,

    requires
        t.is_game(alpha, cap, trace, turns, Some(r)),
        0 <= j < trace.len() - 2,
        trace[trace.len() - 2].episode.score <= u64::MAX - u32::MAX,
    ensures
        trace.len() - 1 <= turns,
        board::moved(trace.last().episode.board, d) == trace.last().episode.board,
        exists|c: Dir| #[trigger]
            board::moved(trace[j].episode.board, c) != trace[j].episode.board,
        r.score == trace.last().episode.score,
        r.fresh == trace.last().episode.fresh,
        board::cell(trace.last().episode.board, 0) <= r.max_rank,
{
    let n = trace.len() as int;
    let last = trace[n - 2];
    assert(t.is_next(alpha, cap, trace, n - 2));
    assert(!Teacher::<P, T, O, M, G>::goes_on(trace, n - 2));
    episode::games_end_without_moves(last.episode.board);
    assert forall|c: Dir| #[trigger] board::moved(last.episode.board, c)
        == last.episode.board by {
        game_laws::legal_moves_are_all_listed(last.episode.board, c);
    }
    turns_make_a_legal_move(t, alpha, cap, last, trace[n - 1]);
    assert(trace.last() == trace[n - 1]);
    assert(Teacher::<P, T, O, M, G>::goes_on(trace, j));
    let c = episode::moves(trace[j].episode.board, 4)[0].0;
    game_laws::legal_moves_are_all_listed(trace[j].episode.board, c);
    assert(board::moved(trace[j].episode.board, c) != trace[j].episode.board);
    game_laws::results_tell_the_largest_tile(trace.last().episode, 0);
}

/// A game that is broken off has made as many turns as it was given, and something can move on
/// every board that a turn began with.
pub proof fn broken_off_games_have_used_their_turns<P, T, O, M, G>(
    t: Teacher<P, T, O, M, G>,
    alpha: u32,
    cap: nat,
    trace: Seq<Moment>,
    turns: int,
    j: int,
) where
    P: Fn(u32, u32) -> u32,
    T: Fn(u32, u32) -> u32,
    O: Fn(u32, u32) -> u32,
    M: Fn(u32, u32) -> u32,
    G: Fn(u32, u32) -> u32,

    requires
        t.is_game(alpha, cap, trace, turns, None),
        0 <= j < trace.len() - 1,
    ensures
        trace.len() - 1 == turns,
        exists|c: Dir| #[trigger]
            board::moved(trace[j].episode.board, c) != trace[j].episode.board,
{
    assert(Teacher::<P, T, O, M, G>::goes_on(trace, j));
    let c = episode::moves(trace[j].episode.board, 4)[0].0;
    game_laws::legal_moves_are_all_listed(trace[j].episode.board, c);
    assert(board::moved(trace[j].episode.board, c) != trace[j].episode.board);
}

/// What training leaves behind is what the last turn left, and it began with what there was.
pub proof fn training_hands_on_what_it_learned<P, T, O, M, G>(
    t: Teacher<P, T, O, M, G>,
    alpha: u32,
    cap: nat,
    turns: int,
    wanted: bool,
    hit: bool,
    before: (NTupleView, Seq<Seq<Board>>, u64),
    after: (NTupleView, Seq<Seq<Board>>, u64),
    trace: Seq<Moment>,
    stats: Option<EpisodeStats>,
    j: int,
) where
    P: Fn(u32, u32) -> u32,
    T: Fn(u32, u32) -> u32,
    O: Fn(u32, u32) -> u32,
    M: Fn(u32, u32) -> u32,
    G: Fn(u32, u32) -> u32,

    requires
        t.is_training(alpha, cap, turns, wanted, hit, before, after, trace, stats),
    ensures
        trace.len() >= 1,
        trace[0].net == before.0,
        trace[0].boards == before.1,
        trace[0].episode.is_start(
            before.0.layout,
            episode::restart_of(before.1, before.2, wanted, hit),
            trace[0].state,
        ),
        trace[trace.len() - 1].net == after.0,
        trace[trace.len() - 1].boards == after.1,
        trace[trace.len() - 1].state == after.2,
        0 <= j < trace.len() - 1 ==> t.is_turn(alpha, cap, trace[j], trace[j + 1]),
{
    if 0 <= j < trace.len() - 1 {
        assert(t.is_next(alpha, cap, trace, j));
    }
}

/// One where something holds, else nothing.
pub open spec fn one_if(yes: bool) -> int {
    if yes {
        1
    } else {
        0
    }
}

/// By how much `a` is above `b`, in fourth powers.
pub open spec fn drop_of(a: int, b: int) -> int {
    if a > b {
        a * a * a * a - b * b * b * b
    } else {
        0
    }
}

/// The tiles of a line that have an equal neighbour.
pub open spec fn paired_tiles(ts: Seq<u8>) -> Set<int> {
    Set::new(
        |i: int|
            0 <= i < ts.len() && ((0 < i && ts[i - 1] == ts[i]) || (i < ts.len() - 1 && ts[i + 1]
                == ts[i])),
    )
}

proof fn lemma_paired(ts: Seq<u8>, n: int)
    requires
        0 <= n <= ts.len(),
    ensures
        ({
            let s = Set::new(|i: int| 0 <= i < n && paired_tiles(ts).contains(i));
            s.finite() && s.len() == ai::paired(ts, n)
        }),
    decreases n,
{
    let s = Set::new(|i: int| 0 <= i < n && paired_tiles(ts).contains(i));
    if n == 0 {
        assert(s =~= Set::empty());
    } else {
        lemma_paired(ts, n - 1);
        let t = Set::new(|i: int| 0 <= i < n - 1 && paired_tiles(ts).contains(i));
        if paired_tiles(ts).contains(n - 1) {
            assert(s =~= t.insert(n - 1));
        } else {
            assert(s =~= t);
        }
    }
}

/// What the heuristic sees in a line: how many cells are empty; how many tiles have an equal
/// neighbour once the empty cells are out; how far it falls and rises, step by step.
pub proof fn lines_show_empty_cells_pairs_and_slopes(l: Seq<u8>, f: Features)
    requires
        l.len() == 4,
        ai::is_features(l, f),
    ensures
        f.empty == one_if(l[0] == 0) + one_if(l[1] == 0) + one_if(l[2] == 0) + one_if(l[3] == 0),
        paired_tiles(l.filter(|r: u8| r != 0)).finite(),
        f.merges == paired_tiles(l.filter(|r: u8| r != 0)).len(),
        f.falls == drop_of(l[0] as int, l[1] as int) + drop_of(l[1] as int, l[2] as int) + drop_of(
            l[2] as int,
            l[3] as int,
        ),
        f.rises == drop_of(l[1] as int, l[0] as int) + drop_of(l[2] as int, l[1] as int) + drop_of(
            l[3] as int,
            l[2] as int,
        ),
{
    assert(l.take(0) =~= seq![]);
    board::lemma_count_step(l, 0, 0);
    board::lemma_count_step(l, 0, 1);
    board::lemma_count_step(l, 0, 2);
    board::lemma_count_step(l, 0, 3);
    assert(l.take(4) =~= l);
    reveal_with_fuel(ai::falls, 5);
    reveal_with_fuel(ai::rises, 5);
    move_laws::tiles_are_the_filled_cells(l);
    let ts = l.filter(|r: u8| r != 0);
    lemma_paired(ts, ts.len() as int);
    let s = Set::new(|i: int| 0 <= i < ts.len() && paired_tiles(ts).contains(i));
    assert(s =~= paired_tiles(ts));
}

}
