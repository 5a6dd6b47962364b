//! A training game: greedy moves by the network's values, and what is learnt from each. The
//! caller reads and moves the weights; all values are bit patterns of 32-bit floats.

use crate::board;
use crate::board::{max_rank, spawn, Board, Dir, Tables, DIRS};
use crate::floats;
use crate::floats::{greater32, pick_best};
use crate::ntuple::{Layout, LayoutView};
use crate::pool;
use crate::pool::RestartPool;
use crate::rng;
use crate::rng::Rng;
use vstd::prelude::*;

verus! {

/// The legal moves among the first `n` directions, each with the board after it and its
/// points.
pub open spec fn moves(b: Board, n: int) -> Seq<(Dir, Board, u32)>
    decreases n,
{
    if n <= 0 {
        seq![]
    } else {
        let d = DIRS@[n - 1];
        if board::moved(b, d) == b {
            moves(b, n - 1)
        } else {
            moves(b, n - 1).push((d, board::moved(b, d), board::move_points(b, d) as u32))
        }
    }
}

/// The legal moves, in the order in which they are tried.
pub fn legal_moves(t: &Tables, b: Board) -> (out: Vec<(Dir, Board, u32)>)
    ensures
        out@ == moves(b, 4),
{
    let dirs: [Dir; 4] = DIRS;
    let mut out: Vec<(Dir, Board, u32)> = Vec::new();
    let mut i: usize = 0;
    while i < 4
        invariant
            i <= 4,
            dirs@ == DIRS@,
            out@ == moves(b, i as int),
        decreases 4 - i,
    {
        let d: Dir = dirs[i];
        let (nb, points) = t.apply(b, d);
        if nb != b {
            out.push((d, nb, points));
        }
        i += 1;
    }
    out
}

/// How a game ended.
#[derive(Clone, Copy, Debug, PartialEq, Eq, Structural)]
pub struct EpisodeStats {
    pub score: u64,
    pub max_rank: u8,
    /// False when the episode started from a restart-pool board.
    pub fresh: bool,
}

/// A game in progress.
pub struct Episode {
    pub board: Board,
    /// The highest stage the game has entered.
    pub stage: usize,
    /// The board after the last move, before its new tile.
    pub after: Option<Board>,
    pub score: u64,
    pub fresh: bool,
}

/// What a turn asks of the caller.
#[derive(Clone, Copy, Debug, PartialEq, Eq)]
pub struct Turn {
    /// A board, and the value that it should be worth.
    pub learn: Option<(Board, u32)>,
    pub over: bool,
}

/// The saved board a game starts from, if any, and the generator's state then. A draw is made
/// only where restarts are asked for.
pub open spec fn restart_of(boards: Seq<Seq<Board>>, s: u64, wanted: bool, hit: bool) -> (
    Option<Board>,
    u64,
) {
    if !wanted {
        (None, s)
    } else if !hit {
        (None, rng::advance(s))
    } else {
        (
            pool::drawn_board(boards, rng::advance(s)),
            pool::state_after_pick(boards, rng::advance(s)),
        )
    }
}

/// A new game's board: two new tiles.
pub open spec fn opening(s: u64) -> Board {
    board::spawned(board::spawned(0, s), board::after_spawn(0, s))
}

/// The generator's state after a new game's two tiles.
pub open spec fn state_after_opening(s: u64) -> u64 {
    board::after_spawn(board::spawned(0, s), board::after_spawn(0, s))
}

/// A new game's board.
pub fn open_game(rng: &mut Rng) -> (b: Board)
    ensures
        b == opening(old(rng).0),
        final(rng).0 == state_after_opening(old(rng).0),
{
    let first: Board = spawn(0, rng);
    spawn(first, rng)
}

/// Everything after a turn.
pub struct Outcome {
    pub episode: Episode,
    pub turn: Turn,
    pub boards: Seq<Seq<Board>>,
    pub state: u64,
}

impl Episode {
    /// The game after the move to `after` for `points`, in generator state `s`.
    pub open spec fn moved_on(self, l: LayoutView, after: Board, points: u32, s: u64) -> Episode {
        let nb = board::spawned(after, s);
        Episode {
            board: nb,
            stage: if l.stage(nb) > self.stage {
                l.stage(nb) as usize
            } else {
                self.stage
            },
            after: Some(after),
            score: (self.score + points) as u64,
            fresh: self.fresh,
        }
    }

    /// A turn whose legal moves are worth `values`: the first best one is made, and the board
    /// before it should have been worth as much; at the end it should have been worth zero. A
    /// board that enters a higher stage is saved.
    pub open spec fn turned(
        self,
        l: LayoutView,
        values: Seq<u32>,
        boards: Seq<Seq<Board>>,
        cap: nat,
        s: u64,
    ) -> Outcome {
        let options = moves(self.board, 4);
        if options.len() == 0 {
            Outcome {
                episode: self,
                turn: Turn {
                    learn: match self.after {
                        Some(p) => Some((p, 0u32)),
                        None => None,
                    },
                    over: true,
                },
                boards,
                state: s,
            }
        } else {
            let k = floats::best_among(values, values.len() as int);
            let (_, after, points) = options[k];
            let next = self.moved_on(l, after, points, s);
            let s1 = board::after_spawn(after, s);
            let rises = next.stage > self.stage;
            Outcome {
                episode: next,
                turn: Turn {
                    learn: match self.after {
                        Some(p) => Some((p, values[k])),
                        None => None,
                    },
                    over: false,
                },
                boards: if rises {
                    pool::with_board(boards, cap, next.stage as int, next.board, s1)
                } else {
                    boards
                },
                state: if rises {
                    pool::state_after_add(boards, cap, next.stage as int, s1)
                } else {
                    s1
                },
            }
        }
    }

    /// The turn can be made: one value per legal move, the score still counts, and the pool
    /// has a place for a board of a higher stage.
    pub open spec fn can_turn(
        self,
        l: LayoutView,
        values: Seq<u32>,
        boards: Seq<Seq<Board>>,
        cap: nat,
        s: u64,
    ) -> bool {
        let options = moves(self.board, 4);
        &&& values.len() == options.len()
        &&& options.len() > 0 ==> {
            let (_, after, points) = options[floats::best_among(values, values.len() as int)];
            let next = self.moved_on(l, after, points, s);
            &&& self.score + points <= u64::MAX
            &&& next.stage > self.stage ==> pool::takes(boards, cap, next.stage as int)
        }
    }

    /// A game's start, from a saved board or anew, that leaves the generator in `state`.
    pub open spec fn is_start(self, l: LayoutView, from: (Option<Board>, u64), state: u64) -> bool {
        let b = match from.0 {
            Some(b) => b,
            None => opening(from.1),
        };
        &&& self.board == b
        &&& self.stage == l.stage(b)
        &&& self.after is None
        &&& self.score == 0
        &&& self.fresh == (from.0 is None)
        &&& state == match from.0 {
            Some(_) => from.1,
            None => state_after_opening(from.1),
        }
    }

    /// Starts a game. `restart` is the share of games that start from a saved board; `hits`
    /// says whether a draw from a million falls into that share.
    pub fn start<H: Fn(u32) -> bool>(
        layout: &Layout,
        saved: &RestartPool,
        rng: &mut Rng,
        restart: u32,
        hits: H,
    ) -> (e: Episode)
        requires
            layout.wf(),
            forall|d: u32| call_requires(hits, (d,)),
        ensures
            exists|hit: bool|
                (floats::above32(restart, 0) ==> call_ensures(
                    hits,
                    (rng::drawn_below(rng::advance(old(rng).0), 1_000_000),),
                    hit,
                )) && #[trigger] e.is_start(
                    layout@,
                    restart_of(saved.boards(), old(rng).0, floats::above32(restart, 0), hit),
                    final(rng).0,
                ),
    {
        let mut from: Option<Board> = None;
        let ghost wanted = floats::above32(restart, 0);
        let ghost mut did_hit = false;
        if greater32(restart, 0) {
            let d: u32 = rng.below(1_000_000);
            let hit: bool = hits(d);
            proof {
                did_hit = hit;
            }
            if hit {
                from = saved.pick(rng);
            }
        }
        assert(restart_of(saved.boards(), old(rng).0, wanted, did_hit) == (from, rng.0));
        let fresh: bool = from.is_none();
        let b: Board = match from {
            Some(b) => b,
            None => open_game(rng),
        };
        let stage: usize = layout.stage(b);
        let e: Episode = Episode { board: b, stage, after: None, score: 0, fresh };
        assert(e.is_start(
            layout@,
            restart_of(saved.boards(), old(rng).0, wanted, did_hit),
            rng.0,
        ));
        e
    }

    /// Plays a turn: `values` holds what each legal move is worth, points and board together.
    pub fn turn(
        &mut self,
        t: &Tables,
        layout: &Layout,
        values: &[u32],
        saved: &mut RestartPool,
        rng: &mut Rng,
    ) -> (turn: Turn)
        requires
            layout.wf(),
            old(self).can_turn(
                layout@,
                values@,
                old(saved).boards(),
                old(saved).cap(),
                old(rng).0,
            ),
        ensures
            ({
                let o = old(self).turned(
                    layout@,
                    values@,
                    old(saved).boards(),
                    old(saved).cap(),
                    old(rng).0,
                );
                &&& *final(self) == o.episode
                &&& turn == o.turn
                &&& final(saved).boards() == o.boards
                &&& final(rng).0 == o.state
            }),
            final(saved).cap() == old(saved).cap(),
    {
        let options: Vec<(Dir, Board, u32)> = legal_moves(t, self.board);
        match pick_best(values) {
            None => {
                let learn: Option<(Board, u32)> = match self.after {
                    Some(p) => Some((p, 0)),
                    None => None,
                };
                Turn { learn, over: true }
            },
            Some(k) => {
                let learn: Option<(Board, u32)> = match self.after {
                    Some(p) => Some((p, values[k])),
                    None => None,
                };
                let (_, after, points): (Dir, Board, u32) = options[k];
                self.score = self.score + points as u64;
                self.after = Some(after);
                self.board = spawn(after, rng);
                let s: usize = layout.stage(self.board);
                if s > self.stage {
                    self.stage = s;
                    saved.add(s, self.board, rng);
                }
                Turn { learn, over: false }
            },
        }
    }

    /// The game's result so far.
    pub open spec fn result(self) -> EpisodeStats {
        EpisodeStats {
            score: self.score,
            max_rank: board::top_rank(self.board) as u8,
            fresh: self.fresh,
        }
    }

    /// The game's result so far.
    pub fn stats(&self) -> (r: EpisodeStats)
        ensures
            r == self.result(),
    {
        EpisodeStats { score: self.score, max_rank: max_rank(self.board), fresh: self.fresh }
    }
}

/// The golden ratio's bits, which spread consecutive seeds over all states.
pub const SPREAD: u64 = 0x9E37_79B9_7F4A_7C15;

/// A generator state from a seed; odd, so never the stuck state 0.
pub open spec fn seeded(x: u64) -> u64 {
    (((x * SPREAD) % 0x1_0000_0000_0000_0000) as u64) | 1
}

/// A generator for a seed.
pub fn seed_rng(x: u64) -> (r: Rng)
    ensures
        r.0 == seeded(x),
        r.0 != 0,
{
    let y: u64 = x.wrapping_mul(SPREAD);
    assert(y | 1 != 0) by (bit_vector);
    Rng(y | 1)
}

/// A generator for one of several threads: each has its own.
pub fn thread_rng(seed: u64, thread: u64) -> (r: Rng)
    requires
        thread < u64::MAX,
    ensures
        r.0 == seeded(seed ^ ((thread + 1) as u64)),
        r.0 != 0,
{
    seed_rng(seed ^ (thread + 1))
}

/// A game ends exactly when no move changes the board.
pub proof fn games_end_without_moves(b: Board)
    ensures
        moves(b, 4).len() == 0 <==> forall|d: Dir| #[trigger] board::moved(b, d) == b,
{
    reveal_with_fuel(moves, 5);
    assert(DIRS@[0] == Dir::Up && DIRS@[1] == Dir::Down && DIRS@[2] == Dir::Left && DIRS@[3]
        == Dir::Right);
    if forall|d: Dir| #[trigger] board::moved(b, d) == b {
        assert(board::moved(b, Dir::Up) == b);
        assert(board::moved(b, Dir::Down) == b);
        assert(board::moved(b, Dir::Left) == b);
        assert(board::moved(b, Dir::Right) == b);
    }
    if moves(b, 4).len() == 0 {
        assert forall|d: Dir| #[trigger] board::moved(b, d) == b by {
            match d {
                Dir::Up => {},
                Dir::Down => {},
                Dir::Left => {},
                Dir::Right => {},
            }
        }
    }
}

/// In a game the stage never falls and the score never falls, and a board is saved only when
/// it enters a stage that the game had not reached.
pub proof fn episodes_only_advance(
    e: Episode,
    l: LayoutView,
    values: Seq<u32>,
    boards: Seq<Seq<Board>>,
    cap: nat,
    s: u64,
)
    requires
        l.valid(),
        e.can_turn(l, values, boards, cap, s),
    ensures
        ({
            let o = e.turned(l, values, boards, cap, s);
            &&& o.episode.stage >= e.stage
            &&& o.episode.score >= e.score
            &&& o.episode.stage == e.stage ==> o.boards == boards
            &&& o.episode.stage > e.stage ==> o.episode.stage == l.stage(o.episode.board)
            &&& o.turn.over ==> o.episode == e
        }),
{
}

}
