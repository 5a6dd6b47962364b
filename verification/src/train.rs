//! Training games: each greedy move teaches the network what the board before it was worth,
//! by TD(0) on afterstates. All values are bit patterns of 32-bit floats.

use crate::board;
use crate::board::{Board, Dir, Tables};
use crate::episode;
use crate::episode::{legal_moves, Episode, EpisodeStats, Turn};
use crate::floats;
use crate::learn::Rule;
use crate::ntuple;
use crate::ntuple::{Layout, LayoutView, NTuple, NTupleView};
use crate::pool;
use crate::pool::RestartPool;
use crate::rng;
use crate::rng::Rng;
use vstd::prelude::*;

verus! {

/// The arithmetic that training needs.
pub struct Teacher<P, T, O, M, G> {
    pub rule: Rule<P, T, O>,
    /// What sums start from.
    pub zero: u32,
    /// The difference of two numbers.
    pub minus: M,
    /// What a move for so many points is worth, given the value of the board after it.
    pub gain: G,
}

/// Everything that training changes, before or after a turn.
pub struct Moment {
    pub net: NTupleView,
    pub episode: Episode,
    pub boards: Seq<Seq<Board>>,
    pub state: u64,
}

/// Every stage that a game can enter later has a place for its board.
pub open spec fn has_places(l: LayoutView, boards: Seq<Seq<Board>>, cap: nat) -> bool {
    forall|s: int| 1 <= s < l.stages ==> #[trigger] pool::takes(boards, cap, s)
}

proof fn lemma_turn_fits(
    e: Episode,
    l: LayoutView,
    values: Seq<u32>,
    boards: Seq<Seq<Board>>,
    cap: nat,
    s: u64,
)
    requires
        l.valid(),
        values.len() == episode::moves(e.board, 4).len(),
        has_places(l, boards, cap),
        forall|i: int| 0 <= i < boards.len() ==> (#[trigger] boards[i]).len() <= usize::MAX,
        e.score <= u64::MAX - u32::MAX,
    ensures
        e.can_turn(l, values, boards, cap, s),
        has_places(l, e.turned(l, values, boards, cap, s).boards, cap),
        e.turned(l, values, boards, cap, s).episode.score <= e.score + u32::MAX,
{
    let options = episode::moves(e.board, 4);
    if options.len() > 0 {
        floats::lemma_pick_in_range(values, values.len() as int);
        let (_, after, points) = options[floats::best_among(values, values.len() as int)];
        let next = e.moved_on(l, after, points, s);
        if next.stage > e.stage {
            assert(pool::takes(boards, cap, next.stage as int));
            let o = e.turned(l, values, boards, cap, s);
            assert forall|k: int| 1 <= k < l.stages implies #[trigger] pool::takes(
                o.boards,
                cap,
                k,
            ) by {
                assert(pool::takes(boards, cap, k));
                pool::stages_stay_within_the_cap(
                    boards,
                    cap,
                    next.stage as int,
                    next.board,
                    board::after_spawn(after, s),
                    k,
                );
            }
        }
    }
}

impl<P, T, O, M, G> Teacher<P, T, O, M, G> where
    P: Fn(u32, u32) -> u32,
    T: Fn(u32, u32) -> u32,
    O: Fn(u32, u32) -> u32,
    M: Fn(u32, u32) -> u32,
    G: Fn(u32, u32) -> u32,
 {
    /// The arithmetic works on all numbers.
    pub open spec fn total(self) -> bool {
        &&& self.rule.total()
        &&& forall|x: u32, y: u32| call_requires(self.minus, (x, y))
        &&& forall|n: u32, x: u32| call_requires(self.gain, (n, x))
    }

    /// `x` is what the network says of `b`.
    pub open spec fn is_value(self, net: NTupleView, b: Board, x: u32) -> bool {
        ntuple::is_value(self.rule.plus, self.zero, net, b, x)
    }

    /// `v` is what a move to `b` for `points` is worth.
    pub open spec fn is_worth(self, net: NTupleView, b: Board, points: u32, v: u32) -> bool {
        exists|x: u32| #[trigger]
            self.is_value(net, b, x) && call_ensures(self.gain, (points, x), v)
    }

    /// `values` are what the moves are worth.
    pub open spec fn are_worth(
        self,
        net: NTupleView,
        options: Seq<(Dir, Board, u32)>,
        values: Seq<u32>,
    ) -> bool {
        &&& values.len() == options.len()
        &&& forall|k: int|
            0 <= k < values.len() ==> self.is_worth(
                net,
                options[k].1,
                options[k].2,
                #[trigger] values[k],
            )
    }

    /// The network learns that `p` is worth `target`: its error is the difference to what it
    /// says.
    pub open spec fn is_corrected(
        self,
        alpha: u32,
        p: Board,
        target: u32,
        from: NTupleView,
        to: NTupleView,
    ) -> bool {
        exists|x: u32, err: u32|
            {
                &&& #[trigger] self.is_value(from, p, x)
                &&& #[trigger] call_ensures(self.minus, (target, x), err)
                &&& ntuple::is_updated(self.rule, alpha, err, p, from, to)
            }
    }

    /// The network learns what a turn asks for, if anything.
    pub open spec fn is_taught(
        self,
        alpha: u32,
        learn: Option<(Board, u32)>,
        from: NTupleView,
        to: NTupleView,
    ) -> bool {
        match learn {
            Some(l) => self.is_corrected(alpha, l.0, l.1, from, to),
            None => to == from,
        }
    }

    /// A turn played by the values `values`.
    pub open spec fn is_turn_by(
        self,
        alpha: u32,
        cap: nat,
        values: Seq<u32>,
        from: Moment,
        to: Moment,
    ) -> bool {
        let o = from.episode.turned(from.net.layout, values, from.boards, cap, from.state);
        &&& self.are_worth(from.net, episode::moves(from.episode.board, 4), values)
        &&& to.episode == o.episode
        &&& to.boards == o.boards
        &&& to.state == o.state
        &&& self.is_taught(alpha, o.turn.learn, from.net, to.net)
    }

    /// A turn of training: the move that the network says is worth most is made, and what it
    /// is worth is taught to the board before it.
    pub open spec fn is_turn(self, alpha: u32, cap: nat, from: Moment, to: Moment) -> bool {
        exists|values: Seq<u32>| #[trigger] self.is_turn_by(alpha, cap, values, from, to)
    }

    /// Turn `j` of a game.
    pub open spec fn is_next(self, alpha: u32, cap: nat, trace: Seq<Moment>, j: int) -> bool {
        self.is_turn(alpha, cap, trace[j], trace[j + 1])
    }

    /// `trace` are the moments before, between and after the turns of a game.
    pub open spec fn are_turns(self, alpha: u32, cap: nat, trace: Seq<Moment>) -> bool {
        &&& trace.len() >= 1
        &&& forall|j: int|
            0 <= j < trace.len() - 1 ==> #[trigger] self.is_next(alpha, cap, trace, j)
    }

    /// The board before turn `j` has a move.
    pub open spec fn goes_on(trace: Seq<Moment>, j: int) -> bool {
        episode::moves(trace[j].episode.board, 4).len() > 0
    }

    /// A game of at most `turns` turns: it ends with the turn that finds no move, or after so
    /// many.
    pub open spec fn is_game(
        self,
        alpha: u32,
        cap: nat,
        trace: Seq<Moment>,
        turns: int,
        stats: Option<EpisodeStats>,
    ) -> bool {
        &&& self.are_turns(alpha, cap, trace)
        &&& trace.len() - 1 <= turns
        &&& match stats {
            Some(r) => {
                &&& trace.len() >= 2
                &&& forall|j: int| 0 <= j < trace.len() - 2 ==> #[trigger] Self::goes_on(trace, j)
                &&& !Self::goes_on(trace, trace.len() - 2)
                &&& r == trace.last().episode.result()
            },
            None => {
                &&& trace.len() - 1 == turns
                &&& forall|j: int| 0 <= j < trace.len() - 1 ==> #[trigger] Self::goes_on(trace, j)
            },
        }
    }

    /// A game from its start on, that turns the network, the saved boards and the generator's
    /// state from `before` to `after`.
    pub open spec fn is_training(
        self,
        alpha: u32,
        cap: nat,
        turns: int,
        wanted: bool,
        hit: bool,
        before: (NTupleView, Seq<Seq<Board>>, u64),
        after: (NTupleView, Seq<Seq<Board>>, u64),
        trace: Seq<Moment>,
        stats: Option<EpisodeStats>,
    ) -> bool {
        let (first, last) = (trace.first(), trace.last());
        &&& self.is_game(alpha, cap, trace, turns, stats)
        &&& first.net == before.0
        &&& first.boards == before.1
        &&& first.episode.is_start(
            before.0.layout,
            episode::restart_of(before.1, before.2, wanted, hit),
            first.state,
        )
        &&& (last.net, last.boards, last.state) == after
    }

    /// What a move to `b` for `points` is worth.
    fn worth(&self, net: &NTuple, b: Board, points: u32) -> (v: u32)
        requires
            self.total(),
            net.wf(),
        ensures
            self.is_worth(net@, b, points, v),
    {
        let x: u32 = net.value(b, self.zero, &self.rule.plus);
        assert(self.is_value(net@, b, x));
        (self.gain)(points, x)
    }

    /// What each move is worth.
    pub fn values(&self, net: &NTuple, options: &Vec<(Dir, Board, u32)>) -> (values: Vec<u32>)
        requires
            self.total(),
            net.wf(),
        ensures
            self.are_worth(net@, options@, values@),
    {
        let mut values: Vec<u32> = Vec::new();
        let mut k: usize = 0;
        while k < options.len()
            invariant
                self.total(),
                net.wf(),
                k <= options@.len(),
                values@.len() == k,
                forall|j: int|
                    0 <= j < k ==> self.is_worth(
                        net@,
                        options@[j].1,
                        options@[j].2,
                        #[trigger] values@[j],
                    ),
            decreases options@.len() - k,
        {
            let (_, b, points): (Dir, Board, u32) = options[k];
            let v: u32 = self.worth(net, b, points);
            values.push(v);
            k += 1;
        }
        values
    }

    /// Teaches the network that `p` is worth `target`.
    pub fn correct(&self, net: &mut NTuple, alpha: u32, p: Board, target: u32)
        requires
            self.total(),
            old(net).wf(),
        ensures
            final(net).wf(),
            self.is_corrected(alpha, p, target, old(net)@, final(net)@),
    {
        let x: u32 = net.value(p, self.zero, &self.rule.plus);
        assert(self.is_value(net@, p, x));
        let err: u32 = (self.minus)(target, x);
        net.update(p, alpha, err, &self.rule);
    }

    /// Plays one greedy (1-ply) game of at most `turns` turns, learning from it with TD(0) on
    /// afterstates. It may start from a saved endgame board: `restart` is the share of such
    /// games, and `hits` says whether a draw from a million falls into that share.
    pub fn train_episode<H: Fn(u32) -> bool>(
        &self,
        net: &mut NTuple,
        t: &Tables,
        rng: &mut Rng,
        alpha: u32,
        saved: &mut RestartPool,
        restart: u32,
        hits: H,
        turns: u32,
    ) -> (stats: Option<EpisodeStats>)
        requires
            self.total(),
            old(net).wf(),
            has_places(old(net)@.layout, old(saved).boards(), old(saved).cap()),
            forall|d: u32| call_requires(hits, (d,)),
        ensures
            final(net).wf(),
            final(net)@.layout == old(net)@.layout,
            final(saved).cap() == old(saved).cap(),
            has_places(final(net)@.layout, final(saved).boards(), final(saved).cap()),
            exists|hit: bool, trace: Seq<Moment>| #[trigger]
                self.is_training(
                    alpha,
                    old(saved).cap(),
                    turns as int,
                    floats::above32(restart, 0),
                    hit,
                    (old(net)@, old(saved).boards(), old(rng).0),
                    (final(net)@, final(saved).boards(), final(rng).0),
                    trace,
                    stats,
                ) && (floats::above32(restart, 0) ==> call_ensures(
                    hits,
                    (rng::drawn_below(rng::advance(old(rng).0), 1_000_000),),
                    hit,
                )),
    {
        let ghost before = (net@, saved.boards(), rng.0);
        let ghost wanted = floats::above32(restart, 0);
        let mut e: Episode = Episode::start(net.layout(), saved, rng, restart, hits);
        let ghost hit = choose|hit: bool|
            (wanted ==> call_ensures(
                hits,
                (rng::drawn_below(rng::advance(before.2), 1_000_000),),
                hit,
            )) && #[trigger] e.is_start(
                before.0.layout,
                episode::restart_of(before.1, before.2, wanted, hit),
                rng.0,
            );
        let ghost first = Moment {
            net: net@,
            episode: e,
            boards: saved.boards(),
            state: rng.0,
        };
        let ghost mut trace: Seq<Moment> = seq![first];
        let ghost cap = saved.cap();
        let ghost l = net@.layout;
        let mut k: u32 = 0;
        while k < turns
            invariant
                k <= turns,
                self.total(),
                net.wf(),
                net@.layout == l,
                l == old(net)@.layout,
                saved.cap() == cap,
                cap == old(saved).cap(),
                has_places(l, saved.boards(), cap),
                e.score <= k * (u32::MAX as int),
                trace.len() == k + 1,
                trace.first() == first,
                trace.last() == (Moment {
                    net: net@,
                    episode: e,
                    boards: saved.boards(),
                    state: rng.0,
                }),
                self.are_turns(alpha, cap, trace),
                forall|j: int| 0 <= j < k ==> #[trigger] Self::goes_on(trace, j),
                before == (old(net)@, old(saved).boards(), old(rng).0),
                wanted == floats::above32(restart, 0),
                wanted ==> call_ensures(
                    hits,
                    (rng::drawn_below(rng::advance(before.2), 1_000_000),),
                    hit,
                ),
                first.net == before.0,
                first.boards == before.1,
                first.episode.is_start(
                    l,
                    episode::restart_of(before.1, before.2, wanted, hit),
                    first.state,
                ),
            decreases turns - k,
        {
            let over: bool = self.train_turn(net, t, &mut e, rng, alpha, saved);
            let ghost now = Moment {
                net: net@,
                episode: e,
                boards: saved.boards(),
                state: rng.0,
            };
            let ghost trace0 = trace;
            proof {
                trace = trace.push(now);
                assert forall|j: int| 0 <= j < trace.len() - 1 implies #[trigger] self.is_next(
                    alpha,
                    cap,
                    trace,
                    j,
                ) by {
                    if j < k {
                        assert(self.is_next(alpha, cap, trace0, j));
                        assert(trace[j] == trace0[j] && trace[j + 1] == trace0[j + 1]);
                    }
                }
                assert forall|j: int| 0 <= j < k implies #[trigger] Self::goes_on(trace, j) by {
                    assert(Self::goes_on(trace0, j));
                }
            }
            k += 1;
            if over {
                let stats: EpisodeStats = e.stats();
                assert(self.is_training(
                    alpha,
                    cap,
                    turns as int,
                    wanted,
                    hit,
                    before,
                    (net@, saved.boards(), rng.0),
                    trace,
                    Some(stats),
                ));
                return Some(stats);
            }
        }
        assert(self.is_training(
            alpha,
            cap,
            turns as int,
            wanted,
            hit,
            before,
            (net@, saved.boards(), rng.0),
            trace,
            None,
        ));
        None
    }

    /// Plays one turn and learns from it; true where the game is over.
    pub fn train_turn(
        &self,
        net: &mut NTuple,
        t: &Tables,
        e: &mut Episode,
        rng: &mut Rng,
        alpha: u32,
        saved: &mut RestartPool,
    ) -> (over: bool)
        requires
            self.total(),
            old(net).wf(),
            has_places(old(net)@.layout, old(saved).boards(), old(saved).cap()),
            old(e).score <= u64::MAX - u32::MAX,
        ensures
            final(net).wf(),
            final(net)@.layout == old(net)@.layout,
            final(saved).cap() == old(saved).cap(),
            has_places(final(net)@.layout, final(saved).boards(), final(saved).cap()),
            final(e).score <= old(e).score + u32::MAX,
            over == (episode::moves(old(e).board, 4).len() == 0),
            self.is_turn(
                alpha,
                old(saved).cap(),
                Moment {
                    net: old(net)@,
                    episode: *old(e),
                    boards: old(saved).boards(),
                    state: old(rng).0,
                },
                Moment {
                    net: final(net)@,
                    episode: *final(e),
                    boards: final(saved).boards(),
                    state: final(rng).0,
                },
            ),
    {
        let options: Vec<(Dir, Board, u32)> = legal_moves(t, e.board);
        let values: Vec<u32> = self.values(net, &options);
        let layout: &Layout = net.layout();
        proof {
            pool::lemma_sizes_fit(*saved);
            lemma_turn_fits(*e, layout@, values@, saved.boards(), saved.cap(), rng.0);
        }
        let ghost from = Moment {
            net: net@,
            episode: *e,
            boards: saved.boards(),
            state: rng.0,
        };
        let ghost cap = saved.cap();
        let turn: Turn = e.turn(t, layout, &values, saved, rng);
        if let Some((p, target)) = turn.learn {
            self.correct(net, alpha, p, target);
        }
        assert(self.is_turn_by(
            alpha,
            cap,
            values@,
            from,
            Moment { net: net@, episode: *e, boards: saved.boards(), state: rng.0 },
        ));
        turn.over
    }
}

}
