//! The command line and the reports of `bench` and `train`.

use crate::board;
use crate::board::{max_rank, spawn, Board, Dir, Tables};
use crate::chunk;
use crate::episode;
use crate::episode::{open_game, seed_rng, EpisodeStats};
use crate::rng::Rng;
use crate::sort;
use crate::sort::sorted;
use crate::text;
use crate::text::{is_text, strip_prefix, to_chars};
use vstd::prelude::*;

verus! {

/// The first place of `name` among the first `n` arguments, or `n`.
pub open spec fn place_of(args: Seq<String>, name: Seq<char>, i: int) -> int
    decreases args.len() - i,
{
    if i >= args.len() || args[i]@ == name {
        i
    } else {
        place_of(args, name, i + 1)
    }
}

/// The argument after a flag, if there is one.
pub fn flag(args: &Vec<String>, name: &str) -> (v: Option<String>)
    ensures
        ({
            let i = place_of(args@, name@, 0);
            match v {
                Some(s) => i + 1 < args@.len() && s@ == args@[i + 1]@,
                None => i + 1 >= args@.len(),
            }
        }),
{
    let n: Vec<char> = to_chars(name);
    let mut i: usize = 0;
    while i < args.len() && !is_text(n.as_slice(), args[i].as_str())
        invariant
            i <= args@.len(),
            n@ == name@,
            place_of(args@, name@, i as int) == place_of(args@, name@, 0),
        decreases args@.len() - i,
    {
        i += 1;
    }
    if i < args.len() && i + 1 < args.len() {
        Some(args[i + 1].clone())
    } else {
        None
    }
}

/// An argument is a flag.
pub open spec fn is_flag(a: Seq<char>) -> bool {
    text::after_prefix(a, "--"@) is Some
}

/// The arguments from place `i` on that are neither flags nor follow one.
pub open spec fn positional_from(args: Seq<String>, i: int) -> Seq<Seq<char>>
    decreases
            if i < args.len() {
                args.len() - i
            } else {
                0
            },
{
    if i >= args.len() {
        seq![]
    } else if is_flag(args[i]@) {
        positional_from(args, i + 2)
    } else {
        seq![args[i]@] + positional_from(args, i + 1)
    }
}

/// The arguments that are neither flags nor follow one.
pub fn positional(args: &Vec<String>) -> (out: Vec<String>)
    ensures
        text::contents(out@) == positional_from(args@, 0),
{
    let dashes: Vec<char> = to_chars("--");
    let n: usize = args.len();
    let mut out: Vec<String> = Vec::new();
    let mut i: usize = 0;
    let ghost all = positional_from(args@, 0);
    assert(text::contents(out@) + all =~= all);
    while i < n
        invariant
            n == args@.len(),
            dashes@ == "--"@,
            text::contents(out@) + positional_from(args@, i as int) == positional_from(args@, 0),
        decreases n - i,
    {
        if strip_prefix(to_chars(args[i].as_str()).as_slice(), dashes.as_slice()).is_some() {
            assert(is_flag(args@[i as int]@));
            if n - i < 2 {
                assert(positional_from(args@, i + 2) =~= positional_from(args@, n as int));
                i = n;
            } else {
                i += 2;
            }
        } else {
            let s: String = args[i].clone();
            let ghost before = out@;
            out.push(s);
            proof {
                assert(text::contents(out@) =~= text::contents(before).push(s@));
                assert(text::contents(before) + (seq![s@] + positional_from(args@, i + 1)) =~= text::contents(
                    out@,
                ) + positional_from(args@, i + 1));
            }
            i += 1;
        }
    }
    assert(text::contents(out@) + Seq::<Seq<char>>::empty() =~= text::contents(out@));
    out
}

/// How many threads play `games` games on a machine that can run `available` at once.
pub fn thread_count(available: usize, games: u64) -> (n: usize)
    ensures
        ({
            let cap = (if games > 1 {
                games
            } else {
                1
            }) as usize;
            n == if cap < available {
                cap
            } else {
                available
            }
        }),
{
    let cap: usize = (if games > 1 {
        games
    } else {
        1
    }) as usize;
    if cap < available {
        cap
    } else {
        available
    }
}

/// How a played game ended.
#[derive(Clone, Copy, Debug, PartialEq, Eq, Structural)]
pub struct GameResult {
    pub score: u64,
    pub max_rank: u8,
    pub moves: u64,
}

/// A game that the player plays.
pub struct Game {
    pub board: Board,
    pub score: u64,
    pub moves: u64,
    pub rng: Rng,
}

impl Game {
    /// A new game: two tiles.
    pub fn start(seed: u64) -> (g: Game)
        ensures
            g.board == episode::opening(episode::seeded(seed)),
            g.rng.0 == episode::state_after_opening(episode::seeded(seed)),
            g.score == 0,
            g.moves == 0,
    {
        let mut rng: Rng = seed_rng(seed);
        let board: Board = open_game(&mut rng);
        Game { board, score: 0, moves: 0, rng }
    }

    /// Makes a move.
    pub fn play(&mut self, t: &Tables, d: Dir)
        requires
            old(self).score + board::move_points(old(self).board, d) <= u64::MAX,
            old(self).moves < u64::MAX,
        ensures
            final(self).board == board::spawned(
                board::moved(old(self).board, d),
                old(self).rng.0,
            ),
            final(self).rng.0 == board::after_spawn(
                board::moved(old(self).board, d),
                old(self).rng.0,
            ),
            final(self).score == old(self).score + board::move_points(old(self).board, d),
            final(self).moves == old(self).moves + 1,
    {
        let (nb, points) = t.apply(self.board, d);
        self.score = self.score + points as u64;
        self.moves = self.moves + 1;
        self.board = spawn(nb, &mut self.rng);
    }

    /// The game's result so far.
    pub fn result(&self) -> (r: GameResult)
        ensures
            r.score == self.score,
            r.max_rank == board::top_rank(self.board),
            r.moves == self.moves,
    {
        GameResult { score: self.score, max_rank: max_rank(self.board), moves: self.moves }
    }
}

/// What a benchmark reports.
pub struct Report {
    pub games: usize,
    pub moves: u64,
    pub score: u64,
    pub median: u64,
    pub max: u64,
    /// Games that reached 2048 up to 32768.
    pub reached: [usize; 5],
}

/// The sum of a number over the first `n` games.
pub open spec fn sum_of(rs: Seq<GameResult>, f: spec_fn(GameResult) -> u64, n: int) -> nat
    decreases n,
{
    if n <= 0 {
        0
    } else {
        sum_of(rs, f, n - 1) + f(rs[n - 1]) as nat
    }
}

/// How many of the first `n` games reached rank `r`.
pub open spec fn count_reached(rs: Seq<GameResult>, r: int, n: int) -> nat
    decreases n,
{
    if n <= 0 {
        0
    } else {
        count_reached(rs, r, n - 1) + if rs[n - 1].max_rank >= r {
            1nat
        } else {
            0nat
        }
    }
}

/// The scores of games.
pub open spec fn scores_of(rs: Seq<GameResult>) -> Seq<u64> {
    rs.map_values(|r: GameResult| r.score)
}

proof fn lemma_sum_grows(rs: Seq<GameResult>, f: spec_fn(GameResult) -> u64, a: int, b: int)
    requires
        0 <= a <= b,
    ensures
        sum_of(rs, f, a) <= sum_of(rs, f, b),
    decreases b - a,
{
    if a < b {
        lemma_sum_grows(rs, f, a, b - 1);
    }
}

fn count_hits(rs: &Vec<GameResult>, rank: u8) -> (n: usize)
    ensures
        n == count_reached(rs@, rank as int, rs@.len() as int),
{
    let mut n: usize = 0;
    let mut i: usize = 0;
    while i < rs.len()
        invariant
            i <= rs@.len(),
            n <= i,
            n == count_reached(rs@, rank as int, i as int),
        decreases rs@.len() - i,
    {
        if rs[i].max_rank >= rank {
            n += 1;
        }
        i += 1;
    }
    n
}

/// The scores, sorted, are `s`; the middle one and the last one are reported.
pub open spec fn is_middle_and_max(rs: Seq<GameResult>, s: Seq<u64>, r: Report) -> bool {
    &&& sort::ascending(s)
    &&& sort::same_elements(s, scores_of(rs))
    &&& s.len() == rs.len()
    &&& r.median == s[rs.len() as int / 2]
    &&& r.max == s.last()
}

/// What a benchmark reports of its games. None if a sum leaves 64 bits.
pub fn report(rs: &Vec<GameResult>) -> (res: Option<Report>)
    requires
        rs@.len() > 0,
    ensures
        match res {
            Some(r) => {
                &&& r.games == rs@.len()
                &&& r.moves == sum_of(rs@, |g: GameResult| g.moves, rs@.len() as int)
                &&& r.score == sum_of(rs@, |g: GameResult| g.score, rs@.len() as int)
                &&& exists|s: Seq<u64>| #[trigger] is_middle_and_max(rs@, s, r)
                &&& forall|k: int|
                    0 <= k < 5 ==> #[trigger] r.reached@[k] == count_reached(
                        rs@,
                        11 + k,
                        rs@.len() as int,
                    )
            },
            None => sum_of(rs@, |g: GameResult| g.moves, rs@.len() as int) > u64::MAX || sum_of(
                rs@,
                |g: GameResult| g.score,
                rs@.len() as int,
            ) > u64::MAX,
        },
{
    let mut moves: u64 = 0;
    let mut score: u64 = 0;
    let mut scores: Vec<u64> = Vec::new();
    let mut i: usize = 0;
    let n: usize = rs.len();
    while i < n
        invariant
            n == rs@.len(),
            i <= n,
            moves == sum_of(rs@, |g: GameResult| g.moves, i as int),
            score == sum_of(rs@, |g: GameResult| g.score, i as int),
            scores@ == scores_of(rs@.take(i as int)),
        decreases n - i,
    {
        let g: GameResult = rs[i];
        if moves > u64::MAX - g.moves || score > u64::MAX - g.score {
            proof {
                lemma_sum_grows(rs@, |g: GameResult| g.moves, i + 1, n as int);
                lemma_sum_grows(rs@, |g: GameResult| g.score, i + 1, n as int);
            }
            return None;
        }
        moves = moves + g.moves;
        score = score + g.score;
        scores.push(g.score);
        i += 1;
        assert(scores@ =~= scores_of(rs@.take(i as int)));
    }
    assert(rs@.take(n as int) =~= rs@);
    let ghost loose = scores@;
    let scores: Vec<u64> = sorted(scores);
    proof {
        broadcast use vstd::seq_lib::group_to_multiset_ensures;

        assert(scores@.to_multiset().len() == scores@.len());
        assert(loose.to_multiset().len() == loose.len());
    }
    let reached: [usize; 5] = [
        count_hits(rs, 11),
        count_hits(rs, 12),
        count_hits(rs, 13),
        count_hits(rs, 14),
        count_hits(rs, 15),
    ];
    let r: Report = Report {
        games: n,
        moves,
        score,
        median: scores[n / 2],
        max: scores[n - 1],
        reached,
    };
    proof {
        assert(is_middle_and_max(rs@, scores@, r));
        assert forall|k: int| 0 <= k < 5 implies #[trigger] r.reached@[k] == count_reached(
            rs@,
            11 + k,
            rs@.len() as int,
        ) by {
            assert(k == 0 || k == 1 || k == 2 || k == 3 || k == 4);
        }
    }
    Some(r)
}

/// Training games per printed line.
pub const WINDOW: u64 = 10_000;

/// The tallies of a window of training games: scores, games, and how many reached 2048 up to
/// 16384.
#[derive(Clone, Copy, Debug, PartialEq, Eq)]
pub struct Window {
    pub score: u64,
    pub games: u64,
    pub reached: [u64; 4],
}

impl Window {
    pub fn new() -> (w: Window)
        ensures
            w.score == 0,
            w.games == 0,
            w.reached@ == seq![0u64, 0, 0, 0],
    {
        let w: Window = Window { score: 0, games: 0, reached: [0; 4] };
        assert(w.reached@ =~= seq![0u64, 0, 0, 0]);
        w
    }

    /// The tallies with one more game.
    pub open spec fn is_next(self, old: Window, e: EpisodeStats) -> bool {
        &&& self.score == chunk::wrapped(old.score, e.score)
        &&& self.games == chunk::wrapped(old.games, 1)
        &&& forall|k: int|
            0 <= k < 4 ==> #[trigger] self.reached@[k] == chunk::wrapped(
                old.reached@[k],
                chunk::hit(e, k),
            )
    }

    /// Counts a game. A full window is handed out, and the next one begins.
    pub fn count(&mut self, e: &EpisodeStats) -> (full: Option<Window>)
        ensures
            match full {
                Some(w) => {
                    &&& w.is_next(*old(self), *e)
                    &&& w.games == WINDOW
                    &&& final(self).score == 0
                    &&& final(self).games == 0
                    &&& final(self).reached@ == seq![0u64, 0, 0, 0]
                },
                None => final(self).is_next(*old(self), *e) && final(self).games != WINDOW,
            },
    {
        let mut r: [u64; 4] = self.reached;
        let mut k: usize = 0;
        while k < 4
            invariant
                k <= 4,
                forall|j: int|
                    0 <= j < k ==> #[trigger] r@[j] == chunk::wrapped(
                        old(self).reached@[j],
                        chunk::hit(*e, j),
                    ),
                forall|j: int| k <= j < 4 ==> #[trigger] r@[j] == old(self).reached@[j],
            decreases 4 - k,
        {
            if e.max_rank >= 11 + k as u8 {
                r[k] = r[k].wrapping_add(1);
            }
            k += 1;
        }
        let w: Window = Window {
            score: self.score.wrapping_add(e.score),
            games: self.games.wrapping_add(1),
            reached: r,
        };
        if w.games == WINDOW {
            *self = Window::new();
            Some(w)
        } else {
            *self = w;
            None
        }
    }
}

/// Whether the weights are saved when game `g` ends a window: about every ten windows.
pub fn saves_after(g: u64) -> (yes: bool)
    requires
        g < u64::MAX,
    ensures
        yes == ((g + 1) % (10 * WINDOW) < WINDOW),
{
    (g + 1) % (10 * WINDOW) < WINDOW
}

}
