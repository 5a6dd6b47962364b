//! What single calls come to: every result that a function can give, and all that it changes.

use crate::ai;
use crate::ai::{Ai, Memory};
use crate::board;
use crate::board::{Board, Dir, Tables};
use crate::chunk::Chunk;
use crate::cli;
use crate::cli::{Game, Window};
use crate::codec;
use crate::coord::Coord;
use crate::deltas::DeltaLog;
use crate::episode;
use crate::episode::{Episode, EpisodeStats, Turn};
use crate::floats;
use crate::game_laws;
use crate::http::Request;
use crate::job;
use crate::learn::Rule;
use crate::move_laws;
use crate::ntuple;
use crate::ntuple::{Layout, NTuple};
use crate::pool::RestartPool;
use crate::rng;
use crate::rng::Rng;
use crate::row;
use crate::search_laws;
use crate::select;
use crate::share_laws;
use crate::shares::Rates;
use crate::text;
use crate::weight_laws;
use crate::worker;
use crate::worker::{AfterExit, AfterSync, PullStep};
use crate::workers::Worker;
use vstd::prelude::*;

verus! {

/// A search goes on until it is as deep as asked, whatever that depth is: only a chance below
/// the player's bound ends a branch before.
pub proof fn searches_go_on_until_the_limit(
    p: Ai,
    cprob: u32,
    depth: u32,
    limit: u32,
    yes: bool,
)
    requires
        call_ensures(Ai::ends_branch, (&p, cprob, depth, limit), yes),
    ensures
        depth >= limit ==> yes,
        depth < limit ==> (yes <==> floats::above32(p@.cprob_thresh, cprob)),
{
    search_laws::branches_end_at_the_limit(p@, cprob, depth as int, limit as int);
}

/// A player goes as deep as it was told: to the endgame depth where one is set and a 16384 or a
/// 32768 is on the board, else to its depth.
pub proof fn players_search_to_their_depth(p: Ai, b: Board, d: u32)
    requires
        call_ensures(Ai::depth_limit, (&p, b), d),
    ensures
        p@.endgame_depth is Some && (exists|i: int| 0 <= i < 16 && #[trigger] board::cell(b, i)
            >= 14) ==> Some(d) == p@.endgame_depth,
        p@.depth is Some && (p@.endgame_depth is None || forall|i: int|
            0 <= i < 16 ==> #[trigger] board::cell(b, i) < 14) ==> Some(d) == p@.depth,
{
    search_laws::players_go_as_deep_as_told(p@, b);
}

/// How players are made: one by the heuristic has no depth of its own; one by a network goes at
/// least one layer deep. Both cut branches below one chance in ten thousand until they are told
/// otherwise.
pub proof fn players_are_as_they_were_made(
    depth: u32,
    c: Option<u32>,
    e: Option<u32>,
    plain: Ai,
    net: Ai,
    cut: Ai,
    late: Ai,
)
    requires
        call_ensures(Ai::new, (), plain),
        call_ensures(Ai::with_net, (depth,), net),
        call_ensures(Ai::with_cprob, (net, c), cut),
        call_ensures(Ai::with_endgame_depth, (net, e), late),
    ensures
        !plain@.valued,
        plain@.depth is None,
        plain@.endgame_depth is None,
        plain@.cprob_thresh == 0x38D1_B717,
        net@.valued,
        depth >= 1 ==> net@.depth == Some(depth),
        depth == 0 ==> net@.depth == Some(1u32),
        net@.endgame_depth is None,
        net@.cprob_thresh == 0x38D1_B717,
        c is Some ==> cut@.cprob_thresh == c->0,
        c is None ==> cut@.cprob_thresh == net@.cprob_thresh,
        cut@.depth == net@.depth,
        cut@.valued == net@.valued,
        cut@.endgame_depth == net@.endgame_depth,
        late@.endgame_depth == e,
        late@.depth == net@.depth,
        late@.valued == net@.valued,
        late@.cprob_thresh == net@.cprob_thresh,
{
}

/// Points count on top of a network's value, and not for the heuristic.
pub proof fn points_count_under_a_network(p: Ai, points: u32, r: u32)
    requires
        call_ensures(Ai::reward, (&p, points), r),
    ensures
        p@.valued ==> r == points,
        !p@.valued ==> r == 0,
{
}

/// After a move a 2 and a 4 may come in every empty cell, and nowhere else: the search looks at
/// both, the 2 first, for each empty cell once.
pub proof fn every_new_tile_is_looked_at(b: Board, out: Vec<(Board, bool)>, c: int)
    requires
        call_ensures(ai::chance_children, (b,), out),
        0 <= c < 16,
        board::cell(b, c) == 0,
    ensures
        out@.len() == 2 * move_laws::cells_with(b, 0).len(),
        exists|j: int|
            {
                &&& 0 <= j < out@.len() - 1
                &&& j % 2 == 0
                &&& #[trigger] is_with(b, c, 1, out@[j].0)
                &&& is_with(b, c, 2, out@[j + 1].0)
                &&& !out@[j].1
                &&& out@[j + 1].1
            },
{
    move_laws::counts_are_of_cells(b, 0);
    search_laws::empty_cells_are_all_listed(b, c);
    let e = ai::empties(b, 16);
    let i = choose|i: int| 0 <= i < e.len() && e[i] == c;
    let j = 2 * i;
    assert(j / 2 == i && (j + 1) / 2 == i && j % 2 == 0 && (j + 1) % 2 == 1);
    assert(board::is_placed(b, e[j / 2], ai::new_rank(j), out@[j].0));
    assert(board::is_placed(b, e[(j + 1) / 2], ai::new_rank(j + 1), out@[j + 1].0));
    assert(is_with(b, c, 1, out@[j].0));
}

/// `nb` is `b` but for cell `c`, which holds rank `r`.
pub open spec fn is_with(b: Board, c: int, r: int, nb: Board) -> bool {
    &&& board::cell(nb, c) == r
    &&& forall|k: int|
        0 <= k < 16 && k != c ==> #[trigger] board::cell(nb, k) == board::cell(b, k)
}

/// A board's heuristic value is made of its four rows and its four columns, each from its first
/// cell on.
pub proof fn rows_and_columns_are_scored(b: Board, rows: [u16; 8], k: int, i: int)
    requires
        call_ensures(ai::scored_rows, (b,), rows),
        0 <= k < 4,
        0 <= i < 4,
    ensures
        row::row_rank(rows@[k], i) == board::cell(b, 4 * k + i),
        row::row_rank(rows@[4 + k], i) == board::cell(b, 4 * i + k),
{
    board::lemma_row_of(b, k);
    let t = choose|t: Board| #[trigger]
        board::is_transposed(b, t) && forall|k: int|
            0 <= k < 4 ==> rows@[4 + k] == #[trigger] board::row_of(t, k);
    board::lemma_row_of(t, k);
    assert(rows@[k] == board::row_of(b, k));
    assert(rows@[4 + k] == board::row_of(t, k));
    assert(board::cell(t, 4 * k + i) == board::cell(b, 4 * i + k));
}

/// A search remembers what it is told of boards less than fifteen layers deep, and recalls it
/// for the same board at that depth or deeper.
pub proof fn memory_gives_back_what_it_was_told(
    m: &mut Memory,
    b: Board,
    depth: u32,
    value: u32,
    c: Board,
    at: u32,
    v: Option<u32>,
)
    requires
        call_ensures(Memory::keep, (m, b, depth, value), ()),
        call_ensures(Memory::recall, (&*final(m), c, at), v),
    ensures
        c == b && depth <= at < 15 ==> v == Some(value),
        c == b && at < depth < 15 ==> v is None,
        at >= 15 ==> v is None,
        depth >= 15 ==> final(m)@ == old(m)@,
        c != b ==> forall|u: Option<u32>| #[trigger]
            call_ensures(Memory::recall, (&*old(m), c, at), u) ==> u == v,
{
}

/// A turn teaches the board before it what the move is worth that it makes: the greatest of all
/// worths, the first of several, whatever its place among them.
pub proof fn turns_learn_the_worth_of_the_move_made(
    e: &mut Episode,
    t: Tables,
    layout: Layout,
    values: &[u32],
    saved: &mut RestartPool,
    rng: &mut Rng,
    turn: Turn,
)
    requires
        call_ensures(Episode::turn, (e, &t, &layout, values, saved, rng), turn),
        layout@.valid(),
        old(e).can_turn(layout@, values@, old(saved).boards(), old(saved).cap(), old(rng).0),
        values@.len() > 0,
        forall|i: int| 0 <= i < values@.len() ==> !floats::is_nan32(#[trigger] values@[i]),
    ensures
        !turn.over,
        exists|k: int|
            {
                &&& #[trigger] game_laws::is_first_best(values@, k)
                &&& final(e).after == Some(episode::moves(old(e).board, 4)[k].1)
                &&& final(e).score == old(e).score + episode::moves(old(e).board, 4)[k].2
                &&& board::is_spawned(
                    episode::moves(old(e).board, 4)[k].1,
                    old(rng).0,
                    final(e).board,
                )
                &&& turn.learn == match old(e).after {
                    Some(p) => Some((p, values@[k])),
                    None => None,
                }
            },
{
    game_laws::turns_teach_what_the_move_is_worth(
        *old(e),
        layout@,
        values@,
        old(saved).boards(),
        old(saved).cap(),
        old(rng).0,
    );
    let options = episode::moves(old(e).board, 4);
    let o = old(e).turned(layout@, values@, old(saved).boards(), old(saved).cap(), old(rng).0);
    let k = choose|k: int|
        {
            &&& #[trigger] game_laws::is_first_best(values@, k)
            &&& o.turn.learn == match old(e).after {
                Some(p) => Some((p, values@[k])),
                None => None,
            }
            &&& o.episode.after == Some(options[k].1)
            &&& o.episode.score == old(e).score + options[k].2
            &&& board::is_spawned(options[k].1, old(rng).0, o.episode.board)
        };
    assert(game_laws::is_first_best(values@, k));
}

/// The weights that a board touches: eight of each tuple, each told by the stage, the tuple and
/// the six ranks in the tuple's cells, turned by one of the symmetries.
pub proof fn boards_touch_the_weights_of_their_cells(
    l: Layout,
    b: Board,
    out: &mut [usize; 64],
    n: usize,
    t: int,
    s: int,
    k: int,
)
    requires
        call_ensures(Layout::indices, (&l, b, out), n),
        l@.valid(),
        0 <= t < l@.tuples.len(),
        0 <= s < 8,
        0 <= k < 6,
    ensures
        n == 8 * l@.tuples.len(),
        ({
            let x = final(out)@[8 * t + s] as int;
            &&& x / 0x100_0000 == l@.stage(ntuple::downgraded(b)) * l@.tuples.len() + t
            &&& ((x % 0x100_0000) / weight_laws::place_value(k)) % 16 == board::cell(
                ntuple::downgraded(b),
                ntuple::sym(s, l@.tuples[t]@[k] as int),
            )
        }),
{
    weight_laws::indices_spell_the_board(l@, b, t, s, k);
    assert(final(out)@.take(n as int)[8 * t + s] == final(out)@[8 * t + s]);
}

/// An error moves each weight as often as the board touches it, over all tuples and symmetries,
/// and no other weight.
pub proof fn errors_move_every_touched_weight<P, T, O>(
    net: &mut NTuple,
    b: Board,
    alpha: u32,
    err: u32,
    rule: Rule<P, T, O>,
    i: usize,
) where P: Fn(u32, u32) -> u32, T: Fn(u32, u32) -> u32, O: Fn(u32, u32) -> u32
    requires
        call_ensures(NTuple::update::<P, T, O>, (net, b, alpha, err, &rule), ()),
        old(net).wf(),
        i < old(net)@.w.len(),
    ensures
        final(net)@.layout == old(net)@.layout,
        weight_laws::has_moved(
            rule,
            alpha,
            err,
            weight_laws::weight_of(old(net)@.w, old(net)@.tc, i as int),
            weight_laws::weight_of(final(net)@.w, final(net)@.tc, i as int),
            weight_laws::times_in(
                old(net)@.layout.indices(b),
                i,
                8 * old(net)@.layout.tuples.len() as int,
            ),
        ),
{
    old(net).lemma_wf();
    weight_laws::updates_move_every_touched_weight(
        rule,
        alpha,
        err,
        b,
        old(net)@,
        final(net)@,
        i,
    );
}

/// A machine's pace is the games of all its recent reports over the seconds of all of them.
pub proof fn paces_count_every_recent_report<P, D, O, N>(
    rates: Rates<P, D, O, N>,
    g: spec_fn(u64, u64) -> u64,
    w: Worker,
    res: Option<u64>,
) where
    P: Fn(u64, u64) -> u64,
    D: Fn(u64, u64) -> u64,
    O: Fn(u64, u64) -> u64,
    N: Fn(u64) -> u32,

    requires
        call_ensures(Rates::<P, D, O, N>::pace, (&rates, &w), res),
        share_laws::adds_as(rates.plus, g),
    ensures
        res matches Some(r) ==> {
            let (games, time) = (
                share_laws::games_in(w@.recent),
                share_laws::time_in(w@.recent, g),
            );
            &&& 0 <= games <= u64::MAX
            &&& floats::above64(time, 0) ==> call_ensures(rates.per, (games as u64, time), r)
            &&& !floats::above64(time, 0) ==> r == 0
        },
{
    if let Some(r) = res {
        share_laws::paces_are_all_games_over_all_seconds(rates, g, w@, r);
    }
}

/// A machine is live until ten minutes after it was last heard of.
pub proof fn machines_live_for_ten_minutes(w: Worker, now: u64, yes: bool)
    requires
        call_ensures(Worker::is_live, (&w, now), yes),
    ensures
        yes <==> now - w@.last_seen < 600_000_000_000,
{
}

/// A game that is counted adds one game. Only a fresh one adds to the scores and tiles: its
/// score, one for each tile from 2048 on that it reached, and the best score if it is better.
pub proof fn only_fresh_games_count_for_scores(c: &mut Chunk, e: EpisodeStats, k: int)
    requires
        call_ensures(Chunk::count, (c, &e), ()),
        old(c).episodes < u64::MAX,
        old(c).fresh < u64::MAX,
        old(c).score + e.score <= u64::MAX,
        0 <= k < 5,
        old(c).reached@[k] < u64::MAX,
    ensures
        final(c).secs == old(c).secs,
        final(c).episodes == old(c).episodes + 1,
        e.fresh ==> final(c).fresh == old(c).fresh + 1,
        e.fresh ==> final(c).score == old(c).score + e.score,
        e.fresh && e.max_rank >= 11 + k ==> final(c).reached@[k] == old(c).reached@[k] + 1,
        e.fresh && e.max_rank < 11 + k ==> final(c).reached@[k] == old(c).reached@[k],
        e.fresh ==> final(c).best >= e.score && final(c).best >= old(c).best && (final(c).best
            == e.score || final(c).best == old(c).best),
        !e.fresh ==> final(c).fresh == old(c).fresh && final(c).score == old(c).score
            && final(c).best == old(c).best && final(c).reached == old(c).reached,
{
}

/// Adding a chunk adds every count, and keeps the better of the best scores.
pub proof fn chunks_add_up<F: Fn(u64, u64) -> u64>(c: &mut Chunk, o: Chunk, plus: F, k: int)
    requires
        call_ensures(Chunk::add::<F>, (c, &o, plus), ()),
        0 <= k < 5,
    ensures
        final(c).episodes == old(c).episodes + o.episodes,
        final(c).fresh == old(c).fresh + o.fresh,
        final(c).score == old(c).score + o.score,
        final(c).reached@[k] == old(c).reached@[k] + o.reached@[k],
        final(c).best >= old(c).best,
        final(c).best >= o.best,
        final(c).best == old(c).best || final(c).best == o.best,
        call_ensures(plus, (old(c).secs, o.secs), final(c).secs),
{
}

/// A window counts ten thousand games and then begins anew; each game adds its score and one
/// for each tile from 2048 on that it reached.
pub proof fn windows_hold_ten_thousand_games(
    w: &mut Window,
    e: EpisodeStats,
    full: Option<Window>,
    k: int,
)
    requires
        call_ensures(Window::count, (w, &e), full),
        old(w).games < 10_000,
        old(w).score + e.score <= u64::MAX,
        0 <= k < 4,
        old(w).reached@[k] < u64::MAX,
    ensures
        full is Some <==> old(w).games == 9_999,
        full is Some ==> final(w).games == 0 && final(w).score == 0 && final(w).reached@[k] == 0,
        ({
            let now = match full {
                Some(x) => x,
                None => *final(w),
            };
            &&& now.games == old(w).games + 1
            &&& now.score == old(w).score + e.score
            &&& e.max_rank >= 11 + k ==> now.reached@[k] == old(w).reached@[k] + 1
            &&& e.max_rank < 11 + k ==> now.reached@[k] == old(w).reached@[k]
        }),
{
}

/// The weights are saved with every tenth window.
pub proof fn every_tenth_window_is_saved(g: u64, w: int, yes: bool)
    requires
        call_ensures(cli::saves_after, (g,), yes),
        g + 1 == 10_000 * w,
    ensures
        yes <==> w % 10 == 0,
{
    assert((10_000 * w) % 100_000 == 10_000 * (w % 10)) by (nonlinear_arith);
}

/// A game that is played starts with two tiles and nothing else; a move moves the board, adds a
/// tile and the move's points, and counts.
pub proof fn games_keep_score(seed: u64, g: Game, h: &mut Game, t: Tables, d: Dir)
    requires
        call_ensures(Game::start, (seed,), g),
        call_ensures(Game::play, (h, &t, d), ()),
    ensures
        g.score == 0,
        g.moves == 0,
        crate::play_laws::has_two_tiles(g.board),
        final(h).moves == old(h).moves + 1,
        final(h).score == old(h).score + board::move_points(old(h).board, d),
        board::is_spawned(board::moved(old(h).board, d), old(h).rng.0, final(h).board),
{
    crate::play_laws::new_games_open_with_two_tiles(episode::seeded(seed));
    board::lemma_spawned_exists(board::moved(old(h).board, d), old(h).rng.0);
}

/// As many threads play as there are games, at least one, but no more than the machine can run
/// at once.
pub proof fn threads_are_no_more_than_games(available: usize, games: u64, n: usize)
    requires
        call_ensures(cli::thread_count, (available, games), n),
        games <= usize::MAX,
        available >= 1,
    ensures
        1 <= n <= available,
        games >= 1 ==> n <= games,
        games >= available ==> n == available,
        1 <= games < available ==> n == games,
{
}

/// A worker keeps to the job's number of threads: at least one, and no more than its own.
pub proof fn workers_keep_to_the_threads_allowed(threads: usize, cap: Option<usize>, n: usize)
    requires
        call_ensures(job::thread_count, (threads, cap), n),
        threads >= 1,
    ensures
        1 <= n <= threads,
        cap is None ==> n == threads,
        cap matches Some(c) ==> (1 <= c <= threads ==> n == c) && (c > threads ==> n == threads)
            && (c == 0 ==> n == 1),
{
}

/// The supervisor stops if its worker exits with 43, starts the new build if it exits with 42,
/// after a wait if it ran for less than five minutes, and starts it again in any other case.
pub proof fn workers_are_restarted_unless_they_stop(code: Option<i32>, ran: u64, a: AfterExit)
    requires
        call_ensures(worker::after_exit, (code, ran), a),
    ensures
        a is Stop <==> code == Some(43i32),
        a is Update <==> code == Some(42i32),
        a matches AfterExit::Update { wait } ==> (wait <==> ran < 300_000_000_000),
{
}

/// A worker starts over exactly if it fell too far behind; else it stands at the update it
/// pulled, switches TC learning on if that is wanted and off yet, and saves its net if the last
/// save is more than half an hour old.
pub proof fn workers_go_on_from_what_they_pulled(
    synced: Option<u64>,
    wanted: bool,
    on: bool,
    since: u64,
    a: AfterSync,
)
    requires
        call_ensures(worker::after_sync, (synced, wanted, on, since), a),
    ensures
        a is StartOver <==> synced is None,
        a matches AfterSync::GoOn { seq, enable_tc, save } ==> {
            &&& synced == Some(seq)
            &&& enable_tc <==> wanted && !on
            &&& save <==> since > 1_800_000_000_000
        },
{
}

/// An answer is read if it is fine, and means to start over if the update is gone.
pub proof fn pulls_are_read_if_they_are_fine(code: u16, p: PullStep)
    requires
        call_ensures(worker::pull_step, (code,), p),
    ensures
        p is Read <==> code == 200,
        p is StartOver <==> code == 410,
{
}

/// Seeds go up by a fixed step, around the end of their range.
pub proof fn seeds_go_up_by_a_fixed_step(seed: u64, s: u64)
    requires
        call_ensures(worker::next_seed, (seed,), s),
    ensures
        s == seed + 2_654_435_769 || s + 0x1_0000_0000_0000_0000 == seed + 2_654_435_769,
{
}

/// A generator's state is its seed times a fixed odd number, in 64 bits and made odd; threads
/// have generators of their own.
pub proof fn generators_start_odd(x: u64, seed: u64, thread: u64, r: Rng, q: Rng)
    requires
        call_ensures(episode::seed_rng, (x,), r),
        call_ensures(episode::thread_rng, (seed, thread), q),
        thread < u64::MAX,
        x == seed ^ ((thread + 1) as u64),
    ensures
        r.0 % 2 == 1,
        r.0 / 2 == ((x * 11_400_714_819_323_198_485) % 0x1_0000_0000_0000_0000) / 2,
        q.0 == r.0,
{
    let y = ((x * 11_400_714_819_323_198_485) % 0x1_0000_0000_0000_0000) as u64;
    assert((y | 1) % 2 == 1 && (y | 1) / 2 == y / 2) by (bit_vector);
}

/// All time of the processors is the first eight numbers on their line, idle time the fourth
/// and the fifth.
pub proof fn idle_time_is_the_fourth_and_fifth_number(line: &str, t: Option<(u64, u64)>)
    requires
        call_ensures(worker::cpu_times, (line,), t),
        worker::cpu_numbers(line@).len() >= 8,
    ensures
        t matches Some((all, idle)) ==> ({
            let v = worker::cpu_numbers(line@);
            &&& all == v[0] + v[1] + v[2] + v[3] + v[4] + v[5] + v[6] + v[7]
            &&& idle == v[3] + v[4]
        }),
{
    crate::report_laws::all_time_is_the_first_eight_numbers(worker::cpu_numbers(line@));
}

/// A net that is behind its log is stale a minute after it was saved.
pub proof fn nets_are_stale_after_a_minute(l: DeltaLog, now: u64, yes: bool, due: bool)
    requires
        call_ensures(DeltaLog::is_stale, (&l, now), yes),
        call_ensures(DeltaLog::needs_save, (&l,), due),
    ensures
        due <==> l@.seq != l@.saved_seq,
        yes <==> l@.seq != l@.saved_seq && now - l@.saved_at > 60_000_000_000,
{
}

/// Header lines count by their name: the length and the token are read from theirs, and other
/// lines change nothing. Only the right token admits a request, and a wrong one refuses it
/// again.
pub proof fn headers_count_by_their_name(
    r: &mut Request,
    line: &str,
    token: &str,
    name: Seq<char>,
    value: Seq<char>,
)
    requires
        call_ensures(Request::header, (r, line, token), ()),
        !name.contains(':'),
        line@ == name + seq![':'] + value,
    ensures
        ({
            let n = text::lowered(text::trimmed(name));
            &&& final(r).method == old(r).method
            &&& final(r).target == old(r).target
            &&& n == "authorization"@ ==> (final(r).authed <==> text::trimmed(value) == "Bearer "@
                + token@)
            &&& n != "authorization"@ ==> final(r).authed == old(r).authed
            &&& n != "content-length"@ ==> final(r).len == old(r).len
            &&& n == "content-length"@ ==> match text::whole(text::trimmed(value)) {
                Some(k) => k <= usize::MAX ==> final(r).len == k,
                None => final(r).len == 0,
            }
        }),
{
    crate::service_laws::headers_split_at_the_colon(name, value);
    reveal_strlit("authorization");
    reveal_strlit("content-length");
    assert("authorization"@.len() == 13 && "content-length"@.len() == 14);
}

/// The coordinator counts the games of every report, and keeps the best score of all.
pub proof fn coordinators_count_every_report(
    c: &mut Coord,
    name: &str,
    chunk: Chunk,
    now: u64,
)
    requires
        call_ensures(Coord::record, (c, name, chunk, now), ()),
    ensures
        final(c).episodes == old(c).episodes + chunk.episodes,
        final(c).best >= chunk.best,
        final(c).best >= old(c).best,
        final(c).best == chunk.best || final(c).best == old(c).best,
        final(c).net == old(c).net,
        final(c).log == old(c).log,
{
}

/// A worker that has more changes than it may send sends the largest: it keeps as many as it
/// may, no change that is left is larger than one that is kept, and all are there in the one
/// part or the other. They go out by index, as the wire carries them.
pub proof fn the_largest_changes_are_sent(
    raw: Vec<(u32, u32)>,
    keep: usize,
    sent: Vec<(u32, u32)>,
)
    requires
        call_ensures(select::pick_largest, (raw, keep), sent),
    ensures
        raw@.len() <= keep ==> sent@ == select::cleaned(raw@),
        raw@.len() > keep ==> exists|kept: Seq<(u32, u32)>, out: Seq<(u32, u32)>|
            {
                &&& #[trigger] parts_of(raw@, kept, out)
                &&& kept.len() == keep
                &&& sent@ == select::cleaned(kept)
            },
{
    if raw@.len() > keep {
        let kept = choose|kept: Seq<(u32, u32)>| #[trigger]
            select::is_largest(raw@, keep as nat, kept) && sent@ == select::cleaned(kept);
        let out = choose|out: Seq<(u32, u32)>| #[trigger] select::is_split(raw@, kept, out);
        assert forall|i: int, j: int| 0 <= i < kept.len() && 0 <= j < out.len() implies (
        #[trigger] out[j]).1 % 0x8000_0000 <= (#[trigger] kept[i]).1 % 0x8000_0000 by {
            assert(select::size_of(out[j].1) <= select::size_of(kept[i].1));
        }
        assert(parts_of(raw@, kept, out));
    }
}

/// `kept` and `out` are `all`, and nothing in `out` is larger than anything in `kept`, which is
/// ordered by index.
pub open spec fn parts_of(
    all: Seq<(u32, u32)>,
    kept: Seq<(u32, u32)>,
    out: Seq<(u32, u32)>,
) -> bool {
    &&& all.to_multiset() == kept.to_multiset().add(out.to_multiset())
    &&& forall|i: int, j: int|
        0 <= i < kept.len() && 0 <= j < out.len() ==> (#[trigger] out[j]).1 % 0x8000_0000 <= (
        #[trigger] kept[i]).1 % 0x8000_0000
    &&& forall|i: int, j: int| 0 <= i <= j < kept.len() ==> kept[i].0 <= kept[j].0
}

/// What a worker gives back of what it sent: for each change the part that the master took, as
/// the wire carries it, less the change itself.
pub proof fn workers_keep_what_the_master_took<F: Fn(u32, u32) -> u32>(
    sent: &[(u32, u32)],
    taken: &[(u32, u32)],
    minus: F,
    back: Vec<(u32, u32)>,
    p: Seq<(u32, u32)>,
    k: int,
)
    requires
        call_ensures(select::settle::<F>, (sent, taken, minus), back),
        taken@ == select::cleaned(p),
        p.len() == sent@.len(),
        codec::all_round(p),
        forall|i: int| 0 <= i < p.len() ==> (#[trigger] p[i]).0 == sent@[i].0,
        forall|i: int, j: int| 0 <= i < j < sent@.len() ==> sent@[i].0 < sent@[j].0,
        0 <= k < p.len(),
    ensures
        back@.len() == sent@.len(),
        back@[k].0 == sent@[k].0,
        ({
            let c = codec::carried(p[k].1);
            call_ensures(
                minus,
                (
                    if c == 0x8000_0000 {
                        0
                    } else {
                        c
                    },
                    sent@[k].1,
                ),
                back@[k].1,
            )
        }),
{
    select::settling_keeps_what_was_taken(sent@, p, k);
    assert(back@[k].0 == sent@[k].0);
}

/// A new tile comes in an empty cell, a 2 or a 4, and the rest of the board stays; a full board
/// stays as it is.
pub proof fn new_tiles_come_in_empty_cells(b: Board, rng: &mut Rng, nb: Board)
    requires
        call_ensures(board::spawn, (b, rng), nb),
    ensures
        move_laws::cells_with(b, 0).len() == 0 ==> nb == b && *final(rng) == *old(rng),
        move_laws::cells_with(b, 0).len() > 0 ==> (exists|i: int|
            {
                &&& 0 <= i < 16
                &&& #[trigger] board::cell(b, i) == 0
                &&& is_with(b, i, 1, nb) || is_with(b, i, 2, nb)
            }) && final(rng).0 == rng::advance(rng::advance(old(rng).0)),
{
    if move_laws::cells_with(b, 0).len() == 0 {
        move_laws::full_boards_get_no_tile(b, old(rng).0);
    } else {
        move_laws::new_tiles_come_by_two_draws(b, old(rng).0);
        let i = choose|i: int|
            {
                &&& 0 <= i < 16
                &&& #[trigger] board::cell(b, i) == 0
                &&& board::cell(nb, i) == 1 || board::cell(nb, i) == 2
                &&& forall|j: int|
                    0 <= j < 16 && j != i ==> #[trigger] board::cell(nb, j) == board::cell(b, j)
            };
        assert(is_with(b, i, 1, nb) || is_with(b, i, 2, nb));
    }
}

/// Moving a board gives the board after the move and its points.
pub proof fn boards_move_line_by_line(t: Tables, b: Board, res: (Board, u32), k: int)
    requires
        call_ensures(Tables::apply, (&t, b, Dir::Left), res),
        0 <= k < 4,
    ensures
        move_laws::row_of(res.0, k) == row::slid(move_laws::row_of(b, k)),
        res.1 == row::slide_points(move_laws::row_of(b, 0)) + row::slide_points(
            move_laws::row_of(b, 1),
        ) + row::slide_points(move_laws::row_of(b, 2)) + row::slide_points(move_laws::row_of(b, 3)),
{
    move_laws::moves_slide_every_line(b, k);
    move_laws::moves_score_every_line(b);
}

/// A printed board is four lines of four cells, each six wide, a tile in decimal and a dot for
/// an empty cell.
pub proof fn boards_are_printed_row_by_row(b: Board, s: String)
    requires
        call_ensures(board::print, (b,), s),
    ensures
        s@ == printed_row(b, 0) + printed_row(b, 1) + printed_row(b, 2) + printed_row(b, 3),
{
    lemma_printed(b, 0);
    lemma_printed(b, 1);
    lemma_printed(b, 2);
    lemma_printed(b, 3);
    assert(board::board_text(b, 4) =~= printed_row(b, 0));
}

proof fn lemma_printed(b: Board, r: int)
    requires
        0 <= r < 4,
    ensures
        board::board_text(b, 4 * r + 4) == board::board_text(b, 4 * r) + printed_row(b, r),
{
    let t = board::board_text(b, 4 * r);
    let (a, c, d, e) = (
        printed_cell(b, 4 * r),
        printed_cell(b, 4 * r + 1),
        printed_cell(b, 4 * r + 2),
        printed_cell(b, 4 * r + 3),
    );
    assert(board::board_text(b, 4 * r + 1) =~= t + a);
    assert(board::board_text(b, 4 * r + 2) =~= t + a + c);
    assert(board::board_text(b, 4 * r + 3) =~= t + a + c + d);
    assert(board::board_text(b, 4 * r + 4) =~= t + a + c + d + e + seq!['\n']);
    assert(t + a + c + d + e + seq!['\n'] =~= t + printed_row(b, r));
}

/// A cell in print.
pub open spec fn printed_cell(b: Board, i: int) -> Seq<char> {
    text::padded(
        if board::cell(b, i) == 0 {
            seq!['.']
        } else {
            text::decimal(vstd::arithmetic::power2::pow2(board::cell(b, i) as nat))
        },
        6,
    )
}

/// A row in print.
pub open spec fn printed_row(b: Board, r: int) -> Seq<char> {
    printed_cell(b, 4 * r) + printed_cell(b, 4 * r + 1) + printed_cell(b, 4 * r + 2)
        + printed_cell(b, 4 * r + 3) + seq!['\n']
}

}
