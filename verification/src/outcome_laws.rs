//! What the larger calls come to: searches, training, merging, logs, files and requests.

use crate::ai::Ai;
use crate::board;
use crate::board::{Board, Dir, Tables};
use crate::chunk::Chunk;
use crate::codec;
use crate::codec::Parsed;
use crate::coord;
use crate::coord::{Coord, Submitted};
use crate::deltas;
use crate::deltas::{DeltaLog, DeltaView};
use crate::episode;
use crate::episode::Episode;
use crate::floats;
use crate::game_laws;
use crate::http;
use crate::http::{Query, Request, Route, RouteView};
use crate::job;
use crate::job::Action;
use crate::le;
use crate::move_laws;
use crate::ntuple;
use crate::ntuple::NTuple;
use crate::play_laws;
use crate::pool::RestartPool;
use crate::rng::Rng;
use crate::row;
use crate::search;
use crate::search::{Arith, Worths};
use crate::search_laws;
use crate::select;
use crate::share_laws;
use crate::shares::Rates;
use crate::status;
use crate::status::Pulse;
use crate::train::{Moment, Teacher};
use crate::weight_laws;
use crate::weights;
use crate::weights::LoadError;
use crate::wire_laws;
use crate::worker;
use crate::worker::Sensor;
use crate::workers;
use crate::workers::{Worker, Workers};
use vstd::prelude::*;

verus! {

/// A player makes a legal move as long as there is one. With a fixed depth, every legal move is
/// valued by a search to that depth, and the move made is the first of those worth most.
#[verifier::rlimit(40)]
pub proof fn players_make_the_best_legal_move<E, S, W, P, G>(
    p: Ai,
    b: Board,
    a: Arith<E, S, W, P, G>,
    d: Option<Dir>,
    limit: u32,
) where
    E: Fn(Board) -> u32,
    S: Fn(u32, u32) -> u32,
    W: Fn(u32, bool) -> u32,
    P: Fn(u32, u32) -> u32,
    G: Fn(u32, u32) -> u32,

    requires
        call_ensures(Ai::best_move::<E, S, W, P, G>, (&p, b, &a), d),
        p@.depth == Some(limit),
        p@.endgame_depth is None,
        forall|x: u32, y: u32, z: u32| #[trigger]
            call_ensures(a.plus, (x, y), z) ==> !floats::is_nan32(z),
    ensures
        d is None <==> forall|c: Dir| #[trigger] board::moved(b, c) == b,
        d matches Some(c) ==> board::moved(b, c) != b,
        exists|ws: Worths| #[trigger] is_choice(a, p, b, ws, d, limit),
{
    let ws = choose|ws: Worths| #[trigger] search::is_best_move(a, p@, b, ws, d);
    let options = episode::moves(b, 4);
    assert forall|k: int| 0 <= k < ws.z.len() implies !floats::is_nan32(#[trigger] ws.z[k]) by {
        assert(search::is_worth(a, p@, b, ws, k));
        assert(call_ensures(a.plus, (ws.y[k], search::TINY), ws.z[k]));
    }
    search_laws::the_best_move_is_worth_most(a, p@, b, ws, d, limit);
    episode::games_end_without_moves(b);
    if options.len() > 0 {
        let k = choose|k: int|
            {
                &&& 0 <= k < options.len()
                &&& d == Some((#[trigger] options[k]).0)
                &&& forall|i: int|
                    0 <= i < options.len() ==> floats::place32(#[trigger] ws.z[i])
                        <= floats::place32(ws.z[k])
                &&& forall|i: int|
                    0 <= i < k ==> floats::place32(#[trigger] ws.z[i]) < floats::place32(ws.z[k])
            };
        game_laws::legal_moves_are_all_listed(b, options[k].0);
        assert(game_laws::is_first_best(ws.z, k));
    }
    assert(is_choice(a, p, b, ws, d, limit));
}

/// The legal moves are worth `ws.z`, each valued to depth `limit`, and `d` is the first of those
/// worth most.
pub open spec fn is_choice<E, S, W, P, G>(
    a: Arith<E, S, W, P, G>,
    p: Ai,
    b: Board,
    ws: Worths,
    d: Option<Dir>,
    limit: u32,
) -> bool where
    E: Fn(Board) -> u32,
    S: Fn(u32, u32) -> u32,
    W: Fn(u32, bool) -> u32,
    P: Fn(u32, u32) -> u32,
    G: Fn(u32, u32) -> u32,
 {
    let options = episode::moves(b, 4);
    &&& ws.z.len() == options.len()
    &&& forall|k: int|
        0 <= k < options.len() ==> {
            &&& a.value_by(
                p@,
                limit as int,
                ws.m[k],
                (#[trigger] options[k]).1,
                0x3F80_0000,
                0,
                ws.x[k],
                ws.m[k + 1],
            )
            &&& call_ensures(a.gain, (options[k].2, ws.x[k]), ws.y[k])
            &&& call_ensures(a.plus, (ws.y[k], 0x3586_37BD), ws.z[k])
        }
    &&& options.len() > 0 ==> exists|k: int| #[trigger]
        game_laws::is_first_best(ws.z, k) && d == Some(options[k].0)
}

/// A turn of training ends the game exactly if nothing can move; else it makes a legal move, and
/// the board before it is corrected towards the greatest worth of all moves.
#[verifier::rlimit(40)]
pub proof fn training_turns_learn_the_greatest_worth<P, T, O, M, G>(
    t: Teacher<P, T, O, M, G>,
    net: &mut NTuple,
    tables: Tables,
    e: &mut Episode,
    rng: &mut Rng,
    alpha: u32,
    saved: &mut RestartPool,
    over: bool,
) where
    P: Fn(u32, u32) -> u32,
    T: Fn(u32, u32) -> u32,
    O: Fn(u32, u32) -> u32,
    M: Fn(u32, u32) -> u32,
    G: Fn(u32, u32) -> u32,

    requires
        call_ensures(
            Teacher::<P, T, O, M, G>::train_turn,
            (&t, net, &tables, e, rng, alpha, saved),
            over,
        ),
        old(e).score <= u64::MAX - u32::MAX,
        forall|n: u32, x: u32, y: u32| #[trigger]
            call_ensures(t.gain, (n, x), y) ==> !floats::is_nan32(y),
    ensures
        over <==> forall|d: Dir| #[trigger] board::moved(old(e).board, d) == old(e).board,
        !over ==> exists|d: Dir| #[trigger] play_laws::is_move(*old(e), *final(e), d),
        over ==> *final(e) == *old(e),
        ({
            let options = episode::moves(old(e).board, 4);
            exists|values: Seq<u32>|
                {
                    &&& #[trigger] game_laws::are_worths(t, old(net)@, options, values)
                    &&& !over ==> exists|k: int|
                        {
                            &&& #[trigger] game_laws::is_first_best(values, k)
                            &&& final(e).after == Some(options[k].1)
                            &&& old(e).after matches Some(p) ==> game_laws::is_lesson(
                                t,
                                alpha,
                                p,
                                values[k],
                                old(net)@,
                                final(net)@,
                            )
                        }
                    &&& over ==> (old(e).after matches Some(p) ==> game_laws::is_lesson(
                        t,
                        alpha,
                        p,
                        0,
                        old(net)@,
                        final(net)@,
                    ))
                }
        }),
{
    let from = Moment {
        net: old(net)@,
        episode: *old(e),
        boards: old(saved).boards(),
        state: old(rng).0,
    };
    let to = Moment {
        net: final(net)@,
        episode: *final(e),
        boards: final(saved).boards(),
        state: final(rng).0,
    };
    game_laws::training_corrects_towards_the_best_worth(t, alpha, old(saved).cap(), from, to);
    play_laws::turns_make_a_legal_move(t, alpha, old(saved).cap(), from, to);
    episode::games_end_without_moves(old(e).board);
}

/// What a network says of a board is the sum of all weights that it touches. Seen under
/// whole-number addition, where a sum has one outcome.
pub proof fn networks_say_the_sum_of_their_weights<F: Fn(u32, u32) -> u32>(
    net: NTuple,
    b: Board,
    zero: u32,
    plus: F,
    v: u32,
)
    requires
        call_ensures(NTuple::value::<F>, (&net, b, zero, &plus), v),
        forall|x: u32, y: u32, z: u32| #[trigger]
            call_ensures(plus, (x, y), z) ==> z == (x + y) % 0x1_0000_0000,
    ensures
        v == (zero + weight_laws::sum_at(
            net@.w,
            net@.layout.indices(b),
            8 * net@.layout.tuples.len() as int,
        )) % 0x1_0000_0000,
{
    weight_laws::values_add_up_every_weight(plus, zero, net@, b, v);
}

/// Adding a delta to a network moves each weight by what the delta holds for it. Seen under
/// whole-number addition.
pub proof fn networks_gain_what_a_delta_holds<F: Fn(u32, u32) -> u32>(
    net: &mut NTuple,
    delta: &[(u32, u32)],
    plus: F,
    i: int,
)
    requires
        call_ensures(NTuple::apply::<F>, (net, delta, plus), ()),
        forall|x: u32, y: u32, z: u32| #[trigger]
            call_ensures(plus, (x, y), z) ==> z == (x + y) % 0x1_0000_0000,
        0 <= i < old(net)@.w.len(),
    ensures
        final(net)@.layout == old(net)@.layout,
        final(net)@.tc == old(net)@.tc,
        final(net)@.w[i] == (old(net)@.w[i] + wire_laws::held_for(
            delta@,
            i,
            delta@.len() as int,
        )) % 0x1_0000_0000,
{
    wire_laws::weights_gain_what_a_delta_holds(plus, delta@, old(net)@.w, final(net)@.w, i);
}

/// A network's changes since some weights are listed by index, each once: exactly those that
/// are no zeros.
pub proof fn changes_are_listed_by_index<F: Fn(u32, u32) -> u32>(
    net: NTuple,
    base: &[u32],
    minus: F,
    delta: Vec<(u32, u32)>,
    k: u32,
    d: u32,
)
    requires
        call_ensures(NTuple::diff::<F>, (&net, base, minus), delta),
        coord::is_definite(minus),
        net@.w.len() == base@.len(),
        base@.len() <= 0x1_0000_0000,
        call_ensures(minus, (net@.w[k as int], base@[k as int]), d),
        k < base@.len(),
    ensures
        delta@.contains((k, d)) <==> d != 0 && d != 0x8000_0000,
        forall|i: int, j: int|
            0 <= i < j < delta@.len() ==> (#[trigger] delta@[i]).0 < (#[trigger] delta@[j]).0,
{
    let ds = choose|ds: Seq<u32>|
        #![trigger ntuple::nonzero_entries(ds, ds.len() as int)]
        ntuple::is_diff(minus, net@.w, base@, ds) && delta@ == ntuple::nonzero_entries(
            ds,
            ds.len() as int,
        );
    crate::net_laws::diffs_are_complete(minus, net@.w, base@, ds, k, d);
    assert(call_ensures(minus, (net@.w[k as int], base@[k as int]), ds[k as int]));
}

/// Turning TC learning on gives every weight an accumulator that has seen no error; the weights
/// stay.
pub proof fn accumulators_start_empty(net: &mut NTuple, i: int)
    requires
        call_ensures(NTuple::enable_tc, (net,), ()),
        0 <= i < old(net)@.w.len(),
    ensures
        final(net)@.w == old(net)@.w,
        final(net)@.layout == old(net)@.layout,
        final(net)@.tc.len() == old(net)@.w.len(),
        final(net)@.tc[i] == (0u32, 0u32),
{
}

/// A delta that the coordinator merges is added at its share, change by change, and logged as
/// the next update under its sender's name.
pub proof fn coordinators_add_and_log_deltas<T: Fn(u32, u32) -> u32, P: Fn(u32, u32) -> u32>(
    c: &mut Coord,
    me: &str,
    delta: Vec<(u32, u32)>,
    scale: u32,
    now: u64,
    times: T,
    plus: P,
    res: Option<u64>,
    i: int,
)
    requires
        call_ensures(Coord::merge::<T, P>, (c, me, &delta, scale, now, times, plus), res),
        forall|x: u32, y: u32, z: u32| #[trigger]
            call_ensures(plus, (x, y), z) ==> z == (x + y) % 0x1_0000_0000,
        codec::in_order(delta@),
        delta@.len() <= u32::MAX,
        0 <= i < old(c).net@.w.len(),
    ensures
        res is None ==> *final(c) == *old(c),
        res matches Some(seq) ==> {
            &&& seq == old(c).log@.seq + 1
            &&& final(c).log@.seq == seq
            &&& final(c).log@.entries.drop_last() == old(c).log@.entries
            &&& final(c).log@.entries.last().seq == seq
            &&& final(c).log@.entries.last().from == me@
            &&& final(c).log@.entries.last().at == now
            &&& exists|p: Seq<(u32, u32)>|
                {
                    &&& p.len() == delta@.len()
                    &&& forall|k: int|
                        0 <= k < delta@.len() ==> (#[trigger] p[k]).0 == delta@[k].0
                            && call_ensures(times, (delta@[k].1, scale), p[k].1)
                    &&& final(c).net@.w[i] == (old(c).net@.w[i] + #[trigger] wire_laws::carried_for(
                        p,
                        i,
                        p.len() as int,
                    )) % 0x1_0000_0000
                    &&& codec::decoded(final(c).log@.entries.last().bytes) == Some(
                        select::cleaned(p),
                    )
                }
        },
{
    if let Some(seq) = res {
        wire_laws::merging_adds_the_scaled_changes(
            times,
            plus,
            me@,
            delta@,
            scale,
            now,
            (old(c).net@, old(c).log@),
            (final(c).net@, final(c).log@),
            seq,
            i,
        );
    }
}

/// A delta that a worker submits is taken at the worker's own share, which counts the report
/// that came with it; the report counts whatever becomes of the delta.
pub proof fn deltas_are_taken_at_their_workers_share<A, D, O, N, T, P>(
    c: &mut Coord,
    me: &str,
    name: &str,
    delta: Vec<(u32, u32)>,
    chunk: Chunk,
    now: u64,
    rates: Rates<A, D, O, N>,
    times: T,
    plus: P,
    res: Submitted,
) where
    A: Fn(u64, u64) -> u64,
    D: Fn(u64, u64) -> u64,
    O: Fn(u64, u64) -> u64,
    N: Fn(u64) -> u32,
    T: Fn(u32, u32) -> u32,
    P: Fn(u32, u32) -> u32,

    requires
        call_ensures(
            Coord::submit::<A, D, O, N, T, P>,
            (c, me, name, &delta, chunk, now, &rates, times, plus),
            res,
        ),
    ensures
        final(c).episodes == old(c).episodes + chunk.episodes,
        final(c).workers@ == workers::recorded(old(c).workers@, name@, chunk, now),
        final(c).best >= chunk.best && final(c).best >= old(c).best,
        res matches Submitted::Merged { seq, scale } ==> {
            &&& rates.is_share(final(c).workers@, name@, now, scale)
            &&& coord::is_merged(
                times,
                plus,
                me@,
                delta@,
                scale,
                now,
                (old(c).net@, old(c).log@),
                (final(c).net@, final(c).log@),
                Some(seq),
            )
        },
        !(res is Merged) ==> final(c).net == old(c).net && final(c).log == old(c).log,
{
}

/// A worker that asks gets the later updates of others, or is told that one is missing.
pub proof fn workers_get_every_later_update_of_others(
    l: DeltaLog,
    since: u64,
    me: &str,
    res: Option<Vec<u8>>,
)
    requires
        call_ensures(DeltaLog::deltas_since, (&l, since, me), res),
        l@.valid(),
    ensures
        res is Some <==> forall|u: u64| since < u <= l@.seq ==> #[trigger] wire_laws::holds(l@, u),
        res matches Some(v) ==> v@ == crate::bundle::bundle_bytes(
            l@.seq,
            l@.entries.filter(|d: DeltaView| d.seq > since && d.from != me@).map_values(
                |d: DeltaView| d.bytes,
            ),
        ),
{
    wire_laws::logs_reach_where_nothing_is_missing(l@, since);
    wire_laws::pulls_hand_out_the_later_updates_of_others(l@.entries, since, me@);
}

/// A save notes the master's number and the time, and lets go of the oldest updates only as far
/// as they are too many or too old.
pub proof fn saves_note_the_update_and_trim(l: &mut DeltaLog, now: u64)
    requires
        call_ensures(DeltaLog::saved, (l, now), ()),
    ensures
        final(l)@.seq == old(l)@.seq,
        final(l)@.saved_seq == old(l)@.seq,
        final(l)@.saved_at == now,
        ({
            let t = final(l)@.entries;
            let gone = old(l)@.entries.len() - t.len();
            &&& 0 <= gone
            &&& t == old(l)@.entries.skip(gone)
            &&& forall|i: int|
                0 <= i < gone ==> (#[trigger] old(l)@.entries[i]).seq <= old(l)@.seq && (
                deltas::total_bytes(old(l)@.entries.skip(i)) > 0x4000_0000 || now
                    - old(l)@.entries[i].at >= 21_600_000_000_000)
            &&& t.len() > 0 && t[0].seq <= old(l)@.seq ==> deltas::total_bytes(t) <= 0x4000_0000
                && now - t[0].at < 21_600_000_000_000
        }),
{
    wire_laws::saves_stop_at_the_first_to_keep(old(l)@.entries, old(l)@.seq, now);
}

/// A delta that is written and read again is the delta as the wire carries it.
pub proof fn deltas_survive_the_wire(
    delta: &[(u32, u32)],
    out: Vec<u8>,
    bytes: &[u8],
    res: Parsed,
    k: int,
)
    requires
        call_ensures(codec::encode, (delta,), out),
        call_ensures(codec::parse, (bytes,), res),
        bytes@ == out@,
        codec::in_order(delta@),
        codec::all_round(delta@),
        delta@.len() <= u32::MAX,
        0 <= k < delta@.len(),
    ensures
        res matches Parsed::Delta(v) && v@.len() == delta@.len() && v@[k].0 == delta@[k].0 && v@[k].1
            == codec::carried(delta@[k].1),
{
    codec::encoding_then_decoding_rounds(delta@);
}

/// A network that is saved and loaded again has the same stages, tuples and weights.
pub proof fn networks_survive_their_file(
    net: NTuple,
    out: Vec<u8>,
    bytes: &[u8],
    res: Result<NTuple, LoadError>,
)
    requires
        call_ensures(NTuple::save, (&net,), out),
        call_ensures(NTuple::load_from, (bytes,), res),
        bytes@ == out@,
        net.wf(),
        net@.layout.stages <= u32::MAX,
    ensures
        res matches Ok(back) && back@.layout.stages == net@.layout.stages && weights::cell_lists(
            back@.layout.tuples,
        ) == weights::cell_lists(net@.layout.tuples) && back@.w == net@.w,
{
    net.lemma_wf();
    weights::saving_then_loading_keeps_the_network(
        net@,
        match res {
            Ok(n) => Ok(n@),
            Err(e) => Err(e),
        },
    );
}

/// A downloaded net comes behind the number of the update that it holds.
pub proof fn downloads_tell_their_update(
    bytes: &[u8],
    res: Result<(u64, NTuple), LoadError>,
)
    requires
        call_ensures(weights::load_download, (bytes,), res),
    ensures
        bytes@.len() < 8 ==> res is Err,
        res matches Ok(got) ==> got.0 == le::read64(bytes@, 0),
        bytes@.len() >= 8 ==> weights::is_loaded(
            bytes@.skip(8),
            match res {
                Ok(got) => Ok(got.1@),
                Err(e) => Err(e),
            },
        ),
{
}

/// A stage of saved boards takes a new one in, in a drawn board's place if it is full; other
/// stages stay.
pub proof fn saved_boards_go_to_their_stage(
    p: &mut RestartPool,
    stage: usize,
    b: Board,
    rng: &mut Rng,
    i: int,
)
    requires
        call_ensures(RestartPool::add, (p, stage, b, rng), ()),
        0 <= stage < old(p).boards().len(),
        0 < old(p).boards()[stage as int].len() <= u32::MAX,
        0 <= i < old(p).boards().len(),
    ensures
        final(p).cap() == old(p).cap(),
        final(p).boards().len() == old(p).boards().len(),
        i != stage ==> final(p).boards()[i] == old(p).boards()[i],
        ({
            let (was, is) = (old(p).boards()[stage as int], final(p).boards()[stage as int]);
            let k = ((crate::rng::drawn(crate::rng::advance(old(rng).0)) / 0x1_0000_0000)
                * was.len()) / 0x1_0000_0000;
            &&& was.len() < old(p).cap() ==> is == was.push(b)
            &&& was.len() >= old(p).cap() ==> is == was.update(k, b)
        }),
{
    play_laws::full_stages_give_up_a_drawn_board(
        old(p).boards(),
        old(p).cap(),
        stage as int,
        b,
        old(rng).0,
    );
}

/// A board is drawn whenever one is saved, and it is a saved one.
pub proof fn saved_boards_are_drawn(p: RestartPool, rng: &mut Rng, b: Option<Board>)
    requires
        call_ensures(RestartPool::pick, (&p, rng), b),
        p.boards().len() <= u32::MAX,
        forall|i: int| 0 <= i < p.boards().len() ==> (#[trigger] p.boards()[i]).len() <= u32::MAX,
    ensures
        b is Some <==> play_laws::any_saved(p.boards()),
        b matches Some(x) ==> play_laws::is_saved(p.boards(), x),
{
    play_laws::saved_boards_come_by_two_draws(p.boards(), old(rng).0);
    if let Some(x) = b {
        let f = crate::pool::filled(p.boards(), p.boards().len() as int);
        let (k, q) = choose|k: int, q: int|
            {
                &&& 0 <= k < f.len()
                &&& 0 <= q < p.boards()[f[k]].len()
                &&& crate::pool::drawn_board(p.boards(), old(rng).0) == Some(
                    #[trigger] p.boards()[f[k]][q],
                )
            };
        play_laws::boards_are_drawn_from_every_stage(p.boards(), f[k]);
        assert(f.contains(f[k]));
        assert(p.boards()[f[k]].contains(x));
    }
}

/// A packed row without gaps slides as its four tiles do.
pub proof fn packed_rows_slide_as_lines(r: u16, res: (u16, u32), a: u8, b: u8, c: u8, d: u8)
    requires
        call_ensures(row::slide_row, (r,), res),
        row::row_ranks(r) == seq![a, b, c, d],
        a != 0 && b != 0 && c != 0 && d != 0,
    ensures
        ({
            let s = row::row_ranks(res.0);
            if a == b && c == d {
                s == seq![move_laws::doubled(a), move_laws::doubled(c), 0, 0]
            } else if a == b {
                s == seq![move_laws::doubled(a), c, d, 0]
            } else if b == c {
                s == seq![a, move_laws::doubled(b), d, 0]
            } else if c == d {
                s == seq![a, b, move_laws::doubled(c), 0]
            } else {
                s == seq![a, b, c, d] && res.1 == 0
            }
        }),
{
    move_laws::full_lines_slide_so(a, b, c, d);
}

/// What boards tell of themselves: how many cells are empty, and the largest tile.
pub proof fn boards_count_their_cells(b: Board, empty: u32, top: u8, rank: u64, n: u32, i: int)
    requires
        call_ensures(board::count_empty, (b,), empty),
        call_ensures(board::max_rank, (b,), top),
        call_ensures(board::count_rank, (b, rank), n),
        0 <= i < 16,
    ensures
        empty == move_laws::cells_with(b, 0).len(),
        n == move_laws::cells_with(b, rank as int).len(),
        board::cell(b, i) <= top,
        exists|k: int| 0 <= k < 16 && #[trigger] board::cell(b, k) == top,
{
    move_laws::counts_are_of_cells(b, 0);
    move_laws::counts_are_of_cells(b, rank as int);
    move_laws::the_top_tile_is_largest(b, i);
}

/// Swapping rows and columns takes the cell in row `r` and column `c` to row `c` and column `r`.
pub proof fn rows_and_columns_are_swapped(b: Board, t: Board, r: int, c: int)
    requires
        call_ensures(board::transpose, (b,), t),
        0 <= r < 4,
        0 <= c < 4,
    ensures
        board::cell(t, 4 * r + c) == board::cell(b, 4 * c + r),
{
}

/// The legal moves are those that change the board, in the order up, down, left, right.
pub proof fn legal_moves_change_the_board(
    t: Tables,
    b: Board,
    out: Vec<(Dir, Board, u32)>,
    d: Dir,
)
    requires
        call_ensures(episode::legal_moves, (&t, b), out),
    ensures
        board::moved(b, d) != b <==> exists|k: int|
            0 <= k < out@.len() && (#[trigger] out@[k]).0 == d,
        forall|k: int|
            0 <= k < out@.len() ==> (#[trigger] out@[k]).1 == board::moved(b, out@[k].0)
                && out@[k].2 == board::move_points(b, out@[k].0) as u32,
{
    game_laws::legal_moves_are_all_listed(b, d);
}

/// How numbers compare: positive ones as their patterns do, negative ones the other way round;
/// of several values the pick is the first of the greatest.
pub proof fn numbers_are_compared_by_value(
    a: u32,
    b: u32,
    yes: bool,
    values: &[u32],
    k: Option<usize>,
)
    requires
        call_ensures(floats::greater32, (a, b), yes),
        call_ensures(floats::pick_best, (values,), k),
        forall|i: int| 0 <= i < values@.len() ==> !floats::is_nan32(#[trigger] values@[i]),
    ensures
        a <= 0x7F80_0000 && b <= 0x7F80_0000 ==> (yes <==> a > b),
        0x8000_0000 <= a <= 0xFF80_0000 && 0x8000_0000 <= b <= 0xFF80_0000 ==> (yes <==> a < b),
        0 < a <= 0x7F80_0000 && 0x8000_0000 <= b <= 0xFF80_0000 ==> yes,
        k is None <==> values@.len() == 0,
        k matches Some(i) ==> game_laws::is_first_best(values@, i as int),
{
    floats::numbers_compare_by_sign_and_size(a, b);
    if values@.len() > 0 {
        floats::the_pick_is_the_first_maximum(values@, values@.len() as int);
    }
}

/// A request goes where its method and path say, if it carries the token, and nowhere else.
pub proof fn requests_go_where_they_say(r: Request, path: &str, q: Query, to: Route)
    requires
        call_ensures(http::route, (&r, path, &q), to),
    ensures
        to@ is Refused <==> !r.authed,
        to@ is GetJob <==> r.authed && r.method@ == "GET"@ && path@ == "/job"@,
        to@ is SetJob <==> r.authed && r.method@ == "POST"@ && path@ == "/job"@,
        to@ is Status <==> r.authed && r.method@ == "GET"@ && path@ == "/status"@,
        to@ is Net <==> r.authed && r.method@ == "GET"@ && path@ == "/net"@,
        to@ is Deltas <==> r.authed && r.method@ == "GET"@ && path@ == "/deltas"@,
        to@ is Delta <==> r.authed && r.method@ == "POST"@ && path@ == "/delta"@,
        to@ is Beat <==> r.authed && r.method@ == "POST"@ && path@ == "/beat"@,
        to@ is Shutdown <==> r.authed && r.method@ == "POST"@ && path@ == "/shutdown"@,
        to@ matches RouteView::Delta { me, name } ==> http::value_of(q@, "name"@) is None ==> name
            == me,
{
    crate::service_laws::every_request_has_its_place(r.authed, r.method@, path@, q@);
    crate::service_laws::requests_carry_what_they_name(r.method@, path@, q@);
}

/// A query's value is the last one of its key.
pub proof fn queries_give_the_last_value(q: Query, key: &str, v: Option<String>, k: int)
    requires
        call_ensures(Query::get, (&q, key), v),
        0 <= k < q@.len(),
        q@[k].0 == key@,
        forall|j: int| k < j < q@.len() ==> (#[trigger] q@[j]).0 != key@,
    ensures
        v matches Some(s) && s@ == q@[k].1,
{
    lemma_last_value(q@, key@, k, q@.len() as int);
}

proof fn lemma_last_value(ps: Seq<(Seq<char>, Seq<char>)>, key: Seq<char>, k: int, n: int)
    requires
        0 <= k < n <= ps.len(),
        ps[k].0 == key,
        forall|j: int| k < j < n ==> (#[trigger] ps[j]).0 != key,
    ensures
        http::value_among(ps, key, n) == Some(ps[k].1),
    decreases n,
{
    if n > k + 1 {
        assert(ps[n - 1].0 != key);
        lemma_last_value(ps, key, k, n - 1);
    }
}

/// What a worker does next goes by the job, in this order: a newer version, a stop, a pause.
pub proof fn workers_do_what_the_job_says(
    version: Option<u64>,
    stop: Option<u64>,
    pause: Option<u64>,
    has_net: bool,
    a: Action,
)
    requires
        call_ensures(job::next_action, (version, stop, pause, has_net), a),
    ensures
        ({
            let newer = version is Some && floats::above64(version->0, 0x4008_0000_0000_0000);
            let stops = stop is Some && floats::above64(stop->0, 0);
            let pauses = pause is Some && floats::above64(pause->0, 0);
            &&& a is Update <==> newer
            &&& a is Stop <==> !newer && stops
            &&& a is Pause <==> !newer && !stops && pauses
            &&& a is Download <==> !newer && !stops && !pauses && !has_net
            &&& a is Train <==> !newer && !stops && !pauses && has_net
        }),
{
    crate::service_laws::workers_obey_in_this_order(version, stop, pause, has_net);
}

/// The recipe by the number of games: alpha is cut at half and at three quarters of the goal,
/// and TC learning takes the last tenth.
pub proof fn the_recipe_goes_by_games(games: u64, goal: u64, p: job::Phase)
    requires
        call_ensures(job::otd_phase, (games, goal), p),
    ensures
        p.cuts >= 1 <==> 2 * games >= goal,
        p.cuts >= 2 <==> 4 * games >= 3 * goal,
        p.cuts <= 2,
        p.tc <==> 10 * games >= 9 * goal,
{
    crate::service_laws::the_recipe_cuts_at_half_and_three_quarters(games as nat, goal as nat);
}

/// A machine's pulse goes by its last heartbeat: a minute long it beats.
pub proof fn pulses_last_a_minute(w: Worker, now: u64, p: Pulse)
    requires
        call_ensures(status::pulse, (&w, now), p),
    ensures
        p is Old <==> w@.beat is None,
        p is Beating <==> w@.beat is Some && now - (w@.beat->0).0 < 60_000_000_000,
{
    crate::report_laws::machines_beat_for_a_minute(w@.beat, now);
}

/// A report stands with its machine, and the twenty latest stay.
pub proof fn machines_keep_twenty_reports(
    ws: &mut Workers,
    name: &str,
    c: Chunk,
    now: u64,
    i: int,
)
    requires
        call_ensures(Workers::report, (ws, name, c, now), ()),
        workers::by_name(old(ws)@),
        0 <= i < old(ws)@.len(),
        old(ws)@[i].name == name@,
        old(ws)@[i].total_episodes + c.episodes <= u64::MAX,
    ensures
        exists|j: int|
            {
                &&& 0 <= j < final(ws)@.len()
                &&& (#[trigger] final(ws)@[j]).name == name@
                &&& final(ws)@[j].last_seen == now
                &&& final(ws)@[j].total_episodes == old(ws)@[i].total_episodes + c.episodes
                &&& old(ws)@[i].recent.len() < 20 ==> final(ws)@[j].recent
                    == old(ws)@[i].recent.push(c)
                &&& old(ws)@[i].recent.len() == 20 ==> final(ws)@[j].recent.len() == 20
                    && final(ws)@[j].recent[19] == c && final(ws)@[j].recent[0]
                    == old(ws)@[i].recent[1]
            },
{
    share_laws::reports_go_to_their_machine(old(ws)@, name@, c, now, i);
    let to = final(ws)@;
    let j = choose|j: int|
        {
            &&& 0 <= j < to.len()
            &&& (#[trigger] to[j]).name == old(ws)@[i].name
            &&& to[j].last_seen == now
            &&& to[j].total_episodes == old(ws)@[i].total_episodes + c.episodes
            &&& old(ws)@[i].recent.len() < 20 ==> to[j].recent == old(ws)@[i].recent.push(c)
            &&& old(ws)@[i].recent.len() == 20 ==> {
                &&& to[j].recent.len() == 20
                &&& to[j].recent[19] == c
                &&& forall|k: int|
                    0 <= k < 19 ==> #[trigger] to[j].recent[k] == old(ws)@[i].recent[k + 1]
            }
        };
    assert(to[j].name == name@);
}

/// A heartbeat is noted with its machine, and nothing else of the machine changes.
pub proof fn heartbeats_are_noted(ws: &mut Workers, name: &str, q: Query, now: u64, i: int)
    requires
        call_ensures(Workers::beat, (ws, name, q, now), ()),
        workers::by_name(old(ws)@),
        0 <= i < old(ws)@.len(),
        old(ws)@[i].name == name@,
    ensures
        final(ws)@.len() == old(ws)@.len(),
        final(ws)@[i].beat == Some((now, q@)),
        final(ws)@[i].name == name@,
        final(ws)@[i].last_seen == old(ws)@[i].last_seen,
        final(ws)@[i].recent == old(ws)@[i].recent,
        final(ws)@[i].total_episodes == old(ws)@[i].total_episodes,
{
    let all = old(ws)@;
    workers::known_names_are_listed(all, name@);
    workers::entering_keeps_the_order(all, name@, now);
    let p = workers::place_of(all, name@);
    crate::text::lemma_precedes_total(name@, name@);
    if i < p {
        assert(crate::text::precedes(all[i].name, all[p].name));
    } else if p < i {
        assert(crate::text::precedes(all[p].name, all[i].name));
    }
}

/// Sensors of processors and of thermal zones are told by their names.
pub proof fn sensors_are_told_by_name(name: &str, s: Sensor)
    requires
        call_ensures(worker::sensor, (name,), s),
    ensures
        ({
            let n = crate::text::trimmed(name@);
            &&& s is Cpu <==> n == "k10temp"@ || n == "coretemp"@ || n == "zenpower"@ || n
                == "cpu_thermal"@
            &&& s is Zone <==> n == "acpitz"@
        }),
{
    crate::report_laws::sensors_are_known_by_name(name@);
}

}
