//! What a search does with a board: how deep it goes, what it averages, what it maximises and
//! what it remembers.

use crate::ai;
use crate::ai::AiView;
use crate::board;
use crate::board::{Board, Dir};
use crate::episode;
use crate::floats;
use crate::search;
use crate::search::{Arith, Seen, Steps, Tries, Worths};
use vstd::prelude::*;

verus! {

/// A branch ends as soon as it is as deep as asked, and before that only if its chance is below
/// the bound. Chances and bounds that are not negative compare as their bits do.
pub proof fn branches_end_at_the_limit(p: AiView, cprob: u32, depth: int, limit: int)
    ensures
        depth >= limit ==> p.ends(cprob, depth, limit),
        !floats::above32(p.cprob_thresh, cprob) ==> (p.ends(cprob, depth, limit) <==> depth
            >= limit),
        cprob <= 0x7F80_0000 && p.cprob_thresh <= 0x7F80_0000 ==> (p.ends(cprob, depth, limit)
            <==> cprob < p.cprob_thresh || depth >= limit),
        p.cprob_thresh == 0 && cprob <= 0x7F80_0000 ==> (p.ends(cprob, depth, limit) <==> depth
            >= limit),
{
}

/// A search goes as deep as the player was told: to the endgame depth where one is set and a
/// 16384 is on the board, else to the player's depth.
pub proof fn players_go_as_deep_as_told(p: AiView, b: Board)
    ensures
        p.endgame_depth is Some && (exists|i: int| 0 <= i < 16 && #[trigger] board::cell(b, i) >= 14)
            ==> p.depth_limit(b) == p.endgame_depth->0,
        p.depth is Some && (p.endgame_depth is None || forall|i: int|
            0 <= i < 16 ==> #[trigger] board::cell(b, i) < 14) ==> p.depth_limit(b) == p.depth->0,
{
    board::lemma_top_rank_exists(b);
    let top = board::top_rank(b);
    let i = choose|i: int| 0 <= i < 16 && board::cells(b)[i] == top;
    assert(board::cell(b, i) == top);
}

/// The tiles on a board up to rank `n`, each once.
pub open spec fn kinds(b: Board, n: int) -> Set<int> {
    Set::new(|r: int| 1 <= r <= n && board::cells(b).contains(r as u8))
}

proof fn lemma_kinds(b: Board, n: int)
    requires
        0 <= n <= 15,
    ensures
        kinds(b, n).finite(),
        kinds(b, n).len() == board::distinct_upto(b, n),
    decreases n,
{
    if n == 0 {
        assert(kinds(b, n) =~= Set::empty());
    } else {
        lemma_kinds(b, n - 1);
        if board::cells(b).contains(n as u8) {
            assert(kinds(b, n) =~= kinds(b, n - 1).insert(n));
        } else {
            assert(kinds(b, n) =~= kinds(b, n - 1));
        }
    }
}

/// The kinds of tiles on a board are counted once each.
pub proof fn kinds_are_counted_once(b: Board)
    ensures
        kinds(b, 15).finite(),
        kinds(b, 15).len() == board::distinct_upto(b, 15),
{
    lemma_kinds(b, 15);
}

/// A player without a depth goes two layers less than there are kinds of tiles, and at least
/// three.
pub proof fn heuristic_players_go_by_the_tiles(p: AiView, b: Board)
    requires
        p.depth is None,
        p.endgame_depth is None,
    ensures
        kinds(b, 15).len() == board::distinct_upto(b, 15),
        kinds(b, 15).len() <= 5 ==> p.depth_limit(b) == 3,
        kinds(b, 15).len() > 5 ==> p.depth_limit(b) == kinds(b, 15).len() - 2,
{
    lemma_kinds(b, 15);
}

proof fn lemma_empties_rise(b: Board, n: int)
    requires
        0 <= n <= 16,
    ensures
        forall|k: int|
            0 <= k < ai::empties(b, n).len() ==> 0 <= #[trigger] ai::empties(b, n)[k] < n
                && board::cell(b, ai::empties(b, n)[k]) == 0,
        forall|j: int, k: int|
            0 <= j < k < ai::empties(b, n).len() ==> #[trigger] ai::empties(b, n)[j]
                < #[trigger] ai::empties(b, n)[k],
        forall|c: int|
            0 <= c < n && #[trigger] board::cell(b, c) == 0 ==> ai::empties(b, n).contains(c),
    decreases n,
{
    if n > 0 {
        lemma_empties_rise(b, n - 1);
        let (old, all) = (ai::empties(b, n - 1), ai::empties(b, n));
        assert forall|c: int| 0 <= c < n && #[trigger] board::cell(b, c) == 0 implies all.contains(
            c,
        ) by {
            if c < n - 1 {
                assert(old.contains(c));
                let k = choose|k: int| 0 <= k < old.len() && old[k] == c;
                assert(all[k] == c);
            } else {
                assert(all[all.len() - 1] == c);
            }
        }
    }
}

/// The empty cells are listed once each, from the first to the last.
pub proof fn empty_cells_are_all_listed(b: Board, c: int)
    requires
        0 <= c < 16,
    ensures
        ai::empties(b, 16).contains(c) <==> board::cell(b, c) == 0,
        forall|j: int, k: int|
            0 <= j < k < ai::empties(b, 16).len() ==> #[trigger] ai::empties(b, 16)[j]
                < #[trigger] ai::empties(b, 16)[k],
        ai::empties(b, 16).len() == board::count_in(board::cells(b), 0),
        search::room(b) == ai::empties(b, 16).len(),
{
    lemma_empties_rise(b, 16);
    ai::lemma_empties(b, 16);
    assert(board::cells(b).take(16) =~= board::cells(b));
}

/// A search that is deep enough, or whose branch is too unlikely, values the board directly and
/// remembers nothing new.
pub proof fn ended_branches_are_valued_directly<E, S, W, P, G>(
    a: Arith<E, S, W, P, G>,
    p: AiView,
    limit: int,
    m: Seen,
    b: Board,
    cprob: u32,
    depth: int,
    v: u32,
    m2: Seen,
) where
    E: Fn(Board) -> u32,
    S: Fn(u32, u32) -> u32,
    W: Fn(u32, bool) -> u32,
    P: Fn(u32, u32) -> u32,
    G: Fn(u32, u32) -> u32,

    requires
        depth >= limit || floats::above32(p.cprob_thresh, cprob),
        a.value_by(p, limit, m, b, cprob, depth, v, m2),
    ensures
        call_ensures(a.eval, (b,), v),
        m2 == m,
{
}

/// A board that the search has valued before, no deeper than now, keeps that value.
pub proof fn remembered_boards_keep_their_value<E, S, W, P, G>(
    a: Arith<E, S, W, P, G>,
    p: AiView,
    limit: int,
    m: Seen,
    b: Board,
    cprob: u32,
    depth: int,
    v: u32,
    m2: Seen,
) where
    E: Fn(Board) -> u32,
    S: Fn(u32, u32) -> u32,
    W: Fn(u32, bool) -> u32,
    P: Fn(u32, u32) -> u32,
    G: Fn(u32, u32) -> u32,

    requires
        depth < limit,
        !floats::above32(p.cprob_thresh, cprob),
        depth < 15,
        m.contains_key(b),
        m[b].0 <= depth,
        a.value_by(p, limit, m, b, cprob, depth, v, m2),
    ensures
        v == m[b].1,
        m2 == m,
{
}

/// The new tiles in empty cell `k`: a 2 and then a 4 is put into it; the board is valued by its
/// best move, with the shared chance weighed by the tile's, and its value is weighed by the
/// tile's chance and added.
pub open spec fn are_new_tiles<E, S, W, P, G>(
    a: Arith<E, S, W, P, G>,
    p: AiView,
    limit: int,
    b: Board,
    depth: int,
    cp: u32,
    st: Steps,
    k: int,
) -> bool where
    E: Fn(Board) -> u32,
    S: Fn(u32, u32) -> u32,
    W: Fn(u32, bool) -> u32,
    P: Fn(u32, u32) -> u32,
    G: Fn(u32, u32) -> u32,
 {
    let (two, four) = (2 * k, 2 * k + 1);
    let c = ai::empties(b, 16)[k];
    &&& forall|i: int|
        0 <= i < 16 ==> #[trigger] board::cell(st.c[two], i) == (if i == c {
            1
        } else {
            board::cell(b, i)
        })
    &&& forall|i: int|
        0 <= i < 16 ==> #[trigger] board::cell(st.c[four], i) == (if i == c {
            2
        } else {
            board::cell(b, i)
        })
    &&& call_ensures(a.weigh, (cp, false), st.p[two])
    &&& call_ensures(a.weigh, (cp, true), st.p[four])
    &&& a.best_by(p, limit, st.m[two], st.c[two], st.p[two], depth, st.x[two], st.m[two + 1])
    &&& a.best_by(p, limit, st.m[four], st.c[four], st.p[four], depth, st.x[four], st.m[four + 1])
    &&& call_ensures(a.weigh, (st.x[two], false), st.w[two])
    &&& call_ensures(a.weigh, (st.x[four], true), st.w[four])
    &&& call_ensures(a.plus, (st.s[two], st.w[two]), st.s[two + 1])
    &&& call_ensures(a.plus, (st.s[four], st.w[four]), st.s[four + 1])
}

/// How a mean comes about: the chance is shared among the empty cells, the new tiles of each,
/// from the first to the last, are added up, and the sum is shared in turn.
pub open spec fn is_mean_of<E, S, W, P, G>(
    a: Arith<E, S, W, P, G>,
    p: AiView,
    limit: int,
    m: Seen,
    b: Board,
    cprob: u32,
    depth: int,
    v: u32,
    cp: u32,
    st: Steps,
) -> bool where
    E: Fn(Board) -> u32,
    S: Fn(u32, u32) -> u32,
    W: Fn(u32, bool) -> u32,
    P: Fn(u32, u32) -> u32,
    G: Fn(u32, u32) -> u32,
 {
    let n = board::count_in(board::cells(b), 0) as int;
    &&& call_ensures(a.share, (cprob, n as u32), cp)
    &&& st.c.len() == 2 * n
    &&& st.m.len() == 2 * n + 1
    &&& st.s.len() == 2 * n + 1
    &&& st.m[0] == m
    &&& st.s[0] == 0
    &&& forall|k: int| 0 <= k < n ==> #[trigger] are_new_tiles(a, p, limit, b, depth, cp, st, k)
    &&& call_ensures(a.share, (st.s[2 * n], n as u32), v)
}

/// A search that has not come to its limit looks at every new tile: the value is the mean over
/// them, whatever the depth, and it is remembered unless the board lies too deep.
pub proof fn searches_average_every_new_tile<E, S, W, P, G>(
    a: Arith<E, S, W, P, G>,
    p: AiView,
    limit: int,
    m: Seen,
    b: Board,
    cprob: u32,
    depth: int,
    v: u32,
    m2: Seen,
) where
    E: Fn(Board) -> u32,
    S: Fn(u32, u32) -> u32,
    W: Fn(u32, bool) -> u32,
    P: Fn(u32, u32) -> u32,
    G: Fn(u32, u32) -> u32,

    requires
        depth < limit,
        !floats::above32(p.cprob_thresh, cprob),
        !(depth < 15 && m.contains_key(b) && m[b].0 <= depth),
        a.value_by(p, limit, m, b, cprob, depth, v, m2),
    ensures
        exists|cp: u32, st: Steps|
            {
                &&& #[trigger] is_mean_of(a, p, limit, m, b, cprob, depth, v, cp, st)
                &&& m2 == if depth < 15 {
                    st.m.last().insert(b, (depth as u32, v))
                } else {
                    st.m.last()
                }
            },
{
    empty_cells_are_all_listed(b, 0);
    let n = board::count_in(board::cells(b), 0) as int;
    assert(search::room(b) == n);
    let (cp, st) = choose|cp: u32, st: Steps|
        {
            &&& #[trigger] call_ensures(a.share, (cprob, search::room(b)), cp)
            &&& #[trigger] st.fits(2 * search::room(b) as int, m)
            &&& forall|j: int|
                #![trigger st.c[j]]
                0 <= j < 2 * search::room(b) ==> a.is_step(b, cp, st, j) && a.best_by(
                    p,
                    limit,
                    st.m[j],
                    st.c[j],
                    st.p[j],
                    depth,
                    st.x[j],
                    st.m[j + 1],
                )
            &&& call_ensures(a.share, (st.s.last(), search::room(b)), v)
            &&& m2 == search::kept(st.m.last(), b, depth, v)
        };
    assert forall|j: int| 0 <= j < 2 * n implies #[trigger] step_holds(a, b, cp, st, j) by {
        assert(st.c[j] == st.c[j]);
        assert(a.is_step(b, cp, st, j));
    }
    assert forall|k: int| 0 <= k < n implies #[trigger] are_new_tiles(
        a,
        p,
        limit,
        b,
        depth,
        cp,
        st,
        k,
    ) by {
        let (two, four) = (2 * k, 2 * k + 1);
        assert(two / 2 == k && four / 2 == k && two % 2 == 0 && four % 2 == 1);
        assert(step_holds(a, b, cp, st, two));
        assert(step_holds(a, b, cp, st, four));
        assert(st.c[two] == st.c[two] && st.c[four] == st.c[four]);
    }
    assert(is_mean_of(a, p, limit, m, b, cprob, depth, v, cp, st));
}

spec fn step_holds<E, S, W, P, G>(
    a: Arith<E, S, W, P, G>,
    b: Board,
    cp: u32,
    st: Steps,
    j: int,
) -> bool where
    E: Fn(Board) -> u32,
    S: Fn(u32, u32) -> u32,
    W: Fn(u32, bool) -> u32,
    P: Fn(u32, u32) -> u32,
    G: Fn(u32, u32) -> u32,
 {
    a.is_step(b, cp, st, j)
}

/// How a best value comes about: each legal move, in order, is worth what it gains on top of
/// the value of the board after it, one layer further down.
pub open spec fn is_best_of<E, S, W, P, G>(
    a: Arith<E, S, W, P, G>,
    p: AiView,
    limit: int,
    m: Seen,
    b: Board,
    cprob: u32,
    depth: int,
    tr: Tries,
) -> bool where
    E: Fn(Board) -> u32,
    S: Fn(u32, u32) -> u32,
    W: Fn(u32, bool) -> u32,
    P: Fn(u32, u32) -> u32,
    G: Fn(u32, u32) -> u32,
 {
    let options = episode::moves(b, 4);
    &&& tr.x.len() == options.len()
    &&& tr.y.len() == options.len()
    &&& tr.m.len() == options.len() + 1
    &&& tr.m[0] == m
    &&& forall|k: int|
        0 <= k < options.len() ==> {
            &&& a.value_by(
                p,
                limit,
                tr.m[k],
                (#[trigger] options[k]).1,
                cprob,
                depth + 1,
                tr.x[k],
                tr.m[k + 1],
            )
            &&& call_ensures(a.gain, (options[k].2, tr.x[k]), tr.y[k])
        }
}

proof fn lemma_best_so_far(tr: Tries, b: Board, n: int)
    requires
        0 <= n <= tr.y.len(),
        tr.t.len() == tr.y.len() + 1,
        tr.t[0] == 0xFF80_0000,
        forall|k: int|
            0 <= k < tr.y.len() ==> #[trigger] tr.t[k + 1] == floats::max32(tr.t[k], tr.y[k]),
        forall|k: int| 0 <= k < tr.y.len() ==> !floats::is_nan32(#[trigger] tr.y[k]),
    ensures
        !floats::is_nan32(tr.t[n]),
        forall|k: int| 0 <= k < n ==> floats::place32(#[trigger] tr.y[k]) <= floats::place32(tr.t[n]),
        tr.t[n] == 0xFF80_0000 || exists|k: int| 0 <= k < n && #[trigger] tr.y[k] == tr.t[n],
    decreases n,
{
    if n > 0 {
        lemma_best_so_far(tr, b, n - 1);
        assert(tr.t[n - 1 + 1] == floats::max32(tr.t[n - 1], tr.y[n - 1]));
        if tr.t[n] == tr.t[n - 1] && tr.t[n] != 0xFF80_0000 {
            let k = choose|k: int| 0 <= k < n - 1 && #[trigger] tr.y[k] == tr.t[n - 1];
            assert(tr.y[k] == tr.t[n]);
        } else if tr.t[n] != 0xFF80_0000 {
            assert(tr.y[n - 1] == tr.t[n]);
        }
    }
}

/// With its new tile a board is worth its best move: no legal move is worth more, and one is
/// worth just that. Without a legal move it is worth nothing. (Among numbers above minus
/// infinity.)
pub proof fn boards_are_worth_their_best_move<E, S, W, P, G>(
    a: Arith<E, S, W, P, G>,
    p: AiView,
    limit: int,
    m: Seen,
    b: Board,
    cprob: u32,
    depth: int,
    v: u32,
    m2: Seen,
) where
    E: Fn(Board) -> u32,
    S: Fn(u32, u32) -> u32,
    W: Fn(u32, bool) -> u32,
    P: Fn(u32, u32) -> u32,
    G: Fn(u32, u32) -> u32,

    requires
        a.best_by(p, limit, m, b, cprob, depth, v, m2),
        forall|n: u32, x: u32, y: u32| #[trigger]
            call_ensures(a.gain, (n, x), y) ==> !floats::is_nan32(y) && floats::place32(y)
                > floats::place32(0xFF80_0000),
    ensures
        depth < limit,
        exists|tr: Tries|
            {
                &&& #[trigger] is_best_of(a, p, limit, m, b, cprob, depth, tr)
                &&& m2 == tr.m.last()
                &&& episode::moves(b, 4).len() == 0 ==> v == 0
                &&& forall|k: int|
                    0 <= k < tr.y.len() ==> floats::place32(#[trigger] tr.y[k]) <= floats::place32(
                        v,
                    )
                &&& episode::moves(b, 4).len() > 0 ==> tr.y.contains(v)
            },
{
    let n = episode::moves(b, 4).len() as int;
    let tr = choose|tr: Tries|
        {
            &&& #[trigger] tr.fits(episode::moves(b, 4).len() as int, m)
            &&& forall|k: int|
                #![trigger tr.x[k]]
                0 <= k < episode::moves(b, 4).len() ==> a.is_try(b, tr, k) && a.value_by(
                    p,
                    limit,
                    tr.m[k],
                    episode::moves(b, 4)[k].1,
                    cprob,
                    depth + 1,
                    tr.x[k],
                    tr.m[k + 1],
                )
            &&& v == if tr.t.last() == search::LOWEST {
                0
            } else {
                tr.t.last()
            }
            &&& m2 == tr.m.last()
        };
    assert forall|k: int| 0 <= k < n implies a.is_try(b, tr, k) && !floats::is_nan32(
        #[trigger] tr.y[k],
    ) && floats::place32(tr.y[k]) > floats::place32(0xFF80_0000) by {
        assert(tr.x[k] == tr.x[k]);
        assert(call_ensures(a.gain, (episode::moves(b, 4)[k].2, tr.x[k]), tr.y[k]));
    }
    assert forall|k: int| 0 <= k < n implies #[trigger] tr.t[k + 1] == floats::max32(
        tr.t[k],
        tr.y[k],
    ) by {
        assert(!floats::is_nan32(tr.y[k]));
    }
    lemma_best_so_far(tr, b, n);
    if n > 0 {
        assert(floats::place32(tr.y[0]) <= floats::place32(tr.t[n]));
        assert(tr.t[n] != 0xFF80_0000);
    }
    assert forall|k: int| 0 <= k < n implies ({
        &&& a.value_by(
            p,
            limit,
            tr.m[k],
            (#[trigger] episode::moves(b, 4)[k]).1,
            cprob,
            depth + 1,
            tr.x[k],
            tr.m[k + 1],
        )
        &&& call_ensures(a.gain, (episode::moves(b, 4)[k].2, tr.x[k]), tr.y[k])
    }) by {
        assert(a.is_try(b, tr, k) && !floats::is_nan32(tr.y[k]));
        assert(tr.x[k] == tr.x[k]);
    }
    assert(is_best_of(a, p, limit, m, b, cprob, depth, tr));
}

/// The move that a player told to go `limit` layers makes: every legal move is valued by a
/// search that starts with certainty at depth nought and goes to that limit, remembering
/// nothing at first; none is worth more than the move made, and none before it as much.
pub proof fn the_best_move_is_worth_most<E, S, W, P, G>(
    a: Arith<E, S, W, P, G>,
    p: AiView,
    b: Board,
    ws: Worths,
    d: Option<Dir>,
    limit: u32,
) where
    E: Fn(Board) -> u32,
    S: Fn(u32, u32) -> u32,
    W: Fn(u32, bool) -> u32,
    P: Fn(u32, u32) -> u32,
    G: Fn(u32, u32) -> u32,

    requires
        search::is_best_move(a, p, b, ws, d),
        p.depth == Some(limit),
        p.endgame_depth is None,
        forall|k: int| 0 <= k < ws.z.len() ==> !floats::is_nan32(#[trigger] ws.z[k]),
    ensures
        ({
            let options = episode::moves(b, 4);
            &&& ws.x.len() == options.len()
            &&& ws.y.len() == options.len()
            &&& ws.z.len() == options.len()
            &&& ws.m[0] == Map::<u64, (u32, u32)>::empty()
            &&& forall|k: int|
                0 <= k < options.len() ==> {
                    &&& a.value_by(
                        p,
                        limit as int,
                        ws.m[k],
                        (#[trigger] options[k]).1,
                        0x3F80_0000,
                        0,
                        ws.x[k],
                        ws.m[k + 1],
                    )
                    &&& call_ensures(a.gain, (options[k].2, ws.x[k]), ws.y[k])
                    &&& call_ensures(a.plus, (ws.y[k], 0x3586_37BD), ws.z[k])
                }
            &&& options.len() == 0 ==> d is None
            &&& options.len() > 0 ==> exists|k: int|
                {
                    &&& 0 <= k < options.len()
                    &&& d == Some((#[trigger] options[k]).0)
                    &&& forall|i: int|
                        0 <= i < options.len() ==> floats::place32(#[trigger] ws.z[i])
                            <= floats::place32(ws.z[k])
                    &&& forall|i: int|
                        0 <= i < k ==> floats::place32(#[trigger] ws.z[i]) < floats::place32(
                            ws.z[k],
                        )
                }
        }),
{
    let options = episode::moves(b, 4);
    let n = options.len() as int;
    assert(p.depth_limit(b) == limit);
    assert forall|k: int| 0 <= k < n implies ({
        &&& a.value_by(
            p,
            limit as int,
            ws.m[k],
            (#[trigger] options[k]).1,
            0x3F80_0000,
            0,
            ws.x[k],
            ws.m[k + 1],
        )
        &&& call_ensures(a.gain, (options[k].2, ws.x[k]), ws.y[k])
        &&& call_ensures(a.plus, (ws.y[k], 0x3586_37BD), ws.z[k])
    }) by {
        assert(search::is_worth(a, p, b, ws, k));
    }
    if n > 0 {
        floats::the_pick_is_the_first_maximum(ws.z, n);
        let k = floats::best_among(ws.z, n);
        assert(d == Some(options[k].0));
    }
}

}
