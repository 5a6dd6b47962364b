//! What is written down and read again: pages, settings, heartbeats, samples, logs and reports;
//! and how games and networks begin and grow.

use crate::ai;
use crate::ai::Features;
use crate::board;
use crate::board::{Board, Tables};
use crate::cli;
use crate::cli::{GameResult, Report};
use crate::columns;
use crate::deltas::{DeltaLog, DeltaView};
use crate::episode;
use crate::episode::{Episode, EpisodeStats};
use crate::floats;
use crate::http;
use crate::http::{Query, Request, RouteView};
use crate::job;
use crate::load;
use crate::load::Sampler;
use crate::ntuple;
use crate::ntuple::{Layout, NTuple};
use crate::play_laws;
use crate::pool::RestartPool;
use crate::report_laws;
use crate::rng;
use crate::rng::Rng;
use crate::row;
use crate::status;
use crate::status::{Headline, Load, Results};
use crate::text;
use crate::text_laws;
use crate::train::{Moment, Teacher};
use crate::weight_laws;
use crate::wire_laws;
use crate::worker;
use vstd::prelude::*;

verus! {

/// An answer starts with its status, the words for it, and the length of its body.
pub proof fn answers_start_with_their_status(code: u16, len: u64, s: String)
    requires
        call_ensures(http::response_head, (code, len), s),
    ensures
        s@ == "HTTP/1.1 "@ + text::decimal(code as nat) + seq![' '] + http::reason_of(code)
            + "\r\nContent-Type: application/octet-stream\r\nContent-Length: "@ + text::decimal(
            len as nat,
        ) + "\r\nConnection: close\r\n\r\n"@,
        http::reason_of(code) == "OK"@ <==> code == 200,
        http::reason_of(code) == "Unauthorized"@ <==> code == 401,
        http::reason_of(code) == "Not Found"@ <==> code == 404,
        http::reason_of(code) == "Gone"@ <==> code == 410,
{
    reveal_strlit("OK");
    reveal_strlit("Unauthorized");
    reveal_strlit("Not Found");
    reveal_strlit("Gone");
    reveal_strlit("Error");
    assert("OK"@.len() == 2 && "Unauthorized"@.len() == 12 && "Not Found"@.len() == 9
        && "Gone"@.len() == 4 && "Error"@.len() == 5);
}

/// A setting is the first of its values that reads as a number; it is not set if none does.
/// Seen with a way of reading that gives each text one outcome.
pub proof fn settings_are_the_first_that_reads<P: Fn(&str) -> Option<u64>>(
    job: &str,
    key: &str,
    parse: P,
    read: spec_fn(Seq<char>) -> Option<u64>,
    r: Option<u64>,
    k: int,
)
    requires
        call_ensures(job::job_value::<P>, (job, key, parse), r),
        forall|s: &str, x: Option<u64>| #[trigger] call_ensures(parse, (s,), x) ==> x == read(s@),
    ensures
        ({
            let vs = job::values_of(job@, key@);
            &&& 0 <= k < vs.len() && read(vs[k]) is Some && (forall|j: int|
                0 <= j < k ==> read(#[trigger] vs[j]) is None) ==> r == read(vs[k])
            &&& (forall|j: int| 0 <= j < vs.len() ==> read(#[trigger] vs[j]) is None) ==> r is None
        }),
{
    let vs = job::values_of(job@, key@);
    if let Some(x) = r {
        let q = choose|q: int|
            #![trigger vs[q]]
            0 <= q < vs.len() && job::read_as(parse, vs[q], Some(x)) && forall|j: int|
                0 <= j < q ==> job::read_as(parse, #[trigger] vs[j], None);
        lemma_read(parse, read, vs[q], Some(x));
        if 0 <= k < vs.len() && read(vs[k]) is Some && (forall|j: int|
            0 <= j < k ==> read(#[trigger] vs[j]) is None) {
            if k < q {
                assert(job::read_as(parse, vs[k], None));
                lemma_read(parse, read, vs[k], None);
            }
        }
    } else if 0 <= k < vs.len() {
        assert(job::read_as(parse, vs[k], None));
        lemma_read(parse, read, vs[k], None);
    }
}

proof fn lemma_read<P: Fn(&str) -> Option<u64>>(
    parse: P,
    read: spec_fn(Seq<char>) -> Option<u64>,
    t: Seq<char>,
    x: Option<u64>,
)
    requires
        job::read_as(parse, t, x),
        forall|s: &str, x: Option<u64>| #[trigger] call_ensures(parse, (s,), x) ==> x == read(s@),
    ensures
        read(t) == x,
{
    let s = choose|s: &str| s@ == t && #[trigger] call_ensures(parse, (s,), x);
    assert(read(s@) == x);
}

/// A text setting is the first of its values.
pub proof fn texts_are_the_first_value(job: &str, key: &str, v: Option<String>)
    requires
        call_ensures(job::job_text, (job, key), v),
    ensures
        v is Some <==> job::values_of(job@, key@).len() > 0,
        v matches Some(s) ==> s@ == job::values_of(job@, key@)[0],
{
}

/// The coordinator reads a heartbeat as it was meant: whose it is, how many threads it runs and
/// what it is doing, and the load that comes with it.
#[verifier::rlimit(40)]
pub proof fn heartbeats_are_understood(
    name: Seq<char>,
    threads: u64,
    state: Seq<char>,
    more: Seq<(Seq<char>, Seq<char>)>,
    i: int,
)
    requires
        !name.contains('&'),
        !state.contains('&'),
        http::all_plain(more),
        forall|k: int|
            0 <= k < more.len() ==> (#[trigger] more[k]).0 != "name"@ && more[k].0 != "threads"@
                && more[k].0 != "state"@,
    ensures
        ({
            let (path, q) = http::parts_of(
                http::target_text("/beat"@, worker::beat_pairs(name, threads, state, more)),
            );
            let ps = http::pairs_of(q);
            &&& http::routed(true, "POST"@, path, ps) == RouteView::Beat { name }
            &&& http::value_of(ps, "threads"@) == Some(text::decimal(threads as nat))
            &&& http::value_of(ps, "state"@) == Some(state)
            &&& 0 <= i < more.len() ==> ps[3 + i] == more[i]
        }),
{
    reveal_strlit("/beat");
    reveal_strlit("/job");
    reveal_strlit("GET");
    reveal_strlit("POST");
    reveal_strlit("name");
    reveal_strlit("threads");
    reveal_strlit("state");
    let ps = worker::beat_pairs(name, threads, state, more);
    text::lemma_decimal(threads as nat);
    let d = text::decimal(threads as nat);
    assert(!d.contains('&')) by {
        if d.contains('&') {
            let k = choose|k: int| 0 <= k < d.len() && d[k] == '&';
            assert(text::is_digit(d[k]));
        }
    }
    assert(ps[0] == ("name"@, name) && ps[1] == ("threads"@, d) && ps[2] == ("state"@, state));
    assert forall|k: int| 0 <= k < ps.len() implies http::plain(#[trigger] ps[k]) by {
        if k >= 3 {
            assert(ps[k] == more[k - 3]);
            assert(http::plain(more[k - 3]));
        }
    }
    http::targets_read_back("/beat"@, ps);
    assert("name"@.len() == 4 && "threads"@.len() == 7 && "state"@.len() == 5);
    assert("/beat"@.len() == 5 && "/job"@.len() == 4 && "GET"@.len() == 3 && "POST"@.len() == 4);
    lemma_behind(ps, "name"@, 0, ps.len() as int);
    lemma_behind(ps, "threads"@, 1, ps.len() as int);
    lemma_behind(ps, "state"@, 2, ps.len() as int);
}

proof fn lemma_behind(ps: Seq<(Seq<char>, Seq<char>)>, key: Seq<char>, k: int, n: int)
    requires
        0 <= k < n <= ps.len(),
        ps[k].0 == key,
        forall|j: int| k < j < n ==> (#[trigger] ps[j]).0 != key,
    ensures
        http::value_among(ps, key, n) == Some(ps[k].1),
    decreases n,
{
    if n > k + 1 {
        assert(ps[n - 1].0 != key);
        lemma_behind(ps, key, k, n - 1);
    }
}

/// A sample is held against the last one that told the processors' times, and is the one that
/// the next is held against. What it tells of the processors stands first.
pub proof fn samples_follow_each_other<W: Fn(u64, u64) -> String>(
    s: &mut Sampler,
    now: Option<(u64, u64)>,
    ram: Option<(String, String)>,
    rss: Option<String>,
    temp: Option<String>,
    write: W,
    q: Query,
)
    requires
        call_ensures(Sampler::sample::<W>, (s, now, &ram, &rss, &temp, write), q),
        old(s).last matches Some(l) ==> (now matches Some(n) ==> n.1 >= l.1),
    ensures
        now is Some ==> final(s).last == now,
        now is None ==> final(s).last == old(s).last,
        now is Some && old(s).last is Some && (now->0).0 > (old(s).last->0).0 ==> exists|t: String|
            {
                &&& #[trigger] call_ensures(
                    write,
                    (
                        ((now->0).1 - (old(s).last->0).1) as u64,
                        ((now->0).0 - (old(s).last->0).0) as u64,
                    ),
                    t,
                )
                &&& q@.len() > 0
                &&& q@[0] == ("cpu"@, t@)
            },
{
    let cpu = choose|cpu: Option<String>| #[trigger]
        load::is_busy(write, old(s).last, now, cpu) && q@ == load::load_pairs(
            load::held(cpu),
            load::both_held(ram),
            load::held(rss),
            load::held(temp),
        );
    if now is Some && old(s).last is Some && (now->0).0 > (old(s).last->0).0 {
        assert(cpu is Some);
        assert(q@[0] == ("cpu"@, (cpu->0)@));
    }
}

/// A machine's line is as wide as the head above it where its texts fit their columns, and so
/// is a line of results.
#[verifier::rlimit(40)]
pub proof fn lines_are_as_wide_as_their_heads(
    name: Seq<char>,
    state: String,
    cpu: String,
    bits: u64,
    temp: String,
    used: String,
    total: String,
    rss: String,
    r: Results,
)
    requires
        name.len() <= 12,
        state@.len() <= 13,
        cpu@.len() <= 5,
        temp@.len() <= 7,
        used@.len() + total@.len() <= 14,
        rss@.len() <= 6,
        r.label@.len() <= 12,
        r.rate@.len() <= 9,
        r.mean@.len() <= 12,
        forall|k: int| 0 <= k < 5 ==> (#[trigger] r.shares@[k])@.len() <= 7,
        r.best@.len() <= 12,
    ensures
        status::machines_head().len() == 70,
        status::machine_text(
            name,
            Load::Beating {
                state,
                cpu: Some(cpu),
                temp: Some((bits, temp)),
                ram: Some((used, total, false)),
                rss: Some(rss),
            },
            false,
        ).len() == 71,
        status::results_head().len() == 85,
        status::results_text(r).len() == 86,
{
    reveal_strlit("MACHINE");
    reveal_strlit("STATUS");
    reveal_strlit("CPU");
    reveal_strlit("TEMP");
    reveal_strlit("RAM used/total");
    reveal_strlit("g2048");
    reveal_strlit("* training");
    reveal_strlit("* ");
    reveal_strlit("%");
    reveal_strlit("C");
    reveal_strlit(" / ");
    reveal_strlit(" GB");
    reveal_strlit("\n");
    reveal_strlit("RESULTS");
    reveal_strlit("games/s");
    reveal_strlit("mean score");
    reveal_strlit("2048");
    reveal_strlit("4096");
    reveal_strlit("8192");
    reveal_strlit("16384");
    reveal_strlit("32768");
    reveal_strlit("best");
    assert(r.shares@[0]@.len() <= 7 && r.shares@[1]@.len() <= 7 && r.shares@[2]@.len() <= 7
        && r.shares@[3]@.len() <= 7 && r.shares@[4]@.len() <= 7);
}

/// A page without colours: the headline, then a line for every machine under its head, a line
/// for every machine's results and one for all under theirs, and the foot, in this order.
pub proof fn pages_show_every_machine(
    h: Headline,
    ms: Seq<(String, Load)>,
    rs: Seq<Results>,
    total: Results,
    foot: Seq<char>,
    m: (String, Load),
    r: Results,
)
    ensures
        status::page_text(h, ms, rs, total, foot, false) == status::headline_text(h, false)
            + status::machines_head() + "\n"@ + status::machines_text(ms, false, ms.len() as int)
            + "\n"@ + status::results_head() + "\n"@ + status::all_results_text(
            rs,
            rs.len() as int,
        ) + status::results_text(total) + foot,
        status::machines_text(ms.push(m), false, (ms.len() + 1) as int) == status::machines_text(
            ms,
            false,
            ms.len() as int,
        ) + status::machine_text(m.0@, m.1, false),
        status::all_results_text(rs.push(r), (rs.len() + 1) as int) == status::all_results_text(
            rs,
            rs.len() as int,
        ) + status::results_text(r),
{
    lemma_machines_same(ms, ms.push(m), ms.len() as int);
    lemma_results_same(rs, rs.push(r), rs.len() as int);
}

proof fn lemma_machines_same(a: Seq<(String, Load)>, b: Seq<(String, Load)>, n: int)
    requires
        0 <= n <= a.len() <= b.len(),
        forall|i: int| 0 <= i < n ==> a[i] == b[i],
    ensures
        status::machines_text(a, false, n) == status::machines_text(b, false, n),
    decreases n,
{
    if n > 0 {
        lemma_machines_same(a, b, n - 1);
    }
}

proof fn lemma_results_same(a: Seq<Results>, b: Seq<Results>, n: int)
    requires
        0 <= n <= a.len() <= b.len(),
        forall|i: int| 0 <= i < n ==> a[i] == b[i],
    ensures
        status::all_results_text(a, n) == status::all_results_text(b, n),
    decreases n,
{
    if n > 0 {
        lemma_results_same(a, b, n - 1);
    }
}

/// A coordinator that restarts from its dump has the log that it had, update by update; only
/// their ages start anew.
pub proof fn logs_survive_a_restart(
    l: DeltaLog,
    out: Vec<u8>,
    written: String,
    bytes: &[u8],
    names: &str,
    now: u64,
    res: Option<DeltaLog>,
    i: int,
)
    requires
        call_ensures(DeltaLog::dump, (&l,), out),
        call_ensures(DeltaLog::dump_names, (&l,), written),
        call_ensures(DeltaLog::restore, (bytes, names, now), res),
        bytes@ == out@,
        names@ == written@,
        l@.valid(),
        l@.entries.len() <= u32::MAX,
        forall|k: int|
            0 <= k < l@.entries.len() ==> (#[trigger] l@.entries[k]).bytes.len() <= u32::MAX,
        0 <= i < l@.entries.len(),
    ensures
        res matches Some(back) ==> {
            &&& back@.seq == l@.seq
            &&& back@.saved_seq == l@.seq
            &&& back@.entries.len() == l@.entries.len()
            &&& back@.entries[i].seq == l@.entries[i].seq
            &&& back@.entries[i].from == l@.entries[i].from
            &&& back@.entries[i].bytes == l@.entries[i].bytes
            &&& back@.entries[i].at == now
        },
{
    crate::deltas::restarts_keep_the_log(l@, now);
}

/// An update that is logged gets the next number and stands last, with its sender, its bytes
/// and its time; the others stay.
pub proof fn updates_are_logged_in_order(
    l: &mut DeltaLog,
    from: String,
    bytes: Vec<u8>,
    now: u64,
    n: u64,
)
    requires
        call_ensures(DeltaLog::push, (l, from, bytes, now), n),
    ensures
        n == old(l)@.seq + 1,
        final(l)@.seq == n,
        final(l)@.saved_seq == old(l)@.saved_seq,
        final(l)@.entries.len() == old(l)@.entries.len() + 1,
        final(l)@.entries.drop_last() == old(l)@.entries,
        final(l)@.entries.last() == (DeltaView { seq: n, from: from@, bytes: bytes@, at: now }),
{
    assert(final(l)@.entries.drop_last() =~= old(l)@.entries);
}

/// A training game starts anew with two tiles, or from a saved board if the share of restarts
/// is above zero, the draw from a million falls into it, and there is one.
pub proof fn training_games_start_anew_or_saved<H: Fn(u32) -> bool>(
    layout: Layout,
    saved: RestartPool,
    rng: &mut Rng,
    restart: u32,
    hits: H,
    e: Episode,
)
    requires
        call_ensures(Episode::start::<H>, (&layout, &saved, rng, restart, hits), e),
        saved.boards().len() <= u32::MAX,
        forall|i: int|
            0 <= i < saved.boards().len() ==> (#[trigger] saved.boards()[i]).len() <= u32::MAX,
    ensures
        e.score == 0,
        e.after is None,
        e.stage == layout@.stage(e.board),
        e.fresh ==> play_laws::has_two_tiles(e.board),
        !e.fresh ==> play_laws::is_saved(saved.boards(), e.board) && floats::above32(restart, 0)
            && call_ensures(
            hits,
            (rng::drawn_below(rng::advance(old(rng).0), 1_000_000),),
            true,
        ),
        !play_laws::any_saved(saved.boards()) || !floats::above32(restart, 0) ==> e.fresh,
{
    let wanted = floats::above32(restart, 0);
    let hit = choose|hit: bool|
        (wanted ==> call_ensures(
            hits,
            (rng::drawn_below(rng::advance(old(rng).0), 1_000_000),),
            hit,
        )) && #[trigger] e.is_start(
            layout@,
            crate::episode::restart_of(saved.boards(), old(rng).0, wanted, hit),
            final(rng).0,
        );
    play_laws::games_start_anew_or_from_a_saved_board(
        e,
        layout@,
        saved.boards(),
        old(rng).0,
        wanted,
        hit,
        final(rng).0,
    );
}

/// A benchmark's report: all games, their moves and scores summed up, the best and the middle
/// score, and how many games reached each tile from 2048 on.
pub proof fn reports_sum_up_all_games(rs: Vec<GameResult>, res: Option<Report>, i: int, k: int)
    requires
        call_ensures(cli::report, (&rs,), res),
        0 <= i < rs@.len(),
        0 <= k < 5,
    ensures
        res matches Some(r) ==> {
            &&& r.games == rs@.len()
            &&& r.moves == rs@.fold_left(0int, |n: int, g: GameResult| n + g.moves)
            &&& r.score == rs@.fold_left(0int, |n: int, g: GameResult| n + g.score)
            &&& r.reached@[k] == report_laws::games_with(rs@, 11 + k).len()
            &&& rs@[i].score <= r.max
            &&& exists|j: int| 0 <= j < rs@.len() && (#[trigger] rs@[j]).score == r.max
            &&& exists|j: int| 0 <= j < rs@.len() && (#[trigger] rs@[j]).score == r.median
        },
{
    if let Some(r) = res {
        let (f, g) = (|g: GameResult| g.moves, |g: GameResult| g.score);
        report_laws::sums_are_over_all_games(rs@, f);
        report_laws::sums_are_over_all_games(rs@, g);
        lemma_fold_same(rs@, f, |n: int, g: GameResult| n + g.moves);
        lemma_fold_same(rs@, g, |n: int, g: GameResult| n + g.score);
        report_laws::counts_are_of_games(rs@, 11 + k);
        assert(r.reached@[k] == cli::count_reached(rs@, 11 + k, rs@.len() as int));
        let s = choose|s: Seq<u64>| #[trigger] cli::is_middle_and_max(rs@, s, r);
        report_laws::the_median_parts_the_games(rs@, s, r, i);
    }
}

proof fn lemma_fold_same(
    rs: Seq<GameResult>,
    f: spec_fn(GameResult) -> u64,
    h: spec_fn(int, GameResult) -> int,
)
    requires
        forall|n: int, g: GameResult| #[trigger] h(n, g) == n + f(g),
    ensures
        rs.fold_left(0int, h) == rs.fold_left(0int, |n: int, g: GameResult| n + f(g)),
    decreases rs.len(),
{
    if rs.len() > 0 {
        lemma_fold_same(rs.drop_last(), f, h);
    }
}

/// The argument after a flag, where the flag first stands, is its value.
pub proof fn flags_take_the_next_argument(
    args: Vec<String>,
    name: &str,
    v: Option<String>,
    i: int,
)
    requires
        call_ensures(cli::flag, (&args, name), v),
        0 <= i < args@.len(),
        args@[i]@ == name@,
        forall|j: int| 0 <= j < i ==> (#[trigger] args@[j])@ != name@,
    ensures
        i + 1 < args@.len() ==> (v matches Some(s) && s@ == args@[i + 1]@),
        i + 1 == args@.len() ==> v is None,
{
    report_laws::flags_are_found_where_they_first_stand(args@, name@, i);
}

/// What the heuristic sees in a packed row is what it sees in its four ranks.
pub proof fn rows_show_what_their_cells_show(r: u16, f: Features, l: Seq<u8>)
    requires
        call_ensures(ai::row_features, (r,), f),
        l == row::row_ranks(r),
    ensures
        f.empty == play_laws::one_if(l[0] == 0) + play_laws::one_if(l[1] == 0) + play_laws::one_if(
            l[2] == 0,
        ) + play_laws::one_if(l[3] == 0),
        f.merges == play_laws::paired_tiles(l.filter(|r: u8| r != 0)).len(),
        f.falls == play_laws::drop_of(l[0] as int, l[1] as int) + play_laws::drop_of(
            l[1] as int,
            l[2] as int,
        ) + play_laws::drop_of(l[2] as int, l[3] as int),
        f.rises == play_laws::drop_of(l[1] as int, l[0] as int) + play_laws::drop_of(
            l[2] as int,
            l[1] as int,
        ) + play_laws::drop_of(l[3] as int, l[2] as int),
{
    play_laws::lines_show_empty_cells_pairs_and_slopes(l, f);
}

/// The network sees a board as it is until there is a 32768 and some smaller tile is missing;
/// then the tiles above the largest that is missing are seen one step down.
pub proof fn networks_see_boards_one_step_down(b: Board, nb: Board, m: int, i: int)
    requires
        call_ensures(ntuple::downgrade, (b,), nb),
        0 <= i < 16,
        1 <= m <= 14,
        board::cells(b).contains(15),
        !board::cells(b).contains(m as u8),
        forall|r: u8| m < r <= 14 ==> #[trigger] board::cells(b).contains(r),
    ensures
        board::cell(b, i) > m ==> board::cell(nb, i) == board::cell(b, i) - 1,
        board::cell(b, i) <= m ==> board::cell(nb, i) == board::cell(b, i),
{
    weight_laws::boards_are_seen_one_step_down(b, m, i);
}

/// A network gains stages as copies of its last one, and loses none.
pub proof fn networks_grow_by_copies(net: &mut NTuple, n: usize, i: int)
    requires
        call_ensures(NTuple::expand_stages, (net, n), ()),
        old(net).wf(),
        0 <= i < final(net)@.w.len(),
    ensures
        ({
            let z = old(net)@.layout.stage_size() as int;
            &&& final(net)@.layout.tuples == old(net)@.layout.tuples
            &&& n > old(net)@.layout.stages ==> final(net)@.layout.stages == n
            &&& n <= old(net)@.layout.stages ==> final(net)@.layout.stages
                == old(net)@.layout.stages
            &&& i < old(net)@.w.len() ==> final(net)@.w[i] == old(net)@.w[i]
            &&& i >= old(net)@.w.len() ==> final(net)@.w[i] == final(net)@.w[i - z]
        }),
{
    old(net).lemma_wf();
    let l = old(net)@.layout;
    let (z, k) = (l.stage_size() as int, l.stages as int);
    let size = final(net)@.layout.size() as int;
    let stages = final(net)@.layout.stages as int;
    assert(old(net)@.w.len() == k * z);
    assert(size == stages * z);
    assert(z > 0 && z <= k * z) by (nonlinear_arith)
        requires
            z == l.tuples.len() * (ntuple::TUPLE_SIZE as nat),
            l.tuples.len() >= 1,
            k >= 1,
    ;
    assert(k * z <= stages * z) by (nonlinear_arith)
        requires
            k <= stages,
            z > 0,
    ;
    vstd::arithmetic::div_mod::lemma_mod_multiples_basic(k, z);
    wire_laws::new_stages_copy_the_last(old(net)@.w, old(net)@.tc, z, size, i);
}

/// Where a symmetry takes a cell, and which stage a board belongs to, come as the network's
/// shape says.
pub proof fn stages_and_symmetries_are_told(
    l: Layout,
    b: Board,
    s: usize,
    c: usize,
    to: [usize; 8],
    q: int,
)
    requires
        call_ensures(Layout::stage, (&l, b), s),
        call_ensures(ntuple::symmetries, (c,), to),
        l@.valid(),
        c < 16,
        0 <= q < 8,
    ensures
        (forall|i: int| 0 <= i < 16 ==> #[trigger] board::cell(b, i) < 14) ==> s == 0,
        s < l@.stages,
        to@[q] == ntuple::sym(q, c as int),
        to@[q] < 16,
        to@[0] == c,
{
    weight_laws::stages_open_with_big_tiles(l@, b);
}

/// Numbers are written with a comma before each group of three digits but the first.
pub proof fn numbers_are_grouped(digits: &str, s: String, m: int)
    requires
        call_ensures(columns::thousands, (digits,), s),
        0 <= m < digits@.len(),
    ensures
        s@.len() == digits@.len() + (digits@.len() - 1) / 3,
        s@[m + report_laws::commas_before(digits@.len() as int, m)] == digits@[m],
        m > 0 && (digits@.len() - m) % 3 == 0 ==> s@[m + report_laws::commas_before(
            digits@.len() as int,
            m,
        ) - 1] == ',',
{
    report_laws::digits_are_grouped_in_threes(digits@, m);
}

/// The method and the target of a request are the first two words of its first line; it has no
/// body and no token until a header says so.
pub proof fn requests_start_with_method_and_target(
    line: &str,
    r: Request,
    method: Seq<char>,
    target: Seq<char>,
    rest: Seq<char>,
)
    requires
        call_ensures(Request::new, (line,), r),
        text_laws::is_word(method),
        text_laws::is_word(target),
        line@ == method + seq![' '] + (target + seq![' '] + rest),
    ensures
        r.method@ == method,
        r.target@ == target,
        r.len == 0,
        !r.authed,
{
    text_laws::white_space_splits_words(method, ' ', target + seq![' '] + rest);
    text_laws::white_space_splits_words(target, ' ', rest);
    assert(text::words(line@)[0] == method);
    assert(text::words(line@)[1] == target);
}

/// Under the recipe a worker reads the recipe's alpha, cut as often as the games say, and its TC
/// switch; a job that does not ask for the recipe comes as it is.
pub proof fn jobs_come_with_the_recipes_settings<W: Fn(u32) -> String>(
    job: &str,
    games: u64,
    goal: u64,
    alpha: W,
    s: String,
)
    requires
        call_ensures(job::current_job::<W>, (job, games, goal, alpha), s),
        forall|n: u32, t: String| #[trigger]
            call_ensures(alpha, (n,), t) ==> !t@.contains('\n') && !t@.contains('\r'),
    ensures
        !job::asks_for_otd(job@) ==> s@ == job@,
        job::asks_for_otd(job@) ==> exists|cuts: u32, t: String|
            {
                &&& #[trigger] call_ensures(alpha, (cuts,), t)
                &&& cuts == (if 4 * games >= 3 * goal {
                    2int
                } else if 2 * games >= goal {
                    1
                } else {
                    0
                })
                &&& job::values_of(s@, "alpha"@).len() > 0
                &&& job::values_of(s@, "alpha"@)[0] == text::trimmed(t@)
                &&& job::values_of(s@, "tc"@).len() > 0
                &&& job::values_of(s@, "tc"@)[0] == (if 10 * games >= 9 * goal {
                    seq!['1']
                } else {
                    seq!['0']
                })
            },
{
    if job::asks_for_otd(job@) {
        let p = job::phase_at(games as nat, goal as nat);
        let t = choose|t: String| #[trigger]
            call_ensures(alpha, (p.cuts,), t) && s@ == job::scheduled(job@, t@, p.tc);
        assert(!t@.contains('\n') && !t@.contains('\r'));
        job::scheduled_settings_win(job@, t@, p.tc);
        assert(call_ensures(alpha, (p.cuts,), t));
    }
}

/// The foot of a page tells the master's update, how long ago it was saved, and how many updates
/// and whole megabytes the log holds.
pub proof fn pages_end_with_the_log(
    h: Headline,
    ms: Vec<(String, Load)>,
    rs: Vec<Results>,
    total: Results,
    seq: u64,
    saved: &str,
    held: usize,
    bytes: usize,
    s: String,
)
    requires
        call_ensures(
            status::status_page,
            (&h, &ms, &rs, &total, seq, saved, held, bytes, false),
            s,
        ),
    ensures
        ({
            let foot = "\nmaster: update "@ + text::decimal(seq as nat) + ", saved "@ + saved@
                + " ago, "@ + text::decimal(held as nat) + " updates held ("@ + text::decimal(
                (bytes / 0x10_0000) as nat,
            ) + " MB). Scores are over each machine's last 20 chunks.\n"@;
            s@ == status::page_text(h, ms@, rs@, total, foot, false)
        }),
{
}

/// A game of training begins with what there was and leaves what its last turn left; if it has
/// a result, nothing could move any more, and the result is that of its last board.
#[verifier::rlimit(40)]
pub proof fn training_plays_whole_games<P, T, O, M, G, H: Fn(u32) -> bool>(
    t: Teacher<P, T, O, M, G>,
    net: &mut NTuple,
    tables: Tables,
    rng: &mut Rng,
    alpha: u32,
    saved: &mut RestartPool,
    restart: u32,
    hits: H,
    turns: u32,
    stats: Option<EpisodeStats>,
) where
    P: Fn(u32, u32) -> u32,
    T: Fn(u32, u32) -> u32,
    O: Fn(u32, u32) -> u32,
    M: Fn(u32, u32) -> u32,
    G: Fn(u32, u32) -> u32,

    requires
        call_ensures(
            Teacher::<P, T, O, M, G>::train_episode::<H>,
            (&t, net, &tables, rng, alpha, saved, restart, hits, turns),
            stats,
        ),
    ensures
        final(net)@.layout == old(net)@.layout,
        exists|trace: Seq<Moment>|
            {
                &&& #[trigger] is_played(t, alpha, old(saved).cap(), trace)
                &&& trace.len() - 1 <= turns
                &&& trace[0].net == old(net)@
                &&& trace[0].boards == old(saved).boards()
                &&& trace[0].episode.score == 0
                &&& trace.last().net == final(net)@
                &&& trace.last().boards == final(saved).boards()
                &&& trace.last().state == final(rng).0
                &&& stats matches Some(r) ==> {
                    &&& r.score == trace.last().episode.score
                    &&& r.fresh == trace.last().episode.fresh
                    &&& trace.len() >= 2
                    &&& episode::moves(trace[trace.len() - 2].episode.board, 4).len() == 0
                }
                &&& stats is None ==> trace.len() - 1 == turns
            },
{
    let wanted = floats::above32(restart, 0);
    let before = (old(net)@, old(saved).boards(), old(rng).0);
    let after = (final(net)@, final(saved).boards(), final(rng).0);
    let (hit, trace) = choose|hit: bool, trace: Seq<Moment>| #[trigger]
        t.is_training(
            alpha,
            old(saved).cap(),
            turns as int,
            wanted,
            hit,
            before,
            after,
            trace,
            stats,
        );
    assert forall|j: int| 0 <= j < trace.len() - 1 implies t.is_turn(
        alpha,
        old(saved).cap(),
        #[trigger] trace[j],
        trace[j + 1],
    ) by {
        assert(t.is_next(alpha, old(saved).cap(), trace, j));
    }
    assert(is_played(t, alpha, old(saved).cap(), trace));
    if stats is Some {
        assert(!Teacher::<P, T, O, M, G>::goes_on(trace, trace.len() - 2));
    }
}

/// Each moment follows the one before it by a turn.
pub open spec fn is_played<P, T, O, M, G>(
    t: Teacher<P, T, O, M, G>,
    alpha: u32,
    cap: nat,
    trace: Seq<Moment>,
) -> bool where
    P: Fn(u32, u32) -> u32,
    T: Fn(u32, u32) -> u32,
    O: Fn(u32, u32) -> u32,
    M: Fn(u32, u32) -> u32,
    G: Fn(u32, u32) -> u32,
 {
    &&& trace.len() >= 1
    &&& forall|j: int|
        0 <= j < trace.len() - 1 ==> t.is_turn(alpha, cap, #[trigger] trace[j], trace[j + 1])
}

}
