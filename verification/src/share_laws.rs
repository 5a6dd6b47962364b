//! How the coordinator counts the machines: which reports and which machines make up a rate,
//! and what a machine's share is made of.

use crate::chunk::Chunk;
use crate::floats;
use crate::shares::Rates;
use crate::workers;
use crate::workers::WorkerView;
use vstd::prelude::*;

verus! {

/// The games of all reports.
pub open spec fn games_in(cs: Seq<Chunk>) -> int {
    cs.fold_left(0int, |n: int, c: Chunk| n + c.episodes)
}

/// The seconds of all reports, added up with `g` in the order in which they came.
pub open spec fn time_in(cs: Seq<Chunk>, g: spec_fn(u64, u64) -> u64) -> u64 {
    cs.fold_left(0u64, |s: u64, c: Chunk| g(s, c.secs))
}

/// `plus` adds as `g` does.
pub open spec fn adds_as<F: Fn(u64, u64) -> u64>(plus: F, g: spec_fn(u64, u64) -> u64) -> bool {
    forall|x: u64, y: u64, z: u64| #[trigger] call_ensures(plus, (x, y), z) ==> z == g(x, y)
}

/// The order in which `g` adds makes no difference.
pub open spec fn adds_in_any_order(g: spec_fn(u64, u64) -> u64) -> bool {
    forall|s: u64, x: u64, y: u64| #[trigger] g(g(s, x), y) == g(g(s, y), x)
}

proof fn lemma_games(cs: Seq<Chunk>, n: int)
    requires
        0 <= n <= cs.len(),
    ensures
        games_in(cs.take(n)) == workers::sum_of(cs, |c: Chunk| c.episodes, n),
    decreases n,
{
    if n > 0 {
        lemma_games(cs, n - 1);
        assert(cs.take(n).drop_last() =~= cs.take(n - 1));
        assert(cs.take(n).last() == cs[n - 1]);
    }
}

proof fn lemma_time<F: Fn(u64, u64) -> u64>(
    plus: F,
    g: spec_fn(u64, u64) -> u64,
    cs: Seq<Chunk>,
    sums: Seq<u64>,
    n: int,
)
    requires
        adds_as(plus, g),
        0 <= n <= cs.len(),
        workers::running_secs(plus, cs, sums, cs.len() as int),
    ensures
        time_in(cs.take(n), g) == sums[n],
    decreases n,
{
    if n > 0 {
        lemma_time(plus, g, cs, sums, n - 1);
        assert(cs.take(n).drop_last() =~= cs.take(n - 1));
        assert(cs.take(n).last() == cs[n - 1]);
        assert(call_ensures(plus, (sums[n - 1], cs[n - 1].secs), sums[n - 1 + 1]));
    }
}

/// A machine's pace is the games of all its recent reports, divided by the seconds of all of
/// them; where those seconds are none, it is zero.
pub proof fn paces_are_all_games_over_all_seconds<P, D, O, N>(
    rates: Rates<P, D, O, N>,
    g: spec_fn(u64, u64) -> u64,
    w: WorkerView,
    r: u64,
) where
    P: Fn(u64, u64) -> u64,
    D: Fn(u64, u64) -> u64,
    O: Fn(u64, u64) -> u64,
    N: Fn(u64) -> u32,

    requires
        adds_as(rates.plus, g),
        rates.is_pace(w, r),
    ensures
        0 <= games_in(w.recent) <= u64::MAX,
        floats::above64(time_in(w.recent, g), 0) ==> call_ensures(
            rates.per,
            (games_in(w.recent) as u64, time_in(w.recent, g)),
            r,
        ),
        !floats::above64(time_in(w.recent, g), 0) ==> r == 0,
{
    let n = w.recent.len() as int;
    let c = choose|c: Chunk| #[trigger]
        workers::is_recent_total(rates.plus, w.recent, c) && rates.is_rate(c, r);
    let sums = choose|sums: Seq<u64>| #[trigger]
        workers::running_secs(rates.plus, w.recent, sums, n) && c.secs == sums.last();
    lemma_games(w.recent, n);
    lemma_time(rates.plus, g, w.recent, sums, n);
    assert(w.recent.take(n) =~= w.recent);
    assert(c.episodes == games_in(w.recent));
    assert(c.secs == time_in(w.recent, g));
}

/// The order of a machine's reports makes no difference to its pace, where it makes none to
/// sums of seconds: two machines with the same reports have the same pace.
pub proof fn paces_are_the_same_in_any_order<P, D, O, N>(
    rates: Rates<P, D, O, N>,
    g: spec_fn(u64, u64) -> u64,
    one: WorkerView,
    two: WorkerView,
    r: u64,
    q: u64,
) where
    P: Fn(u64, u64) -> u64,
    D: Fn(u64, u64) -> u64,
    O: Fn(u64, u64) -> u64,
    N: Fn(u64) -> u32,

    requires
        adds_as(rates.plus, g),
        adds_in_any_order(g),
        is_definite64(rates.per),
        one.recent.to_multiset() == two.recent.to_multiset(),
        rates.is_pace(one, r),
        rates.is_pace(two, q),
    ensures
        q == r,
{
    lemma_any_order(one.recent, two.recent, g);
    paces_with_the_same_totals_are_the_same(rates, g, one, two, r, q);
}

proof fn lemma_any_order(a: Seq<Chunk>, b: Seq<Chunk>, g: spec_fn(u64, u64) -> u64)
    requires
        adds_in_any_order(g),
        a.to_multiset() == b.to_multiset(),
    ensures
        games_in(a) == games_in(b),
        time_in(a, g) == time_in(b, g),
{
    let f = |n: int, c: Chunk| n + c.episodes;
    assert(vstd::seq_lib::commutative_foldl(f));
    vstd::seq_lib::lemma_fold_left_permutation(a, b, f, 0int);
    let h = |s: u64, c: Chunk| g(s, c.secs);
    assert(vstd::seq_lib::commutative_foldl(h)) by {
        assert forall|x: Chunk, y: Chunk, v: u64| #[trigger] h(h(v, x), y) == h(h(v, y), x) by {
            assert(g(g(v, x.secs), y.secs) == g(g(v, y.secs), x.secs));
        }
    }
    vstd::seq_lib::lemma_fold_left_permutation(a, b, h, 0u64);
}

/// A machine's pace depends on nothing but the games and the seconds of its reports: with the
/// same totals the pace is the same, however many reports they came in.
pub proof fn paces_with_the_same_totals_are_the_same<P, D, O, N>(
    rates: Rates<P, D, O, N>,
    g: spec_fn(u64, u64) -> u64,
    one: WorkerView,
    two: WorkerView,
    r: u64,
    q: u64,
) where
    P: Fn(u64, u64) -> u64,
    D: Fn(u64, u64) -> u64,
    O: Fn(u64, u64) -> u64,
    N: Fn(u64) -> u32,

    requires
        adds_as(rates.plus, g),
        is_definite64(rates.per),
        games_in(one.recent) == games_in(two.recent),
        time_in(one.recent, g) == time_in(two.recent, g),
        rates.is_pace(one, r),
        rates.is_pace(two, q),
    ensures
        q == r,
{
    paces_are_all_games_over_all_seconds(rates, g, one, r);
    paces_are_all_games_over_all_seconds(rates, g, two, q);
}

/// An operation gives each pair of numbers one result.
pub open spec fn is_definite64<F: Fn(u64, u64) -> u64>(f: F) -> bool {
    forall|x: u64, y: u64, a: u64, b: u64|
        #![trigger call_ensures(f, (x, y), a), call_ensures(f, (x, y), b)]
        call_ensures(f, (x, y), a) && call_ensures(f, (x, y), b) ==> a == b
}

/// The sum of what `f` tells of all reports.
pub open spec fn sum_in(cs: Seq<Chunk>, f: spec_fn(Chunk) -> u64) -> int
    decreases cs.len(),
{
    if cs.len() == 0 {
        0
    } else {
        f(cs[0]) + sum_in(cs.skip(1), f)
    }
}

proof fn lemma_sum_in(cs: Seq<Chunk>, f: spec_fn(Chunk) -> u64, n: int)
    requires
        0 <= n <= cs.len(),
    ensures
        workers::sum_of(cs, f, n) + sum_in(cs.skip(n), f) == sum_in(cs, f),
    decreases n,
{
    if n == 0 {
        assert(cs.skip(0) =~= cs);
    } else {
        lemma_sum_in(cs, f, n - 1);
        assert(cs.skip(n - 1).skip(1) =~= cs.skip(n));
        assert(cs.skip(n - 1)[0] == cs[n - 1]);
    }
}

/// A sum over reports is over all of them.
pub proof fn sums_are_over_all_reports(cs: Seq<Chunk>, f: spec_fn(Chunk) -> u64)
    ensures
        workers::sum_of(cs, f, cs.len() as int) == sum_in(cs, f),
{
    lemma_sum_in(cs, f, cs.len() as int);
    assert(cs.skip(cs.len() as int) =~= seq![]);
}

proof fn lemma_best_of(cs: Seq<Chunk>, n: int)
    requires
        0 <= n <= cs.len(),
    ensures
        forall|i: int| 0 <= i < n ==> (#[trigger] cs[i]).best <= workers::best_of(cs, n),
        workers::best_of(cs, n) == 0 || exists|i: int|
            0 <= i < n && (#[trigger] cs[i]).best == workers::best_of(cs, n),
    decreases n,
{
    if n > 0 {
        lemma_best_of(cs, n - 1);
    }
}

/// The totals of a machine's reports are the sums over all of them, and the best score is the
/// best of them.
pub proof fn totals_are_of_all_reports<F: Fn(u64, u64) -> u64>(
    plus: F,
    recent: Seq<Chunk>,
    c: Chunk,
)
    requires
        workers::is_recent_total(plus, recent, c),
    ensures
        c.episodes == sum_in(recent, |c: Chunk| c.episodes),
        c.fresh == sum_in(recent, |c: Chunk| c.fresh),
        c.score == sum_in(recent, |c: Chunk| c.score),
        forall|k: int|
            0 <= k < 5 ==> #[trigger] c.reached@[k] == sum_in(recent, |c: Chunk| c.reached@[k]),
        forall|i: int| 0 <= i < recent.len() ==> (#[trigger] recent[i]).best <= c.best,
        c.best == 0 || exists|i: int| 0 <= i < recent.len() && (#[trigger] recent[i]).best == c.best,
{
    let n = recent.len() as int;
    assert(recent.skip(n) =~= seq![]);
    lemma_sum_in(recent, |c: Chunk| c.episodes, n);
    lemma_sum_in(recent, |c: Chunk| c.fresh, n);
    lemma_sum_in(recent, |c: Chunk| c.score, n);
    assert forall|k: int| 0 <= k < 5 implies #[trigger] c.reached@[k] == sum_in(
        recent,
        |c: Chunk| c.reached@[k],
    ) by {
        let f = |c: Chunk| c.reached@[k];
        assert(workers::reached_in(k) =~= f);
        lemma_sum_in(recent, f, n);
        assert(c.reached@[k] == workers::sum_of(recent, workers::reached_in(k), n));
    }
    lemma_best_of(recent, n);
}

/// With no machines nothing is played. One machine more adds its pace if it was heard of less
/// than ten minutes ago, and else nothing.
pub proof fn live_machines_add_their_pace<P, D, O, N>(
    rates: Rates<P, D, O, N>,
    ws: Seq<WorkerView>,
    w: WorkerView,
    now: u64,
    r: u64,
) where
    P: Fn(u64, u64) -> u64,
    D: Fn(u64, u64) -> u64,
    O: Fn(u64, u64) -> u64,
    N: Fn(u64) -> u32,

    ensures
        rates.is_live_rate(seq![], now, r) <==> r == 0,
        now - w.last_seen < 600_000_000_000 ==> (rates.is_live_rate(ws.push(w), now, r)
            <==> exists|s: u64, p: u64| #[trigger]
            rates.is_live_rate(ws, now, s) && #[trigger] rates.is_pace(w, p) && call_ensures(
                rates.plus,
                (s, p),
                r,
            )),
        now - w.last_seen >= 600_000_000_000 ==> (rates.is_live_rate(ws.push(w), now, r)
            <==> rates.is_live_rate(ws, now, r)),
{
    let all = ws.push(w);
    let none = Seq::<WorkerView>::empty();
    let n = ws.len() as int;
    if rates.is_live_rate(none, now, r) {
        let sums = choose|sums: Seq<u64>| #[trigger]
            rates.are_sums(none, now, sums, none.len() as int) && r == sums.last();
        assert(sums.last() == sums[0]);
    }
    if r == 0 {
        assert(rates.are_sums(none, now, seq![0u64], none.len() as int));
    }
    if rates.is_live_rate(all, now, r) {
        let sums = choose|sums: Seq<u64>| #[trigger]
            rates.are_sums(all, now, sums, all.len() as int) && r == sums.last();
        let fewer = sums.take(n + 1);
        assert(rates.is_added(all[n], now, sums[n], sums[n + 1]));
        assert forall|i: int| #![trigger ws[i]] 0 <= i < n implies rates.is_added(
            ws[i],
            now,
            fewer[i],
            fewer[i + 1],
        ) by {
            assert(all[i] == ws[i]);
        }
        assert(rates.are_sums(ws, now, fewer, n));
        assert(rates.is_live_rate(ws, now, sums[n]));
    }
    assert forall|s: u64|
        #[trigger] rates.is_live_rate(ws, now, s) && rates.is_added(w, now, s, r) implies
        rates.is_live_rate(all, now, r) by {
        let sums = choose|sums: Seq<u64>| #[trigger]
            rates.are_sums(ws, now, sums, n) && s == sums.last();
        let more = sums.push(r);
        assert forall|i: int| #![trigger all[i]] 0 <= i < n + 1 implies rates.is_added(
            all[i],
            now,
            more[i],
            more[i + 1],
        ) by {
            if i < n {
                assert(all[i] == ws[i]);
            }
        }
        assert(rates.are_sums(all, now, more, n + 1));
    }
}

/// A machine that is not heard of any more makes no difference to what all machines play,
/// wherever it stands.
pub proof fn silent_machines_do_not_count<P, D, O, N>(
    rates: Rates<P, D, O, N>,
    ws: Seq<WorkerView>,
    k: int,
    now: u64,
    r: u64,
) where
    P: Fn(u64, u64) -> u64,
    D: Fn(u64, u64) -> u64,
    O: Fn(u64, u64) -> u64,
    N: Fn(u64) -> u32,

    requires
        0 <= k < ws.len(),
        now - ws[k].last_seen >= 600_000_000_000,
        rates.is_live_rate(ws, now, r),
    ensures
        rates.is_live_rate(ws.remove(k), now, r),
{
    let n = ws.len() as int;
    let sums = choose|sums: Seq<u64>| #[trigger]
        rates.are_sums(ws, now, sums, n) && r == sums.last();
    let (rest, left) = (ws.remove(k), sums.remove(k + 1));
    assert(rates.is_added(ws[k], now, sums[k], sums[k + 1]));
    assert forall|i: int| #![trigger rest[i]] 0 <= i < n - 1 implies rates.is_added(
        rest[i],
        now,
        left[i],
        left[i + 1],
    ) by {
        let j = if i < k {
            i
        } else {
            i + 1
        };
        assert(rest[i] == ws[j]);
        assert(rates.is_added(ws[j], now, sums[j], sums[j + 1]));
    }
    assert(rates.are_sums(rest, now, left, rest.len() as int));
    assert(left.last() == r);
}

/// What a share is made of: `kept` is the quotient itself where it lies between a twentieth
/// and one, and else the nearer of the two.
pub open spec fn is_kept(q: u64, kept: u64) -> bool {
    let (least, most) = (
        floats::place64(0x3FA9_9999_9999_999A),
        floats::place64(0x3FF0_0000_0000_0000),
    );
    &&& floats::place64(q) < least ==> kept == 0x3FA9_9999_9999_999A
    &&& floats::place64(q) > most ==> kept == 0x3FF0_0000_0000_0000
    &&& least <= floats::place64(q) <= most ==> kept == q
}

/// A share of some machine: its own pace over that of all live machines.
pub open spec fn is_quotient<P, D, O, N>(
    rates: Rates<P, D, O, N>,
    mine: u64,
    all: u64,
    s: u32,
) -> bool where
    P: Fn(u64, u64) -> u64,
    D: Fn(u64, u64) -> u64,
    O: Fn(u64, u64) -> u64,
    N: Fn(u64) -> u32,
 {
    if floats::above64(all, 0) {
        exists|q: u64, kept: u64|
            {
                &&& #[trigger] call_ensures(rates.over, (mine, all), q)
                &&& #[trigger] call_ensures(rates.narrow, (kept,), s)
                &&& floats::is_nan64(q) || is_kept(q, kept)
            }
    } else {
        s == 0x3F80_0000
    }
}

/// The share of a machine is its own pace over the pace of all that are live, kept between a
/// twentieth and one; where nothing is played it is the whole. A machine that is not known
/// plays nothing.
pub proof fn shares_are_own_pace_over_all<P, D, O, N>(
    rates: Rates<P, D, O, N>,
    ws: Seq<WorkerView>,
    name: Seq<char>,
    now: u64,
    s: u32,
) where
    P: Fn(u64, u64) -> u64,
    D: Fn(u64, u64) -> u64,
    O: Fn(u64, u64) -> u64,
    N: Fn(u64) -> u32,

    requires
        workers::by_name(ws),
        rates.is_share(ws, name, now, s),
    ensures
        exists|mine: u64, all: u64|
            {
                &&& #[trigger] rates.is_live_rate(ws, now, all)
                &&& #[trigger] is_quotient(rates, mine, all, s)
                &&& forall|i: int|
                    0 <= i < ws.len() && (#[trigger] ws[i]).name == name ==> rates.is_pace(
                        ws[i],
                        mine,
                    )
                &&& (forall|i: int| 0 <= i < ws.len() ==> (#[trigger] ws[i]).name != name) ==> mine
                    == 0
            },
{
    let (mine, all) = choose|mine: u64, all: u64|
        {
            &&& #[trigger] rates.is_own_rate(ws, name, mine)
            &&& #[trigger] rates.is_live_rate(ws, now, all)
            &&& rates.is_part(mine, all, s)
        };
    workers::known_names_are_listed(ws, name);
    if workers::knows(ws, name) {
        let p = workers::place_of(ws, name);
        workers::entering_keeps_the_order(ws, name, now);
        assert forall|i: int| 0 <= i < ws.len() && (#[trigger] ws[i]).name == name implies i
            == p by {
            crate::text::lemma_precedes_total(name, name);
            if i < p {
                assert(crate::text::precedes(ws[i].name, ws[p].name));
            } else if p < i {
                assert(crate::text::precedes(ws[p].name, ws[i].name));
            }
        }
    }
    if floats::above64(all, 0) {
        let q = choose|q: u64| #[trigger]
            call_ensures(rates.over, (mine, all), q) && call_ensures(
                rates.narrow,
                (crate::shares::clamped(q),),
                s,
            );
        assert(floats::is_nan64(q) || is_kept(q, crate::shares::clamped(q)));
    }
    assert(is_quotient(rates, mine, all, s));
}

/// A report makes its machine the latest heard of, stands last among its recent reports, and
/// adds to the games it has played; the twenty latest reports stay, in their order. Every
/// other machine is as it was.
pub proof fn reports_go_to_their_machine(
    ws: Seq<WorkerView>,
    name: Seq<char>,
    c: Chunk,
    now: u64,
    i: int,
)
    requires
        workers::by_name(ws),
        0 <= i < ws.len(),
        ws[i].name == name ==> ws[i].total_episodes + c.episodes <= u64::MAX,
    ensures
        ({
            let to = workers::recorded(ws, name, c, now);
            exists|j: int|
                {
                    &&& 0 <= j < to.len()
                    &&& (#[trigger] to[j]).name == ws[i].name
                    &&& to[j].beat == ws[i].beat
                    &&& ws[i].name != name ==> to[j] == ws[i]
                    &&& ws[i].name == name ==> {
                        &&& to[j].last_seen == now
                        &&& to[j].total_episodes == ws[i].total_episodes + c.episodes
                        &&& ws[i].recent.len() < 20 ==> to[j].recent == ws[i].recent.push(c)
                        &&& ws[i].recent.len() == 20 ==> {
                            &&& to[j].recent.len() == 20
                            &&& to[j].recent[19] == c
                            &&& forall|k: int|
                                0 <= k < 19 ==> #[trigger] to[j].recent[k] == ws[i].recent[k + 1]
                        }
                    }
                }
        }),
{
    let to = workers::recorded(ws, name, c, now);
    let p = workers::place_of(ws, name);
    workers::known_names_are_listed(ws, name);
    workers::entering_keeps_the_order(ws, name, now);
    if workers::knows(ws, name) {
        crate::text::lemma_precedes_total(name, name);
        if ws[i].name == name && i < p {
            assert(crate::text::precedes(ws[i].name, ws[p].name));
        } else if ws[i].name == name && p < i {
            assert(crate::text::precedes(ws[p].name, ws[i].name));
        }
        assert(to[i].name == ws[i].name);
    } else if i < p {
        assert(to[i] == ws[i]);
    } else {
        assert(to[i + 1] == ws[i]);
    }
}

/// The first report of a machine enters it, with nothing but that report.
pub proof fn new_machines_start_with_their_report(
    ws: Seq<WorkerView>,
    name: Seq<char>,
    c: Chunk,
    now: u64,
)
    requires
        workers::by_name(ws),
        forall|i: int| 0 <= i < ws.len() ==> (#[trigger] ws[i]).name != name,
    ensures
        ({
            let to = workers::recorded(ws, name, c, now);
            &&& to.len() == ws.len() + 1
            &&& exists|j: int|
                {
                    &&& 0 <= j < to.len()
                    &&& (#[trigger] to[j]).name == name
                    &&& to[j].last_seen == now
                    &&& to[j].total_episodes == c.episodes
                    &&& to[j].recent == seq![c]
                    &&& to[j].beat is None
                }
        }),
{
    let to = workers::recorded(ws, name, c, now);
    let p = workers::place_of(ws, name);
    workers::known_names_are_listed(ws, name);
    workers::entering_keeps_the_order(ws, name, now);
    assert(to[p].name == name);
    assert(Seq::<Chunk>::empty().push(c) =~= seq![c]);
}

}
