//! When calls refuse, and what is made of input that is cut short, odd or missing.

use crate::bundle;
use crate::bundle::End;
use crate::chunk;
use crate::chunk::Chunk;
use crate::codec;
use crate::coord::Coord;
use crate::deltas;
use crate::http;
use crate::http::Query;
use crate::job;
use crate::le;
use crate::load;
use crate::ntuple::{Layout, NTuple};
use crate::select;
use crate::share_laws;
use crate::text;
use crate::worker;
use crate::workers;
use crate::workers::Worker;
use vstd::prelude::*;

verus! {

/// The changes that are larger than change `i`.
pub open spec fn larger_than(raw: Seq<(u32, u32)>, i: int) -> Set<int> {
    Set::new(
        |j: int| 0 <= j < raw.len() && raw[j].1 % 0x8000_0000 > raw[i].1 % 0x8000_0000,
    )
}

proof fn lemma_larger(raw: Seq<(u32, u32)>, t: int, n: int)
    requires
        0 <= n <= raw.len(),
    ensures
        ({
            let s = Set::new(|j: int| 0 <= j < n && raw[j].1 % 0x8000_0000 > t);
            s.finite() && s.len() == select::count_above(raw.take(n), t)
        }),
    decreases n,
{
    let s = Set::new(|j: int| 0 <= j < n && raw[j].1 % 0x8000_0000 > t);
    if n == 0 {
        assert(s =~= Set::empty());
    } else {
        lemma_larger(raw, t, n - 1);
        assert(raw.take(n).drop_last() =~= raw.take(n - 1));
        assert(raw.take(n).last() == raw[n - 1]);
        let u = Set::new(|j: int| 0 <= j < n - 1 && raw[j].1 % 0x8000_0000 > t);
        if raw[n - 1].1 % 0x8000_0000 > t {
            assert(s =~= u.insert(n - 1));
        } else {
            assert(s =~= u);
        }
    }
}

/// A worker's changes can be sent unless one of the largest that may go has no bf16: one that
/// fewer are larger than may go.
pub proof fn changes_can_be_sent_if_the_largest_round(
    raw: Vec<(u32, u32)>,
    keep: usize,
    yes: bool,
)
    requires
        call_ensures(select::can_pick, (&raw, keep), yes),
        raw@.len() > keep,
    ensures
        yes <==> forall|i: int|
            #![trigger raw@[i]]
            0 <= i < raw@.len() && larger_than(raw@, i).len() < keep ==> raw@[i].1 < 0xFFFF_8000,
{
    assert forall|i: int| #![trigger raw@[i]] 0 <= i < raw@.len() implies select::count_above(
        raw@,
        select::size_of(raw@[i].1) as int,
    ) == larger_than(raw@, i).len() by {
        let t = select::size_of(raw@[i].1) as int;
        lemma_larger(raw@, t, raw@.len() as int);
        assert(raw@.take(raw@.len() as int) =~= raw@);
        assert(Set::new(|j: int| 0 <= j < raw@.len() && raw@[j].1 % 0x8000_0000 > t)
            =~= larger_than(raw@, i));
    }
    assert forall|i: int| #![trigger raw@[i]] 0 <= i < raw@.len() implies (codec::rounds(
        raw@[i].1,
    ) <==> raw@[i].1 < 0xFFFF_8000) by {
        crate::wire_laws::the_nearest_short_value_is_carried(raw@[i].1, 0);
    }
    if yes {
        assert forall|i: int|
            #![trigger raw@[i]]
            0 <= i < raw@.len() && larger_than(raw@, i).len() < keep implies raw@[i].1
            < 0xFFFF_8000 by {
            assert(select::may_stay(raw@, keep as nat, raw@[i].1));
        }
    } else {
        let i = choose|i: int|
            0 <= i < raw@.len() && select::may_stay(raw@, keep as nat, #[trigger] raw@[i].1)
                && !codec::rounds(raw@[i].1);
        assert(larger_than(raw@, i).len() < keep);
    }
}

/// A gap has at most five groups: the fifth ends it, marked or not, and what they add up to is
/// cut to 32 bits.
#[verifier::rlimit(40)]
pub proof fn gaps_end_with_their_fifth_group(bytes: Seq<u8>, p: int)
    requires
        0 <= p,
        p + 5 <= bytes.len(),
        bytes[p] >= 128,
        bytes[p + 1] >= 128,
        bytes[p + 2] >= 128,
        bytes[p + 3] >= 128,
    ensures
        codec::gap_at(bytes, p) == Some(
            (
                ((bytes[p] % 128 + 0x80 * (bytes[p + 1] % 128) + 0x4000 * (bytes[p + 2] % 128)
                    + 0x20_0000 * (bytes[p + 3] % 128) + 0x1000_0000 * (bytes[p + 4] % 128))
                    % 0x1_0000_0000) as nat,
                5nat,
            ),
        ),
{
    reveal_with_fuel(codec::groups_at, 6);
}

/// A gap that the bytes end in is none, and one group that is not marked is a gap.
pub proof fn gaps_need_their_last_group(bytes: Seq<u8>, p: int)
    requires
        0 <= p,
    ensures
        p >= bytes.len() ==> codec::gap_at(bytes, p) is None,
        p < bytes.len() && bytes[p] < 128 ==> codec::gap_at(bytes, p) == Some(
            (bytes[p] as nat, 1nat),
        ),
        p == bytes.len() - 1 && bytes[p] >= 128 ==> codec::gap_at(bytes, p) is None,
{
    reveal_with_fuel(codec::groups_at, 3);
}

proof fn lemma_frames_then(
    bytes: Seq<u8>,
    pos: int,
    sent: Seq<Seq<(u32, u32)>>,
    tail: Seq<u8>,
    m: nat,
    seq: u64,
)
    requires
        0 <= pos <= bytes.len(),
        forall|i: int| 0 <= i < sent.len() ==> bundle::sendable(#[trigger] sent[i]),
        bytes.skip(pos) == bundle::frames_bytes(bundle::frames_of(sent)) + tail,
        m > 0,
        tail.len() < 4,
    ensures
        bundle::frames_at(bytes, pos, sent.len() + m, seq) == (
            sent.map_values(|d: Seq<(u32, u32)>| codec::received(d)),
            End::Malformed,
        ),
    decreases sent.len(),
{
    let taken = sent.map_values(|d: Seq<(u32, u32)>| codec::received(d));
    let all = bytes.skip(pos);
    if sent.len() == 0 {
        assert(taken =~= seq![]);
        assert(bundle::frames_bytes(bundle::frames_of(sent)) + tail =~= tail);
        assert(all.len() == bytes.len() - pos);
    } else {
        let d = sent[0];
        let rest = sent.skip(1);
        let frame = codec::encoded(d);
        let frames = bundle::frames_of(sent);
        assert(bundle::sendable(d));
        assert(frames[0] == frame);
        assert(frames.skip(1) =~= bundle::frames_of(rest));
        let head = le::le32(frame.len() as u32);
        let more = bundle::frames_bytes(bundle::frames_of(rest)) + tail;
        assert(all =~= head + frame + more);
        assert(all.len() == bytes.len() - pos);
        assert(bytes.subrange(pos, pos + 4) =~= head) by {
            assert forall|i: int| 0 <= i < 4 implies bytes[pos + i] == head[i] by {
                assert(all[i] == bytes[pos + i]);
            }
        }
        le::lemma_read32(bytes, pos, frame.len() as u32);
        let next = pos + 4 + frame.len();
        assert(bytes.subrange(pos + 4, next) =~= frame) by {
            assert forall|i: int| 0 <= i < frame.len() implies bytes[pos + 4 + i] == frame[i] by {
                assert(all[4 + i] == bytes[pos + 4 + i]);
            }
        }
        codec::encoding_then_decoding_rounds(d);
        assert(bytes.skip(next) =~= more) by {
            assert forall|i: int| 0 <= i < more.len() implies bytes[next + i] == more[i] by {
                assert(all[4 + frame.len() + i] == bytes[next + i]);
            }
        }
        assert forall|i: int| 0 <= i < rest.len() implies bundle::sendable(#[trigger] rest[i]) by {
            assert(bundle::sendable(sent[i + 1]));
        }
        lemma_frames_then(bytes, next, rest, tail, m, seq);
        assert(taken =~= seq![codec::received(d)] + rest.map_values(
            |d: Seq<(u32, u32)>| codec::received(d),
        ));
    }
}

/// An answer that is cut short is used as far as it goes: every delta before the cut is there,
/// and the worker is told that more should be.
pub proof fn cut_answers_are_used_as_far_as_they_go(
    seq: u64,
    sent: Seq<Seq<(u32, u32)>>,
    n: u32,
    tail: Seq<u8>,
)
    requires
        sent.len() < n,
        tail.len() < 4,
        forall|i: int| 0 <= i < sent.len() ==> bundle::sendable(#[trigger] sent[i]),
    ensures
        bundle::pulled(
            le::le64(seq) + le::le32(n) + bundle::frames_bytes(bundle::frames_of(sent)) + tail,
        ) == (sent.map_values(|d: Seq<(u32, u32)>| codec::received(d)), End::Malformed),
        bundle::pulled(tail).1 == End::Malformed,
{
    let frames = bundle::frames_bytes(bundle::frames_of(sent));
    let bytes = le::le64(seq) + le::le32(n) + frames + tail;
    assert(bytes.subrange(0, 8) =~= le::le64(seq));
    le::lemma_read64(bytes, 0, seq);
    assert(bytes.subrange(8, 12) =~= le::le32(n));
    le::lemma_read32(bytes, 8, n);
    assert(bytes.skip(12) =~= frames + tail);
    lemma_frames_then(bytes, 12, sent, tail, (n - sent.len()) as nat, seq);
}

/// A dump is no log if it is too short, if it does not name the sender of each update, or if it
/// holds more updates than there were.
pub proof fn dumps_name_the_sender_of_each_update(bytes: Seq<u8>, names: Seq<char>, now: u64)
    ensures
        bytes.len() < 12 ==> deltas::restored(bytes, names, now) is None,
        text::lines(names).len() != le::read32(bytes, 8) ==> deltas::restored(bytes, names, now)
            is None,
        le::read32(bytes, 8) > le::read64(bytes, 0) ==> deltas::restored(bytes, names, now)
            is None,
{
}

/// The reports of a machine add up unless a count over all of them leaves 64 bits.
pub proof fn reports_add_up_unless_a_count_overflows<F: Fn(u64, u64) -> u64>(
    w: Worker,
    plus: F,
    res: Option<Chunk>,
)
    requires
        call_ensures(Worker::recent_total::<F>, (&w, &plus), res),
    ensures
        res is None ==> share_laws::sum_in(w@.recent, |c: Chunk| c.episodes) > u64::MAX
            || share_laws::sum_in(w@.recent, |c: Chunk| c.fresh) > u64::MAX || share_laws::sum_in(
            w@.recent,
            |c: Chunk| c.score,
        ) > u64::MAX || exists|k: int|
            0 <= k < 5 && #[trigger] share_laws::sum_in(w@.recent, workers::reached_in(k))
                > u64::MAX,
        res matches Some(c) ==> c.episodes == share_laws::sum_in(
            w@.recent,
            |c: Chunk| c.episodes,
        ) && c.fresh == share_laws::sum_in(w@.recent, |c: Chunk| c.fresh) && c.score
            == share_laws::sum_in(w@.recent, |c: Chunk| c.score),
{
    share_laws::sums_are_over_all_reports(w@.recent, |c: Chunk| c.episodes);
    share_laws::sums_are_over_all_reports(w@.recent, |c: Chunk| c.fresh);
    share_laws::sums_are_over_all_reports(w@.recent, |c: Chunk| c.score);
    if res is None {
        assert forall|k: int| 0 <= k < 5 implies workers::sum_of(
            w@.recent,
            #[trigger] workers::reached_in(k),
            w@.recent.len() as int,
        ) == share_laws::sum_in(w@.recent, workers::reached_in(k)) by {
            share_laws::sums_are_over_all_reports(w@.recent, workers::reached_in(k));
        }
        if workers::sum_of(w@.recent, |c: Chunk| c.episodes, w@.recent.len() as int) <= u64::MAX
            && workers::sum_of(w@.recent, |c: Chunk| c.fresh, w@.recent.len() as int) <= u64::MAX
            && workers::sum_of(w@.recent, |c: Chunk| c.score, w@.recent.len() as int)
            <= u64::MAX {
            let k = choose|k: int|
                0 <= k < 5 && workers::sum_of(
                    w@.recent,
                    #[trigger] workers::reached_in(k),
                    w@.recent.len() as int,
                ) > u64::MAX;
            assert(share_laws::sum_in(w@.recent, workers::reached_in(k)) > u64::MAX);
        }
    }
}

/// Two chunks can be added if none of their counts leaves 64 bits.
pub proof fn chunks_can_be_added_if_they_fit(a: Chunk, b: Chunk, yes: bool)
    requires
        call_ensures(Chunk::can_add, (&a, &b), yes),
    ensures
        yes <==> a.episodes + b.episodes < 0x1_0000_0000_0000_0000 && a.fresh + b.fresh
            < 0x1_0000_0000_0000_0000 && a.score + b.score < 0x1_0000_0000_0000_0000
            && a.reached@[0] + b.reached@[0] < 0x1_0000_0000_0000_0000 && a.reached@[1]
            + b.reached@[1] < 0x1_0000_0000_0000_0000 && a.reached@[2] + b.reached@[2]
            < 0x1_0000_0000_0000_0000 && a.reached@[3] + b.reached@[3] < 0x1_0000_0000_0000_0000
            && a.reached@[4] + b.reached@[4] < 0x1_0000_0000_0000_0000,
{
}

/// A report can be counted if the games of all machines and those of its own still fit 64 bits
/// with it; a delta can be merged if there is a number left for it and the log can count its
/// bytes.
pub proof fn coordinators_take_what_fits(
    c: Coord,
    name: &str,
    r: Chunk,
    room: bool,
    n: usize,
    space: bool,
)
    requires
        call_ensures(Coord::has_room_for, (&c, name, &r), room),
        call_ensures(Coord::has_space_for, (&c, n), space),
        workers::by_name(c.workers@),
    ensures
        room <==> c.episodes + r.episodes < 0x1_0000_0000_0000_0000 && forall|i: int|
            0 <= i < c.workers@.len() && (#[trigger] c.workers@[i]).name == name@
                ==> c.workers@[i].total_episodes + r.episodes < 0x1_0000_0000_0000_0000,
        space <==> c.log@.seq < u64::MAX && deltas::total_bytes(c.log@.entries) + 4 + 7 * n
            <= usize::MAX,
{
    let ws = c.workers@;
    workers::known_names_are_listed(ws, name@);
    workers::entering_keeps_the_order(ws, name@, 0);
    if workers::knows(ws, name@) {
        let p = workers::place_of(ws, name@);
        text::lemma_precedes_total(name@, name@);
        assert(ws[p].name == name@);
        assert forall|i: int| 0 <= i < ws.len() && (#[trigger] ws[i]).name == name@ implies i
            == p by {
            if i < p {
                assert(text::precedes(ws[i].name, ws[p].name));
            } else if p < i {
                assert(text::precedes(ws[p].name, ws[i].name));
            }
        }
    }
}

/// A job follows the recipe exactly if the first schedule that it names is that one.
pub proof fn jobs_follow_the_schedule_they_name(job: &str, yes: bool)
    requires
        call_ensures(job::follows_otd, (job,), yes),
    ensures
        yes <==> job::values_of(job@, "schedule"@).len() > 0 && job::values_of(
            job@,
            "schedule"@,
        )[0] == "otd"@,
{
}

/// What hexadecimal digits count.
pub open spec fn hex_value(s: Seq<char>) -> int
    decreases s.len(),
{
    if s.len() == 0 {
        0
    } else {
        let c = s.last() as u32;
        16 * hex_value(s.drop_last()) + if c < 58 {
            c - 48
        } else {
            c - 87
        }
    }
}

proof fn lemma_hex_value(x: nat, n: nat)
    ensures
        worker::hex_text(x, n).len() == n,
        hex_value(worker::hex_text(x, n)) == x % vstd::arithmetic::power2::pow2(4 * n),
    decreases n,
{
    let s = worker::hex_text(x, n);
    if n == 0 {
        vstd::arithmetic::power2::lemma2_to64();
    } else {
        let m = (n - 1) as nat;
        lemma_hex_value(x / 16, m);
        assert(s.drop_last() =~= worker::hex_text(x / 16, m));
        let p = vstd::arithmetic::power2::pow2(4 * m) as int;
        vstd::arithmetic::power2::lemma_pow2_adds(4, 4 * m);
        vstd::arithmetic::power2::lemma2_to64();
        vstd::arithmetic::power2::lemma_pow2_pos(4 * m);
        assert(vstd::arithmetic::power2::pow2(4 * n) == 16 * p);
        vstd::arithmetic::div_mod::lemma_mod_breakdown(x as int, 16, p);
    }
}

/// A run is named by its machine, a dash, and its number in eight hexadecimal digits.
pub proof fn runs_are_named_by_their_number(name: &str, run: u32, s: String)
    requires
        call_ensures(worker::run_name, (name, run), s),
    ensures
        s@.len() == name@.len() + 9,
        s@.take(name@.len() as int) == name@,
        s@[name@.len() as int] == '-',
        hex_value(s@.skip((name@.len() + 1) as int)) == run,
{
    reveal_strlit("-");
    lemma_hex_value(run as nat, 8);
    vstd::arithmetic::power2::lemma2_to64();
    let n = name@.len() as int;
    assert(s@.take(n) =~= name@);
    assert(s@.skip(n + 1) =~= worker::hex_text(run as nat, 8));
    assert(4 * 8nat == 32);
    assert(vstd::arithmetic::power2::pow2(4 * 8) == 0x1_0000_0000);
    vstd::arithmetic::div_mod::lemma_small_mod(run as nat, 0x1_0000_0000);
}

/// Pairs are added at the end of a query, numbers in decimal.
pub proof fn queries_grow_at_the_end(
    q: &mut Query,
    key: &str,
    value: &str,
    r: &mut Query,
    n: u64,
    none: Query,
)
    requires
        call_ensures(Query::push, (q, key, value), ()),
        call_ensures(Query::push_number, (r, key, n), ()),
        call_ensures(Query::new, (), none),
    ensures
        none@.len() == 0,
        final(q)@.len() == old(q)@.len() + 1,
        final(q)@.drop_last() == old(q)@,
        final(q)@.last() == (key@, value@),
        final(r)@.drop_last() == old(r)@,
        final(r)@.last() == (key@, text::decimal(n as nat)),
{
    assert(final(q)@.drop_last() =~= old(q)@);
    assert(final(r)@.drop_last() =~= old(r)@);
}

/// A load carries what the system told under its own key.
#[verifier::rlimit(40)]
pub proof fn loads_carry_their_values(
    cpu: Option<Seq<char>>,
    ram: Option<(Seq<char>, Seq<char>)>,
    rss: Option<Seq<char>>,
    temp: Option<Seq<char>>,
)
    ensures
        ({
            let ps = load::load_pairs(cpu, ram, rss, temp);
            &&& http::value_of(ps, "cpu"@) == cpu
            &&& http::value_of(ps, "rss"@) == rss
            &&& http::value_of(ps, "temp"@) == temp
            &&& ram is Some ==> http::value_of(ps, "ram"@) == Some((ram->0).0)
            &&& ram is Some ==> http::value_of(ps, "ramtot"@) == Some((ram->0).1)
            &&& ram is None ==> http::value_of(ps, "ram"@) is None
        }),
{
    reveal_strlit("cpu");
    reveal_strlit("ram");
    reveal_strlit("ramtot");
    reveal_strlit("rss");
    reveal_strlit("temp");
    assert("cpu"@[0] == 'c' && "ram"@[1] == 'a' && "rss"@[1] == 's' && "temp"@[0] == 't');
    assert("ram"@[0] == 'r' && "rss"@[0] == 'r' && "ramtot"@.len() == 6 && "ramtot"@[1] == 'a');
    assert("ramtot"@[0] == 'r' && "ram"@.len() == 3);
    reveal_with_fuel(http::value_among, 7);
}

/// A chunk that is read from a report is the chunk that was written. Seen with a way of reading
/// that reads decimals as what they count.
pub proof fn chunks_are_read_as_written<F: Fn(&str) -> u64, G: Fn(&str) -> u64>(
    q: Query,
    seconds: F,
    count: G,
    c: Chunk,
    secs: Seq<char>,
    got: Chunk,
    k: int,
)
    requires
        call_ensures(Chunk::from_query::<F, G>, (&q, seconds, count), got),
        http::value_of(q@, "secs"@) == Some(secs),
        http::value_of(q@, "episodes"@) == Some(text::decimal(c.episodes as nat)),
        http::value_of(q@, "fresh"@) == Some(text::decimal(c.fresh as nat)),
        http::value_of(q@, "score"@) == Some(text::decimal(c.score as nat)),
        http::value_of(q@, "reached"@) == Some(chunk::counts_text(c.reached@)),
        http::value_of(q@, "best"@) == Some(text::decimal(c.best as nat)),
        forall|s: &str, x: u64| #[trigger]
            call_ensures(count, (s,), x) ==> (text::whole(s@) matches Some(n) ==> x == n),
        forall|s: &str, x: u64| #[trigger]
            call_ensures(seconds, (s,), x) ==> (s@ == secs ==> x == c.secs),
        0 <= k < 5,
    ensures
        got.secs == c.secs,
        got.episodes == c.episodes,
        got.fresh == c.fresh,
        got.score == c.score,
        got.best == c.best,
        got.reached@[k] == c.reached@[k],
{
    text::decimals_read_back(c.episodes);
    text::decimals_read_back(c.fresh);
    text::decimals_read_back(c.score);
    text::decimals_read_back(c.best);
    chunk::lemma_counts_back(c.reached@);
    let d = text::decimal(c.best as nat);
    text::lemma_decimal(c.best as nat);
    assert(!d.contains(',')) by {
        if d.contains(',') {
            let i = choose|i: int| 0 <= i < d.len() && d[i] == ',';
            assert(text::is_digit(d[i]));
        }
    }
    text::lemma_only_piece(d, ',');
    assert(got.reached@[k] == chunk::count_at(http::value_or_empty(q@, "reached"@), k));
}

/// A new network has a weight for every filling of every tuple in every stage, at least one
/// stage, all weights alike, and no accumulators.
pub proof fn new_networks_are_all_alike(
    init: u32,
    stages: usize,
    tuples: &[[usize; 6]],
    net: NTuple,
    l: Layout,
    i: int,
)
    requires
        call_ensures(NTuple::new, (init, stages, tuples), net),
        call_ensures(Layout::new, (stages, tuples), l),
        0 <= i < net@.w.len(),
    ensures
        net@.w.len() == net@.layout.stages * (tuples@.len() * 16_777_216),
        net@.w[i] == init,
        net@.tc.len() == 0,
        net@.layout.tuples == tuples@,
        stages >= 1 ==> net@.layout.stages == stages,
        stages == 0 ==> net@.layout.stages == 1,
        l@.stages == net@.layout.stages,
        l@.tuples == tuples@,
{
}

}
