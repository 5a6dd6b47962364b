//! What the smaller calls come to: numbers, texts, draws, rounding and what a machine's line
//! says.

use crate::board;
use crate::board::Board;
use crate::bundle;
use crate::bundle::{End, Pulled};
use crate::cli;
use crate::codec;
use crate::columns;
use crate::floats;
use crate::job;
use crate::learn::Rule;
use crate::merges;
use crate::move_laws;
use crate::play_laws;
use crate::rng;
use crate::rng::Rng;
use crate::search_laws;
use crate::select;
use crate::share_laws;
use crate::shares::Rates;
use crate::sort;
use crate::status;
use crate::status::Load;
use crate::text;
use crate::text_laws;
use crate::weight_laws;
use crate::wire_laws;
use crate::worker;
use crate::workers::Workers;
use vstd::prelude::*;

verus! {

/// An answer that a worker reads gives every delta in it, and the master's number.
pub proof fn answers_are_read_whole(
    bytes: &[u8],
    res: Pulled,
    n: u64,
    sent: Seq<Seq<(u32, u32)>>,
    i: int,
)
    requires
        call_ensures(bundle::read_bundle, (bytes,), res),
        sent.len() <= u32::MAX,
        forall|k: int| 0 <= k < sent.len() ==> bundle::sendable(#[trigger] sent[k]),
        bytes@ == bundle::bundle_bytes(n, bundle::frames_of(sent)),
        0 <= i < sent.len(),
    ensures
        res.end == End::Complete(n),
        res.entries().len() == sent.len(),
        res.entries()[i] == codec::received(sent[i]),
{
    bundle::bundling_then_reading_gives_every_delta(n, sent);
}

/// What the wire carries of a pattern is the nearest that has no low half, and a half is carried
/// as the upper part of a pattern.
pub proof fn halves_are_the_upper_part(b: u32, h: u16, c: u32, x: u32, ok: bool, m: int)
    requires
        call_ensures(codec::can_round, (b,), ok),
        ok ==> call_ensures(codec::to_bf16, (b,), h),
        ok ==> call_ensures(codec::carry, (b,), c),
        call_ensures(codec::from_bf16, (h,), x),
    ensures
        ok <==> b < 0xFFFF_8000,
        x == h * 0x1_0000,
        ok ==> c == x,
        ok ==> wire_laws::apart(c as int, b as int) <= wire_laws::apart(m * 0x1_0000, b as int),
{
    wire_laws::the_nearest_short_value_is_carried(b, m);
}

/// A delta at a share: every change times the share, as the wire carries it, but for zeros.
pub proof fn shares_of_deltas_are_carried<F: Fn(u32, u32) -> u32>(
    delta: &[(u32, u32)],
    scale: u32,
    times: F,
    p: Vec<(u32, u32)>,
    ok: bool,
    out: Vec<(u32, u32)>,
    k: int,
)
    requires
        call_ensures(select::products::<F>, (delta, scale, times), p),
        call_ensures(select::can_scale, (&p,), ok),
        call_ensures(select::scaled, (&p,), out),
        0 <= k < delta@.len(),
    ensures
        p@.len() == delta@.len(),
        p@[k].0 == delta@[k].0,
        call_ensures(times, (delta@[k].1, scale), p@[k].1),
        ok ==> p@[k].1 < 0xFFFF_8000,
        out@ == select::cleaned(p@),
{
    assert(p@[k].0 == delta@[k].0);
    if ok {
        assert(codec::rounds(p@[k].1));
        wire_laws::the_nearest_short_value_is_carried(p@[k].1, 0);
    }
}

/// How 64-bit numbers compare where both are positive; the greater of two numbers is one of
/// them, and neither is above it.
pub proof fn wide_numbers_compare_as_patterns(
    a: u64,
    b: u64,
    above: bool,
    least: bool,
    x: u32,
    y: u32,
    m: u32,
)
    requires
        call_ensures(floats::greater64, (a, b), above),
        call_ensures(floats::not_less64, (a, b), least),
        call_ensures(floats::greater_of, (x, y), m),
    ensures
        a <= 0x7FF0_0000_0000_0000 && b <= 0x7FF0_0000_0000_0000 ==> (above <==> a > b) && (least
            <==> a >= b),
        !floats::is_nan32(x) && !floats::is_nan32(y) ==> floats::place32(m) >= floats::place32(x)
            && floats::place32(m) >= floats::place32(y) && (m == x || m == y),
        floats::is_nan32(x) ==> m == y,
{
    floats::wide_numbers_compare_by_sign_and_size(a, b);
    floats::the_greater_number_is_not_below(x, y);
}

/// A draw moves the generator on by one state, whatever it is for; a draw below `n` takes the
/// upper half of the number as a fraction of `n`.
pub proof fn draws_move_the_generator_on(r: &mut Rng, x: u64, q: &mut Rng, n: u32, y: u32)
    requires
        call_ensures(Rng::next, (r,), x),
        call_ensures(Rng::below, (q, n), y),
        n > 0,
    ensures
        final(r).0 == rng::advance(old(r).0),
        x == (final(r).0 * 2_685_821_657_736_338_717) % 0x1_0000_0000_0000_0000,
        final(q).0 == rng::advance(old(q).0),
        y < n,
        ({
            let part = (rng::drawn(final(q).0) / 0x1_0000_0000) * n;
            y * 0x1_0000_0000 <= part < (y + 1) * 0x1_0000_0000
        }),
{
    play_laws::draws_are_multiples_of_the_state(final(r).0, 1);
    play_laws::draws_are_multiples_of_the_state(final(q).0, n);
}

/// Sorted numbers are the same numbers, each no greater than the next.
pub proof fn sorted_numbers_rise(v: Vec<u64>, out: Vec<u64>, i: int, j: int)
    requires
        call_ensures(sort::sorted::<u64>, (v,), out),
        0 <= i <= j < out@.len(),
    ensures
        out@[i] <= out@[j],
        out@.to_multiset() == v@.to_multiset(),
{
    assert(sort::Keyed::spec_key(out@[i]) <= sort::Keyed::spec_key(out@[j]));
}

/// An error moves a weight without an accumulator by alpha times the error.
pub proof fn errors_move_weights_by_alpha<P, T, O>(
    rule: Rule<P, T, O>,
    alpha: u32,
    err: u32,
    w: u32,
    out: (u32, Option<(u32, u32)>),
) where P: Fn(u32, u32) -> u32, T: Fn(u32, u32) -> u32, O: Fn(u32, u32) -> u32
    requires
        call_ensures(
            Rule::<P, T, O>::learned,
            (&rule, alpha, err, w, None::<(u32, u32)>),
            out,
        ),
    ensures
        out.1 is None,
        exists|step: u32| #[trigger]
            call_ensures(rule.times, (alpha, err), step) && call_ensures(
                rule.plus,
                (w, step),
                out.0,
            ),
{
    weight_laws::weights_move_by_alpha_times_the_error(rule, alpha, err, w, out);
}

/// What all machines play leaves out those that have not been heard of for ten minutes.
pub proof fn live_rates_leave_silent_machines_out<P, D, O, N>(
    rates: Rates<P, D, O, N>,
    ws: Workers,
    now: u64,
    r: Option<u64>,
    k: int,
) where
    P: Fn(u64, u64) -> u64,
    D: Fn(u64, u64) -> u64,
    O: Fn(u64, u64) -> u64,
    N: Fn(u64) -> u32,

    requires
        call_ensures(Rates::<P, D, O, N>::live_rate, (&rates, &ws, now), r),
        0 <= k < ws@.len(),
        now - ws@[k].last_seen >= 600_000_000_000,
    ensures
        r matches Some(x) ==> rates.is_live_rate(ws@.remove(k), now, x),
{
    if let Some(x) = r {
        share_laws::silent_machines_do_not_count(rates, ws@, k, now, x);
    }
}

/// A machine's share is its own pace over that of all live machines, kept between a twentieth
/// and one; the whole where nothing is played.
pub proof fn machines_get_their_own_share<P, D, O, N>(
    rates: Rates<P, D, O, N>,
    ws: Workers,
    name: &str,
    now: u64,
    s: Option<u32>,
) where
    P: Fn(u64, u64) -> u64,
    D: Fn(u64, u64) -> u64,
    O: Fn(u64, u64) -> u64,
    N: Fn(u64) -> u32,

    requires
        call_ensures(Rates::<P, D, O, N>::share, (&rates, &ws, name, now), s),
        crate::workers::by_name(ws@),
    ensures
        s matches Some(x) ==> exists|mine: u64, all: u64|
            {
                &&& #[trigger] rates.is_live_rate(ws@, now, all)
                &&& #[trigger] share_laws::is_quotient(rates, mine, all, x)
                &&& forall|i: int|
                    0 <= i < ws@.len() && (#[trigger] ws@[i]).name == name@ ==> rates.is_pace(
                        ws@[i],
                        mine,
                    )
                &&& (forall|i: int| 0 <= i < ws@.len() ==> (#[trigger] ws@[i]).name != name@)
                    ==> mine == 0
            },
{
    if let Some(x) = s {
        share_laws::shares_are_own_pace_over_all(rates, ws@, name@, now, x);
    }
}

/// A move made a 65536 exactly if two 32768s merged in it; the kinds of tiles on a board are
/// counted once each.
pub proof fn merged_32768s_are_noticed(b: Board, d: board::Dir, after: Board, made: bool, n: u32)
    requires
        call_ensures(merges::made_65536, (b, after), made),
        call_ensures(board::distinct_tiles, (b,), n),
        after == board::moved(b, d),
    ensures
        made <==> merges::merges_of(b, d, 15) > 0,
        search_laws::kinds(b, 15).finite(),
        n == search_laws::kinds(b, 15).len(),
{
    merges::moves_make_65536_by_merging(b, d);
    search_laws::kinds_are_counted_once(b);
}

/// A status that was printed is read as its number, and as none where it is no number.
pub proof fn printed_statuses_are_read(printed: &str, code: u16, n: u64)
    requires
        call_ensures(worker::status_code, (printed,), code),
    ensures
        text::trimmed(printed@) == text::decimal(n as nat) && n <= u16::MAX ==> code == n,
        text::whole(text::trimmed(printed@)) is None ==> code == 0,
{
    text::decimals_read_back(n);
}

/// The share that the master took is the second word of its reply.
pub proof fn shares_are_the_second_word(
    reply: &str,
    s: Option<String>,
    a: Seq<char>,
    b: Seq<char>,
    rest: Seq<char>,
)
    requires
        call_ensures(worker::scale_word, (reply,), s),
        text_laws::is_word(a),
        text_laws::is_word(b),
        reply@ == a + seq![' '] + (b + seq!['\n'] + rest),
    ensures
        s matches Some(w) && w@ == b,
{
    text_laws::white_space_splits_words(a, ' ', b + seq!['\n'] + rest);
    text_laws::white_space_splits_words(b, '\n', rest);
    assert(text::words(reply@)[1] == b);
}

/// An answer lands in a file that is named by the path of its request, without the query.
pub proof fn answers_are_named_by_their_path(
    target: &str,
    s: String,
    path: Seq<char>,
    q: Seq<char>,
)
    requires
        call_ensures(worker::response_name, (target,), s),
        !path.contains('?'),
        path.len() > 0,
        path[0] != '/',
        path.last() != '/',
        target@ == seq!['/'] + path + seq!['?'] + q,
    ensures
        s@ == "resp-"@ + path,
{
    let full = seq!['/'] + path;
    assert(!full.contains('?')) by {
        if full.contains('?') {
            let i = choose|i: int| 0 <= i < full.len() && full[i] == '?';
            assert(path.contains(path[i - 1]));
        }
    }
    text::lemma_first_piece(full, '?', q);
    crate::report_laws::slashes_are_cut_at_the_ends(path);
}

/// A text without the separator is one piece, one without white space at its ends stays when it
/// is trimmed, and its number is read from all of it.
pub proof fn texts_are_taken_apart(
    s: &[char],
    c: char,
    out: Vec<Vec<char>>,
    t: Vec<char>,
    n: Option<u64>,
)
    requires
        call_ensures(text::split, (s, c), out),
        call_ensures(text::trim, (s,), t),
        call_ensures(text::parse_whole, (s,), n),
        s@.len() > 0,
        !text::is_white(s@[0]),
        !text::is_white(s@.last()),
        !s@.contains(c),
    ensures
        out@.len() == 1,
        out@[0]@ == s@,
        t@ == s@,
        n == text::whole(s@),
{
    text_laws::separators_split_pieces(s@, c, seq![]);
    text_laws::trimming_takes_white_space_at_the_ends(s@, ' ');
    assert(text::texts(out@).len() == out@.len());
    assert(text::texts(out@)[0] == out@[0]@);
}

/// The plain arguments are what flags leave.
pub proof fn arguments_without_flags_are_plain(args: Vec<String>, out: Vec<String>, a: String)
    requires
        call_ensures(cli::positional, (&args,), out),
        args@ == seq![a],
    ensures
        a@.len() >= 2 && a@[0] == '-' && a@[1] == '-' ==> out@.len() == 0,
        !(a@.len() >= 2 && a@[0] == '-' && a@[1] == '-') ==> out@.len() == 1 && out@[0]@ == a@,
{
    crate::report_laws::plain_arguments_are_what_flags_leave(a, a, seq![]);
    assert(seq![a] + Seq::<String>::empty() =~= seq![a]);
    assert(cli::positional_from(seq![], 0) =~= seq![]);
    assert(text::contents(out@).len() == out@.len());
    if out@.len() > 0 {
        assert(text::contents(out@)[0] == out@[0]@);
    }
}

/// What a machine is doing stands in a column of fifteen, its load in one of six, its
/// temperature in one of eight: a dash or a word where the system tells nothing.
pub proof fn missing_loads_are_marked(state: Seq<char>)
    ensures
        status::cpu_text(None) == seq![' ', ' ', ' ', ' ', ' ', '-'],
        status::temp_text(None, false) == seq![' ', ' ', ' ', ' ', ' ', 'n', '/', 'a'],
        status::rss_text(None) == text::padded(seq!['-'], 9),
        status::ram_text(None, false) == text::padded(seq!['-'], 20),
        state != "training"@ ==> status::state_text(state, false) == columns::left(
            seq!['*', ' '] + state,
            15,
        ),
        status::state_text("training"@, false) == columns::left(
            seq!['*', ' '] + "training"@,
            15,
        ),
{
    reveal_strlit("-");
    reveal_strlit("n/a");
    reveal_strlit("* ");
    reveal_strlit("* training");
    reveal_strlit("training");
    assert("-"@ =~= seq!['-']);
    assert("* "@ =~= seq!['*', ' ']);
    assert("* training"@ =~= seq!['*', ' '] + "training"@);
    assert(status::cpu_text(None) =~= seq![' ', ' ', ' ', ' ', ' ', '-']);
    assert(status::temp_text(None, false) =~= seq![' ', ' ', ' ', ' ', ' ', 'n', '/', 'a']);
}

/// Memory that is nearly all used is red, and else it is not coloured; so is a temperature by
/// its heat, and what a machine does by whether it trains.
pub proof fn colours_mark_what_matters(
    used: String,
    total: String,
    bits: u64,
    t: String,
    load: Load,
    name: Seq<char>,
)
    ensures
        ({
            let ram = columns::right(used@ + " / "@ + total@ + " GB"@, 20);
            &&& status::ram_text(Some((used, total, true)), true) == columns::painted(
                true,
                "31"@,
                ram,
            )
            &&& status::ram_text(Some((used, total, false)), true) == ram
            &&& status::temp_text(Some((bits, t)), true) == columns::painted(
                true,
                columns::heat_code(bits),
                columns::right(t@, 7) + "C"@,
            )
            &&& status::machine_text(name, load, true).take(
                columns::left(name, 12).len() as int,
            ) == columns::left(name, 12)
        }),
{
    let l = columns::left(name, 12);
    assert(status::machine_text(name, load, true).take(l.len() as int) =~= l);
}

/// A job's values of a key, as texts, come in the order of its lines.
pub proof fn values_come_in_order(
    job: &str,
    key: &str,
    out: Vec<String>,
    line: Seq<char>,
    rest: Seq<char>,
    v: Seq<char>,
)
    requires
        call_ensures(job::job_values, (job, key), out),
        !line.contains('\n'),
        line.len() > 0,
        line.last() != '\r',
        job@ == line + seq!['\n'] + rest,
        job::value_in(line, key@) == Some(v),
    ensures
        out@.len() == 1 + job::values_of(rest, key@).len(),
        out@[0]@ == v,
{
    crate::service_laws::jobs_are_read_line_by_line(line, rest, key@);
    assert(text::contents(out@).len() == out@.len());
    assert(text::contents(out@)[0] == out@[0]@);
}

/// A time in writing is a number and its unit, in the largest units that count.
pub proof fn short_times_are_seconds(minutes: u64, seconds: u64, s: String)
    requires
        call_ensures(columns::duration, (minutes, seconds), s),
        minutes < 60,
    ensures
        minutes == 0 ==> s@ == text::decimal(seconds as nat).push('s'),
        minutes > 0 ==> s@ == text::decimal(minutes as nat).push('m'),
{
    crate::report_laws::times_are_written_in_large_units(0, minutes as nat, seconds as nat);
}

/// Empty cells are where the board says: placing a tile fills just one of them.
pub proof fn placing_fills_one_cell(b: Board, i: usize, rank: u8, nb: Board, k: int)
    requires
        call_ensures(board::place, (b, i, rank), nb),
        i < 16,
        0 <= k < 16,
    ensures
        k == i ==> board::cell(nb, k) == rank,
        k != i ==> board::cell(nb, k) == board::cell(b, k),
        k != i ==> (move_laws::cells_with(nb, 0).contains(k) <==> move_laws::cells_with(
            b,
            0,
        ).contains(k)),
{
}

}
