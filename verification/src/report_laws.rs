//! What reports say: how arguments are read, how games are summed up, and how numbers are set
//! out.

use crate::chunk;
use crate::cli;
use crate::cli::{GameResult, Report};
use crate::columns;
use crate::episode::EpisodeStats;
use crate::floats;
use crate::sort;
use crate::status;
use crate::status::Pulse;
use crate::text;
use crate::worker;
use crate::worker::Sensor;
use vstd::prelude::*;

verus! {

/// A flag is looked up where it first stands.
pub proof fn flags_are_found_where_they_first_stand(args: Seq<String>, name: Seq<char>, i: int)
    ensures
        0 <= i < args.len() && args[i]@ == name && (forall|j: int|
            0 <= j < i ==> (#[trigger] args[j])@ != name) ==> cli::place_of(args, name, 0) == i,
        (forall|j: int| 0 <= j < args.len() ==> (#[trigger] args[j])@ != name) ==> cli::place_of(
            args,
            name,
            0,
        ) == args.len(),
{
    if 0 <= i < args.len() && args[i]@ == name && forall|j: int|
        0 <= j < i ==> (#[trigger] args[j])@ != name {
        lemma_place(args, name, 0, i);
    }
    if forall|j: int| 0 <= j < args.len() ==> (#[trigger] args[j])@ != name {
        lemma_place(args, name, 0, args.len() as int);
    }
}

proof fn lemma_place(args: Seq<String>, name: Seq<char>, i: int, end: int)
    requires
        0 <= i <= end <= args.len(),
        end == args.len() || args[end]@ == name,
        forall|j: int| i <= j < end ==> (#[trigger] args[j])@ != name,
    ensures
        cli::place_of(args, name, i) == end,
    decreases end - i,
{
    if i < end {
        lemma_place(args, name, i + 1, end);
    }
}

proof fn lemma_positional_shift(p: Seq<String>, args: Seq<String>, i: int)
    requires
        0 <= i,
    ensures
        cli::positional_from(p + args, p.len() + i) == cli::positional_from(args, i),
    decreases
            if i < args.len() {
                args.len() - i
            } else {
                0
            },
{
    if i < args.len() {
        assert((p + args)[p.len() + i] == args[i]);
        lemma_positional_shift(p, args, i + 1);
        lemma_positional_shift(p, args, i + 2);
    }
}

/// What starts with two dashes is a flag. A flag and the argument after it are left out of the
/// plain arguments; every other argument is one, in its place.
pub proof fn plain_arguments_are_what_flags_leave(a: String, b: String, rest: Seq<String>)
    ensures
        cli::is_flag(a@) <==> a@.len() >= 2 && a@[0] == '-' && a@[1] == '-',
        cli::is_flag(a@) ==> cli::positional_from(seq![a], 0) == Seq::<Seq<char>>::empty()
            && cli::positional_from(seq![a, b] + rest, 0) == cli::positional_from(rest, 0),
        !cli::is_flag(a@) ==> cli::positional_from(seq![a] + rest, 0) == seq![a@]
            + cli::positional_from(rest, 0),
{
    reveal_strlit("--");
    if a@.len() >= 2 {
        assert(a@.take(2)[0] == a@[0] && a@.take(2)[1] == a@[1]);
        if a@[0] == '-' && a@[1] == '-' {
            assert(a@.take(2) =~= "--"@);
        }
    }
    lemma_positional_shift(seq![a, b], rest, 0);
    lemma_positional_shift(seq![a], rest, 0);
    assert((seq![a, b] + rest)[0] == a);
    assert((seq![a] + rest)[0] == a);
    reveal_with_fuel(cli::positional_from, 2);
    assert(cli::positional_from(seq![a], 2) =~= seq![]);
}

/// The games that reached rank `r`.
pub open spec fn games_with(rs: Seq<GameResult>, r: int) -> Set<int> {
    Set::new(|i: int| 0 <= i < rs.len() && rs[i].max_rank >= r)
}

proof fn lemma_reached(rs: Seq<GameResult>, r: int, n: int)
    requires
        0 <= n <= rs.len(),
    ensures
        ({
            let s = Set::new(|i: int| 0 <= i < n && rs[i].max_rank >= r);
            s.finite() && s.len() == cli::count_reached(rs, r, n)
        }),
    decreases n,
{
    let s = Set::new(|i: int| 0 <= i < n && rs[i].max_rank >= r);
    if n == 0 {
        assert(s =~= Set::empty());
    } else {
        lemma_reached(rs, r, n - 1);
        let t = Set::new(|i: int| 0 <= i < n - 1 && rs[i].max_rank >= r);
        if rs[n - 1].max_rank >= r {
            assert(s =~= t.insert(n - 1));
        } else {
            assert(s =~= t);
        }
    }
}

/// A count of games is of all that reached the tile, or a greater one.
pub proof fn counts_are_of_games(rs: Seq<GameResult>, r: int)
    ensures
        games_with(rs, r).finite(),
        games_with(rs, r).len() == cli::count_reached(rs, r, rs.len() as int),
{
    lemma_reached(rs, r, rs.len() as int);
    assert(Set::new(|i: int| 0 <= i < rs.len() && rs[i].max_rank >= r) =~= games_with(rs, r));
}

/// A sum over games is over all of them, whatever their order.
pub proof fn sums_are_over_all_games(rs: Seq<GameResult>, f: spec_fn(GameResult) -> u64)
    ensures
        cli::sum_of(rs, f, rs.len() as int) == rs.fold_left(0int, |n: int, g: GameResult| n + f(g)),
{
    lemma_sum_fold(rs, f, rs.len() as int);
    assert(rs.take(rs.len() as int) =~= rs);
}

proof fn lemma_sum_fold(rs: Seq<GameResult>, f: spec_fn(GameResult) -> u64, n: int)
    requires
        0 <= n <= rs.len(),
    ensures
        cli::sum_of(rs, f, n) == rs.take(n).fold_left(0int, |n: int, g: GameResult| n + f(g)),
    decreases n,
{
    if n > 0 {
        lemma_sum_fold(rs, f, n - 1);
        assert(rs.take(n).drop_last() =~= rs.take(n - 1));
        assert(rs.take(n).last() == rs[n - 1]);
    }
}

/// The best score is some game's and none is above it; so many games as lie before the middle
/// score no more than the median, and those behind it no less.
#[verifier::rlimit(40)]
pub proof fn the_median_parts_the_games(rs: Seq<GameResult>, s: Seq<u64>, r: Report, i: int)
    requires
        rs.len() > 0,
        cli::is_middle_and_max(rs, s, r),
        0 <= i < rs.len(),
    ensures
        rs[i].score <= r.max,
        exists|k: int| 0 <= k < rs.len() && (#[trigger] rs[k]).score == r.max,
        exists|k: int| 0 <= k < rs.len() && (#[trigger] rs[k]).score == r.median,
        s.to_multiset() == rs.map_values(|g: GameResult| g.score).to_multiset(),
        s.len() == rs.len(),
        forall|k: int| 0 <= k <= rs.len() as int / 2 ==> #[trigger] s[k] <= r.median,
        forall|k: int| rs.len() as int / 2 <= k < rs.len() ==> #[trigger] s[k] >= r.median,
{
    broadcast use vstd::seq_lib::group_to_multiset_ensures;

    let all = cli::scores_of(rs);
    assert(all =~= rs.map_values(|g: GameResult| g.score));
    let n = rs.len() as int;
    assert(all.contains(all[i]));
    assert(s.to_multiset().count(all[i]) > 0);
    assert(s.contains(all[i]));
    let p = choose|p: int| 0 <= p < s.len() && s[p] == all[i];
    assert(sort::Keyed::spec_key(s[p]) <= sort::Keyed::spec_key(s[n - 1]));
    lemma_from(rs, s, n - 1);
    lemma_from(rs, s, n / 2);
    assert forall|k: int| 0 <= k <= n / 2 implies #[trigger] s[k] <= r.median by {
        assert(sort::Keyed::spec_key(s[k]) <= sort::Keyed::spec_key(s[n / 2]));
    }
    assert forall|k: int| n / 2 <= k < n implies #[trigger] s[k] >= r.median by {
        assert(sort::Keyed::spec_key(s[n / 2]) <= sort::Keyed::spec_key(s[k]));
    }
}

proof fn lemma_from(rs: Seq<GameResult>, s: Seq<u64>, k: int)
    requires
        sort::same_elements(s, cli::scores_of(rs)),
        0 <= k < s.len(),
    ensures
        exists|j: int| 0 <= j < rs.len() && (#[trigger] rs[j]).score == s[k],
{
    broadcast use vstd::seq_lib::group_to_multiset_ensures;

    let all = cli::scores_of(rs);
    assert(s.contains(s[k]));
    assert(s.to_multiset().count(s[k]) > 0);
    assert(all.contains(s[k]));
    let j = choose|j: int| 0 <= j < all.len() && all[j] == s[k];
    assert(rs[j].score == s[k]);
}

/// A game counts for 2048 and each of the four tiles above it that it reached; counters start
/// over where they leave 64 bits; the greater of two scores is one of them and not below either.
pub proof fn games_count_for_every_tile_reached(e: EpisodeStats, k: int, a: u64, b: u64)
    ensures
        chunk::hit(e, k) == 1 <==> e.max_rank - 11 >= k,
        chunk::hit(e, k) <= 1,
        a + b < 0x1_0000_0000_0000_0000 ==> chunk::wrapped(a, b) == a + b,
        a + b >= 0x1_0000_0000_0000_0000 ==> chunk::wrapped(a, b) == a + b
            - 0x1_0000_0000_0000_0000,
        chunk::greater(a, b) >= a,
        chunk::greater(a, b) >= b,
        chunk::greater(a, b) == a || chunk::greater(a, b) == b,
{
}

/// How many commas stand before digit `m` of `n`.
pub open spec fn commas_before(n: int, m: int) -> int {
    (n - 1) / 3 - (n - m - 1) / 3
}

proof fn lemma_grouped(d: Seq<char>, n: int)
    requires
        1 <= n <= d.len(),
    ensures
        ({
            let g = columns::grouped(d, n);
            let all = d.len() as int;
            &&& g.len() == n + commas_before(all, n - 1)
            &&& forall|m: int|
                0 <= m < n ==> g[m + commas_before(all, m)] == #[trigger] d[m]
            &&& forall|m: int|
                #![trigger commas_before(all, m)]
                0 < m < n && (all - m) % 3 == 0 ==> g[m + commas_before(all, m) - 1] == ','
        }),
    decreases n,
{
    let all = d.len() as int;
    let g = columns::grouped(d, n);
    if n == 1 {
        reveal_with_fuel(columns::grouped, 2);
        assert(g =~= seq![d[0]]);
        assert(commas_before(all, 0) == 0);
    } else {
        lemma_grouped(d, n - 1);
        let before = columns::grouped(d, n - 1);
        let c = commas_before(all, n - 2);
        assert(before.len() == n - 1 + c);
        if (all - (n - 1)) % 3 == 0 {
            assert(g =~= before + seq![',', d[n - 1]]);
            assert(commas_before(all, n - 1) == c + 1);
        } else {
            assert(g =~= before + seq![d[n - 1]]);
            assert(commas_before(all, n - 1) == c);
        }
        assert forall|m: int| 0 <= m < n implies g[m + commas_before(all, m)]
            == #[trigger] d[m] by {
            if m < n - 1 {
                assert(m + commas_before(all, m) < before.len());
            }
        }
        assert forall|m: int|
            #![trigger commas_before(all, m)]
            0 < m < n && (all - m) % 3 == 0 implies g[m + commas_before(all, m) - 1] == ',' by {
            if m < n - 1 {
                assert(0 <= m + commas_before(all, m) - 1 < before.len());
            }
        }
    }
}

/// Digits are set out in threes, counted from the last: a comma stands before each group but
/// the first.
pub proof fn digits_are_grouped_in_threes(d: Seq<char>, m: int)
    requires
        0 <= m < d.len(),
    ensures
        ({
            let g = columns::grouped(d, d.len() as int);
            let at = m + commas_before(d.len() as int, m);
            &&& g.len() == d.len() + (d.len() - 1) / 3
            &&& 0 <= at < g.len()
            &&& g[at] == d[m]
            &&& m > 0 && (d.len() - m) % 3 == 0 ==> g[at - 1] == ','
        }),
{
    lemma_grouped(d, d.len() as int);
    let g = columns::grouped(d, d.len() as int);
    assert(g[m + commas_before(d.len() as int, m)] == d[m]);
}

/// A column holds its text and blanks up to its width, which a longer text exceeds.
pub proof fn columns_fill_their_width(t: Seq<char>, w: nat, i: int)
    ensures
        ({
            let (l, r) = (columns::left(t, w), columns::right(t, w));
            let n = if t.len() < w {
                w
            } else {
                t.len()
            };
            &&& l.len() == n
            &&& r.len() == n
            &&& 0 <= i < t.len() ==> l[i] == t[i] && r[n - t.len() + i] == t[i]
            &&& t.len() <= i < n ==> l[i] == ' '
            &&& 0 <= i < n - t.len() ==> r[i] == ' '
        }),
{
}

/// Nothing is painted where no colours are asked for; else the text stands between its colour's
/// code and the one that ends it.
pub proof fn paint_goes_around_the_text(code: Seq<char>, t: Seq<char>)
    ensures
        columns::painted(false, code, t) == t,
        columns::painted(true, code, t) == seq!['\x1b', '['] + code + seq!['m'] + t + seq![
            '\x1b',
            '[',
            '0',
            'm',
        ],
{
    reveal_strlit("\x1b[");
    reveal_strlit("m");
    reveal_strlit("\x1b[0m");
    assert(columns::painted(true, code, t) =~= seq!['\x1b', '['] + code + seq!['m'] + t + seq![
        '\x1b',
        '[',
        '0',
        'm',
    ]);
}

/// Times are written in the two largest units that count: hours and two digits of minutes from
/// an hour on, else minutes from a minute on, else seconds.
pub proof fn times_are_written_in_large_units(h: nat, m: nat, s: nat)
    requires
        m < 60,
    ensures
        h == 0 && m == 0 ==> columns::duration_text(0, s) == text::decimal(s).push('s'),
        h == 0 && m > 0 ==> columns::duration_text(m, s) == text::decimal(m).push('m'),
        h > 0 && m >= 10 ==> columns::duration_text(60 * h + m, s) == text::decimal(h) + seq![
            'h',
            ' ',
        ] + text::decimal(m).push('m'),
        h > 0 && m < 10 ==> columns::duration_text(60 * h + m, s) == text::decimal(h) + seq![
            'h',
            ' ',
            '0',
        ] + text::decimal(m).push('m'),
{
    reveal_strlit("h ");
    reveal_strlit("0");
    reveal_strlit("m");
    reveal_strlit("s");
    assert((60 * h + m) / 60 == h && (60 * h + m) % 60 == m);
    if h == 0 && m == 0 {
        assert(columns::duration_text(0, s) =~= text::decimal(s).push('s'));
    } else if h == 0 {
        assert(columns::duration_text(m, s) =~= text::decimal(m).push('m'));
    } else if m >= 10 {
        assert(columns::duration_text(60 * h + m, s) =~= text::decimal(h) + seq!['h', ' ']
            + text::decimal(m).push('m'));
    } else {
        assert(columns::duration_text(60 * h + m, s) =~= text::decimal(h) + seq!['h', ' ', '0']
            + text::decimal(m).push('m'));
    }
}

/// Temperatures are red from 95 on, yellow from 85 on, and green below.
pub proof fn hot_machines_are_red(t: u64)
    requires
        !floats::is_nan64(t),
    ensures
        ({
            let (red, yellow) = (
                floats::place64(0x4057_C000_0000_0000),
                floats::place64(0x4055_4000_0000_0000),
            );
            &&& columns::heat_code(t) == "31"@ <==> floats::place64(t) >= red
            &&& columns::heat_code(t) == "33"@ <==> yellow <= floats::place64(t) < red
            &&& columns::heat_code(t) == "32"@ <==> floats::place64(t) < yellow
        }),
{
    reveal_strlit("31");
    reveal_strlit("32");
    reveal_strlit("33");
    assert("31"@[1] == '1' && "32"@[1] == '2' && "33"@[1] == '3');
}

/// A machine beats if its last heartbeat is less than a minute old, is offline if it is older,
/// and is an old build if it never sent one.
pub proof fn machines_beat_for_a_minute(
    beat: Option<(u64, Seq<(Seq<char>, Seq<char>)>)>,
    now: u64,
)
    ensures
        status::pulse_of(beat, now) == Pulse::Old <==> beat is None,
        status::pulse_of(beat, now) == Pulse::Beating <==> beat is Some && now - (beat->0).0
            < 60_000_000_000,
        status::pulse_of(beat, now) == Pulse::Offline <==> beat is Some && now - (beat->0).0
            >= 60_000_000_000,
{
}

/// Addresses lose all slashes at their end, paths those at both ends, and nothing else.
pub proof fn slashes_are_cut_at_the_ends(t: Seq<char>)
    ensures
        worker::without_slashes(t.push('/')) == worker::without_slashes(t),
        t.len() == 0 || t.last() != '/' ==> worker::without_slashes(t) == t,
        worker::bare_path(seq!['/'] + t) == worker::bare_path(t),
        t.len() == 0 || t[0] != '/' ==> worker::bare_path(t) == worker::without_slashes(t),
{
    assert(t.push('/').drop_last() =~= t);
    let s = seq!['/'] + t;
    lemma_slashes_shift(t, 0);
    assert(worker::past_slashes(s, 0) == worker::past_slashes(s, 1));
    assert(s.skip(worker::past_slashes(s, 0)) =~= t.skip(worker::past_slashes(t, 0)));
    assert(t.skip(0) =~= t);
}

proof fn lemma_slashes_shift(t: Seq<char>, i: int)
    requires
        0 <= i <= t.len(),
    ensures
        worker::past_slashes(seq!['/'] + t, i + 1) == worker::past_slashes(t, i) + 1,
        i <= worker::past_slashes(t, i) <= t.len(),
    decreases t.len() - i,
{
    if i < t.len() {
        assert((seq!['/'] + t)[i + 1] == t[i]);
        lemma_slashes_shift(t, i + 1);
    }
}

proof fn lemma_numbers(ws: Seq<Seq<char>>, i: int, n: int)
    requires
        0 <= i <= n <= ws.len(),
    ensures
        i < n ==> worker::numbers_from(ws, i, n) == worker::numbers_from(ws, i, n - 1) + (
        match text::whole(ws[n - 1]) {
            Some(x) => seq![x],
            None => Seq::<u64>::empty(),
        }),
    decreases n - i,
{
    if i < n {
        if i == n - 1 {
            reveal_with_fuel(worker::numbers_from, 2);
            assert(worker::numbers_from(ws, i, n) =~= worker::numbers_from(ws, i, n - 1) + (
            match text::whole(ws[n - 1]) {
                Some(x) => seq![x],
                None => Seq::<u64>::empty(),
            }));
        } else {
            lemma_numbers(ws, i + 1, n);
            assert(worker::numbers_from(ws, i, n) =~= worker::numbers_from(ws, i, n - 1) + (
            match text::whole(ws[n - 1]) {
                Some(x) => seq![x],
                None => Seq::<u64>::empty(),
            }));
        }
    }
}

/// The numbers of a line are those among its words, in order, but for the first word.
pub proof fn numbers_are_the_words_that_are_numbers(ws: Seq<Seq<char>>, n: int)
    requires
        1 <= n <= ws.len(),
    ensures
        worker::numbers_from(ws, 1, n) == ws.subrange(1, n).filter(
            |w: Seq<char>| text::whole(w) is Some,
        ).map_values(|w: Seq<char>| text::whole(w)->0),
    decreases n,
{
    reveal(Seq::filter);
    let f = |w: Seq<char>| text::whole(w) is Some;
    let g = |w: Seq<char>| text::whole(w)->0;
    let part = ws.subrange(1, n);
    if n == 1 {
        assert(part =~= seq![]);
        assert(part.filter(f) =~= seq![]);
        assert(worker::numbers_from(ws, 1, 1) =~= part.filter(f).map_values(g));
    } else {
        numbers_are_the_words_that_are_numbers(ws, n - 1);
        lemma_numbers(ws, 1, n);
        assert(part.drop_last() =~= ws.subrange(1, n - 1));
        assert(part.last() == ws[n - 1]);
        let before = ws.subrange(1, n - 1).filter(f);
        if f(ws[n - 1]) {
            assert(part.filter(f) =~= before.push(ws[n - 1]));
            assert(before.push(ws[n - 1]).map_values(g) =~= before.map_values(g).push(
                g(ws[n - 1]),
            ));
        } else {
            assert(part.filter(f) =~= before);
        }
        assert(worker::numbers_from(ws, 1, n) =~= part.filter(f).map_values(g));
    }
}

/// All time of the processors is the sum of the first eight numbers, as far as there are so
/// many, and every number counts once.
#[verifier::rlimit(40)]
pub proof fn all_time_is_the_first_eight_numbers(v: Seq<u64>)
    ensures
        worker::sum_first(v, 8) == worker::number_at(v, 0) + worker::number_at(v, 1)
            + worker::number_at(v, 2) + worker::number_at(v, 3) + worker::number_at(v, 4)
            + worker::number_at(v, 5) + worker::number_at(v, 6) + worker::number_at(v, 7),
        forall|i: int| 0 <= i < v.len() ==> worker::number_at(v, i) == #[trigger] v[i],
        forall|i: int| i >= v.len() ==> #[trigger] worker::number_at(v, i) == 0,
{
    reveal_with_fuel(worker::sum_first, 9);
}

/// What has passed between two samples: each time less what it was, if all time has grown.
pub proof fn samples_are_held_against_the_last(last: (u64, u64), now: (u64, u64))
    requires
        now.1 >= last.1,
    ensures
        now.0 > last.0 ==> (worker::cpu_growth(Some(last), now) matches Some(d) && d.0 + last.1
            == now.1 && d.1 + last.0 == now.0),
        now.0 <= last.0 ==> worker::cpu_growth(Some(last), now) is None,
        worker::cpu_growth(None, now) is None,
{
}

/// An amount is the first word after its key, on a line that starts with the key; each such
/// line gives one, in order.
pub proof fn amounts_follow_their_key(
    lines: Seq<Seq<char>>,
    key: Seq<char>,
    rest: Seq<char>,
    line: Seq<char>,
)
    ensures
        text::words(rest).len() > 0 ==> worker::amount_in(key + rest, key) == Some(
            text::words(rest)[0],
        ),
        text::words(rest).len() == 0 ==> worker::amount_in(key + rest, key) is None,
        worker::amounts_in(lines.push(line), key, (lines.len() + 1) as int) == worker::amounts_in(
            lines,
            key,
            lines.len() as int,
        ) + match worker::amount_in(line, key) {
            Some(v) => seq![v],
            None => Seq::<Seq<char>>::empty(),
        },
{
    let s = key + rest;
    assert(s.take(key.len() as int) =~= key);
    assert(s.skip(key.len() as int) =~= rest);
    lemma_amounts_same(lines, lines.push(line), key, lines.len() as int);
    assert(worker::amounts_in(lines.push(line), key, (lines.len() + 1) as int)
        =~= worker::amounts_in(lines, key, lines.len() as int) + match worker::amount_in(line, key) {
        Some(v) => seq![v],
        None => Seq::<Seq<char>>::empty(),
    });
}

proof fn lemma_amounts_same(a: Seq<Seq<char>>, b: Seq<Seq<char>>, key: Seq<char>, n: int)
    requires
        0 <= n <= a.len(),
        n <= b.len(),
        forall|i: int| 0 <= i < n ==> a[i] == b[i],
    ensures
        worker::amounts_in(a, key, n) == worker::amounts_in(b, key, n),
    decreases n,
{
    if n > 0 {
        lemma_amounts_same(a, b, key, n - 1);
    }
}

/// Four names are of processors' sensors, one is of thermal zones; white space around a name
/// does not matter.
pub proof fn sensors_are_known_by_name(name: Seq<char>)
    ensures
        ({
            let n = text::trimmed(name);
            &&& worker::sensor_of(name) == Sensor::Cpu <==> n == "k10temp"@ || n == "coretemp"@ || n
                == "zenpower"@ || n == "cpu_thermal"@
            &&& worker::sensor_of(name) == Sensor::Zone <==> n == "acpitz"@
        }),
{
    reveal_strlit("k10temp");
    reveal_strlit("coretemp");
    reveal_strlit("zenpower");
    reveal_strlit("cpu_thermal");
    reveal_strlit("acpitz");
    assert("acpitz"@.len() == 6 && "k10temp"@.len() == 7 && "coretemp"@.len() == 8
        && "zenpower"@.len() == 8 && "cpu_thermal"@.len() == 11);
}

}
