//! Colours on the status page only add to it: without their codes it is the page in black and
//! white.

use crate::columns;
use crate::status;
use crate::status::{Headline, Load, Results};
use crate::text;
use vstd::prelude::*;

verus! {

/// A text without an escape character.
pub open spec fn plain(s: Seq<char>) -> bool {
    forall|i: int| 0 <= i < s.len() ==> #[trigger] s[i] != '\x1b'
}

/// Where the digits from place `i` on end.
pub open spec fn digits_end(s: Seq<char>, i: int) -> int
    decreases s.len() - i,
{
    if 0 <= i < s.len() && text::is_digit(s[i]) {
        digits_end(s, i + 1)
    } else {
        i
    }
}

/// The length of the colour code that `s` starts with: an escape character, a bracket, digits
/// and an `m`. Zero where it starts with none.
pub open spec fn code_len(s: Seq<char>) -> int {
    let j = digits_end(s, 2);
    if s.len() > 2 && s[0] == '\x1b' && s[1] == '[' && j < s.len() && s[j] == 'm' {
        j + 1
    } else {
        0
    }
}

/// `s` without its colour codes.
pub open spec fn uncoloured(s: Seq<char>) -> Seq<char>
    decreases s.len(),
{
    if s.len() == 0 {
        seq![]
    } else if 0 < code_len(s) <= s.len() {
        uncoloured(s.skip(code_len(s)))
    } else {
        seq![s[0]] + uncoloured(s.skip(1))
    }
}

/// `c` is `p` with colour codes, whatever follows it.
pub open spec fn is_coloured(c: Seq<char>, p: Seq<char>) -> bool {
    &&& plain(p)
    &&& forall|rest: Seq<char>| #[trigger] uncoloured(c + rest) == p + uncoloured(rest)
}

proof fn lemma_digits_end(s: Seq<char>, i: int, j: int)
    requires
        0 <= i <= j < s.len(),
        forall|k: int| i <= k < j ==> text::is_digit(#[trigger] s[k]),
        !text::is_digit(s[j]),
    ensures
        digits_end(s, i) == j,
    decreases j - i,
{
    if i < j {
        lemma_digits_end(s, i + 1, j);
    }
}

proof fn lemma_plain_head(t: Seq<char>, rest: Seq<char>)
    requires
        plain(t),
    ensures
        uncoloured(t + rest) == t + uncoloured(rest),
    decreases t.len(),
{
    if t.len() == 0 {
        assert(t + rest =~= rest);
        assert(t + uncoloured(rest) =~= uncoloured(rest));
    } else {
        let all = t + rest;
        assert(all[0] == t[0]);
        assert(all.skip(1) =~= t.skip(1) + rest);
        assert forall|i: int| 0 <= i < t.skip(1).len() implies #[trigger] t.skip(1)[i] != '\x1b' by {
            assert(t.skip(1)[i] == t[i + 1]);
        }
        lemma_plain_head(t.skip(1), rest);
        assert(seq![t[0]] + (t.skip(1) + uncoloured(rest)) =~= t + uncoloured(rest));
    }
}

proof fn lemma_same(t: Seq<char>)
    requires
        plain(t),
    ensures
        is_coloured(t, t),
{
    assert forall|rest: Seq<char>| #[trigger] uncoloured(t + rest) == t + uncoloured(rest) by {
        lemma_plain_head(t, rest);
    }
}

proof fn lemma_join(c: Seq<char>, p: Seq<char>, d: Seq<char>, q: Seq<char>)
    requires
        is_coloured(c, p),
        is_coloured(d, q),
    ensures
        is_coloured(c + d, p + q),
{
    assert forall|rest: Seq<char>| #[trigger]
        uncoloured(c + d + rest) == p + q + uncoloured(rest) by {
        assert(c + d + rest =~= c + (d + rest));
        assert(p + (q + uncoloured(rest)) =~= p + q + uncoloured(rest));
    }
}

/// Adds a text that is the same in colour.
proof fn lemma_add(c: Seq<char>, p: Seq<char>, t: Seq<char>)
    requires
        is_coloured(c, p),
        plain(t),
    ensures
        is_coloured(c + t, p + t),
{
    lemma_same(t);
    lemma_join(c, p, t, t);
}

spec fn is_code(code: Seq<char>) -> bool {
    forall|i: int| 0 <= i < code.len() ==> text::is_digit(#[trigger] code[i])
}

proof fn lemma_code(code: Seq<char>, rest: Seq<char>)
    requires
        is_code(code),
    ensures
        uncoloured("\x1b["@ + code + "m"@ + rest) == uncoloured(rest),
{
    reveal_strlit("\x1b[");
    reveal_strlit("m");
    let all = "\x1b["@ + code + "m"@ + rest;
    let j = 2 + code.len() as int;
    assert(all[0] == '\x1b' && all[1] == '[' && all[j] == 'm');
    assert forall|k: int| 2 <= k < j implies text::is_digit(#[trigger] all[k]) by {
        assert(all[k] == code[k - 2]);
    }
    lemma_digits_end(all, 2, j);
    assert(all.skip(j + 1) =~= rest);
}

proof fn lemma_painted(code: Seq<char>, t: Seq<char>)
    requires
        is_code(code),
        plain(t),
    ensures
        is_coloured(columns::painted(true, code, t), columns::painted(false, code, t)),
{
    let c = columns::painted(true, code, t);
    reveal_strlit("\x1b[0m");
    reveal_strlit("\x1b[");
    reveal_strlit("m");
    let zero = seq!['0'];
    assert("\x1b[0m"@ =~= "\x1b["@ + zero + "m"@);
    assert forall|rest: Seq<char>| #[trigger] uncoloured(c + rest) == t + uncoloured(rest) by {
        let tail = "\x1b["@ + zero + "m"@ + rest;
        assert(c + rest =~= "\x1b["@ + code + "m"@ + (t + tail));
        lemma_code(code, t + tail);
        lemma_plain_head(t, tail);
        lemma_code(zero, rest);
    }
}

proof fn lemma_plain_joined(a: Seq<char>, b: Seq<char>)
    requires
        plain(a),
        plain(b),
    ensures
        plain(a + b),
{
}

proof fn lemma_columns(t: Seq<char>, w: nat)
    requires
        plain(t),
    ensures
        plain(columns::left(t, w)),
        plain(columns::right(t, w)),
{
}

proof fn lemma_number(n: nat)
    ensures
        plain(text::decimal(n)),
{
    text::lemma_decimal(n);
    let d = text::decimal(n);
    assert forall|i: int| 0 <= i < d.len() implies #[trigger] d[i] != '\x1b' by {
        assert(text::is_digit(d[i]));
    }
}

/// No text of a headline holds an escape character.
pub open spec fn plain_headline(h: Headline) -> bool {
    &&& plain(h.alpha@)
    &&& plain(h.percent@)
    &&& plain(h.games@)
    &&& plain(h.goal@)
    &&& plain(h.eta@)
    &&& plain(h.best@)
}

/// No text of a machine's load holds an escape character.
pub open spec fn plain_load(load: Load) -> bool {
    match load {
        Load::Beating { state, cpu, temp, ram, rss } => {
            &&& plain(state@)
            &&& cpu matches Some(c) ==> plain(c@)
            &&& temp matches Some(t) ==> plain(t.1@)
            &&& ram matches Some(r) ==> plain(r.0@) && plain(r.1@)
            &&& rss matches Some(r) ==> plain(r@)
        },
        Load::Offline { since } => plain(since@),
        Load::Old => true,
    }
}

/// No text of a line of results holds an escape character.
pub open spec fn plain_results(r: Results) -> bool {
    &&& plain(r.label@)
    &&& plain(r.rate@)
    &&& plain(r.mean@)
    &&& forall|k: int| 0 <= k < 5 ==> plain((#[trigger] r.shares@[k])@)
    &&& plain(r.best@)
}

proof fn lemma_codes()
    ensures
        is_code("1"@),
        is_code("2"@),
        is_code("31"@),
        is_code("32"@),
        is_code("33"@),
{
    reveal_strlit("1");
    reveal_strlit("2");
    reveal_strlit("31");
    reveal_strlit("32");
    reveal_strlit("33");
}

proof fn lemma_headline_words()
    ensures
        plain("2048 TRAINING FARM"@),
        plain("   alpha "@),
        plain("   TC "@),
        plain("on"@),
        plain("off"@),
        plain("   PAUSED"@),
        plain("\nprogress  "@),
        plain("  "@),
        plain("%  "@),
        plain(" / "@),
        plain(" games  ETA "@),
        plain("\nbest game "@),
        plain("\n\n"@),
{
    reveal_strlit("2048 TRAINING FARM");
    reveal_strlit("   alpha ");
    reveal_strlit("   TC ");
    reveal_strlit("on");
    reveal_strlit("off");
    reveal_strlit("   PAUSED");
    reveal_strlit("\nprogress  ");
    reveal_strlit("  ");
    reveal_strlit("%  ");
    reveal_strlit(" / ");
    reveal_strlit(" games  ETA ");
    reveal_strlit("\nbest game ");
    reveal_strlit("\n\n");
}

proof fn lemma_headline(h: Headline)
    requires
        plain_headline(h),
    ensures
        is_coloured(status::headline_text(h, true), status::headline_text(h, false)),
{
    lemma_codes();
    lemma_headline_words();
    let on = if h.tc {
        "on"@
    } else {
        "off"@
    };
    let full = columns::repeated('#', h.bar as nat);
    let open = columns::repeated('.', (30 - h.bar) as nat);
    assert(plain(full) && plain(open));
    let title = "2048 TRAINING FARM"@;
    lemma_painted("1"@, title);
    let (mut c, mut p) = (
        columns::painted(true, "1"@, title),
        columns::painted(false, "1"@, title),
    );
    lemma_add(c, p, "   alpha "@);
    c = c + "   alpha "@;
    p = p + "   alpha "@;
    lemma_add(c, p, h.alpha@);
    c = c + h.alpha@;
    p = p + h.alpha@;
    lemma_add(c, p, "   TC "@);
    c = c + "   TC "@;
    p = p + "   TC "@;
    lemma_add(c, p, on);
    c = c + on;
    p = p + on;
    if h.paused {
        lemma_painted("33"@, "   PAUSED"@);
    } else {
        lemma_same(seq![]);
    }
    lemma_join(c, p, status::paused_text(h.paused, true), status::paused_text(h.paused, false));
    c = c + status::paused_text(h.paused, true);
    p = p + status::paused_text(h.paused, false);
    lemma_add(c, p, "\nprogress  "@);
    c = c + "\nprogress  "@;
    p = p + "\nprogress  "@;
    lemma_painted("32"@, full);
    lemma_join(c, p, columns::painted(true, "32"@, full), columns::painted(false, "32"@, full));
    c = c + columns::painted(true, "32"@, full);
    p = p + columns::painted(false, "32"@, full);
    lemma_painted("2"@, open);
    lemma_join(c, p, columns::painted(true, "2"@, open), columns::painted(false, "2"@, open));
    c = c + columns::painted(true, "2"@, open);
    p = p + columns::painted(false, "2"@, open);
    lemma_add(c, p, "  "@);
    c = c + "  "@;
    p = p + "  "@;
    lemma_add(c, p, h.percent@);
    c = c + h.percent@;
    p = p + h.percent@;
    lemma_add(c, p, "%  "@);
    c = c + "%  "@;
    p = p + "%  "@;
    lemma_add(c, p, h.games@);
    c = c + h.games@;
    p = p + h.games@;
    lemma_add(c, p, " / "@);
    c = c + " / "@;
    p = p + " / "@;
    lemma_add(c, p, h.goal@);
    c = c + h.goal@;
    p = p + h.goal@;
    lemma_add(c, p, " games  ETA "@);
    c = c + " games  ETA "@;
    p = p + " games  ETA "@;
    lemma_add(c, p, h.eta@);
    c = c + h.eta@;
    p = p + h.eta@;
    lemma_add(c, p, "\nbest game "@);
    c = c + "\nbest game "@;
    p = p + "\nbest game "@;
    lemma_add(c, p, h.best@);
    c = c + h.best@;
    p = p + h.best@;
    lemma_add(c, p, "\n\n"@);
    c = c + "\n\n"@;
    p = p + "\n\n"@;
    assert(c == status::headline_text(h, true));
    assert(p == status::headline_text(h, false));
}

proof fn lemma_machine_words()
    ensures
        plain("* training"@),
        plain("* "@),
        plain("%"@),
        plain("-"@),
        plain("C"@),
        plain("n/a"@),
        plain(" / "@),
        plain(" GB"@),
        plain("OFFLINE "@),
        plain("old worker"@),
        plain("?"@),
        plain("update the exe"@),
        plain("\n"@),
{
    reveal_strlit("* training");
    reveal_strlit("* ");
    reveal_strlit("%");
    reveal_strlit("-");
    reveal_strlit("C");
    reveal_strlit("n/a");
    reveal_strlit(" / ");
    reveal_strlit(" GB");
    reveal_strlit("OFFLINE ");
    reveal_strlit("old worker");
    reveal_strlit("?");
    reveal_strlit("update the exe");
    reveal_strlit("\n");
}

proof fn lemma_temp(temp: Option<(u64, String)>)
    requires
        temp matches Some(t) ==> plain(t.1@),
    ensures
        is_coloured(status::temp_text(temp, true), status::temp_text(temp, false)),
{
    lemma_codes();
    lemma_machine_words();
    match temp {
        Some((bits, t)) => {
            lemma_columns(t@, 7);
            lemma_plain_joined(columns::right(t@, 7), "C"@);
            lemma_painted(columns::heat_code(bits), columns::right(t@, 7) + "C"@);
        },
        None => {
            lemma_columns("n/a"@, 8);
            lemma_same(columns::right("n/a"@, 8));
        },
    }
}

proof fn lemma_ram(ram: Option<(String, String, bool)>)
    requires
        ram matches Some(r) ==> plain(r.0@) && plain(r.1@),
    ensures
        is_coloured(status::ram_text(ram, true), status::ram_text(ram, false)),
{
    lemma_codes();
    lemma_machine_words();
    match ram {
        Some((used, total, full)) => {
            let t = used@ + " / "@ + total@ + " GB"@;
            assert(plain(t));
            lemma_columns(t, 20);
            lemma_same(columns::right(t, 20));
            lemma_painted("31"@, columns::right(t, 20));
        },
        None => {
            lemma_columns("-"@, 20);
            lemma_same(columns::right("-"@, 20));
        },
    }
}

proof fn lemma_load(load: Load)
    requires
        plain_load(load),
    ensures
        is_coloured(status::load_text(load, true), status::load_text(load, false)),
{
    lemma_codes();
    lemma_machine_words();
    match load {
        Load::Beating { state, cpu, temp, ram, rss } => {
            lemma_columns("* training"@, 15);
            assert(plain("* "@ + state@));
            lemma_columns("* "@ + state@, 15);
            lemma_painted("32"@, columns::left("* training"@, 15));
            lemma_painted("33"@, columns::left("* "@ + state@, 15));
            let (mut c, mut p) = (
                status::state_text(state@, true),
                status::state_text(state@, false),
            );
            lemma_columns("-"@, 6);
            lemma_columns("-"@, 9);
            if let Some(t) = cpu {
                lemma_columns(t@, 5);
                lemma_plain_joined(columns::right(t@, 5), "%"@);
            }
            assert(plain(status::cpu_text(cpu)));
            lemma_add(c, p, status::cpu_text(cpu));
            c = c + status::cpu_text(cpu);
            p = p + status::cpu_text(cpu);
            lemma_temp(temp);
            lemma_join(c, p, status::temp_text(temp, true), status::temp_text(temp, false));
            c = c + status::temp_text(temp, true);
            p = p + status::temp_text(temp, false);
            lemma_ram(ram);
            lemma_join(c, p, status::ram_text(ram, true), status::ram_text(ram, false));
            c = c + status::ram_text(ram, true);
            p = p + status::ram_text(ram, false);
            if let Some(t) = rss {
                assert(plain(t@ + " GB"@));
                lemma_columns(t@ + " GB"@, 9);
            }
            assert(plain(status::rss_text(rss)));
            lemma_add(c, p, status::rss_text(rss));
        },
        Load::Offline { since } => {
            assert(plain("OFFLINE "@ + since@));
            lemma_columns("OFFLINE "@ + since@, 15);
            lemma_painted("31"@, columns::left("OFFLINE "@ + since@, 15));
        },
        Load::Old => {
            lemma_columns("old worker"@, 15);
            lemma_columns("?"@, 6);
            lemma_columns("?"@, 8);
            lemma_columns("update the exe"@, 20);
            let t = columns::left("old worker"@, 15);
            lemma_painted("33"@, t);
            let (c, p) = (columns::painted(true, "33"@, t), columns::painted(false, "33"@, t));
            let (q, r) = (columns::right("?"@, 6), columns::right("?"@, 8));
            lemma_add(c, p, q);
            lemma_add(c + q, p + q, r);
            lemma_add(c + q + r, p + q + r, columns::right("update the exe"@, 20));
        },
    }
}

proof fn lemma_machines(ms: Seq<(String, Load)>, n: int)
    requires
        0 <= n <= ms.len(),
        forall|i: int|
            0 <= i < ms.len() ==> plain((#[trigger] ms[i]).0@) && plain_load(ms[i].1),
    ensures
        is_coloured(status::machines_text(ms, true, n), status::machines_text(ms, false, n)),
    decreases n,
{
    if n == 0 {
        lemma_same(seq![]);
    } else {
        lemma_machines(ms, n - 1);
        lemma_machine_words();
        let (name, load) = (ms[n - 1].0@, ms[n - 1].1);
        lemma_columns(name, 12);
        lemma_load(load);
        let t = columns::left(name, 12);
        let (c, p) = (status::load_text(load, true), status::load_text(load, false));
        lemma_same(t);
        lemma_join(t, t, c, p);
        lemma_add(t + c, t + p, "\n"@);
        lemma_join(
            status::machines_text(ms, true, n - 1),
            status::machines_text(ms, false, n - 1),
            status::machine_text(name, load, true),
            status::machine_text(name, load, false),
        );
    }
}

proof fn lemma_heads()
    ensures
        plain(status::machines_head()),
        plain(status::results_head()),
{
    reveal_strlit("MACHINE");
    reveal_strlit("STATUS");
    reveal_strlit("CPU");
    reveal_strlit("TEMP");
    reveal_strlit("RAM used/total");
    reveal_strlit("g2048");
    reveal_strlit("RESULTS");
    reveal_strlit("games/s");
    reveal_strlit("mean score");
    reveal_strlit("2048");
    reveal_strlit("4096");
    reveal_strlit("8192");
    reveal_strlit("16384");
    reveal_strlit("32768");
    reveal_strlit("best");
    lemma_columns("MACHINE"@, 12);
    lemma_columns("STATUS"@, 15);
    lemma_columns("CPU"@, 6);
    lemma_columns("TEMP"@, 8);
    lemma_columns("RAM used/total"@, 20);
    lemma_columns("g2048"@, 9);
    lemma_columns("RESULTS"@, 12);
    lemma_columns("games/s"@, 9);
    lemma_columns("mean score"@, 12);
    lemma_columns("2048"@, 8);
    lemma_columns("4096"@, 8);
    lemma_columns("8192"@, 8);
    lemma_columns("16384"@, 8);
    lemma_columns("32768"@, 8);
    lemma_columns("best"@, 12);
}

proof fn lemma_results(r: Results)
    requires
        plain_results(r),
    ensures
        plain(status::results_text(r)),
{
    lemma_machine_words();
    lemma_columns(r.label@, 12);
    lemma_columns(r.rate@, 9);
    lemma_columns(r.mean@, 12);
    assert(plain(r.shares@[0]@) && plain(r.shares@[1]@) && plain(r.shares@[2]@) && plain(
        r.shares@[3]@,
    ) && plain(r.shares@[4]@));
    lemma_columns(r.shares@[0]@, 7);
    lemma_columns(r.shares@[1]@, 7);
    lemma_columns(r.shares@[2]@, 7);
    lemma_columns(r.shares@[3]@, 7);
    lemma_columns(r.shares@[4]@, 7);
    lemma_columns(r.best@, 12);
}

proof fn lemma_all_results(rs: Seq<Results>, n: int)
    requires
        0 <= n <= rs.len(),
        forall|i: int| 0 <= i < rs.len() ==> plain_results(#[trigger] rs[i]),
    ensures
        plain(status::all_results_text(rs, n)),
    decreases n,
{
    if n > 0 {
        lemma_all_results(rs, n - 1);
        lemma_results(rs[n - 1]);
    }
}

proof fn lemma_footer(seq: u64, saved: Seq<char>, held: nat, mb: nat)
    requires
        plain(saved),
    ensures
        plain(status::footer_text(seq, saved, held, mb)),
{
    reveal_strlit("\nmaster: update ");
    reveal_strlit(", saved ");
    reveal_strlit(" ago, ");
    reveal_strlit(" updates held (");
    reveal_strlit(" MB). Scores are over each machine's last 20 chunks.\n");
    lemma_number(seq as nat);
    lemma_number(held);
    lemma_number(mb);
}

/// Colours only add to the page: the page in black and white holds no escape character, and it
/// is the page in colour without the colour codes, character by character, so columns keep
/// their widths.
pub proof fn colours_only_add_codes(
    h: Headline,
    ms: Seq<(String, Load)>,
    rs: Seq<Results>,
    total: Results,
    seq: u64,
    saved: Seq<char>,
    held: nat,
    mb: nat,
)
    requires
        plain_headline(h),
        forall|i: int|
            0 <= i < ms.len() ==> plain((#[trigger] ms[i]).0@) && plain_load(ms[i].1),
        forall|i: int| 0 <= i < rs.len() ==> plain_results(#[trigger] rs[i]),
        plain_results(total),
        plain(saved),
    ensures
        ({
            let foot = status::footer_text(seq, saved, held, mb);
            let page = status::page_text(h, ms, rs, total, foot, false);
            plain(page) && uncoloured(status::page_text(h, ms, rs, total, foot, true)) == page
        }),
{
    lemma_codes();
    lemma_machine_words();
    lemma_heads();
    lemma_headline(h);
    lemma_machines(ms, ms.len() as int);
    lemma_all_results(rs, rs.len() as int);
    lemma_results(total);
    lemma_footer(seq, saved, held, mb);
    let foot = status::footer_text(seq, saved, held, mb);
    let (head, sums) = (status::machines_head(), status::results_head());
    let all = status::all_results_text(rs, rs.len() as int);
    let last = status::results_text(total);
    let n = ms.len() as int;
    let (mut c, mut p) = (status::headline_text(h, true), status::headline_text(h, false));
    lemma_painted("1"@, head);
    lemma_join(c, p, columns::painted(true, "1"@, head), columns::painted(false, "1"@, head));
    c = c + columns::painted(true, "1"@, head);
    p = p + columns::painted(false, "1"@, head);
    lemma_add(c, p, "\n"@);
    c = c + "\n"@;
    p = p + "\n"@;
    lemma_join(c, p, status::machines_text(ms, true, n), status::machines_text(ms, false, n));
    c = c + status::machines_text(ms, true, n);
    p = p + status::machines_text(ms, false, n);
    lemma_add(c, p, "\n"@);
    c = c + "\n"@;
    p = p + "\n"@;
    lemma_painted("1"@, sums);
    lemma_join(c, p, columns::painted(true, "1"@, sums), columns::painted(false, "1"@, sums));
    c = c + columns::painted(true, "1"@, sums);
    p = p + columns::painted(false, "1"@, sums);
    lemma_add(c, p, "\n"@);
    c = c + "\n"@;
    p = p + "\n"@;
    lemma_add(c, p, all);
    c = c + all;
    p = p + all;
    lemma_painted("1"@, last);
    lemma_join(c, p, columns::painted(true, "1"@, last), columns::painted(false, "1"@, last));
    c = c + columns::painted(true, "1"@, last);
    p = p + columns::painted(false, "1"@, last);
    lemma_painted("2"@, foot);
    lemma_join(c, p, columns::painted(true, "2"@, foot), columns::painted(false, "2"@, foot));
    c = c + columns::painted(true, "2"@, foot);
    p = p + columns::painted(false, "2"@, foot);
    assert(c == status::page_text(h, ms, rs, total, foot, true));
    assert(p == status::page_text(h, ms, rs, total, foot, false));
    let none = Seq::<char>::empty();
    assert(c + none =~= c);
    assert(p + uncoloured(none) =~= p);
    assert(uncoloured(c + none) == p + uncoloured(none));
}

/// The progress bar is always thirty characters: crosses, then dots.
pub proof fn the_bar_is_thirty_wide(bar: nat)
    requires
        bar <= 30,
    ensures
        ({
            let b = columns::repeated('#', bar) + columns::repeated('.', (30 - bar) as nat);
            &&& b.len() == 30
            &&& forall|i: int|
                0 <= i < 30 ==> #[trigger] b[i] == if i < bar {
                    '#'
                } else {
                    '.'
                }
        }),
{
}

}
