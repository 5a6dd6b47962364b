//! The status page: progress, what each machine is doing, and the training results. Numbers
//! that stem from floats come in writing.

use crate::deltas;
use crate::columns;
use crate::columns::{heat, push_left, push_painted, push_repeated, push_right};
use crate::text;
use crate::text::{decimal_chars, is_text, push_all, push_text, to_chars};
use crate::workers::Worker;
use vstd::prelude::*;

verus! {

/// A machine without a heartbeat for a minute is offline.
pub const OFFLINE_AFTER: u64 = 60_000_000_000;

/// The top of the page.
pub struct Headline {
    pub alpha: String,
    pub tc: bool,
    pub paused: bool,
    /// Full places of the progress bar, of thirty.
    pub bar: usize,
    pub percent: String,
    pub games: String,
    pub goal: String,
    pub eta: String,
    pub best: String,
}

/// What a machine's heartbeat says.
#[derive(Clone, Copy, Debug, PartialEq, Eq, Structural)]
pub enum Pulse {
    /// A heartbeat within the last minute.
    Beating,
    /// The last heartbeat is older.
    Offline,
    /// There never was one.
    Old,
}

/// What a machine is doing, in writing.
pub enum Load {
    Beating {
        state: String,
        cpu: Option<String>,
        /// The temperature's bits, and in writing.
        temp: Option<(u64, String)>,
        /// Used and total memory, and whether nearly all is used.
        ram: Option<(String, String, bool)>,
        rss: Option<String>,
    },
    /// For how long.
    Offline { since: String },
    Old,
}

/// One machine's results in writing.
pub struct Results {
    pub label: String,
    pub rate: String,
    pub mean: String,
    /// The shares of games that reached 2048 up to 32768.
    pub shares: [String; 5],
    pub best: String,
}

/// What a machine's heartbeat says at `now`.
pub open spec fn pulse_of(beat: Option<(u64, Seq<(Seq<char>, Seq<char>)>)>, now: u64) -> Pulse {
    match beat {
        None => Pulse::Old,
        Some((at, _)) => if deltas::elapsed(now, at) < OFFLINE_AFTER {
            Pulse::Beating
        } else {
            Pulse::Offline
        },
    }
}

/// What a machine's heartbeat says at `now`.
pub fn pulse(w: &Worker, now: u64) -> (p: Pulse)
    ensures
        p == pulse_of(w@.beat, now),
{
    match &w.beat {
        None => Pulse::Old,
        Some((at, _)) => if now > *at && now - *at >= OFFLINE_AFTER {
            Pulse::Offline
        } else {
            Pulse::Beating
        },
    }
}

/// The mark of a paused job.
pub open spec fn paused_text(paused: bool, color: bool) -> Seq<char> {
    if paused {
        columns::painted(color, "33"@, "   PAUSED"@)
    } else {
        seq![]
    }
}

/// The first lines of the page.
pub open spec fn headline_text(h: Headline, color: bool) -> Seq<char> {
    columns::painted(color, "1"@, "2048 TRAINING FARM"@) + "   alpha "@ + h.alpha@ + "   TC "@ + (
    if h.tc {
        "on"@
    } else {
        "off"@
    }) + paused_text(h.paused, color) + "\nprogress  "@ + columns::painted(
        color,
        "32"@,
        columns::repeated('#', h.bar as nat),
    ) + columns::painted(color, "2"@, columns::repeated('.', (30 - h.bar) as nat)) + "  "@
        + h.percent@ + "%  "@ + h.games@ + " / "@ + h.goal@ + " games  ETA "@ + h.eta@
        + "\nbest game "@ + h.best@ + "\n\n"@
}

fn painted(color: bool, code: &str, t: &str) -> (s: String)
    ensures
        s@ == columns::painted(color, code@, t@),
{
    let mut s: String = String::new();
    push_painted(&mut s, color, code, t);
    assert(s@ =~= columns::painted(color, code@, t@));
    s
}

fn repeated(c: char, n: usize) -> (s: String)
    ensures
        s@ == columns::repeated(c, n as nat),
{
    let mut s: String = String::new();
    push_repeated(&mut s, c, n);
    assert(s@ =~= columns::repeated(c, n as nat));
    s
}

fn paused_mark(paused: bool, color: bool) -> (s: String)
    ensures
        s@ == paused_text(paused, color),
{
    if paused {
        painted(color, "33", "   PAUSED")
    } else {
        let s: String = String::new();
        assert(s@ =~= seq![]);
        s
    }
}

/// Writes the first lines of the page.
pub fn headline(h: &Headline, color: bool) -> (s: String)
    requires
        h.bar <= 30,
    ensures
        s@ == headline_text(*h, color),
{
    let mut s: String = painted(color, "1", "2048 TRAINING FARM");
    push_text(&mut s, "   alpha ");
    push_text(&mut s, h.alpha.as_str());
    push_text(&mut s, "   TC ");
    push_text(
        &mut s,
        if h.tc {
            "on"
        } else {
            "off"
        },
    );
    push_text(&mut s, paused_mark(h.paused, color).as_str());
    push_text(&mut s, "\nprogress  ");
    push_painted(&mut s, color, "32", repeated('#', h.bar).as_str());
    push_painted(&mut s, color, "2", repeated('.', 30 - h.bar).as_str());
    push_text(&mut s, "  ");
    push_text(&mut s, h.percent.as_str());
    push_text(&mut s, "%  ");
    push_text(&mut s, h.games.as_str());
    push_text(&mut s, " / ");
    push_text(&mut s, h.goal.as_str());
    push_text(&mut s, " games  ETA ");
    push_text(&mut s, h.eta.as_str());
    push_text(&mut s, "\nbest game ");
    push_text(&mut s, h.best.as_str());
    push_text(&mut s, "\n\n");
    s
}

/// The head of the machines' table.
pub open spec fn machines_head() -> Seq<char> {
    columns::left("MACHINE"@, 12) + columns::left("STATUS"@, 15) + columns::right("CPU"@, 6)
        + columns::right("TEMP"@, 8) + columns::right("RAM used/total"@, 20) + columns::right(
        "g2048"@,
        9,
    )
}

/// What a machine is doing.
pub open spec fn state_text(state: Seq<char>, color: bool) -> Seq<char> {
    if state == "training"@ {
        columns::painted(color, "32"@, columns::left("* training"@, 15))
    } else {
        columns::painted(color, "33"@, columns::left("* "@ + state, 15))
    }
}

/// Its processors' load.
pub open spec fn cpu_text(cpu: Option<String>) -> Seq<char> {
    match cpu {
        Some(c) => columns::right(c@, 5) + "%"@,
        None => columns::right("-"@, 6),
    }
}

/// Its temperature.
pub open spec fn temp_text(temp: Option<(u64, String)>, color: bool) -> Seq<char> {
    match temp {
        Some((bits, t)) => columns::painted(
            color,
            columns::heat_code(bits),
            columns::right(t@, 7) + "C"@,
        ),
        None => columns::right("n/a"@, 8),
    }
}

/// Its memory, used and in all.
pub open spec fn ram_text(ram: Option<(String, String, bool)>, color: bool) -> Seq<char> {
    match ram {
        Some((used, total, full)) => {
            let t = columns::right(used@ + " / "@ + total@ + " GB"@, 20);
            if full {
                columns::painted(color, "31"@, t)
            } else {
                t
            }
        },
        None => columns::right("-"@, 20),
    }
}

/// The memory of the worker itself.
pub open spec fn rss_text(rss: Option<String>) -> Seq<char> {
    match rss {
        Some(r) => columns::right(r@ + " GB"@, 9),
        None => columns::right("-"@, 9),
    }
}

/// The columns after a machine's name.
pub open spec fn load_text(load: Load, color: bool) -> Seq<char> {
    match load {
        Load::Beating { state, cpu, temp, ram, rss } => state_text(state@, color) + cpu_text(cpu)
            + temp_text(temp, color) + ram_text(ram, color) + rss_text(rss),
        Load::Offline { since } => columns::painted(
            color,
            "31"@,
            columns::left("OFFLINE "@ + since@, 15),
        ),
        Load::Old => columns::painted(color, "33"@, columns::left("old worker"@, 15))
            + columns::right("?"@, 6) + columns::right("?"@, 8) + columns::right(
            "update the exe"@,
            20,
        ),
    }
}

/// A machine's line.
pub open spec fn machine_text(name: Seq<char>, load: Load, color: bool) -> Seq<char> {
    columns::left(name, 12) + load_text(load, color) + "\n"@
}

fn joined(a: &str, b: &str) -> (s: String)
    ensures
        s@ == a@ + b@,
{
    let mut s: String = String::new();
    push_text(&mut s, a);
    push_text(&mut s, b);
    assert(s@ =~= a@ + b@);
    s
}

fn lefted(t: &str, w: usize) -> (s: String)
    ensures
        s@ == columns::left(t@, w as nat),
{
    let mut s: String = String::new();
    push_left(&mut s, t, w);
    assert(s@ =~= columns::left(t@, w as nat));
    s
}

fn righted(t: &str, w: usize) -> (s: String)
    ensures
        s@ == columns::right(t@, w as nat),
{
    let mut s: String = String::new();
    push_right(&mut s, t, w);
    assert(s@ =~= columns::right(t@, w as nat));
    s
}

fn state_cell(state: &String, color: bool) -> (s: String)
    ensures
        s@ == state_text(state@, color),
{
    let cs: Vec<char> = to_chars(state.as_str());
    if is_text(cs.as_slice(), "training") {
        painted(color, "32", lefted("* training", 15).as_str())
    } else {
        let t: String = joined("* ", state.as_str());
        painted(color, "33", lefted(t.as_str(), 15).as_str())
    }
}

fn cpu_cell(cpu: &Option<String>) -> (s: String)
    ensures
        s@ == cpu_text(*cpu),
{
    match cpu {
        Some(c) => joined(righted(c.as_str(), 5).as_str(), "%"),
        None => righted("-", 6),
    }
}

fn temp_cell(temp: &Option<(u64, String)>, color: bool) -> (s: String)
    ensures
        s@ == temp_text(*temp, color),
{
    match temp {
        Some((bits, t)) => {
            let r: String = righted(t.as_str(), 7);
            painted(color, heat(*bits).as_str(), joined(r.as_str(), "C").as_str())
        },
        None => righted("n/a", 8),
    }
}

fn ram_cell(ram: &Option<(String, String, bool)>, color: bool) -> (s: String)
    ensures
        s@ == ram_text(*ram, color),
{
    match ram {
        Some((used, total, full)) => {
            let a: String = joined(used.as_str(), " / ");
            let b: String = joined(a.as_str(), total.as_str());
            let c: String = joined(b.as_str(), " GB");
            if *full {
                painted(color, "31", righted(c.as_str(), 20).as_str())
            } else {
                righted(c.as_str(), 20)
            }
        },
        None => righted("-", 20),
    }
}

fn rss_cell(rss: &Option<String>) -> (s: String)
    ensures
        s@ == rss_text(*rss),
{
    match rss {
        Some(r) => righted(joined(r.as_str(), " GB").as_str(), 9),
        None => righted("-", 9),
    }
}

fn load_cells(load: &Load, color: bool) -> (s: String)
    ensures
        s@ == load_text(*load, color),
{
    match load {
        Load::Beating { state, cpu, temp, ram, rss } => {
            let mut s: String = state_cell(state, color);
            push_text(&mut s, cpu_cell(cpu).as_str());
            push_text(&mut s, temp_cell(temp, color).as_str());
            push_text(&mut s, ram_cell(ram, color).as_str());
            push_text(&mut s, rss_cell(rss).as_str());
            s
        },
        Load::Offline { since } => {
            let t: String = joined("OFFLINE ", since.as_str());
            painted(color, "31", lefted(t.as_str(), 15).as_str())
        },
        Load::Old => {
            let mut s: String = painted(color, "33", lefted("old worker", 15).as_str());
            push_right(&mut s, "?", 6);
            push_right(&mut s, "?", 8);
            push_right(&mut s, "update the exe", 20);
            s
        },
    }
}

/// Writes a machine's line.
pub fn machine_line(name: &str, load: &Load, color: bool) -> (s: String)
    ensures
        s@ == machine_text(name@, *load, color),
{
    let mut s: String = lefted(name, 12);
    push_text(&mut s, load_cells(load, color).as_str());
    push_text(&mut s, "\n");
    s
}

/// The head of the results' table.
pub open spec fn results_head() -> Seq<char> {
    columns::left("RESULTS"@, 12) + columns::right("games/s"@, 9) + columns::right("mean score"@, 12)
        + columns::right("2048"@, 8) + columns::right("4096"@, 8) + columns::right("8192"@, 8)
        + columns::right("16384"@, 8) + columns::right("32768"@, 8) + columns::right("best"@, 12)
}

/// A line of results.
pub open spec fn results_text(r: Results) -> Seq<char> {
    columns::left(r.label@, 12) + columns::right(r.rate@, 9) + columns::right(r.mean@, 12)
        + columns::right(r.shares@[0]@, 7) + "%"@ + columns::right(r.shares@[1]@, 7) + "%"@
        + columns::right(r.shares@[2]@, 7) + "%"@ + columns::right(r.shares@[3]@, 7) + "%"@
        + columns::right(r.shares@[4]@, 7) + "%"@ + columns::right(r.best@, 12) + "\n"@
}

/// Writes a line of results.
pub fn results_line(r: &Results) -> (s: String)
    ensures
        s@ == results_text(*r),
{
    let mut s: String = lefted(r.label.as_str(), 12);
    push_right(&mut s, r.rate.as_str(), 9);
    push_right(&mut s, r.mean.as_str(), 12);
    push_right(&mut s, r.shares[0].as_str(), 7);
    push_text(&mut s, "%");
    push_right(&mut s, r.shares[1].as_str(), 7);
    push_text(&mut s, "%");
    push_right(&mut s, r.shares[2].as_str(), 7);
    push_text(&mut s, "%");
    push_right(&mut s, r.shares[3].as_str(), 7);
    push_text(&mut s, "%");
    push_right(&mut s, r.shares[4].as_str(), 7);
    push_text(&mut s, "%");
    push_right(&mut s, r.best.as_str(), 12);
    push_text(&mut s, "\n");
    s
}

/// The last line of the page.
pub open spec fn footer_text(seq: u64, saved: Seq<char>, held: nat, mb: nat) -> Seq<char> {
    "\nmaster: update "@ + text::decimal(seq as nat) + ", saved "@ + saved + " ago, "@
        + text::decimal(held) + " updates held ("@ + text::decimal(mb)
        + " MB). Scores are over each machine's last 20 chunks.\n"@
}

fn footer(seq: u64, saved: &str, held: u64, mb: u64) -> (s: String)
    ensures
        s@ == footer_text(seq, saved@, held as nat, mb as nat),
{
    let mut s: String = joined("", "\nmaster: update ");
    proof {
        reveal_strlit("");
        assert(s@ =~= "\nmaster: update "@);
    }
    push_all(&mut s, decimal_chars(seq).as_slice());
    push_text(&mut s, ", saved ");
    push_text(&mut s, saved);
    push_text(&mut s, " ago, ");
    push_all(&mut s, decimal_chars(held).as_slice());
    push_text(&mut s, " updates held (");
    push_all(&mut s, decimal_chars(mb).as_slice());
    push_text(&mut s, " MB). Scores are over each machine's last 20 chunks.\n");
    s
}

/// The first `n` machines' lines.
pub open spec fn machines_text(ms: Seq<(String, Load)>, color: bool, n: int) -> Seq<char>
    decreases n,
{
    if n <= 0 {
        seq![]
    } else {
        machines_text(ms, color, n - 1) + machine_text(ms[n - 1].0@, ms[n - 1].1, color)
    }
}

/// The first `n` lines of results.
pub open spec fn all_results_text(rs: Seq<Results>, n: int) -> Seq<char>
    decreases n,
{
    if n <= 0 {
        seq![]
    } else {
        all_results_text(rs, n - 1) + results_text(rs[n - 1])
    }
}

/// The whole page.
pub open spec fn page_text(
    h: Headline,
    ms: Seq<(String, Load)>,
    rs: Seq<Results>,
    total: Results,
    foot: Seq<char>,
    color: bool,
) -> Seq<char> {
    headline_text(h, color) + columns::painted(color, "1"@, machines_head()) + "\n"@ + machines_text(
        ms,
        color,
        ms.len() as int,
    ) + "\n"@ + columns::painted(color, "1"@, results_head()) + "\n"@ + all_results_text(
        rs,
        rs.len() as int,
    ) + columns::painted(color, "1"@, results_text(total)) + columns::painted(color, "2"@, foot)
}

fn machines_header() -> (s: String)
    ensures
        s@ == machines_head(),
{
    let mut s: String = lefted("MACHINE", 12);
    push_left(&mut s, "STATUS", 15);
    push_right(&mut s, "CPU", 6);
    push_right(&mut s, "TEMP", 8);
    push_right(&mut s, "RAM used/total", 20);
    push_right(&mut s, "g2048", 9);
    s
}

fn results_header() -> (s: String)
    ensures
        s@ == results_head(),
{
    let mut s: String = lefted("RESULTS", 12);
    push_right(&mut s, "games/s", 9);
    push_right(&mut s, "mean score", 12);
    push_right(&mut s, "2048", 8);
    push_right(&mut s, "4096", 8);
    push_right(&mut s, "8192", 8);
    push_right(&mut s, "16384", 8);
    push_right(&mut s, "32768", 8);
    push_right(&mut s, "best", 12);
    s
}

fn machine_lines(ms: &Vec<(String, Load)>, color: bool) -> (s: String)
    ensures
        s@ == machines_text(ms@, color, ms@.len() as int),
{
    let mut s: String = String::new();
    let mut i: usize = 0;
    assert(s@ =~= seq![]);
    while i < ms.len()
        invariant
            i <= ms@.len(),
            s@ == machines_text(ms@, color, i as int),
        decreases ms@.len() - i,
    {
        push_text(&mut s, machine_line(ms[i].0.as_str(), &ms[i].1, color).as_str());
        i += 1;
    }
    s
}

fn result_lines(rs: &Vec<Results>) -> (s: String)
    ensures
        s@ == all_results_text(rs@, rs@.len() as int),
{
    let mut s: String = String::new();
    let mut i: usize = 0;
    assert(s@ =~= seq![]);
    while i < rs.len()
        invariant
            i <= rs@.len(),
            s@ == all_results_text(rs@, i as int),
        decreases rs@.len() - i,
    {
        push_text(&mut s, results_line(&rs[i]).as_str());
        i += 1;
    }
    s
}

/// Writes the page. `seq`, `saved`, `held` and `bytes` are the master's update, how long ago it
/// was saved, and the updates and bytes held.
pub fn status_page(
    h: &Headline,
    ms: &Vec<(String, Load)>,
    rs: &Vec<Results>,
    total: &Results,
    seq: u64,
    saved: &str,
    held: usize,
    bytes: usize,
    color: bool,
) -> (s: String)
    requires
        h.bar <= 30,
    ensures
        s@ == page_text(
            *h,
            ms@,
            rs@,
            *total,
            footer_text(seq, saved@, held as nat, (bytes / 0x10_0000) as nat),
            color,
        ),
{
    let mut s: String = headline(h, color);
    push_painted(&mut s, color, "1", machines_header().as_str());
    push_text(&mut s, "\n");
    push_text(&mut s, machine_lines(ms, color).as_str());
    push_text(&mut s, "\n");
    push_painted(&mut s, color, "1", results_header().as_str());
    push_text(&mut s, "\n");
    push_text(&mut s, result_lines(rs).as_str());
    push_painted(&mut s, color, "1", results_line(total).as_str());
    let f: String = footer(seq, saved, held as u64, (bytes / 0x10_0000) as u64);
    push_painted(&mut s, color, "2", f.as_str());
    s
}

}
