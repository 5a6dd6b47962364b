//! What a worker and its supervisor decide and write: names, targets of requests, exit codes,
//! and the machine's load as the system tells it. Times are nanoseconds.

use crate::chunk;
use crate::chunk::Chunk;
use crate::http;
use crate::http::{write_target, Query};
use crate::text;
use crate::text::{
    find_char, is_text, parse_whole, push_all, push_text, split_lines, split_words,
    strip_prefix, to_chars, to_text, trim,
};
use crate::vecs::part;
use vstd::prelude::*;

verus! {

/// The exit code a worker uses to ask its supervisor for the new build.
pub const UPDATE_EXIT: i32 = 42;

/// The exit code for `stop.NAME=1` in the job: the supervisor exits too.
pub const STOP_EXIT: i32 = 43;

/// An update asked for again this soon is not published yet: five minutes.
pub const UPDATE_WAIT: u64 = 300_000_000_000;

/// How long a worker trains on before it saves its net for the next start: half an hour.
pub const CACHE_EVERY: u64 = 1_800_000_000_000;

/// What a worker does before it measures the changes of a chunk.
#[derive(Clone, Copy, Debug, PartialEq, Eq, Structural)]
pub enum AfterSync {
    /// It fell too far behind the master: drop the net and download it again.
    StartOver,
    /// It stands at update `seq`: switch on TC learning and save the net where asked for.
    GoOn { seq: u64, enable_tc: bool, save: bool },
}

/// What a worker does once it has pulled the others' changes, up to update `synced` if it was
/// not too far behind; it last saved its net `since_save` ago.
pub fn after_sync(synced: Option<u64>, tc_wanted: bool, tc_on: bool, since_save: u64) -> (a:
    AfterSync)
    ensures
        a == match synced {
            None => AfterSync::StartOver,
            Some(seq) => AfterSync::GoOn {
                seq,
                enable_tc: tc_wanted && !tc_on,
                save: since_save > CACHE_EVERY,
            },
        },
{
    match synced {
        None => AfterSync::StartOver,
        Some(seq) => AfterSync::GoOn {
            seq,
            enable_tc: tc_wanted && !tc_on,
            save: since_save > CACHE_EVERY,
        },
    }
}

/// What the supervisor does when its worker exits.
#[derive(Clone, Copy, Debug, PartialEq, Eq, Structural)]
pub enum AfterExit {
    Stop,
    /// Start the new build, after a wait if asked for.
    Update { wait: bool },
    /// The worker crashed: start it again.
    Restart,
}

/// What the supervisor does when its worker exits with `code` after `ran`.
pub fn after_exit(code: Option<i32>, ran: u64) -> (a: AfterExit)
    ensures
        a == if code == Some(STOP_EXIT) {
            AfterExit::Stop
        } else if code == Some(UPDATE_EXIT) {
            AfterExit::Update { wait: ran < UPDATE_WAIT }
        } else {
            AfterExit::Restart
        },
{
    match code {
        Some(c) => if c == STOP_EXIT {
            AfterExit::Stop
        } else if c == UPDATE_EXIT {
            AfterExit::Update { wait: ran < UPDATE_WAIT }
        } else {
            AfterExit::Restart
        },
        None => AfterExit::Restart,
    }
}

/// The first text that is there and not empty.
pub fn first_set(vars: &Vec<Option<String>>) -> (k: Option<usize>)
    ensures
        match k {
            Some(i) => {
                &&& i < vars@.len()
                &&& vars@[i as int] matches Some(s)
                &&& s@.len() > 0
                &&& forall|j: int|
                    0 <= j < i ==> (#[trigger] vars@[j] matches Some(s) ==> s@.len() == 0)
            },
            None => forall|j: int|
                0 <= j < vars@.len() ==> (#[trigger] vars@[j] matches Some(s) ==> s@.len() == 0),
        },
{
    let mut i: usize = 0;
    while i < vars.len()
        invariant
            i <= vars@.len(),
            forall|j: int|
                0 <= j < i ==> (#[trigger] vars@[j] matches Some(s) ==> s@.len() == 0),
        decreases vars@.len() - i,
    {
        match &vars[i] {
            Some(s) => {
                if !s.as_str().is_empty() {
                    return Some(i);
                }
            },
            None => {},
        }
        i += 1;
    }
    None
}

/// The hexadecimal digit of value `d`.
pub open spec fn hex_digit(d: int) -> char {
    if d < 10 {
        (48 + d) as char
    } else {
        (87 + d) as char
    }
}

/// The last `n` hexadecimal digits of a number.
pub open spec fn hex_text(x: nat, n: nat) -> Seq<char>
    decreases n,
{
    if n == 0 {
        seq![]
    } else {
        hex_text(x / 16, (n - 1) as nat).push(hex_digit((x % 16) as int))
    }
}

fn hex_chars(x: u32, n: usize) -> (v: Vec<char>)
    ensures
        v@ == hex_text(x as nat, n as nat),
    decreases n,
{
    if n == 0 {
        let v: Vec<char> = Vec::new();
        assert(v@ =~= seq![]);
        return v;
    }
    let mut v: Vec<char> = hex_chars(x / 16, n - 1);
    let d: u8 = (x % 16) as u8;
    let c: u8 = if d < 10 {
        48 + d
    } else {
        87 + d
    };
    v.push(c as char);
    v
}

/// The name of one run of a worker: unique, so a restarted worker never skips deltas it didn't
/// make itself.
pub fn run_name(name: &str, run: u32) -> (s: String)
    ensures
        s@ == name@ + "-"@ + hex_text(run as nat, 8),
{
    let mut s: String = to_text(to_chars(name).as_slice());
    push_text(&mut s, "-");
    push_all(&mut s, hex_chars(run, 8).as_slice());
    s
}

/// The number of texts of `n` hexadecimal digits.
spec fn hex_limit(n: nat) -> nat
    decreases n,
{
    if n == 0 {
        1
    } else {
        16 * hex_limit((n - 1) as nat)
    }
}

proof fn lemma_hex(a: nat, b: nat, n: nat)
    requires
        hex_text(a, n) == hex_text(b, n),
        a < hex_limit(n),
        b < hex_limit(n),
    ensures
        a == b,
    decreases n,
{
    if n > 0 {
        let (x, y) = (hex_text(a, n), hex_text(b, n));
        assert(x.last() == y.last());
        assert(x.drop_last() =~= hex_text(a / 16, (n - 1) as nat));
        assert(y.drop_last() =~= hex_text(b / 16, (n - 1) as nat));
        lemma_hex(a / 16, b / 16, (n - 1) as nat);
    }
}

/// Different runs of a machine have different names.
pub proof fn runs_have_different_names(name: Seq<char>, a: u32, b: u32)
    requires
        name + "-"@ + hex_text(a as nat, 8) == name + "-"@ + hex_text(b as nat, 8),
    ensures
        a == b,
{
    let (x, y) = (name + "-"@ + hex_text(a as nat, 8), name + "-"@ + hex_text(b as nat, 8));
    let n = (name + "-"@).len() as int;
    assert(x.skip(n) =~= hex_text(a as nat, 8));
    assert(y.skip(n) =~= hex_text(b as nat, 8));
    reveal_with_fuel(hex_limit, 9);
    lemma_hex(a as nat, b as nat, 8);
}

/// A text without the slashes at its end.
pub open spec fn without_slashes(s: Seq<char>) -> Seq<char>
    decreases s.len(),
{
    if s.len() > 0 && s.last() == '/' {
        without_slashes(s.drop_last())
    } else {
        s
    }
}

/// The place of the first character from `i` on that is no slash.
pub open spec fn past_slashes(s: Seq<char>, i: int) -> int
    decreases s.len() - i,
{
    if i >= s.len() || s[i] != '/' {
        i
    } else {
        past_slashes(s, i + 1)
    }
}

fn drop_slashes(s: &[char]) -> (out: Vec<char>)
    ensures
        out@ == without_slashes(s@),
{
    let mut n: usize = s.len();
    assert(s@.take(n as int) =~= s@);
    while n > 0 && s[n - 1] == '/'
        invariant
            n <= s@.len(),
            without_slashes(s@.take(n as int)) == without_slashes(s@),
        decreases n,
    {
        assert(s@.take(n as int).drop_last() =~= s@.take(n - 1));
        assert(s@.take(n as int).last() == s@[n - 1]);
        n -= 1;
    }
    proof {
        if n > 0 {
            assert(s@.take(n as int).last() == s@[n - 1]);
        }
    }
    let out: Vec<char> = part(s, 0, n);
    assert(out@ =~= s@.take(n as int));
    out
}

/// The coordinator's address, without slashes at its end.
pub fn base_url(url: &str) -> (s: String)
    ensures
        s@ == without_slashes(url@),
{
    to_text(drop_slashes(to_chars(url).as_slice()).as_slice())
}

/// A path without the slashes at its ends.
pub open spec fn bare_path(p: Seq<char>) -> Seq<char> {
    without_slashes(p.skip(past_slashes(p, 0)))
}

/// The file that the answer to a request lands in.
pub fn response_name(target: &str) -> (s: String)
    ensures
        s@ == "resp-"@ + bare_path(text::pieces(target@, '?')[0]),
{
    let cs: Vec<char> = to_chars(target);
    let n: usize = find_char(cs.as_slice(), '?', 0);
    let path: Vec<char> = part(cs.as_slice(), 0, n);
    proof {
        if n < cs@.len() {
            assert(path@ =~= text::pieces(target@, '?')[0]);
        } else {
            assert(path@ =~= cs@.skip(0));
        }
    }
    let mut i: usize = 0;
    while i < path.len() && path[i] == '/'
        invariant
            i <= path@.len(),
            past_slashes(path@, i as int) == past_slashes(path@, 0),
        decreases path@.len() - i,
    {
        i += 1;
    }
    let tail: Vec<char> = part(path.as_slice(), i, path.len());
    assert(tail@ =~= path@.skip(i as int));
    let mut s: String = to_text(to_chars("resp-").as_slice());
    push_all(&mut s, drop_slashes(tail.as_slice()).as_slice());
    s
}

/// The status code that `curl` printed; zero if it is none.
pub fn status_code(printed: &str) -> (code: u16)
    ensures
        code == match text::whole(text::trimmed(printed@)) {
            Some(n) if n <= u16::MAX => n as u16,
            _ => 0,
        },
{
    match parse_whole(trim(to_chars(printed).as_slice()).as_slice()) {
        Some(n) if n <= u16::MAX as u64 => n as u16,
        _ => 0,
    }
}

/// What a worker does with the answer to a pull.
#[derive(Clone, Copy, Debug, PartialEq, Eq, Structural)]
pub enum PullStep {
    /// Apply the deltas in it.
    Read,
    /// Too far behind: download the net again.
    StartOver,
    Fail,
}

/// What a worker does with an answer of status `code` to a pull.
pub fn pull_step(code: u16) -> (p: PullStep)
    ensures
        p == if code == 410 {
            PullStep::StartOver
        } else if code != 200 {
            PullStep::Fail
        } else {
            PullStep::Read
        },
{
    if code == 410 {
        PullStep::StartOver
    } else if code != 200 {
        PullStep::Fail
    } else {
        PullStep::Read
    }
}

/// The pairs with which a worker asks for the deltas since an update.
pub open spec fn deltas_pairs(since: u64, me: Seq<char>) -> Seq<(Seq<char>, Seq<char>)> {
    seq![("since"@, text::decimal(since as nat)), ("me"@, me)]
}

/// Where a worker asks for the deltas since an update.
pub fn deltas_target(since: u64, me: &str) -> (s: String)
    ensures
        s@ == http::target_text("/deltas"@, deltas_pairs(since, me@)),
{
    let mut q: Query = Query::new();
    q.push_number("since", since);
    q.push("me", me);
    assert(q@ =~= deltas_pairs(since, me@));
    write_target("/deltas", &q)
}

/// The pairs with which a worker sends the delta of a chunk.
pub open spec fn delta_pairs(
    me: Seq<char>,
    name: Seq<char>,
    c: Chunk,
    secs: Seq<char>,
) -> Seq<(Seq<char>, Seq<char>)> {
    seq![("me"@, me), ("name"@, name)] + chunk::pairs_of(c, secs)
}

/// Where a worker sends the delta of a chunk; `secs` is its seconds in writing.
pub fn delta_target(me: &str, name: &str, c: &Chunk, secs: &str) -> (s: String)
    ensures
        s@ == http::target_text("/delta"@, delta_pairs(me@, name@, *c, secs@)),
{
    let mut q: Query = Query::new();
    q.push("me", me);
    q.push("name", name);
    assert(q@ =~= seq![("me"@, me@), ("name"@, name@)]);
    c.push_to(&mut q, secs);
    write_target("/delta", &q)
}

/// The pairs of a heartbeat.
pub open spec fn beat_pairs(
    name: Seq<char>,
    threads: u64,
    state: Seq<char>,
    load: Seq<(Seq<char>, Seq<char>)>,
) -> Seq<(Seq<char>, Seq<char>)> {
    seq![("name"@, name), ("threads"@, text::decimal(threads as nat)), ("state"@, state)] + load
}

/// Where a worker sends a heartbeat: what it is doing, and its machine's load.
pub fn beat_target(name: &str, threads: u64, state: &str, load: &Query) -> (s: String)
    ensures
        s@ == http::target_text("/beat"@, beat_pairs(name@, threads, state@, load@)),
{
    let mut q: Query = Query::new();
    q.push("name", name);
    q.push_number("threads", threads);
    q.push("state", state);
    let ghost head = q@;
    let mut i: usize = 0;
    assert(q@ =~= head + load@.take(0));
    while i < load.pairs.len()
        invariant
            i <= load.pairs@.len(),
            load@.len() == load.pairs@.len(),
            q@ == head + load@.take(i as int),
        decreases load.pairs@.len() - i,
    {
        q.push(load.pairs[i].0.as_str(), load.pairs[i].1.as_str());
        assert(load@[i as int] == (load.pairs@[i as int].0@, load.pairs@[i as int].1@));
        i += 1;
        assert(q@ =~= head + load@.take(i as int));
    }
    assert(load@.take(i as int) =~= load@);
    assert(q@ =~= beat_pairs(name@, threads, state@, load@));
    write_target("/beat", &q)
}

/// The share of its changes that the master took, in writing: the second word of its reply.
pub fn scale_word(reply: &str) -> (s: Option<String>)
    ensures
        match s {
            Some(w) => text::words(reply@).len() > 1 && w@ == text::words(reply@)[1],
            None => text::words(reply@).len() <= 1,
        },
{
    let ws: Vec<Vec<char>> = split_words(to_chars(reply).as_slice());
    assert(text::texts(ws@).len() == ws@.len());
    if ws.len() > 1 {
        assert(text::texts(ws@)[1] == ws@[1]@);
        Some(to_text(ws[1].as_slice()))
    } else {
        None
    }
}

/// The seed of the next chunk.
pub fn next_seed(seed: u64) -> (s: u64)
    ensures
        s == (seed + 0x9E37_79B9) % 0x1_0000_0000_0000_0000,
{
    seed.wrapping_add(0x9E37_79B9)
}

/// The numbers among words from word `i` on, in order.
pub open spec fn numbers_from(ws: Seq<Seq<char>>, i: int, n: int) -> Seq<u64>
    decreases n - i,
{
    if i >= n {
        seq![]
    } else {
        match text::whole(ws[i]) {
            Some(x) => seq![x] + numbers_from(ws, i + 1, n),
            None => numbers_from(ws, i + 1, n),
        }
    }
}

/// The sum of the first `n` numbers, as far as there are any.
pub open spec fn sum_first(v: Seq<u64>, n: int) -> nat
    decreases n,
{
    if n <= 0 {
        0
    } else {
        sum_first(v, n - 1) + (if n - 1 < v.len() {
            v[n - 1] as nat
        } else {
            0
        })
    }
}

/// Number `i`, zero if there is none.
pub open spec fn number_at(v: Seq<u64>, i: int) -> nat {
    if i < v.len() {
        v[i] as nat
    } else {
        0
    }
}

fn read_numbers(ws: &Vec<Vec<char>>) -> (v: Vec<u64>)
    ensures
        v@ == numbers_from(text::texts(ws@), 1, ws@.len() as int),
{
    let mut v: Vec<u64> = Vec::new();
    let ghost all = text::texts(ws@);
    let n: usize = ws.len();
    let mut i: usize = 1;
    assert(v@ + numbers_from(all, 1, n as int) =~= numbers_from(all, 1, n as int));
    while i < n
        invariant
            n == ws@.len(),
            1 <= i,
            i <= n || n == 0,
            all == text::texts(ws@),
            v@ + numbers_from(all, i as int, n as int) == numbers_from(all, 1, n as int),
        decreases n - i,
    {
        assert(all[i as int] == ws@[i as int]@);
        match parse_whole(ws[i].as_slice()) {
            Some(x) => {
                let ghost before = v@;
                v.push(x);
                assert(before + (seq![x] + numbers_from(all, i + 1, n as int)) =~= v@
                    + numbers_from(all, i + 1, n as int));
            },
            None => {},
        }
        i += 1;
    }
    assert(v@ + Seq::<u64>::empty() =~= v@);
    v
}

/// The numbers on the processors' line of the system's statistics.
pub open spec fn cpu_numbers(line: Seq<char>) -> Seq<u64> {
    numbers_from(text::words(line), 1, text::words(line).len() as int)
}

/// All time and idle time of the processors: the first eight numbers, and the fourth and fifth.
/// None if a sum leaves 64 bits.
pub fn cpu_times(line: &str) -> (t: Option<(u64, u64)>)
    ensures
        ({
            let v = cpu_numbers(line@);
            let (all, idle) = (sum_first(v, 8), number_at(v, 3) + number_at(v, 4));
            match t {
                Some((a, i)) => a == all && i == idle,
                None => all > u64::MAX || idle > u64::MAX,
            }
        }),
{
    let ws: Vec<Vec<char>> = split_words(to_chars(line).as_slice());
    assert(text::texts(ws@).len() == ws@.len());
    let v: Vec<u64> = read_numbers(&ws);
    let mut all: u64 = 0;
    let mut i: usize = 0;
    while i < 8
        invariant
            i <= 8,
            v@ == cpu_numbers(line@),
            all == sum_first(v@, i as int),
        decreases 8 - i,
    {
        if i < v.len() {
            if all > u64::MAX - v[i] {
                proof {
                    lemma_sum_first(v@, i + 1, 8);
                }
                return None;
            }
            all = all + v[i];
        }
        i += 1;
    }
    let a: u64 = if v.len() > 3 {
        v[3]
    } else {
        0
    };
    let b: u64 = if v.len() > 4 {
        v[4]
    } else {
        0
    };
    if a > u64::MAX - b {
        return None;
    }
    Some((all, a + b))
}

proof fn lemma_sum_first(v: Seq<u64>, a: int, b: int)
    requires
        a <= b,
    ensures
        sum_first(v, a) <= sum_first(v, b),
    decreases b - a,
{
    if a < b {
        lemma_sum_first(v, a, b - 1);
    }
}

/// Idle and all time since the previous sample, where there was one and time has passed.
pub open spec fn cpu_growth(last: Option<(u64, u64)>, now: (u64, u64)) -> Option<(u64, u64)> {
    match last {
        Some(l) if now.0 > l.0 => Some(((now.1 - l.1) as u64, (now.0 - l.0) as u64)),
        _ => None,
    }
}

/// Idle and all time since the previous sample.
pub fn cpu_since(last: Option<(u64, u64)>, now: (u64, u64)) -> (d: Option<(u64, u64)>)
    requires
        last matches Some(l) ==> now.0 > l.0 ==> now.1 >= l.1,
    ensures
        d == cpu_growth(last, now),
{
    match last {
        Some(l) if now.0 > l.0 => Some((now.1 - l.1, now.0 - l.0)),
        _ => None,
    }
}

/// The first word after `key` on a line that starts with it.
pub open spec fn amount_in(line: Seq<char>, key: Seq<char>) -> Option<Seq<char>> {
    match text::after_prefix(line, key) {
        Some(rest) if text::words(rest).len() > 0 => Some(text::words(rest)[0]),
        _ => None,
    }
}

/// The amounts that the first `n` lines give for `key`.
pub open spec fn amounts_in(lines: Seq<Seq<char>>, key: Seq<char>, n: int) -> Seq<Seq<char>>
    decreases n,
{
    if n <= 0 {
        seq![]
    } else {
        match amount_in(lines[n - 1], key) {
            Some(v) => amounts_in(lines, key, n - 1).push(v),
            None => amounts_in(lines, key, n - 1),
        }
    }
}

/// The amounts in a file of the system's that stand for `key`, in order.
pub fn amounts(file: &str, key: &str) -> (out: Vec<String>)
    ensures
        text::contents(out@) == amounts_in(
            text::lines(file@),
            key@,
            text::lines(file@).len() as int,
        ),
{
    let k: Vec<char> = to_chars(key);
    let all: Vec<Vec<char>> = split_lines(to_chars(file).as_slice());
    let mut out: Vec<String> = Vec::new();
    let mut i: usize = 0;
    assert(text::contents(out@) =~= seq![]);
    while i < all.len()
        invariant
            i <= all@.len(),
            text::texts(all@) == text::lines(file@),
            k@ == key@,
            text::contents(out@) == amounts_in(text::lines(file@), key@, i as int),
        decreases all@.len() - i,
    {
        assert(text::texts(all@)[i as int] == all@[i as int]@);
        match strip_prefix(all[i].as_slice(), k.as_slice()) {
            Some(rest) => {
                let ws: Vec<Vec<char>> = split_words(rest.as_slice());
                assert(text::texts(ws@).len() == ws@.len());
                if ws.len() > 0 {
                    assert(text::texts(ws@)[0] == ws@[0]@);
                    let s: String = to_text(ws[0].as_slice());
                    let ghost before = out@;
                    out.push(s);
                    assert(text::contents(out@) =~= text::contents(before).push(s@));
                }
            },
            None => {},
        }
        i += 1;
    }
    assert(text::texts(all@).len() == all@.len());
    out
}

/// What a temperature sensor measures.
#[derive(Clone, Copy, Debug, PartialEq, Eq, Structural)]
pub enum Sensor {
    /// The processor's package.
    Cpu,
    /// A thermal zone.
    Zone,
    Other,
}

/// What a sensor measures, by its name.
pub open spec fn sensor_of(name: Seq<char>) -> Sensor {
    let n = text::trimmed(name);
    if n == "k10temp"@ || n == "coretemp"@ || n == "zenpower"@ || n == "cpu_thermal"@ {
        Sensor::Cpu
    } else if n == "acpitz"@ {
        Sensor::Zone
    } else {
        Sensor::Other
    }
}

/// What a sensor measures.
pub fn sensor(name: &str) -> (s: Sensor)
    ensures
        s == sensor_of(name@),
{
    let n: Vec<char> = trim(to_chars(name).as_slice());
    if is_text(n.as_slice(), "k10temp") || is_text(n.as_slice(), "coretemp") || is_text(
        n.as_slice(),
        "zenpower",
    ) || is_text(n.as_slice(), "cpu_thermal") {
        Sensor::Cpu
    } else if is_text(n.as_slice(), "acpitz") {
        Sensor::Zone
    } else {
        Sensor::Other
    }
}

proof fn lemma_digits_plain(n: nat)
    ensures
        !text::decimal(n).contains('&'),
        !text::decimal(n).contains(','),
{
    text::lemma_decimal(n);
    let d = text::decimal(n);
    if d.contains('&') {
        let i = choose|i: int| 0 <= i < d.len() && d[i] == '&';
        assert(text::is_digit(d[i]));
    }
    if d.contains(',') {
        let i = choose|i: int| 0 <= i < d.len() && d[i] == ',';
        assert(text::is_digit(d[i]));
    }
}

/// The coordinator reads a worker's pull as it was meant.
pub proof fn pulls_are_understood(since: u64, me: Seq<char>)
    requires
        !me.contains('&'),
    ensures
        ({
            let (path, q) = http::parts_of(
                http::target_text("/deltas"@, deltas_pairs(since, me)),
            );
            http::routed(true, "GET"@, path, http::pairs_of(q)) == http::RouteView::Deltas {
                since,
                me,
            }
        }),
{
    reveal_strlit("/deltas");
    reveal_strlit("/job");
    reveal_strlit("/status");
    reveal_strlit("/net");
    reveal_strlit("since");
    reveal_strlit("me");
    let ps = deltas_pairs(since, me);
    lemma_digits_plain(since as nat);
    assert(http::plain(ps[0]) && http::plain(ps[1]));
    http::targets_read_back("/deltas"@, ps);
    reveal_with_fuel(http::value_among, 3);
    assert("/deltas"@.len() == 7 && "/job"@.len() == 4 && "/net"@.len() == 4);
    assert("/deltas"@[1] != "/status"@[1]);
    text::decimals_read_back(since);
}

/// The coordinator reads a worker's report as it was meant: whose it is, and what it counts.
pub proof fn reports_are_understood(me: Seq<char>, name: Seq<char>, c: Chunk, secs: Seq<char>)
    requires
        !me.contains('&'),
        !name.contains('&'),
        !secs.contains('&'),
    ensures
        ({
            let (path, q) = http::parts_of(
                http::target_text("/delta"@, delta_pairs(me, name, c, secs)),
            );
            let ps = http::pairs_of(q);
            &&& http::routed(true, "POST"@, path, ps) == http::RouteView::Delta { me, name }
            &&& http::value_of(ps, "secs"@) == Some(secs)
            &&& http::value_of(ps, "episodes"@) == Some(text::decimal(c.episodes as nat))
            &&& http::value_of(ps, "fresh"@) == Some(text::decimal(c.fresh as nat))
            &&& http::value_of(ps, "score"@) == Some(text::decimal(c.score as nat))
            &&& forall|k: int|
                0 <= k < 5 ==> chunk::count_at(
                    http::value_or_empty(ps, "reached"@),
                    k,
                ) == #[trigger] c.reached@[k]
            &&& chunk::count_at(http::value_or_empty(ps, "best"@), 0) == c.best
        }),
{
    reveal_strlit("/delta");
    reveal_strlit("/job");
    reveal_strlit("/beat");
    reveal_strlit("GET");
    reveal_strlit("POST");
    let ps = delta_pairs(me, name, c, secs);
    lemma_report_plain(me, name, c, secs);
    http::targets_read_back("/delta"@, ps);
    assert("GET"@.len() == 3 && "POST"@.len() == 4);
    assert("/delta"@.len() == 6 && "/job"@.len() == 4 && "/beat"@.len() == 5);
    lemma_report_values(me, name, c, secs);
    chunk::lemma_counts_back(c.reached@);
    lemma_digits_plain(c.best as nat);
    text::lemma_only_piece(text::decimal(c.best as nat), ',');
    text::decimals_read_back(c.best);
}

proof fn lemma_keys()
    ensures
        forall|p: (Seq<char>, Seq<char>)|
            #![trigger http::plain(p)]
            (p.0 == "me"@ || p.0 == "name"@ || p.0 == "secs"@ || p.0 == "episodes"@ || p.0
                == "fresh"@ || p.0 == "score"@ || p.0 == "reached"@ || p.0 == "best"@)
                && !p.1.contains('&') ==> http::plain(p),
{
    reveal_strlit("me");
    reveal_strlit("name");
    reveal_strlit("secs");
    reveal_strlit("episodes");
    reveal_strlit("fresh");
    reveal_strlit("score");
    reveal_strlit("reached");
    reveal_strlit("best");
}

proof fn lemma_report_plain(me: Seq<char>, name: Seq<char>, c: Chunk, secs: Seq<char>)
    requires
        !me.contains('&'),
        !name.contains('&'),
        !secs.contains('&'),
    ensures
        http::all_plain(delta_pairs(me, name, c, secs)),
{
    let ps = delta_pairs(me, name, c, secs);
    lemma_keys();
    lemma_digits_plain(c.episodes as nat);
    lemma_digits_plain(c.fresh as nat);
    lemma_digits_plain(c.score as nat);
    lemma_digits_plain(c.best as nat);
    chunk::lemma_counts_plain(c.reached@);
    assert forall|i: int| 0 <= i < ps.len() implies http::plain(#[trigger] ps[i]) by {
        assert(i == 0 || i == 1 || i == 2 || i == 3 || i == 4 || i == 5 || i == 6 || i == 7);
    }
}

proof fn lemma_report_values(me: Seq<char>, name: Seq<char>, c: Chunk, secs: Seq<char>)
    ensures
        ({
            let ps = delta_pairs(me, name, c, secs);
            &&& http::value_of(ps, "me"@) == Some(me)
            &&& http::value_of(ps, "name"@) == Some(name)
            &&& http::value_of(ps, "secs"@) == Some(secs)
            &&& http::value_of(ps, "episodes"@) == Some(text::decimal(c.episodes as nat))
            &&& http::value_of(ps, "fresh"@) == Some(text::decimal(c.fresh as nat))
            &&& http::value_of(ps, "score"@) == Some(text::decimal(c.score as nat))
            &&& http::value_of(ps, "reached"@) == Some(chunk::counts_text(c.reached@))
            &&& http::value_of(ps, "best"@) == Some(text::decimal(c.best as nat))
        }),
{
    reveal_strlit("me");
    reveal_strlit("name");
    reveal_strlit("secs");
    reveal_strlit("episodes");
    reveal_strlit("fresh");
    reveal_strlit("score");
    reveal_strlit("reached");
    reveal_strlit("best");
    let ps = delta_pairs(me, name, c, secs);
    assert("me"@[0] == 'm' && "name"@[0] == 'n' && "secs"@[0] == 's' && "episodes"@[0] == 'e');
    assert("fresh"@[0] == 'f' && "score"@[0] == 's' && "reached"@[0] == 'r' && "best"@[0] == 'b');
    assert("secs"@[1] == 'e' && "score"@[1] == 'c');
    assert(ps.len() == 8);
    assert(ps[0] == ("me"@, me) && ps[1] == ("name"@, name) && ps[2] == ("secs"@, secs));
    assert(ps[3].0 == "episodes"@ && ps[4].0 == "fresh"@ && ps[5].0 == "score"@);
    assert(ps[6].0 == "reached"@ && ps[7].0 == "best"@);
    assert forall|k: int, j: int| 0 <= k < j < 8 implies (#[trigger] ps[k]).0 != (
    #[trigger] ps[j]).0 by {
        assert(j == 1 || j == 2 || j == 3 || j == 4 || j == 5 || j == 6 || j == 7);
        assert(k == 0 || k == 1 || k == 2 || k == 3 || k == 4 || k == 5 || k == 6);
    }
    assert forall|k: int| 0 <= k < 8 implies http::value_of(ps, (#[trigger] ps[k]).0) == Some(
        ps[k].1,
    ) by {
        lemma_lookup(ps, k, 8);
    }
    assert(http::value_of(ps, ps[0].0) == Some(me));
    assert(http::value_of(ps, ps[1].0) == Some(name));
    assert(http::value_of(ps, ps[2].0) == Some(secs));
    assert(http::value_of(ps, ps[3].0) == Some(ps[3].1));
    assert(http::value_of(ps, ps[4].0) == Some(ps[4].1));
    assert(http::value_of(ps, ps[5].0) == Some(ps[5].1));
    assert(http::value_of(ps, ps[6].0) == Some(ps[6].1));
    assert(http::value_of(ps, ps[7].0) == Some(ps[7].1));
}

proof fn lemma_lookup(ps: Seq<(Seq<char>, Seq<char>)>, k: int, n: int)
    requires
        0 <= k < n <= ps.len(),
        forall|j: int| k < j < n ==> (#[trigger] ps[j]).0 != ps[k].0,
    ensures
        http::value_among(ps, ps[k].0, n) == Some(ps[k].1),
    decreases n,
{
    if n > k + 1 {
        assert(ps[n - 1].0 != ps[k].0);
        lemma_lookup(ps, k, n - 1);
    }
}

}
