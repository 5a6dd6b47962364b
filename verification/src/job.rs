//! The job: `key=value` lines that the coordinator hands to every worker, and what a worker
//! does by them.

use crate::floats;
use crate::floats::greater64;
use crate::text;
use crate::text::{push_text, split_lines, strip_prefix, to_chars, to_text, trim};
use vstd::prelude::*;

verus! {

/// The job of a coordinator that has none yet.
pub const DEFAULT_JOB: &'static str = "alpha=0.0015625\nrestart=0\nsecs=120\nsend_mb=40\ntc=0\npause=0\n";

/// The value that a line gives to `key`, if it does.
pub open spec fn value_in(line: Seq<char>, key: Seq<char>) -> Option<Seq<char>> {
    match text::after_prefix(line, key) {
        Some(rest) if rest.len() > 0 && rest[0] == '=' => Some(text::trimmed(rest.skip(1))),
        _ => None,
    }
}

/// The values that the first `n` lines give to `key`, in order.
pub open spec fn values_in(lines: Seq<Seq<char>>, key: Seq<char>, n: int) -> Seq<Seq<char>>
    decreases n,
{
    if n <= 0 {
        seq![]
    } else {
        match value_in(lines[n - 1], key) {
            Some(v) => values_in(lines, key, n - 1).push(v),
            None => values_in(lines, key, n - 1),
        }
    }
}

/// The values that a job gives to `key`, in order.
pub open spec fn values_of(job: Seq<char>, key: Seq<char>) -> Seq<Seq<char>> {
    values_in(text::lines(job), key, text::lines(job).len() as int)
}

fn line_value(line: &[char], key: &[char]) -> (v: Option<Vec<char>>)
    ensures
        match value_in(line@, key@) {
            Some(t) => v matches Some(c) && c@ == t,
            None => v is None,
        },
{
    match strip_prefix(line, key) {
        None => None,
        Some(rest) => {
            let eq: Vec<char> = to_chars("=");
            proof {
                reveal_strlit("=");
            }
            match strip_prefix(rest.as_slice(), eq.as_slice()) {
                None => {
                    proof {
                        if rest@.len() > 0 && rest@[0] == '=' {
                            assert(rest@.take(1) =~= eq@);
                        }
                    }
                    None
                },
                Some(t) => {
                    assert(rest@.take(1)[0] == eq@[0]);
                    Some(trim(t.as_slice()))
                },
            }
        },
    }
}

/// The values that a job gives to `key`, in order.
pub fn job_values(job: &str, key: &str) -> (out: Vec<String>)
    ensures
        text::contents(out@) == values_of(job@, key@),
{
    let chars: Vec<char> = to_chars(job);
    let k: Vec<char> = to_chars(key);
    let all: Vec<Vec<char>> = split_lines(chars.as_slice());
    let mut out: Vec<String> = Vec::new();
    let mut i: usize = 0;
    assert(text::contents(out@) =~= seq![]);
    while i < all.len()
        invariant
            i <= all@.len(),
            text::texts(all@) == text::lines(job@),
            k@ == key@,
            text::contents(out@) == values_in(text::lines(job@), key@, i as int),
        decreases all@.len() - i,
    {
        assert(text::texts(all@)[i as int] == all@[i as int]@);
        match line_value(all[i].as_slice(), k.as_slice()) {
            Some(v) => {
                let s: String = to_text(v.as_slice());
                let ghost before = out@;
                out.push(s);
                assert(text::contents(out@) =~= text::contents(before).push(s@));
            },
            None => {},
        }
        i += 1;
    }
    assert(text::texts(all@).len() == all@.len());
    out
}

/// The first value that a job gives to `key`.
pub fn job_text(job: &str, key: &str) -> (v: Option<String>)
    ensures
        match v {
            Some(s) => values_of(job@, key@).len() > 0 && s@ == values_of(job@, key@)[0],
            None => values_of(job@, key@).len() == 0,
        },
{
    let all: Vec<String> = job_values(job, key);
    assert(text::contents(all@).len() == all@.len());
    if all.len() == 0 {
        None
    } else {
        assert(text::contents(all@)[0] == all@[0]@);
        Some(all[0].clone())
    }
}

/// `parse` read `t` as `r`.
pub open spec fn read_as<P: Fn(&str) -> Option<u64>>(parse: P, t: Seq<char>, r: Option<u64>) -> bool {
    exists|s: &str| s@ == t && #[trigger] call_ensures(parse, (s,), r)
}

/// `r` is what `parse` made of the first text that it can read.
pub open spec fn first_read<P: Fn(&str) -> Option<u64>>(
    parse: P,
    ts: Seq<Seq<char>>,
    r: Option<u64>,
) -> bool {
    match r {
        Some(x) => exists|k: int|
            #![trigger ts[k]]
            0 <= k < ts.len() && read_as(parse, ts[k], Some(x)) && forall|j: int|
                0 <= j < k ==> read_as(parse, #[trigger] ts[j], None),
        None => forall|j: int| 0 <= j < ts.len() ==> read_as(parse, #[trigger] ts[j], None),
    }
}

/// The first of the texts that `parse` can read.
pub fn first_parsed<P: Fn(&str) -> Option<u64>>(ts: &Vec<String>, parse: P) -> (r: Option<u64>)
    requires
        forall|s: &str| call_requires(parse, (s,)),
    ensures
        first_read(parse, text::contents(ts@), r),
{
    let mut i: usize = 0;
    let ghost all = text::contents(ts@);
    while i < ts.len()
        invariant
            forall|s: &str| call_requires(parse, (s,)),
            i <= ts@.len(),
            all == text::contents(ts@),
            forall|j: int| 0 <= j < i ==> read_as(parse, #[trigger] all[j], None),
        decreases ts@.len() - i,
    {
        assert(all[i as int] == ts@[i as int]@);
        let s: &str = ts[i].as_str();
        let r: Option<u64> = parse(s);
        assert(read_as(parse, all[i as int], r));
        if r.is_some() {
            return r;
        }
        i += 1;
    }
    None
}

/// The first value of `key` that `parse` can read: settings are 64-bit floats, as their bits.
pub fn job_value<P: Fn(&str) -> Option<u64>>(job: &str, key: &str, parse: P) -> (r: Option<u64>)
    requires
        forall|s: &str| call_requires(parse, (s,)),
    ensures
        first_read(parse, values_of(job@, key@), r),
{
    let all: Vec<String> = job_values(job, key);
    first_parsed(&all, parse)
}

/// This build's number. Workers older than the job's `version=` restart into the new build on
/// their own.
pub const BUILD: u32 = 3;

/// The bits of the build's number as a 64-bit float.
pub const BUILD_BITS: u64 = 0x4008_0000_0000_0000;

/// What a worker does next.
#[derive(Clone, Copy, Debug, PartialEq, Eq, Structural)]
pub enum Action {
    /// Finish the last sync and restart into the new build.
    Update,
    /// Finish the last sync and exit.
    Stop,
    /// Wait and ask again.
    Pause,
    /// Download the master net and catch up.
    Download,
    /// Train one chunk.
    Train,
}

/// A setting is on: greater than zero, and zero where it is not set.
pub open spec fn is_on(v: Option<u64>) -> bool {
    v matches Some(x) && floats::above64(x, 0)
}

/// What a worker does by the job's `version`, `stop.NAME` and `pause`.
pub open spec fn action_by(
    version: Option<u64>,
    stop: Option<u64>,
    pause: Option<u64>,
    has_net: bool,
) -> Action {
    if version matches Some(x) && floats::above64(x, BUILD_BITS) {
        Action::Update
    } else if is_on(stop) {
        Action::Stop
    } else if is_on(pause) {
        Action::Pause
    } else if !has_net {
        Action::Download
    } else {
        Action::Train
    }
}

/// Whether a setting is on.
pub fn on(v: Option<u64>) -> (yes: bool)
    ensures
        yes == is_on(v),
{
    match v {
        Some(x) => greater64(x, 0),
        None => false,
    }
}

/// What a worker does next.
pub fn next_action(
    version: Option<u64>,
    stop: Option<u64>,
    pause: Option<u64>,
    has_net: bool,
) -> (a: Action)
    ensures
        a == action_by(version, stop, pause, has_net),
{
    let newer: bool = match version {
        Some(x) => greater64(x, BUILD_BITS),
        None => false,
    };
    if newer {
        Action::Update
    } else if on(stop) {
        Action::Stop
    } else if on(pause) {
        Action::Pause
    } else if !has_net {
        Action::Download
    } else {
        Action::Train
    }
}

/// The threads a worker uses: under a cap from the job at least one and at most its own, else
/// its own.
pub fn thread_count(threads: usize, cap: Option<usize>) -> (n: usize)
    requires
        cap is Some ==> threads >= 1,
    ensures
        n == match cap {
            None => threads,
            Some(c) => if c < 1 {
                1
            } else if c > threads {
                threads
            } else {
                c
            },
        },
        cap is Some ==> 1 <= n <= threads,
{
    match cap {
        None => threads,
        Some(c) => if c < 1 {
            1
        } else if c > threads {
            threads
        } else {
            c
        },
    }
}

/// The key of a machine's own setting.
pub fn own_key(setting: &str, name: &str) -> (key: String)
    ensures
        key@ == setting@ + seq!['.'] + name@,
{
    let mut key: String = String::new();
    push_text(&mut key, setting);
    key.push('.');
    push_text(&mut key, name);
    assert(key@ =~= setting@ + seq!['.'] + name@);
    key
}

/// Where training stands in the OTD recipe: how often alpha was cut to a tenth, and whether
/// TC learning is on.
#[derive(Clone, Copy, Debug, PartialEq, Eq, Structural)]
pub struct Phase {
    pub cuts: u32,
    pub tc: bool,
}

/// The OTD recipe over `goal` games: alpha is cut at half and at three quarters, and TC
/// learning takes the last tenth.
pub open spec fn phase_at(games: nat, goal: nat) -> Phase {
    Phase {
        cuts: if 4 * games >= 3 * goal {
            2
        } else if 2 * games >= goal {
            1
        } else {
            0
        },
        tc: 10 * games >= 9 * goal,
    }
}

/// The phase after `games` games.
pub fn otd_phase(games: u64, goal: u64) -> (p: Phase)
    ensures
        p == phase_at(games as nat, goal as nat),
{
    let (n, g): (u128, u128) = (games as u128, goal as u128);
    let cuts: u32 = if 4 * n >= 3 * g {
        2
    } else if 2 * n >= g {
        1
    } else {
        0
    };
    Phase { cuts, tc: 10 * n >= 9 * g }
}

/// Alpha only ever falls, TC learning stays on, and it starts after the last cut.
pub proof fn the_recipe_only_advances(a: nat, b: nat, goal: nat)
    requires
        a <= b,
    ensures
        phase_at(a, goal).cuts <= phase_at(b, goal).cuts,
        phase_at(a, goal).tc ==> phase_at(b, goal).tc,
        phase_at(a, goal).tc ==> phase_at(a, goal).cuts == 2,
{
}

/// The job asks for the recipe.
pub open spec fn asks_for_otd(job: Seq<char>) -> bool {
    values_of(job, "schedule"@).len() > 0 && values_of(job, "schedule"@)[0] == "otd"@
}

/// Whether the job asks for the recipe.
pub fn follows_otd(job: &str) -> (yes: bool)
    ensures
        yes == asks_for_otd(job@),
{
    match job_text(job, "schedule") {
        None => false,
        Some(v) => {
            let c: Vec<char> = to_chars(v.as_str());
            text::is_text(c.as_slice(), "otd")
        },
    }
}

/// A job under the recipe: its alpha and its TC switch come first, so they win over the job's
/// own.
pub open spec fn scheduled(job: Seq<char>, alpha: Seq<char>, tc: bool) -> Seq<char> {
    "alpha="@ + alpha + "\ntc="@ + (if tc {
        "1\n"@
    } else {
        "0\n"@
    }) + job
}

/// Writes a job under the recipe.
pub fn schedule_job(job: &str, alpha: &str, tc: bool) -> (s: String)
    ensures
        s@ == scheduled(job@, alpha@, tc),
{
    let mut s: String = String::new();
    push_text(&mut s, "alpha=");
    push_text(&mut s, alpha);
    push_text(&mut s, "\ntc=");
    if tc {
        push_text(&mut s, "1\n");
    } else {
        push_text(&mut s, "0\n");
    }
    push_text(&mut s, job);
    assert(s@ =~= scheduled(job@, alpha@, tc));
    s
}

/// The job as workers get it after `games` of `goal` games: with the recipe's settings where it
/// asks for them. `alpha` writes the learning rate after so many cuts.
pub fn current_job<W: Fn(u32) -> String>(job: &str, games: u64, goal: u64, alpha: W) -> (s: String)
    requires
        forall|cuts: u32| call_requires(alpha, (cuts,)),
    ensures
        !asks_for_otd(job@) ==> s@ == job@,
        asks_for_otd(job@) ==> exists|rate: String| #[trigger]
            call_ensures(alpha, (phase_at(games as nat, goal as nat).cuts,), rate) && s@
                == scheduled(job@, rate@, phase_at(games as nat, goal as nat).tc),
{
    if !follows_otd(job) {
        return text::to_text(to_chars(job).as_slice());
    }
    let phase: Phase = otd_phase(games, goal);
    let rate: String = alpha(phase.cuts);
    schedule_job(job, rate.as_str(), phase.tc)
}

proof fn lemma_first_value(lines: Seq<Seq<char>>, key: Seq<char>, k: int, n: int)
    requires
        0 <= k < n <= lines.len(),
        forall|i: int| 0 <= i < k ==> value_in(#[trigger] lines[i], key) is None,
        value_in(lines[k], key) is Some,
    ensures
        values_in(lines, key, k).len() == 0,
        values_in(lines, key, n).len() > 0,
        values_in(lines, key, n)[0] == value_in(lines[k], key)->0,
    decreases n,
{
    if n == k + 1 {
        lemma_no_value(lines, key, k);
    } else {
        lemma_first_value(lines, key, k, n - 1);
    }
}

proof fn lemma_no_value(lines: Seq<Seq<char>>, key: Seq<char>, n: int)
    requires
        0 <= n <= lines.len(),
        forall|i: int| 0 <= i < n ==> value_in(#[trigger] lines[i], key) is None,
    ensures
        values_in(lines, key, n).len() == 0,
    decreases n,
{
    if n > 0 {
        lemma_no_value(lines, key, n - 1);
    }
}

/// Under the recipe a worker reads the recipe's alpha and TC switch, whatever the job says.
pub proof fn scheduled_settings_win(job: Seq<char>, alpha: Seq<char>, tc: bool)
    requires
        !alpha.contains('\n'),
        !alpha.contains('\r'),
    ensures
        values_of(scheduled(job, alpha, tc), "alpha"@).len() > 0,
        values_of(scheduled(job, alpha, tc), "alpha"@)[0] == text::trimmed(alpha),
        values_of(scheduled(job, alpha, tc), "tc"@).len() > 0,
        values_of(scheduled(job, alpha, tc), "tc"@)[0] == (if tc {
            seq!['1']
        } else {
            seq!['0']
        }),
{
    reveal_strlit("alpha=");
    reveal_strlit("alpha");
    reveal_strlit("\ntc=");
    reveal_strlit("tc");
    reveal_strlit("1\n");
    reveal_strlit("0\n");
    let flag = if tc {
        seq!['1']
    } else {
        seq!['0']
    };
    let s = scheduled(job, alpha, tc);
    let first = "alpha="@ + alpha;
    let second = seq!['t', 'c', '='] + flag;
    let rest = second + seq!['\n'] + job;
    assert(s =~= first + seq!['\n'] + rest);
    assert(!first.contains('\n')) by {
        if first.contains('\n') {
            let i = choose|i: int| 0 <= i < first.len() && first[i] == '\n';
            assert(i >= 6);
            assert(alpha.contains(alpha[i - 6]));
        }
    }
    assert(!second.contains('\n'));
    text::lemma_first_line(first, rest);
    text::lemma_first_line(second, job);
    let ls = text::lines(s);
    assert(text::without_return(first) == first) by {
        if first.len() > 6 {
            assert(alpha.contains(alpha[alpha.len() - 1]));
            assert(first.last() == alpha[alpha.len() - 1]);
        }
    }
    assert(ls[0] == first);
    assert(ls[1] == second);
    assert(first.take(5) =~= "alpha"@);
    assert(first.skip(5).skip(1) =~= alpha);
    assert(value_in(first, "alpha"@) == Some(text::trimmed(alpha)));
    lemma_first_value(ls, "alpha"@, 0, ls.len() as int);
    assert(first.take(2)[0] == 'a' && "tc"@[0] == 't');
    assert(value_in(first, "tc"@) is None);
    assert(second.take(2) =~= "tc"@);
    assert(second.skip(2).skip(1) =~= flag);
    assert(text::trimmed(flag) == flag) by {
        assert(text::past_white(flag, 0) == 0);
        assert(flag.skip(0) =~= flag);
    }
    lemma_first_value(ls, "tc"@, 1, ls.len() as int);
}

}
