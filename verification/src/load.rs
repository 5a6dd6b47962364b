//! The load of a worker's machine, as the pairs that its heartbeats carry.

use crate::http::Query;
use crate::worker::{cpu_growth, cpu_since};
use vstd::prelude::*;

verus! {

/// A pair, if there is a text for it.
pub open spec fn one_pair(key: Seq<char>, text: Option<Seq<char>>) -> Seq<(Seq<char>, Seq<char>)> {
    match text {
        Some(t) => seq![(key, t)],
        None => seq![],
    }
}

/// The pairs of a machine's load: how busy its processors are, its memory in use and in all,
/// the worker's own, and its temperature. What the system does not tell is left out.
pub open spec fn load_pairs(
    cpu: Option<Seq<char>>,
    ram: Option<(Seq<char>, Seq<char>)>,
    rss: Option<Seq<char>>,
    temp: Option<Seq<char>>,
) -> Seq<(Seq<char>, Seq<char>)> {
    one_pair("cpu"@, cpu) + (match ram {
        Some(r) => seq![("ram"@, r.0), ("ramtot"@, r.1)],
        None => seq![],
    }) + one_pair("rss"@, rss) + one_pair("temp"@, temp)
}

/// What a text holds, if there is one.
pub open spec fn held(s: Option<String>) -> Option<Seq<char>> {
    match s {
        Some(t) => Some(t@),
        None => None,
    }
}

/// What two texts hold, if there are any.
pub open spec fn both_held(s: Option<(String, String)>) -> Option<(Seq<char>, Seq<char>)> {
    match s {
        Some(t) => Some((t.0@, t.1@)),
        None => None,
    }
}

fn push_one(q: &mut Query, key: &str, text: &Option<String>)
    ensures
        final(q)@ == old(q)@ + one_pair(key@, held(*text)),
{
    if let Some(t) = text {
        q.push(key, t.as_str());
    }
    assert(q@ =~= old(q)@ + one_pair(key@, held(*text)));
}

/// Writes the pairs of a machine's load.
pub fn load_query(
    cpu: &Option<String>,
    ram: &Option<(String, String)>,
    rss: &Option<String>,
    temp: &Option<String>,
) -> (q: Query)
    ensures
        q@ == load_pairs(held(*cpu), both_held(*ram), held(*rss), held(*temp)),
{
    let mut q: Query = Query::new();
    push_one(&mut q, "cpu", cpu);
    assert(q@ =~= one_pair("cpu"@, held(*cpu)));
    let ghost before = q@;
    if let Some(r) = ram {
        q.push("ram", r.0.as_str());
        q.push("ramtot", r.1.as_str());
    }
    assert(q@ =~= before + (match both_held(*ram) {
        Some(r) => seq![("ram"@, r.0), ("ramtot"@, r.1)],
        None => seq![],
    }));
    push_one(&mut q, "rss", rss);
    push_one(&mut q, "temp", temp);
    q
}

/// What is kept from one sample to the next: all time and idle time of the processors.
pub struct Sampler {
    pub last: Option<(u64, u64)>,
}

/// `cpu` tells how busy the processors were since the last sample: `write` gives it from the
/// idle time and all time since, where there was such a sample and time has passed.
pub open spec fn is_busy<W: Fn(u64, u64) -> String>(
    write: W,
    last: Option<(u64, u64)>,
    now: Option<(u64, u64)>,
    cpu: Option<String>,
) -> bool {
    match now {
        Some(n) => match cpu_growth(last, n) {
            Some(d) => cpu matches Some(t) && call_ensures(write, (d.0, d.1), t),
            None => cpu is None,
        },
        None => cpu is None,
    }
}

/// The processors' times that the next sample is held against.
pub open spec fn latest(last: Option<(u64, u64)>, now: Option<(u64, u64)>) -> Option<(u64, u64)> {
    match now {
        Some(n) => Some(n),
        None => last,
    }
}

impl Sampler {
    /// Before the first sample.
    pub fn new() -> (s: Sampler)
        ensures
            s.last is None,
    {
        Sampler { last: None }
    }

    /// A sample: the processors' times now, if the system tells them, and what else is known.
    pub fn sample<W: Fn(u64, u64) -> String>(
        &mut self,
        now: Option<(u64, u64)>,
        ram: &Option<(String, String)>,
        rss: &Option<String>,
        temp: &Option<String>,
        write: W,
    ) -> (q: Query)
        requires
            forall|idle: u64, all: u64| call_requires(write, (idle, all)),
            old(self).last matches Some(l) ==> (now matches Some(n) ==> n.0 > l.0 ==> n.1 >= l.1),
        ensures
            final(self).last == latest(old(self).last, now),
            exists|cpu: Option<String>| #[trigger]
                is_busy(write, old(self).last, now, cpu) && q@ == load_pairs(
                    held(cpu),
                    both_held(*ram),
                    held(*rss),
                    held(*temp),
                ),
    {
        let mut cpu: Option<String> = None;
        if let Some(n) = now {
            if let Some((idle, all)) = cpu_since(self.last, n) {
                let t: String = write(idle, all);
                cpu = Some(t);
            }
            self.last = Some(n);
        }
        assert(is_busy(write, old(self).last, now, cpu));
        load_query(&cpu, ram, rss, temp)
    }
}

/// The order of a load's keys.
pub open spec fn place_of(key: Seq<char>) -> int {
    if key == "cpu"@ {
        0
    } else if key == "ram"@ {
        1
    } else if key == "ramtot"@ {
        2
    } else if key == "rss"@ {
        3
    } else if key == "temp"@ {
        4
    } else {
        5
    }
}

/// The key is among the pairs.
pub open spec fn has_key(ps: Seq<(Seq<char>, Seq<char>)>, key: Seq<char>) -> bool {
    exists|i: int| 0 <= i < ps.len() && (#[trigger] ps[i]).0 == key
}

/// A load's keys are distinct and come in the order cpu, ram, ramtot, rss, temp; each is there
/// if and only if the system told it, and the memory in use comes with the memory in all.
pub proof fn loads_come_in_order(
    cpu: Option<Seq<char>>,
    ram: Option<(Seq<char>, Seq<char>)>,
    rss: Option<Seq<char>>,
    temp: Option<Seq<char>>,
)
    ensures
        ({
            let ps = load_pairs(cpu, ram, rss, temp);
            &&& forall|i: int| 0 <= i < ps.len() ==> place_of((#[trigger] ps[i]).0) < 5
            &&& forall|i: int, j: int|
                0 <= i < j < ps.len() ==> place_of((#[trigger] ps[i]).0) < place_of(
                    (#[trigger] ps[j]).0,
                )
            &&& has_key(ps, "cpu"@) == (cpu is Some)
            &&& has_key(ps, "ram"@) == (ram is Some)
            &&& has_key(ps, "ramtot"@) == (ram is Some)
            &&& has_key(ps, "rss"@) == (rss is Some)
            &&& has_key(ps, "temp"@) == (temp is Some)
        }),
{
    reveal_strlit("cpu");
    reveal_strlit("ram");
    reveal_strlit("ramtot");
    reveal_strlit("rss");
    reveal_strlit("temp");
    assert("cpu"@[0] == 'c' && "ram"@[1] == 'a' && "rss"@[1] == 's' && "temp"@[0] == 't');
    assert("ram"@[0] == 'r' && "rss"@[0] == 'r' && "ramtot"@.len() == 6);
    let ps = load_pairs(cpu, ram, rss, temp);
    let a: int = if cpu is Some {
        1
    } else {
        0
    };
    let b: int = if ram is Some {
        2
    } else {
        0
    };
    let c: int = if rss is Some {
        1
    } else {
        0
    };
    if cpu is Some {
        assert(ps[0].0 == "cpu"@);
    }
    if ram is Some {
        assert(ps[a].0 == "ram"@);
        assert(ps[a + 1].0 == "ramtot"@);
    }
    if rss is Some {
        assert(ps[a + b].0 == "rss"@);
    }
    if temp is Some {
        assert(ps[a + b + c].0 == "temp"@);
    }
}

/// How busy the processors were is told unless it is the first sample, and then exactly when
/// their time has grown since the last sample that could be taken.
pub proof fn busy_is_told_when_time_passed<W: Fn(u64, u64) -> String>(
    write: W,
    last: Option<(u64, u64)>,
    now: Option<(u64, u64)>,
    cpu: Option<String>,
)
    requires
        is_busy(write, last, now, cpu),
    ensures
        cpu is Some <==> last is Some && now is Some && (now->0).0 > (last->0).0,
{
}

/// Processors that are never less busy in all than before have idled no longer than time has
/// passed: the idle time is a part of all time.
pub proof fn idle_time_is_a_part(last: (u64, u64), now: (u64, u64))
    requires
        last.0 < now.0,
        last.1 <= now.1,
        last.1 <= last.0,
        now.0 - now.1 >= last.0 - last.1,
    ensures
        cpu_growth(Some(last), now) matches Some(d) && d.0 <= d.1 && d.1 > 0,
{
}

}
