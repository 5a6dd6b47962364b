//! The coordinator: the master net, the log of its updates, and the machines that train it.

use crate::bundle;
use crate::chunk;
use crate::chunk::Chunk;
use crate::codec;
use crate::codec::encode;
use crate::deltas;
use crate::deltas::{DeltaLog, DeltaView, LogView};
use crate::http::Query;
use crate::ntuple;
use crate::ntuple::{NTuple, NTupleView};
use crate::select;
use crate::select::{can_scale, products, scaled};
use crate::shares::Rates;
use crate::text::{to_chars, to_text};
use crate::workers;
use crate::workers::{WorkerView, Workers};
use vstd::prelude::*;

verus! {

pub struct Coord {
    pub net: NTuple,
    pub log: DeltaLog,
    pub workers: Workers,
    pub job: String,
    /// Training games since the net was created.
    pub episodes: u64,
    /// The best score reported so far.
    pub best: u64,
}

/// The master takes `p`, what `scale` leaves of a delta's changes: rounded to what the wire
/// carries, each is added to the net, and all are logged as they were added.
pub open spec fn is_taken<P: Fn(u32, u32) -> u32>(
    plus: P,
    me: Seq<char>,
    p: Seq<(u32, u32)>,
    now: u64,
    from: (NTupleView, LogView),
    to: (NTupleView, LogView),
) -> bool {
    let seq = (from.1.seq + 1) as u64;
    &&& ntuple::is_added(plus, select::cleaned(p), from.0.w, to.0.w)
    &&& to.0.layout == from.0.layout
    &&& to.0.tc == from.0.tc
    &&& to.1 == (LogView {
        seq,
        entries: from.1.entries.push(
            DeltaView { seq, from: me, bytes: codec::encoded(select::cleaned(p)), at: now },
        ),
        ..from.1
    })
}

/// A delta is merged at `scale` as the next update, or not at all where a scaled change has no
/// bf16.
pub open spec fn is_merged<T: Fn(u32, u32) -> u32, P: Fn(u32, u32) -> u32>(
    times: T,
    plus: P,
    me: Seq<char>,
    delta: Seq<(u32, u32)>,
    scale: u32,
    now: u64,
    from: (NTupleView, LogView),
    to: (NTupleView, LogView),
    res: Option<u64>,
) -> bool {
    exists|p: Seq<(u32, u32)>| #[trigger]
        select::is_products(times, delta, scale, p) && match res {
            None => !codec::all_round(p) && to == from,
            Some(seq) => codec::all_round(p) && seq == from.1.seq + 1 && is_taken(
                plus,
                me,
                p,
                now,
                from,
                to,
            ),
        }
}

/// What became of a delta.
#[derive(Clone, Copy, Debug, PartialEq, Eq)]
pub enum Submitted {
    /// It is update `seq`, at this share.
    Merged { seq: u64, scale: u32 },
    /// No share can be told: the counts of a machine leave 64 bits.
    NoShare,
    /// A change has no bf16 at this share.
    NoChange { scale: u32 },
}

impl Coord {
    pub open spec fn wf(&self) -> bool {
        &&& self.net.wf()
        &&& self.log.wf()
        &&& self.workers.wf()
    }

    /// A coordinator that starts from a saved net, at update `seq`.
    pub fn new(net: NTuple, log: DeltaLog, job: String, episodes: u64) -> (c: Coord)
        requires
            net.wf(),
            log.wf(),
        ensures
            c.wf(),
            c.net == net,
            c.log == log,
            c.workers@ == Seq::<WorkerView>::empty(),
            c.job == job,
            c.episodes == episodes,
            c.best == 0,
    {
        Coord { net, log, workers: Workers::new(), job, episodes, best: 0 }
    }

    /// The report of a chunk can be counted.
    pub open spec fn can_record(self, name: Seq<char>, c: Chunk) -> bool {
        &&& self.episodes + c.episodes <= u64::MAX
        &&& workers::knows(self.workers@, name) ==> self.workers@[workers::place_of(
            self.workers@,
            name,
        )].total_episodes + c.episodes <= u64::MAX
    }

    /// Whether the report of a chunk can be counted.
    pub fn has_room_for(&self, name: &str, c: &Chunk) -> (yes: bool)
        ensures
            yes == self.can_record(name@, *c),
    {
        self.episodes <= u64::MAX - c.episodes && self.workers.episodes_of(name) <= u64::MAX
            - c.episodes
    }

    /// Counts the report of a chunk.
    pub fn record(&mut self, name: &str, c: Chunk, now: u64)
        requires
            old(self).wf(),
            old(self).can_record(name@, c),
        ensures
            final(self).wf(),
            final(self).episodes == old(self).episodes + c.episodes,
            final(self).best == chunk::greater(old(self).best, c.best),
            final(self).workers@ == workers::recorded(old(self).workers@, name@, c, now),
            final(self).net == old(self).net,
            final(self).log == old(self).log,
            final(self).job == old(self).job,
    {
        self.episodes = self.episodes + c.episodes;
        if self.best < c.best {
            self.best = c.best;
        }
        self.workers.report(name, c, now);
    }

    /// The log and the numbers have room for a delta of `n` entries.
    pub open spec fn can_merge(self, n: nat) -> bool {
        &&& self.log@.seq < u64::MAX
        &&& deltas::total_bytes(self.log@.entries) + 4 + 7 * n <= usize::MAX
    }

    /// Whether there is room for a delta of `n` entries.
    pub fn has_space_for(&self, n: usize) -> (yes: bool)
        requires
            self.wf(),
        ensures
            yes == self.can_merge(n as nat),
    {
        let held: usize = self.log.held_bytes();
        let free: usize = usize::MAX - held;
        self.log.seq() < u64::MAX && free >= 4 && n <= (free - 4) / 7
    }

    /// Merges a delta that `me` sent into the master, at the worker's share of it: each change
    /// is scaled, rounded to what the wire carries, added, and logged for the others as it was
    /// added. None if a scaled change has no bf16.
    pub fn merge<T: Fn(u32, u32) -> u32, P: Fn(u32, u32) -> u32>(
        &mut self,
        me: &str,
        delta: &Vec<(u32, u32)>,
        scale: u32,
        now: u64,
        times: T,
        plus: P,
    ) -> (res: Option<u64>)
        requires
            old(self).wf(),
            codec::in_order(delta@),
            old(self).can_merge(delta@.len()),
            forall|x: u32, y: u32| call_requires(times, (x, y)),
            forall|x: u32, y: u32| call_requires(plus, (x, y)),
        ensures
            final(self).wf(),
            final(self).workers == old(self).workers,
            final(self).job == old(self).job,
            final(self).episodes == old(self).episodes,
            final(self).best == old(self).best,
            is_merged(
                times,
                plus,
                me@,
                delta@,
                scale,
                now,
                (old(self).net@, old(self).log@),
                (final(self).net@, final(self).log@),
                res,
            ),
            res is None ==> *final(self) == *old(self),
    {
        let p: Vec<(u32, u32)> = products(delta.as_slice(), scale, times);
        if !can_scale(&p) {
            return None;
        }
        let taken: Vec<(u32, u32)> = scaled(&p);
        proof {
            assert forall|i: int, j: int| 0 <= i <= j < p@.len() implies p@[i].0 <= p@[j].0 by {
                assert(delta@[i].0 <= delta@[j].0);
            }
            select::lemma_cleaned(p@);
            codec::deltas_stay_small(taken@);
        }
        self.net.apply(taken.as_slice(), plus);
        let bytes: Vec<u8> = encode(taken.as_slice());
        let from: String = to_text(to_chars(me).as_slice());
        Some(self.log.push(from, bytes, now))
    }

    /// Takes in a worker's delta and the report that comes with it. Workers all learn the common
    /// positions at once, so summing their changes would move those weights several times
    /// over: each delta is merged at its worker's share of the games instead, the new ones
    /// among them.
    pub fn submit<A, D, O, N, T, P>(
        &mut self,
        me: &str,
        name: &str,
        delta: &Vec<(u32, u32)>,
        c: Chunk,
        now: u64,
        rates: &Rates<A, D, O, N>,
        times: T,
        plus: P,
    ) -> (res: Submitted) where
        A: Fn(u64, u64) -> u64,
        D: Fn(u64, u64) -> u64,
        O: Fn(u64, u64) -> u64,
        N: Fn(u64) -> u32,
        T: Fn(u32, u32) -> u32,
        P: Fn(u32, u32) -> u32,

        requires
            old(self).wf(),
            old(self).can_record(name@, c),
            codec::in_order(delta@),
            old(self).can_merge(delta@.len()),
            rates.total(),
            forall|x: u32, y: u32| call_requires(times, (x, y)),
            forall|x: u32, y: u32| call_requires(plus, (x, y)),
        ensures
            final(self).wf(),
            final(self).episodes == old(self).episodes + c.episodes,
            final(self).best == chunk::greater(old(self).best, c.best),
            final(self).workers@ == workers::recorded(old(self).workers@, name@, c, now),
            final(self).job == old(self).job,
            match res {
                Submitted::Merged { seq, scale } => rates.is_share(
                    final(self).workers@,
                    name@,
                    now,
                    scale,
                ) && is_merged(
                    times,
                    plus,
                    me@,
                    delta@,
                    scale,
                    now,
                    (old(self).net@, old(self).log@),
                    (final(self).net@, final(self).log@),
                    Some(seq),
                ),
                Submitted::NoShare => {
                    &&& exists|i: int|
                        0 <= i < final(self).workers@.len() && !workers::sums_fit(
                            (#[trigger] final(self).workers@[i]).recent,
                            final(self).workers@[i].recent.len() as int,
                        )
                    &&& final(self).net == old(self).net
                    &&& final(self).log == old(self).log
                },
                Submitted::NoChange { scale } => {
                    &&& rates.is_share(final(self).workers@, name@, now, scale)
                    &&& is_merged(
                        times,
                        plus,
                        me@,
                        delta@,
                        scale,
                        now,
                        (old(self).net@, old(self).log@),
                        (final(self).net@, final(self).log@),
                        None,
                    )
                    &&& final(self).net == old(self).net
                    &&& final(self).log == old(self).log
                },
            },
    {
        self.record(name, c, now);
        match rates.share(&self.workers, name, now) {
            None => Submitted::NoShare,
            Some(scale) => match self.merge(me, delta, scale, now, times, plus) {
                Some(seq) => Submitted::Merged { seq, scale },
                None => Submitted::NoChange { scale },
            },
        }
    }

    /// Notes a heartbeat.
    pub fn beat(&mut self, name: &str, q: Query, now: u64)
        requires
            old(self).wf(),
        ensures
            final(self).wf(),
            ({
                let (ws, k) = (
                    workers::entered(old(self).workers@, name@, now),
                    workers::place_of(old(self).workers@, name@),
                );
                final(self).workers@ == ws.update(
                    k,
                    WorkerView { beat: Some((now, q@)), ..ws[k] },
                )
            }),
            final(self).net == old(self).net,
            final(self).log == old(self).log,
            final(self).job == old(self).job,
            final(self).episodes == old(self).episodes,
            final(self).best == old(self).best,
    {
        self.workers.beat(name, q, now);
    }
}

/// Every machine keeps learning on the master's net: what another worker reads from the log is
/// exactly what was added to the master.
pub proof fn workers_get_what_the_master_added(delta: Seq<(u32, u32)>, p: Seq<(u32, u32)>)
    requires
        codec::in_order(delta),
        p.len() == delta.len(),
        p.len() <= u32::MAX,
        forall|k: int| 0 <= k < p.len() ==> (#[trigger] p[k]).0 == delta[k].0,
        codec::all_round(p),
    ensures
        codec::decoded(codec::encoded(select::cleaned(p))) == Some(select::cleaned(p)),
{
    assert forall|i: int, j: int| 0 <= i <= j < p.len() implies p[i].0 <= p[j].0 by {
        assert(delta[i].0 <= delta[j].0);
    }
    select::cleaned_deltas_arrive_exactly(p);
}

/// A worker that pulls gets, in order, every update after its own that others made, as the
/// deltas that the master added, and the master's number.
pub proof fn pulls_deliver_every_update(
    l: LogView,
    since: u64,
    me: Seq<char>,
    sent: Seq<Seq<(u32, u32)>>,
)
    requires
        l.valid(),
        l.reaches(since),
        l.entries.len() <= u32::MAX,
        deltas::picked(l.entries, since, me, l.entries.len() as int) == bundle::frames_of(sent),
        forall|i: int|
            0 <= i < sent.len() ==> bundle::sendable(#[trigger] sent[i]) && codec::received(sent[i])
                == sent[i],
    ensures
        bundle::pulled(l.answer(since, me)) == (sent, bundle::End::Complete(l.seq)),
{
    deltas::lemma_picked_len(l.entries, since, me, l.entries.len() as int);
    assert(bundle::frames_of(sent).len() == sent.len());
    bundle::bundling_then_reading_gives_every_delta(l.seq, sent);
    assert(sent.map_values(|d: Seq<(u32, u32)>| codec::received(d)) =~= sent);
}

/// An operation gives each pair of numbers one result.
pub open spec fn is_definite<F: Fn(u32, u32) -> u32>(f: F) -> bool {
    forall|x: u32, y: u32, a: u32, b: u32|
        #![trigger call_ensures(f, (x, y), a), call_ensures(f, (x, y), b)]
        call_ensures(f, (x, y), a) && call_ensures(f, (x, y), b) ==> a == b
}

proof fn lemma_added_once<P: Fn(u32, u32) -> u32>(
    plus: P,
    delta: Seq<(u32, u32)>,
    one: Seq<Seq<u32>>,
    two: Seq<Seq<u32>>,
    k: int,
)
    requires
        is_definite(plus),
        ntuple::added_all(plus, delta, one),
        ntuple::added_all(plus, delta, two),
        one.first() == two.first(),
        0 <= k <= delta.len(),
    ensures
        one[k] == two[k],
    decreases k,
{
    if k > 0 {
        lemma_added_once(plus, delta, one, two, k - 1);
        let e = delta[k - 1];
        assert(ntuple::added_one(plus, e, one[k - 1], one[k]));
        assert(ntuple::added_one(plus, e, two[k - 1], two[k]));
    }
}

/// Both ends agree exactly: a worker that scales what it sent by the share it is told, and adds
/// that to its picture of the master, has the weights that the master now has.
pub proof fn workers_follow_the_master<T: Fn(u32, u32) -> u32, P: Fn(u32, u32) -> u32>(
    times: T,
    plus: P,
    sent: Seq<(u32, u32)>,
    scale: u32,
    master: Seq<(u32, u32)>,
    worker: Seq<(u32, u32)>,
    before: Seq<u32>,
    net: Seq<u32>,
    mirror: Seq<u32>,
)
    requires
        is_definite(times),
        is_definite(plus),
        select::is_products(times, sent, scale, master),
        select::is_products(times, sent, scale, worker),
        ntuple::is_added(plus, select::cleaned(master), before, net),
        ntuple::is_added(plus, select::cleaned(worker), before, mirror),
    ensures
        worker == master,
        mirror == net,
{
    assert forall|k: int| 0 <= k < sent.len() implies master[k] == worker[k] by {
        assert(master[k].0 == worker[k].0);
        assert(master[k].1 == worker[k].1);
    }
    assert(master =~= worker);
    let d = select::cleaned(master);
    let one = choose|hist: Seq<Seq<u32>>| #[trigger]
        ntuple::added_all(plus, d, hist) && hist.first() == before && hist.last() == net;
    let two = choose|hist: Seq<Seq<u32>>| #[trigger]
        ntuple::added_all(plus, d, hist) && hist.first() == before && hist.last() == mirror;
    lemma_added_once(plus, d, one, two, d.len() as int);
}

}
