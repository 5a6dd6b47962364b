//! What the coordinator knows of the machines that train, by name. Times are nanoseconds since
//! some start.

use crate::chunk;
use crate::chunk::Chunk;
use crate::deltas;
use crate::http::Query;
use crate::text;
use crate::text::{comes_before, is_text, to_chars, to_text};
use std::collections::VecDeque;
use vstd::prelude::*;

verus! {

/// Chunk reports per worker that the status page averages over.
pub const RECENT: usize = 20;

/// A worker that sent a delta within ten minutes is live.
pub const LIVE_FOR: u64 = 600_000_000_000;

/// One machine.
pub struct Worker {
    pub name: String,
    pub last_seen: u64,
    pub recent: VecDeque<Chunk>,
    pub total_episodes: u64,
    /// The latest heartbeat: what the worker is doing plus its machine's load.
    pub beat: Option<(u64, Query)>,
}

/// One machine in plain values.
#[verifier::ext_equal]
pub struct WorkerView {
    pub name: Seq<char>,
    pub last_seen: u64,
    pub recent: Seq<Chunk>,
    pub total_episodes: u64,
    pub beat: Option<(u64, Seq<(Seq<char>, Seq<char>)>)>,
}

impl View for Worker {
    type V = WorkerView;

    open spec fn view(&self) -> WorkerView {
        WorkerView {
            name: self.name@,
            last_seen: self.last_seen,
            recent: self.recent@,
            total_episodes: self.total_episodes,
            beat: match self.beat {
                Some((at, q)) => Some((at, q@)),
                None => None,
            },
        }
    }
}

/// A machine seen for the first time.
pub open spec fn newcomer(name: Seq<char>, now: u64) -> WorkerView {
    WorkerView { name, last_seen: now, recent: seq![], total_episodes: 0, beat: None }
}

/// Where `name` stands, or would stand, among the first `n` machines: before the first name
/// that does not come before it.
pub open spec fn place_among(ws: Seq<WorkerView>, name: Seq<char>, n: int) -> int
    decreases n,
{
    if n <= 0 || text::precedes(ws[n - 1].name, name) {
        n
    } else {
        place_among(ws, name, n - 1)
    }
}

/// Where `name` stands, or would stand.
pub open spec fn place_of(ws: Seq<WorkerView>, name: Seq<char>) -> int {
    place_among(ws, name, ws.len() as int)
}

/// The machine is known.
pub open spec fn knows(ws: Seq<WorkerView>, name: Seq<char>) -> bool {
    place_of(ws, name) < ws.len() && ws[place_of(ws, name)].name == name
}

/// The machines with `name` among them.
pub open spec fn entered(ws: Seq<WorkerView>, name: Seq<char>, now: u64) -> Seq<WorkerView> {
    if knows(ws, name) {
        ws
    } else {
        ws.insert(place_of(ws, name), newcomer(name, now))
    }
}

/// Names come in order, each once.
pub open spec fn by_name(ws: Seq<WorkerView>) -> bool {
    forall|i: int, j: int|
        0 <= i < j < ws.len() ==> text::precedes(#[trigger] ws[i].name, #[trigger] ws[j].name)
}

/// The last `RECENT` reports.
pub open spec fn reported(recent: Seq<Chunk>, c: Chunk) -> Seq<Chunk> {
    if recent.len() + 1 > RECENT {
        recent.push(c).skip(1)
    } else {
        recent.push(c)
    }
}

/// The machines after the report that comes with a delta.
pub open spec fn recorded(
    known: Seq<WorkerView>,
    name: Seq<char>,
    c: Chunk,
    now: u64,
) -> Seq<WorkerView> {
    let (ws, k) = (entered(known, name, now), place_of(known, name));
    ws.update(
        k,
        WorkerView {
            last_seen: now,
            recent: reported(ws[k].recent, c),
            total_episodes: (ws[k].total_episodes + c.episodes) as u64,
            ..ws[k]
        },
    )
}

proof fn lemma_place(ws: Seq<WorkerView>, name: Seq<char>, n: int)
    requires
        by_name(ws),
        0 <= n <= ws.len(),
        forall|i: int| n <= i < ws.len() ==> !text::precedes((#[trigger] ws[i]).name, name),
    ensures
        0 <= place_among(ws, name, n) <= n,
        forall|i: int|
            0 <= i < place_among(ws, name, n) ==> text::precedes((#[trigger] ws[i]).name, name),
        forall|i: int|
            place_among(ws, name, n) <= i < ws.len() ==> !text::precedes(
                (#[trigger] ws[i]).name,
                name,
            ),
    decreases n,
{
    if n > 0 {
        if text::precedes(ws[n - 1].name, name) {
            assert forall|i: int| 0 <= i < n implies text::precedes(
                (#[trigger] ws[i]).name,
                name,
            ) by {
                if i < n - 1 {
                    text::lemma_precedes_transitive(ws[i].name, ws[n - 1].name, name);
                }
            }
        } else {
            lemma_place(ws, name, n - 1);
        }
    }
}

/// A name is known exactly if a machine has it.
pub proof fn known_names_are_listed(ws: Seq<WorkerView>, name: Seq<char>)
    requires
        by_name(ws),
    ensures
        knows(ws, name) <==> exists|i: int| 0 <= i < ws.len() && (#[trigger] ws[i]).name == name,
{
    lemma_place(ws, name, ws.len() as int);
    if exists|i: int| 0 <= i < ws.len() && (#[trigger] ws[i]).name == name {
        let i = choose|i: int| 0 <= i < ws.len() && (#[trigger] ws[i]).name == name;
        let p = place_of(ws, name);
        text::lemma_precedes_total(name, name);
        assert(p <= i);
        if p < i {
            assert(text::precedes(ws[p].name, ws[i].name));
        }
    }
}

/// Entering a name keeps the order, and the machine that has it stands at its place.
pub proof fn entering_keeps_the_order(ws: Seq<WorkerView>, name: Seq<char>, now: u64)
    requires
        by_name(ws),
    ensures
        by_name(entered(ws, name, now)),
        place_of(ws, name) <= ws.len(),
        0 <= place_of(ws, name) < entered(ws, name, now).len(),
        entered(ws, name, now)[place_of(ws, name)].name == name,
{
    lemma_place(ws, name, ws.len() as int);
    if !knows(ws, name) {
        let p = place_of(ws, name);
        let all = entered(ws, name, now);
        assert forall|i: int, j: int| 0 <= i < j < all.len() implies text::precedes(
            #[trigger] all[i].name,
            #[trigger] all[j].name,
        ) by {
            if i < p && j > p {
                assert(all[i] == ws[i] && all[j] == ws[j - 1]);
            } else if i < p && j < p {
                assert(all[i] == ws[i] && all[j] == ws[j]);
            } else if i > p {
                assert(all[i] == ws[i - 1] && all[j] == ws[j - 1]);
            } else if j == p {
                assert(all[i] == ws[i]);
            } else {
                let other = ws[j - 1].name;
                assert(all[j] == ws[j - 1]);
                text::lemma_precedes_total(name, other);
                known_names_are_listed(ws, name);
                assert(other != name);
            }
        }
    }
}

pub struct Workers {
    list: Vec<Worker>,
}

impl View for Workers {
    type V = Seq<WorkerView>;

    closed spec fn view(&self) -> Seq<WorkerView> {
        self.list@.map_values(|w: Worker| w@)
    }
}

impl Workers {
    pub open spec fn wf(&self) -> bool {
        &&& by_name(self@)
        &&& forall|i: int| 0 <= i < self@.len() ==> (#[trigger] self@[i]).recent.len() <= RECENT
    }

    pub fn new() -> (w: Workers)
        ensures
            w@ == Seq::<WorkerView>::empty(),
            w.wf(),
    {
        let w: Workers = Workers { list: Vec::new() };
        assert(w@ =~= Seq::<WorkerView>::empty());
        w
    }

    pub fn len(&self) -> (n: usize)
        ensures
            n == self@.len(),
    {
        self.list.len()
    }

    pub fn get(&self, i: usize) -> (w: &Worker)
        requires
            i < self@.len(),
        ensures
            w@ == self@[i as int],
    {
        &self.list[i]
    }

    /// Where a machine stands.
    pub fn find(&self, name: &str) -> (i: Option<usize>)
        ensures
            match i {
                Some(k) => knows(self@, name@) && k == place_of(self@, name@),
                None => !knows(self@, name@),
            },
    {
        let cs: Vec<char> = to_chars(name);
        let k: usize = self.place(cs.as_slice());
        if k < self.list.len() {
            assert(self@[k as int] == self.list@[k as int]@);
            if is_text(cs.as_slice(), self.list[k].name.as_str()) {
                return Some(k);
            }
        }
        None
    }

    fn place(&self, name: &[char]) -> (k: usize)
        ensures
            k == place_of(self@, name@),
            k <= self@.len(),
    {
        let mut n: usize = self.list.len();
        while n > 0
            invariant
                n <= self.list@.len(),
                place_of(self@, name@) == place_among(self@, name@, n as int),
            decreases n,
        {
            assert(self@[n - 1] == self.list@[n - 1]@);
            let other: Vec<char> = to_chars(self.list[n - 1].name.as_str());
            if comes_before(other.as_slice(), name) {
                return n;
            }
            n -= 1;
        }
        0
    }

    /// The place of a machine, which is entered if it is not known.
    fn enter(&mut self, name: &str, now: u64) -> (k: usize)
        requires
            old(self).wf(),
        ensures
            final(self)@ == entered(old(self)@, name@, now),
            final(self).wf(),
            k == place_of(old(self)@, name@),
            k < final(self)@.len(),
    {
        proof {
            entering_keeps_the_order(self@, name@, now);
        }
        let cs: Vec<char> = to_chars(name);
        let k: usize = self.place(cs.as_slice());
        let ghost before = self@;
        if k < self.list.len() {
            assert(self@[k as int] == self.list@[k as int]@);
            if is_text(cs.as_slice(), self.list[k].name.as_str()) {
                return k;
            }
        }
        let w: Worker = Worker {
            name: to_text(cs.as_slice()),
            last_seen: now,
            recent: VecDeque::new(),
            total_episodes: 0,
            beat: None,
        };
        assert(w@ =~= newcomer(name@, now));
        self.list.insert(k, w);
        proof {
            assert(self@ =~= before.insert(k as int, newcomer(name@, now)));
            assert forall|i: int| 0 <= i < self@.len() implies (#[trigger] self@[i]).recent.len()
                <= RECENT by {
                if i < k {
                    assert(self@[i] == before[i]);
                } else if i > k {
                    assert(self@[i] == before[i - 1]);
                }
            }
        }
        k
    }

    /// Notes a heartbeat.
    pub fn beat(&mut self, name: &str, q: Query, now: u64)
        requires
            old(self).wf(),
        ensures
            final(self).wf(),
            ({
                let (ws, k) = (entered(old(self)@, name@, now), place_of(old(self)@, name@));
                final(self)@ == ws.update(k, WorkerView { beat: Some((now, q@)), ..ws[k] })
            }),
    {
        let k: usize = self.enter(name, now);
        let ghost ws = self@;
        let ghost qv = q@;
        self.list[k].beat = Some((now, q));
        proof {
            let want = ws.update(k as int, WorkerView { beat: Some((now, qv)), ..ws[k as int] });
            assert forall|i: int| 0 <= i < ws.len() implies self@[i] == want[i] by {
                assert(self@[i] == self.list@[i]@);
            }
            assert(self@ =~= want);
            assert forall|i: int| 0 <= i < self@.len() implies (#[trigger] self@[i]).recent.len()
                <= RECENT by {
                assert(ws[i].recent.len() <= RECENT);
            }
            assert forall|i: int, j: int| 0 <= i < j < self@.len() implies text::precedes(
                #[trigger] self@[i].name,
                #[trigger] self@[j].name,
            ) by {
                assert(text::precedes(ws[i].name, ws[j].name));
            }
        }
    }

    /// Notes the report that comes with a delta.
    pub fn report(&mut self, name: &str, c: Chunk, now: u64)
        requires
            old(self).wf(),
            knows(old(self)@, name@) ==> old(self)@[place_of(
                old(self)@,
                name@,
            )].total_episodes + c.episodes <= u64::MAX,
        ensures
            final(self).wf(),
            final(self)@ == recorded(old(self)@, name@, c, now),
    {
        let k: usize = self.enter(name, now);
        let ghost ws = self@;
        proof {
            assert(ws[k as int] == self.list@[k as int]@);
            lemma_place(old(self)@, name@, old(self)@.len() as int);
            if !knows(old(self)@, name@) {
                assert(ws[k as int] == newcomer(name@, now));
            }
        }
        self.list[k].last_seen = now;
        self.list[k].total_episodes = self.list[k].total_episodes + c.episodes;
        self.list[k].recent.push_back(c);
        if self.list[k].recent.len() > RECENT {
            let _ = self.list[k].recent.pop_front();
        }
        proof {
            let want = ws.update(
                k as int,
                WorkerView {
                    last_seen: now,
                    recent: reported(ws[k as int].recent, c),
                    total_episodes: (ws[k as int].total_episodes + c.episodes) as u64,
                    ..ws[k as int]
                },
            );
            assert(self.list@[k as int].recent@ =~= reported(ws[k as int].recent, c));
            assert forall|i: int| 0 <= i < ws.len() implies self@[i] == want[i] by {
                assert(self@[i] == self.list@[i]@);
                if i != k {
                    assert(ws[i] == self.list@[i]@);
                }
            }
            assert(self@ =~= want);
            assert forall|i: int| 0 <= i < self@.len() implies (#[trigger] self@[i]).recent.len()
                <= RECENT by {
                assert(ws[i].recent.len() <= RECENT);
            }
            assert forall|i: int, j: int| 0 <= i < j < self@.len() implies text::precedes(
                #[trigger] self@[i].name,
                #[trigger] self@[j].name,
            ) by {
                assert(text::precedes(ws[i].name, ws[j].name));
            }
        }
    }

    /// The games that a machine has reported.
    pub fn episodes_of(&self, name: &str) -> (n: u64)
        ensures
            n == if knows(self@, name@) {
                self@[place_of(self@, name@)].total_episodes
            } else {
                0
            },
    {
        match self.find(name) {
            Some(k) => {
                assert(self@[k as int] == self.list@[k as int]@);
                self.list[k].total_episodes
            },
            None => 0,
        }
    }
}

/// The sum of a count over the first `n` reports.
pub open spec fn sum_of(recent: Seq<Chunk>, f: spec_fn(Chunk) -> u64, n: int) -> nat
    decreases n,
{
    if n <= 0 {
        0
    } else {
        sum_of(recent, f, n - 1) + f(recent[n - 1]) as nat
    }
}

/// A count of games that reached a tile.
pub open spec fn reached_in(k: int) -> spec_fn(Chunk) -> u64 {
    |c: Chunk| c.reached@[k]
}

/// The best score among the first `n` reports.
pub open spec fn best_of(recent: Seq<Chunk>, n: int) -> u64
    decreases n,
{
    if n <= 0 {
        0
    } else {
        chunk::greater(best_of(recent, n - 1), recent[n - 1].best)
    }
}

/// All counts of the first `n` reports can be added up.
pub open spec fn sums_fit(recent: Seq<Chunk>, n: int) -> bool {
    &&& sum_of(recent, |c: Chunk| c.episodes, n) <= u64::MAX
    &&& sum_of(recent, |c: Chunk| c.fresh, n) <= u64::MAX
    &&& sum_of(recent, |c: Chunk| c.score, n) <= u64::MAX
    &&& forall|k: int| 0 <= k < 5 ==> sum_of(recent, #[trigger] reached_in(k), n) <= u64::MAX
}

/// The counts are the sums over the first `n` reports, and the best score is their best.
pub open spec fn is_total(c: Chunk, recent: Seq<Chunk>, n: int) -> bool {
    &&& c.best == best_of(recent, n)
    &&& c.episodes == sum_of(recent, |c: Chunk| c.episodes, n)
    &&& c.fresh == sum_of(recent, |c: Chunk| c.fresh, n)
    &&& c.score == sum_of(recent, |c: Chunk| c.score, n)
    &&& forall|k: int| 0 <= k < 5 ==> c.reached@[k] == sum_of(recent, #[trigger] reached_in(k), n)
}

/// `sums` are the running sums of the reports' seconds, from zero on.
pub open spec fn running_secs<F: Fn(u64, u64) -> u64>(
    plus: F,
    recent: Seq<Chunk>,
    sums: Seq<u64>,
    n: int,
) -> bool {
    &&& sums.len() == n + 1
    &&& sums[0] == 0
    &&& forall|i: int|
        #![trigger recent[i]]
        0 <= i < n ==> call_ensures(plus, (sums[i], recent[i].secs), sums[i + 1])
}

/// `c` totals the reports.
pub open spec fn is_recent_total<F: Fn(u64, u64) -> u64>(
    plus: F,
    recent: Seq<Chunk>,
    c: Chunk,
) -> bool {
    &&& is_total(c, recent, recent.len() as int)
    &&& exists|sums: Seq<u64>| #[trigger]
        running_secs(plus, recent, sums, recent.len() as int) && c.secs == sums.last()
}

proof fn lemma_sum_grows(recent: Seq<Chunk>, f: spec_fn(Chunk) -> u64, a: int, b: int)
    requires
        0 <= a <= b,
    ensures
        sum_of(recent, f, a) <= sum_of(recent, f, b),
    decreases b - a,
{
    if a < b {
        lemma_sum_grows(recent, f, a, b - 1);
    }
}

proof fn lemma_sums_grow(recent: Seq<Chunk>, a: int, b: int)
    requires
        0 <= a <= b,
        sums_fit(recent, b),
    ensures
        sums_fit(recent, a),
{
    lemma_sum_grows(recent, |c: Chunk| c.episodes, a, b);
    lemma_sum_grows(recent, |c: Chunk| c.fresh, a, b);
    lemma_sum_grows(recent, |c: Chunk| c.score, a, b);
    assert forall|k: int| 0 <= k < 5 implies sum_of(recent, #[trigger] reached_in(k), a)
        <= u64::MAX by {
        lemma_sum_grows(recent, reached_in(k), a, b);
    }
}

impl Worker {
    /// Whether the machine has sent a delta lately.
    pub fn is_live(&self, now: u64) -> (yes: bool)
        ensures
            yes == (deltas::elapsed(now, self.last_seen) < LIVE_FOR),
    {
        !(now > self.last_seen && now - self.last_seen >= LIVE_FOR)
    }

    /// The totals of the recent reports; `plus` adds seconds. None if a count leaves 64 bits.
    pub fn recent_total<F: Fn(u64, u64) -> u64>(&self, plus: &F) -> (res: Option<Chunk>)
        requires
            forall|x: u64, y: u64| call_requires(*plus, (x, y)),
        ensures
            match res {
                Some(c) => is_recent_total(*plus, self.recent@, c),
                None => !sums_fit(self.recent@, self.recent@.len() as int),
            },
    {
        let n: usize = self.recent.len();
        let mut sum: Chunk = Chunk::new();
        let ghost mut sums: Seq<u64> = seq![0u64];
        let mut i: usize = 0;
        let ghost all = self.recent@;
        while i < n
            invariant
                forall|x: u64, y: u64| call_requires(*plus, (x, y)),
                n == all.len(),
                all == self.recent@,
                i <= n,
                is_total(sum, all, i as int),
                running_secs(*plus, all, sums, i as int),
                sum.secs == sums.last(),
            decreases n - i,
        {
            let c: Chunk = self.recent[i];
            let ghost before = sum;
            if !sum.can_add(&c) {
                proof {
                    if sums_fit(all, n as int) {
                        lemma_sums_grow(all, i + 1, n as int);
                        assert forall|k: int| 0 <= k < 5 implies #[trigger] sum.reached@[k]
                            + c.reached@[k] <= u64::MAX by {
                            assert(sum_of(all, reached_in(k), i + 1) <= u64::MAX);
                            assert(sum.reached@[k] == sum_of(all, reached_in(k), i as int));
                        }
                    }
                }
                return None;
            }
            sum.add(&c, plus);
            proof {
                let s0 = sums;
                sums = sums.push(sum.secs);
                assert forall|j: int|
                    #![trigger all[j]]
                    0 <= j < i + 1 implies call_ensures(
                    *plus,
                    (sums[j], all[j].secs),
                    sums[j + 1],
                ) by {
                    if j < i {
                        assert(sums[j] == s0[j] && sums[j + 1] == s0[j + 1]);
                    }
                }
                assert forall|k: int| 0 <= k < 5 implies sum.reached@[k] == sum_of(
                    all,
                    #[trigger] reached_in(k),
                    i + 1,
                ) by {
                    assert(before.reached@[k] == sum_of(all, reached_in(k), i as int));
                    assert(sum.reached@[k] == before.reached@[k] + c.reached@[k]);
                }
            }
            i += 1;
        }
        Some(sum)
    }
}

}
