//! How much of a worker's changes the master takes: its share of the games that all live
//! workers play per second. The caller brings the arithmetic of 64-bit floats, on bit patterns.

use crate::chunk::Chunk;
use crate::deltas;
use crate::floats;
use crate::floats::greater64;
use crate::workers;
use crate::workers::{Worker, WorkerView, Workers, LIVE_FOR};
use vstd::prelude::*;

verus! {

/// The least share: a twentieth, as a 64-bit float's bits.
pub const LEAST: u64 = 0x3FA9_9999_9999_999A;

/// The greatest share: one.
pub const MOST: u64 = 0x3FF0_0000_0000_0000;

/// One, as a 32-bit float's bits.
pub const WHOLE: u32 = 0x3F80_0000;

/// A quotient of rates as a share.
pub open spec fn clamped(q: u64) -> u64 {
    if floats::above64(LEAST, q) {
        LEAST
    } else if floats::above64(q, MOST) {
        MOST
    } else {
        q
    }
}

/// The machine has sent a delta lately.
pub open spec fn is_live(w: WorkerView, now: u64) -> bool {
    deltas::elapsed(now, w.last_seen) < LIVE_FOR
}

/// The arithmetic that shares need.
pub struct Rates<P, D, O, N> {
    /// The sum of two numbers.
    pub plus: P,
    /// A count divided by a number.
    pub per: D,
    /// A number divided by another.
    pub over: O,
    /// A number as a 32-bit float.
    pub narrow: N,
}

impl<P, D, O, N> Rates<P, D, O, N> where
    P: Fn(u64, u64) -> u64,
    D: Fn(u64, u64) -> u64,
    O: Fn(u64, u64) -> u64,
    N: Fn(u64) -> u32,
 {
    /// The arithmetic works on all numbers.
    pub open spec fn total(self) -> bool {
        &&& forall|x: u64, y: u64| call_requires(self.plus, (x, y))
        &&& forall|n: u64, x: u64| call_requires(self.per, (n, x))
        &&& forall|x: u64, y: u64| call_requires(self.over, (x, y))
        &&& forall|x: u64| call_requires(self.narrow, (x,))
    }

    /// `r` is the games per second of a chunk; zero where it took no time.
    pub open spec fn is_rate(self, c: Chunk, r: u64) -> bool {
        if floats::above64(c.secs, 0) {
            call_ensures(self.per, (c.episodes, c.secs), r)
        } else {
            r == 0
        }
    }

    /// `r` is the games per second of a machine's recent chunks.
    pub open spec fn is_pace(self, w: WorkerView, r: u64) -> bool {
        exists|c: Chunk| #[trigger]
            workers::is_recent_total(self.plus, w.recent, c) && self.is_rate(c, r)
    }

    /// One machine makes `to` of the sum `from`: a live one adds its pace.
    pub open spec fn is_added(self, w: WorkerView, now: u64, from: u64, to: u64) -> bool {
        if is_live(w, now) {
            exists|r: u64| #[trigger]
                self.is_pace(w, r) && call_ensures(self.plus, (from, r), to)
        } else {
            to == from
        }
    }

    /// `sums` are the running sums of the paces of the first `n` machines.
    pub open spec fn are_sums(
        self,
        ws: Seq<WorkerView>,
        now: u64,
        sums: Seq<u64>,
        n: int,
    ) -> bool {
        &&& sums.len() == n + 1
        &&& sums[0] == 0
        &&& forall|i: int|
            #![trigger ws[i]]
            0 <= i < n ==> self.is_added(ws[i], now, sums[i], sums[i + 1])
    }

    /// `r` is the games per second of all live machines.
    pub open spec fn is_live_rate(self, ws: Seq<WorkerView>, now: u64, r: u64) -> bool {
        exists|sums: Seq<u64>| #[trigger]
            self.are_sums(ws, now, sums, ws.len() as int) && r == sums.last()
    }

    /// `r` is the games per second of the machine `name`; zero if it is not known.
    pub open spec fn is_own_rate(self, ws: Seq<WorkerView>, name: Seq<char>, r: u64) -> bool {
        if workers::knows(ws, name) {
            self.is_pace(ws[workers::place_of(ws, name)], r)
        } else {
            r == 0
        }
    }

    /// `s` is the share of `mine` in `all`, within bounds; the whole where nothing is played.
    pub open spec fn is_part(self, mine: u64, all: u64, s: u32) -> bool {
        if floats::above64(all, 0) {
            exists|q: u64| #[trigger]
                call_ensures(self.over, (mine, all), q) && call_ensures(
                    self.narrow,
                    (clamped(q),),
                    s,
                )
        } else {
            s == WHOLE
        }
    }

    /// `s` is the share of the machine `name`.
    pub open spec fn is_share(
        self,
        ws: Seq<WorkerView>,
        name: Seq<char>,
        now: u64,
        s: u32,
    ) -> bool {
        exists|mine: u64, all: u64|
            {
                &&& #[trigger] self.is_own_rate(ws, name, mine)
                &&& #[trigger] self.is_live_rate(ws, now, all)
                &&& self.is_part(mine, all, s)
            }
    }

    /// The games per second of a chunk.
    pub fn rate(&self, c: &Chunk) -> (r: u64)
        requires
            self.total(),
        ensures
            self.is_rate(*c, r),
    {
        if greater64(c.secs, 0) {
            (self.per)(c.episodes, c.secs)
        } else {
            0
        }
    }

    /// The games per second of a machine's recent chunks. None if their counts leave 64 bits.
    pub fn pace(&self, w: &Worker) -> (res: Option<u64>)
        requires
            self.total(),
        ensures
            match res {
                Some(r) => self.is_pace(w@, r),
                None => !workers::sums_fit(w@.recent, w@.recent.len() as int),
            },
    {
        match w.recent_total(&self.plus) {
            Some(c) => {
                assert(workers::is_recent_total(self.plus, w@.recent, c));
                Some(self.rate(&c))
            },
            None => None,
        }
    }

    /// The games per second of all live machines. None if the counts of one leave 64 bits.
    pub fn live_rate(&self, ws: &Workers, now: u64) -> (res: Option<u64>)
        requires
            self.total(),
        ensures
            match res {
                Some(r) => self.is_live_rate(ws@, now, r),
                None => exists|i: int|
                    0 <= i < ws@.len() && is_live(#[trigger] ws@[i], now) && !workers::sums_fit(
                        ws@[i].recent,
                        ws@[i].recent.len() as int,
                    ),
            },
    {
        let n: usize = ws.len();
        let mut sum: u64 = 0;
        let ghost mut sums: Seq<u64> = seq![0u64];
        let mut i: usize = 0;
        while i < n
            invariant
                self.total(),
                i <= n,
                n == ws@.len(),
                self.are_sums(ws@, now, sums, i as int),
                sum == sums.last(),
            decreases n - i,
        {
            let w: &Worker = ws.get(i);
            let ghost before = sum;
            let ghost sums0 = sums;
            assert(w@ == ws@[i as int]);
            if w.is_live(now) {
                match self.pace(w) {
                    Some(r) => {
                        sum = (self.plus)(sum, r);
                        assert(self.is_pace(ws@[i as int], r));
                    },
                    None => {
                        return None;
                    },
                }
            }
            proof {
                assert(self.is_added(ws@[i as int], now, before, sum));
                sums = sums.push(sum);
                assert forall|j: int| #![trigger ws@[j]] 0 <= j < i + 1 implies self.is_added(
                    ws@[j],
                    now,
                    sums[j],
                    sums[j + 1],
                ) by {
                    if j < i {
                        assert(sums[j] == sums0[j] && sums[j + 1] == sums0[j + 1]);
                    }
                }
            }
            i += 1;
        }
        assert(self.are_sums(ws@, now, sums, ws@.len() as int));
        Some(sum)
    }

    /// The share of the machine `name` in the games that all live machines play per second.
    /// None if the counts of one of them leave 64 bits.
    pub fn share(&self, ws: &Workers, name: &str, now: u64) -> (res: Option<u32>)
        requires
            self.total(),
        ensures
            match res {
                Some(s) => self.is_share(ws@, name@, now, s),
                None => exists|i: int|
                    0 <= i < ws@.len() && !workers::sums_fit(
                        (#[trigger] ws@[i]).recent,
                        ws@[i].recent.len() as int,
                    ),
            },
    {
        let mine: u64 = match ws.find(name) {
            Some(k) => {
                let w: &Worker = ws.get(k);
                assert(w@ == ws@[k as int]);
                match self.pace(w) {
                    Some(r) => r,
                    None => {
                        return None;
                    },
                }
            },
            None => 0,
        };
        assert(self.is_own_rate(ws@, name@, mine));
        let all: u64 = match self.live_rate(ws, now) {
            Some(r) => r,
            None => {
                return None;
            },
        };
        let s: u32 = if greater64(all, 0) {
            let q: u64 = (self.over)(mine, all);
            let kept: u64 = if greater64(LEAST, q) {
                LEAST
            } else if greater64(q, MOST) {
                MOST
            } else {
                q
            };
            (self.narrow)(kept)
        } else {
            WHOLE
        };
        assert(self.is_part(mine, all, s));
        Some(s)
    }
}

/// A share that is a number lies between a twentieth and one, and a quotient between them is
/// taken as it is.
pub proof fn shares_stay_in_bounds(q: u64)
    requires
        !floats::is_nan64(q),
    ensures
        floats::place64(LEAST) <= floats::place64(clamped(q)) <= floats::place64(MOST),
        floats::place64(LEAST) <= floats::place64(q) <= floats::place64(MOST) ==> clamped(q) == q,
{
}

}
