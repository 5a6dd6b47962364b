//! What a worker reports of one training chunk: totals of its games, and how often fresh games
//! reached 2048 up to 32768.

use crate::episode::EpisodeStats;
use crate::http;
use crate::http::Query;
use crate::text;
use crate::text::{decimal_chars, parse_whole, push_all, split, to_chars};
use vstd::prelude::*;

verus! {

/// Totals of one chunk. The seconds are the bits of a 64-bit float.
#[derive(Clone, Copy, Debug, PartialEq, Eq)]
pub struct Chunk {
    pub secs: u64,
    pub episodes: u64,
    pub fresh: u64,
    pub score: u64,
    pub reached: [u64; 5],
    /// The best score of a game.
    pub best: u64,
}

/// The greater of two scores.
pub open spec fn greater(a: u64, b: u64) -> u64 {
    if a < b {
        b
    } else {
        a
    }
}

/// The sum of two counters, which wrap around.
pub open spec fn wrapped(a: u64, b: u64) -> u64 {
    ((a + b) % 0x1_0000_0000_0000_0000) as u64
}

/// One for a game that reached the `k`-th of the tiles from 2048 on.
pub open spec fn hit(e: EpisodeStats, k: int) -> u64 {
    if e.max_rank >= 11 + k {
        1
    } else {
        0
    }
}

impl Chunk {
    /// An empty chunk.
    pub fn new() -> (c: Chunk)
        ensures
            c.secs == 0,
            c.episodes == 0,
            c.fresh == 0,
            c.score == 0,
            c.reached@ == seq![0u64, 0, 0, 0, 0],
            c.best == 0,
    {
        let c: Chunk = Chunk {
            secs: 0,
            episodes: 0,
            fresh: 0,
            score: 0,
            reached: [0, 0, 0, 0, 0],
            best: 0,
        };
        assert(c.reached@ =~= seq![0u64, 0, 0, 0, 0]);
        c
    }

    /// Counts a game. Only fresh games count towards scores and tiles.
    pub fn count(&mut self, e: &EpisodeStats)
        ensures
            final(self).secs == old(self).secs,
            final(self).episodes == wrapped(old(self).episodes, 1),
            !e.fresh ==> final(self).fresh == old(self).fresh && final(self).score
                == old(self).score && final(self).reached == old(self).reached
                && final(self).best == old(self).best,
            e.fresh ==> {
                &&& final(self).fresh == wrapped(old(self).fresh, 1)
                &&& final(self).score == wrapped(old(self).score, e.score)
                &&& final(self).best == greater(old(self).best, e.score)
                &&& forall|k: int|
                    0 <= k < 5 ==> #[trigger] final(self).reached@[k] == wrapped(
                        old(self).reached@[k],
                        hit(*e, k),
                    )
            },
    {
        self.episodes = self.episodes.wrapping_add(1);
        if e.fresh {
            self.fresh = self.fresh.wrapping_add(1);
            self.score = self.score.wrapping_add(e.score);
            if self.best < e.score {
                self.best = e.score;
            }
            let mut r: [u64; 5] = self.reached;
            let mut k: usize = 0;
            while k < 5
                invariant
                    k <= 5,
                    forall|j: int|
                        0 <= j < k ==> #[trigger] r@[j] == wrapped(old(self).reached@[j], hit(*e, j)),
                    forall|j: int| k <= j < 5 ==> #[trigger] r@[j] == old(self).reached@[j],
                decreases 5 - k,
            {
                if e.max_rank >= 11 + k as u8 {
                    r[k] = r[k].wrapping_add(1);
                }
                k += 1;
            }
            self.reached = r;
        }
    }

    /// The counts of two chunks can be added.
    pub open spec fn addable(self, o: Chunk) -> bool {
        &&& self.episodes + o.episodes <= u64::MAX
        &&& self.fresh + o.fresh <= u64::MAX
        &&& self.score + o.score <= u64::MAX
        &&& forall|k: int|
            0 <= k < 5 ==> #[trigger] self.reached@[k] + o.reached@[k] <= u64::MAX
    }

    /// The counts are the sums of those of two chunks, and the best score is the better one.
    pub open spec fn is_sum(self, a: Chunk, b: Chunk) -> bool {
        &&& self.best == greater(a.best, b.best)
        &&& self.episodes == a.episodes + b.episodes
        &&& self.fresh == a.fresh + b.fresh
        &&& self.score == a.score + b.score
        &&& forall|k: int|
            0 <= k < 5 ==> #[trigger] self.reached@[k] == a.reached@[k] + b.reached@[k]
    }

    /// Whether the counts of two chunks can be added.
    pub fn can_add(&self, o: &Chunk) -> (yes: bool)
        ensures
            yes == self.addable(*o),
    {
        let mut ok: bool = self.episodes <= u64::MAX - o.episodes && self.fresh <= u64::MAX
            - o.fresh && self.score <= u64::MAX - o.score;
        let mut k: usize = 0;
        while k < 5
            invariant
                k <= 5,
                ok == (self.episodes + o.episodes <= u64::MAX && self.fresh + o.fresh <= u64::MAX
                    && self.score + o.score <= u64::MAX && forall|j: int|
                    0 <= j < k ==> #[trigger] self.reached@[j] + o.reached@[j] <= u64::MAX),
            decreases 5 - k,
        {
            ok = ok && self.reached[k] <= u64::MAX - o.reached[k];
            k += 1;
        }
        ok
    }

    /// Adds another chunk; `plus` adds the seconds.
    pub fn add<F: Fn(u64, u64) -> u64>(&mut self, o: &Chunk, plus: F)
        requires
            old(self).addable(*o),
            forall|x: u64, y: u64| call_requires(plus, (x, y)),
        ensures
            final(self).is_sum(*old(self), *o),
            call_ensures(plus, (old(self).secs, o.secs), final(self).secs),
    {
        let secs: u64 = plus(self.secs, o.secs);
        self.secs = secs;
        self.episodes = self.episodes + o.episodes;
        self.fresh = self.fresh + o.fresh;
        self.score = self.score + o.score;
        if self.best < o.best {
            self.best = o.best;
        }
        let mut r: [u64; 5] = self.reached;
        let mut k: usize = 0;
        while k < 5
            invariant
                k <= 5,
                old(self).addable(*o),
                forall|j: int|
                    0 <= j < k ==> #[trigger] r@[j] == old(self).reached@[j] + o.reached@[j],
                forall|j: int| k <= j < 5 ==> #[trigger] r@[j] == old(self).reached@[j],
            decreases 5 - k,
        {
            assert(old(self).reached@[k as int] + o.reached@[k as int] <= u64::MAX);
            r[k] = r[k] + o.reached[k];
            k += 1;
        }
        self.reached = r;
    }
}

/// Five counts with commas between them.
pub open spec fn counts_text(r: Seq<u64>) -> Seq<char> {
    text::decimal(r[0] as nat) + seq![','] + text::decimal(r[1] as nat) + seq![','] + text::decimal(
        r[2] as nat,
    ) + seq![','] + text::decimal(r[3] as nat) + seq![','] + text::decimal(r[4] as nat)
}

/// A chunk as the pairs of a query; `secs` is its seconds in writing.
pub open spec fn pairs_of(c: Chunk, secs: Seq<char>) -> Seq<(Seq<char>, Seq<char>)> {
    seq![
        ("secs"@, secs),
        ("episodes"@, text::decimal(c.episodes as nat)),
        ("fresh"@, text::decimal(c.fresh as nat)),
        ("score"@, text::decimal(c.score as nat)),
        ("reached"@, counts_text(c.reached@)),
        ("best"@, text::decimal(c.best as nat)),
    ]
}

/// The count in place `k` of a list of counts; zero where there is none.
pub open spec fn count_at(s: Seq<char>, k: int) -> u64 {
    let ps = text::pieces(s, ',');
    if k < ps.len() {
        match text::whole(ps[k]) {
            Some(n) => n,
            None => 0,
        }
    } else {
        0
    }
}

fn push_number(s: &mut String, n: u64)
    ensures
        final(s)@ == old(s)@ + text::decimal(n as nat),
{
    push_all(s, decimal_chars(n).as_slice());
}

fn write_counts(r: &[u64; 5]) -> (s: String)
    ensures
        s@ == counts_text(r@),
{
    let mut s: String = String::new();
    push_number(&mut s, r[0]);
    s.push(',');
    push_number(&mut s, r[1]);
    s.push(',');
    push_number(&mut s, r[2]);
    s.push(',');
    push_number(&mut s, r[3]);
    s.push(',');
    push_number(&mut s, r[4]);
    assert(s@ =~= counts_text(r@));
    s
}

fn read_counts(s: &str) -> (r: [u64; 5])
    ensures
        forall|k: int| 0 <= k < 5 ==> #[trigger] r@[k] == count_at(s@, k),
{
    let cs: Vec<char> = to_chars(s);
    let ps: Vec<Vec<char>> = split(cs.as_slice(), ',');
    let ghost all = text::texts(ps@);
    assert(all.len() == ps@.len());
    let mut r: [u64; 5] = [0; 5];
    let mut k: usize = 0;
    while k < 5
        invariant
            k <= 5,
            all == text::texts(ps@),
            all == text::pieces(s@, ','),
            forall|j: int| 0 <= j < k ==> #[trigger] r@[j] == count_at(s@, j),
            forall|j: int| k <= j < 5 ==> #[trigger] r@[j] == 0,
        decreases 5 - k,
    {
        if k < ps.len() {
            assert(all[k as int] == ps@[k as int]@);
            r[k] = match parse_whole(ps[k].as_slice()) {
                Some(n) => n,
                None => 0,
            };
        }
        k += 1;
    }
    r
}

/// `read` made `r` of a query's value, or there was none and `r` is zero.
pub open spec fn number_read<F: Fn(&str) -> u64>(read: F, v: Option<Seq<char>>, r: u64) -> bool {
    match v {
        Some(t) => exists|s: &str| s@ == t && #[trigger] call_ensures(read, (s,), r),
        None => r == 0,
    }
}

fn read_number<F: Fn(&str) -> u64>(q: &Query, key: &str, read: &F) -> (r: u64)
    requires
        forall|s: &str| call_requires(read, (s,)),
    ensures
        number_read(*read, http::value_of(q@, key@), r),
{
    match q.get(key) {
        Some(v) => {
            let r: u64 = read(v.as_str());
            r
        },
        None => 0,
    }
}

impl Chunk {
    /// Adds a chunk to a query.
    pub fn push_to(&self, q: &mut Query, secs: &str)
        ensures
            final(q)@ == old(q)@ + pairs_of(*self, secs@),
    {
        q.push("secs", secs);
        q.push_number("episodes", self.episodes);
        q.push_number("fresh", self.fresh);
        q.push_number("score", self.score);
        let r: String = write_counts(&self.reached);
        q.push("reached", r.as_str());
        q.push_number("best", self.best);
        assert(q@ =~= old(q)@ + pairs_of(*self, secs@));
    }

    /// Writes a chunk as a query.
    pub fn to_query(&self, secs: &str) -> (s: String)
        ensures
            s@ == http::joined(pairs_of(*self, secs@)),
    {
        let mut q: Query = Query::new();
        self.push_to(&mut q, secs);
        assert(q@ =~= pairs_of(*self, secs@));
        q.write()
    }

    /// Reads a chunk from a query. `seconds` and `count` read a number in writing, as the bits
    /// of a float and as a count.
    pub fn from_query<F: Fn(&str) -> u64, G: Fn(&str) -> u64>(q: &Query, seconds: F, count: G) -> (c:
        Chunk)
        requires
            forall|s: &str| call_requires(seconds, (s,)),
            forall|s: &str| call_requires(count, (s,)),
        ensures
            number_read(seconds, http::value_of(q@, "secs"@), c.secs),
            number_read(count, http::value_of(q@, "episodes"@), c.episodes),
            number_read(count, http::value_of(q@, "fresh"@), c.fresh),
            number_read(count, http::value_of(q@, "score"@), c.score),
            forall|k: int|
                0 <= k < 5 ==> #[trigger] c.reached@[k] == count_at(
                    http::value_or_empty(q@, "reached"@),
                    k,
                ),
            c.best == count_at(http::value_or_empty(q@, "best"@), 0),
    {
        let secs: u64 = read_number(q, "secs", &seconds);
        let episodes: u64 = read_number(q, "episodes", &count);
        let fresh: u64 = read_number(q, "fresh", &count);
        let score: u64 = read_number(q, "score", &count);
        let reached: [u64; 5] = read_counts(q.get_or_empty("reached").as_str());
        let best: [u64; 5] = read_counts(q.get_or_empty("best").as_str());
        Chunk { secs, episodes, fresh, score, reached, best: best[0] }
    }
}

/// A list of counts reads back.
pub proof fn lemma_counts_back(r: Seq<u64>)
    requires
        r.len() == 5,
    ensures
        forall|k: int| 0 <= k < 5 ==> count_at(counts_text(r), k) == #[trigger] r[k],
{
    lemma_no_comma(r[0] as nat);
    lemma_no_comma(r[1] as nat);
    lemma_no_comma(r[2] as nat);
    lemma_no_comma(r[3] as nat);
    lemma_no_comma(r[4] as nat);
    let t4 = text::decimal(r[4] as nat);
    let t3 = text::decimal(r[3] as nat) + seq![','] + t4;
    let t2 = text::decimal(r[2] as nat) + seq![','] + t3;
    let t1 = text::decimal(r[1] as nat) + seq![','] + t2;
    let t0 = text::decimal(r[0] as nat) + seq![','] + t1;
    assert(counts_text(r) =~= t0);
    text::lemma_only_piece(t4, ',');
    text::lemma_first_piece(text::decimal(r[3] as nat), ',', t4);
    text::lemma_first_piece(text::decimal(r[2] as nat), ',', t3);
    text::lemma_first_piece(text::decimal(r[1] as nat), ',', t2);
    text::lemma_first_piece(text::decimal(r[0] as nat), ',', t1);
    let ps = text::pieces(counts_text(r), ',');
    assert(ps.len() == 5);
    assert forall|k: int| 0 <= k < 5 implies count_at(counts_text(r), k) == #[trigger] r[k] by {
        assert(k == 0 || k == 1 || k == 2 || k == 3 || k == 4);
        assert(ps[k] == text::decimal(r[k] as nat));
        text::decimals_read_back(r[k]);
    }
}

proof fn lemma_no_comma(n: nat)
    ensures
        !text::decimal(n).contains(','),
        !text::decimal(n).contains('&'),
{
    text::lemma_decimal(n);
    let d = text::decimal(n);
    if d.contains(',') {
        let i = choose|i: int| 0 <= i < d.len() && d[i] == ',';
        assert(text::is_digit(d[i]));
    }
    if d.contains('&') {
        let i = choose|i: int| 0 <= i < d.len() && d[i] == '&';
        assert(text::is_digit(d[i]));
    }
}

/// A list of counts has no `&`.
pub proof fn lemma_counts_plain(r: Seq<u64>)
    requires
        r.len() == 5,
    ensures
        !counts_text(r).contains('&'),
{
    lemma_no_comma(r[0] as nat);
    lemma_no_comma(r[1] as nat);
    lemma_no_comma(r[2] as nat);
    lemma_no_comma(r[3] as nat);
    lemma_no_comma(r[4] as nat);
    let t0 = text::decimal(r[0] as nat) + seq![','];
    let t1 = t0 + text::decimal(r[1] as nat);
    let t2 = t1 + seq![','];
    let t3 = t2 + text::decimal(r[2] as nat);
    let t4 = t3 + seq![','];
    let t5 = t4 + text::decimal(r[3] as nat);
    let t6 = t5 + seq![','];
    lemma_apart(text::decimal(r[0] as nat), seq![',']);
    lemma_apart(t0, text::decimal(r[1] as nat));
    lemma_apart(t1, seq![',']);
    lemma_apart(t2, text::decimal(r[2] as nat));
    lemma_apart(t3, seq![',']);
    lemma_apart(t4, text::decimal(r[3] as nat));
    lemma_apart(t5, seq![',']);
    lemma_apart(t6, text::decimal(r[4] as nat));
}

proof fn lemma_apart(a: Seq<char>, b: Seq<char>)
    requires
        !a.contains('&'),
        !b.contains('&'),
    ensures
        !(a + b).contains('&'),
{
    let s = a + b;
    if s.contains('&') {
        let i = choose|i: int| 0 <= i < s.len() && s[i] == '&';
        if i < a.len() {
            assert(a.contains(a[i]));
        } else {
            assert(b.contains(b[i - a.len()]));
        }
    }
}

}
