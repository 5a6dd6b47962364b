//! The coordinator's log of recent deltas, for workers that fall behind. Updates are numbered
//! one after the other; older ones than the log holds need a full download. Times are
//! nanoseconds since some start.

use crate::bundle;
use crate::bundle::{bundle_head, push_frame};
use crate::le;
use crate::le::{get_u32, get_u64};
use crate::text;
use crate::text::{is_text, split_lines, to_chars, to_text};
use crate::vecs::part;
use std::collections::VecDeque;
use vstd::prelude::*;

verus! {

/// Bytes of deltas the coordinator keeps.
pub const LOG_BUDGET: usize = 1_073_741_824;

/// How long it keeps them: six hours.
pub const LOG_MAX_AGE: u64 = 21_600_000_000_000;

/// How long a save may be old when a worker downloads the net: a minute.
pub const STALE_AFTER: u64 = 60_000_000_000;

/// One update of the master.
pub struct Delta {
    pub seq: u64,
    /// The run of a worker that it came from.
    pub from: String,
    pub bytes: Vec<u8>,
    pub at: u64,
}

/// An update in plain values.
#[verifier::ext_equal]
pub struct DeltaView {
    pub seq: u64,
    pub from: Seq<char>,
    pub bytes: Seq<u8>,
    pub at: u64,
}

impl View for Delta {
    type V = DeltaView;

    open spec fn view(&self) -> DeltaView {
        DeltaView { seq: self.seq, from: self.from@, bytes: self.bytes@, at: self.at }
    }
}

/// The bytes of all updates.
pub open spec fn total_bytes(entries: Seq<DeltaView>) -> nat
    decreases entries.len(),
{
    if entries.len() == 0 {
        0
    } else {
        entries[0].bytes.len() + total_bytes(entries.skip(1))
    }
}

/// The time from `at` to `now`, zero if there is none.
pub open spec fn elapsed(now: u64, at: u64) -> int {
    if now > at {
        now - at
    } else {
        0
    }
}

/// The log after a save: the oldest updates that the saved file holds go while the log is over
/// its budget, or they are over their age.
pub open spec fn trimmed(entries: Seq<DeltaView>, saved: u64, now: u64) -> Seq<DeltaView>
    decreases entries.len(),
{
    if entries.len() == 0 || entries[0].seq > saved || (total_bytes(entries) <= LOG_BUDGET
        && elapsed(now, entries[0].at) < LOG_MAX_AGE) {
        entries
    } else {
        trimmed(entries.skip(1), saved, now)
    }
}

/// The updates after `since` that others than `me` made, among the first `n`.
pub open spec fn picked(entries: Seq<DeltaView>, since: u64, me: Seq<char>, n: int) -> Seq<Seq<u8>>
    decreases n,
{
    if n <= 0 {
        seq![]
    } else {
        let d = entries[n - 1];
        if d.seq > since && d.from != me {
            picked(entries, since, me, n - 1).push(d.bytes)
        } else {
            picked(entries, since, me, n - 1)
        }
    }
}

/// The log in plain values.
#[verifier::ext_equal]
pub struct LogView {
    pub seq: u64,
    pub saved_seq: u64,
    pub saved_at: u64,
    pub entries: Seq<DeltaView>,
}

impl LogView {
    /// Updates are numbered without gaps up to the master's number, and those that no save
    /// holds are all there.
    pub open spec fn valid(self) -> bool {
        &&& self.entries.len() <= self.seq
        &&& self.saved_seq <= self.seq
        &&& self.seq - self.entries.len() <= self.saved_seq
        &&& forall|i: int|
            0 <= i < self.entries.len() ==> (#[trigger] self.entries[i]).seq == self.seq
                - self.entries.len() + 1 + i
    }

    /// A worker at update `since` can be brought up to date from the log.
    pub open spec fn reaches(self, since: u64) -> bool {
        since >= self.seq || self.seq - self.entries.len() <= since
    }

    /// The answer to that worker.
    pub open spec fn answer(self, since: u64, me: Seq<char>) -> Seq<u8> {
        bundle::bundle_bytes(
            self.seq,
            picked(self.entries, since, me, self.entries.len() as int),
        )
    }
}

pub struct DeltaLog {
    seq: u64,
    saved_seq: u64,
    saved_at: u64,
    log: VecDeque<Delta>,
    bytes: usize,
}

/// The updates of a log.
pub open spec fn entries_of(log: Seq<Delta>) -> Seq<DeltaView> {
    log.map_values(|d: Delta| d@)
}

impl View for DeltaLog {
    type V = LogView;

    closed spec fn view(&self) -> LogView {
        LogView {
            seq: self.seq,
            saved_seq: self.saved_seq,
            saved_at: self.saved_at,
            entries: entries_of(self.log@),
        }
    }
}

proof fn lemma_total_push(entries: Seq<DeltaView>, d: DeltaView)
    ensures
        total_bytes(entries.push(d)) == total_bytes(entries) + d.bytes.len(),
    decreases entries.len(),
{
    let all = entries.push(d);
    if entries.len() == 0 {
        assert(all.skip(1) =~= seq![]);
        assert(total_bytes(all.skip(1)) == 0);
    } else {
        assert(all.skip(1) =~= entries.skip(1).push(d));
        lemma_total_push(entries.skip(1), d);
    }
}

pub proof fn lemma_picked_len(entries: Seq<DeltaView>, since: u64, me: Seq<char>, n: int)
    requires
        0 <= n <= entries.len(),
    ensures
        picked(entries, since, me, n).len() <= n,
    decreases n,
{
    if n > 0 {
        lemma_picked_len(entries, since, me, n - 1);
    }
}

impl DeltaLog {
    pub closed spec fn wf(&self) -> bool {
        &&& self@.valid()
        &&& self.bytes == total_bytes(self@.entries)
    }

    /// A log's updates are numbered without gaps, and their bytes can be counted.
    pub proof fn lemma_wf(&self)
        requires
            self.wf(),
        ensures
            self@.valid(),
            total_bytes(self@.entries) <= usize::MAX,
    {
    }

    /// The bytes held.
    pub fn held_bytes(&self) -> (n: usize)
        requires
            self.wf(),
        ensures
            n == total_bytes(self@.entries),
    {
        self.bytes
    }

    /// The updates held.
    pub fn held(&self) -> (n: usize)
        ensures
            n == self@.entries.len(),
    {
        self.log.len()
    }

    pub fn seq(&self) -> (s: u64)
        ensures
            s == self@.seq,
    {
        self.seq
    }

    pub fn saved_seq(&self) -> (s: u64)
        ensures
            s == self@.saved_seq,
    {
        self.saved_seq
    }

    pub fn saved_at(&self) -> (t: u64)
        ensures
            t == self@.saved_at,
    {
        self.saved_at
    }

    /// An empty log of a master that was saved at update `seq`.
    pub fn new(seq: u64, now: u64) -> (l: DeltaLog)
        ensures
            l.wf(),
            l@ == (LogView { seq, saved_seq: seq, saved_at: now, entries: seq![] }),
    {
        let l: DeltaLog = DeltaLog {
            seq,
            saved_seq: seq,
            saved_at: now,
            log: VecDeque::new(),
            bytes: 0,
        };
        assert(l@.entries =~= seq![]);
        l
    }

    /// Adds an update and numbers it.
    pub fn push(&mut self, from: String, bytes: Vec<u8>, now: u64) -> (seq: u64)
        requires
            old(self).wf(),
            old(self)@.seq < u64::MAX,
            total_bytes(old(self)@.entries) + bytes@.len() <= usize::MAX,
        ensures
            final(self).wf(),
            seq == old(self)@.seq + 1,
            final(self)@ == (LogView {
                seq,
                entries: old(self)@.entries.push(
                    DeltaView { seq, from: from@, bytes: bytes@, at: now },
                ),
                ..old(self)@
            }),
    {
        let ghost before = self@;
        self.seq = self.seq + 1;
        self.bytes = self.bytes + bytes.len();
        let d: Delta = Delta { seq: self.seq, from, bytes, at: now };
        let ghost dv = d@;
        self.log.push_back(d);
        proof {
            assert(self@.entries =~= before.entries.push(dv));
            lemma_total_push(before.entries, dv);
            assert forall|i: int| 0 <= i < self@.entries.len() implies (
            #[trigger] self@.entries[i]).seq == self@.seq - self@.entries.len() + 1 + i by {
                if i < before.entries.len() {
                    assert(self@.entries[i] == before.entries[i]);
                }
            }
        }
        self.seq
    }

    /// Whether there are updates that no save holds.
    pub fn needs_save(&self) -> (yes: bool)
        ensures
            yes == (self@.seq != self@.saved_seq),
    {
        self.seq != self.saved_seq
    }

    /// Whether the net should be saved before a worker downloads it.
    pub fn is_stale(&self, now: u64) -> (yes: bool)
        ensures
            yes == (self@.seq != self@.saved_seq && elapsed(now, self@.saved_at) > STALE_AFTER),
    {
        self.seq != self.saved_seq && now > self.saved_at && now - self.saved_at > STALE_AFTER
    }

    /// Notes that the master was saved, and lets go of old updates. Only updates that the saved
    /// file already holds may go.
    pub fn saved(&mut self, now: u64)
        requires
            old(self).wf(),
        ensures
            final(self).wf(),
            final(self)@ == (LogView {
                seq: old(self)@.seq,
                saved_seq: old(self)@.seq,
                saved_at: now,
                entries: trimmed(old(self)@.entries, old(self)@.seq, now),
            }),
    {
        self.saved_seq = self.seq;
        self.saved_at = now;
        while self.log.len() > 0 && self.log[0].seq <= self.saved_seq && (self.bytes > LOG_BUDGET
            || (now > self.log[0].at && now - self.log[0].at >= LOG_MAX_AGE))
            invariant
                self.wf(),
                self@.seq == old(self)@.seq,
                self@.saved_seq == self@.seq,
                self@.saved_at == now,
                trimmed(self@.entries, self@.seq, now) == trimmed(
                    old(self)@.entries,
                    old(self)@.seq,
                    now,
                ),
            decreases self.log@.len(),
        {
            let ghost before = self@;
            assert(before.entries[0] == self.log@[0]@);
            self.bytes = self.bytes - self.log[0].bytes.len();
            let _ = self.log.pop_front();
            proof {
                assert(self@.entries =~= before.entries.skip(1));
                assert forall|i: int| 0 <= i < self@.entries.len() implies (
                #[trigger] self@.entries[i]).seq == self@.seq - self@.entries.len() + 1 + i by {
                    assert(self@.entries[i] == before.entries[i + 1]);
                }
            }
        }
        proof {
            if self@.entries.len() > 0 {
                assert(self@.entries[0] == self.log@[0]@);
            }
        }
    }

    /// The answer to a worker at update `since`: every later update that others made. None if
    /// the worker is too far behind and has to download the net again.
    pub fn deltas_since(&self, since: u64, me: &str) -> (res: Option<Vec<u8>>)
        requires
            self.wf(),
            self@.seq < u64::MAX,
        ensures
            match res {
                Some(v) => self@.reaches(since) && v@ == self@.answer(since, me@),
                None => !self@.reaches(since),
            },
    {
        let n: usize = self.log.len();
        let first: u64 = if n > 0 {
            self.log[0].seq
        } else {
            self.seq + 1
        };
        proof {
            if n > 0 {
                assert(self@.entries[0] == self.log@[0]@);
            }
        }
        if since < self.seq && first > since + 1 {
            return None;
        }
        let who: Vec<char> = to_chars(me);
        let mut count: usize = 0;
        let mut i: usize = 0;
        while i < n
            invariant
                n == self.log@.len(),
                i <= n,
                who@ == me@,
                count <= i,
                count == picked(self@.entries, since, me@, i as int).len(),
            decreases n - i,
        {
            assert(self@.entries[i as int] == self.log@[i as int]@);
            if self.log[i].seq > since && !is_text(who.as_slice(), self.log[i].from.as_str()) {
                count += 1;
            }
            i += 1;
        }
        let mut out: Vec<u8> = bundle_head(self.seq, count as u32);
        let ghost head = out@;
        i = 0;
        assert(out@ =~= head + bundle::frames_bytes(picked(self@.entries, since, me@, 0)));
        while i < n
            invariant
                n == self.log@.len(),
                i <= n,
                who@ == me@,
                out@ == head + bundle::frames_bytes(picked(self@.entries, since, me@, i as int)),
            decreases n - i,
        {
            let d: &Delta = &self.log[i];
            assert(self@.entries[i as int] == self.log@[i as int]@);
            if d.seq > since && !is_text(who.as_slice(), d.from.as_str()) {
                let ghost frames = picked(self@.entries, since, me@, i as int);
                push_frame(&mut out, &d.bytes);
                proof {
                    bundle::lemma_frames_push(frames, d.bytes@);
                    assert(out@ =~= head + bundle::frames_bytes(frames.push(d.bytes@)));
                }
            }
            i += 1;
        }
        Some(out)
    }
}

/// A worker that can be brought up to date misses nothing: every update after its own is in
/// the log.
pub proof fn no_update_is_skipped(l: LogView, since: u64, u: u64)
    requires
        l.valid(),
        l.reaches(since),
        since < u <= l.seq,
    ensures
        exists|i: int| 0 <= i < l.entries.len() && (#[trigger] l.entries[i]).seq == u,
{
    let i = u - (l.seq - l.entries.len()) - 1;
    assert(l.entries[i].seq == u);
}

/// A worker with a fresh download, which holds the last save, can always be brought up to
/// date.
pub proof fn downloads_can_catch_up(l: LogView)
    requires
        l.valid(),
    ensures
        l.reaches(l.saved_seq),
{
}

/// A worker that is up to date gets nothing more.
pub proof fn up_to_date_workers_get_nothing(l: LogView, me: Seq<char>)
    requires
        l.valid(),
    ensures
        l.answer(l.seq, me) == bundle::bundle_bytes(l.seq, seq![]),
{
    lemma_none_picked(l, me, l.entries.len() as int);
}

proof fn lemma_none_picked(l: LogView, me: Seq<char>, n: int)
    requires
        l.valid(),
        0 <= n <= l.entries.len(),
    ensures
        picked(l.entries, l.seq, me, n) == Seq::<Seq<u8>>::empty(),
    decreases n,
{
    if n > 0 {
        lemma_none_picked(l, me, n - 1);
        assert(l.entries[n - 1].seq <= l.seq);
    }
}

/// A save lets go of a prefix of the log, and of nothing that fits the budget and is young.
pub proof fn saves_drop_only_old_updates(entries: Seq<DeltaView>, saved: u64, now: u64)
    ensures
        trimmed(entries, saved, now).len() <= entries.len(),
        trimmed(entries, saved, now) == entries.skip(
            entries.len() - trimmed(entries, saved, now).len(),
        ),
        forall|i: int|
            0 <= i < entries.len() - trimmed(entries, saved, now).len() ==> (
            #[trigger] entries[i]).seq <= saved,
    decreases entries.len(),
{
    let t = trimmed(entries, saved, now);
    if t == entries {
        assert(entries.skip(0) =~= entries);
    } else {
        saves_drop_only_old_updates(entries.skip(1), saved, now);
        let rest = entries.skip(1);
        assert(entries.skip(entries.len() - t.len()) =~= rest.skip(rest.len() - t.len()));
        assert forall|i: int| 0 <= i < entries.len() - t.len() implies (
        #[trigger] entries[i]).seq <= saved by {
            if i > 0 {
                assert(entries[i] == rest[i - 1]);
            }
        }
    }
}

/// The raw frames of a bundle.
pub open spec fn raw_frames(bytes: Seq<u8>, pos: int, n: nat) -> Option<Seq<Seq<u8>>>
    decreases n,
{
    if n == 0 {
        Some(seq![])
    } else if pos + 4 > bytes.len() || pos + 4 + le::read32(bytes, pos) > bytes.len() {
        None
    } else {
        let next = pos + 4 + le::read32(bytes, pos);
        match raw_frames(bytes, next, (n - 1) as nat) {
            None => None,
            Some(rest) => Some(seq![bytes.subrange(pos + 4, next)] + rest),
        }
    }
}

/// The log that a dump holds, as of `now`: the frames of a bundle, and a line for each with
/// the run that it came from.
pub open spec fn restored(bytes: Seq<u8>, names: Seq<char>, now: u64) -> Option<LogView> {
    if bytes.len() < 12 {
        None
    } else {
        let (seq, n) = (le::read64(bytes, 0), le::read32(bytes, 8) as nat);
        let from = text::lines(names);
        match raw_frames(bytes, 12, n) {
            Some(frames) if from.len() == n && n <= seq => Some(
                LogView {
                    seq,
                    saved_seq: seq,
                    saved_at: now,
                    entries: Seq::new(
                        n,
                        |i: int|
                            DeltaView {
                                seq: (seq - n + 1 + i) as u64,
                                from: read_name(from[i]),
                                bytes: frames[i],
                                at: now,
                            },
                    ),
                },
            ),
            _ => None,
        }
    }
}

/// A character of a name in writing: line ends and backslashes are spelt out.
pub open spec fn char_text(c: char) -> Seq<char> {
    if c == '\\' {
        seq!['\\', '\\']
    } else if c == '\n' {
        seq!['\\', 'n']
    } else if c == '\r' {
        seq!['\\', 'r']
    } else {
        seq![c]
    }
}

/// A name in writing, on one line.
pub open spec fn name_text(name: Seq<char>) -> Seq<char>
    decreases name.len(),
{
    if name.len() == 0 {
        seq![]
    } else {
        char_text(name[0]) + name_text(name.skip(1))
    }
}

/// The character that a backslash and `c` spell.
pub open spec fn spelt(c: char) -> char {
    if c == 'n' {
        '\n'
    } else if c == 'r' {
        '\r'
    } else {
        c
    }
}

/// The name that a line spells from place `i` on.
pub open spec fn read_name_from(line: Seq<char>, i: int) -> Seq<char>
    decreases line.len() - i,
{
    if i < 0 || i >= line.len() {
        seq![]
    } else if line[i] == '\\' && i + 1 < line.len() {
        seq![spelt(line[i + 1])] + read_name_from(line, i + 2)
    } else {
        seq![line[i]] + read_name_from(line, i + 1)
    }
}

/// The name that a line spells.
pub open spec fn read_name(line: Seq<char>) -> Seq<char> {
    read_name_from(line, 0)
}

proof fn lemma_read_shift(a: Seq<char>, line: Seq<char>, i: int)
    requires
        0 <= i,
    ensures
        read_name_from(a + line, a.len() + i) == read_name_from(line, i),
    decreases line.len() - i,
{
    let all = a + line;
    if i < line.len() {
        assert(all[a.len() + i] == line[i]);
        if line[i] == '\\' && i + 1 < line.len() {
            assert(all[a.len() + i + 1] == line[i + 1]);
            lemma_read_shift(a, line, i + 2);
        } else {
            lemma_read_shift(a, line, i + 1);
        }
    }
}

/// A text without line ends.
pub open spec fn one_line(name: Seq<char>) -> bool {
    !name.contains('\n') && !name.contains('\r')
}

/// A name in writing stands on one line, and is read as it was.
pub proof fn names_read_back(name: Seq<char>)
    ensures
        one_line(name_text(name)),
        read_name(name_text(name)) == name,
    decreases name.len(),
{
    if name.len() > 0 {
        let (first, rest) = (char_text(name[0]), name_text(name.skip(1)));
        names_read_back(name.skip(1));
        lemma_read_shift(first, rest, 0);
        let all = name_text(name);
        assert(all == first + rest);
        assert(all[0] == first[0]);
        if first.len() == 2 {
            assert(all[1] == first[1]);
        }
        assert(read_name(all) =~= seq![name[0]] + name.skip(1));
        assert(seq![name[0]] + name.skip(1) =~= name);
        assert forall|i: int| 0 <= i < all.len() implies all[i] != '\n' && all[i] != '\r' by {
            if i >= first.len() {
                assert(all[i] == rest[i - first.len()]);
                assert(rest.contains(rest[i - first.len()]));
            } else {
                assert(all[i] == first[i]);
            }
        }
    }
}

/// Appends a name in writing.
fn push_name(s: &mut String, name: &str)
    ensures
        final(s)@ == old(s)@ + name_text(name@),
{
    let cs: Vec<char> = to_chars(name);
    let mut i: usize = 0;
    assert(cs@.skip(0) =~= cs@);
    while i < cs.len()
        invariant
            i <= cs@.len(),
            s@ + name_text(cs@.skip(i as int)) == old(s)@ + name_text(cs@),
        decreases cs@.len() - i,
    {
        let ghost before = s@;
        let c: char = cs[i];
        if c == '\\' {
            s.push('\\');
            s.push('\\');
        } else if c == '\n' {
            s.push('\\');
            s.push('n');
        } else if c == '\r' {
            s.push('\\');
            s.push('r');
        } else {
            s.push(c);
        }
        proof {
            let rest = cs@.skip(i as int);
            assert(rest[0] == c);
            assert(rest.skip(1) =~= cs@.skip(i + 1));
            assert(s@ =~= before + char_text(c));
            assert(s@ + name_text(cs@.skip(i + 1)) =~= before + name_text(rest));
        }
        i += 1;
    }
    assert(name_text(cs@.skip(i as int)) =~= seq![]);
    assert(s@ =~= old(s)@ + name_text(cs@));
}

/// The name that a line spells.
fn spell(line: &[char]) -> (name: Vec<char>)
    ensures
        name@ == read_name(line@),
{
    let mut name: Vec<char> = Vec::new();
    let n: usize = line.len();
    let mut i: usize = 0;
    assert(name@ + read_name(line@) =~= read_name(line@));
    while i < n
        invariant
            n == line@.len(),
            i <= n,
            name@ + read_name_from(line@, i as int) == read_name(line@),
        decreases n - i,
    {
        let ghost before = name@;
        let ghost at = i as int;
        let c: char = line[i];
        if c == '\\' && i < n - 1 {
            let d: char = line[i + 1];
            if d == 'n' {
                name.push('\n');
            } else if d == 'r' {
                name.push('\r');
            } else {
                name.push(d);
            }
            i += 2;
        } else {
            name.push(c);
            i += 1;
        }
        assert(name@ + read_name_from(line@, i as int) =~= before + read_name_from(line@, at));
    }
    assert(name@ =~= read_name(line@));
    name
}

/// The runs that updates came from, a line each.
pub open spec fn names_text(entries: Seq<DeltaView>) -> Seq<char>
    decreases entries.len(),
{
    if entries.len() == 0 {
        seq![]
    } else {
        name_text(entries[0].from) + seq!['\n'] + names_text(entries.skip(1))
    }
}

/// The bytes of all updates, one by one.
pub open spec fn frames_held(entries: Seq<DeltaView>) -> Seq<Seq<u8>> {
    entries.map_values(|d: DeltaView| d.bytes)
}

fn read_raw(bytes: &[u8], n: u32) -> (res: Option<Vec<Vec<u8>>>)
    requires
        bytes@.len() >= 12,
    ensures
        match raw_frames(bytes@, 12, n as nat) {
            None => res is None,
            Some(f) => res matches Some(v) && v@.map_values(|b: Vec<u8>| b@) == f,
        },
{
    let total: usize = bytes.len();
    let mut out: Vec<Vec<u8>> = Vec::new();
    let mut pos: usize = 12;
    let mut k: u32 = 0;
    let ghost view = |b: Vec<u8>| b@;
    proof {
        assert(out@.map_values(view) =~= seq![]);
        match raw_frames(bytes@, 12, n as nat) {
            None => {},
            Some(f) => {
                assert(seq![] + f =~= f);
            },
        }
    }
    while k < n
        invariant
            k <= n,
            total == bytes@.len(),
            12 <= pos <= total,
            view == (|b: Vec<u8>| b@),
            raw_frames(bytes@, 12, n as nat) == (match raw_frames(
                bytes@,
                pos as int,
                (n - k) as nat,
            ) {
                None => None::<Seq<Seq<u8>>>,
                Some(rest) => Some(out@.map_values(view) + rest),
            }),
        decreases n - k,
    {
        if total - pos < 4 {
            return None;
        }
        let len: usize = get_u32(bytes, pos) as usize;
        if total - pos - 4 < len {
            return None;
        }
        let next: usize = pos + 4 + len;
        let frame: Vec<u8> = part(bytes, pos + 4, next);
        let ghost before = out@;
        let ghost f = frame@;
        out.push(frame);
        proof {
            assert(out@.map_values(view) =~= before.map_values(view).push(f));
            match raw_frames(bytes@, next as int, (n - k - 1) as nat) {
                None => {},
                Some(rest) => {
                    assert(before.map_values(view) + (seq![f] + rest) =~= out@.map_values(view)
                        + rest);
                },
            }
        }
        pos = next;
        k += 1;
    }
    assert(out@.map_values(view) + Seq::<Seq<u8>>::empty() =~= out@.map_values(view));
    Some(out)
}

impl DeltaLog {
    /// The updates held, as a bundle.
    pub fn dump(&self) -> (out: Vec<u8>)
        ensures
            out@ == bundle::bundle_bytes(self@.seq, frames_held(self@.entries)),
    {
        let n: usize = self.log.len();
        let ghost frames = frames_held(self@.entries);
        let mut out: Vec<u8> = bundle_head(self.seq, n as u32);
        let ghost head = out@;
        let mut i: usize = 0;
        assert(frames.take(0) =~= seq![]);
        assert(out@ =~= head + bundle::frames_bytes(frames.take(0)));
        while i < n
            invariant
                n == self.log@.len(),
                i <= n,
                frames == frames_held(self@.entries),
                out@ == head + bundle::frames_bytes(frames.take(i as int)),
            decreases n - i,
        {
            push_frame(&mut out, &self.log[i].bytes);
            proof {
                assert(self@.entries[i as int] == self.log@[i as int]@);
                bundle::lemma_frames_push(frames.take(i as int), frames[i as int]);
                assert(frames.take(i + 1) =~= frames.take(i as int).push(frames[i as int]));
                assert(out@ =~= head + bundle::frames_bytes(frames.take(i + 1)));
            }
            i += 1;
        }
        assert(frames.take(n as int) =~= frames);
        out
    }

    /// The runs that they came from, a line each.
    pub fn dump_names(&self) -> (s: String)
        ensures
            s@ == names_text(self@.entries),
    {
        let mut s: String = String::new();
        let mut i: usize = 0;
        let ghost all = self@.entries;
        assert(all.skip(0) =~= all);
        assert(s@ + names_text(all) =~= names_text(all));
        while i < self.log.len()
            invariant
                i <= self.log@.len(),
                all == entries_of(self.log@),
                s@ + names_text(all.skip(i as int)) == names_text(all),
            decreases self.log@.len() - i,
        {
            let ghost before = s@;
            assert(all[i as int] == self.log@[i as int]@);
            push_name(&mut s, self.log[i].from.as_str());
            s.push('\n');
            proof {
                let rest = all.skip(i as int);
                assert(rest[0] == all[i as int]);
                assert(rest.skip(1) =~= all.skip(i + 1));
                assert(s@ + names_text(all.skip(i + 1)) =~= before + names_text(rest));
            }
            i += 1;
        }
        assert(s@ =~= names_text(all));
        s
    }

    /// The log that a dump holds, if it holds one.
    pub fn restore(bytes: &[u8], names: &str, now: u64) -> (res: Option<DeltaLog>)
        ensures
            match restored(bytes@, names@, now) {
                None => res is None,
                Some(l) => res matches Some(log) && log.wf() && log@ == l,
            },
    {
        if bytes.len() < 12 {
            return None;
        }
        let seq: u64 = get_u64(bytes, 0);
        let n: u32 = get_u32(bytes, 8);
        let frames: Vec<Vec<u8>> = match read_raw(bytes, n) {
            None => {
                return None;
            },
            Some(f) => f,
        };
        let cs: Vec<char> = to_chars(names);
        let from: Vec<Vec<char>> = split_lines(cs.as_slice());
        let ghost fv = frames@.map_values(|b: Vec<u8>| b@);
        let ghost nv = text::texts(from@);
        proof {
            lemma_raw_len(bytes@, 12, n as nat);
            assert(fv.len() == frames@.len());
            assert(nv.len() == from@.len());
        }
        if from.len() != n as usize || n as u64 > seq {
            return None;
        }
        let ghost want = restored(bytes@, names@, now)->0;
        proof {
            lemma_raw_total(bytes@, 12, n as nat, want.entries);
            assert(bytes@.len() == bytes.len());
        }
        let mut l: DeltaLog = DeltaLog::new(seq - n as u64, now);
        let mut i: u32 = 0;
        assert(l@.entries =~= want.entries.take(0));
        while i < n
            invariant
                i <= n <= seq,
                n == frames@.len(),
                n == from@.len(),
                fv == frames@.map_values(|b: Vec<u8>| b@),
                nv == text::texts(from@),
                restored(bytes@, names@, now) == Some(want),
                total_bytes(want.entries) <= usize::MAX,
                want.seq == seq,
                want.saved_seq == seq,
                want.saved_at == now,
                want.entries.len() == n,
                forall|k: int|
                    0 <= k < n ==> #[trigger] want.entries[k] == (DeltaView {
                        seq: (seq - n + 1 + k) as u64,
                        from: read_name(nv[k]),
                        bytes: fv[k],
                        at: now,
                    }),
                l.wf(),
                l@.seq == seq - n + i,
                l@.saved_at == now,
                l@.entries == want.entries.take(i as int),
            decreases n - i,
        {
            let bytes: Vec<u8> = part(frames[i as usize].as_slice(), 0, frames[i as usize].len());
            proof {
                assert(fv[i as int] == frames@[i as int]@);
                assert(nv[i as int] == from@[i as int]@);
                assert(bytes@ =~= fv[i as int]);
                assert(want.entries[i as int].bytes == fv[i as int]);
                assert(want.entries.take(i + 1) =~= want.entries.take(i as int).push(
                    want.entries[i as int],
                ));
                lemma_total_push(want.entries.take(i as int), want.entries[i as int]);
                lemma_total_prefix(want.entries, i + 1);
            }
            let name: String = to_text(spell(from[i as usize].as_slice()).as_slice());
            let _ = l.push(name, bytes, now);
            i += 1;
        }
        l.saved_seq = l.seq;
        proof {
            assert(want.entries.take(n as int) =~= want.entries);
            assert(l@ =~= want);
        }
        Some(l)
    }
}

proof fn lemma_raw_len(bytes: Seq<u8>, pos: int, n: nat)
    ensures
        raw_frames(bytes, pos, n) matches Some(f) ==> f.len() == n,
    decreases n,
{
    if n > 0 && !(pos + 4 > bytes.len() || pos + 4 + le::read32(bytes, pos) > bytes.len()) {
        lemma_raw_len(bytes, pos + 4 + le::read32(bytes, pos), (n - 1) as nat);
    }
}

proof fn lemma_raw_total(bytes: Seq<u8>, pos: int, n: nat, entries: Seq<DeltaView>)
    requires
        0 <= pos <= bytes.len(),
        entries.len() == n,
        raw_frames(bytes, pos, n) matches Some(f) && forall|k: int|
            0 <= k < n ==> (#[trigger] entries[k]).bytes == f[k],
    ensures
        total_bytes(entries) <= bytes.len() - pos,
    decreases n,
{
    if n > 0 {
        let f = raw_frames(bytes, pos, n)->0;
        let next = pos + 4 + le::read32(bytes, pos);
        let rest = raw_frames(bytes, next, (n - 1) as nat)->0;
        lemma_raw_len(bytes, next, (n - 1) as nat);
        assert forall|k: int| 0 <= k < n - 1 implies (#[trigger] entries.skip(1)[k]).bytes
            == rest[k] by {
            assert(entries.skip(1)[k] == entries[k + 1]);
            assert(f[k + 1] == rest[k]);
        }
        lemma_raw_total(bytes, next, (n - 1) as nat, entries.skip(1));
        assert(entries[0].bytes == f[0]);
        assert(f[0].len() == le::read32(bytes, pos));
    }
}

proof fn lemma_total_prefix(entries: Seq<DeltaView>, k: int)
    requires
        0 <= k <= entries.len(),
    ensures
        total_bytes(entries.take(k)) <= total_bytes(entries),
    decreases entries.len() - k,
{
    if k == entries.len() {
        assert(entries.take(k) =~= entries);
    } else {
        lemma_total_prefix(entries, k + 1);
        assert(entries.take(k + 1) =~= entries.take(k).push(entries[k]));
        lemma_total_push(entries.take(k), entries[k]);
    }
}

proof fn lemma_raw(bytes: Seq<u8>, pos: int, frames: Seq<Seq<u8>>)
    requires
        0 <= pos <= bytes.len(),
        forall|i: int| 0 <= i < frames.len() ==> (#[trigger] frames[i]).len() <= u32::MAX,
        bytes.skip(pos) == bundle::frames_bytes(frames),
    ensures
        raw_frames(bytes, pos, frames.len()) == Some(frames),
    decreases frames.len(),
{
    if frames.len() == 0 {
        assert(frames =~= seq![]);
    } else {
        let f = frames[0];
        let rest = frames.skip(1);
        let tail = bytes.skip(pos);
        let head = le::le32(f.len() as u32);
        assert(tail == head + f + bundle::frames_bytes(rest));
        assert(tail.len() == 4 + f.len() + bundle::frames_bytes(rest).len());
        assert(tail.len() == bytes.len() - pos);
        assert(bytes.subrange(pos, pos + 4) =~= head) by {
            assert forall|i: int| 0 <= i < 4 implies bytes[pos + i] == head[i] by {
                assert(tail[i] == bytes[pos + i]);
            }
        }
        le::lemma_read32(bytes, pos, f.len() as u32);
        let next = pos + 4 + f.len();
        assert(bytes.subrange(pos + 4, next) =~= f) by {
            assert forall|i: int| 0 <= i < f.len() implies bytes[pos + 4 + i] == f[i] by {
                assert(tail[4 + i] == bytes[pos + 4 + i]);
            }
        }
        assert(bytes.skip(next) =~= bundle::frames_bytes(rest)) by {
            let b = bundle::frames_bytes(rest);
            assert forall|i: int| 0 <= i < b.len() implies bytes[next + i] == b[i] by {
                assert(tail[4 + f.len() + i] == bytes[next + i]);
            }
        }
        assert forall|i: int| 0 <= i < rest.len() implies (#[trigger] rest[i]).len() <= u32::MAX by {
            assert(frames[i + 1].len() <= u32::MAX);
        }
        lemma_raw(bytes, next, rest);
        assert(frames =~= seq![f] + rest);
    }
}

proof fn lemma_names(entries: Seq<DeltaView>)
    ensures
        text::lines(names_text(entries)) == entries.map_values(|d: DeltaView| name_text(d.from)),
    decreases entries.len(),
{
    let all = entries.map_values(|d: DeltaView| name_text(d.from));
    if entries.len() == 0 {
        assert(all =~= seq![]);
    } else {
        let rest = entries.skip(1);
        let name = name_text(entries[0].from);
        names_read_back(entries[0].from);
        lemma_names(rest);
        text::lemma_first_line(name, names_text(rest));
        assert(text::without_return(name) == name) by {
            if name.len() > 0 {
                assert(name.contains(name[name.len() - 1]));
            }
        }
        assert(all =~= seq![name] + rest.map_values(|d: DeltaView| name_text(d.from)));
    }
}

/// A restarted coordinator has the log it had, so workers carry on: only the ages start anew.
pub proof fn restarts_keep_the_log(l: LogView, now: u64)
    requires
        l.valid(),
        l.entries.len() <= u32::MAX,
        forall|i: int|
            0 <= i < l.entries.len() ==> (#[trigger] l.entries[i]).bytes.len() <= u32::MAX,
    ensures
        ({
            let r = restored(
                bundle::bundle_bytes(l.seq, frames_held(l.entries)),
                names_text(l.entries),
                now,
            );
            &&& r matches Some(back)
            &&& back.seq == l.seq
            &&& back.saved_seq == l.seq
            &&& back.entries.len() == l.entries.len()
            &&& forall|i: int|
                0 <= i < l.entries.len() ==> #[trigger] back.entries[i] == (DeltaView {
                    at: now,
                    ..l.entries[i]
                })
        }),
{
    let frames = frames_held(l.entries);
    let bytes = bundle::bundle_bytes(l.seq, frames);
    let n = l.entries.len();
    assert(bytes.subrange(0, 8) =~= le::le64(l.seq));
    le::lemma_read64(bytes, 0, l.seq);
    assert(bytes.subrange(8, 12) =~= le::le32(n as u32));
    le::lemma_read32(bytes, 8, n as u32);
    assert(bytes.skip(12) =~= bundle::frames_bytes(frames));
    assert forall|i: int| 0 <= i < frames.len() implies (#[trigger] frames[i]).len() <= u32::MAX by {
        assert(l.entries[i].bytes.len() <= u32::MAX);
    }
    lemma_raw(bytes, 12, frames);
    lemma_names(l.entries);
    let back = restored(bytes, names_text(l.entries), now)->0;
    assert forall|i: int| 0 <= i < n implies #[trigger] back.entries[i] == (DeltaView {
        at: now,
        ..l.entries[i]
    }) by {
        assert(frames[i] == l.entries[i].bytes);
        assert(text::lines(names_text(l.entries))[i] == name_text(l.entries[i].from));
        names_read_back(l.entries[i].from);
    }
}

proof fn lemma_picked_alike(
    a: Seq<DeltaView>,
    b: Seq<DeltaView>,
    since: u64,
    me: Seq<char>,
    n: int,
)
    requires
        n <= a.len() == b.len(),
        forall|i: int|
            0 <= i < n ==> (#[trigger] a[i]).seq == b[i].seq && a[i].from == b[i].from
                && a[i].bytes == b[i].bytes,
    ensures
        picked(a, since, me, n) == picked(b, since, me, n),
    decreases n,
{
    if n > 0 {
        lemma_picked_alike(a, b, since, me, n - 1);
        assert(a[n - 1].seq == b[n - 1].seq);
    }
}

/// A restarted coordinator answers every worker as it would have before: who could be brought
/// up to date from the log still can, by the same bytes, and need not download the net again.
pub proof fn restarted_coordinators_answer_alike(l: LogView, now: u64, since: u64, me: Seq<char>)
    requires
        l.valid(),
        l.entries.len() <= u32::MAX,
        forall|i: int|
            0 <= i < l.entries.len() ==> (#[trigger] l.entries[i]).bytes.len() <= u32::MAX,
    ensures
        restored(
            bundle::bundle_bytes(l.seq, frames_held(l.entries)),
            names_text(l.entries),
            now,
        ) matches Some(back) && back.reaches(since) == l.reaches(since) && back.answer(since, me)
            == l.answer(since, me),
{
    restarts_keep_the_log(l, now);
    let back = restored(
        bundle::bundle_bytes(l.seq, frames_held(l.entries)),
        names_text(l.entries),
        now,
    )->0;
    lemma_picked_alike(back.entries, l.entries, since, me, l.entries.len() as int);
}

}
