//! The answer to a worker that asks for the deltas since an update: the master's update
//! number, the number of deltas, then each delta behind its length.

use crate::codec;
use crate::codec::{parse, Parsed};
use crate::le;
use crate::le::{get_u32, get_u64, push_u32, push_u64};
use crate::vecs::part;
use vstd::prelude::*;

verus! {

/// One delta behind its length.
pub open spec fn frame_bytes(frame: Seq<u8>) -> Seq<u8> {
    le::le32(frame.len() as u32) + frame
}

/// Deltas one after the other.
pub open spec fn frames_bytes(frames: Seq<Seq<u8>>) -> Seq<u8>
    decreases frames.len(),
{
    if frames.len() == 0 {
        seq![]
    } else {
        frame_bytes(frames[0]) + frames_bytes(frames.skip(1))
    }
}

/// The whole answer.
pub open spec fn bundle_bytes(seq: u64, frames: Seq<Seq<u8>>) -> Seq<u8> {
    le::le64(seq) + le::le32(frames.len() as u32) + frames_bytes(frames)
}

pub proof fn lemma_frames_push(frames: Seq<Seq<u8>>, frame: Seq<u8>)
    ensures
        frames_bytes(frames.push(frame)) == frames_bytes(frames) + frame_bytes(frame),
    decreases frames.len(),
{
    let all = frames.push(frame);
    if frames.len() == 0 {
        assert(all.skip(1) =~= seq![]);
        assert(frames_bytes(all.skip(1)) =~= seq![]);
        assert(frames_bytes(all) =~= frame_bytes(frame));
        assert(frames_bytes(frames) + frame_bytes(frame) =~= frame_bytes(frame));
    } else {
        assert(all.skip(1) =~= frames.skip(1).push(frame));
        lemma_frames_push(frames.skip(1), frame);
        assert(frames_bytes(all) =~= frames_bytes(frames) + frame_bytes(frame));
    }
}

/// Starts an answer of `n` deltas.
pub fn bundle_head(seq: u64, n: u32) -> (out: Vec<u8>)
    ensures
        out@ == le::le64(seq) + le::le32(n),
{
    let mut out: Vec<u8> = Vec::new();
    push_u64(&mut out, seq);
    push_u32(&mut out, n);
    assert(out@ =~= le::le64(seq) + le::le32(n));
    out
}

/// Adds a delta to an answer.
pub fn push_frame(out: &mut Vec<u8>, frame: &Vec<u8>)
    ensures
        final(out)@ == old(out)@ + frame_bytes(frame@),
{
    push_u32(out, frame.len() as u32);
    let ghost head = out@;
    let mut i: usize = 0;
    assert(out@ =~= head + frame@.take(0));
    while i < frame.len()
        invariant
            i <= frame@.len(),
            out@ == head + frame@.take(i as int),
        decreases frame@.len() - i,
    {
        out.push(frame[i]);
        i += 1;
        assert(out@ =~= head + frame@.take(i as int));
    }
    assert(frame@.take(i as int) =~= frame@);
    assert(out@ =~= old(out)@ + frame_bytes(frame@));
}

/// How the reading of an answer ended.
#[derive(Clone, Copy, Debug, PartialEq, Eq, Structural)]
pub enum End {
    /// Everything was there; the master is at this update.
    Complete(u64),
    /// The answer is cut short, or one of its deltas is.
    Malformed,
    /// A delta has an index that leaves 32 bits.
    IndexTooLarge,
}

/// The deltas that `n` frames from `pos` on hold up to the first bad one, and how it ended.
pub open spec fn frames_at(bytes: Seq<u8>, pos: int, n: nat, seq: u64) -> (
    Seq<Seq<(u32, u32)>>,
    End,
)
    decreases n,
{
    if n == 0 {
        (seq![], End::Complete(seq))
    } else if pos + 4 > bytes.len() || pos + 4 + le::read32(bytes, pos) > bytes.len() {
        (seq![], End::Malformed)
    } else {
        let next = pos + 4 + le::read32(bytes, pos);
        let frame = bytes.subrange(pos + 4, next);
        if !codec::indices_fit(frame) {
            (seq![], End::IndexTooLarge)
        } else {
            match codec::decoded(frame) {
                None => (seq![], End::Malformed),
                Some(d) => {
                    let (rest, end) = frames_at(bytes, next, (n - 1) as nat, seq);
                    (seq![d] + rest, end)
                },
            }
        }
    }
}

/// What a worker takes from an answer: the deltas it applies, and how the reading ended.
pub open spec fn pulled(bytes: Seq<u8>) -> (Seq<Seq<(u32, u32)>>, End) {
    if bytes.len() < 12 {
        (seq![], End::Malformed)
    } else {
        frames_at(bytes, 12, le::read32(bytes, 8) as nat, le::read64(bytes, 0))
    }
}

/// An answer as a worker reads it.
pub struct Pulled {
    pub deltas: Vec<Vec<(u32, u32)>>,
    pub end: End,
}

impl Pulled {
    /// The deltas' entries.
    pub open spec fn entries(self) -> Seq<Seq<(u32, u32)>> {
        self.deltas@.map_values(|d: Vec<(u32, u32)>| d@)
    }
}

proof fn lemma_entries_push(v: Seq<Vec<(u32, u32)>>, d: Vec<(u32, u32)>)
    ensures
        v.push(d).map_values(|d: Vec<(u32, u32)>| d@) == v.map_values(
            |d: Vec<(u32, u32)>| d@,
        ).push(d@),
{
    assert(v.push(d).map_values(|d: Vec<(u32, u32)>| d@) =~= v.map_values(
        |d: Vec<(u32, u32)>| d@,
    ).push(d@));
}

/// Reads an answer.
pub fn read_bundle(bytes: &[u8]) -> (res: Pulled)
    ensures
        res.entries() == pulled(bytes@).0,
        res.end == pulled(bytes@).1,
{
    let mut deltas: Vec<Vec<(u32, u32)>> = Vec::new();
    let total: usize = bytes.len();
    if total < 12 {
        let res: Pulled = Pulled { deltas, end: End::Malformed };
        assert(res.entries() =~= seq![]);
        return res;
    }
    let seq: u64 = get_u64(bytes, 0);
    let n: u32 = get_u32(bytes, 8);
    let mut pos: usize = 12;
    let mut k: u32 = 0;
    let ghost all = frames_at(bytes@, 12, n as nat, seq);
    let ghost got: Seq<Seq<(u32, u32)>> = seq![];
    assert(got + all.0 =~= all.0);
    assert(deltas@.map_values(|d: Vec<(u32, u32)>| d@) =~= got);
    while k < n
        invariant
            k <= n,
            total == bytes@.len(),
            12 <= pos <= total,
            got == deltas@.map_values(|d: Vec<(u32, u32)>| d@),
            all == pulled(bytes@),
            all.0 == got + frames_at(bytes@, pos as int, (n - k) as nat, seq).0,
            all.1 == frames_at(bytes@, pos as int, (n - k) as nat, seq).1,
        decreases n - k,
    {
        if total - pos < 4 {
            assert(got + Seq::<Seq<(u32, u32)>>::empty() =~= got);
            return Pulled { deltas, end: End::Malformed };
        }
        let len: usize = get_u32(bytes, pos) as usize;
        if total - pos - 4 < len {
            assert(got + Seq::<Seq<(u32, u32)>>::empty() =~= got);
            return Pulled { deltas, end: End::Malformed };
        }
        let next: usize = pos + 4 + len;
        let frame: Vec<u8> = part(bytes, pos + 4, next);
        match parse(frame.as_slice()) {
            Parsed::Delta(d) => {
                let ghost rest = frames_at(bytes@, next as int, (n - k - 1) as nat, seq).0;
                let ghost before = got;
                proof {
                    lemma_entries_push(deltas@, d);
                    got = got.push(d@);
                    assert(before + (seq![d@] + rest) =~= got + rest);
                }
                deltas.push(d);
            },
            Parsed::Malformed => {
                assert(got + Seq::<Seq<(u32, u32)>>::empty() =~= got);
                return Pulled { deltas, end: End::Malformed };
            },
            Parsed::IndexTooLarge => {
                assert(got + Seq::<Seq<(u32, u32)>>::empty() =~= got);
                return Pulled { deltas, end: End::IndexTooLarge };
            },
        }
        pos = next;
        k += 1;
    }
    assert(got + Seq::<Seq<(u32, u32)>>::empty() =~= got);
    Pulled { deltas, end: End::Complete(seq) }
}

/// Frames that hold the deltas `sent`.
pub open spec fn frames_of(sent: Seq<Seq<(u32, u32)>>) -> Seq<Seq<u8>> {
    sent.map_values(|d: Seq<(u32, u32)>| codec::encoded(d))
}

/// A delta that can be sent in one frame.
pub open spec fn sendable(d: Seq<(u32, u32)>) -> bool {
    &&& codec::in_order(d)
    &&& codec::all_round(d)
    &&& d.len() <= u32::MAX
    &&& codec::encoded(d).len() <= u32::MAX
}

proof fn lemma_frames(bytes: Seq<u8>, pos: int, sent: Seq<Seq<(u32, u32)>>, seq: u64)
    requires
        0 <= pos <= bytes.len(),
        forall|i: int| 0 <= i < sent.len() ==> sendable(#[trigger] sent[i]),
        bytes.skip(pos) == frames_bytes(frames_of(sent)),
    ensures
        frames_at(bytes, pos, sent.len(), seq) == (
            sent.map_values(|d: Seq<(u32, u32)>| codec::received(d)),
            End::Complete(seq),
        ),
    decreases sent.len(),
{
    let taken = sent.map_values(|d: Seq<(u32, u32)>| codec::received(d));
    if sent.len() == 0 {
        assert(taken =~= seq![]);
    } else {
        let d = sent[0];
        let rest = sent.skip(1);
        let frame = codec::encoded(d);
        let frames = frames_of(sent);
        let tail = bytes.skip(pos);
        assert(sendable(d));
        assert(frames[0] == frame);
        assert(frames.skip(1) =~= frames_of(rest));
        let head = le::le32(frame.len() as u32);
        assert(tail == head + frame + frames_bytes(frames_of(rest)));
        assert(tail.len() == 4 + frame.len() + frames_bytes(frames_of(rest)).len());
        assert(tail.len() == bytes.len() - pos);
        assert(bytes.subrange(pos, pos + 4) =~= head) by {
            assert forall|i: int| 0 <= i < 4 implies bytes[pos + i] == head[i] by {
                assert(tail[i] == bytes[pos + i]);
            }
        }
        le::lemma_read32(bytes, pos, frame.len() as u32);
        let next = pos + 4 + frame.len();
        assert(bytes.subrange(pos + 4, next) =~= frame) by {
            assert forall|i: int| 0 <= i < frame.len() implies bytes[pos + 4 + i] == frame[i] by {
                assert(tail[4 + i] == bytes[pos + 4 + i]);
            }
        }
        codec::encoding_then_decoding_rounds(d);
        assert(bytes.skip(next) =~= frames_bytes(frames_of(rest))) by {
            let f = frames_bytes(frames_of(rest));
            assert forall|i: int| 0 <= i < f.len() implies bytes[next + i] == f[i] by {
                assert(tail[4 + frame.len() + i] == bytes[next + i]);
            }
        }
        assert forall|i: int| 0 <= i < rest.len() implies sendable(#[trigger] rest[i]) by {
            assert(sendable(sent[i + 1]));
        }
        lemma_frames(bytes, next, rest, seq);
        assert(taken =~= seq![codec::received(d)] + rest.map_values(
            |d: Seq<(u32, u32)>| codec::received(d),
        ));
    }
}

/// A worker reads from an answer the master's update number and every delta in it.
pub proof fn bundling_then_reading_gives_every_delta(seq: u64, sent: Seq<Seq<(u32, u32)>>)
    requires
        sent.len() <= u32::MAX,
        forall|i: int| 0 <= i < sent.len() ==> sendable(#[trigger] sent[i]),
    ensures
        pulled(bundle_bytes(seq, frames_of(sent))) == (
            sent.map_values(|d: Seq<(u32, u32)>| codec::received(d)),
            End::Complete(seq),
        ),
{
    let bytes = bundle_bytes(seq, frames_of(sent));
    assert(bytes.subrange(0, 8) =~= le::le64(seq));
    le::lemma_read64(bytes, 0, seq);
    assert(bytes.subrange(8, 12) =~= le::le32(sent.len() as u32));
    le::lemma_read32(bytes, 8, sent.len() as u32);
    assert(bytes.skip(12) =~= frames_bytes(frames_of(sent)));
    lemma_frames(bytes, 12, sent, seq);
}

}
