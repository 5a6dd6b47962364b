//! The weights file: a magic word, the stages and tuples of the network, then one 32-bit
//! weight after the other. Files record their own tuples, so older nets with other shapes
//! still load.

use crate::le;
use crate::le::{get_u32, push_u32};
use crate::ntuple;
use crate::ntuple::{Layout, NTuple, NTupleView, TUPLES_4};
use vstd::prelude::*;
use vstd::slice::slice_subrange;

verus! {

/// Why a file is no network.
#[derive(Clone, Copy, Debug, PartialEq, Eq, Structural)]
pub enum LoadError {
    /// The file ends too early.
    Truncated,
    /// The magic word is unknown.
    NotWeights,
}

/// The magic word of version `v` of the format: "2048NT0" and the version's digit.
pub open spec fn magic(v: int) -> Seq<u8> {
    seq![50, 48, 52, 56, 78, 84, 48, (48 + v) as u8]
}

/// What a file says about the network before its weights start.
pub struct HeaderView {
    pub stages: nat,
    pub tuples: Seq<Seq<usize>>,
    /// Where the weights start.
    pub start: nat,
}

/// The tuples' cells as plain sequences.
pub open spec fn cell_lists(tuples: Seq<[usize; 6]>) -> Seq<Seq<usize>> {
    tuples.map_values(|t: [usize; 6]| t@)
}

/// The header of a file. The first two versions are for a fixed set of tuples, the first for
/// one stage.
pub open spec fn header_of(bytes: Seq<u8>) -> Result<HeaderView, LoadError> {
    if bytes.len() < 8 {
        Err(LoadError::Truncated)
    } else if bytes.take(8) == magic(1) {
        Ok(HeaderView { stages: 1, tuples: cell_lists(TUPLES_4@), start: 8 })
    } else if bytes.take(8) == magic(2) {
        if bytes.len() < 12 {
            Err(LoadError::Truncated)
        } else {
            Ok(
                HeaderView {
                    stages: le::read32(bytes, 8) as nat,
                    tuples: cell_lists(TUPLES_4@),
                    start: 12,
                },
            )
        }
    } else if bytes.take(8) == magic(3) {
        if bytes.len() < 16 || bytes.len() < 16 + 6 * le::read32(bytes, 12) {
            Err(LoadError::Truncated)
        } else {
            let n = le::read32(bytes, 12) as nat;
            Ok(
                HeaderView {
                    stages: le::read32(bytes, 8) as nat,
                    tuples: Seq::new(
                        n,
                        |t: int| Seq::new(6, |k: int| bytes[16 + 6 * t + k] as usize),
                    ),
                    start: 16 + 6 * n,
                },
            )
        }
    } else {
        Err(LoadError::NotWeights)
    }
}

impl HeaderView {
    /// The number of stages the network gets: at least one.
    pub open spec fn stage_count(self) -> nat {
        if self.stages > 1 {
            self.stages
        } else {
            1
        }
    }

    /// The number of weights the network has.
    pub open spec fn size(self) -> nat {
        self.stage_count() * (self.tuples.len() * (ntuple::TUPLE_SIZE as nat))
    }

    /// A network of this shape can be made: one to eight tuples of cells on the board, and a
    /// weight count that fits the machine.
    pub open spec fn shape_ok(self) -> bool {
        &&& 1 <= self.tuples.len() <= ntuple::MAX_TUPLES
        &&& forall|t: int, k: int|
            0 <= t < self.tuples.len() && 0 <= k < 6 ==> #[trigger] self.tuples[t][k] < 16
        &&& self.size() <= usize::MAX
    }
}

/// The header of a weights file.
pub struct Header {
    pub stages: usize,
    pub tuples: Vec<[usize; 6]>,
    pub start: usize,
}

impl View for Header {
    type V = HeaderView;

    open spec fn view(&self) -> HeaderView {
        HeaderView {
            stages: self.stages as nat,
            tuples: cell_lists(self.tuples@),
            start: self.start as nat,
        }
    }
}

fn is_magic(bytes: &[u8], v: u8) -> (yes: bool)
    requires
        bytes@.len() >= 8,
        v < 10,
    ensures
        yes == (bytes@.take(8) == magic(v as int)),
{
    let yes: bool = bytes[0] == 50 && bytes[1] == 48 && bytes[2] == 52 && bytes[3] == 56 && bytes[4]
        == 78 && bytes[5] == 84 && bytes[6] == 48 && bytes[7] == 48 + v;
    proof {
        let (a, m) = (bytes@.take(8), magic(v as int));
        if yes {
            assert(a =~= m);
        } else {
            assert(a[0] == bytes@[0] && a[1] == bytes@[1] && a[2] == bytes@[2] && a[3] == bytes@[3]
                && a[4] == bytes@[4] && a[5] == bytes@[5] && a[6] == bytes@[6] && a[7]
                == bytes@[7]);
        }
    }
    yes
}

/// The six cells whose numbers start at `pos`.
fn read_tuple(bytes: &[u8], pos: usize) -> (t: [usize; 6])
    requires
        pos + 6 <= bytes@.len(),
    ensures
        t@ == Seq::new(6, |k: int| bytes@[pos + k] as usize),
{
    let t: [usize; 6] = [
        bytes[pos] as usize,
        bytes[pos + 1] as usize,
        bytes[pos + 2] as usize,
        bytes[pos + 3] as usize,
        bytes[pos + 4] as usize,
        bytes[pos + 5] as usize,
    ];
    assert(t@ =~= Seq::new(6, |k: int| bytes@[pos + k] as usize));
    t
}

fn tuples_4() -> (v: Vec<[usize; 6]>)
    ensures
        v@ == TUPLES_4@,
{
    let all: [[usize; 6]; 4] = TUPLES_4;
    let mut v: Vec<[usize; 6]> = Vec::new();
    v.push(all[0]);
    v.push(all[1]);
    v.push(all[2]);
    v.push(all[3]);
    assert(v@ =~= TUPLES_4@);
    v
}

/// Reads a file's header.
pub fn read_header(bytes: &[u8]) -> (res: Result<Header, LoadError>)
    ensures
        match header_of(bytes@) {
            Ok(h) => res matches Ok(r) && r@ == h,
            Err(e) => res == Err::<Header, LoadError>(e),
        },
{
    if bytes.len() < 8 {
        return Err(LoadError::Truncated);
    }
    proof {
        assert(magic(1)[7] == 49 && magic(2)[7] == 50 && magic(3)[7] == 51);
    }
    if is_magic(bytes, 1) {
        return Ok(Header { stages: 1, tuples: tuples_4(), start: 8 });
    }
    if is_magic(bytes, 2) {
        if bytes.len() < 12 {
            return Err(LoadError::Truncated);
        }
        return Ok(Header { stages: get_u32(bytes, 8) as usize, tuples: tuples_4(), start: 12 });
    }
    if !is_magic(bytes, 3) {
        return Err(LoadError::NotWeights);
    }
    if bytes.len() < 16 {
        return Err(LoadError::Truncated);
    }
    let stages: usize = get_u32(bytes, 8) as usize;
    let n: usize = get_u32(bytes, 12) as usize;
    let total: usize = bytes.len();
    if (total - 16) / 6 < n {
        return Err(LoadError::Truncated);
    }
    let mut tuples: Vec<[usize; 6]> = Vec::new();
    let mut t: usize = 0;
    while t < n
        invariant
            t <= n,
            total == bytes@.len(),
            total >= 16 + 6 * n,
            tuples@.len() == t,
            forall|u: int|
                0 <= u < t ==> (#[trigger] tuples@[u])@ == Seq::new(
                    6,
                    |k: int| bytes@[16 + 6 * u + k] as usize,
                ),
        decreases n - t,
    {
        let cells: [usize; 6] = read_tuple(bytes, 16 + 6 * t);
        assert(cells@ =~= Seq::new(6, |k: int| bytes@[16 + 6 * t + k] as usize));
        tuples.push(cells);
        t += 1;
    }
    let h: Header = Header { stages, tuples, start: 16 + 6 * n };
    assert(h@.tuples =~= header_of(bytes@)->Ok_0.tuples);
    Ok(h)
}

impl Header {
    /// Whether a network of this shape can be made.
    pub fn shape_ok(&self) -> (ok: bool)
        ensures
            ok == self@.shape_ok(),
    {
        let n: usize = self.tuples.len();
        if n == 0 || n > ntuple::MAX_TUPLES {
            return false;
        }
        let mut t: usize = 0;
        while t < n
            invariant
                t <= n,
                n == self.tuples@.len(),
                forall|u: int, k: int|
                    0 <= u < t && 0 <= k < 6 ==> #[trigger] self.tuples@[u]@[k] < 16,
            decreases n - t,
        {
            let mut k: usize = 0;
            while k < 6
                invariant
                    k <= 6,
                    t < n,
                    n == self.tuples@.len(),
                    forall|u: int, q: int|
                        0 <= u < t && 0 <= q < 6 ==> #[trigger] self.tuples@[u]@[q] < 16,
                    forall|q: int| 0 <= q < k ==> #[trigger] self.tuples@[t as int]@[q] < 16,
                decreases 6 - k,
            {
                if self.tuples[t][k] >= 16 {
                    assert(self@.tuples[t as int][k as int] >= 16);
                    return false;
                }
                k += 1;
            }
            t += 1;
        }
        proof {
            assert forall|u: int, k: int|
                0 <= u < self@.tuples.len() && 0 <= k < 6 implies #[trigger] self@.tuples[u][k]
                < 16 by {
                assert(self.tuples@[u]@[k] < 16);
            }
            assert(n * ntuple::TUPLE_SIZE <= 0x800_0000) by (nonlinear_arith)
                requires
                    n <= ntuple::MAX_TUPLES,
            ;
        }
        let stages: usize = if self.stages > 1 {
            self.stages
        } else {
            1
        };
        let size: usize = n * ntuple::TUPLE_SIZE;
        stages.checked_mul(size).is_some()
    }
}

/// The weights that start at `pos`.
pub open spec fn weights_at(bytes: Seq<u8>, pos: int, n: nat) -> Seq<u32> {
    Seq::new(n, |i: int| le::read32(bytes, pos + 4 * i))
}

/// What loading a file gives.
pub open spec fn is_loaded(bytes: Seq<u8>, res: Result<NTupleView, LoadError>) -> bool {
    match header_of(bytes) {
        Err(e) => res == Err::<NTupleView, LoadError>(e),
        Ok(h) => if bytes.len() < h.start + 4 * h.size() {
            res == Err::<NTupleView, LoadError>(LoadError::Truncated)
        } else {
            res matches Ok(net) && {
                &&& net.layout.stages == h.stage_count()
                &&& cell_lists(net.layout.tuples) == h.tuples
                &&& net.w == weights_at(bytes, h.start as int, h.size())
                &&& net.tc.len() == 0
            }
        },
    }
}

impl NTuple {
    /// Loads a network from the bytes of a file. What follows the weights is ignored.
    pub fn load_from(bytes: &[u8]) -> (res: Result<NTuple, LoadError>)
        requires
            header_of(bytes@) matches Ok(h) ==> h.shape_ok(),
        ensures
            res matches Ok(net) ==> net.wf(),
            is_loaded(
                bytes@,
                match res {
                    Ok(net) => Ok(net@),
                    Err(e) => Err(e),
                },
            ),
    {
        let h: Header = match read_header(bytes) {
            Ok(h) => h,
            Err(e) => {
                return Err(e);
            },
        };
        proof {
            assert forall|t: int, k: int|
                0 <= t < h.tuples@.len() && 0 <= k < 6 implies #[trigger] h.tuples@[t]@[k] < 16 by {
                assert(h@.tuples[t][k] < 16);
            }
        }
        let layout: Layout = Layout::new(h.stages, h.tuples.as_slice());
        let n: usize = layout.size();
        assert(n == h@.size());
        let total: usize = bytes.len();
        if (total - h.start) / 4 < n {
            return Err(LoadError::Truncated);
        }
        let mut w: Vec<u32> = Vec::new();
        let mut i: usize = 0;
        while i < n
            invariant
                i <= n,
                total == bytes@.len(),
                total >= h.start + 4 * n,
                w@ == weights_at(bytes@, h.start as int, i as nat),
            decreases n - i,
        {
            w.push(get_u32(bytes, h.start + 4 * i));
            i += 1;
            assert(w@ =~= weights_at(bytes@, h.start as int, i as nat));
        }
        Ok(NTuple::from_parts(layout, w))
    }
}

/// The tuples' cells, one byte each.
pub open spec fn tuple_bytes(tuples: Seq<[usize; 6]>) -> Seq<u8> {
    Seq::new(6 * tuples.len(), |i: int| tuples[i / 6]@[i % 6] as u8)
}

/// Weights, four bytes each.
pub open spec fn weight_bytes(w: Seq<u32>) -> Seq<u8> {
    Seq::new(4 * w.len(), |i: int| le::le32(w[i / 4])[i % 4])
}

/// The file of a network.
pub open spec fn file_bytes(net: NTupleView) -> Seq<u8> {
    magic(3) + le::le32(net.layout.stages as u32) + le::le32(net.layout.tuples.len() as u32)
        + tuple_bytes(net.layout.tuples) + weight_bytes(net.w)
}

impl NTuple {
    /// The bytes of a network's file.
    pub fn save(&self) -> (bytes: Vec<u8>)
        requires
            self.wf(),
        ensures
            bytes@ == file_bytes(self@),
    {
        let mut v: Vec<u8> = Vec::new();
        v.push(50);
        v.push(48);
        v.push(52);
        v.push(56);
        v.push(78);
        v.push(84);
        v.push(48);
        v.push(51);
        assert(v@ =~= magic(3));
        let layout: &Layout = self.layout();
        push_u32(&mut v, layout.stages() as u32);
        push_u32(&mut v, layout.tuple_count() as u32);
        let tuples: &Vec<[usize; 6]> = layout.tuples();
        let ghost head = v@;
        let mut t: usize = 0;
        assert(v@ =~= head + tuple_bytes(tuples@.take(0)));
        while t < tuples.len()
            invariant
                t <= tuples@.len(),
                v@ == head + tuple_bytes(tuples@.take(t as int)),
            decreases tuples@.len() - t,
        {
            let cells: [usize; 6] = tuples[t];
            v.push(cells[0] as u8);
            v.push(cells[1] as u8);
            v.push(cells[2] as u8);
            v.push(cells[3] as u8);
            v.push(cells[4] as u8);
            v.push(cells[5] as u8);
            t += 1;
            assert(v@ =~= head + tuple_bytes(tuples@.take(t as int)));
        }
        assert(tuples@.take(t as int) =~= tuples@);
        let ghost head = v@;
        let w: &Vec<u32> = self.weights();
        let mut i: usize = 0;
        assert(v@ =~= head + weight_bytes(w@.take(0)));
        while i < w.len()
            invariant
                i <= w@.len(),
                v@ == head + weight_bytes(w@.take(i as int)),
            decreases w@.len() - i,
        {
            push_u32(&mut v, w[i]);
            i += 1;
            assert(v@ =~= head + weight_bytes(w@.take(i as int)));
        }
        assert(w@.take(i as int) =~= w@);
        v
    }
}

proof fn lemma_file_parts(net: NTupleView)
    ensures
        ({
            let f = file_bytes(net);
            let n = net.layout.tuples.len();
            &&& f.len() == 16 + 6 * n + 4 * net.w.len()
            &&& f.take(8) == magic(3)
            &&& f.subrange(8, 12) == le::le32(net.layout.stages as u32)
            &&& f.subrange(12, 16) == le::le32(n as u32)
            &&& forall|i: int| 0 <= i < 6 * n ==> #[trigger] f[16 + i] == tuple_bytes(net.layout.tuples)[i]
            &&& forall|i: int|
                0 <= i < 4 * net.w.len() ==> #[trigger] f[16 + 6 * n + i] == weight_bytes(net.w)[i]
        }),
{
    let f = file_bytes(net);
    assert(f.take(8) =~= magic(3));
    assert(f.subrange(8, 12) =~= le::le32(net.layout.stages as u32));
    assert(f.subrange(12, 16) =~= le::le32(net.layout.tuples.len() as u32));
}

/// A network's file can be loaded: its header tells the network's shape, and all weights are
/// there.
pub proof fn saved_files_can_be_loaded(net: NTupleView)
    requires
        net.layout.valid(),
        net.layout.stages <= u32::MAX,
        net.w.len() == net.layout.size(),
    ensures
        header_of(file_bytes(net)) matches Ok(h) && {
            &&& h.shape_ok()
            &&& h.stage_count() == net.layout.stages
            &&& h.tuples == cell_lists(net.layout.tuples)
            &&& h.size() == net.layout.size()
            &&& h.start == 16 + 6 * net.layout.tuples.len()
            &&& file_bytes(net).len() == h.start + 4 * h.size()
        },
{
    let f = file_bytes(net);
    let n = net.layout.tuples.len();
    lemma_file_parts(net);
    le::lemma_read32(f, 8, net.layout.stages as u32);
    le::lemma_read32(f, 12, n as u32);
    assert(magic(1)[7] == 49 && magic(2)[7] == 50 && magic(3)[7] == 51);
    let h = header_of(f)->Ok_0;
    assert(header_of(f) is Ok);
    assert forall|t: int| 0 <= t < n implies #[trigger] h.tuples[t] =~= net.layout.tuples[t]@ by {
        assert forall|k: int| 0 <= k < 6 implies h.tuples[t][k] == net.layout.tuples[t]@[k] by {
            let i = 6 * t + k;
            assert(i / 6 == t && i % 6 == k);
            assert(f[16 + i] == tuple_bytes(net.layout.tuples)[i]);
            assert(net.layout.tuples[t]@[k] < 16);
        }
    }
    assert(h.tuples =~= cell_lists(net.layout.tuples));
}

/// A network's file loads, and gives the network back: the same stages, tuples and weights.
pub proof fn saving_then_loading_keeps_the_network(net: NTupleView, res: Result<NTupleView, LoadError>)
    requires
        net.layout.valid(),
        net.layout.stages <= u32::MAX,
        net.w.len() == net.layout.size(),
        is_loaded(file_bytes(net), res),
    ensures
        res matches Ok(back) && back.layout.stages == net.layout.stages && cell_lists(
            back.layout.tuples,
        ) == cell_lists(net.layout.tuples) && back.w == net.w && back.tc.len() == 0,
{
    let f = file_bytes(net);
    let n = net.layout.tuples.len();
    lemma_file_parts(net);
    saved_files_can_be_loaded(net);
    let h = header_of(f)->Ok_0;
    let w = weights_at(f, h.start as int, h.size());
    assert forall|i: int| 0 <= i < net.w.len() implies #[trigger] w[i] == net.w[i] by {
        let p = h.start + 4 * i;
        assert(f.subrange(p, p + 4) =~= le::le32(net.w[i])) by {
            assert forall|k: int| 0 <= k < 4 implies f.subrange(p, p + 4)[k] == le::le32(net.w[i])[k] by {
                let j = 4 * i + k;
                assert(j / 4 == i && j % 4 == k);
                assert(f[16 + 6 * n + j] == weight_bytes(net.w)[j]);
            }
        }
        le::lemma_read32(f, p, net.w[i]);
    }
    assert(w =~= net.w);
}

/// A downloaded net: the update it holds, then its file.
pub fn load_download(bytes: &[u8]) -> (res: Result<(u64, NTuple), LoadError>)
    requires
        bytes@.len() >= 8 ==> (header_of(bytes@.skip(8)) matches Ok(h) ==> h.shape_ok()),
    ensures
        bytes@.len() < 8 ==> res matches Err(LoadError::Truncated),
        res matches Ok(got) ==> got.0 == le::read64(bytes@, 0) && got.1.wf(),
        bytes@.len() >= 8 ==> is_loaded(
            bytes@.skip(8),
            match res {
                Ok(got) => Ok(got.1@),
                Err(e) => Err(e),
            },
        ),
{
    if bytes.len() < 8 {
        return Err(LoadError::Truncated);
    }
    let file: &[u8] = slice_subrange(bytes, 8, bytes.len());
    assert(file@ =~= bytes@.skip(8));
    match NTuple::load_from(file) {
        Ok(net) => Ok((le::get_u64(bytes, 0), net)),
        Err(e) => Err(e),
    }
}

}
