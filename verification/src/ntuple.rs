//! N-tuple network over afterstates: 4 or 8 six-tuples x 8 board symmetries. A weight is the
//! 32-bit pattern of its floating-point value.
//!
//! The network can be split into stages by the largest tile on the board
//! (below 16384 / 16384 / 32768), each with its own weights, because endgame
//! positions want a very different evaluation from the opening.

use crate::board;
use crate::board::{cell_rank, max_rank, place, seen_ranks, Board};
use crate::learn::Rule;
use vstd::prelude::*;

verus! {

/// Cells are row-major, 0 = top-left.
pub const TUPLES_4: [[usize; 6]; 4] = [
    [0, 1, 2, 3, 4, 5],
    [4, 5, 6, 7, 8, 9],
    [0, 1, 2, 4, 5, 6],
    [4, 5, 6, 8, 9, 10],
];

pub const TUPLES_8: [[usize; 6]; 8] = [
    [0, 1, 2, 4, 5, 6],
    [4, 5, 6, 7, 8, 9],
    [0, 1, 2, 3, 4, 5],
    [2, 3, 4, 5, 6, 9],
    [0, 1, 2, 5, 9, 10],
    [3, 4, 5, 6, 7, 8],
    [1, 3, 4, 5, 6, 7],
    [0, 1, 4, 8, 9, 10],
];

/// The most tuples a network has.
pub const MAX_TUPLES: usize = 8;

/// Weights per tuple and stage: one for each filling of six cells with ranks.
pub const TUPLE_SIZE: usize = 0x100_0000;

/// Rank of the tile that opens stage 1 (16384); each rank above opens the next stage.
pub const FIRST_STAGE_RANK: u8 = 14;

/// The cell that symmetry `s` of the square moves cell `c` to: four turns, then the
/// mirror image of each.
pub open spec fn sym(s: int, c: int) -> int {
    let (r, k) = (c / 4, c % 4);
    if s == 0 {
        4 * r + k
    } else if s == 1 {
        4 * k + (3 - r)
    } else if s == 2 {
        4 * (3 - r) + (3 - k)
    } else if s == 3 {
        4 * (3 - k) + r
    } else if s == 4 {
        4 * r + (3 - k)
    } else if s == 5 {
        4 * (3 - k) + (3 - r)
    } else if s == 6 {
        4 * (3 - r) + k
    } else {
        4 * k + r
    }
}

/// Where each of the eight symmetries moves a cell.
pub fn symmetries(c: usize) -> (to: [usize; 8])
    requires
        c < 16,
    ensures
        forall|s: int| 0 <= s < 8 ==> #[trigger] to@[s] == sym(s, c as int) && to@[s] < 16,
{
    let r: usize = c / 4;
    let k: usize = c % 4;
    [
        4 * r + k,
        4 * k + (3 - r),
        4 * (3 - r) + (3 - k),
        4 * (3 - k) + r,
        4 * r + (3 - k),
        4 * (3 - k) + (3 - r),
        4 * (3 - r) + k,
        4 * k + r,
    ]
}

/// The largest rank from 1 to `n` that no cell holds.
pub open spec fn largest_missing(b: Board, n: int) -> Option<int>
    decreases n,
{
    if n <= 0 {
        None
    } else if !board::cells(b).contains(n as u8) {
        Some(n)
    } else {
        largest_missing(b, n - 1)
    }
}

/// A rank after the ranks above `m` have come down by one.
pub open spec fn lowered(r: u8, m: int) -> u8 {
    if r > m {
        (r - 1) as u8
    } else {
        r
    }
}

/// `nb` is the board as the network sees `b`.
pub open spec fn is_downgraded(b: Board, nb: Board) -> bool {
    if board::top_rank(b) < 15 {
        nb == b
    } else {
        match largest_missing(b, 14) {
            None => nb == b,
            Some(m) => forall|i: int|
                0 <= i < 16 ==> #[trigger] board::cell(nb, i) == lowered(board::cell(b, i), m),
        }
    }
}

/// The board as the network sees `b`.
pub open spec fn downgraded(b: Board) -> Board {
    choose|nb: Board| is_downgraded(b, nb)
}

proof fn lemma_downgraded_unique(b: Board, nb: Board)
    requires
        is_downgraded(b, nb),
    ensures
        nb == downgraded(b),
{
    let other = downgraded(b);
    assert(is_downgraded(b, other));
    if board::top_rank(b) >= 15 && largest_missing(b, 14) is Some {
        board::lemma_board_is_cells(nb, other);
    }
}

/// The network sees every board as some board.
pub proof fn lemma_downgraded_exists(b: Board)
    ensures
        is_downgraded(b, downgraded(b)),
{
    if board::top_rank(b) < 15 || largest_missing(b, 14) is None {
        assert(is_downgraded(b, b));
    } else {
        let m = largest_missing(b, 14).unwrap();
        let rs = Seq::new(16, |i: int| lowered(board::cell(b, i), m));
        assert forall|i: int| 0 <= i < 16 implies #[trigger] rs[i] < 16 by {
            board::lemma_cell_small(b, i);
            lemma_missing_range(b, 14);
        }
        board::lemma_board_of(rs, 16);
        let nb = board::board_of(rs, 16);
        assert forall|i: int| 0 <= i < 16 implies #[trigger] board::cell(nb, i) == lowered(
            board::cell(b, i),
            m,
        ) by {
            assert(board::cell(nb, i) == rs[i]);
        }
        assert(is_downgraded(b, nb));
    }
}

/// A missing rank is one of those asked about, and is indeed missing.
pub proof fn lemma_missing_range(b: Board, n: int)
    requires
        n <= 255,
    ensures
        largest_missing(b, n) matches Some(m) ==> 1 <= m <= n && !board::cells(b).contains(m as u8),
    decreases n,
{
    if n > 0 && board::cells(b).contains(n as u8) {
        lemma_missing_range(b, n - 1);
    }
}

/// Training never reaches 32768, so weights for that tile stay near 0 and the net would
/// refuse the merge that makes it. Boards holding 32768 are therefore valued as the same
/// board one step down: every tile above the largest missing rank is halved, which turns
/// the fresh 32768 (whose 16384 just merged away) into a familiar 16384 position.
pub fn downgrade(b: Board) -> (nb: Board)
    ensures
        is_downgraded(b, nb),
        nb == downgraded(b),
{
    if max_rank(b) < 15 {
        proof {
            lemma_downgraded_unique(b, b);
        }
        return b;
    }
    let seen: u16 = seen_ranks(b);
    let mut m: u16 = 14;
    while m > 0 && seen & (1u16 << m) != 0
        invariant
            m <= 14,
            largest_missing(b, 14) == largest_missing(b, m as int),
            forall|q: u16|
                q < 16 ==> (board::has_bit(seen, q) <==> #[trigger] board::cells(b).contains(
                    q as u8,
                )),
        decreases m,
    {
        assert(board::has_bit(seen, m) <==> board::cells(b).contains(m as u8));
        m -= 1;
    }
    assert(board::has_bit(seen, m) <==> board::cells(b).contains(m as u8));
    if m == 0 {
        proof {
            lemma_downgraded_unique(b, b);
        }
        return b;
    }
    let mut out: u64 = 0;
    let mut i: usize = 0;
    proof {
        board::lemma_empty_board();
    }
    while i < 16
        invariant
            i <= 16,
            1 <= m <= 14,
            forall|j: int|
                0 <= j < i ==> #[trigger] board::cell(out, j) == lowered(
                    board::cell(b, j),
                    m as int,
                ),
            forall|j: int| i <= j < 16 ==> #[trigger] board::cell(out, j) == 0,
        decreases 16 - i,
    {
        let r: u8 = cell_rank(b, i);
        let r: u8 = if r as u16 > m {
            r - 1
        } else {
            r
        };
        assert(board::cell(out, i as int) == 0);
        out = place(out, i, r);
        i += 1;
    }
    proof {
        lemma_downgraded_unique(b, out);
    }
    out
}

/// What shapes a network: its stages and its tuples of cells.
pub struct LayoutView {
    pub stages: nat,
    pub tuples: Seq<[usize; 6]>,
}

impl LayoutView {
    /// One to eight tuples of cells on the board, at least one stage, and a weight count
    /// that fits the machine.
    pub open spec fn valid(self) -> bool {
        &&& self.stages >= 1
        &&& valid_tuples(self.tuples)
        &&& self.size() <= usize::MAX
    }

    /// Weights per stage.
    pub open spec fn stage_size(self) -> nat {
        self.tuples.len() * (TUPLE_SIZE as nat)
    }

    /// Weights in all.
    pub open spec fn size(self) -> nat {
        self.stages * self.stage_size()
    }

    /// The stage that values `b`.
    pub open spec fn stage(self, b: Board) -> nat {
        let top = board::top_rank(b);
        let open = if top >= FIRST_STAGE_RANK {
            (top - FIRST_STAGE_RANK + 1) as nat
        } else {
            0
        };
        if open < self.stages {
            open
        } else {
            (self.stages - 1) as nat
        }
    }

    /// The weight for tuple `j / 8` under symmetry `j % 8`, of a board that is already as the
    /// network sees it.
    pub open spec fn index_of(self, b: Board, j: int) -> int {
        self.stage(b) * self.stage_size() + (j / 8) * TUPLE_SIZE + filling(
            b,
            self.tuples[j / 8],
            j % 8,
            6,
        )
    }

    /// The weights that value `b`, tuple by tuple and for each tuple symmetry by symmetry.
    pub open spec fn indices(self, b: Board) -> Seq<usize> {
        Seq::new(8 * self.tuples.len(), |j: int| self.index_of(downgraded(b), j) as usize)
    }
}

/// One to eight tuples of cells on the board.
pub open spec fn valid_tuples(tuples: Seq<[usize; 6]>) -> bool {
    &&& 1 <= tuples.len() <= MAX_TUPLES
    &&& forall|t: int, k: int| 0 <= t < tuples.len() && 0 <= k < 6 ==> #[trigger] tuples[t]@[k] < 16
}

/// The ranks in the first `n` cells of a tuple, moved by symmetry `s`, as a number in base 16.
pub open spec fn filling(b: Board, tuple: [usize; 6], s: int, n: int) -> int
    decreases n,
{
    if n <= 0 {
        0
    } else {
        filling(b, tuple, s, n - 1) * 16 + board::cell(b, sym(s, tuple@[n - 1] as int))
    }
}

/// A network's shape, with the cells of each tuple worked out for every symmetry.
pub struct Layout {
    stages: usize,
    tuples: Vec<[usize; 6]>,
    cells: Vec<[[usize; 6]; 8]>,
}

impl View for Layout {
    type V = LayoutView;

    closed spec fn view(&self) -> LayoutView {
        LayoutView { stages: self.stages as nat, tuples: self.tuples@ }
    }
}

impl Layout {
    pub closed spec fn wf(&self) -> bool {
        &&& self@.valid()
        &&& self.cells@.len() == self.tuples@.len()
        &&& forall|t: int, s: int, k: int|
            0 <= t < self.tuples@.len() && 0 <= s < 8 && 0 <= k < 6
                ==> #[trigger] self.cells@[t]@[s]@[k] == sym(s, self.tuples@[t]@[k] as int)
                && self.cells@[t]@[s]@[k] < 16
    }

    /// A layout with at least one stage.
    pub fn new(stages: usize, tuples: &[[usize; 6]]) -> (l: Layout)
        requires
            valid_tuples(tuples@),
            (if stages > 1 { stages as nat } else { 1 }) * (tuples@.len() * (TUPLE_SIZE as nat))
                <= usize::MAX,
        ensures
            l.wf(),
            l@.stages == if stages > 1 { stages as nat } else { 1 },
            l@.tuples == tuples@,
    {
        let mut cells: Vec<[[usize; 6]; 8]> = Vec::new();
        let mut own: Vec<[usize; 6]> = Vec::new();
        let mut t: usize = 0;
        while t < tuples.len()
            invariant
                t <= tuples@.len(),
                valid_tuples(tuples@),
                own@ == tuples@.take(t as int),
                cells@.len() == t,
                forall|u: int, s: int, k: int|
                    0 <= u < t && 0 <= s < 8 && 0 <= k < 6 ==> #[trigger] cells@[u]@[s]@[k] == sym(
                        s,
                        tuples@[u]@[k] as int,
                    ) && cells@[u]@[s]@[k] < 16,
            decreases tuples@.len() - t,
        {
            cells.push(tuple_cells(tuples[t]));
            own.push(tuples[t]);
            t += 1;
            assert(own@ =~= tuples@.take(t as int));
        }
        assert(own@ =~= tuples@);
        Layout { stages: if stages > 1 { stages } else { 1 }, tuples: own, cells }
    }
}

impl Layout {
    fn stage_size(&self) -> (n: usize)
        requires
            self.wf(),
        ensures
            n == self@.stage_size(),
            n >= TUPLE_SIZE,
    {
        proof {
            lemma_size_bounds(self@);
        }
        self.tuples.len() * TUPLE_SIZE
    }

    /// The number of weights.
    pub fn size(&self) -> (n: usize)
        requires
            self.wf(),
        ensures
            n == self@.size(),
    {
        proof {
            lemma_size_bounds(self@);
        }
        self.stages * self.stage_size()
    }

    pub fn tuple_count(&self) -> (n: usize)
        ensures
            n == self@.tuples.len(),
    {
        self.tuples.len()
    }

    pub fn stages(&self) -> (n: usize)
        ensures
            n == self@.stages,
    {
        self.stages
    }

    /// The tuples' cells.
    pub fn tuples(&self) -> (t: &Vec<[usize; 6]>)
        ensures
            t@ == self@.tuples,
    {
        &self.tuples
    }

    /// The stage that values `b`.
    pub fn stage(&self, b: Board) -> (s: usize)
        requires
            self.wf(),
        ensures
            s == self@.stage(b),
            s < self@.stages,
    {
        let open: usize = max_rank(b).saturating_sub(FIRST_STAGE_RANK - 1) as usize;
        if open < self.stages - 1 {
            open
        } else {
            self.stages - 1
        }
    }

    /// Writes the indices of the weights that value `b`, eight for each tuple, to the front of
    /// `out`, and returns how many there are.
    pub fn indices(&self, b: Board, out: &mut [usize; 64]) -> (n: usize)
        requires
            self.wf(),
        ensures
            n == 8 * self@.tuples.len(),
            n <= 64,
            final(out)@.take(n as int) == self@.indices(b),
            final(out)@.skip(n as int) == old(out)@.skip(n as int),
            forall|j: int| 0 <= j < n ==> #[trigger] final(out)@[j] < self@.size(),
    {
        let ghost old_b = b;
        let b: Board = downgrade(b);
        let ghost v = self@;
        proof {
            lemma_size_bounds(v);
            assert(v.stage(b) * v.stage_size() + v.stage_size() <= v.size());
        }
        let base: usize = self.stage(b) * self.stage_size();
        let mut n: usize = 0;
        let mut t: usize = 0;
        while t < self.tuples.len()
            invariant
                self.wf(),
                v == self@,
                t <= v.tuples.len(),
                n == 8 * t,
                base == v.stage(b) * v.stage_size(),
                base + v.stage_size() <= v.size() <= usize::MAX,
                forall|j: int|
                    0 <= j < n ==> #[trigger] out@[j] == v.index_of(b, j) && out@[j] < v.size(),
                forall|j: int| n <= j < 64 ==> #[trigger] out@[j] == old(out)@[j],
            decreases v.tuples.len() - t,
        {
            let mut s: usize = 0;
            while s < 8
                invariant
                    self.wf(),
                    v == self@,
                    t < v.tuples.len(),
                    s <= 8,
                    n == 8 * t + s,
                    base == v.stage(b) * v.stage_size(),
                    base + v.stage_size() <= v.size() <= usize::MAX,
                    forall|j: int|
                        0 <= j < n ==> #[trigger] out@[j] == v.index_of(b, j) && out@[j] < v.size(),
                    forall|j: int| n <= j < 64 ==> #[trigger] out@[j] == old(out)@[j],
                decreases 8 - s,
            {
                let f: usize = self.fill(b, t, s);
                proof {
                    assert(t * TUPLE_SIZE + TUPLE_SIZE <= v.stage_size()) by (nonlinear_arith)
                        requires
                            t < v.tuples.len(),
                            v.stage_size() == v.tuples.len() * (TUPLE_SIZE as nat),
                    ;
                    assert(n as int / 8 == t && n as int % 8 == s);
                }
                out[n] = base + t * TUPLE_SIZE + f;
                n += 1;
                s += 1;
            }
            t += 1;
        }
        assert(out@.take(n as int) =~= v.indices(old_b));
        assert(out@.skip(n as int) =~= old(out)@.skip(n as int));
        n
    }

    /// The ranks in a tuple's cells under a symmetry, as one number.
    fn fill(&self, b: Board, t: usize, s: usize) -> (f: usize)
        requires
            self.wf(),
            t < self@.tuples.len(),
            s < 8,
        ensures
            f == filling(b, self@.tuples[t as int], s as int, 6),
            f < TUPLE_SIZE,
    {
        let cs: [usize; 6] = self.cells[t][s];
        let mut idx: usize = 0;
        let mut k: usize = 0;
        while k < 6
            invariant
                k <= 6,
                s < 8,
                t < self.tuples@.len(),
                forall|i: int|
                    0 <= i < 6 ==> #[trigger] cs@[i] == sym(
                        s as int,
                        self.tuples@[t as int]@[i] as int,
                    ) && cs@[i] < 16,
                idx == filling(b, self.tuples@[t as int], s as int, k as int),
                k == 0 ==> idx == 0,
                k == 1 ==> idx < 0x10,
                k == 2 ==> idx < 0x100,
                k == 3 ==> idx < 0x1000,
                k == 4 ==> idx < 0x1_0000,
                k == 5 ==> idx < 0x10_0000,
                k == 6 ==> idx < 0x100_0000,
            decreases 6 - k,
        {
            idx = idx * 16 + cell_rank(b, cs[k]) as usize;
            k += 1;
        }
        idx
    }

    /// Adds stages up to `n`.
    fn grow(&mut self, n: usize)
        requires
            old(self).wf(),
            n >= old(self)@.stages,
            n * old(self)@.stage_size() <= usize::MAX,
        ensures
            final(self).wf(),
            final(self)@.stages == n,
            final(self)@.tuples == old(self)@.tuples,
    {
        self.stages = n;
    }
}

proof fn lemma_size_bounds(l: LayoutView)
    requires
        l.valid(),
    ensures
        TUPLE_SIZE <= l.stage_size() <= l.size() <= usize::MAX,
        forall|k: nat| k < l.stages ==> #[trigger] (k * l.stage_size()) + l.stage_size() <= l.size(),
{
    let (n, z) = (l.stages as int, l.stage_size() as int);
    assert(z >= TUPLE_SIZE) by (nonlinear_arith)
        requires
            z == l.tuples.len() * (TUPLE_SIZE as nat),
            l.tuples.len() >= 1,
    ;
    assert(z <= n * z) by (nonlinear_arith)
        requires
            n >= 1,
            z >= 0,
    ;
    assert forall|k: nat| k < l.stages implies #[trigger] (k * l.stage_size()) + l.stage_size()
        <= l.size() by {
        assert(k * z + z <= n * z) by (nonlinear_arith)
            requires
                k < n,
                z >= 0,
        ;
    }
}

/// A tuple's cells under each of the eight symmetries.
fn tuple_cells(tuple: [usize; 6]) -> (syms: [[usize; 6]; 8])
    requires
        forall|k: int| 0 <= k < 6 ==> #[trigger] tuple@[k] < 16,
    ensures
        forall|s: int, k: int|
            0 <= s < 8 && 0 <= k < 6 ==> #[trigger] syms@[s]@[k] == sym(s, tuple@[k] as int)
                && syms@[s]@[k] < 16,
{
    let mut syms: [[usize; 6]; 8] = [[0usize; 6]; 8];
    let mut s: usize = 0;
    while s < 8
        invariant
            s <= 8,
            forall|k: int| 0 <= k < 6 ==> #[trigger] tuple@[k] < 16,
            forall|q: int, k: int|
                0 <= q < s && 0 <= k < 6 ==> #[trigger] syms@[q]@[k] == sym(q, tuple@[k] as int)
                    && syms@[q]@[k] < 16,
        decreases 8 - s,
    {
        let mut moved: [usize; 6] = [0usize; 6];
        let mut k: usize = 0;
        while k < 6
            invariant
                k <= 6,
                s < 8,
                forall|i: int| 0 <= i < 6 ==> #[trigger] tuple@[i] < 16,
                forall|i: int|
                    0 <= i < k ==> #[trigger] moved@[i] == sym(s as int, tuple@[i] as int)
                        && moved@[i] < 16,
            decreases 6 - k,
        {
            let to: [usize; 8] = symmetries(tuple[k]);
            moved[k] = to[s];
            k += 1;
        }
        syms[s] = moved;
        s += 1;
    }
    syms
}

/// A network: its shape, its weights and its learning state.
pub struct NTupleView {
    pub layout: LayoutView,
    /// One weight per index, stage by stage and tuple by tuple.
    pub w: Seq<u32>,
    /// Temporal coherence accumulators (sum of errors, sum of |errors|) per weight; empty
    /// unless TC learning is enabled.
    pub tc: Seq<(u32, u32)>,
}

impl NTupleView {
    /// The weights that value `b`.
    pub open spec fn weights_of(self, b: Board) -> Seq<u32> {
        self.layout.indices(b).map_values(|i: usize| self.w[i as int])
    }
}

pub struct NTuple {
    layout: Layout,
    w: Vec<u32>,
    tc: Vec<(u32, u32)>,
}

impl View for NTuple {
    type V = NTupleView;

    closed spec fn view(&self) -> NTupleView {
        NTupleView { layout: self.layout@, w: self.w@, tc: self.tc@ }
    }
}

/// `sums` are the running totals of `ws`, added up from the left by `plus` from `zero` on.
pub open spec fn running_sums<F: Fn(u32, u32) -> u32>(
    plus: F,
    zero: u32,
    ws: Seq<u32>,
    sums: Seq<u32>,
) -> bool {
    &&& sums.len() == ws.len() + 1
    &&& sums[0] == zero
    &&& forall|k: int|
        #![trigger ws[k]]
        0 <= k < ws.len() ==> call_ensures(plus, (sums[k], ws[k]), sums[k + 1])
}

/// The accumulator of weight `i`, if it has one.
pub open spec fn accumulator(tc: Seq<(u32, u32)>, i: int) -> Option<(u32, u32)> {
    if i < tc.len() {
        Some(tc[i])
    } else {
        None
    }
}

/// One weight's learning step: weight `i` and, where it has one, its accumulator become what
/// the error `err` makes of them.
pub open spec fn learned_one<P, T, O>(
    rule: Rule<P, T, O>,
    alpha: u32,
    err: u32,
    i: int,
    from: (Seq<u32>, Seq<(u32, u32)>),
    to: (Seq<u32>, Seq<(u32, u32)>),
) -> bool where
    P: Fn(u32, u32) -> u32,
    T: Fn(u32, u32) -> u32,
    O: Fn(u32, u32) -> u32,
 {
    exists|out: (u32, Option<(u32, u32)>)|
        {
            &&& #[trigger] rule.is_learned(
                alpha,
                err,
                from.0[i],
                accumulator(from.1, i),
                out,
            )
            &&& to.0 == from.0.update(i, out.0)
            &&& to.1 == match out.1 {
                Some(t) => from.1.update(i, t),
                None => from.1,
            }
        }
}

/// `hist` is the network's learning state before, between and after the steps of the weights
/// `ixs`, taken in order.
pub open spec fn learned_all<P, T, O>(
    rule: Rule<P, T, O>,
    alpha: u32,
    err: u32,
    ixs: Seq<usize>,
    hist: Seq<(Seq<u32>, Seq<(u32, u32)>)>,
) -> bool where
    P: Fn(u32, u32) -> u32,
    T: Fn(u32, u32) -> u32,
    O: Fn(u32, u32) -> u32,
 {
    &&& hist.len() == ixs.len() + 1
    &&& forall|k: int|
        #![trigger ixs[k]]
        0 <= k < ixs.len() ==> learned_one(
            rule,
            alpha,
            err,
            ixs[k] as int,
            hist[k],
            hist[k + 1],
        )
}

/// The error `err` at `b` makes `to` of the network `from`.
pub open spec fn is_updated<P, T, O>(
    rule: Rule<P, T, O>,
    alpha: u32,
    err: u32,
    b: Board,
    from: NTupleView,
    to: NTupleView,
) -> bool where
    P: Fn(u32, u32) -> u32,
    T: Fn(u32, u32) -> u32,
    O: Fn(u32, u32) -> u32,
 {
    &&& to.layout == from.layout
    &&& exists|hist: Seq<(Seq<u32>, Seq<(u32, u32)>)>|
        {
            &&& #[trigger] learned_all(rule, alpha, err, from.layout.indices(b), hist)
            &&& hist.first() == (from.w, from.tc)
            &&& hist.last() == (to.w, to.tc)
        }
}

/// `v` is the value of `b`: its weights, added up by `plus` from `zero` on.
pub open spec fn is_value<F: Fn(u32, u32) -> u32>(
    plus: F,
    zero: u32,
    net: NTupleView,
    b: Board,
    v: u32,
) -> bool {
    exists|sums: Seq<u32>| #[trigger]
        running_sums(plus, zero, net.weights_of(b), sums) && v == sums.last()
}

/// One entry of a delta: weight `e.0`, if there is one, becomes its sum with `e.1`.
pub open spec fn added_one<F: Fn(u32, u32) -> u32>(
    plus: F,
    e: (u32, u32),
    from: Seq<u32>,
    to: Seq<u32>,
) -> bool {
    if e.0 < from.len() {
        exists|x: u32|
            #[trigger] call_ensures(plus, (from[e.0 as int], e.1), x) && to == from.update(
                e.0 as int,
                x,
            )
    } else {
        to == from
    }
}

/// `hist` is the weights before, between and after the entries of a delta, taken in order.
pub open spec fn added_all<F: Fn(u32, u32) -> u32>(
    plus: F,
    delta: Seq<(u32, u32)>,
    hist: Seq<Seq<u32>>,
) -> bool {
    &&& hist.len() == delta.len() + 1
    &&& forall|k: int|
        #![trigger delta[k]]
        0 <= k < delta.len() ==> added_one(plus, delta[k], hist[k], hist[k + 1])
}

/// The weights `w` become `to` when `delta` is added.
pub open spec fn is_added<F: Fn(u32, u32) -> u32>(
    plus: F,
    delta: Seq<(u32, u32)>,
    w: Seq<u32>,
    to: Seq<u32>,
) -> bool {
    exists|hist: Seq<Seq<u32>>| #[trigger]
        added_all(plus, delta, hist) && hist.first() == w && hist.last() == to
}

/// The bits of a floating-point zero of either sign.
pub open spec fn is_zero(bits: u32) -> bool {
    bits == 0 || bits == 0x8000_0000
}

/// The changes among the first `n` that are not zero, with their indices.
pub open spec fn nonzero_entries(ds: Seq<u32>, n: int) -> Seq<(u32, u32)>
    decreases n,
{
    if n <= 0 {
        seq![]
    } else if is_zero(ds[n - 1]) {
        nonzero_entries(ds, n - 1)
    } else {
        nonzero_entries(ds, n - 1).push(((n - 1) as u32, ds[n - 1]))
    }
}

/// Adds a delta into `v`, entry by entry; entries past its end are ignored.
pub fn add_into<F: Fn(u32, u32) -> u32>(v: &mut Vec<u32>, delta: &[(u32, u32)], plus: F)
    requires
        forall|x: u32, y: u32| call_requires(plus, (x, y)),
    ensures
        final(v)@.len() == old(v)@.len(),
        is_added(plus, delta@, old(v)@, final(v)@),
{
    let ghost mut hist: Seq<Seq<u32>> = seq![v@];
    let mut k: usize = 0;
    while k < delta.len()
        invariant
            forall|x: u32, y: u32| call_requires(plus, (x, y)),
            k <= delta@.len(),
            v@.len() == old(v)@.len(),
            added_all(plus, delta@.take(k as int), hist),
            hist.first() == old(v)@,
            hist.last() == v@,
        decreases delta@.len() - k,
    {
        let (i, d): (u32, u32) = delta[k];
        let ghost before = v@;
        if (i as usize) < v.len() {
            let x: u32 = plus(v[i as usize], d);
            v[i as usize] = x;
        }
        proof {
            let h0 = hist;
            hist = hist.push(v@);
            assert(added_one(plus, delta@[k as int], before, v@));
            let front = delta@.take(k + 1);
            assert forall|q: int| #![trigger front[q]] 0 <= q < front.len() implies added_one(
                plus,
                front[q],
                hist[q],
                hist[q + 1],
            ) by {
                if q < k {
                    assert(delta@.take(k as int)[q] == front[q]);
                    assert(hist[q] == h0[q] && hist[q + 1] == h0[q + 1]);
                }
            }
        }
        k += 1;
    }
    assert(delta@.take(k as int) =~= delta@);
}

impl NTuple {
    pub closed spec fn wf(&self) -> bool {
        &&& self.layout.wf()
        &&& self.w@.len() == self.layout@.size()
        &&& self.tc@.len() == 0 || self.tc@.len() == self.w@.len()
    }

    /// A network has its shape's weights, and accumulators for all of them or for none.
    pub proof fn lemma_wf(&self)
        requires
            self.wf(),
        ensures
            self@.layout.valid(),
            self@.w.len() == self@.layout.size(),
            self@.tc.len() == 0 || self@.tc.len() == self@.w.len(),
    {
    }

    /// A network whose weights are all `init`.
    pub fn new(init: u32, stages: usize, tuples: &[[usize; 6]]) -> (net: NTuple)
        requires
            valid_tuples(tuples@),
            (if stages > 1 { stages as nat } else { 1 }) * (tuples@.len() * (TUPLE_SIZE as nat))
                <= usize::MAX,
        ensures
            net.wf(),
            net@.layout.stages == if stages > 1 { stages as nat } else { 1 },
            net@.layout.tuples == tuples@,
            net@.w == Seq::new(net@.layout.size(), |i: int| init),
            net@.tc.len() == 0,
    {
        let layout: Layout = Layout::new(stages, tuples);
        let n: usize = layout.size();
        let w: Vec<u32> = vec![init; n];
        assert(w@ =~= Seq::new(layout@.size(), |i: int| init));
        NTuple { layout, w, tc: Vec::new() }
    }

    /// A network of the given shape and weights, without TC learning.
    pub fn from_parts(layout: Layout, w: Vec<u32>) -> (net: NTuple)
        requires
            layout.wf(),
            w@.len() == layout@.size(),
        ensures
            net.wf(),
            net@.layout == layout@,
            net@.w == w@,
            net@.tc.len() == 0,
    {
        NTuple { layout, w, tc: Vec::new() }
    }

    /// The weights, index by index.
    pub fn weights(&self) -> (w: &Vec<u32>)
        ensures
            w@ == self@.w,
    {
        &self.w
    }

    /// The network's shape.
    pub fn layout(&self) -> (l: &Layout)
        requires
            self.wf(),
        ensures
            l.wf(),
            l@ == self@.layout,
            l@.valid(),
    {
        &self.layout
    }

    pub fn tuple_count(&self) -> (n: usize)
        ensures
            n == self@.layout.tuples.len(),
    {
        self.layout.tuple_count()
    }

    pub fn stages(&self) -> (n: usize)
        ensures
            n == self@.layout.stages,
    {
        self.layout.stages()
    }

    /// The stage that values `b`.
    pub fn stage(&self, b: Board) -> (s: usize)
        requires
            self.wf(),
        ensures
            s == self@.layout.stage(b),
    {
        self.layout.stage(b)
    }

    pub fn tc_enabled(&self) -> (on: bool)
        ensures
            on == (self@.tc.len() > 0),
    {
        self.tc.len() > 0
    }

    /// Switches on temporal coherence learning: each weight's step is scaled by
    /// |sum of its errors| / sum of |errors|, so noisy weights slow down on their own.
    pub fn enable_tc(&mut self)
        requires
            old(self).wf(),
        ensures
            final(self).wf(),
            final(self)@.layout == old(self)@.layout,
            final(self)@.w == old(self)@.w,
            final(self)@.tc == Seq::new(old(self)@.w.len(), |i: int| (0u32, 0u32)),
    {
        let n: usize = self.w.len();
        let mut tc: Vec<(u32, u32)> = Vec::new();
        let mut i: usize = 0;
        while i < n
            invariant
                i <= n,
                tc@ == Seq::new(i as nat, |i: int| (0u32, 0u32)),
            decreases n - i,
        {
            tc.push((0, 0));
            i += 1;
            assert(tc@ =~= Seq::new(i as nat, |i: int| (0u32, 0u32)));
        }
        self.tc = tc;
    }

    /// Grows to `n` stages, seeding each new stage with a copy of the last existing one. Under
    /// TC learning the new weights' accumulators have seen no error yet.
    pub fn expand_stages(&mut self, n: usize)
        requires
            old(self).wf(),
            n * old(self)@.layout.stage_size() <= usize::MAX,
        ensures
            final(self).wf(),
            final(self)@.tc == grown(old(self)@.tc, final(self)@.w.len() as int),
            old(self)@.tc.len() > 0 ==> final(self)@.tc.len() == final(self)@.w.len(),
            final(self)@.layout.tuples == old(self)@.layout.tuples,
            final(self)@.layout.stages == if n > old(self)@.layout.stages {
                n as nat
            } else {
                old(self)@.layout.stages
            },
            final(self)@.w == expanded(
                old(self)@.w,
                old(self)@.layout.stage_size() as int,
                final(self)@.layout.size() as int,
            ),
    {
        if n <= self.layout.stages() {
            assert(self.w@ =~= expanded(
                self.w@,
                self.layout@.stage_size() as int,
                self.layout@.size() as int,
            ));
            assert(self.tc@ =~= grown(self.tc@, self.w@.len() as int));
            return;
        }
        let ghost w0 = self.w@;
        let ghost v0 = self.layout@;
        proof {
            lemma_size_bounds(v0);
            assert((v0.stages - 1) * v0.stage_size() + v0.stage_size() == v0.size())
                by (nonlinear_arith)
                requires
                    v0.size() == v0.stages * v0.stage_size(),
                    v0.stages >= 1,
            ;
            assert(v0.stages * v0.stage_size() <= n * v0.stage_size()) by (nonlinear_arith)
                requires
                    v0.stages <= n,
            ;
        }
        let size: usize = self.layout.stage_size();
        let last: usize = (self.layout.stages() - 1) * size;
        let total: usize = n * size;
        let ghost z = size as int;
        assert(w0.len() == last + z);
        while self.w.len() < total
            invariant
                w0.len() <= self.w@.len() <= total,
                total <= usize::MAX,
                size == z,
                z > 0,
                last >= 0,
                w0.len() == last + z,
                self.tc@ == old(self).tc@,
                self.layout == old(self).layout,
                self.w@ == expanded(w0, z, self.w@.len() as int),
            decreases total - self.w@.len(),
        {
            let i: usize = self.w.len() % size;
            let x: u32 = self.w[last + i];
            self.w.push(x);
            assert(self.w@ =~= expanded(w0, z, self.w@.len() as int));
        }
        if self.tc.len() > 0 {
            while self.tc.len() < total
                invariant
                    0 < old(self).tc@.len() <= self.tc@.len() <= total,
                    self.w@.len() == total,
                    self.layout == old(self).layout,
                    self.w@ == expanded(w0, z, total as int),
                    self.tc@ == grown(old(self).tc@, self.tc@.len() as int),
                decreases total - self.tc@.len(),
            {
                self.tc.push((0, 0));
                assert(self.tc@ =~= grown(old(self).tc@, self.tc@.len() as int));
            }
        }
        self.layout.grow(n);
    }
}

/// The weights `w` of stages of `z` weights each, continued up to `n` by copies of the last
/// stage.
pub open spec fn expanded(w: Seq<u32>, z: int, n: int) -> Seq<u32> {
    Seq::new(
        n as nat,
        |i: int|
            if i < w.len() {
                w[i]
            } else {
                w[w.len() - z + i % z]
            },
    )
}

/// The accumulators `tc`, continued up to `n` by such that have seen no error; none where there
/// were none.
pub open spec fn grown(tc: Seq<(u32, u32)>, n: int) -> Seq<(u32, u32)> {
    if tc.len() == 0 {
        tc
    } else {
        Seq::new(
            n as nat,
            |i: int|
                if i < tc.len() {
                    tc[i]
                } else {
                    (0u32, 0u32)
                },
        )
    }
}

impl NTuple {
    /// The value of `b`: the weights of its tuples, added up by `plus` from `zero` on.
    pub fn value<F: Fn(u32, u32) -> u32>(&self, b: Board, zero: u32, plus: &F) -> (v: u32)
        requires
            self.wf(),
            forall|x: u32, y: u32| call_requires(*plus, (x, y)),
        ensures
            is_value(*plus, zero, self@, b, v),
    {
        let mut ix: [usize; 64] = [0usize; 64];
        let n: usize = self.layout.indices(b, &mut ix);
        let ghost ws = self@.weights_of(b);
        let ghost mut sums: Seq<u32> = seq![zero];
        let mut sum: u32 = zero;
        let mut k: usize = 0;
        while k < n
            invariant
                self.wf(),
                forall|x: u32, y: u32| call_requires(*plus, (x, y)),
                k <= n <= 64,
                ix@.take(n as int) == self@.layout.indices(b),
                ws == self@.weights_of(b),
                forall|j: int| 0 <= j < n ==> #[trigger] ix@[j] < self@.layout.size(),
                running_sums(*plus, zero, ws.take(k as int), sums),
                sum == sums.last(),
                ws.len() == n,
            decreases n - k,
        {
            let x: u32 = self.w[ix[k]];
            assert(ix@.take(n as int)[k as int] == ix@[k as int]);
            assert(ws[k as int] == x);
            let ghost before = sum;
            sum = plus(sum, x);
            proof {
                let s0 = sums;
                sums = sums.push(sum);
                let front = ws.take(k + 1);
                assert forall|q: int| #![trigger front[q]] 0 <= q < front.len() implies call_ensures(
                    *plus,
                    (sums[q], front[q]),
                    sums[q + 1],
                ) by {
                    if q < k {
                        assert(ws.take(k as int)[q] == front[q]);
                        assert(sums[q] == s0[q] && sums[q + 1] == s0[q + 1]);
                    }
                }
            }
            k += 1;
        }
        assert(ws.take(k as int) =~= ws);
        assert(running_sums(*plus, zero, ws, sums));
        sum
    }

    /// Moves every weight that `b` touches by `alpha` times `err`, scaled per weight under TC
    /// learning.
    pub fn update<P, T, O>(&mut self, b: Board, alpha: u32, err: u32, rule: &Rule<P, T, O>) where
        P: Fn(u32, u32) -> u32,
        T: Fn(u32, u32) -> u32,
        O: Fn(u32, u32) -> u32,

        requires
            old(self).wf(),
            rule.total(),
        ensures
            final(self).wf(),
            is_updated(*rule, alpha, err, b, old(self)@, final(self)@),
            forall|i: int|
                0 <= i < old(self)@.w.len() && !old(self)@.layout.indices(b).contains(i as usize)
                    ==> #[trigger] final(self)@.w[i] == old(self)@.w[i],
    {
        let mut ix: [usize; 64] = [0usize; 64];
        let n: usize = self.layout.indices(b, &mut ix);
        let ghost ixs = self@.layout.indices(b);
        let ghost mut hist: Seq<(Seq<u32>, Seq<(u32, u32)>)> = seq![(self.w@, self.tc@)];
        let mut k: usize = 0;
        while k < n
            invariant
                self.wf(),
                self.layout == old(self).layout,
                rule.total(),
                k <= n <= 64,
                ixs == old(self)@.layout.indices(b),
                ix@.take(n as int) == ixs,
                ixs.len() == n,
                forall|j: int| 0 <= j < n ==> #[trigger] ix@[j] < self@.layout.size(),
                learned_all(*rule, alpha, err, ixs.take(k as int), hist),
                hist.first() == (old(self)@.w, old(self)@.tc),
                hist.last() == (self.w@, self.tc@),
                self.w@.len() == old(self)@.w.len(),
                forall|i: int|
                    0 <= i < old(self)@.w.len() && !ixs.contains(i as usize)
                        ==> #[trigger] self.w@[i] == old(self)@.w[i],
            decreases n - k,
        {
            let i: usize = ix[k];
            let ghost from = (self.w@, self.tc@);
            assert(ixs[k as int] == i);
            let x: u32 = self.w[i];
            let t: Option<(u32, u32)> = if i < self.tc.len() {
                Some(self.tc[i])
            } else {
                None
            };
            let (nx, nt): (u32, Option<(u32, u32)>) = rule.learned(alpha, err, x, t);
            if let Some(acc) = nt {
                self.tc[i] = acc;
            }
            self.w[i] = nx;
            proof {
                let to = (self.w@, self.tc@);
                assert(rule.is_learned(
                    alpha,
                    err,
                    from.0[i as int],
                    accumulator(from.1, i as int),
                    (nx, nt),
                ));
                assert(learned_one(*rule, alpha, err, i as int, from, to));
                let h0 = hist;
                hist = hist.push(to);
                let front = ixs.take(k + 1);
                assert forall|q: int| #![trigger front[q]] 0 <= q < front.len() implies learned_one(
                    *rule,
                    alpha,
                    err,
                    front[q] as int,
                    hist[q],
                    hist[q + 1],
                ) by {
                    if q < k {
                        assert(ixs.take(k as int)[q] == front[q]);
                        assert(hist[q] == h0[q] && hist[q + 1] == h0[q + 1]);
                    }
                }
            }
            k += 1;
        }
        assert(ixs.take(k as int) =~= ixs);
        assert(learned_all(*rule, alpha, err, ixs, hist));
    }

    /// The current weights, to diff against after some training.
    pub fn snapshot(&self) -> (w: Vec<u32>)
        ensures
            w@ == self@.w,
    {
        let w: Vec<u32> = self.w.clone();
        assert(w@ =~= self@.w);
        w
    }

    /// (index, current - base) for every weight that differs from `base`.
    pub fn diff<F: Fn(u32, u32) -> u32>(&self, base: &[u32], minus: F) -> (delta: Vec<(u32, u32)>)
        requires
            forall|x: u32, y: u32| call_requires(minus, (x, y)),
        ensures
            exists|ds: Seq<u32>|
                #![trigger nonzero_entries(ds, ds.len() as int)]
                is_diff(minus, self@.w, base@, ds) && delta@ == nonzero_entries(
                    ds,
                    ds.len() as int,
                ),
    {
        let mut delta: Vec<(u32, u32)> = Vec::new();
        let ghost mut ds: Seq<u32> = seq![];
        let mut i: usize = 0;
        while i < self.w.len() && i < base.len()
            invariant
                forall|x: u32, y: u32| call_requires(minus, (x, y)),
                i <= self.w@.len(),
                i <= base@.len(),
                ds.len() == i,
                forall|k: int|
                    0 <= k < i ==> call_ensures(minus, (self.w@[k], base@[k]), #[trigger] ds[k]),
                delta@ == nonzero_entries(ds, i as int),
            decreases self.w@.len() - i,
        {
            let d: u32 = minus(self.w[i], base[i]);
            proof {
                lemma_nonzero_prefix(ds, ds.push(d), i as int);
                ds = ds.push(d);
            }
            if d != 0 && d != 0x8000_0000 {
                delta.push((i as u32, d));
            }
            i += 1;
        }
        assert(is_diff(minus, self@.w, base@, ds));
        delta
    }

    /// Adds a delta from `diff` (another machine's training) into these weights.
    pub fn apply<F: Fn(u32, u32) -> u32>(&mut self, delta: &[(u32, u32)], plus: F)
        requires
            old(self).wf(),
            forall|x: u32, y: u32| call_requires(plus, (x, y)),
        ensures
            final(self).wf(),
            final(self)@.layout == old(self)@.layout,
            final(self)@.tc == old(self)@.tc,
            is_added(plus, delta@, old(self)@.w, final(self)@.w),
    {
        add_into(&mut self.w, delta, plus);
    }
}

/// `ds` are the differences of `w` and `base`, as far as both go.
pub open spec fn is_diff<F: Fn(u32, u32) -> u32>(
    minus: F,
    w: Seq<u32>,
    base: Seq<u32>,
    ds: Seq<u32>,
) -> bool {
    &&& ds.len() == if w.len() < base.len() {
        w.len()
    } else {
        base.len()
    }
    &&& forall|k: int| 0 <= k < ds.len() ==> call_ensures(minus, (w[k], base[k]), #[trigger] ds[k])
}

proof fn lemma_nonzero_prefix(a: Seq<u32>, b: Seq<u32>, n: int)
    requires
        n <= a.len(),
        n <= b.len(),
        forall|i: int| 0 <= i < n ==> a[i] == b[i],
    ensures
        nonzero_entries(a, n) == nonzero_entries(b, n),
    decreases n,
{
    if n > 0 {
        lemma_nonzero_prefix(a, b, n - 1);
    }
}

}
