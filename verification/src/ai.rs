//! The player: how deep its search goes, which boards it looks at and what it remembers; and
//! what the hand-tuned heuristic sees in a row. Values are bit patterns of 32-bit floats.

use crate::board;
use crate::board::{
    cell_rank, distinct_tiles, max_rank, place, transpose, Board, Dir, Tables,
};
use crate::episode;
use crate::episode::legal_moves;
use crate::floats;
use crate::floats::greater32;
use crate::row;
use std::collections::HashMap;
use vstd::prelude::*;

verus! {

/// Chances below one in ten thousand, as a 32-bit float's bits.
pub const CPROB_THRESH: u32 = 0x38D1_B717;

/// Deeper boards are not remembered.
pub const CACHE_DEPTH_LIMIT: u32 = 15;

/// The player's settings.
pub struct Ai {
    t: Tables,
    /// A network values the boards after moves, so points count on top.
    valued: bool,
    /// Fixed search depth in chance layers; None = the heuristic's adaptive depth.
    depth: Option<u32>,
    /// Deeper search once a 16384 is on the board, where the final merge chain is won or lost.
    endgame_depth: Option<u32>,
    /// Branches less likely than this are cut off and scored directly.
    cprob_thresh: u32,
}

/// The player's settings in plain values.
pub struct AiView {
    pub valued: bool,
    pub depth: Option<u32>,
    pub endgame_depth: Option<u32>,
    pub cprob_thresh: u32,
}

impl View for Ai {
    type V = AiView;

    closed spec fn view(&self) -> AiView {
        AiView {
            valued: self.valued,
            depth: self.depth,
            endgame_depth: self.endgame_depth,
            cprob_thresh: self.cprob_thresh,
        }
    }
}

impl AiView {
    /// How many chance layers the search goes on a board.
    pub open spec fn depth_limit(self, b: Board) -> int {
        if self.endgame_depth is Some && board::top_rank(b) >= 14 {
            self.endgame_depth->0 as int
        } else if self.depth is Some {
            self.depth->0 as int
        } else {
            let d = board::distinct_upto(b, 15) - 2;
            if d > 3 {
                d
            } else {
                3
            }
        }
    }

    /// A branch ends: it is too unlikely, or deep enough.
    pub open spec fn ends(self, cprob: u32, depth: int, limit: int) -> bool {
        floats::above32(self.cprob_thresh, cprob) || depth >= limit
    }
}

impl Ai {
    /// A player by the heuristic.
    pub fn new() -> (a: Ai)
        ensures
            a@ == (AiView {
                valued: false,
                depth: None,
                endgame_depth: None,
                cprob_thresh: CPROB_THRESH,
            }),
    {
        Ai {
            t: Tables::new(),
            valued: false,
            depth: None,
            endgame_depth: None,
            cprob_thresh: CPROB_THRESH,
        }
    }

    /// A player by a network, with a fixed depth of at least one.
    pub fn with_net(depth: u32) -> (a: Ai)
        ensures
            a@ == (AiView {
                valued: true,
                depth: Some(
                    if depth > 1 {
                        depth
                    } else {
                        1
                    },
                ),
                endgame_depth: None,
                cprob_thresh: CPROB_THRESH,
            }),
    {
        Ai {
            valued: true,
            depth: Some(
                if depth > 1 {
                    depth
                } else {
                    1
                },
            ),
            ..Ai::new()
        }
    }

    /// The player with another bound on chances, if one is given.
    pub fn with_cprob(self, c: Option<u32>) -> (a: Ai)
        ensures
            a@ == (AiView {
                cprob_thresh: match c {
                    Some(x) => x,
                    None => self@.cprob_thresh,
                },
                ..self@
            }),
    {
        match c {
            Some(x) => Ai { cprob_thresh: x, ..self },
            None => self,
        }
    }

    /// The player with another endgame depth.
    pub fn with_endgame_depth(self, d: Option<u32>) -> (a: Ai)
        ensures
            a@ == (AiView { endgame_depth: d, ..self@ }),
    {
        Ai { endgame_depth: d, ..self }
    }

    /// The tables that the player looks slides up in.
    pub closed spec fn slides(self) -> Tables {
        self.t
    }

    pub fn tables(&self) -> (t: &Tables)
        ensures
            *t == self.slides(),
    {
        &self.t
    }

    /// What a move is worth on top of the board after it: its points under a network, else
    /// nothing.
    pub fn reward(&self, points: u32) -> (r: u32)
        ensures
            r == if self@.valued {
                points
            } else {
                0
            },
    {
        if self.valued {
            points
        } else {
            0
        }
    }

    /// How many chance layers the search goes.
    pub fn depth_limit(&self, b: Board) -> (d: u32)
        ensures
            d == self@.depth_limit(b),
    {
        if let Some(e) = self.endgame_depth {
            if max_rank(b) >= 14 {
                return e;
            }
        }
        if let Some(d) = self.depth {
            return d;
        }
        let n: u32 = distinct_tiles(b);
        if n > 5 {
            n - 2
        } else {
            3
        }
    }

    /// Whether a branch ends and is scored directly.
    pub fn ends_branch(&self, cprob: u32, depth: u32, limit: u32) -> (yes: bool)
        ensures
            yes == self@.ends(cprob, depth as int, limit as int),
    {
        greater32(self.cprob_thresh, cprob) || depth >= limit
    }

    /// The legal moves, in the order in which they are tried.
    pub fn options(&self, b: Board) -> (out: Vec<(Dir, Board, u32)>)
        ensures
            out@ == episode::moves(b, 4),
    {
        legal_moves(&self.t, b)
    }
}

/// The places of the empty cells among the first `n`.
pub open spec fn empties(b: Board, n: int) -> Seq<int>
    decreases n,
{
    if n <= 0 {
        seq![]
    } else if board::cell(b, n - 1) == 0 {
        empties(b, n - 1).push(n - 1)
    } else {
        empties(b, n - 1)
    }
}

/// The rank of new tile `j`: a 2 and a 4 take turns.
pub open spec fn new_rank(j: int) -> int {
    if j % 2 == 0 {
        1
    } else {
        2
    }
}

pub proof fn lemma_empties(b: Board, n: int)
    requires
        0 <= n <= 16,
    ensures
        empties(b, n).len() == board::count_in(board::cells(b).take(n), 0),
        empties(b, n).len() <= n,
        forall|k: int|
            0 <= k < empties(b, n).len() ==> 0 <= #[trigger] empties(b, n)[k] < n && board::cell(
                b,
                empties(b, n)[k],
            ) == 0,
    decreases n,
{
    if n == 0 {
        assert(board::cells(b).take(0) =~= seq![]);
    } else {
        lemma_empties(b, n - 1);
        board::lemma_count_step(board::cells(b), 0, n - 1);
    }
}

/// Every board that a new tile can lead to, and whether the tile is a 4: for each empty cell in
/// order, with a 2 and with a 4.
pub fn chance_children(b: Board) -> (out: Vec<(Board, bool)>)
    ensures
        out@.len() == 2 * empties(b, 16).len(),
        out@.len() == 2 * board::count_in(board::cells(b), 0),
        forall|j: int|
            0 <= j < out@.len() ==> board::is_placed(
                b,
                empties(b, 16)[j / 2],
                new_rank(j),
                (#[trigger] out@[j]).0,
            ) && out@[j].1 == (j % 2 == 1),
{
    let mut out: Vec<(Board, bool)> = Vec::new();
    let mut i: usize = 0;
    while i < 16
        invariant
            i <= 16,
            out@.len() == 2 * empties(b, i as int).len(),
            forall|j: int|
                0 <= j < out@.len() ==> board::is_placed(
                    b,
                    empties(b, i as int)[j / 2],
                    new_rank(j),
                    (#[trigger] out@[j]).0,
                ) && out@[j].1 == (j % 2 == 1),
        decreases 16 - i,
    {
        if cell_rank(b, i) == 0 {
            let two: Board = place(b, i, 1);
            let four: Board = place(b, i, 2);
            let ghost before = out@;
            out.push((two, false));
            out.push((four, true));
            assert forall|j: int| 0 <= j < out@.len() implies board::is_placed(
                b,
                empties(b, i + 1)[j / 2],
                new_rank(j),
                (#[trigger] out@[j]).0,
            ) && out@[j].1 == (j % 2 == 1) by {
                if j < before.len() {
                    assert(out@[j] == before[j]);
                    assert(empties(b, i + 1)[j / 2] == empties(b, i as int)[j / 2]);
                } else {
                    assert(empties(b, i + 1)[j / 2] == i);
                }
            }
        }
        i += 1;
    }
    proof {
        lemma_empties(b, 16);
        assert(board::cells(b).take(16) =~= board::cells(b));
    }
    out
}

/// The rows whose heuristic values make up a board's: its four rows, then its four columns.
pub fn scored_rows(b: Board) -> (rows: [u16; 8])
    ensures
        forall|k: int| 0 <= k < 4 ==> #[trigger] rows@[k] == board::row_of(b, k),
        exists|t: Board| #[trigger]
            board::is_transposed(b, t) && forall|k: int|
                0 <= k < 4 ==> rows@[4 + k] == #[trigger] board::row_of(t, k),
{
    let t: Board = transpose(b);
    assert(board::is_transposed(b, t));
    let rows: [u16; 8] = [
        nth_row(b, 0),
        nth_row(b, 1),
        nth_row(b, 2),
        nth_row(b, 3),
        nth_row(t, 0),
        nth_row(t, 1),
        nth_row(t, 2),
        nth_row(t, 3),
    ];
    rows
}

fn nth_row(b: Board, r: u64) -> (row: u16)
    requires
        r < 4,
    ensures
        row == board::row_of(b, r as int),
{
    ((b >> (16 * r)) & 0xFFFF) as u16
}

/// What the search remembers: for a board, the depth it was valued at and its value.
pub struct Memory {
    tt: HashMap<u64, (u32, u32)>,
}

impl View for Memory {
    type V = Map<u64, (u32, u32)>;

    closed spec fn view(&self) -> Map<u64, (u32, u32)> {
        self.tt@
    }
}

impl Memory {
    pub fn new() -> (m: Memory)
        ensures
            m@ == Map::<u64, (u32, u32)>::empty(),
    {
        Memory { tt: HashMap::new() }
    }

    /// A board's value from a search that went at least as far from it, if there was one.
    pub fn recall(&self, b: Board, depth: u32) -> (v: Option<u32>)
        ensures
            v == if depth < CACHE_DEPTH_LIMIT && self@.contains_key(b) && self@[b].0 <= depth {
                Some(self@[b].1)
            } else {
                None
            },
    {
        broadcast use vstd::std_specs::hash::group_hash_axioms;

        if depth < CACHE_DEPTH_LIMIT {
            match self.tt.get(&b) {
                Some(e) => {
                    if e.0 <= depth {
                        return Some(e.1);
                    }
                },
                None => {},
            }
        }
        None
    }

    /// Remembers a board's value, but for boards too deep.
    pub fn keep(&mut self, b: Board, depth: u32, value: u32)
        ensures
            final(self)@ == if depth < CACHE_DEPTH_LIMIT {
                old(self)@.insert(b, (depth, value))
            } else {
                old(self)@
            },
    {
        broadcast use vstd::std_specs::hash::group_hash_axioms;

        if depth < CACHE_DEPTH_LIMIT {
            let _ = self.tt.insert(b, (depth, value));
        }
    }
}

/// What was remembered is recalled at its depth and deeper, and nowhere else.
pub proof fn memory_serves_deeper_searches(
    m: Map<u64, (u32, u32)>,
    b: Board,
    depth: u32,
    value: u32,
    later: u32,
)
    requires
        depth < CACHE_DEPTH_LIMIT,
    ensures
        ({
            let kept = m.insert(b, (depth, value));
            later < CACHE_DEPTH_LIMIT && kept.contains_key(b) && kept[b].0 <= later <==> depth
                <= later < CACHE_DEPTH_LIMIT
        }),
{
}

/// What the heuristic sees in a row.
#[derive(Clone, Copy, Debug, PartialEq, Eq, Structural)]
pub struct Features {
    /// Empty cells.
    pub empty: u32,
    /// Tiles next to an equal one, empty cells aside.
    pub merges: u32,
    /// How far the row falls, and how far it rises, in fourth powers of ranks.
    pub falls: u32,
    pub rises: u32,
}

/// Tile `i` has an equal neighbour.
pub open spec fn is_paired(ts: Seq<u8>, i: int) -> bool {
    (i > 0 && ts[i - 1] == ts[i]) || (i + 1 < ts.len() && ts[i + 1] == ts[i])
}

/// How many of the first `n` tiles have an equal neighbour.
pub open spec fn paired(ts: Seq<u8>, n: int) -> nat
    decreases n,
{
    if n <= 0 {
        0
    } else {
        paired(ts, n - 1) + if is_paired(ts, n - 1) {
            1nat
        } else {
            0nat
        }
    }
}

/// The fourth power of a rank.
pub open spec fn fourth(r: u8) -> int {
    r * r * r * r
}

/// How far a row falls over its first `n` cells.
pub open spec fn falls(l: Seq<u8>, n: int) -> int
    decreases n,
{
    if n <= 1 {
        0
    } else {
        falls(l, n - 1) + if l[n - 2] > l[n - 1] {
            fourth(l[n - 2]) - fourth(l[n - 1])
        } else {
            0
        }
    }
}

/// How far a row rises over its first `n` cells.
pub open spec fn rises(l: Seq<u8>, n: int) -> int
    decreases n,
{
    if n <= 1 {
        0
    } else {
        rises(l, n - 1) + if l[n - 2] > l[n - 1] {
            0
        } else {
            fourth(l[n - 1]) - fourth(l[n - 2])
        }
    }
}

/// The features of a row of ranks.
pub open spec fn is_features(l: Seq<u8>, f: Features) -> bool {
    &&& f.empty == board::count_in(l, 0)
    &&& f.merges == paired(row::tiles(l), row::tiles(l).len() as int)
    &&& f.falls == falls(l, 4)
    &&& f.rises == rises(l, 4)
}

/// The length of the run of equal tiles that ends a line, less one.
spec fn run(ts: Seq<u8>) -> nat
    decreases ts.len(),
{
    if ts.len() >= 2 && ts[ts.len() - 2] == ts.last() {
        run(ts.drop_last()) + 1
    } else {
        0
    }
}

proof fn lemma_paired_same(ts: Seq<u8>, x: u8, n: int)
    requires
        0 <= n < ts.len(),
    ensures
        paired(ts.push(x), n) == paired(ts, n),
    decreases n,
{
    if n > 0 {
        lemma_paired_same(ts, x, n - 1);
    }
}

/// What one more tile changes: equal to the last, it pairs, and so does the last one if it did
/// not before.
proof fn lemma_paired_push(ts: Seq<u8>, x: u8)
    ensures
        run(ts.push(x)) == if ts.len() > 0 && ts.last() == x {
            run(ts) + 1
        } else {
            0
        },
        paired(ts.push(x), (ts.len() + 1) as int) == paired(ts, ts.len() as int) + if ts.len() > 0
            && ts.last() == x {
            if run(ts) > 0 {
                1nat
            } else {
                2nat
            }
        } else {
            0nat
        },
{
    let all = ts.push(x);
    assert(all.drop_last() =~= ts);
    if ts.len() > 0 {
        let n = ts.len() as int;
        lemma_paired_same(ts, x, n - 1);
        assert(run(ts) > 0 <==> (n >= 2 && ts[n - 2] == ts[n - 1]));
        assert(is_paired(ts, n - 1) <==> (n >= 2 && ts[n - 2] == ts[n - 1]));
        assert(is_paired(all, n - 1) <==> (is_paired(ts, n - 1) || ts[n - 1] == x));
        assert(is_paired(all, n) <==> ts[n - 1] == x);
        assert(paired(all, n) == paired(all, n - 1) + if is_paired(all, n - 1) {
            1nat
        } else {
            0nat
        });
        assert(paired(ts, n) == paired(ts, n - 1) + if is_paired(ts, n - 1) {
            1nat
        } else {
            0nat
        });
    } else {
        reveal_with_fuel(paired, 2);
    }
}

fn fourth_power(r: u8) -> (p: u32)
    requires
        r < 16,
    ensures
        p == fourth(r),
        p <= 50625,
{
    let x: u32 = r as u32;
    assert(x * x <= 225 && x * x * x <= 3375 && x * x * x * x <= 50625) by (nonlinear_arith)
        requires
            x <= 15,
    ;
    x * x * x * x
}

/// What the heuristic sees in a row.
pub fn row_features(row: u16) -> (f: Features)
    ensures
        is_features(row::row_ranks(row), f),
{
    let ghost l = row::row_ranks(row);
    let mut empty: u32 = 0;
    let mut merges: u32 = 0;
    let mut prev: u8 = 0;
    let mut counter: u32 = 0;
    let mut line: [u8; 4] = [0; 4];
    let mut i: usize = 0;
    assert(l.take(0) =~= seq![]);
    assert(row::tiles(l.take(0)) =~= seq![]) by {
        reveal(Seq::filter);
    }
    while i < 4
        invariant
            i <= 4,
            l == row::row_ranks(row),
            l.len() == 4,
            empty <= i,
            empty == board::count_in(l.take(i as int), 0),
            forall|k: int| 0 <= k < i ==> #[trigger] line@[k] == l[k] && line@[k] < 16,
            counter <= i,
            merges + counter <= 2 * i,
            counter == run(row::tiles(l.take(i as int))),
            prev == if row::tiles(l.take(i as int)).len() > 0 {
                row::tiles(l.take(i as int)).last()
            } else {
                0
            },
            merges + (if counter > 0 {
                1 + counter
            } else {
                0
            }) == paired(
                row::tiles(l.take(i as int)),
                row::tiles(l.take(i as int)).len() as int,
            ),
        decreases 4 - i,
    {
        let r: u8 = ((row >> (4 * i as u16)) & 0xF) as u8;
        let ghost ts = row::tiles(l.take(i as int));
        proof {
            row::lemma_row_rank_small(row, i as int);
            row::lemma_tiles_step(l, i as int);
            board::lemma_count_step(l, 0, i as int);
            if r != 0 {
                lemma_paired_push(ts, r);
            }
        }
        line[i] = r;
        if r == 0 {
            empty += 1;
        } else {
            if prev == r {
                counter += 1;
            } else if counter > 0 {
                merges += 1 + counter;
                counter = 0;
            }
            prev = r;
        }
        i += 1;
    }
    if counter > 0 {
        merges += 1 + counter;
    }
    assert(l.take(4) =~= l);
    let mut down: u32 = 0;
    let mut up: u32 = 0;
    let mut n: usize = 1;
    while n < 4
        invariant
            1 <= n <= 4,
            l.len() == 4,
            forall|k: int| 0 <= k < 4 ==> #[trigger] line@[k] == l[k] && line@[k] < 16,
            down == falls(l, n as int),
            up == rises(l, n as int),
            down <= 50625 * n,
            up <= 50625 * n,
        decreases 4 - n,
    {
        assert(line@[n - 1] == l[n - 1] && line@[n as int] == l[n as int]);
        let a: u32 = fourth_power(line[n - 1]);
        let b: u32 = fourth_power(line[n]);
        proof {
            lemma_fourth_grows(line@[n - 1], line@[n as int]);
            lemma_fourth_grows(line@[n as int], line@[n - 1]);
        }
        if line[n - 1] > line[n] {
            down += a - b;
        } else {
            up += b - a;
        }
        n += 1;
    }
    Features { empty, merges, falls: down, rises: up }
}

proof fn lemma_fourth_grows(a: u8, b: u8)
    ensures
        a <= b ==> fourth(a) <= fourth(b),
{
    if a <= b {
        assert(a * a <= b * b && a * a * a <= b * b * b && a * a * a * a <= b * b * b * b)
            by (nonlinear_arith)
            requires
                a <= b,
        ;
    }
}

}
