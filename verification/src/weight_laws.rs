//! What a network's weights stand for: which boards share a weight, what a value adds up, and
//! which weights an error moves and how far.

use crate::board;
use crate::board::Board;
use crate::floats;
use crate::learn;
use crate::learn::Rule;
use crate::ntuple;
use crate::ntuple::{LayoutView, NTupleView};
use vstd::prelude::*;

verus! {

/// Two cells lie side by side or one above the other.
pub open spec fn are_neighbours(c: int, d: int) -> bool {
    ||| c / 4 == d / 4 && (c % 4 - d % 4 == 1 || d % 4 - c % 4 == 1)
    ||| c % 4 == d % 4 && (c / 4 - d / 4 == 1 || d / 4 - c / 4 == 1)
}

proof fn lemma_sym_parts(s: int, c: int)
    requires
        0 <= s < 8,
        0 <= c < 16,
    ensures
        ({
            let (r, k) = (c / 4, c % 4);
            let to = ntuple::sym(s, c);
            let (a, b) = if s == 0 {
                (r, k)
            } else if s == 1 {
                (k, 3 - r)
            } else if s == 2 {
                (3 - r, 3 - k)
            } else if s == 3 {
                (3 - k, r)
            } else if s == 4 {
                (r, 3 - k)
            } else if s == 5 {
                (3 - k, 3 - r)
            } else if s == 6 {
                (3 - r, k)
            } else {
                (k, r)
            };
            to == 4 * a + b && to / 4 == a && to % 4 == b && 0 <= to < 16
        }),
{
}

/// The symmetries are those of the square: each moves every cell of the board to a cell of its
/// own and keeps neighbours together, the first leaves all cells in place, and no two are the
/// same.
pub proof fn symmetries_keep_neighbours(s: int, c: int, d: int)
    requires
        0 <= s < 8,
        0 <= c < 16,
        0 <= d < 16,
    ensures
        0 <= ntuple::sym(s, c) < 16,
        ntuple::sym(s, c) == ntuple::sym(s, d) <==> c == d,
        are_neighbours(ntuple::sym(s, c), ntuple::sym(s, d)) <==> are_neighbours(c, d),
        ntuple::sym(0, c) == c,
{
    lemma_sym_parts(s, c);
    lemma_sym_parts(s, d);
}

/// No two of the eight symmetries are the same: they part on one of the first two cells.
pub proof fn symmetries_are_different(s: int, t: int)
    requires
        0 <= s < t < 8,
    ensures
        ntuple::sym(s, 0) != ntuple::sym(t, 0) || ntuple::sym(s, 1) != ntuple::sym(t, 1),
{
    lemma_sym_parts(s, 0);
    lemma_sym_parts(s, 1);
    lemma_sym_parts(t, 0);
    lemma_sym_parts(t, 1);
}

/// The place of cell `k` of six in a number in base 16: the first is the highest.
pub open spec fn place_value(k: int) -> int {
    if k == 0 {
        0x10_0000
    } else if k == 1 {
        0x1_0000
    } else if k == 2 {
        0x1000
    } else if k == 3 {
        0x100
    } else if k == 4 {
        0x10
    } else {
        1
    }
}

proof fn lemma_filling_sum(b: Board, tuple: [usize; 6], s: int)
    requires
        0 <= s < 8,
        forall|k: int| 0 <= k < 6 ==> #[trigger] tuple@[k] < 16,
    ensures
        ({
            let c = |k: int| board::cell(b, ntuple::sym(s, tuple@[k] as int)) as int;
            &&& ntuple::filling(b, tuple, s, 6) == 0x10_0000 * c(0) + 0x1_0000 * c(1) + 0x1000 * c(2)
                + 0x100 * c(3) + 0x10 * c(4) + c(5)
            &&& 0 <= c(0) < 16 && 0 <= c(1) < 16 && 0 <= c(2) < 16 && 0 <= c(3) < 16 && 0 <= c(4)
                < 16 && 0 <= c(5) < 16
        }),
{
    reveal_with_fuel(ntuple::filling, 7);
    assert forall|k: int| 0 <= k < 6 implies board::cell(
        b,
        ntuple::sym(s, #[trigger] tuple@[k] as int),
    ) < 16 by {
        lemma_sym_parts(s, tuple@[k] as int);
        board::lemma_cell_small(b, ntuple::sym(s, tuple@[k] as int));
    }
    assert(tuple@[0] < 16 && tuple@[1] < 16 && tuple@[2] < 16 && tuple@[3] < 16 && tuple@[4] < 16
        && tuple@[5] < 16);
}

proof fn lemma_digits(a: int, b: int, c: int, d: int, e: int, f: int)
    requires
        0 <= a < 16,
        0 <= b < 16,
        0 <= c < 16,
        0 <= d < 16,
        0 <= e < 16,
        0 <= f < 16,
    ensures
        ({
            let x = 0x10_0000 * a + 0x1_0000 * b + 0x1000 * c + 0x100 * d + 0x10 * e + f;
            &&& 0 <= x < 0x100_0000
            &&& (x / 0x10_0000) % 16 == a
            &&& (x / 0x1_0000) % 16 == b
            &&& (x / 0x1000) % 16 == c
            &&& (x / 0x100) % 16 == d
            &&& (x / 0x10) % 16 == e
            &&& (x / 1) % 16 == f
        }),
{
    let x = 0x10_0000 * a + 0x1_0000 * b + 0x1000 * c + 0x100 * d + 0x10 * e + f;
    assert(x / 0x10_0000 == a);
    assert(x / 0x1_0000 == 16 * a + b);
    assert(x / 0x1000 == 16 * (16 * a + b) + c);
    assert(x / 0x100 == 16 * (16 * (16 * a + b) + c) + d);
    assert(x / 0x10 == 16 * (16 * (16 * (16 * a + b) + c) + d) + e);
}

/// A tuple's index spells what is in its cells: each of the six digits in base 16 is the rank
/// in one of them.
pub proof fn fillings_spell_the_cells(b: Board, tuple: [usize; 6], s: int, k: int)
    requires
        0 <= s < 8,
        0 <= k < 6,
        forall|i: int| 0 <= i < 6 ==> #[trigger] tuple@[i] < 16,
    ensures
        (ntuple::filling(b, tuple, s, 6) / place_value(k)) % 16 == board::cell(
            b,
            ntuple::sym(s, tuple@[k] as int),
        ),
        0 <= ntuple::filling(b, tuple, s, 6) < 0x100_0000,
{
    lemma_filling_sum(b, tuple, s);
    let c = |i: int| board::cell(b, ntuple::sym(s, tuple@[i] as int)) as int;
    lemma_digits(c(0), c(1), c(2), c(3), c(4), c(5));
    assert(k == 0 || k == 1 || k == 2 || k == 3 || k == 4 || k == 5);
}

/// Two boards fill a tuple alike if and only if they hold the same in each of its six cells.
pub proof fn fillings_tell_boards_apart(b: Board, c: Board, tuple: [usize; 6], s: int)
    requires
        0 <= s < 8,
        forall|i: int| 0 <= i < 6 ==> #[trigger] tuple@[i] < 16,
    ensures
        ntuple::filling(b, tuple, s, 6) == ntuple::filling(c, tuple, s, 6) <==> forall|k: int|
            0 <= k < 6 ==> board::cell(b, ntuple::sym(s, #[trigger] tuple@[k] as int))
                == board::cell(c, ntuple::sym(s, tuple@[k] as int)),
{
    lemma_filling_sum(b, tuple, s);
    lemma_filling_sum(c, tuple, s);
    let (x, y) = (ntuple::filling(b, tuple, s, 6), ntuple::filling(c, tuple, s, 6));
    if x == y {
        assert forall|k: int| 0 <= k < 6 implies board::cell(
            b,
            ntuple::sym(s, #[trigger] tuple@[k] as int),
        ) == board::cell(c, ntuple::sym(s, tuple@[k] as int)) by {
            fillings_spell_the_cells(b, tuple, s, k);
            fillings_spell_the_cells(c, tuple, s, k);
        }
    }
    if forall|k: int|
        0 <= k < 6 ==> board::cell(b, ntuple::sym(s, #[trigger] tuple@[k] as int)) == board::cell(
            c,
            ntuple::sym(s, tuple@[k] as int),
        ) {
        assert(tuple@[0] < 16 && tuple@[1] < 16 && tuple@[2] < 16 && tuple@[3] < 16 && tuple@[4]
            < 16 && tuple@[5] < 16);
    }
}

proof fn lemma_index_parts(l: LayoutView, b: Board, j: int)
    requires
        l.valid(),
        0 <= j < 8 * l.tuples.len(),
    ensures
        ({
            let seen = ntuple::downgraded(b);
            let f = ntuple::filling(seen, l.tuples[j / 8], j % 8, 6);
            let x = (l.stage(seen) * l.tuples.len() + j / 8) * 0x100_0000 + f;
            &&& l.indices(b)[j] == x
            &&& 0 <= f < 0x100_0000
            &&& 0 <= x < l.stages * (l.tuples.len() * 0x100_0000)
            &&& l.stage(seen) < l.stages
        }),
{
    let seen = ntuple::downgraded(b);
    let t = j / 8;
    let (st, n) = (l.stage(seen) as int, l.tuples.len() as int);
    assert(forall|k: int| 0 <= k < 6 ==> #[trigger] l.tuples[t]@[k] < 16);
    lemma_filling_sum(seen, l.tuples[t], j % 8);
    let f = ntuple::filling(seen, l.tuples[t], j % 8, 6);
    let x = (st * n + t) * 0x100_0000 + f;
    assert(l.index_of(seen, j) == st * (n * 0x100_0000) + t * 0x100_0000 + f);
    assert(st * (n * 0x100_0000) + t * 0x100_0000 + f == x) by (nonlinear_arith)
        requires
            x == (st * n + t) * 0x100_0000 + f,
    ;
    assert(0 <= x < l.stages * (n * 0x100_0000)) by (nonlinear_arith)
        requires
            x == (st * n + t) * 0x100_0000 + f,
            0 <= st < l.stages,
            0 <= t < n,
            0 <= f < 0x100_0000,
    ;
    assert(l.size() == l.stages * (l.tuples.len() * 0x100_0000));
}

/// A board touches eight weights of each tuple, one per symmetry. The index of a weight tells
/// the stage, the tuple and what is in each of the tuple's cells, turned by the symmetry, of
/// the board as the network sees it.
pub proof fn indices_spell_the_board(l: LayoutView, b: Board, t: int, s: int, k: int)
    requires
        l.valid(),
        0 <= t < l.tuples.len(),
        0 <= s < 8,
        0 <= k < 6,
    ensures
        l.indices(b).len() == 8 * l.tuples.len(),
        ({
            let x = l.indices(b)[8 * t + s] as int;
            &&& x < l.stages * (l.tuples.len() * 0x100_0000)
            &&& x / 0x100_0000 == l.stage(ntuple::downgraded(b)) * l.tuples.len() + t
            &&& ((x % 0x100_0000) / place_value(k)) % 16 == board::cell(
                ntuple::downgraded(b),
                ntuple::sym(s, l.tuples[t]@[k] as int),
            )
        }),
{
    let j = 8 * t + s;
    assert(j / 8 == t && j % 8 == s);
    lemma_index_parts(l, b, j);
    let seen = ntuple::downgraded(b);
    assert(forall|i: int| 0 <= i < 6 ==> #[trigger] l.tuples[t]@[i] < 16);
    fillings_spell_the_cells(seen, l.tuples[t], s, k);
    let f = ntuple::filling(seen, l.tuples[t], s, 6);
    let x = l.indices(b)[j] as int;
    let q = l.stage(seen) * l.tuples.len() + t;
    assert(q >= 0) by (nonlinear_arith)
        requires
            q == l.stage(seen) * l.tuples.len() + t,
            t >= 0,
    ;
    assert(x == q * 0x100_0000 + f);
    assert(x / 0x100_0000 == q && x % 0x100_0000 == f);
}

/// Weights of different tuples, and of different stages, are different weights.
pub proof fn tuples_share_no_weights(l: LayoutView, b: Board, c: Board, i: int, j: int)
    requires
        l.valid(),
        0 <= i < 8 * l.tuples.len(),
        0 <= j < 8 * l.tuples.len(),
        l.indices(b)[i] == l.indices(c)[j],
    ensures
        i / 8 == j / 8,
        l.stage(ntuple::downgraded(b)) == l.stage(ntuple::downgraded(c)),
{
    let (p, q) = (ntuple::downgraded(b), ntuple::downgraded(c));
    indices_spell_the_board(l, b, i / 8, i % 8, 0);
    indices_spell_the_board(l, c, j / 8, j % 8, 0);
    let n = l.tuples.len() as int;
    let (u, v) = (l.stage(p) as int, l.stage(q) as int);
    let (s, t) = (i / 8, j / 8);
    assert(u * n + s == v * n + t);
    assert(u == v && s == t) by (nonlinear_arith)
        requires
            u * n + s == v * n + t,
            0 <= s < n,
            0 <= t < n,
    ;
}

/// Which stage values a board: the tiles below 16384 leave it in the first, a 16384 brings it
/// to the second and a 32768 to the third, as far as there are so many.
pub proof fn stages_open_with_big_tiles(l: LayoutView, b: Board)
    requires
        l.valid(),
    ensures
        (forall|i: int| 0 <= i < 16 ==> #[trigger] board::cell(b, i) < 14) ==> l.stage(b) == 0,
        (exists|i: int| 0 <= i < 16 && #[trigger] board::cell(b, i) == 14) && (forall|i: int|
            0 <= i < 16 ==> #[trigger] board::cell(b, i) < 15) ==> l.stage(b) == (if l.stages >= 2 {
            1nat
        } else {
            0
        }),
        (exists|i: int| 0 <= i < 16 && #[trigger] board::cell(b, i) == 15) ==> l.stage(b) == (
        if l.stages >= 3 {
            2
        } else {
            (l.stages - 1) as nat
        }),
{
    board::lemma_top_rank_exists(b);
    let top = board::top_rank(b);
    let i = choose|i: int| 0 <= i < 16 && board::cells(b)[i] == top;
    assert(board::cell(b, i) == top);
    board::lemma_cell_small(b, i);
}

/// The network sees a board without a 32768, or with every smaller tile, as it is. Else every
/// tile above the largest that is missing is seen one step down.
pub proof fn boards_are_seen_one_step_down(b: Board, m: int, i: int)
    requires
        0 <= i < 16,
    ensures
        !board::cells(b).contains(15) ==> ntuple::downgraded(b) == b,
        (forall|r: u8| 1 <= r <= 14 ==> #[trigger] board::cells(b).contains(r))
            ==> ntuple::downgraded(b) == b,
        board::cells(b).contains(15) && 1 <= m <= 14 && !board::cells(b).contains(m as u8) && (
        forall|r: u8| m < r <= 14 ==> #[trigger] board::cells(b).contains(r)) ==> board::cell(
            ntuple::downgraded(b),
            i,
        ) == if board::cell(b, i) > m {
            board::cell(b, i) - 1
        } else {
            board::cell(b, i) as int
        },
{
    ntuple::lemma_downgraded_exists(b);
    ntuple::lemma_missing_range(b, 14);
    board::lemma_top_rank_exists(b);
    let top = board::top_rank(b);
    let k = choose|k: int| 0 <= k < 16 && board::cells(b)[k] == top;
    board::lemma_cell_small(b, k);
    assert(board::cells(b)[k] == board::cell(b, k));
    if board::cells(b).contains(15) {
        let q = choose|q: int| 0 <= q < 16 && board::cells(b)[q] == 15;
        assert(board::cell(b, q) <= top);
        if forall|r: u8| 1 <= r <= 14 ==> #[trigger] board::cells(b).contains(r) {
            lemma_nothing_missing(b, 14);
        }
        if 1 <= m <= 14 && !board::cells(b).contains(m as u8) && (forall|r: u8|
            m < r <= 14 ==> #[trigger] board::cells(b).contains(r)) {
            lemma_missing_is(b, m, 14);
        }
    }
}

proof fn lemma_nothing_missing(b: Board, n: int)
    requires
        n <= 14,
        forall|r: u8| 1 <= r <= 14 ==> #[trigger] board::cells(b).contains(r),
    ensures
        ntuple::largest_missing(b, n) is None,
    decreases n,
{
    if n > 0 {
        assert(board::cells(b).contains(n as u8));
        lemma_nothing_missing(b, n - 1);
    }
}

proof fn lemma_missing_is(b: Board, m: int, n: int)
    requires
        1 <= m <= n <= 14,
        !board::cells(b).contains(m as u8),
        forall|r: u8| m < r <= 14 ==> #[trigger] board::cells(b).contains(r),
    ensures
        ntuple::largest_missing(b, n) == Some(m),
    decreases n,
{
    if n > m {
        assert(board::cells(b).contains(n as u8));
        lemma_missing_is(b, m, n - 1);
    }
}

/// The sum of the weights that the first `n` of a list of indices name.
pub open spec fn sum_at(w: Seq<u32>, ixs: Seq<usize>, n: int) -> int
    decreases n,
{
    if n <= 0 {
        0
    } else {
        sum_at(w, ixs, n - 1) + w[ixs[n - 1] as int]
    }
}

proof fn lemma_running_total<F: Fn(u32, u32) -> u32>(
    plus: F,
    zero: u32,
    w: Seq<u32>,
    ixs: Seq<usize>,
    sums: Seq<u32>,
    n: int,
)
    requires
        forall|x: u32, y: u32, z: u32| #[trigger]
            call_ensures(plus, (x, y), z) ==> z == (x + y) % 0x1_0000_0000,
        ntuple::running_sums(plus, zero, ixs.map_values(|i: usize| w[i as int]), sums),
        0 <= n <= ixs.len(),
    ensures
        sums[n] == (zero + sum_at(w, ixs, n)) % 0x1_0000_0000,
    decreases n,
{
    if n > 0 {
        lemma_running_total(plus, zero, w, ixs, sums, n - 1);
        let ws = ixs.map_values(|i: usize| w[i as int]);
        assert(ws[n - 1] == w[ixs[n - 1] as int]);
        assert(call_ensures(plus, (sums[n - 1], ws[n - 1]), sums[n]));
    }
}

/// A board's value is the sum of all the weights that it touches, each as often as it touches
/// it. Seen under whole-number addition, where a sum has one outcome.
pub proof fn values_add_up_every_weight<F: Fn(u32, u32) -> u32>(
    plus: F,
    zero: u32,
    net: NTupleView,
    b: Board,
    v: u32,
)
    requires
        forall|x: u32, y: u32, z: u32| #[trigger]
            call_ensures(plus, (x, y), z) ==> z == (x + y) % 0x1_0000_0000,
        ntuple::is_value(plus, zero, net, b, v),
    ensures
        v == (zero + sum_at(net.w, net.layout.indices(b), 8 * net.layout.tuples.len() as int))
            % 0x1_0000_0000,
{
    let ixs = net.layout.indices(b);
    let sums = choose|sums: Seq<u32>| #[trigger]
        ntuple::running_sums(plus, zero, net.weights_of(b), sums) && v == sums.last();
    assert(net.weights_of(b) =~= ixs.map_values(|i: usize| net.w[i as int]));
    lemma_running_total(plus, zero, net.w, ixs, sums, ixs.len() as int);
}

/// A board's value depends on the weights that it touches, and on no other.
pub proof fn values_depend_on_touched_weights<F: Fn(u32, u32) -> u32>(
    plus: F,
    zero: u32,
    one: NTupleView,
    two: NTupleView,
    b: Board,
    v: u32,
)
    requires
        one.layout == two.layout,
        forall|j: int|
            0 <= j < 8 * one.layout.tuples.len() ==> one.w[(
            #[trigger] one.layout.indices(b)[j]) as int] == two.w[one.layout.indices(b)[j] as int],
    ensures
        ntuple::is_value(plus, zero, one, b, v) <==> ntuple::is_value(plus, zero, two, b, v),
{
    assert(one.weights_of(b) =~= two.weights_of(b)) by {
        assert forall|j: int| 0 <= j < one.weights_of(b).len() implies one.weights_of(b)[j]
            == two.weights_of(b)[j] by {
            assert(one.w[one.layout.indices(b)[j] as int] == two.w[one.layout.indices(b)[j] as int]);
        }
    }
}

/// How often `i` stands among the first `n` of a list of indices.
pub open spec fn times_in(ixs: Seq<usize>, i: usize, n: int) -> nat
    decreases n,
{
    if n <= 0 {
        0
    } else {
        times_in(ixs, i, n - 1) + if ixs[n - 1] == i {
            1nat
        } else {
            0
        }
    }
}

/// What a weight and its accumulator, if it has one, go through.
pub open spec fn are_moves<P, T, O>(
    rule: Rule<P, T, O>,
    alpha: u32,
    err: u32,
    chain: Seq<(u32, Option<(u32, u32)>)>,
) -> bool where
    P: Fn(u32, u32) -> u32,
    T: Fn(u32, u32) -> u32,
    O: Fn(u32, u32) -> u32,
 {
    forall|q: int|
        0 <= q < chain.len() - 1 ==> rule.is_learned(
            alpha,
            err,
            (#[trigger] chain[q]).0,
            chain[q].1,
            chain[q + 1],
        )
}

/// A weight and its accumulator go through `n` moves.
pub open spec fn has_moved<P, T, O>(
    rule: Rule<P, T, O>,
    alpha: u32,
    err: u32,
    from: (u32, Option<(u32, u32)>),
    to: (u32, Option<(u32, u32)>),
    n: nat,
) -> bool where
    P: Fn(u32, u32) -> u32,
    T: Fn(u32, u32) -> u32,
    O: Fn(u32, u32) -> u32,
 {
    exists|chain: Seq<(u32, Option<(u32, u32)>)>|
        {
            &&& #[trigger] are_moves(rule, alpha, err, chain)
            &&& chain.len() == n + 1
            &&& chain.first() == from
            &&& chain.last() == to
        }
}

/// Weight `i` of a network and its accumulator, if it has one.
pub open spec fn weight_of(w: Seq<u32>, tc: Seq<(u32, u32)>, i: int) -> (u32, Option<(u32, u32)>) {
    (
        w[i],
        if i < tc.len() {
            Some(tc[i])
        } else {
            None
        },
    )
}

proof fn lemma_moved_so_far<P, T, O>(
    rule: Rule<P, T, O>,
    alpha: u32,
    err: u32,
    ixs: Seq<usize>,
    hist: Seq<(Seq<u32>, Seq<(u32, u32)>)>,
    i: usize,
    n: int,
) where P: Fn(u32, u32) -> u32, T: Fn(u32, u32) -> u32, O: Fn(u32, u32) -> u32
    requires
        ntuple::learned_all(rule, alpha, err, ixs, hist),
        0 <= n <= ixs.len(),
        i < hist[0].0.len(),
        hist[0].1.len() == 0 || hist[0].1.len() == hist[0].0.len(),
        forall|j: int| 0 <= j < ixs.len() ==> #[trigger] ixs[j] < hist[0].0.len(),
    ensures
        hist[n].0.len() == hist[0].0.len(),
        hist[n].1.len() == hist[0].1.len(),
        has_moved(
            rule,
            alpha,
            err,
            weight_of(hist[0].0, hist[0].1, i as int),
            weight_of(hist[n].0, hist[n].1, i as int),
            times_in(ixs, i, n),
        ),
    decreases n,
{
    let from = weight_of(hist[0].0, hist[0].1, i as int);
    if n == 0 {
        let chain = seq![from];
        assert(are_moves(rule, alpha, err, chain));
    } else {
        lemma_moved_so_far(rule, alpha, err, ixs, hist, i, n - 1);
        let k = ixs[n - 1] as int;
        assert(ntuple::learned_one(rule, alpha, err, k, hist[n - 1], hist[n]));
        let out = choose|out: (u32, Option<(u32, u32)>)|
            {
                &&& #[trigger] rule.is_learned(
                    alpha,
                    err,
                    hist[n - 1].0[k],
                    ntuple::accumulator(hist[n - 1].1, k),
                    out,
                )
                &&& hist[n].0 == hist[n - 1].0.update(k, out.0)
                &&& hist[n].1 == match out.1 {
                    Some(t) => hist[n - 1].1.update(k, t),
                    None => hist[n - 1].1,
                }
            };
        let before = weight_of(hist[n - 1].0, hist[n - 1].1, i as int);
        let after = weight_of(hist[n].0, hist[n].1, i as int);
        let chain = choose|chain: Seq<(u32, Option<(u32, u32)>)>|
            {
                &&& #[trigger] are_moves(rule, alpha, err, chain)
                &&& chain.len() == times_in(ixs, i, n - 1) + 1
                &&& chain.first() == from
                &&& chain.last() == before
            };
        assert(hist[n - 1].1.len() > 0 ==> out.1 is Some);
        if k == i {
            assert(after == out);
            let more = chain.push(after);
            assert forall|q: int| 0 <= q < more.len() - 1 implies rule.is_learned(
                alpha,
                err,
                (#[trigger] more[q]).0,
                more[q].1,
                more[q + 1],
            ) by {
                if q < chain.len() - 1 {
                    assert(rule.is_learned(alpha, err, chain[q].0, chain[q].1, chain[q + 1]));
                }
            }
            assert(are_moves(rule, alpha, err, more));
        } else {
            assert(after == before);
        }
    }
}

proof fn lemma_once(ixs: Seq<usize>, i: usize, n: int)
    requires
        0 <= n <= ixs.len(),
    ensures
        times_in(ixs, i, n) > 0 <==> exists|j: int| 0 <= j < n && #[trigger] ixs[j] == i,
    decreases n,
{
    if n > 0 {
        lemma_once(ixs, i, n - 1);
        if ixs[n - 1] == i {
            assert(0 <= n - 1 < n && ixs[n - 1] == i);
        }
    }
}

/// An error moves every weight that the board touches, of all its tuples, once for each time
/// that the board touches it. No other weight moves.
pub proof fn updates_move_every_touched_weight<P, T, O>(
    rule: Rule<P, T, O>,
    alpha: u32,
    err: u32,
    b: Board,
    from: NTupleView,
    to: NTupleView,
    i: usize,
) where P: Fn(u32, u32) -> u32, T: Fn(u32, u32) -> u32, O: Fn(u32, u32) -> u32
    requires
        from.layout.valid(),
        from.w.len() == from.layout.size(),
        from.tc.len() == 0 || from.tc.len() == from.w.len(),
        ntuple::is_updated(rule, alpha, err, b, from, to),
        i < from.w.len(),
    ensures
        ({
            let n = 8 * from.layout.tuples.len() as int;
            let times = times_in(from.layout.indices(b), i, n);
            &&& to.layout == from.layout
            &&& to.w.len() == from.w.len()
            &&& to.tc.len() == from.tc.len()
            &&& has_moved(
                rule,
                alpha,
                err,
                weight_of(from.w, from.tc, i as int),
                weight_of(to.w, to.tc, i as int),
                times,
            )
            &&& times == 0 ==> weight_of(to.w, to.tc, i as int) == weight_of(
                from.w,
                from.tc,
                i as int,
            )
            &&& times == 1 ==> rule.is_learned(
                alpha,
                err,
                from.w[i as int],
                weight_of(from.w, from.tc, i as int).1,
                weight_of(to.w, to.tc, i as int),
            )
            &&& times > 0 <==> exists|j: int|
                0 <= j < n && #[trigger] from.layout.indices(b)[j] == i
        }),
{
    let ixs = from.layout.indices(b);
    let hist = choose|hist: Seq<(Seq<u32>, Seq<(u32, u32)>)>|
        {
            &&& #[trigger] ntuple::learned_all(rule, alpha, err, ixs, hist)
            &&& hist.first() == (from.w, from.tc)
            &&& hist.last() == (to.w, to.tc)
        };
    assert forall|j: int| 0 <= j < ixs.len() implies #[trigger] ixs[j] < hist[0].0.len() by {
        lemma_index_parts(from.layout, b, j);
    }
    lemma_moved_so_far(rule, alpha, err, ixs, hist, i, ixs.len() as int);
    lemma_once(ixs, i, ixs.len() as int);
    let times = times_in(ixs, i, ixs.len() as int);
    let (x, y) = (weight_of(from.w, from.tc, i as int), weight_of(to.w, to.tc, i as int));
    let chain = choose|chain: Seq<(u32, Option<(u32, u32)>)>|
        {
            &&& #[trigger] are_moves(rule, alpha, err, chain)
            &&& chain.len() == times + 1
            &&& chain.first() == x
            &&& chain.last() == y
        };
    if times == 1 {
        assert(rule.is_learned(alpha, err, chain[0].0, chain[0].1, chain[1]));
    }
}

/// A weight moves by alpha times the error; without TC learning that is all.
pub proof fn weights_move_by_alpha_times_the_error<P, T, O>(
    rule: Rule<P, T, O>,
    alpha: u32,
    err: u32,
    w: u32,
    out: (u32, Option<(u32, u32)>),
) where P: Fn(u32, u32) -> u32, T: Fn(u32, u32) -> u32, O: Fn(u32, u32) -> u32
    requires
        rule.is_learned(alpha, err, w, None, out),
    ensures
        out.1 is None,
        exists|step: u32| #[trigger]
            call_ensures(rule.times, (alpha, err), step) && call_ensures(
                rule.plus,
                (w, step),
                out.0,
            ),
{
    let step = choose|step: u32| #[trigger]
        rule.is_step(alpha, err, None, step) && call_ensures(rule.plus, (w, step), out.0);
    assert(call_ensures(rule.times, (alpha, err), step));
}

/// A float's bits with the sign bit cleared.
pub open spec fn unsigned(x: u32) -> u32 {
    if x >= 0x8000_0000 {
        (x - 0x8000_0000) as u32
    } else {
        x
    }
}

/// Under TC learning a weight that has seen errors moves by alpha times the error times the
/// size of their sum over the sum of their sizes; one that has seen none moves by the whole.
/// Either way its accumulator then counts the error in, once with its sign and once without.
pub proof fn noisy_weights_slow_down<P, T, O>(
    rule: Rule<P, T, O>,
    alpha: u32,
    err: u32,
    w: u32,
    sum: u32,
    sizes: u32,
    out: (u32, Option<(u32, u32)>),
) where P: Fn(u32, u32) -> u32, T: Fn(u32, u32) -> u32, O: Fn(u32, u32) -> u32
    requires
        rule.is_learned(alpha, err, w, Some((sum, sizes)), out),
    ensures
        // A positive number: the sign bit is clear, and it is neither zero nor no number.
        0 < sizes <= 0x7F80_0000 ==> exists|full: u32, part: u32, step: u32|
            {
                &&& #[trigger] call_ensures(rule.times, (alpha, err), full)
                &&& #[trigger] call_ensures(
                    rule.over,
                    (unsigned(sum), sizes),
                    part,
                )
                &&& call_ensures(rule.times, (full, part), step)
                &&& #[trigger] call_ensures(rule.plus, (w, step), out.0)
            },
        !(0 < sizes <= 0x7F80_0000) ==> exists|full: u32| #[trigger]
            call_ensures(rule.times, (alpha, err), full) && call_ensures(
                rule.plus,
                (w, full),
                out.0,
            ),
        out.1 matches Some(t) && call_ensures(rule.plus, (sum, err), t.0) && call_ensures(
            rule.plus,
            (sizes, unsigned(err)),
            t.1,
        ),
{
    let tc = Some((sum, sizes));
    let step = choose|step: u32| #[trigger]
        rule.is_step(alpha, err, tc, step) && call_ensures(rule.plus, (w, step), out.0);
    let full = choose|full: u32| #[trigger]
        call_ensures(rule.times, (alpha, err), full) && (if floats::above32(sizes, 0) {
            rule.is_part(full, (sum, sizes), step)
        } else {
            step == full
        });
    assert(call_ensures(rule.times, (alpha, err), full));
    if 0 < sizes <= 0x7F80_0000 {
        assert(rule.is_part(full, (sum, sizes), step));
        let part = choose|part: u32| #[trigger]
            call_ensures(rule.over, (learn::magnitude(sum), sizes), part) && call_ensures(
                rule.times,
                (full, part),
                step,
            );
        assert(call_ensures(rule.over, (learn::magnitude(sum), sizes), part));
    }
}

}
