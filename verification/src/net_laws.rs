//! What holds of the value network as a whole.

use crate::board;
use crate::board::Board;
use crate::ntuple;
use crate::ntuple::{LayoutView, NTupleView};
use vstd::multiset::*;
use vstd::prelude::*;
use vstd::seq_lib::*;

verus! {

/// `c` is `b` moved by symmetry `u` of the square.
pub open spec fn is_turned(b: Board, u: int, c: Board) -> bool {
    forall|i: int|
        0 <= i < 16 ==> #[trigger] board::cell(c, ntuple::sym(u, i)) == board::cell(b, i)
}

/// The symmetry that does `s` first and `v` after it.
spec fn compose(v: int, s: int) -> int {
    if v < 4 {
        if s < 4 {
            (v + s) % 4
        } else {
            4 + (v + s) % 4
        }
    } else {
        if s < 4 {
            4 + (v - s) % 4
        } else {
            (v - s) % 4
        }
    }
}

/// The symmetry that undoes `u`.
spec fn inverse(u: int) -> int {
    if u < 4 {
        (4 - u) % 4
    } else {
        u
    }
}

proof fn lemma_compose(v: int, s: int, x: int)
    requires
        0 <= v < 8,
        0 <= s < 8,
        0 <= x < 16,
    ensures
        0 <= compose(v, s) < 8,
        ntuple::sym(v, ntuple::sym(s, x)) == ntuple::sym(compose(v, s), x),
        0 <= ntuple::sym(s, x) < 16,
{
    let (r, k) = (x / 4, x % 4);
    let y = ntuple::sym(s, x);
    let (a, b) = if s == 0 {
        (r, k)
    } else if s == 1 {
        (k, 3 - r)
    } else if s == 2 {
        (3 - r, 3 - k)
    } else if s == 3 {
        (3 - k, r)
    } else if s == 4 {
        (r, 3 - k)
    } else if s == 5 {
        (3 - k, 3 - r)
    } else if s == 6 {
        (3 - r, k)
    } else {
        (k, r)
    };
    assert(y == 4 * a + b && 0 <= a < 4 && 0 <= b < 4);
    assert(y / 4 == a && y % 4 == b);
}

proof fn lemma_inverse(u: int, x: int)
    requires
        0 <= u < 8,
        0 <= x < 16,
    ensures
        0 <= inverse(u) < 8,
        ntuple::sym(u, ntuple::sym(inverse(u), x)) == x,
        ntuple::sym(inverse(u), ntuple::sym(u, x)) == x,
        0 <= ntuple::sym(inverse(u), x) < 16,
        0 <= ntuple::sym(u, x) < 16,
{
    lemma_compose(u, inverse(u), x);
    lemma_compose(inverse(u), u, x);
}

proof fn lemma_compose_injective(v: int, s: int, t: int)
    requires
        0 <= v < 8,
        0 <= s < 8,
        0 <= t < 8,
        compose(v, s) == compose(v, t),
    ensures
        s == t,
{
}

/// Two sequences that list the same items in another order hold each item equally often.
proof fn lemma_permuted<A>(a: Seq<A>, b: Seq<A>, p: spec_fn(int) -> int)
    requires
        a.len() == b.len(),
        forall|j: int| 0 <= j < b.len() ==> 0 <= #[trigger] p(j) < a.len() && b[j] == a[p(j)],
        forall|i: int, j: int|
            0 <= i < b.len() && 0 <= j < b.len() && #[trigger] p(i) == #[trigger] p(j) ==> i == j,
    ensures
        a.to_multiset() == b.to_multiset(),
    decreases a.len(),
{
    if a.len() == 0 {
        assert(a =~= b);
    } else {
        let n = b.len() - 1;
        let q = p(n);
        let a2 = a.remove(q);
        let b2 = b.drop_last();
        let p2 = |j: int|
            if p(j) < q {
                p(j)
            } else {
                p(j) - 1
            };
        assert forall|j: int| 0 <= j < b2.len() implies 0 <= #[trigger] p2(j) < a2.len() && b2[j]
            == a2[p2(j)] by {
            assert(p(j) != p(n));
        }
        assert forall|i: int, j: int|
            0 <= i < b2.len() && 0 <= j < b2.len() && #[trigger] p2(i) == #[trigger] p2(
                j,
            ) implies i == j by {
            assert(p(i) != p(n) && p(j) != p(n));
        }
        lemma_permuted(a2, b2, p2);
        to_multiset_remove(a, q);
        to_multiset_build(b2, b[n]);
        assert(b2.push(b[n]) =~= b);
        assert(a.to_multiset().contains(a[q])) by {
            to_multiset_contains(a, a[q]);
        }
        assert(a.to_multiset() =~= b.to_multiset());
    }
}

proof fn lemma_turned_ranks(b: Board, u: int, c: Board)
    requires
        0 <= u < 8,
        is_turned(b, u, c),
    ensures
        forall|y: int|
            0 <= y < 16 ==> #[trigger] board::cell(c, y) == board::cell(
                b,
                ntuple::sym(inverse(u), y),
            ),
        forall|r: u8| board::cells(b).contains(r) <==> #[trigger] board::cells(c).contains(r),
        board::top_rank(b) == board::top_rank(c),
{
    assert forall|y: int| 0 <= y < 16 implies #[trigger] board::cell(c, y) == board::cell(
        b,
        ntuple::sym(inverse(u), y),
    ) by {
        lemma_inverse(u, y);
        let x = ntuple::sym(inverse(u), y);
        assert(board::cell(c, ntuple::sym(u, x)) == board::cell(b, x));
    }
    assert forall|r: u8| board::cells(b).contains(r) <==> #[trigger] board::cells(c).contains(r) by {
        if board::cells(b).contains(r) {
            let x = choose|x: int| 0 <= x < 16 && board::cells(b)[x] == r;
            lemma_inverse(u, x);
            assert(board::cell(c, ntuple::sym(u, x)) == board::cell(b, x));
            assert(board::cells(c)[ntuple::sym(u, x)] == r);
        }
        if board::cells(c).contains(r) {
            let y = choose|y: int| 0 <= y < 16 && board::cells(c)[y] == r;
            lemma_inverse(u, y);
            assert(board::cell(c, y) == r);
            assert(board::cells(b)[ntuple::sym(inverse(u), y)] == r);
        }
    }
    let t = board::top_rank(b);
    board::lemma_top_rank_exists(b);
    assert(board::is_top_rank(c, t)) by {
        assert(board::cells(c).contains(t));
        assert forall|y: int| 0 <= y < 16 implies #[trigger] board::cell(c, y) <= t by {
            lemma_inverse(u, y);
            assert(board::cell(b, ntuple::sym(inverse(u), y)) <= t);
        }
    }
    board::lemma_top_rank_unique(c, t);
}

proof fn lemma_same_missing(b: Board, c: Board, n: int)
    requires
        n <= 255,
        forall|r: u8| board::cells(b).contains(r) <==> #[trigger] board::cells(c).contains(r),
    ensures
        ntuple::largest_missing(b, n) == ntuple::largest_missing(c, n),
    decreases n,
{
    if n > 0 {
        assert(board::cells(b).contains(n as u8) <==> board::cells(c).contains(n as u8));
        lemma_same_missing(b, c, n - 1);
    }
}

proof fn lemma_downgraded_turned(b: Board, u: int, c: Board)
    requires
        0 <= u < 8,
        is_turned(b, u, c),
    ensures
        is_turned(ntuple::downgraded(b), u, ntuple::downgraded(c)),
{
    lemma_turned_ranks(b, u, c);
    lemma_same_missing(b, c, 14);
    ntuple::lemma_downgraded_exists(b);
    ntuple::lemma_downgraded_exists(c);
    let (b2, c2) = (ntuple::downgraded(b), ntuple::downgraded(c));
    assert forall|i: int| 0 <= i < 16 implies #[trigger] board::cell(c2, ntuple::sym(u, i))
        == board::cell(b2, i) by {
        lemma_inverse(u, i);
        assert(board::cell(c, ntuple::sym(u, i)) == board::cell(b, i));
    }
}

proof fn lemma_filling_turned(b: Board, u: int, c: Board, tuple: [usize; 6], s: int, n: int)
    requires
        0 <= u < 8,
        0 <= s < 8,
        n <= 6,
        is_turned(b, u, c),
        forall|k: int| 0 <= k < 6 ==> #[trigger] tuple@[k] < 16,
    ensures
        ntuple::filling(c, tuple, s, n) == ntuple::filling(b, tuple, compose(inverse(u), s), n),
    decreases n,
{
    if n > 0 {
        lemma_filling_turned(b, u, c, tuple, s, n - 1);
        lemma_turned_ranks(b, u, c);
        let x = tuple@[n - 1] as int;
        lemma_inverse(u, x);
        lemma_compose(inverse(u), s, x);
        assert(board::cell(c, ntuple::sym(s, x)) == board::cell(
            b,
            ntuple::sym(inverse(u), ntuple::sym(s, x)),
        ));
    }
}

/// Where a place in the list of one board's weights stands in the list of a turned board's.
spec fn turned_place(u: int, j: int) -> int {
    8 * (j / 8) + compose(inverse(u), j % 8)
}

proof fn lemma_turned_places(l: LayoutView, b: Board, u: int, c: Board)
    requires
        l.valid(),
        0 <= u < 8,
        is_turned(b, u, c),
    ensures
        forall|j: int|
            0 <= j < l.indices(c).len() ==> 0 <= #[trigger] turned_place(u, j) < l.indices(b).len()
                && l.indices(c)[j] == l.indices(b)[turned_place(u, j)],
        forall|i: int, j: int|
            0 <= i && 0 <= j && #[trigger] turned_place(u, i) == #[trigger] turned_place(u, j) ==> i
                == j,
{
    lemma_downgraded_turned(b, u, c);
    let (b2, c2) = (ntuple::downgraded(b), ntuple::downgraded(c));
    lemma_turned_ranks(b2, u, c2);
    let v = inverse(u);
    let (a, z) = (l.indices(b), l.indices(c));
    lemma_inverse(u, 0);
    assert forall|j: int| 0 <= j < z.len() implies 0 <= #[trigger] turned_place(u, j) < a.len()
        && z[j] == a[turned_place(u, j)] by {
        lemma_compose(v, j % 8, 0);
        let t = j / 8;
        let p = turned_place(u, j);
        assert(forall|k: int| 0 <= k < 6 ==> #[trigger] l.tuples[t]@[k] < 16);
        lemma_filling_turned(b2, u, c2, l.tuples[t], j % 8, 6);
        assert(p / 8 == t && p % 8 == compose(v, j % 8));
        assert(l.index_of(c2, j) == l.index_of(b2, p));
    }
    assert forall|i: int, j: int|
        0 <= i && 0 <= j && #[trigger] turned_place(u, i) == #[trigger] turned_place(
            u,
            j,
        ) implies i == j by {
        lemma_compose(v, i % 8, 0);
        lemma_compose(v, j % 8, 0);
        let (p, q) = (turned_place(u, i), turned_place(u, j));
        assert(p / 8 == i / 8 && q / 8 == j / 8);
        assert(p % 8 == compose(v, i % 8) && q % 8 == compose(v, j % 8));
        lemma_compose_injective(v, i % 8, j % 8);
    }
}

/// Boards that a turn or a mirror carries into each other touch the same weights, each
/// equally often, so they are valued by the same numbers.
pub proof fn symmetric_boards_share_weights(net: NTupleView, b: Board, u: int, c: Board)
    requires
        net.layout.valid(),
        0 <= u < 8,
        is_turned(b, u, c),
    ensures
        net.layout.indices(b).to_multiset() == net.layout.indices(c).to_multiset(),
        net.weights_of(b).to_multiset() == net.weights_of(c).to_multiset(),
{
    lemma_turned_places(net.layout, b, u, c);
    let p = |j: int| turned_place(u, j);
    lemma_permuted(net.layout.indices(b), net.layout.indices(c), p);
    lemma_permuted(net.weights_of(b), net.weights_of(c), p);
}

/// A board and its transpose touch the same weights, each equally often.
pub proof fn transposed_boards_share_weights(net: NTupleView, b: Board, t: Board)
    requires
        net.layout.valid(),
        board::is_transposed(b, t),
    ensures
        net.layout.indices(b).to_multiset() == net.layout.indices(t).to_multiset(),
        net.weights_of(b).to_multiset() == net.weights_of(t).to_multiset(),
{
    assert forall|i: int| 0 <= i < 16 implies #[trigger] board::cell(t, ntuple::sym(7, i))
        == board::cell(b, i) by {
        let (r, c) = (i / 4, i % 4);
        assert(board::cell(t, 4 * c + r) == board::cell(b, 4 * r + c));
    }
    symmetric_boards_share_weights(net, b, 7, t);
}

/// A board with a 32768 that misses some smaller tile is seen as one whose largest tile is
/// a 16384.
pub proof fn downgrade_tops_at_16384(b: Board)
    requires
        board::top_rank(b) == 15,
        ntuple::largest_missing(b, 14) is Some,
    ensures
        board::top_rank(ntuple::downgraded(b)) == 14,
{
    let nb = ntuple::downgraded(b);
    ntuple::lemma_downgraded_exists(b);
    ntuple::lemma_missing_range(b, 14);
    board::lemma_top_rank_exists(b);
    let i = choose|i: int| 0 <= i < 16 && board::cells(b)[i] == 15;
    assert(board::cell(nb, i) == 14);
    assert(board::cells(nb)[i] == 14);
    assert forall|j: int| 0 <= j < 16 implies #[trigger] board::cell(nb, j) <= 14 by {
        assert(board::cell(b, j) <= 15);
    }
    assert(board::is_top_rank(nb, 14));
    board::lemma_top_rank_unique(nb, 14);
}

/// Seen by the network, any two cells compare as they do on the board itself: what was
/// larger stays larger, what was equal stays equal.
pub proof fn downgrade_keeps_order(b: Board, i: int, j: int)
    requires
        0 <= i < 16,
        0 <= j < 16,
    ensures
        board::cell(b, i) < board::cell(b, j) <==> board::cell(ntuple::downgraded(b), i)
            < board::cell(ntuple::downgraded(b), j),
        board::cell(b, i) == board::cell(b, j) <==> board::cell(ntuple::downgraded(b), i)
            == board::cell(ntuple::downgraded(b), j),
        board::cell(b, i) == 0 <==> board::cell(ntuple::downgraded(b), i) == 0,
{
    ntuple::lemma_downgraded_exists(b);
    ntuple::lemma_missing_range(b, 14);
    if let Some(m) = ntuple::largest_missing(b, 14) {
        assert(board::cells(b)[i] == board::cell(b, i));
        assert(board::cells(b)[j] == board::cell(b, j));
        assert(board::cell(b, i) != m && board::cell(b, j) != m);
    }
}

/// Growing a network changes no board's value: a new stage starts as a copy of the stage
/// that valued its boards before.
pub proof fn growing_keeps_values(net: NTupleView, grown: NTupleView, b: Board)
    requires
        net.layout.valid(),
        grown.layout.valid(),
        net.w.len() == net.layout.size(),
        grown.layout.tuples == net.layout.tuples,
        grown.layout.stages >= net.layout.stages,
        grown.w == ntuple::expanded(
            net.w,
            net.layout.stage_size() as int,
            grown.layout.size() as int,
        ),
    ensures
        grown.weights_of(b) == net.weights_of(b),
{
    let (l, g) = (net.layout, grown.layout);
    let b2 = ntuple::downgraded(b);
    let z = l.stage_size() as int;
    let (s, t) = (l.stage(b2) as int, g.stage(b2) as int);
    assert forall|j: int| 0 <= j < l.indices(b).len() implies grown.weights_of(b)[j]
        == net.weights_of(b)[j] by {
        let f = (j / 8) * ntuple::TUPLE_SIZE + ntuple::filling(b2, l.tuples[j / 8], j % 8, 6);
        lemma_filling_bound(b2, l.tuples[j / 8], j % 8);
        assert(0 <= f < z) by (nonlinear_arith)
            requires
                0 <= j < 8 * l.tuples.len(),
                z == l.tuples.len() * (ntuple::TUPLE_SIZE as nat),
                0 <= f - (j / 8) * ntuple::TUPLE_SIZE < ntuple::TUPLE_SIZE,
        ;
        assert(s * z + f < l.stages * z <= usize::MAX && 0 <= s * z && 0 <= t * z) by (nonlinear_arith)
            requires
                0 <= s < l.stages,
                0 <= t,
                0 <= f < z,
                l.stages * z <= usize::MAX,
        ;
        assert(t * z + f < g.stages * z) by (nonlinear_arith)
            requires
                0 <= t < g.stages,
                0 <= f < z,
        ;
        assert(net.weights_of(b)[j] == net.w[s * z + f]);
        assert(grown.weights_of(b)[j] == grown.w[t * z + f]);
        if t != s {
            assert(s == l.stages - 1 && t > s);
            assert((t * z + f) % z == f) by {
                vstd::arithmetic::div_mod::lemma_mod_multiples_vanish(t, f, z);
                vstd::arithmetic::div_mod::lemma_small_mod(f as nat, z as nat);
                vstd::arithmetic::mul::lemma_mul_is_commutative(t, z);
            }
            assert(t * z >= l.stages * z && l.stages * z - z == s * z) by (nonlinear_arith)
                requires
                    t >= l.stages,
                    s == l.stages - 1,
                    z >= 0,
            ;
        }
    }
    assert(grown.weights_of(b) =~= net.weights_of(b));
}

proof fn lemma_filling_bound(b: Board, tuple: [usize; 6], s: int)
    requires
        0 <= s < 8,
        forall|k: int| 0 <= k < 6 ==> #[trigger] tuple@[k] < 16,
    ensures
        0 <= ntuple::filling(b, tuple, s, 6) < ntuple::TUPLE_SIZE,
{
    reveal_with_fuel(ntuple::filling, 7);
    assert forall|k: int| 0 <= k < 6 implies board::cell(
        b,
        ntuple::sym(s, #[trigger] tuple@[k] as int),
    ) < 16 by {
        lemma_compose(0, s, tuple@[k] as int);
        board::lemma_cell_small(b, ntuple::sym(s, tuple@[k] as int));
    }
    assert(tuple@[0] < 16 && tuple@[1] < 16 && tuple@[2] < 16 && tuple@[3] < 16 && tuple@[4] < 16
        && tuple@[5] < 16);
}

/// Adding one network's changes since `base` to a copy of `base` gives that network's
/// weights, wherever each difference, added back, is exact. Holds of networks of at most
/// 2^32 weights, the range of a delta's indices.
pub proof fn diff_then_apply_reproduces<M: Fn(u32, u32) -> u32, P: Fn(u32, u32) -> u32>(
    minus: M,
    plus: P,
    w: Seq<u32>,
    base: Seq<u32>,
    ds: Seq<u32>,
    to: Seq<u32>,
)
    requires
        w.len() == base.len(),
        w.len() <= 0x1_0000_0000,
        ntuple::is_diff(minus, w, base, ds),
        ntuple::is_added(plus, ntuple::nonzero_entries(ds, ds.len() as int), base, to),
        forall|i: int|
            0 <= i < ds.len() ==> if ntuple::is_zero(#[trigger] ds[i]) {
                w[i] == base[i]
            } else {
                forall|x: u32| #[trigger] call_ensures(plus, (base[i], ds[i]), x) ==> x == w[i]
            },
    ensures
        to == w,
{
    let delta = ntuple::nonzero_entries(ds, ds.len() as int);
    let hist = choose|hist: Seq<Seq<u32>>| #[trigger]
        ntuple::added_all(plus, delta, hist) && hist.first() == base && hist.last() == to;
    lemma_applied_prefix(plus, w, base, ds, delta, hist, ds.len() as int);
    assert(to =~= w);
}

/// After the entries for the first `n` weights, those are in place and the rest is as it was.
proof fn lemma_applied_prefix<P: Fn(u32, u32) -> u32>(
    plus: P,
    w: Seq<u32>,
    base: Seq<u32>,
    ds: Seq<u32>,
    delta: Seq<(u32, u32)>,
    hist: Seq<Seq<u32>>,
    n: int,
)
    requires
        w.len() == base.len(),
        w.len() <= 0x1_0000_0000,
        ds.len() == w.len(),
        0 <= n <= ds.len(),
        delta == ntuple::nonzero_entries(ds, ds.len() as int),
        ntuple::added_all(plus, delta, hist),
        hist.first() == base,
        forall|i: int|
            0 <= i < ds.len() ==> if ntuple::is_zero(#[trigger] ds[i]) {
                w[i] == base[i]
            } else {
                forall|x: u32| #[trigger] call_ensures(plus, (base[i], ds[i]), x) ==> x == w[i]
            },
    ensures
        ({
            let k = ntuple::nonzero_entries(ds, n).len() as int;
            &&& ntuple::nonzero_entries(ds, n).is_prefix_of(delta)
            &&& hist[k].len() == w.len()
            &&& forall|i: int| 0 <= i < n ==> #[trigger] hist[k][i] == w[i]
            &&& forall|i: int| n <= i < w.len() ==> #[trigger] hist[k][i] == base[i]
        }),
    decreases n,
{
    lemma_entries_prefix(ds, n, ds.len() as int);
    if n > 0 {
        lemma_applied_prefix(plus, w, base, ds, delta, hist, n - 1);
        let k = ntuple::nonzero_entries(ds, n - 1).len() as int;
        if !ntuple::is_zero(ds[n - 1]) {
            assert(ntuple::nonzero_entries(ds, n)[k] == ((n - 1) as u32, ds[n - 1]));
            assert(delta[k] == ((n - 1) as u32, ds[n - 1]));
            assert(ntuple::added_one(plus, delta[k], hist[k], hist[k + 1]));
            assert(hist[k][n - 1] == base[n - 1]);
        }
    }
}

proof fn lemma_entries_prefix(ds: Seq<u32>, n: int, m: int)
    requires
        0 <= n <= m <= ds.len(),
    ensures
        ntuple::nonzero_entries(ds, n).is_prefix_of(ntuple::nonzero_entries(ds, m)),
    decreases m,
{
    if n < m {
        lemma_entries_prefix(ds, n, m - 1);
    }
}

proof fn lemma_nonzero(ds: Seq<u32>, n: int)
    requires
        0 <= n <= ds.len(),
        n <= 0x1_0000_0000,
    ensures
        ({
            let out = ntuple::nonzero_entries(ds, n);
            &&& forall|i: int|
                0 <= i < out.len() ==> {
                    &&& (#[trigger] out[i]).0 < n
                    &&& out[i].1 == ds[out[i].0 as int]
                    &&& !ntuple::is_zero(out[i].1)
                }
            &&& forall|i: int, j: int|
                0 <= i < j < out.len() ==> (#[trigger] out[i]).0 < (#[trigger] out[j]).0
            &&& forall|k: int|
                0 <= k < n && !ntuple::is_zero(#[trigger] ds[k]) ==> out.contains(
                    (k as u32, ds[k]),
                )
        }),
    decreases n,
{
    if n > 0 {
        lemma_nonzero(ds, n - 1);
        let before = ntuple::nonzero_entries(ds, n - 1);
        let out = ntuple::nonzero_entries(ds, n);
        assert forall|k: int| 0 <= k < n && !ntuple::is_zero(#[trigger] ds[k]) implies out.contains(
            (k as u32, ds[k]),
        ) by {
            if k < n - 1 {
                assert(before.contains((k as u32, ds[k])));
                let i = choose|i: int| 0 <= i < before.len() && before[i] == (k as u32, ds[k]);
                assert(out[i] == before[i]);
            } else {
                assert(out[out.len() - 1] == (k as u32, ds[k]));
            }
        }
    }
}

/// A diff lists every weight that differs, once and by rising index, and no other. Holds of
/// networks of at most 2^32 weights, whose indices fit an entry.
pub proof fn diffs_are_complete<M: Fn(u32, u32) -> u32>(
    minus: M,
    w: Seq<u32>,
    base: Seq<u32>,
    ds: Seq<u32>,
    k: u32,
    d: u32,
)
    requires
        ntuple::is_diff(minus, w, base, ds),
        w.len() == base.len(),
        w.len() <= 0x1_0000_0000,
    ensures
        ({
            let delta = ntuple::nonzero_entries(ds, ds.len() as int);
            &&& forall|i: int, j: int|
                0 <= i < j < delta.len() ==> (#[trigger] delta[i]).0 < (#[trigger] delta[j]).0
            &&& delta.contains((k, d)) <==> k < w.len() && d == ds[k as int] && !ntuple::is_zero(d)
        }),
        k < w.len() ==> call_ensures(minus, (w[k as int], base[k as int]), ds[k as int]),
{
    lemma_nonzero(ds, ds.len() as int);
    let delta = ntuple::nonzero_entries(ds, ds.len() as int);
    if k < w.len() && !ntuple::is_zero(ds[k as int]) {
        assert(delta.contains((k, ds[k as int])));
    }
}

/// A network does not differ from its own weights, wherever a weight less itself is zero.
pub proof fn networks_do_not_differ_from_themselves<M: Fn(u32, u32) -> u32>(
    minus: M,
    w: Seq<u32>,
    ds: Seq<u32>,
)
    requires
        ntuple::is_diff(minus, w, w, ds),
        w.len() <= 0x1_0000_0000,
        forall|k: int, d: u32|
            0 <= k < w.len() && #[trigger] call_ensures(minus, (w[k], w[k]), d)
                ==> ntuple::is_zero(d),
    ensures
        ntuple::nonzero_entries(ds, ds.len() as int).len() == 0,
{
    lemma_nonzero(ds, ds.len() as int);
    let delta = ntuple::nonzero_entries(ds, ds.len() as int);
    if delta.len() > 0 {
        let k = delta[0].0 as int;
        assert(call_ensures(minus, (w[k], w[k]), ds[k]));
    }
}

}
