//! The expectimax search itself. The caller brings the arithmetic of 32-bit floats, on bit
//! patterns; a search is stated together with what it remembers before and after.

use crate::ai;
use crate::ai::{chance_children, Ai, AiView, Memory, CACHE_DEPTH_LIMIT};
use crate::board;
use crate::board::{count_empty, Board, Dir};
use crate::episode;
use crate::floats;
use crate::floats::{greater_of, pick_best};
use vstd::prelude::*;

verus! {

/// One, as a 32-bit float's bits.
pub const ONE: u32 = 0x3F80_0000;

/// Minus infinity.
pub const LOWEST: u32 = 0xFF80_0000;

/// A millionth.
pub const TINY: u32 = 0x3586_37BD;

/// The arithmetic that a search needs.
pub struct Arith<E, S, W, P, G> {
    /// The value of a board.
    pub eval: E,
    /// A number divided by a count.
    pub share: S,
    /// A number times the chance of a new 2, or of a new 4.
    pub weigh: W,
    /// The sum of two numbers.
    pub plus: P,
    /// What a move for so many points is worth, given the value of the board after it.
    pub gain: G,
}

/// What a search remembers: for a board, the depth it was valued at and its value.
pub type Seen = Map<u64, (u32, u32)>;

/// The memory has the value of `b` from a search that went at least as far from it.
pub open spec fn recalls(m: Seen, b: Board, depth: int) -> bool {
    depth < CACHE_DEPTH_LIMIT && m.contains_key(b) && m[b].0 <= depth
}

/// The memory with the value of `b`, unless it lies too deep.
pub open spec fn kept(m: Seen, b: Board, depth: int, v: u32) -> Seen {
    if depth < CACHE_DEPTH_LIMIT {
        m.insert(b, (depth as u32, v))
    } else {
        m
    }
}

/// The empty cells of `b`.
pub open spec fn room(b: Board) -> u32 {
    ai::empties(b, 16).len() as u32
}

/// How a mean comes about, tile by tile: the boards, their chances and values, what each adds,
/// the running sum, and the memory in between.
pub struct Steps {
    pub c: Seq<Board>,
    pub p: Seq<u32>,
    pub x: Seq<u32>,
    pub w: Seq<u32>,
    pub s: Seq<u32>,
    pub m: Seq<Seen>,
}

impl Steps {
    /// There are `n` steps from `m` on.
    pub open spec fn fits(self, n: int, m: Seen) -> bool {
        &&& self.c.len() == n
        &&& self.p.len() == n
        &&& self.x.len() == n
        &&& self.w.len() == n
        &&& self.s.len() == n + 1
        &&& self.m.len() == n + 1
        &&& self.s[0] == 0
        &&& self.m[0] == m
    }
}

/// How a best value comes about, move by move: the values of the boards after them, what each
/// move is worth, the best so far, and the memory in between.
pub struct Tries {
    pub x: Seq<u32>,
    pub y: Seq<u32>,
    pub t: Seq<u32>,
    pub m: Seq<Seen>,
}

impl Tries {
    /// There are `n` tries from `m` on.
    pub open spec fn fits(self, n: int, m: Seen) -> bool {
        &&& self.x.len() == n
        &&& self.y.len() == n
        &&& self.t.len() == n + 1
        &&& self.m.len() == n + 1
        &&& self.t[0] == LOWEST
        &&& self.m[0] == m
    }
}

impl<E, S, W, P, G> Arith<E, S, W, P, G> where
    E: Fn(Board) -> u32,
    S: Fn(u32, u32) -> u32,
    W: Fn(u32, bool) -> u32,
    P: Fn(u32, u32) -> u32,
    G: Fn(u32, u32) -> u32,
 {
    /// The arithmetic works on all numbers.
    pub open spec fn total(self) -> bool {
        &&& forall|b: Board| call_requires(self.eval, (b,))
        &&& forall|x: u32, n: u32| call_requires(self.share, (x, n))
        &&& forall|x: u32, four: bool| call_requires(self.weigh, (x, four))
        &&& forall|x: u32, y: u32| call_requires(self.plus, (x, y))
        &&& forall|n: u32, x: u32| call_requires(self.gain, (n, x))
    }

    /// Step `j` of a mean puts a new 2 or 4 in an empty cell; its board has the chance `p[j]`,
    /// and its value `x[j]` counts by the tile's chance.
    pub open spec fn is_step(self, b: Board, cp: u32, st: Steps, j: int) -> bool {
        let four = j % 2 == 1;
        &&& board::is_placed(b, ai::empties(b, 16)[j / 2], ai::new_rank(j), st.c[j])
        &&& call_ensures(self.weigh, (cp, four), st.p[j])
        &&& call_ensures(self.weigh, (st.x[j], four), st.w[j])
        &&& call_ensures(self.plus, (st.s[j], st.w[j]), st.s[j + 1])
    }

    /// Try `k` of a best value is worth the points and the value `x[k]` of the board after it.
    pub open spec fn is_try(self, b: Board, tr: Tries, k: int) -> bool {
        &&& call_ensures(self.gain, (episode::moves(b, 4)[k].2, tr.x[k]), tr.y[k])
        &&& tr.t[k + 1] == floats::max32(tr.t[k], tr.y[k])
    }

    /// A search that remembers `m` values `b`, before its new tile, at `v`, and then remembers
    /// `m2`. A branch that ends is valued directly. Else a remembered value serves; else the
    /// chance is shared among the empty cells, the mean over the new tiles is taken, and it is
    /// remembered.
    pub open spec fn value_by(
        self,
        ai: AiView,
        limit: int,
        m: Seen,
        b: Board,
        cprob: u32,
        depth: int,
        v: u32,
        m2: Seen,
    ) -> bool
        decreases limit - depth, 1int,
    {
        if ai.ends(cprob, depth, limit) {
            call_ensures(self.eval, (b,), v) && m2 == m
        } else if recalls(m, b, depth) {
            v == m[b].1 && m2 == m
        } else {
            exists|cp: u32, st: Steps|
                {
                    &&& #[trigger] call_ensures(self.share, (cprob, room(b)), cp)
                    &&& #[trigger] st.fits(2 * room(b) as int, m)
                    &&& forall|j: int|
                        #![trigger st.c[j]]
                        0 <= j < 2 * room(b) ==> self.is_step(b, cp, st, j) && self.best_by(
                            ai,
                            limit,
                            st.m[j],
                            st.c[j],
                            st.p[j],
                            depth,
                            st.x[j],
                            st.m[j + 1],
                        )
                    &&& call_ensures(self.share, (st.s.last(), room(b)), v)
                    &&& m2 == kept(st.m.last(), b, depth, v)
                }
        }
    }

    /// A search that remembers `m` values `b`, with its new tile, at `v`, and then remembers
    /// `m2`: the best move counts; without one the game is over and worth nothing.
    pub open spec fn best_by(
        self,
        ai: AiView,
        limit: int,
        m: Seen,
        b: Board,
        cprob: u32,
        depth: int,
        v: u32,
        m2: Seen,
    ) -> bool
        decreases limit - depth, 0int,
    {
        depth < limit && exists|tr: Tries|
            {
                &&& #[trigger] tr.fits(episode::moves(b, 4).len() as int, m)
                &&& forall|k: int|
                    #![trigger tr.x[k]]
                    0 <= k < episode::moves(b, 4).len() ==> self.is_try(b, tr, k) && self.value_by(
                        ai,
                        limit,
                        tr.m[k],
                        episode::moves(b, 4)[k].1,
                        cprob,
                        depth + 1,
                        tr.x[k],
                        tr.m[k + 1],
                    )
                &&& v == if tr.t.last() == LOWEST {
                    0
                } else {
                    tr.t.last()
                }
                &&& m2 == tr.m.last()
            }
    }
}

/// The value of a board before its new tile.
fn chance<E, S, W, P, G>(
    ai: &Ai,
    a: &Arith<E, S, W, P, G>,
    mem: &mut Memory,
    b: Board,
    cprob: u32,
    depth: u32,
    limit: u32,
) -> (v: u32) where
    E: Fn(Board) -> u32,
    S: Fn(u32, u32) -> u32,
    W: Fn(u32, bool) -> u32,
    P: Fn(u32, u32) -> u32,
    G: Fn(u32, u32) -> u32,

    requires
        a.total(),
    ensures
        a.value_by(
            ai@,
            limit as int,
            old(mem)@,
            b,
            cprob,
            depth as int,
            v,
            final(mem)@,
        ),
    decreases limit - depth, 1int,
{
    if ai.ends_branch(cprob, depth, limit) {
        return (a.eval)(b);
    }
    match mem.recall(b, depth) {
        Some(v) => {
            return v;
        },
        None => {},
    }
    let ghost m0 = mem@;
    let open: u32 = count_empty(b);
    let boards: Vec<(Board, bool)> = chance_children(b);
    proof {
        ai::lemma_empties(b, 16);
        assert(board::cells(b).take(16) =~= board::cells(b));
        assert(open == room(b));
    }
    let cp: u32 = (a.share)(cprob, open);
    let mut sum: u32 = 0;
    let ghost mut st = Steps {
        c: seq![],
        p: seq![],
        x: seq![],
        w: seq![],
        s: seq![0u32],
        m: seq![mem@],
    };
    let mut j: usize = 0;
    while j < boards.len()
        invariant
            a.total(),
            depth < limit,
            boards@.len() == 2 * room(b),
            j <= boards@.len(),
            forall|k: int|
                0 <= k < boards@.len() ==> board::is_placed(
                    b,
                    ai::empties(b, 16)[k / 2],
                    ai::new_rank(k),
                    (#[trigger] boards@[k]).0,
                ) && boards@[k].1 == (k % 2 == 1),
            st.fits(j as int, m0),
            forall|k: int|
                #![trigger st.c[k]]
                0 <= k < j ==> a.is_step(b, cp, st, k) && a.best_by(
                    ai@,
                    limit as int,
                    st.m[k],
                    st.c[k],
                    st.p[k],
                    depth as int,
                    st.x[k],
                    st.m[k + 1],
                ),
            sum == st.s.last(),
            mem@ == st.m.last(),
        decreases boards@.len() - j,
    {
        let (nb, four): (Board, bool) = boards[j];
        let p: u32 = (a.weigh)(cp, four);
        let x: u32 = best(ai, a, mem, nb, p, depth, limit);
        let w: u32 = (a.weigh)(x, four);
        let s: u32 = (a.plus)(sum, w);
        proof {
            let st0 = st;
            st = Steps {
                c: st0.c.push(nb),
                p: st0.p.push(p),
                x: st0.x.push(x),
                w: st0.w.push(w),
                s: st0.s.push(s),
                m: st0.m.push(mem@),
            };
            assert forall|k: int| #![trigger st.c[k]] 0 <= k < j + 1 implies a.is_step(
                b,
                cp,
                st,
                k,
            ) && a.best_by(
                ai@,
                limit as int,
                st.m[k],
                st.c[k],
                st.p[k],
                depth as int,
                st.x[k],
                st.m[k + 1],
            ) by {
                if k < j {
                    assert(st.c[k] == st0.c[k]);
                    assert(a.is_step(b, cp, st0, k));
                } else {
                    assert(boards@[k].0 == nb);
                }
            }
        }
        sum = s;
        j += 1;
    }
    let v: u32 = (a.share)(sum, open);
    mem.keep(b, depth, v);
    assert(st.fits(2 * room(b) as int, m0));
    v
}

/// The value of a board with its new tile, by the best move.
fn best<E, S, W, P, G>(
    ai: &Ai,
    a: &Arith<E, S, W, P, G>,
    mem: &mut Memory,
    b: Board,
    cprob: u32,
    depth: u32,
    limit: u32,
) -> (v: u32) where
    E: Fn(Board) -> u32,
    S: Fn(u32, u32) -> u32,
    W: Fn(u32, bool) -> u32,
    P: Fn(u32, u32) -> u32,
    G: Fn(u32, u32) -> u32,

    requires
        a.total(),
        depth < limit,
    ensures
        a.best_by(
            ai@,
            limit as int,
            old(mem)@,
            b,
            cprob,
            depth as int,
            v,
            final(mem)@,
        ),
    decreases limit - depth, 0int,
{
    let options: Vec<(Dir, Board, u32)> = ai.options(b);
    let mut top: u32 = LOWEST;
    let ghost m0 = mem@;
    let ghost mut tr = Tries { x: seq![], y: seq![], t: seq![LOWEST], m: seq![mem@] };
    let mut k: usize = 0;
    while k < options.len()
        invariant
            a.total(),
            depth < limit,
            options@ == episode::moves(b, 4),
            k <= options@.len(),
            tr.fits(k as int, m0),
            forall|q: int|
                #![trigger tr.x[q]]
                0 <= q < k ==> a.is_try(b, tr, q) && a.value_by(
                    ai@,
                    limit as int,
                    tr.m[q],
                    episode::moves(b, 4)[q].1,
                    cprob,
                    depth + 1,
                    tr.x[q],
                    tr.m[q + 1],
                ),
            top == tr.t.last(),
            mem@ == tr.m.last(),
        decreases options@.len() - k,
    {
        let (_, nb, points): (Dir, Board, u32) = options[k];
        let x: u32 = chance(ai, a, mem, nb, cprob, depth + 1, limit);
        let y: u32 = (a.gain)(points, x);
        let t: u32 = greater_of(top, y);
        proof {
            let tr0 = tr;
            tr = Tries {
                x: tr0.x.push(x),
                y: tr0.y.push(y),
                t: tr0.t.push(t),
                m: tr0.m.push(mem@),
            };
            assert forall|q: int| #![trigger tr.x[q]] 0 <= q < k + 1 implies a.is_try(
                b,
                tr,
                q,
            ) && a.value_by(
                ai@,
                limit as int,
                tr.m[q],
                episode::moves(b, 4)[q].1,
                cprob,
                depth + 1,
                tr.x[q],
                tr.m[q + 1],
            ) by {
                if q < k {
                    assert(tr.x[q] == tr0.x[q]);
                    assert(a.is_try(b, tr0, q));
                }
            }
        }
        top = t;
        k += 1;
    }
    assert(tr.fits(episode::moves(b, 4).len() as int, m0));
    if top == LOWEST {
        0
    } else {
        top
    }
}

/// How each legal move comes to its worth: the value of the board after it, what the move
/// gains, that plus a millionth, and the memory in between.
pub struct Worths {
    pub x: Seq<u32>,
    pub y: Seq<u32>,
    pub z: Seq<u32>,
    pub m: Seq<Seen>,
}

/// One legal move's worth, by a search of the board after it.
pub open spec fn is_worth<E, S, W, P, G>(
    a: Arith<E, S, W, P, G>,
    ai: AiView,
    b: Board,
    ws: Worths,
    k: int,
) -> bool where
    E: Fn(Board) -> u32,
    S: Fn(u32, u32) -> u32,
    W: Fn(u32, bool) -> u32,
    P: Fn(u32, u32) -> u32,
    G: Fn(u32, u32) -> u32,
 {
    let (_, nb, points) = episode::moves(b, 4)[k];
    &&& a.value_by(ai, ai.depth_limit(b), ws.m[k], nb, ONE, 0, ws.x[k], ws.m[k + 1])
    &&& call_ensures(a.gain, (points, ws.x[k]), ws.y[k])
    &&& call_ensures(a.plus, (ws.y[k], TINY), ws.z[k])
}

/// The first `n` legal moves' worths, by a search that remembers nothing at first.
pub open spec fn are_worths<E, S, W, P, G>(
    a: Arith<E, S, W, P, G>,
    ai: AiView,
    b: Board,
    ws: Worths,
    n: int,
) -> bool where
    E: Fn(Board) -> u32,
    S: Fn(u32, u32) -> u32,
    W: Fn(u32, bool) -> u32,
    P: Fn(u32, u32) -> u32,
    G: Fn(u32, u32) -> u32,
 {
    &&& ws.x.len() == n
    &&& ws.y.len() == n
    &&& ws.z.len() == n
    &&& ws.m.len() == n + 1
    &&& ws.m[0] == Map::<u64, (u32, u32)>::empty()
    &&& forall|k: int| 0 <= k < n ==> #[trigger] is_worth(a, ai, b, ws, k)
}

/// `d` is the first of the moves worth most.
pub open spec fn is_best_move<E, S, W, P, G>(
    a: Arith<E, S, W, P, G>,
    ai: AiView,
    b: Board,
    ws: Worths,
    d: Option<Dir>,
) -> bool where
    E: Fn(Board) -> u32,
    S: Fn(u32, u32) -> u32,
    W: Fn(u32, bool) -> u32,
    P: Fn(u32, u32) -> u32,
    G: Fn(u32, u32) -> u32,
 {
    let n = episode::moves(b, 4).len() as int;
    &&& are_worths(a, ai, b, ws, n)
    &&& d == if n == 0 {
        None
    } else {
        Some(episode::moves(b, 4)[floats::best_among(ws.z, n)].0)
    }
}

impl Ai {
    /// Best legal move, or None if the game is over.
    pub fn best_move<E, S, W, P, G>(&self, b: Board, a: &Arith<E, S, W, P, G>) -> (d: Option<
        Dir,
    >) where
        E: Fn(Board) -> u32,
        S: Fn(u32, u32) -> u32,
        W: Fn(u32, bool) -> u32,
        P: Fn(u32, u32) -> u32,
        G: Fn(u32, u32) -> u32,

        requires
            a.total(),
        ensures
            exists|ws: Worths| #[trigger] is_best_move(*a, self@, b, ws, d),
    {
        let limit: u32 = self.depth_limit(b);
        let options: Vec<(Dir, Board, u32)> = self.options(b);
        let mut mem: Memory = Memory::new();
        let mut values: Vec<u32> = Vec::new();
        let ghost mut ws = Worths { x: seq![], y: seq![], z: seq![], m: seq![mem@] };
        let mut k: usize = 0;
        while k < options.len()
            invariant
                a.total(),
                limit == self@.depth_limit(b),
                options@ == episode::moves(b, 4),
                k <= options@.len(),
                are_worths(*a, self@, b, ws, k as int),
                values@ == ws.z,
                mem@ == ws.m.last(),
            decreases options@.len() - k,
        {
            let (_, nb, points): (Dir, Board, u32) = options[k];
            let x: u32 = chance(self, a, &mut mem, nb, ONE, 0, limit);
            let y: u32 = (a.gain)(points, x);
            let z: u32 = (a.plus)(y, TINY);
            values.push(z);
            proof {
                let ws0 = ws;
                ws = Worths {
                    x: ws0.x.push(x),
                    y: ws0.y.push(y),
                    z: ws0.z.push(z),
                    m: ws0.m.push(mem@),
                };
                assert forall|q: int| 0 <= q < k + 1 implies #[trigger] is_worth(
                    *a,
                    self@,
                    b,
                    ws,
                    q,
                ) by {
                    if q < k {
                        assert(is_worth(*a, self@, b, ws0, q));
                    }
                }
            }
            k += 1;
        }
        let d: Option<Dir> = match pick_best(values.as_slice()) {
            None => None,
            Some(i) => Some(options[i].0),
        };
        assert(is_best_move(*a, self@, b, ws, d));
        d
    }
}

impl<E, S, W, P, G> Arith<E, S, W, P, G> where
    E: Fn(Board) -> u32,
    S: Fn(u32, u32) -> u32,
    W: Fn(u32, bool) -> u32,
    P: Fn(u32, u32) -> u32,
    G: Fn(u32, u32) -> u32,
 {
    /// The arithmetic gives each input one result.
    pub open spec fn is_definite(self) -> bool {
        &&& forall|b: Board, x: u32, y: u32|
            #![trigger call_ensures(self.eval, (b,), x), call_ensures(self.eval, (b,), y)]
            call_ensures(self.eval, (b,), x) && call_ensures(self.eval, (b,), y) ==> x == y
        &&& forall|p: u32, q: u32, x: u32, y: u32|
            #![trigger call_ensures(self.share, (p, q), x), call_ensures(self.share, (p, q), y)]
            call_ensures(self.share, (p, q), x) && call_ensures(self.share, (p, q), y) ==> x == y
        &&& forall|p: u32, q: bool, x: u32, y: u32|
            #![trigger call_ensures(self.weigh, (p, q), x), call_ensures(self.weigh, (p, q), y)]
            call_ensures(self.weigh, (p, q), x) && call_ensures(self.weigh, (p, q), y) ==> x == y
        &&& forall|p: u32, q: u32, x: u32, y: u32|
            #![trigger call_ensures(self.plus, (p, q), x), call_ensures(self.plus, (p, q), y)]
            call_ensures(self.plus, (p, q), x) && call_ensures(self.plus, (p, q), y) ==> x == y
        &&& forall|p: u32, q: u32, x: u32, y: u32|
            #![trigger call_ensures(self.gain, (p, q), x), call_ensures(self.gain, (p, q), y)]
            call_ensures(self.gain, (p, q), x) && call_ensures(self.gain, (p, q), y) ==> x == y
    }

    /// The steps of a mean, each with the search of its board.
    spec fn are_steps(
        self,
        ai: AiView,
        limit: int,
        m: Seen,
        b: Board,
        depth: int,
        cp: u32,
        st: Steps,
    ) -> bool {
        &&& st.fits(2 * room(b) as int, m)
        &&& forall|j: int|
            #![trigger st.c[j]]
            0 <= j < 2 * room(b) ==> self.is_step(b, cp, st, j) && self.best_by(
                ai,
                limit,
                st.m[j],
                st.c[j],
                st.p[j],
                depth,
                st.x[j],
                st.m[j + 1],
            )
    }

    /// The tries of a best value, each with the search of its board.
    spec fn are_tries(
        self,
        ai: AiView,
        limit: int,
        m: Seen,
        b: Board,
        cprob: u32,
        depth: int,
        tr: Tries,
    ) -> bool {
        &&& tr.fits(episode::moves(b, 4).len() as int, m)
        &&& forall|k: int|
            #![trigger tr.x[k]]
            0 <= k < episode::moves(b, 4).len() ==> self.is_try(b, tr, k) && self.value_by(
                ai,
                limit,
                tr.m[k],
                episode::moves(b, 4)[k].1,
                cprob,
                depth + 1,
                tr.x[k],
                tr.m[k + 1],
            )
    }

    /// A board has one value in a search: which branches end, what is remembered and what is
    /// worked out is fixed, and so is what is remembered afterwards.
    pub proof fn searches_agree(
        self,
        ai: AiView,
        limit: int,
        m: Seen,
        b: Board,
        cprob: u32,
        depth: int,
        one: (u32, Seen),
        two: (u32, Seen),
    )
        requires
            self.is_definite(),
            self.value_by(ai, limit, m, b, cprob, depth, one.0, one.1),
            self.value_by(ai, limit, m, b, cprob, depth, two.0, two.1),
        ensures
            one == two,
        decreases limit - depth, 3int, 0int,
    {
        if !ai.ends(cprob, depth, limit) && !recalls(m, b, depth) {
            let (c1, s1) = choose|cp: u32, st: Steps|
                {
                    &&& #[trigger] call_ensures(self.share, (cprob, room(b)), cp)
                    &&& #[trigger] st.fits(2 * room(b) as int, m)
                    &&& self.are_steps(ai, limit, m, b, depth, cp, st)
                    &&& call_ensures(self.share, (st.s.last(), room(b)), one.0)
                    &&& one.1 == kept(st.m.last(), b, depth, one.0)
                };
            let (c2, s2) = choose|cp: u32, st: Steps|
                {
                    &&& #[trigger] call_ensures(self.share, (cprob, room(b)), cp)
                    &&& #[trigger] st.fits(2 * room(b) as int, m)
                    &&& self.are_steps(ai, limit, m, b, depth, cp, st)
                    &&& call_ensures(self.share, (st.s.last(), room(b)), two.0)
                    &&& two.1 == kept(st.m.last(), b, depth, two.0)
                };
            assert(c1 == c2);
            self.lemma_steps_agree(ai, limit, m, b, depth, c1, s1, s2, 2 * room(b) as int);
        }
    }

    proof fn lemma_steps_agree(
        self,
        ai: AiView,
        limit: int,
        m: Seen,
        b: Board,
        depth: int,
        cp: u32,
        one: Steps,
        two: Steps,
        j: int,
    )
        requires
            self.is_definite(),
            self.are_steps(ai, limit, m, b, depth, cp, one),
            self.are_steps(ai, limit, m, b, depth, cp, two),
            0 <= j <= 2 * room(b),
        ensures
            one.s[j] == two.s[j],
            one.m[j] == two.m[j],
        decreases limit - depth, 2int, j,
    {
        if j > 0 {
            let k = j - 1;
            self.lemma_steps_agree(ai, limit, m, b, depth, cp, one, two, k);
            assert(self.is_step(b, cp, one, k)) by {
                assert(one.c[k] == one.c[k]);
            }
            assert(self.is_step(b, cp, two, k)) by {
                assert(two.c[k] == two.c[k]);
            }
            board::lemma_placed_unique(
                b,
                ai::empties(b, 16)[k / 2],
                ai::new_rank(k),
                one.c[k],
                two.c[k],
            );
            assert(one.p[k] == two.p[k]);
            self.lemma_bests_agree(
                ai,
                limit,
                one.m[k],
                one.c[k],
                one.p[k],
                depth,
                (one.x[k], one.m[j]),
                (two.x[k], two.m[j]),
            );
        }
    }

    proof fn lemma_bests_agree(
        self,
        ai: AiView,
        limit: int,
        m: Seen,
        b: Board,
        cprob: u32,
        depth: int,
        one: (u32, Seen),
        two: (u32, Seen),
    )
        requires
            self.is_definite(),
            self.best_by(ai, limit, m, b, cprob, depth, one.0, one.1),
            self.best_by(ai, limit, m, b, cprob, depth, two.0, two.1),
        ensures
            one == two,
        decreases limit - depth, 1int, 0int,
    {
        let n = episode::moves(b, 4).len() as int;
        let t1 = choose|tr: Tries|
            {
                &&& #[trigger] tr.fits(episode::moves(b, 4).len() as int, m)
                &&& self.are_tries(ai, limit, m, b, cprob, depth, tr)
                &&& one.0 == if tr.t.last() == LOWEST {
                    0
                } else {
                    tr.t.last()
                }
                &&& one.1 == tr.m.last()
            };
        let t2 = choose|tr: Tries|
            {
                &&& #[trigger] tr.fits(episode::moves(b, 4).len() as int, m)
                &&& self.are_tries(ai, limit, m, b, cprob, depth, tr)
                &&& two.0 == if tr.t.last() == LOWEST {
                    0
                } else {
                    tr.t.last()
                }
                &&& two.1 == tr.m.last()
            };
        self.lemma_tries_agree(ai, limit, m, b, cprob, depth, t1, t2, n);
    }

    proof fn lemma_tries_agree(
        self,
        ai: AiView,
        limit: int,
        m: Seen,
        b: Board,
        cprob: u32,
        depth: int,
        one: Tries,
        two: Tries,
        k: int,
    )
        requires
            self.is_definite(),
            depth < limit,
            self.are_tries(ai, limit, m, b, cprob, depth, one),
            self.are_tries(ai, limit, m, b, cprob, depth, two),
            0 <= k <= episode::moves(b, 4).len(),
        ensures
            one.t[k] == two.t[k],
            one.m[k] == two.m[k],
        decreases limit - depth, 0int, k,
    {
        if k > 0 {
            let q = k - 1;
            self.lemma_tries_agree(ai, limit, m, b, cprob, depth, one, two, q);
            assert(self.is_try(b, one, q)) by {
                assert(one.x[q] == one.x[q]);
            }
            assert(self.is_try(b, two, q)) by {
                assert(two.x[q] == two.x[q]);
            }
            self.searches_agree(
                ai,
                limit,
                one.m[q],
                episode::moves(b, 4)[q].1,
                cprob,
                depth + 1,
                (one.x[q], one.m[k]),
                (two.x[q], two.m[k]),
            );
        }
    }
}

proof fn lemma_worths_agree<E, S, W, P, G>(
    a: Arith<E, S, W, P, G>,
    ai: AiView,
    b: Board,
    one: Worths,
    two: Worths,
    n: int,
    k: int,
) where
    E: Fn(Board) -> u32,
    S: Fn(u32, u32) -> u32,
    W: Fn(u32, bool) -> u32,
    P: Fn(u32, u32) -> u32,
    G: Fn(u32, u32) -> u32,

    requires
        a.is_definite(),
        are_worths(a, ai, b, one, n),
        are_worths(a, ai, b, two, n),
        0 <= k <= n,
    ensures
        one.z.take(k) == two.z.take(k),
        one.m[k] == two.m[k],
    decreases k,
{
    if k > 0 {
        lemma_worths_agree(a, ai, b, one, two, n, k - 1);
        assert(is_worth(a, ai, b, one, k - 1));
        assert(is_worth(a, ai, b, two, k - 1));
        let (_, nb, _) = episode::moves(b, 4)[k - 1];
        a.searches_agree(
            ai,
            ai.depth_limit(b),
            one.m[k - 1],
            nb,
            ONE,
            0,
            (one.x[k - 1], one.m[k]),
            (two.x[k - 1], two.m[k]),
        );
        assert(one.z.take(k) =~= one.z.take(k - 1).push(one.z[k - 1]));
        assert(two.z.take(k) =~= two.z.take(k - 1).push(two.z[k - 1]));
    } else {
        assert(one.z.take(0) =~= two.z.take(0));
    }
}

/// The search picks one move: the player's settings, the board and the arithmetic fix it.
pub proof fn the_best_move_is_fixed<E, S, W, P, G>(
    a: Arith<E, S, W, P, G>,
    ai: AiView,
    b: Board,
    one: (Worths, Option<Dir>),
    two: (Worths, Option<Dir>),
) where
    E: Fn(Board) -> u32,
    S: Fn(u32, u32) -> u32,
    W: Fn(u32, bool) -> u32,
    P: Fn(u32, u32) -> u32,
    G: Fn(u32, u32) -> u32,

    requires
        a.is_definite(),
        is_best_move(a, ai, b, one.0, one.1),
        is_best_move(a, ai, b, two.0, two.1),
    ensures
        one.1 == two.1,
{
    let n = episode::moves(b, 4).len() as int;
    lemma_worths_agree(a, ai, b, one.0, two.0, n, n);
    assert(one.0.z.take(n) =~= one.0.z);
    assert(two.0.z.take(n) =~= two.0.z);
}

}
