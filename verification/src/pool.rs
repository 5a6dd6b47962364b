//! Boards seen the first time a game entered each later stage, so training games can restart
//! there and practise endgames far more often than fresh games reach them.

use crate::board::Board;
use crate::rng;
use crate::rng::Rng;
use vstd::prelude::*;

verus! {

/// The boards of each stage.
pub open spec fn contents(boards: Seq<Vec<Board>>) -> Seq<Seq<Board>> {
    boards.map_values(|v: Vec<Board>| v@)
}

/// The stages that hold a board, lowest first, among the first `n`.
pub open spec fn filled(boards: Seq<Seq<Board>>, n: int) -> Seq<int>
    decreases n,
{
    if n <= 0 {
        seq![]
    } else if boards[n - 1].len() > 0 {
        filled(boards, n - 1).push(n - 1)
    } else {
        filled(boards, n - 1)
    }
}

/// A full stage has a board to give up.
pub open spec fn takes(boards: Seq<Seq<Board>>, cap: nat, stage: int) -> bool {
    0 <= stage < boards.len() && (boards[stage].len() < cap || boards[stage].len() > 0)
}

/// The boards after `b` came to `stage` in generator state `s`: at the end while there is
/// room, else in a drawn board's place.
pub open spec fn with_board(
    boards: Seq<Seq<Board>>,
    cap: nat,
    stage: int,
    b: Board,
    s: u64,
) -> Seq<Seq<Board>> {
    let v = boards[stage];
    if v.len() < cap {
        boards.update(stage, v.push(b))
    } else {
        boards.update(
            stage,
            v.update(rng::drawn_below(rng::advance(s), v.len() as u32) as int, b),
        )
    }
}

/// The generator's state after that.
pub open spec fn state_after_add(boards: Seq<Seq<Board>>, cap: nat, stage: int, s: u64) -> u64 {
    if boards[stage].len() < cap {
        s
    } else {
        rng::advance(s)
    }
}

/// The board drawn in generator state `s`: a drawn board of a drawn stage, if any holds one.
pub open spec fn drawn_board(boards: Seq<Seq<Board>>, s: u64) -> Option<Board> {
    let f = filled(boards, boards.len() as int);
    if f.len() == 0 {
        None
    } else {
        let s1 = rng::advance(s);
        let v = boards[f[rng::drawn_below(s1, f.len() as u32) as int]];
        Some(v[rng::drawn_below(rng::advance(s1), v.len() as u32) as int])
    }
}

/// The generator's state after that.
pub open spec fn state_after_pick(boards: Seq<Seq<Board>>, s: u64) -> u64 {
    if filled(boards, boards.len() as int).len() == 0 {
        s
    } else {
        rng::advance(rng::advance(s))
    }
}

proof fn lemma_filled(boards: Seq<Seq<Board>>, n: int)
    requires
        0 <= n <= boards.len(),
    ensures
        filled(boards, n).len() <= n,
        forall|i: int|
            0 <= i < filled(boards, n).len() ==> 0 <= #[trigger] filled(boards, n)[i] < n
                && boards[filled(boards, n)[i]].len() > 0,
    decreases n,
{
    if n > 0 {
        lemma_filled(boards, n - 1);
    }
}

/// A drawn place among `n`, of which 32 bits count.
fn draw(n: usize, rng: &mut Rng) -> (i: usize)
    requires
        n > 0,
    ensures
        i == rng::drawn_below(final(rng).0, n as u32),
        i < n,
        final(rng).0 == rng::advance(old(rng).0),
{
    let i: u32 = rng.below(n as u32);
    proof {
        lemma_below(rng.0, n);
    }
    i as usize
}

pub struct RestartPool {
    boards: Vec<Vec<Board>>,
    cap: usize,
}

impl RestartPool {
    /// The boards, stage by stage.
    pub closed spec fn boards(self) -> Seq<Seq<Board>> {
        contents(self.boards@)
    }

    /// How many boards a stage holds at most.
    pub closed spec fn cap(self) -> nat {
        self.cap as nat
    }

    pub fn new(stages: usize, cap: usize) -> (p: RestartPool)
        ensures
            p.boards() == Seq::new(stages as nat, |i: int| Seq::<Board>::empty()),
            p.cap() == cap,
    {
        let mut boards: Vec<Vec<Board>> = Vec::new();
        let mut i: usize = 0;
        while i < stages
            invariant
                i <= stages,
                boards@.len() == i,
                contents(boards@) == Seq::new(i as nat, |i: int| Seq::<Board>::empty()),
            decreases stages - i,
        {
            let ghost before = boards@;
            boards.push(Vec::new());
            i += 1;
            proof {
                let want = Seq::new(i as nat, |i: int| Seq::<Board>::empty());
                assert forall|k: int| 0 <= k < i implies contents(boards@)[k] == want[k] by {
                    if k < i - 1 {
                        assert(contents(before)[k] == Seq::<Board>::empty());
                    }
                }
                assert(contents(boards@) =~= want);
            }
        }
        RestartPool { boards, cap }
    }

    /// Saves a board. A full stage gives up a drawn one for it.
    pub fn add(&mut self, stage: usize, b: Board, rng: &mut Rng)
        requires
            takes(old(self).boards(), old(self).cap(), stage as int),
        ensures
            final(self).boards() == with_board(
                old(self).boards(),
                old(self).cap(),
                stage as int,
                b,
                old(rng).0,
            ),
            final(self).cap() == old(self).cap(),
            final(rng).0 == state_after_add(
                old(self).boards(),
                old(self).cap(),
                stage as int,
                old(rng).0,
            ),
    {
        let ghost before = self.boards();
        let n: usize = self.boards[stage].len();
        assert(before[stage as int].len() == n);
        if n < self.cap {
            self.boards[stage].push(b);
        } else {
            let i: usize = draw(n, rng);
            self.boards[stage][i] = b;
        }
        assert(self.boards() =~= with_board(
            before,
            old(self).cap(),
            stage as int,
            b,
            old(rng).0,
        ));
    }

    /// A random saved board from a random non-empty stage, if any.
    pub fn pick(&self, rng: &mut Rng) -> (b: Option<Board>)
        ensures
            b == drawn_board(self.boards(), old(rng).0),
            final(rng).0 == state_after_pick(self.boards(), old(rng).0),
    {
        let ghost all = self.boards();
        let mut stages: Vec<usize> = Vec::new();
        let mut i: usize = 0;
        while i < self.boards.len()
            invariant
                i <= self.boards@.len(),
                all == contents(self.boards@),
                stages@.map_values(|k: usize| k as int) == filled(all, i as int),
            decreases self.boards@.len() - i,
        {
            let ghost before = stages@;
            if self.boards[i].len() > 0 {
                stages.push(i);
                assert(stages@.map_values(|k: usize| k as int) =~= before.map_values(
                    |k: usize| k as int,
                ).push(i as int));
            }
            assert(all[i as int] == self.boards@[i as int]@);
            i += 1;
        }
        let ghost f = filled(all, all.len() as int);
        proof {
            lemma_filled(all, all.len() as int);
            assert(stages@.len() == f.len());
        }
        if stages.len() == 0 {
            return None;
        }
        let at: usize = draw(stages.len(), rng);
        assert(stages@.map_values(|k: usize| k as int)[at as int] == stages@[at as int]);
        let k: usize = stages[at];
        assert(f[at as int] == k);
        assert(all[k as int] == self.boards@[k as int]@);
        assert(all[k as int].len() > 0);
        let n: usize = self.boards[k].len();
        let j: usize = draw(n, rng);
        Some(self.boards[k][j])
    }

    /// How many boards each stage holds.
    pub fn sizes(&self) -> (n: Vec<usize>)
        ensures
            n@.len() == self.boards().len(),
            forall|i: int| 0 <= i < n@.len() ==> #[trigger] n@[i] == self.boards()[i].len(),
    {
        let mut out: Vec<usize> = Vec::new();
        let mut i: usize = 0;
        while i < self.boards.len()
            invariant
                i <= self.boards@.len(),
                out@.len() == i,
                forall|k: int| 0 <= k < i ==> #[trigger] out@[k] == self.boards@[k]@.len(),
            decreases self.boards@.len() - i,
        {
            out.push(self.boards[i].len());
            i += 1;
        }
        out
    }
}

pub proof fn lemma_sizes_fit(p: RestartPool)
    ensures
        forall|i: int|
            0 <= i < p.boards().len() ==> (#[trigger] p.boards()[i]).len() <= usize::MAX,
{
    assert forall|i: int| 0 <= i < p.boards().len() implies (#[trigger] p.boards()[i]).len()
        <= usize::MAX by {
        let v = p.boards@[i];
        assert(v.len() <= usize::MAX);
    }
}

/// No stage ever outgrows the cap, but where it began above it.
pub proof fn stages_stay_within_the_cap(
    boards: Seq<Seq<Board>>,
    cap: nat,
    stage: int,
    b: Board,
    s: u64,
    i: int,
)
    requires
        takes(boards, cap, stage),
        boards[stage].len() <= usize::MAX,
        0 <= i < boards.len(),
    ensures
        with_board(boards, cap, stage, b, s).len() == boards.len(),
        with_board(boards, cap, stage, b, s)[i].len() >= boards[i].len(),
        boards[i].len() <= cap ==> with_board(boards, cap, stage, b, s)[i].len() <= cap,
        i != stage ==> with_board(boards, cap, stage, b, s)[i] == boards[i],
{
    if boards[stage].len() >= cap {
        lemma_below(rng::advance(s), boards[stage].len() as usize);
    }
}

/// A board that comes to a stage is among the stage's boards then, and at most one board of
/// that stage has gone for it: the others stand where they stood.
pub proof fn saved_boards_are_there(
    boards: Seq<Seq<Board>>,
    cap: nat,
    stage: int,
    b: Board,
    s: u64,
)
    requires
        takes(boards, cap, stage),
        boards[stage].len() <= usize::MAX,
    ensures
        ({
            let (old, new) = (boards[stage], with_board(boards, cap, stage, b, s)[stage]);
            &&& new.contains(b)
            &&& old.len() < cap ==> new == old.push(b)
            &&& old.len() >= cap ==> new.len() == old.len() && exists|k: int|
                0 <= k < old.len() && #[trigger] new[k] == b && forall|i: int|
                    0 <= i < old.len() && i != k ==> #[trigger] new[i] == old[i]
        }),
{
    let (old, new) = (boards[stage], with_board(boards, cap, stage, b, s)[stage]);
    if old.len() < cap {
        assert(new[old.len() as int] == b);
    } else {
        lemma_below(rng::advance(s), old.len() as usize);
        let k = rng::drawn_below(rng::advance(s), old.len() as u32) as int;
        assert(new[k] == b);
    }
}

/// A saved board can be drawn again: what is drawn is a board of some stage.
pub proof fn drawn_boards_were_saved(boards: Seq<Seq<Board>>, s: u64)
    requires
        boards.len() <= usize::MAX,
        forall|i: int| 0 <= i < boards.len() ==> (#[trigger] boards[i]).len() <= usize::MAX,
    ensures
        match drawn_board(boards, s) {
            Some(b) => exists|k: int, j: int|
                0 <= k < boards.len() && 0 <= j < boards[k].len() && #[trigger] boards[k][j] == b,
            None => forall|k: int| 0 <= k < boards.len() ==> (#[trigger] boards[k]).len() == 0,
        },
{
    let f = filled(boards, boards.len() as int);
    lemma_filled(boards, boards.len() as int);
    if f.len() == 0 {
        lemma_all_empty(boards, boards.len() as int);
    } else {
        let s1 = rng::advance(s);
        let s2 = rng::advance(s1);
        lemma_below(s1, f.len() as usize);
        let k = f[rng::drawn_below(s1, f.len() as u32) as int];
        lemma_below(s2, boards[k].len() as usize);
        assert(boards[k][rng::drawn_below(s2, boards[k].len() as u32) as int]
            == drawn_board(boards, s)->0);
    }
}

proof fn lemma_all_empty(boards: Seq<Seq<Board>>, n: int)
    requires
        0 <= n <= boards.len(),
        filled(boards, n).len() == 0,
    ensures
        forall|k: int| 0 <= k < n ==> (#[trigger] boards[k]).len() == 0,
    decreases n,
{
    if n > 0 {
        lemma_all_empty(boards, n - 1);
    }
}

proof fn lemma_below(s: u64, n: usize)
    requires
        n > 0,
    ensures
        rng::drawn_below(s, n as u32) < n,
{
    assert((n as u32) <= n) by (bit_vector);
    rng::lemma_scaled((rng::drawn(s) / 0x1_0000_0000) as int, (n as u32) as int);
}

}
