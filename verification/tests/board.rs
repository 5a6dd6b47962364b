use g2048::board::{
    cell_rank, count_empty, count_rank, distinct_tiles, max_rank, print, spawn, transpose, Board,
    Dir, Tables, DIRS,
};
use g2048::merges::made_65536;
use g2048::rng::Rng;
use g2048::row::{pack_row, reverse_row, slide_row};

fn from_grid(g: [[u8; 4]; 4]) -> Board {
    let mut b = 0;
    for r in 0..4 {
        for c in 0..4 {
            b |= (g[r][c] as u64) << (4 * (4 * r + c));
        }
    }
    b
}

#[test]
fn row_merges_once() {
    // [2,2,2,2] -> [4,4,.,.], score 8
    assert_eq!(slide_row(0x1111), (0x0022, 8));
    // [4,.,2,2] -> [4,4,.,.] (merged 4 must not merge again)
    assert_eq!(slide_row(0x1102), (0x0022, 4));
    // [2,2,4,.] -> [4,4]
    assert_eq!(slide_row(0x0211), (0x0022, 4));
    // [32768,32768,.,.] -> one tile worth 65536 points
    let (r, sc) = slide_row(0x00FF);
    assert_eq!((r, sc), (0x000F, 65536));
    assert!(made_65536(0x00FF, r as u64));
}

#[test]
fn directions() {
    let t = Tables::new();
    let b = from_grid([[1, 0, 0, 1], [0, 0, 0, 0], [0, 0, 0, 0], [1, 0, 0, 0]]);
    assert_eq!(t.apply(b, Dir::Left), (from_grid([[2, 0, 0, 0], [0; 4], [0; 4], [1, 0, 0, 0]]), 4));
    assert_eq!(t.apply(b, Dir::Right), (from_grid([[0, 0, 0, 2], [0; 4], [0; 4], [0, 0, 0, 1]]), 4));
    assert_eq!(t.apply(b, Dir::Up), (from_grid([[2, 0, 0, 1], [0; 4], [0; 4], [0; 4]]), 4));
    assert_eq!(t.apply(b, Dir::Down), (from_grid([[0; 4], [0; 4], [0; 4], [2, 0, 0, 1]]), 4));
}

#[test]
fn transpose_roundtrip() {
    let b = 0x0123_4567_89AB_CDEF;
    assert_eq!(transpose(transpose(b)), b);
    assert_eq!((transpose(b) >> 4) & 0xF, (b >> 16) & 0xF);
}

#[test]
fn moves_commute_with_transposing() {
    let t = Tables::new();
    let b = from_grid([[1, 1, 2, 0], [3, 0, 3, 1], [0, 5, 5, 5], [2, 2, 2, 2]]);
    let across = [Dir::Left, Dir::Right, Dir::Up, Dir::Down];
    for (d, e) in DIRS.iter().zip(across) {
        let (nb, points) = t.apply(b, *d);
        assert_eq!(t.apply(transpose(b), e), (transpose(nb), points));
    }
}

#[test]
fn rows_pack_and_reverse() {
    assert_eq!(pack_row([1, 2, 3, 15]), 0xF321);
    assert_eq!(reverse_row(0xF321), 0x123F);
}

#[test]
fn a_pair_of_16384s_does_not_hide_a_65536() {
    let t = Tables::new();
    // A pair of 32768s and a pair of 16384s merge in one move: as many 32768s as before.
    let b = from_grid([[15, 15, 0, 0], [14, 14, 0, 0], [0; 4], [0; 4]]);
    let (nb, points) = t.apply(b, Dir::Left);
    assert_eq!(points, 65536 + 32768);
    assert_eq!(count_rank(nb, 15), count_rank(b, 15));
    assert!(made_65536(b, nb));
    // No 32768s merge here.
    let c = from_grid([[15, 14, 14, 0], [0; 4], [0; 4], [0; 4]]);
    let (nc, _) = t.apply(c, Dir::Left);
    assert!(!made_65536(c, nc));
    assert!(!made_65536(c, c));
}

#[test]
fn moves_keep_the_tile_sum() {
    let t = Tables::new();
    let sum = |b: Board| (0..16).map(|i| cell_rank(b, i)).filter(|r| *r > 0).map(|r| 1u32 << r).sum::<u32>();
    let b = from_grid([[1, 1, 2, 3], [3, 3, 3, 1], [0, 5, 5, 5], [2, 0, 2, 2]]);
    for d in DIRS {
        assert_eq!(sum(t.apply(b, d).0), sum(b));
    }
    let b = from_grid([[15, 15, 0, 1], [0; 4], [0; 4], [0; 4]]);
    assert_eq!(sum(t.apply(b, Dir::Left).0), sum(b) - 32768);
}

#[test]
fn illegal_moves_change_nothing() {
    let t = Tables::new();
    let b = from_grid([[1, 2, 0, 0], [3, 0, 0, 0], [0; 4], [0; 4]]);
    assert_eq!(t.apply(b, Dir::Left), (b, 0));
    let full = from_grid([[1, 2, 1, 2], [2, 1, 2, 1], [1, 2, 1, 2], [2, 1, 2, 1]]);
    for d in DIRS {
        assert_eq!(t.apply(full, d), (full, 0));
    }
}

#[test]
fn legal_moves_leave_room() {
    let t = Tables::new();
    let full = from_grid([[1, 1, 3, 2], [2, 1, 2, 1], [1, 2, 1, 2], [2, 1, 2, 1]]);
    let (nb, points) = t.apply(full, Dir::Left);
    assert_eq!(points, 4);
    assert_eq!(count_empty(nb), 1);
}

#[test]
fn boards_are_counted() {
    let b = from_grid([[1, 1, 14, 0], [15, 0, 0, 0], [0; 4], [3, 0, 0, 1]]);
    assert_eq!(count_empty(b), 10);
    assert_eq!(count_rank(b, 1), 3);
    assert_eq!(count_rank(b, 7), 0);
    assert_eq!(max_rank(b), 15);
    assert_eq!(distinct_tiles(b), 4);
    assert_eq!(max_rank(0), 0);
    assert_eq!(distinct_tiles(0), 0);
    assert_eq!(cell_rank(b, 2), 14);
}

#[test]
fn draws_follow_the_generator() {
    let mut r = Rng(1);
    assert_eq!(r.next(), 0x47E4_CE4B_896C_DD1D);
    assert_eq!(r.0, 0x0000_0000_0200_0001);
    let mut r = Rng(1);
    // The high half, 0x47E4CE4B, of a draw below 10 is 10 * 0.2808...
    assert_eq!(r.below(10), 2);
    assert_eq!(r.below(0), 0);
    assert_eq!(r.below(1), 0);
    let mut r = Rng(0);
    assert_eq!(r.next(), 0);
}

#[test]
fn spawning_adds_one_tile() {
    let mut rng = Rng(12345);
    let mut b: Board = 0;
    for n in 1..=16 {
        let nb = spawn(b, &mut rng);
        assert_eq!(count_empty(nb), 16 - n);
        let changed: Vec<usize> = (0..16).filter(|i| cell_rank(b, *i) != cell_rank(nb, *i)).collect();
        assert_eq!(changed.len(), 1);
        assert_eq!(cell_rank(b, changed[0]), 0);
        assert!(matches!(cell_rank(nb, changed[0]), 1 | 2));
        b = nb;
    }
    let state = rng.0;
    assert_eq!(spawn(b, &mut rng), b);
    assert_eq!(rng.0, state);
}

#[test]
fn spawning_draws_cell_then_tile() {
    let mut a = Rng(99);
    let mut b = Rng(99);
    let nb = spawn(0, &mut a);
    let cell = b.below(16) as usize;
    let rank = if b.below(10) == 0 { 2 } else { 1 };
    assert_eq!(nb, rank << (4 * cell));
    assert_eq!(a.0, b.0);
}

#[test]
fn boards_print_in_columns() {
    let b = from_grid([[1, 0, 0, 15], [0; 4], [0; 4], [0, 10, 0, 0]]);
    let want = "     2     .     . 32768\n     .     .     .     .\n     .     .     .     .\n     .  1024     .     .\n";
    assert_eq!(print(b), want);
}
