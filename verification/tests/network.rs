use g2048::board::{transpose, Board, Tables};
use g2048::episode::{legal_moves, open_game, seed_rng, thread_rng, Episode, EpisodeStats};
use g2048::floats::pick_best;
use g2048::learn::Rule;
use g2048::ntuple::{add_into, downgrade, symmetries, Layout, NTuple, TUPLES_4, TUPLES_8};
use g2048::pool::RestartPool;
use g2048::rng::Rng;
use g2048::train::Teacher;
use g2048::weights::{load_download, read_header, LoadError};

fn plus(a: u32, b: u32) -> u32 {
    (f32::from_bits(a) + f32::from_bits(b)).to_bits()
}

fn minus(a: u32, b: u32) -> u32 {
    (f32::from_bits(a) - f32::from_bits(b)).to_bits()
}

fn times(a: u32, b: u32) -> u32 {
    (f32::from_bits(a) * f32::from_bits(b)).to_bits()
}

fn over(a: u32, b: u32) -> u32 {
    (f32::from_bits(a) / f32::from_bits(b)).to_bits()
}

fn gain(points: u32, x: u32) -> u32 {
    (points as f32 + f32::from_bits(x)).to_bits()
}

fn value(net: &NTuple, b: Board) -> f32 {
    f32::from_bits(net.value(b, 0, &plus))
}

fn update(net: &mut NTuple, b: Board, alpha: f32, err: f32) {
    net.update(b, alpha.to_bits(), err.to_bits(), &Rule { plus, times, over });
}

fn train_episode(net: &mut NTuple, t: &Tables, rng: &mut Rng, alpha: f32, pool: &mut RestartPool, restart_p: f32) -> EpisodeStats {
    let teacher = Teacher { rule: Rule { plus, times, over }, zero: 0, minus, gain };
    let hits = |d: u32| (d as f32) < restart_p * 1e6;
    teacher.train_episode(net, t, rng, alpha.to_bits(), pool, restart_p.to_bits(), hits, u32::MAX).unwrap()
}

#[test]
fn symmetric_boards_share_value() {
    let mut net = NTuple::new(0, 1, &TUPLES_4);
    let t = Tables::new();
    let mut rng = Rng(7);
    let mut pool = RestartPool::new(1, 10);
    for _ in 0..50 {
        train_episode(&mut net, &t, &mut rng, 0.01, &mut pool, 0.0);
    }
    let b: Board = 0x0000_0012_0341_1235;
    let v = value(&net, b);
    assert!((value(&net, transpose(b)) - v).abs() < 1e-2 * v.abs().max(1.0));
}

#[test]
fn diff_then_apply_reproduces_training() {
    let mut a = NTuple::new(0, 1, &TUPLES_4);
    let mut b = NTuple::new(0, 1, &TUPLES_4);
    let snap = a.snapshot();
    let t = Tables::new();
    let mut pool = RestartPool::new(1, 10);
    let mut rng = thread_rng(3, 0);
    for _ in 0..20 {
        train_episode(&mut a, &t, &mut rng, 0.01, &mut pool, 0.0);
    }
    let delta = a.diff(&snap, minus);
    assert!(!delta.is_empty());
    b.apply(&delta, plus);
    assert_eq!(a.snapshot(), b.snapshot());
    assert!(a.diff(&b.snapshot(), minus).is_empty());
}

#[test]
fn diffs_list_every_change_once() {
    let mut net = NTuple::new(0, 1, &TUPLES_4[..1]);
    let base = net.snapshot();
    assert!(net.diff(&base, minus).is_empty());
    net.apply(&[(9, 1.0f32.to_bits()), (4, 2.0f32.to_bits()), (700, (-1.0f32).to_bits())], plus);
    let d = net.diff(&base, minus);
    assert_eq!(d, vec![(4, 2.0f32.to_bits()), (9, 1.0f32.to_bits()), (700, (-1.0f32).to_bits())]);
    assert!(net.diff(&net.snapshot(), minus).is_empty());
}

#[test]
fn downgrade_turns_fresh_32768_into_16384() {
    // 32768, 8192, 4096 and a 2: no 16384 left, so 32768 -> 16384 and nothing else moves.
    let b: Board = 0x0000_0000_1000_CDF0;
    assert_eq!(downgrade(b), 0x0000_0000_1000_CDE0);
    // Boards without 32768 are untouched.
    assert_eq!(downgrade(0x0000_0000_1000_CDE0), 0x0000_0000_1000_CDE0);
}

#[test]
fn downgrade_halves_what_is_above_the_gap() {
    // 32768, 16384 and 4096: 8192 is missing, so the two above it are halved.
    assert_eq!(downgrade(0x0000_0000_0000_0CEF), 0x0000_0000_0000_0CDE);
    // Every rank from 2 to 16384 is there: nothing is missing.
    assert_eq!(downgrade(0x0FED_CBA9_8765_4321), 0x0FED_CBA9_8765_4321);
}

#[test]
fn stages_split_on_big_tiles() {
    let mut net = NTuple::new(0, 1, &TUPLES_4);
    net.expand_stages(3);
    assert_eq!(net.stage(0x0000_0000_0000_00D1), 0); // 8192
    assert_eq!(net.stage(0x0000_0000_0000_00E1), 1); // 16384
    assert_eq!(net.stage(0x0000_0000_0000_00F1), 2); // 32768
    let one = NTuple::new(0, 1, &TUPLES_4);
    assert_eq!(one.stage(0x0000_0000_0000_00F1), 0);
}

#[test]
fn growing_keeps_values() {
    let mut net = NTuple::new(0, 1, &TUPLES_4[..1]);
    let (b, big): (Board, Board) = (0x0000_0012_0341_1235, 0x0000_0000_0000_00E1);
    update(&mut net, b, 0.5, 8.0);
    update(&mut net, big, 0.5, 4.0);
    let (v, w) = (value(&net, b), value(&net, big));
    assert!(v > 0.0);
    assert!(w > 0.0);
    net.expand_stages(2);
    assert_eq!(net.stages(), 2);
    assert_eq!(net.stage(big), 1);
    assert_eq!(value(&net, b), v);
    assert_eq!(value(&net, big), w);
    net.expand_stages(1);
    assert_eq!(net.stages(), 2);
}

#[test]
fn new_networks_value_by_their_start() {
    let net = NTuple::new(0.5f32.to_bits(), 0, &TUPLES_4[..2]);
    assert_eq!(net.tuple_count(), 2);
    assert_eq!(net.stages(), 1);
    // Sixteen weights of a half.
    assert_eq!(value(&net, 0x1234), 8.0);
    assert!(!net.tc_enabled());
}

#[test]
fn coherent_errors_keep_their_step() {
    let mut net = NTuple::new(0, 1, &TUPLES_4[..1]);
    net.enable_tc();
    assert!(net.tc_enabled());
    // All cells differ, so no weight is touched twice.
    let b: Board = 0x0123_4567_89AB_CDEF;
    update(&mut net, b, 0.125, 8.0);
    let first = value(&net, b);
    update(&mut net, b, 0.125, 8.0);
    // All errors so far had one sign, so the second step is as long as the first.
    assert_eq!(value(&net, b), 2.0 * first);
    update(&mut net, b, 0.125, -16.0);
    let turned = value(&net, b);
    update(&mut net, b, 0.125, 8.0);
    // The errors cancel: the step shrinks to nothing.
    assert_eq!(value(&net, b), turned);
}

#[test]
fn errors_move_a_weight_and_its_accumulator() {
    let rule = Rule { plus, times, over };
    let f = |x: f32| x.to_bits();
    // Without an accumulator: alpha times the error.
    assert_eq!(rule.learned(f(0.5), f(4.0), f(1.0), None), (f(3.0), None));
    // One that has seen no error yet scales nothing.
    assert_eq!(rule.learned(f(0.5), f(-4.0), f(1.0), Some((0, 0))), (f(-1.0), Some((f(-4.0), f(4.0)))));
    // Errors of -2 in sum and 8 in size: a quarter of the step is left.
    assert_eq!(rule.learned(f(0.5), f(4.0), f(1.0), Some((f(-2.0), f(8.0)))), (f(1.5), Some((f(2.0), f(12.0)))));
}

#[test]
fn a_cut_short_game_has_no_result() {
    let mut net = NTuple::new(0, 1, &TUPLES_4[..1]);
    let t = Tables::new();
    let teacher = Teacher { rule: Rule { plus, times, over }, zero: 0, minus, gain };
    let (mut one, mut two) = (Rng(7), Rng(7));
    let mut pool = RestartPool::new(1, 10);
    let alpha = 0.5f32.to_bits();
    let r = teacher.train_episode(&mut net, &t, &mut one, alpha, &mut pool, 0, |_: u32| false, 0);
    assert_eq!(r, None);
    // Only the opening was drawn, and nothing was learnt.
    open_game(&mut two);
    assert_eq!(one.0, two.0);
    assert!(net.snapshot().iter().all(|w| *w == 0));
}

#[test]
fn a_dead_board_teaches_that_the_board_before_was_worth_nothing() {
    let mut net = NTuple::new(0, 1, &TUPLES_4[..1]);
    let t = Tables::new();
    let teacher = Teacher { rule: Rule { plus, times, over }, zero: 0, minus, gain };
    let mut pool = RestartPool::new(1, 10);
    let mut rng = Rng(7);
    // All cells differ from their neighbours: no move is left.
    let dead: Board = 0x1212_2121_1212_2121;
    let before: Board = 0x0123_4567_89AB_CDEF;
    update(&mut net, before, 0.5, 2.0);
    let worth = value(&net, before);
    assert_eq!(worth, 8.0);
    let mut e = Episode { board: dead, stage: 0, after: Some(before), score: 40, fresh: true };
    let over_now = teacher.train_turn(&mut net, &t, &mut e, &mut rng, 0.0625f32.to_bits(), &mut pool);
    assert!(over_now);
    // Eight weights of 1 each move by a sixteenth of the error of -8.
    assert_eq!(value(&net, before), 4.0);
    assert_eq!(rng.0, 7);
    assert_eq!(e.stats(), EpisodeStats { score: 40, max_rank: 2, fresh: true });
}

#[test]
fn grown_networks_keep_tc_for_every_weight() {
    let mut net = NTuple::new(0, 1, &TUPLES_4[..1]);
    net.enable_tc();
    // All cells differ and the largest tile is 16384 or more, so stage 1 will hold the board.
    let b: Board = 0x0123_4567_89AB_CDE0;
    update(&mut net, b, 0.125, 8.0);
    let first = value(&net, b);
    net.expand_stages(2);
    assert_eq!((net.stage(b), value(&net, b)), (1, first));
    // The new weights' accumulators start afresh, so the first step is whole.
    update(&mut net, b, 0.125, -16.0);
    let turned = value(&net, b);
    assert_eq!(turned, -first);
    // From then on they scale: -16 and 16 so far is all of one sign, then 16 of opposite.
    update(&mut net, b, 0.125, 16.0);
    assert_eq!(value(&net, b), first);
    // The errors cancel: the step shrinks to nothing.
    update(&mut net, b, 0.125, 8.0);
    assert_eq!(value(&net, b), first);
}

#[test]
fn cells_have_eight_symmetric_places() {
    assert_eq!(symmetries(1), [1, 7, 14, 8, 2, 11, 13, 4]);
    assert_eq!(symmetries(5), [5, 6, 10, 9, 6, 10, 9, 5]);
}

#[test]
fn indices_name_tuple_and_filling() {
    let layout = Layout::new(2, &TUPLES_8);
    let mut ix = [0; 64];
    assert_eq!(layout.indices(0, &mut ix), 64);
    for j in 0..64 {
        assert_eq!(ix[j], (j / 8) * 0x100_0000);
    }
    // A 2 in cell 0, the first cell of the first tuple in its first place.
    layout.indices(1, &mut ix);
    assert_eq!(ix[0], 0x10_0000);
    // 16384 is in the second stage.
    layout.indices(0xE, &mut ix);
    assert_eq!(ix[0], 8 * 0x100_0000 + 0xE0_0000);
}

#[test]
fn deltas_past_the_end_are_ignored() {
    let mut v = vec![1.0f32.to_bits(), 2.0f32.to_bits()];
    add_into(&mut v, &[(1, 0.5f32.to_bits()), (7, 1.0f32.to_bits()), (1, 0.5f32.to_bits())], plus);
    assert_eq!(v, vec![1.0f32.to_bits(), 3.0f32.to_bits()]);
}

#[test]
fn files_keep_the_network() {
    let mut net = NTuple::new(0, 1, &TUPLES_8[3..4]);
    update(&mut net, 0x4321, 0.5, 3.0);
    let bytes = net.save();
    assert_eq!(bytes.len(), 16 + 6 + 4 * 0x100_0000);
    assert_eq!(&bytes[..22], b"2048NT03\x01\0\0\0\x01\0\0\0\x02\x03\x04\x05\x06\x09");
    let header = read_header(&bytes).unwrap();
    assert!(header.shape_ok());
    assert_eq!(header.start, 22);
    let back = NTuple::load_from(&bytes).unwrap_or_else(|e| panic!("{e:?}"));
    assert_eq!(back.snapshot(), net.snapshot());
    assert_eq!(back.layout().tuples(), net.layout().tuples());
    assert_eq!(NTuple::load_from(&bytes[..bytes.len() - 1]).err(), Some(LoadError::Truncated));
    let mut download = 77u64.to_le_bytes().to_vec();
    download.extend(&bytes);
    let (seq, again) = load_download(&download).unwrap_or_else(|e| panic!("{e:?}"));
    assert_eq!(seq, 77);
    assert_eq!(again.snapshot(), net.snapshot());
}

#[test]
fn older_files_have_four_tuples() {
    let h = read_header(b"2048NT01").unwrap();
    assert_eq!((h.stages, h.start), (1, 8));
    assert_eq!(h.tuples, TUPLES_4.to_vec());
    let h = read_header(b"2048NT02\x03\0\0\0").unwrap();
    assert_eq!((h.stages, h.start), (3, 12));
    assert_eq!(h.tuples, TUPLES_4.to_vec());
    assert!(h.shape_ok());
}

#[test]
fn bad_files_are_refused() {
    assert_eq!(read_header(b"2048").err(), Some(LoadError::Truncated));
    assert_eq!(read_header(b"2048NT04").err(), Some(LoadError::NotWeights));
    assert_eq!(read_header(b"2048NT02\x03\0\0").err(), Some(LoadError::Truncated));
    assert_eq!(read_header(b"2048NT03\x01\0\0\0\x02\0\0\0\0\x01\x02\x03\x04\x05").err(), Some(LoadError::Truncated));
    let odd = read_header(b"2048NT03\x01\0\0\0\x01\0\0\0\0\x01\x02\x03\x04\x10").unwrap();
    assert!(!odd.shape_ok());
    let none = read_header(b"2048NT03\x01\0\0\0\0\0\0\0").unwrap();
    assert!(!none.shape_ok());
}

#[test]
fn pools_keep_to_their_cap() {
    let mut pool = RestartPool::new(3, 2);
    let mut rng = Rng(5);
    assert_eq!(pool.pick(&mut rng), None);
    assert_eq!(rng.0, 5);
    pool.add(2, 10, &mut rng);
    pool.add(2, 11, &mut rng);
    assert_eq!(rng.0, 5);
    assert_eq!(pool.sizes(), vec![0, 0, 2]);
    pool.add(2, 12, &mut rng);
    assert_ne!(rng.0, 5);
    assert_eq!(pool.sizes(), vec![0, 0, 2]);
    pool.add(1, 20, &mut rng);
    assert_eq!(pool.sizes(), vec![0, 1, 2]);
    let mut seen = vec![];
    for _ in 0..200 {
        seen.push(pool.pick(&mut rng).unwrap());
    }
    assert!(seen.contains(&12));
    assert!(seen.contains(&20));
    assert!(seen.iter().all(|b| matches!(b, 10 | 11 | 12 | 20)));
}

#[test]
fn games_restart_from_saved_boards() {
    let layout = Layout::new(3, &TUPLES_4[..1]);
    let mut pool = RestartPool::new(3, 5);
    let mut rng = Rng(5);
    pool.add(1, 0xE1, &mut rng);
    let e = Episode::start(&layout, &pool, &mut rng, 1.0f32.to_bits(), |_| true);
    assert_eq!((e.board, e.stage, e.fresh, e.score), (0xE1, 1, false, 0));
    let before = rng.0;
    let e = Episode::start(&layout, &pool, &mut rng, 0, |_| true);
    assert!(e.fresh);
    let mut again = Rng(before);
    assert_eq!(open_game(&mut again), e.board);
    assert_eq!(again.0, rng.0);
    let e = Episode::start(&layout, &pool, &mut rng, 1.0f32.to_bits(), |_| false);
    assert!(e.fresh);
    assert_eq!(e.stage, 0);
}

#[test]
fn new_stages_are_saved_once() {
    let t = Tables::new();
    let layout = Layout::new(3, &TUPLES_4[..1]);
    let mut pool = RestartPool::new(3, 5);
    let mut rng = Rng(5);
    let mut e = Episode::start(&layout, &pool, &mut rng, 0, |_| false);
    e.board = 0xDD;
    let n = legal_moves(&t, e.board).len();
    // Up is illegal, so the first move down; then left is worth most.
    assert_eq!(n, 3);
    let turn = e.turn(&t, &layout, &[0, 5.0f32.to_bits(), 1.0f32.to_bits()], &mut pool, &mut rng);
    assert_eq!(turn.learn, None);
    assert!(!turn.over);
    assert_eq!(e.score, 16384);
    assert_eq!(e.after, Some(0xE));
    assert_eq!(e.stage, 1);
    assert_eq!(pool.sizes(), vec![0, 1, 0]);
    let n = legal_moves(&t, e.board).len();
    let turn = e.turn(&t, &layout, &vec![7.0f32.to_bits(); n], &mut pool, &mut rng);
    assert_eq!(turn.learn, Some((0xE, 7.0f32.to_bits())));
    assert_eq!(pool.sizes(), vec![0, 1, 0]);
}

#[test]
fn ended_games_are_worth_nothing_more() {
    let t = Tables::new();
    let layout = Layout::new(1, &TUPLES_4[..1]);
    let mut pool = RestartPool::new(1, 5);
    let mut rng = Rng(5);
    let mut e = Episode::start(&layout, &pool, &mut rng, 0, |_| false);
    e.board = 0x1212_2121_1212_2121;
    e.after = Some(42);
    e.score = 100;
    let turn = e.turn(&t, &layout, &[], &mut pool, &mut rng);
    assert!(turn.over);
    assert_eq!(turn.learn, Some((42, 0)));
    let s = e.stats();
    assert_eq!((s.score, s.max_rank, s.fresh), (100, 2, true));
}

#[test]
fn the_first_greatest_value_is_picked() {
    let bits = |v: &[f32]| v.iter().map(|x| x.to_bits()).collect::<Vec<u32>>();
    assert_eq!(pick_best(&[]), None);
    assert_eq!(pick_best(&bits(&[1.0, 3.0, 3.0, 2.0])), Some(1));
    assert_eq!(pick_best(&bits(&[-5.0, -1.0, -2.0])), Some(1));
    assert_eq!(pick_best(&bits(&[0.0, -0.0])), Some(0));
    assert_eq!(pick_best(&bits(&[-0.0, 0.0])), Some(0));
    assert_eq!(pick_best(&bits(&[f32::NAN, 5.0])), Some(0));
    assert_eq!(pick_best(&bits(&[1.0, f32::NAN, 5.0])), Some(2));
    assert_eq!(pick_best(&bits(&[f32::NEG_INFINITY, f32::INFINITY])), Some(1));
}

#[test]
fn seeds_are_odd_and_differ() {
    assert_eq!(seed_rng(1).0, 0x9E37_79B9_7F4A_7C15);
    assert_eq!(seed_rng(0).0, 1);
    assert_eq!(thread_rng(42, 0).0, seed_rng(43).0);
    assert_ne!(thread_rng(42, 0).0, thread_rng(42, 1).0);
}
