use g2048::ai::{chance_children, row_features, scored_rows, Ai, Features, Memory, CACHE_DEPTH_LIMIT, CPROB_THRESH};
use g2048::board::{count_empty, transpose, Board, Dir, Tables, DIRS};
use g2048::cli::{flag, positional, report, saves_after, thread_count, Game, GameResult, Window, WINDOW};
use g2048::columns::{duration, heat, thousands};
use g2048::deltas::DeltaLog;
use g2048::episode::EpisodeStats;
use g2048::http::Query;
use g2048::le::{get_u16, get_u32, get_u64, push_u16, push_u32, push_u64};
use g2048::search::{Arith, LOWEST, ONE, TINY};
use g2048::sort::sorted;
use g2048::status::{machine_line, pulse, status_page, Headline, Load, Pulse, Results};
use g2048::text::{
    comes_before, decimal_chars, parse_whole, split, split_lines, split_once, split_words,
    strip_prefix, to_chars, to_lower, to_text, trim,
};
use g2048::workers::Workers;

#[test]
fn depth_follows_the_settings() {
    let ai = Ai::new();
    // Seven different tiles: five layers; few tiles: three.
    assert_eq!(ai.depth_limit(0x0765_4321), 5);
    assert_eq!(ai.depth_limit(0x21), 3);
    assert_eq!(ai.reward(16), 0);
    let ai = Ai::with_net(0);
    assert_eq!(ai.depth_limit(0x0765_4321), 1);
    assert_eq!(ai.reward(16), 16);
    let ai = Ai::with_net(2).with_endgame_depth(Some(4));
    assert_eq!(ai.depth_limit(0xD), 2);
    assert_eq!(ai.depth_limit(0xE), 4);
}

#[test]
fn branches_end_when_unlikely_or_deep() {
    assert_eq!(f32::from_bits(CPROB_THRESH), 0.0001);
    let ai = Ai::new();
    assert!(ai.ends_branch(0.00009f32.to_bits(), 0, 3));
    assert!(!ai.ends_branch(0.0001f32.to_bits(), 0, 3));
    assert!(ai.ends_branch(1.0f32.to_bits(), 3, 3));
    assert!(!ai.ends_branch(1.0f32.to_bits(), 2, 3));
    let ai = Ai::new().with_cprob(Some(0.5f32.to_bits()));
    assert!(ai.ends_branch(0.4f32.to_bits(), 0, 3));
    let ai = Ai::new().with_cprob(None);
    assert!(!ai.ends_branch(0.4f32.to_bits(), 0, 3));
}

#[test]
fn the_best_move_is_legal() {
    let ai = Ai::new();
    let b = 0x11;
    let options: Vec<Dir> = ai.options(b).iter().map(|o| o.0).collect();
    assert_eq!(options, vec![Dir::Down, Dir::Left, Dir::Right]);
    assert_eq!(ai.tables().apply(b, Dir::Left), (0x2, 4));
    assert_eq!(best(&ai, 0x1212_2121_1212_2121), None);
}

fn empties(b: Board) -> f32 {
    count_empty(b) as f32
}

fn best(ai: &Ai, b: Board) -> Option<Dir> {
    let f = f32::from_bits;
    let arith = Arith {
        eval: |b: Board| empties(b).to_bits(),
        share: move |x: u32, n: u32| (f(x) / n as f32).to_bits(),
        weigh: move |x: u32, four: bool| (f(x) * if four { 0.1 } else { 0.9 }).to_bits(),
        plus: move |x: u32, y: u32| (f(x) + f(y)).to_bits(),
        gain: move |points: u32, x: u32| (ai.reward(points) as f32 + f(x)).to_bits(),
    };
    ai.best_move(b, &arith)
}

fn leaf(b: Board) -> f32 {
    (0..16).map(|i| (i + 1) as f32 * ((b >> (4 * i)) & 0xF) as f32).sum::<f32>() + 3.0 * empties(b)
}

/// An expectimax written down in floats, which notes the boards it values directly.
struct Plain<'a> {
    ai: &'a Ai,
    limit: u32,
    thresh: f32,
    seen: std::collections::HashMap<Board, (u32, f32)>,
    leaves: Vec<Board>,
}

impl Plain<'_> {
    fn chance(&mut self, b: Board, cprob: f32, depth: u32) -> f32 {
        if cprob < self.thresh || depth >= self.limit {
            self.leaves.push(b);
            return leaf(b);
        }
        if let Some(&(d, v)) = self.seen.get(&b) {
            if d <= depth && depth < CACHE_DEPTH_LIMIT {
                return v;
            }
        }
        let open = count_empty(b) as f32;
        let mut sum = 0.0;
        for i in 0..16 {
            if (b >> (4 * i)) & 0xF == 0 {
                sum += self.max(b | (1 << (4 * i)), cprob / open * 0.9, depth) * 0.9;
                sum += self.max(b | (2 << (4 * i)), cprob / open * 0.1, depth) * 0.1;
            }
        }
        if depth < CACHE_DEPTH_LIMIT {
            self.seen.insert(b, (depth, sum / open));
        }
        sum / open
    }

    fn max(&mut self, b: Board, cprob: f32, depth: u32) -> f32 {
        let mut best = f32::NEG_INFINITY;
        for (_, nb, r) in self.ai.options(b) {
            best = best.max(self.ai.reward(r) as f32 + self.chance(nb, cprob, depth + 1));
        }
        if best == f32::NEG_INFINITY { 0.0 } else { best }
    }

    fn best_move(&mut self, b: Board) -> Option<Dir> {
        let mut best: Option<(Dir, f32)> = None;
        for (d, nb, r) in self.ai.options(b) {
            let v = self.ai.reward(r) as f32 + self.chance(nb, 1.0, 0) + 1e-6;
            if best.map_or(true, |(_, x)| v > x) {
                best = Some((d, v));
            }
        }
        best.map(|(d, _)| d)
    }
}

#[test]
fn searches_go_as_deep_as_asked_and_no_deeper() {
    let f = f32::from_bits;
    let mut counts = vec![];
    for (depth, thresh) in [(1, 0.0), (2, 0.0), (2, 0.05), (3, 0.0), (3, 0.001), (3, 0.02)] {
        let ai = Ai::with_net(depth).with_cprob(Some(f32::to_bits(thresh)));
        let mut n = 0;
        for b in [0x1234_2345_3456_0012, 0x1203_4560_2345_0711, 0x0012_0341_1235_4562] {
            let leaves = std::cell::RefCell::new(vec![]);
            let arith = Arith {
                eval: |b: Board| {
                    leaves.borrow_mut().push(b);
                    leaf(b).to_bits()
                },
                share: |x: u32, n: u32| (f(x) / n as f32).to_bits(),
                weigh: |x: u32, four: bool| (f(x) * if four { 0.1 } else { 0.9 }).to_bits(),
                plus: |x: u32, y: u32| (f(x) + f(y)).to_bits(),
                gain: |points: u32, x: u32| (ai.reward(points) as f32 + f(x)).to_bits(),
            };
            let got = ai.best_move(b, &arith);
            let mut plain = Plain { ai: &ai, limit: depth, thresh, seen: Default::default(), leaves: vec![] };
            assert_eq!(got, plain.best_move(b));
            assert_eq!(*leaves.borrow(), plain.leaves);
            n += plain.leaves.len();
        }
        counts.push(n);
    }
    // A deeper search values more boards, and one that cuts off unlikely branches fewer.
    assert!(counts[0] < counts[1] && counts[1] < counts[3]);
    assert!(counts[2] < counts[1] && counts[5] < counts[4] && counts[4] < counts[3]);
}

#[test]
fn one_layer_of_chance_is_averaged() {
    assert_eq!((f32::from_bits(ONE), f32::from_bits(TINY), f32::from_bits(LOWEST)), (1.0, 1e-6, f32::NEG_INFINITY));
    let ai = Ai::with_net(1);
    let t = Tables::new();
    let after = |b: Board| {
        DIRS.iter()
            .map(|d| t.apply(b, *d))
            .filter(|(nb, _)| *nb != b)
            .map(|(nb, r)| r as f32 + empties(nb))
            .fold(None, |m: Option<f32>, v| Some(m.map_or(v, |x| x.max(v))))
            .unwrap_or(0.0)
    };
    let mean = |b: Board| {
        let mut sum = 0.0;
        for i in 0..16 {
            if (b >> (4 * i)) & 0xF == 0 {
                sum += after(b | (1 << (4 * i))) * 0.9;
                sum += after(b | (2 << (4 * i))) * 0.1;
            }
        }
        sum / empties(b)
    };
    for b in [0x11, 0x0021_0132_2113, 0x1234_4321_1230_0021, 0x0000_0B00_3221_5543u64] {
        let mut want: Option<(Dir, f32)> = None;
        for d in DIRS {
            let (nb, r) = t.apply(b, d);
            if nb != b {
                let v = r as f32 + mean(nb) + 1e-6;
                if want.map_or(true, |(_, w)| v > w) {
                    want = Some((d, v));
                }
            }
        }
        assert_eq!(best(&ai, b), want.map(|w| w.0));
    }
}

#[test]
fn deeper_searches_see_the_merge() {
    // Two 8s apart, a 2 in between: whatever the depth, a legal move comes out.
    let ai = Ai::new();
    for b in [0x0303, 0x0103_0003, 0x0000_4321_0000_1234u64] {
        let d = best(&ai, b).unwrap();
        assert_ne!(ai.tables().apply(b, d).0, b);
    }
}

#[test]
fn chances_are_listed_cell_by_cell() {
    let b = 0x1111_1111_1111_0110;
    let boards = chance_children(b);
    let want = vec![
        (0x1111_1111_1111_0111, false),
        (0x1111_1111_1111_0112, true),
        (0x1111_1111_1111_1110, false),
        (0x1111_1111_1111_2110, true),
    ];
    assert_eq!(boards, want);
    assert_eq!(boards.len() as u32, 2 * count_empty(b));
    let b = 0x4321_8765_CBA9_0FED;
    let rows = scored_rows(b);
    let t = transpose(b);
    for k in 0..4 {
        assert_eq!(rows[k], ((b >> (16 * k)) & 0xFFFF) as u16);
        assert_eq!(rows[4 + k], ((t >> (16 * k)) & 0xFFFF) as u16);
    }
}

#[test]
fn memory_serves_deeper_searches() {
    let mut m = Memory::new();
    assert_eq!(m.recall(5, 3), None);
    m.keep(5, 3, 77);
    assert_eq!(m.recall(5, 2), None);
    assert_eq!(m.recall(5, 3), Some(77));
    assert_eq!(m.recall(5, 9), Some(77));
    assert_eq!(m.recall(5, CACHE_DEPTH_LIMIT), None);
    m.keep(6, CACHE_DEPTH_LIMIT, 1);
    assert_eq!(m.recall(6, 14), None);
    m.keep(5, 1, 78);
    assert_eq!(m.recall(5, 1), Some(78));
}

#[test]
fn rows_show_their_features() {
    assert_eq!(row_features(0x0000), Features { empty: 4, merges: 0, falls: 0, rises: 0 });
    // [2,2,2,4]: three equal tiles count three.
    assert_eq!(row_features(0x2111), Features { empty: 0, merges: 3, falls: 0, rises: 15 });
    // [4,.,4,2]: an empty cell does not part a pair.
    assert_eq!(row_features(0x1202), Features { empty: 1, merges: 2, falls: 31, rises: 16 });
    assert_eq!(row_features(0x2211), Features { empty: 0, merges: 4, falls: 0, rises: 15 });
    assert_eq!(row_features(0x000F), Features { empty: 3, merges: 0, falls: 50625, rises: 0 });
}

#[test]
fn games_follow_the_rules() {
    let t = Tables::new();
    let mut g = Game::start(1);
    assert_eq!(count_empty(g.board), 14);
    g.board = 0x11;
    g.play(&t, Dir::Left);
    assert_eq!((g.score, g.moves), (4, 1));
    assert_eq!(count_empty(g.board), 14);
    let r = g.result();
    assert_eq!((r.score, r.max_rank, r.moves), (4, 2, 1));
}

fn strings(v: &[&str]) -> Vec<String> {
    v.iter().map(|s| s.to_string()).collect()
}

#[test]
fn arguments_are_told_apart() {
    let args = strings(&["16", "--net", "f.bin", "7", "--depth", "2", "--last"]);
    assert_eq!(positional(&args), strings(&["16", "7"]));
    assert_eq!(flag(&args, "--net"), Some("f.bin".to_string()));
    assert_eq!(flag(&args, "--depth"), Some("2".to_string()));
    assert_eq!(flag(&args, "--last"), None);
    assert_eq!(flag(&args, "--seed"), None);
    assert_eq!(thread_count(8, 100), 8);
    assert_eq!(thread_count(8, 3), 3);
    assert_eq!(thread_count(8, 0), 1);
}

#[test]
fn benchmarks_report_median_and_tiles() {
    let game = |score, max_rank, moves| GameResult { score, max_rank, moves };
    let r = report(&vec![game(30, 11, 3), game(10, 15, 1), game(40, 10, 4), game(20, 12, 2)]).unwrap();
    assert_eq!((r.games, r.moves, r.score, r.median, r.max), (4, 10, 100, 30, 40));
    assert_eq!(r.reached, [3, 2, 1, 1, 1]);
    assert!(report(&vec![game(u64::MAX, 1, 1), game(1, 1, 1)]).is_none());
}

#[test]
fn windows_hand_out_their_tallies() {
    let mut w = Window::new();
    let e = EpisodeStats { score: 5, max_rank: 13, fresh: true };
    for _ in 1..WINDOW {
        assert!(w.count(&e).is_none());
    }
    let full = w.count(&e).unwrap();
    assert_eq!((full.games, full.score, full.reached), (WINDOW, 5 * WINDOW, [WINDOW, WINDOW, WINDOW, 0]));
    assert_eq!(w, Window::new());
    assert!(saves_after(99_999));
    assert!(saves_after(105_000));
    assert!(!saves_after(109_999));
    assert!(saves_after(0));
}

#[test]
fn sorting_is_unique() {
    assert_eq!(sorted(vec![5u64, 3, 9, 3, 1]), vec![1, 3, 3, 5, 9]);
    assert_eq!(sorted(Vec::<u64>::new()), vec![]);
    assert_eq!(sorted(vec![(3u32, 1u32), (1, 2), (2, 3)]), vec![(1, 2), (2, 3), (3, 1)]);
}

#[test]
fn numbers_are_stored_lowest_byte_first() {
    let mut v = vec![];
    push_u16(&mut v, 0x1234);
    push_u32(&mut v, 0x89AB_CDEF);
    push_u64(&mut v, 0x0123_4567_89AB_CDEF);
    assert_eq!(v[..6], [0x34, 0x12, 0xEF, 0xCD, 0xAB, 0x89]);
    assert_eq!(get_u16(&v, 0), 0x1234);
    assert_eq!(get_u32(&v, 2), 0x89AB_CDEF);
    assert_eq!(get_u64(&v, 6), 0x0123_4567_89AB_CDEF);
}

#[test]
fn texts_are_taken_apart() {
    let c = |s: &str| to_chars(s);
    let back = |v: Vec<Vec<char>>| v.iter().map(|p| to_text(p)).collect::<Vec<String>>();
    assert_eq!(back(split(&c("a,,b,"), ',')), strings(&["a", "", "b", ""]));
    assert_eq!(back(split(&c(""), ',')), strings(&[""]));
    assert_eq!(back(split_lines(&c("a\r\nb\n\nc\r"))), strings(&["a", "b", "", "c\r"]));
    assert_eq!(back(split_lines(&c(""))), strings(&[]));
    assert_eq!(back(split_words(&c("  x\ty \u{3000}z\n"))), strings(&["x", "y", "z"]));
    assert_eq!(split_once(&c("a=b=c"), '='), Some((c("a"), c("b=c"))));
    assert_eq!(split_once(&c("abc"), '='), None);
    assert_eq!(to_text(&trim(&c(" \t a b\u{a0}\n"))), "a b");
    assert_eq!(to_text(&trim(&c(" \n"))), "");
    assert_eq!(strip_prefix(&c("abc"), &c("ab")), Some(c("c")));
    assert_eq!(strip_prefix(&c("abc"), &c("b")), None);
    assert_eq!(to_text(&to_lower(&c("Content-ÄZ"))), "content-Äz");
    assert!(comes_before(&c("a"), &c("ab")));
    assert!(comes_before(&c("Z"), &c("a")));
    assert!(!comes_before(&c("a"), &c("a")));
}

#[test]
fn decimals_read_back() {
    for n in [0, 7, 10, 905, 1_000_000, u64::MAX] {
        assert_eq!(to_text(&decimal_chars(n)), n.to_string());
        assert_eq!(parse_whole(&decimal_chars(n)), Some(n));
    }
    let p = |s: &str| parse_whole(&to_chars(s));
    assert_eq!(p("+12"), Some(12));
    assert_eq!(p("007"), Some(7));
    assert_eq!(p(""), None);
    assert_eq!(p("+"), None);
    assert_eq!(p("-1"), None);
    assert_eq!(p("1 "), None);
    assert_eq!(p("18446744073709551616"), None);
}

#[test]
fn figures_are_grouped_and_timed() {
    assert_eq!(thousands("1234567"), "1,234,567");
    assert_eq!(thousands("999"), "999");
    assert_eq!(thousands(""), "");
    assert_eq!(duration(125, 7500), "2h 05m");
    assert_eq!(duration(75, 4500), "1h 15m");
    assert_eq!(duration(59, 3599), "59m");
    assert_eq!(duration(0, 42), "42s");
    assert_eq!(heat(95.0f64.to_bits()), "31");
    assert_eq!(heat(94.9f64.to_bits()), "33");
    assert_eq!(heat(85.0f64.to_bits()), "33");
    assert_eq!(heat(20.0f64.to_bits()), "32");
}

#[test]
fn machines_are_shown_by_their_pulse() {
    let mut ws = Workers::new();
    ws.beat("a", Query::new(), 1000);
    assert_eq!(pulse(ws.get(0), 1000 + 59_999_999_999), Pulse::Beating);
    assert_eq!(pulse(ws.get(0), 1000 + 60_000_000_000), Pulse::Offline);
    let load = Load::Beating {
        state: "training".to_string(),
        cpu: Some("98".to_string()),
        temp: Some((90.0f64.to_bits(), "90".to_string())),
        ram: Some(("30.1".to_string(), "31.0".to_string(), true)),
        rss: None,
    };
    assert_eq!(
        machine_line("dell", &load, false),
        "dell        * training        98%     90C      30.1 / 31.0 GB        -\n"
    );
    assert_eq!(
        machine_line("dell", &load, true),
        "dell        \x1b[32m* training     \x1b[0m   98%\x1b[33m     90C\x1b[0m\x1b[31m      30.1 / 31.0 GB\x1b[0m        -\n"
    );
    assert_eq!(machine_line("x", &Load::Old, false), "x           old worker          ?       ?      update the exe\n");
    let off = Load::Offline { since: "2h 05m".to_string() };
    assert_eq!(machine_line("x", &off, true), "x           \x1b[31mOFFLINE 2h 05m \x1b[0m\n");
}

#[test]
fn the_page_has_all_parts() {
    let h = Headline {
        alpha: "0.0015625".to_string(),
        tc: false,
        paused: true,
        bar: 3,
        percent: "10.0".to_string(),
        games: "10.0M".to_string(),
        goal: "100.0M".to_string(),
        eta: "9h 00m".to_string(),
        best: "618,084".to_string(),
    };
    let row = |label: &str| Results {
        label: label.to_string(),
        rate: "12".to_string(),
        mean: "288,598".to_string(),
        shares: ["98.2", "93.2", "74.2", "0.05", "0.00"].map(|s| s.to_string()),
        best: "300,000".to_string(),
    };
    let ms = vec![("dell".to_string(), Load::Old)];
    let log = DeltaLog::new(7, 0);
    let page = status_page(&h, &ms, &vec![row("dell")], &row("ALL"), log.seq(), "3m", log.held(), 5 << 20, false);
    let want = "2048 TRAINING FARM   alpha 0.0015625   TC off   PAUSED\n\
progress  ###...........................  10.0%  10.0M / 100.0M games  ETA 9h 00m\n\
best game 618,084\n\
\n\
MACHINE     STATUS            CPU    TEMP      RAM used/total    g2048\n\
dell        old worker          ?       ?      update the exe\n\
\n\
RESULTS       games/s  mean score    2048    4096    8192   16384   32768        best\n\
dell               12     288,598   98.2%   93.2%   74.2%   0.05%   0.00%     300,000\n\
ALL                12     288,598   98.2%   93.2%   74.2%   0.05%   0.00%     300,000\n\
\n\
master: update 7, saved 3m ago, 0 updates held (5 MB). Scores are over each machine's last 20 chunks.\n";
    assert_eq!(page, want);
    // In colour it is the same page with codes in it.
    let page = status_page(&h, &ms, &vec![row("dell")], &row("ALL"), log.seq(), "3m", log.held(), 5 << 20, true);
    assert_ne!(page, want);
    let mut plain = String::new();
    for (k, piece) in page.split('\x1b').enumerate() {
        plain += if k == 0 { piece } else { piece.split_once('m').unwrap().1 };
    }
    assert_eq!(plain, want);
}
