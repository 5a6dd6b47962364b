use g2048::bundle::{read_bundle, End};
use g2048::chunk::Chunk;
use g2048::codec::{can_round, carry, decode, encode, from_bf16, parse, to_bf16, Parsed};
use g2048::coord::{Coord, Submitted};
use g2048::deltas::{DeltaLog, LOG_MAX_AGE, STALE_AFTER};
use g2048::episode::EpisodeStats;
use g2048::http::{parse_query, response_head, route, Query, Request, Route};
use g2048::job::{
    current_job, follows_otd, job_text, job_value, job_values, next_action, otd_phase, own_key, schedule_job,
    thread_count, Action, BUILD, BUILD_BITS, DEFAULT_JOB,
};
use g2048::load::{load_query, Sampler};
use g2048::ntuple::{add_into, NTuple, TUPLES_4};
use g2048::select::{can_pick, pick_largest, products, scaled, settle};
use g2048::shares::{Rates, LEAST, MOST};
use g2048::worker::{
    after_exit, after_sync, amounts, base_url, beat_target, cpu_since, cpu_times, delta_target, deltas_target,
    first_set, next_seed, pull_step, response_name, run_name, scale_word, sensor, status_code,
    AfterExit, AfterSync, PullStep, Sensor, STOP_EXIT, UPDATE_EXIT,
};
use g2048::workers::RECENT;

const BYTES_PER_ENTRY: f64 = 3.5;

fn bits(d: &[(u32, f32)]) -> Vec<(u32, u32)> {
    d.iter().map(|(i, x)| (*i, x.to_bits())).collect()
}

fn plus(a: u32, b: u32) -> u32 {
    (f32::from_bits(a) + f32::from_bits(b)).to_bits()
}

fn minus(a: u32, b: u32) -> u32 {
    (f32::from_bits(a) - f32::from_bits(b)).to_bits()
}

fn times(a: u32, b: u32) -> u32 {
    (f32::from_bits(a) * f32::from_bits(b)).to_bits()
}

fn plus64(a: u64, b: u64) -> u64 {
    (f64::from_bits(a) + f64::from_bits(b)).to_bits()
}

type Op = fn(u64, u64) -> u64;

fn rates() -> Rates<Op, Op, Op, fn(u64) -> u32> {
    Rates {
        plus: plus64,
        per: |n, secs| (n as f64 / f64::from_bits(secs)).to_bits(),
        over: |a, b| (f64::from_bits(a) / f64::from_bits(b)).to_bits(),
        narrow: |x| (f64::from_bits(x) as f32).to_bits(),
    }
}

fn number(s: &str) -> Option<u64> {
    s.parse::<f64>().ok().map(f64::to_bits)
}

#[test]
fn delta_roundtrip() {
    let d = bits(&[(0, 1.5), (5, -2.0), (300, 0.25), (400_000_000, 7.0)]);
    assert_eq!(decode(&encode(&d)).unwrap(), d);
    assert_eq!(decode(&encode(&[])).unwrap(), vec![]);
}

#[test]
fn pick_largest_keeps_the_biggest_within_budget() {
    let raw = bits(&[(1, 0.001), (2, -5.0), (3, 0.5), (4, 3.0)]);
    let keep = (2.0 * BYTES_PER_ENTRY / BYTES_PER_ENTRY) as usize;
    let got = pick_largest(raw, keep);
    assert_eq!(got, bits(&[(2, -5.0), (4, 3.0)]));
}

#[test]
fn deltas_have_a_fixed_form() {
    // Two entries: index 5 and 305, a gap of 300 in two bytes; 1.0 and -2.0 as bf16.
    let d = bits(&[(5, 1.0), (305, -2.0)]);
    assert_eq!(encode(&d), vec![2, 0, 0, 0, 5, 0x80, 0x3F, 0xAC, 0x02, 0x00, 0xC0]);
    assert_eq!(encode(&[(u32::MAX, 0)]), vec![1, 0, 0, 0, 0xFF, 0xFF, 0xFF, 0xFF, 0x0F, 0, 0]);
}

#[test]
fn broken_deltas_are_told_apart() {
    assert_eq!(parse(&[1, 0, 0]), Parsed::Malformed);
    assert_eq!(parse(&[1, 0, 0, 0]), Parsed::Malformed);
    assert_eq!(parse(&[1, 0, 0, 0, 5, 0x80]), Parsed::Malformed);
    assert_eq!(parse(&[1, 0, 0, 0, 0x85]), Parsed::Malformed);
    let top = [2, 0, 0, 0, 0xFF, 0xFF, 0xFF, 0xFF, 0x0F, 0, 0, 1, 0, 0];
    assert_eq!(parse(&top), Parsed::IndexTooLarge);
    // What follows the entries is ignored; the fifth group's high bits are cut off.
    assert_eq!(parse(&[0, 0, 0, 0, 9, 9]), Parsed::Delta(vec![]));
    assert_eq!(parse(&[1, 0, 0, 0, 0x81, 0x80, 0x80, 0x80, 0xF0, 0x80, 0x3F]), Parsed::Delta(bits(&[(1, 1.0)])));
    assert_eq!(decode(&[1, 0]), None);
}

#[test]
fn halves_round_to_the_nearest_even() {
    assert_eq!(to_bf16(1.0f32.to_bits()), 0x3F80);
    assert_eq!(to_bf16(0x3F80_8000), 0x3F80);
    assert_eq!(to_bf16(0x3F81_8000), 0x3F82);
    assert_eq!(to_bf16(0x3F80_8001), 0x3F81);
    assert_eq!(to_bf16(0x3F80_7FFF), 0x3F80);
    assert_eq!(from_bf16(0x3F80), 1.0f32.to_bits());
    assert_eq!(carry(0x3F80_8001), 0x3F81_0000);
    assert_eq!(carry(carry(0x1234_9ABC)), carry(0x1234_9ABC));
    assert!(can_round(f32::NEG_INFINITY.to_bits()));
    assert!(!can_round(0xFFFF_8000));
    assert!(can_round(0xFFFF_7FFF));
}

#[test]
fn all_changes_go_where_there_is_room() {
    let raw = bits(&[(1, 0.5), (2, 0.0), (9, -4.0)]);
    assert_eq!(pick_largest(raw.clone(), 3), bits(&[(1, 0.5), (9, -4.0)]));
    // Nothing fits: all stays for a later chunk.
    assert!(can_pick(&raw, 0));
    assert_eq!(pick_largest(raw.clone(), 0), vec![]);
    assert_eq!(pick_largest(bits(&[(1, 1.0)]), 0), vec![]);
    // Out of order: what is kept is sorted.
    let raw = bits(&[(7, 3.0), (2, 5.0), (5, 0.1), (3, -4.0)]);
    assert_eq!(pick_largest(raw, 3), bits(&[(2, 5.0), (3, -4.0), (7, 3.0)]));
}

#[test]
fn equal_changes_fill_the_last_places() {
    let raw = bits(&[(1, 1.0), (2, -1.0), (3, 1.0), (4, 2.0)]);
    let got = pick_largest(raw, 2);
    assert_eq!(got.len(), 2);
    assert!(got.contains(&(4, 2.0f32.to_bits())));
    assert!(can_pick(&vec![(1, 0xFFFF_FFFF), (2, 0x7FFF_FFFF)], 1) == false);
    assert!(can_pick(&bits(&[(1, 1.0)]), 1));
}

#[test]
fn workers_keep_what_the_master_took() {
    let sent = bits(&[(1, 1.0), (4, 2.0), (9, 1.0e-45)]);
    let scale = 0.25f32.to_bits();
    let taken = scaled(&products(&sent, scale, times));
    assert_eq!(taken, bits(&[(1, 0.25), (4, 0.5)]));
    let back = settle(&sent, &taken, minus);
    assert_eq!(back, bits(&[(1, -0.75), (4, -1.5), (9, -1.0e-45)]));
}

fn small_coord(now: u64) -> Coord {
    let net = NTuple::new(0, 1, &TUPLES_4[..1]);
    Coord::new(net, DeltaLog::new(5, now), DEFAULT_JOB.to_string(), 100)
}

#[test]
fn merged_deltas_reach_the_others() {
    let mut c = small_coord(0);
    let delta = bits(&[(3, 2.0), (7, -1.0)]);
    assert!(c.has_space_for(delta.len()));
    assert_eq!(c.merge("a-1", &delta, 0.5f32.to_bits(), 10, times, plus), Some(6));
    assert_eq!(c.merge("b-2", &bits(&[(3, 4.0)]), 1.0f32.to_bits(), 20, times, plus), Some(7));
    let w = c.net.snapshot();
    assert_eq!(f32::from_bits(w[3]), 5.0);
    assert_eq!(f32::from_bits(w[7]), -0.5);
    let all = read_bundle(&c.log.deltas_since(5, "c-3").unwrap());
    assert_eq!(all.end, End::Complete(7));
    assert_eq!(all.deltas, vec![bits(&[(3, 1.0), (7, -0.5)]), bits(&[(3, 4.0)])]);
    let others = read_bundle(&c.log.deltas_since(5, "b-2").unwrap());
    assert_eq!(others.deltas, vec![bits(&[(3, 1.0), (7, -0.5)])]);
    let late = read_bundle(&c.log.deltas_since(6, "a-1").unwrap());
    assert_eq!(late.deltas, vec![bits(&[(3, 4.0)])]);
    let none = read_bundle(&c.log.deltas_since(7, "c-3").unwrap());
    assert_eq!((none.deltas, none.end), (vec![], End::Complete(7)));
    assert_eq!(c.log.deltas_since(4, "c-3"), None);
    // A scaled change without a bf16 leaves everything as it was.
    assert_eq!(c.merge("a-1", &vec![(1, 0xFFFF_FFFF)], 1.0f32.to_bits(), 30, |x, _| x, plus), None);
    assert_eq!(c.log.seq(), 7);
}

#[test]
fn cut_answers_keep_what_came_before() {
    let mut c = small_coord(0);
    c.merge("a-1", &bits(&[(3, 1.0)]), 1.0f32.to_bits(), 10, times, plus);
    c.merge("a-1", &bits(&[(4, 1.0)]), 1.0f32.to_bits(), 10, times, plus);
    let bytes = c.log.deltas_since(5, "z").unwrap();
    let cut = read_bundle(&bytes[..bytes.len() - 1]);
    assert_eq!((cut.deltas, cut.end), (vec![bits(&[(3, 1.0)])], End::Malformed));
    assert_eq!(read_bundle(&bytes[..11]).end, End::Malformed);
    let mut far = 1u64.to_le_bytes().to_vec();
    far.extend([1, 0, 0, 0, 14, 0, 0, 0]);
    far.extend([2, 0, 0, 0, 0xFF, 0xFF, 0xFF, 0xFF, 0x0F, 0, 0, 1, 0, 0]);
    assert_eq!(read_bundle(&far).end, End::IndexTooLarge);
}

#[test]
fn saves_let_go_of_old_updates_only() {
    let mut log = DeltaLog::new(0, 0);
    log.push("a".to_string(), vec![1, 2, 3], 1000);
    log.push("b".to_string(), vec![4], LOG_MAX_AGE);
    assert!(log.needs_save());
    assert!(!log.is_stale(STALE_AFTER));
    assert!(log.is_stale(STALE_AFTER + 1));
    assert_eq!((log.held(), log.held_bytes()), (2, 4));
    log.saved(LOG_MAX_AGE + 999);
    assert_eq!((log.held(), log.saved_seq()), (2, 2));
    assert!(!log.needs_save());
    log.saved(LOG_MAX_AGE + 1000);
    assert_eq!((log.held(), log.held_bytes()), (1, 1));
    assert_eq!(log.deltas_since(0, "z"), None);
    assert!(log.deltas_since(1, "z").is_some());
    assert!(log.deltas_since(log.saved_seq(), "z").is_some());
    assert_eq!(log.saved_at(), LOG_MAX_AGE + 1000);
}

#[test]
fn restarts_keep_the_log() {
    let mut log = DeltaLog::new(8, 0);
    log.push("dell-00000001".to_string(), vec![1, 2, 3], 10);
    log.push("box-00000002".to_string(), vec![], 20);
    let (bytes, names) = (log.dump(), log.dump_names());
    assert_eq!(names, "dell-00000001\nbox-00000002\n");
    let back = DeltaLog::restore(&bytes, &names, 99).unwrap();
    assert_eq!((back.seq(), back.saved_seq(), back.held(), back.held_bytes()), (10, 10, 2, 3));
    assert_eq!(back.deltas_since(8, "x"), log.deltas_since(8, "x"));
    assert_eq!(back.deltas_since(8, "dell-00000001"), log.deltas_since(8, "dell-00000001"));
    assert!(DeltaLog::restore(&bytes, "dell-00000001\n", 99).is_none());
    assert!(DeltaLog::restore(&bytes[..bytes.len() - 1], &names, 99).is_none());
    // Names with line ends and backslashes come back too.
    let odd = ["a\nb\r", "", "c\\n"];
    let mut log = DeltaLog::new(0, 0);
    for name in odd {
        log.push(name.to_string(), vec![9], 1);
    }
    assert_eq!(log.dump_names(), "a\\nb\\r\n\nc\\\\n\n");
    let back = DeltaLog::restore(&log.dump(), &log.dump_names(), 5).unwrap();
    for name in odd {
        assert_eq!(back.deltas_since(0, name), log.deltas_since(0, name));
        assert_ne!(back.deltas_since(0, name), back.deltas_since(0, "z"));
    }
}

#[test]
fn cut_deltas_are_refused_and_longer_ones_read() {
    let d = bits(&[(3, 1.0), (700, -2.0), (400_000_000, 0.5)]);
    let bytes = encode(&d);
    for k in 0..bytes.len() {
        assert_eq!(decode(&bytes[..k]), None);
    }
    let mut more = bytes.clone();
    more.extend([0xFF, 0, 7]);
    assert_eq!(decode(&more), Some(d));
}

#[test]
fn chunks_follow_a_finished_sync() {
    let half_hour = 1_800_000_000_000;
    assert_eq!(after_sync(None, true, false, half_hour + 1), AfterSync::StartOver);
    let go = |enable_tc: bool, save: bool| AfterSync::GoOn { seq: 7, enable_tc, save };
    assert_eq!(after_sync(Some(7), false, false, 0), go(false, false));
    assert_eq!(after_sync(Some(7), true, false, half_hour), go(true, false));
    assert_eq!(after_sync(Some(7), true, true, half_hour + 1), go(false, true));
}

#[test]
fn loads_tell_what_the_system_tells() {
    let t = |s: &str| Some(s.to_string());
    let busy = |idle: u64, all: u64| format!("{}", 100 - 100 * idle / all);
    let ram = Some(("4".to_string(), "8".to_string()));
    let mut s = Sampler::new();
    // The first sample cannot tell how busy the processors are.
    let q = s.sample(Some((100, 40)), &ram, &t("2"), &t("60"), busy);
    assert_eq!(q.write(), "ram=4&ramtot=8&rss=2&temp=60");
    let q = s.sample(Some((200, 60)), &ram, &t("2"), &t("60"), busy);
    assert_eq!(q.write(), "cpu=80&ram=4&ramtot=8&rss=2&temp=60");
    // No time has passed, then none could be read; the last one that could still counts.
    assert_eq!(s.sample(Some((200, 60)), &None, &None, &None, busy).write(), "");
    assert_eq!(s.sample(None, &None, &t("2"), &None, busy).write(), "rss=2");
    assert_eq!(s.last, Some((200, 60)));
    assert_eq!(s.sample(Some((300, 160)), &None, &None, &t("61"), busy).write(), "cpu=0&temp=61");
    assert_eq!(load_query(&t("1"), &None, &None, &t("5")).write(), "cpu=1&temp=5");
}

fn chunk(episodes: u64, score: u64) -> Chunk {
    Chunk { secs: 2.0f64.to_bits(), episodes, fresh: episodes, score, reached: [5, 4, 3, 2, 1], best: score }
}

#[test]
fn machines_stand_by_name() {
    let mut c = small_coord(0);
    c.record("dell", chunk(10, 100), 1);
    c.record("box", chunk(20, 300), 2);
    c.record("dell", chunk(5, 50), 3);
    c.beat("zeta", Query { pairs: vec![("state".to_string(), "training".to_string())] }, 4);
    assert_eq!(c.episodes, 135);
    assert_eq!(c.best, 300);
    let names: Vec<String> = (0..c.workers.len()).map(|i| c.workers.get(i).name.clone()).collect();
    assert_eq!(names, vec!["box", "dell", "zeta"]);
    let dell = c.workers.get(c.workers.find("dell").unwrap());
    assert_eq!((dell.total_episodes, dell.last_seen), (15, 3));
    let total = dell.recent_total(&plus64).unwrap();
    assert_eq!((f64::from_bits(total.secs), total.episodes, total.score, total.best), (4.0, 15, 150, 100));
    assert_eq!(total.reached, [10, 8, 6, 4, 2]);
    assert_eq!(c.workers.find("del"), None);
    assert!(dell.is_live(3 + 599_999_999_999));
    assert!(!dell.is_live(3 + 600_000_000_000));
    assert!(c.has_room_for("dell", &chunk(1, 1)));
    assert!(!c.has_room_for("dell", &chunk(u64::MAX - 14, 1)));
}

#[test]
fn deltas_are_merged_at_their_workers_share() {
    let mut c = small_coord(0);
    let scale = |x: f32| x.to_bits();
    let mut send = |c: &mut Coord, name: &str, games: u64, now: u64| {
        c.submit(&format!("{name}-1"), name, &bits(&[(3, 8.0)]), chunk(games, 1), now, &rates(), times, plus)
    };
    // Alone, a worker is taken whole.
    assert_eq!(send(&mut c, "a", 10, 1), Submitted::Merged { seq: 6, scale: scale(1.0) });
    // Three quarters of all games: its own report counts already.
    assert_eq!(send(&mut c, "b", 30, 2), Submitted::Merged { seq: 7, scale: scale(0.75) });
    // Never less than a twentieth.
    assert_eq!(send(&mut c, "c", 0, 3), Submitted::Merged { seq: 8, scale: scale(0.05) });
    assert_eq!(f32::from_bits(c.net.snapshot()[3]), 8.0 + 6.0 + f32::from_bits(carry(scale(0.05 * 8.0))));
    assert_eq!((c.episodes, c.workers.len()), (140, 3));
    // Machines that fell silent no longer count.
    let late = 1_000_000_000_000;
    assert_eq!(send(&mut c, "c", 0, late), Submitted::Merged { seq: 9, scale: scale(1.0) });
    assert_eq!(rates().live_rate(&c.workers, 4).map(f64::from_bits), Some(20.0));
    assert_eq!(rates().live_rate(&c.workers, late).map(f64::from_bits), Some(0.0));
    assert_eq!(rates().share(&c.workers, "nobody", 4), Some(scale(0.05)));
    assert_eq!((f64::from_bits(LEAST), f64::from_bits(MOST)), (0.05, 1.0));
}

#[test]
fn workers_follow_the_master() {
    let mut c = small_coord(0);
    c.record("other", chunk(20, 1), 1);
    let mut mirror = c.net.snapshot();
    let raw = bits(&[(3, 0.3), (7, -1.7), (900, 1e-3)]);
    assert!(can_pick(&raw, 2));
    let sent = pick_largest(raw, 2);
    let Parsed::Delta(arrived) = parse(&encode(&sent)) else { panic!("sent deltas are read") };
    let done = c.submit("a-1", "a", &arrived, chunk(10, 1), 2, &rates(), times, plus);
    let Submitted::Merged { scale, .. } = done else { panic!("merged") };
    assert_eq!(f32::from_bits(scale), 1.0 / 3.0);
    let taken = scaled(&products(&sent, scale, times));
    add_into(&mut mirror, &taken, plus);
    assert_eq!(mirror, c.net.snapshot());
    assert_eq!(taken.len(), 2);
}

#[test]
fn deltas_that_cannot_be_merged_leave_the_net() {
    let mut c = small_coord(0);
    let odd = vec![(1, 0xFFFF_FFFF)];
    let r = c.submit("a-1", "a", &odd, chunk(1, u64::MAX), 1, &rates(), |x, _| x, plus);
    assert_eq!(r, Submitted::NoChange { scale: 1.0f32.to_bits() });
    // The scores of its two chunks no longer add up.
    let r = c.submit("a-1", "a", &bits(&[(3, 8.0)]), chunk(1, 1), 2, &rates(), times, plus);
    assert_eq!(r, Submitted::NoShare);
    assert_eq!((c.episodes, c.log.seq(), c.net.snapshot()[3]), (102, 5, 0));
}

#[test]
fn only_recent_reports_count() {
    let mut c = small_coord(0);
    for i in 0..25 {
        c.record("a", chunk(i, i), i);
    }
    let w = c.workers.get(0);
    assert_eq!(w.recent.len(), RECENT);
    assert_eq!(w.recent_total(&plus64).unwrap().episodes, (5..25).sum::<u64>());
    assert_eq!(w.total_episodes, (0..25).sum::<u64>());
    c.record("b", chunk(u64::MAX - 1000, 0), 0);
    c.episodes = 0;
    assert!(c.workers.get(1).recent_total(&plus64).is_some());
    let mut sum = chunk(u64::MAX, 0);
    assert!(!sum.can_add(&chunk(1, 0)));
    assert!(sum.can_add(&chunk(0, 0)));
    sum.add(&chunk(0, 7), plus64);
    assert_eq!((sum.episodes, sum.best), (u64::MAX, 7));
}

#[test]
fn chunks_count_fresh_games() {
    let mut c = Chunk::new();
    c.count(&EpisodeStats { score: 100, max_rank: 12, fresh: true });
    c.count(&EpisodeStats { score: 900, max_rank: 15, fresh: false });
    c.count(&EpisodeStats { score: 50, max_rank: 10, fresh: true });
    assert_eq!((c.episodes, c.fresh, c.score, c.best), (3, 2, 150, 100));
    assert_eq!(c.reached, [1, 1, 0, 0, 0]);
}

#[test]
fn reports_are_understood() {
    let c = Chunk { secs: 0, episodes: 7, fresh: 6, score: 1234, reached: [6, 5, 4, 0, 1], best: 99 };
    assert_eq!(c.to_query("120.0"), "secs=120.0&episodes=7&fresh=6&score=1234&reached=6,5,4,0,1&best=99");
    let target = delta_target("dell-1", "dell", &c, "120.0");
    assert_eq!(target, format!("/delta?me=dell-1&name=dell&{}", c.to_query("120.0")));
    let (path, q) = parse_query(&target);
    assert_eq!(path, "/delta");
    let seconds = |s: &str| s.parse::<f64>().unwrap_or(0.0).to_bits();
    let count = |s: &str| s.parse::<f64>().unwrap_or(0.0) as u64;
    let back = Chunk::from_query(&q, seconds, count);
    assert_eq!(back, Chunk { secs: 120.0f64.to_bits(), ..c });
    let (_, q) = parse_query("/delta?reached=1,x,3&episodes=2.9");
    let part = Chunk::from_query(&q, seconds, count);
    assert_eq!(part, Chunk { secs: 0, episodes: 2, fresh: 0, score: 0, reached: [1, 0, 3, 0, 0], best: 0 });
}

#[test]
fn queries_split_into_pairs() {
    let (path, q) = parse_query("/x?a=1&b&c=2=3&a=4&=e");
    assert_eq!(path, "/x");
    assert_eq!(q.get("a"), Some("4".to_string()));
    assert_eq!(q.get("b"), None);
    assert_eq!(q.get("c"), Some("2=3".to_string()));
    assert_eq!(q.get(""), Some("e".to_string()));
    assert_eq!(q.get_or_empty("zz"), "");
    assert_eq!(q.copy().pairs, q.pairs);
    let (path, q) = parse_query("/status");
    assert_eq!((path.as_str(), q.pairs.len()), ("/status", 0));
}

fn ask(method: &str, target: &str, token: Option<&str>) -> Route {
    let mut r = Request::new(&format!("{method} {target} HTTP/1.1\r\n"));
    if let Some(t) = token {
        r.header(&format!("AUTHORIZATION:  Bearer {t} \r\n"), "secret");
    }
    let (path, q) = parse_query(&r.target);
    route(&r, &path, &q)
}

#[test]
fn requests_find_their_endpoint() {
    let ok = Some("secret");
    assert!(matches!(ask("GET", "/job", ok), Route::GetJob));
    assert!(matches!(ask("POST", "/job", ok), Route::SetJob));
    assert!(matches!(ask("GET", "/status", ok), Route::Status { color: false }));
    assert!(matches!(ask("GET", "/status?color=1", ok), Route::Status { color: true }));
    assert!(matches!(ask("GET", "/net", ok), Route::Net));
    assert!(matches!(ask("POST", "/shutdown", ok), Route::Shutdown));
    assert!(matches!(ask("GET", "/shutdown", ok), Route::Unknown));
    assert!(matches!(ask("PUT", "/job", ok), Route::Unknown));
    assert!(matches!(ask("GET", "/nothing", ok), Route::Unknown));
    match ask("GET", "/deltas?since=12&me=a-1", ok) {
        Route::Deltas { since, me } => assert_eq!((since, me.as_str()), (12, "a-1")),
        _ => panic!("not the deltas"),
    }
    match ask("GET", "/deltas?since=x", ok) {
        Route::Deltas { since, me } => assert_eq!((since, me.as_str()), (0, "")),
        _ => panic!("not the deltas"),
    }
    match ask("POST", "/delta?me=a-1", ok) {
        Route::Delta { me, name } => assert_eq!((me.as_str(), name.as_str()), ("a-1", "a-1")),
        _ => panic!("not a delta"),
    }
    match ask("POST", "/beat?name=dell", ok) {
        Route::Beat { name } => assert_eq!(name, "dell"),
        _ => panic!("not a heartbeat"),
    }
}

#[test]
fn nothing_without_the_token() {
    assert!(matches!(ask("GET", "/job", None), Route::Refused));
    assert!(matches!(ask("GET", "/job", Some("guess")), Route::Refused));
    assert!(matches!(ask("GET", "/nothing", None), Route::Refused));
}

#[test]
fn headers_give_the_length() {
    let mut r = Request::new("POST /delta\r\n");
    r.header("Content-Length: 42\r\n", "t");
    assert_eq!((r.len, r.authed), (42, false));
    r.header("no colon here\r\n", "t");
    r.header("X-Other: 7\r\n", "t");
    assert_eq!(r.len, 42);
    r.header("content-length: many\r\n", "t");
    assert_eq!(r.len, 0);
    r.header("Authorization: Bearer t\r\n", "t");
    assert!(r.authed);
    r.header("authorization: Basic t\r\n", "t");
    assert!(!r.authed);
    let r = Request::new("");
    assert_eq!((r.method.as_str(), r.target.as_str()), ("", ""));
}

#[test]
fn answers_have_a_head() {
    assert_eq!(
        response_head(410, 39),
        "HTTP/1.1 410 Gone\r\nContent-Type: application/octet-stream\r\nContent-Length: 39\r\nConnection: close\r\n\r\n"
    );
    assert!(response_head(200, 0).starts_with("HTTP/1.1 200 OK\r\n"));
    assert!(response_head(401, 0).starts_with("HTTP/1.1 401 Unauthorized\r\n"));
    assert!(response_head(404, 0).starts_with("HTTP/1.1 404 Not Found\r\n"));
    assert!(response_head(500, 0).starts_with("HTTP/1.1 500 Error\r\n"));
}

#[test]
fn jobs_give_values() {
    let job = "alpha=x\nalpha = 3\nalpha=0.5 \r\nthreads.dell=4\npause=0\n";
    assert_eq!(job_text(job, "alpha"), Some("x".to_string()));
    assert_eq!(job_values(job, "alpha"), vec!["x", "0.5"]);
    assert_eq!(job_value(job, "alpha", number), Some(0.5f64.to_bits()));
    assert_eq!(job_value(job, &own_key("threads", "dell"), number), Some(4.0f64.to_bits()));
    assert_eq!(job_value(job, "threads", number), None);
    assert_eq!(job_text(job, "goal"), None);
    assert_eq!(job_value(DEFAULT_JOB, "send_mb", number), Some(40.0f64.to_bits()));
}

#[test]
fn workers_follow_the_job() {
    let f = |x: f64| Some(x.to_bits());
    assert_eq!(BUILD as f64, f64::from_bits(BUILD_BITS));
    assert_eq!(next_action(None, None, None, true), Action::Train);
    assert_eq!(next_action(f(3.0), f(0.0), f(0.0), true), Action::Train);
    assert_eq!(next_action(f(4.0), f(1.0), f(1.0), false), Action::Update);
    assert_eq!(next_action(f(3.0), f(1.0), f(1.0), false), Action::Stop);
    assert_eq!(next_action(None, f(-1.0), f(0.5), false), Action::Pause);
    assert_eq!(next_action(None, f(f64::NAN), None, false), Action::Download);
    assert_eq!(thread_count(8, None), 8);
    assert_eq!(thread_count(8, Some(0)), 1);
    assert_eq!(thread_count(8, Some(3)), 3);
    assert_eq!(thread_count(8, Some(30)), 8);
}

#[test]
fn the_recipe_cuts_and_switches() {
    let at = |n| (otd_phase(n, 100).cuts, otd_phase(n, 100).tc);
    assert_eq!(at(0), (0, false));
    assert_eq!(at(49), (0, false));
    assert_eq!(at(50), (1, false));
    assert_eq!(at(75), (2, false));
    assert_eq!(at(89), (2, false));
    assert_eq!(at(90), (2, true));
    assert_eq!(at(1000), (2, true));
    assert!(follows_otd("schedule=otd\n"));
    assert!(!follows_otd("schedule=other\nschedule=otd\n"));
    let write = |cuts: u32| format!("0.{}1", "0".repeat(cuts as usize));
    assert_eq!(current_job("alpha=9\nsecs=60\n", 80, 100, write), "alpha=9\nsecs=60\n");
    let under = "schedule=otd\nalpha=9\n";
    assert_eq!(current_job(under, 0, 100, write), format!("alpha=0.1\ntc=0\n{under}"));
    assert_eq!(current_job(under, 60, 100, write), format!("alpha=0.01\ntc=0\n{under}"));
    assert_eq!(current_job(under, 95, 100, write), format!("alpha=0.001\ntc=1\n{under}"));
    let job = schedule_job("alpha=9\ntc=0\nsecs=60\n", "0.001", true);
    assert_eq!(job, "alpha=0.001\ntc=1\nalpha=9\ntc=0\nsecs=60\n");
    assert_eq!(job_value(&job, "alpha", number), Some(0.001f64.to_bits()));
    assert_eq!(job_value(&job, "tc", number), Some(1.0f64.to_bits()));
    assert_eq!(job_value(&job, "secs", number), Some(60.0f64.to_bits()));
}

#[test]
fn supervisors_go_by_the_exit_code() {
    assert_eq!(after_exit(Some(STOP_EXIT), 5), AfterExit::Stop);
    assert_eq!(after_exit(Some(UPDATE_EXIT), 299_999_999_999), AfterExit::Update { wait: true });
    assert_eq!(after_exit(Some(UPDATE_EXIT), 300_000_000_000), AfterExit::Update { wait: false });
    assert_eq!(after_exit(Some(0), 5), AfterExit::Restart);
    assert_eq!(after_exit(None, 5), AfterExit::Restart);
}

#[test]
fn runs_have_different_names() {
    assert_eq!(run_name("dell", 0x00AB_CDEF), "dell-00abcdef");
    assert_ne!(run_name("dell", 1), run_name("dell", 0x1000_0001));
    assert_eq!(first_set(&vec![None, Some(String::new()), Some("x".to_string())]), Some(2));
    assert_eq!(first_set(&vec![None]), None);
}

#[test]
fn targets_are_written_in_full() {
    assert_eq!(deltas_target(17, "dell-1"), "/deltas?since=17&me=dell-1");
    let load = Query { pairs: vec![("cpu".to_string(), "99".to_string()), ("temp".to_string(), "70".to_string())] };
    assert_eq!(beat_target("dell", 8, "training", &load), "/beat?name=dell&threads=8&state=training&cpu=99&temp=70");
    assert_eq!(beat_target("dell", 8, "paused", &Query::new()), "/beat?name=dell&threads=8&state=paused");
    assert_eq!(base_url("https://host/g2048//"), "https://host/g2048");
    assert_eq!(response_name("/deltas?since=1"), "resp-deltas");
    assert_eq!(response_name("//net//"), "resp-net");
    assert_eq!(status_code(" 200\n"), 200);
    assert_eq!(status_code("70000"), 0);
    assert_eq!(status_code("none"), 0);
    assert_eq!(pull_step(410), PullStep::StartOver);
    assert_eq!(pull_step(200), PullStep::Read);
    assert_eq!(pull_step(500), PullStep::Fail);
    assert_eq!(scale_word("12 0.25"), Some("0.25".to_string()));
    assert_eq!(scale_word("12"), None);
    assert_eq!(next_seed(1), 0x9E37_79BA);
    assert_eq!(next_seed(u64::MAX), 0x9E37_79B8);
}

#[test]
fn the_system_tells_its_load() {
    assert_eq!(cpu_times("cpu  1 2 3 4 5 6 7 8 9 10"), Some((36, 9)));
    assert_eq!(cpu_times("cpu 5"), Some((5, 0)));
    assert_eq!(cpu_times("cpu 18446744073709551615 1"), None);
    assert_eq!(cpu_since(None, (100, 20)), None);
    assert_eq!(cpu_since(Some((60, 10)), (100, 20)), Some((10, 40)));
    assert_eq!(cpu_since(Some((100, 30)), (100, 20)), None);
    let file = "MemTotal:       16000 kB\nMemFree: 5 kB\nMemTotal: 7 kB\nMemTotal:\n";
    assert_eq!(amounts(file, "MemTotal:"), vec!["16000", "7"]);
    assert_eq!(sensor(" k10temp\n"), Sensor::Cpu);
    assert_eq!(sensor("acpitz"), Sensor::Zone);
    assert_eq!(sensor("nvme"), Sensor::Other);
}
