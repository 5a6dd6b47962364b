//! What the coordinator makes of requests and jobs, and how its files and answers are laid out.

use crate::bundle;
use crate::floats;
use crate::http;
use crate::http::RouteView;
use crate::job;
use crate::job::Action;
use crate::le;
use crate::ntuple::{NTupleView, TUPLES_4};
use crate::text;
use crate::weights;
use crate::weights::LoadError;
use vstd::prelude::*;

verus! {

/// Of several values of a key the last one counts, and pairs with other keys do not matter.
pub proof fn the_last_value_counts(
    ps: Seq<(Seq<char>, Seq<char>)>,
    k: Seq<char>,
    v: Seq<char>,
    key: Seq<char>,
)
    ensures
        http::value_of(Seq::empty(), key) is None,
        http::value_of(ps.push((key, v)), key) == Some(v),
        k != key ==> http::value_of(ps.push((k, v)), key) == http::value_of(ps, key),
        http::value_or_empty(ps, key) == match http::value_of(ps, key) {
            Some(x) => x,
            None => Seq::<char>::empty(),
        },
{
    lemma_value_among(ps, ps.push((k, v)), key, ps.len() as int);
}

proof fn lemma_value_among(
    a: Seq<(Seq<char>, Seq<char>)>,
    b: Seq<(Seq<char>, Seq<char>)>,
    key: Seq<char>,
    n: int,
)
    requires
        0 <= n <= a.len(),
        n <= b.len(),
        forall|i: int| 0 <= i < n ==> a[i] == b[i],
    ensures
        http::value_among(a, key, n) == http::value_among(b, key, n),
    decreases n,
{
    if n > 0 {
        lemma_value_among(a, b, key, n - 1);
    }
}

proof fn lemma_pairs_add(a: Seq<Seq<char>>, b: Seq<Seq<char>>, n: int)
    requires
        0 <= n <= b.len(),
    ensures
        http::pairs_in(a + b, a.len() + n) == http::pairs_in(a, a.len() as int) + http::pairs_in(
            b,
            n,
        ),
    decreases n,
{
    if n == 0 {
        lemma_pairs_same(a, a + b, a.len() as int);
        assert(http::pairs_in(a, a.len() as int) + http::pairs_in(b, 0) =~= http::pairs_in(
            a,
            a.len() as int,
        ));
    } else {
        lemma_pairs_add(a, b, n - 1);
        assert((a + b)[a.len() + n - 1] == b[n - 1]);
        assert(http::pairs_in(a + b, a.len() + n) =~= http::pairs_in(a, a.len() as int)
            + http::pairs_in(b, n));
    }
}

proof fn lemma_pairs_same(a: Seq<Seq<char>>, b: Seq<Seq<char>>, n: int)
    requires
        0 <= n <= a.len(),
        n <= b.len(),
        forall|i: int| 0 <= i < n ==> a[i] == b[i],
    ensures
        http::pairs_in(a, n) == http::pairs_in(b, n),
    decreases n,
{
    if n > 0 {
        lemma_pairs_same(a, b, n - 1);
    }
}

/// A query is read pair by pair, in order: the key ends at the first equals sign, the value at
/// the next ampersand, and what has no equals sign is no pair.
pub proof fn queries_are_read_pair_by_pair(
    k: Seq<char>,
    v: Seq<char>,
    other: Seq<char>,
    rest: Seq<char>,
)
    requires
        !k.contains('='),
        !k.contains('&'),
        !v.contains('&'),
        !other.contains('='),
        !other.contains('&'),
    ensures
        http::pairs_of(k + seq!['='] + v) == seq![(k, v)],
        http::pairs_of(k + seq!['='] + v + seq!['&'] + rest) == seq![(k, v)] + http::pairs_of(rest),
        http::pairs_of(other) == Seq::<(Seq<char>, Seq<char>)>::empty(),
        http::pairs_of(other + seq!['&'] + rest) == http::pairs_of(rest),
{
    reveal_with_fuel(http::pairs_in, 2);
    let p = k + seq!['='] + v;
    assert(!p.contains('&')) by {
        if p.contains('&') {
            let i = choose|i: int| 0 <= i < p.len() && p[i] == '&';
            if i < k.len() {
                assert(k.contains(k[i]));
            } else if i > k.len() {
                assert(v.contains(v[i - k.len() - 1]));
            }
        }
    }
    text::lemma_halves(k, '=', v);
    text::lemma_only_piece(p, '&');
    text::lemma_first_piece(p, '&', rest);
    let ps = text::pieces(rest, '&');
    lemma_pairs_add(seq![p], ps, ps.len() as int);
    assert(http::pairs_in(seq![p], 1) =~= seq![(k, v)]);
    text::lemma_only_piece(other, '&');
    text::lemma_first_piece(other, '&', rest);
    assert forall|j: int| 0 <= j < other.len() implies other[j] != '=' by {
        assert(other.contains(other[j]));
    }
    text::lemma_find_none(other, '=', 0, other.len() as int);
    assert(http::pairs_in(seq![other], 1) =~= seq![]);
    lemma_pairs_add(seq![other], ps, ps.len() as int);
    assert(http::pairs_of(other + seq!['&'] + rest) =~= http::pairs_of(rest));
}

/// The path of a target ends at its first question mark, and the query follows it.
pub proof fn targets_split_at_the_question_mark(path: Seq<char>, q: Seq<char>)
    requires
        !path.contains('?'),
    ensures
        http::parts_of(path) == (path, Seq::<char>::empty()),
        http::parts_of(path + seq!['?'] + q) == (path, q),
{
    text::lemma_halves(path, '?', q);
    assert forall|j: int| 0 <= j < path.len() implies path[j] != '?' by {
        assert(path.contains(path[j]));
    }
    text::lemma_find_none(path, '?', 0, path.len() as int);
}

/// A header's name is what comes before the first colon, in lower case, its value what follows,
/// both without white space around them.
pub proof fn headers_split_at_the_colon(k: Seq<char>, v: Seq<char>)
    requires
        !k.contains(':'),
    ensures
        http::header_of(k + seq![':'] + v) == (text::lowered(text::trimmed(k)), text::trimmed(v)),
        http::header_of(k) == (Seq::<char>::empty(), Seq::<char>::empty()),
{
    text::lemma_halves(k, ':', v);
    assert forall|j: int| 0 <= j < k.len() implies k[j] != ':' by {
        assert(k.contains(k[j]));
    }
    text::lemma_find_none(k, ':', 0, k.len() as int);
    let none = Seq::<char>::empty();
    assert(none.skip(0) =~= none);
    assert(text::trimmed(none) =~= none);
    assert(text::lowered(none) =~= none);
}

/// Which request does what: each thing has one method and one path, and needs the token; every
/// other request with the token goes nowhere.
#[verifier::rlimit(40)]
pub proof fn every_request_has_its_place(
    authed: bool,
    method: Seq<char>,
    path: Seq<char>,
    q: Seq<(Seq<char>, Seq<char>)>,
)
    ensures
        ({
            let r = http::routed(authed, method, path, q);
            let (get, post) = (authed && method == "GET"@, authed && method == "POST"@);
            &&& r is Refused <==> !authed
            &&& r is GetJob <==> get && path == "/job"@
            &&& r is Status <==> get && path == "/status"@
            &&& r is Net <==> get && path == "/net"@
            &&& r is Deltas <==> get && path == "/deltas"@
            &&& r is SetJob <==> post && path == "/job"@
            &&& r is Beat <==> post && path == "/beat"@
            &&& r is Delta <==> post && path == "/delta"@
            &&& r is Shutdown <==> post && path == "/shutdown"@
        }),
{
    reveal_strlit("GET");
    reveal_strlit("POST");
    reveal_strlit("/job");
    reveal_strlit("/status");
    reveal_strlit("/net");
    reveal_strlit("/deltas");
    reveal_strlit("/beat");
    reveal_strlit("/delta");
    reveal_strlit("/shutdown");
    assert("/job"@.len() == 4 && "/status"@.len() == 7 && "/net"@.len() == 4 && "/deltas"@.len()
        == 7 && "/beat"@.len() == 5 && "/delta"@.len() == 6 && "/shutdown"@.len() == 9);
    assert("GET"@.len() == 3 && "POST"@.len() == 4);
    assert("/job"@[1] == 'j' && "/net"@[1] == 'n' && "/status"@[1] == 's' && "/deltas"@[1] == 'd');
}

/// What a request carries: pages are coloured if the query has a colour at all; a pull names
/// its update, zero if it is no number, and its run; a delta names its run and its machine,
/// which is the run if it is not named.
pub proof fn requests_carry_what_they_name(
    method: Seq<char>,
    path: Seq<char>,
    q: Seq<(Seq<char>, Seq<char>)>,
)
    ensures
        match http::routed(true, method, path, q) {
            RouteView::Status { color } => color <==> http::value_of(q, "color"@) is Some,
            RouteView::Beat { name } => name == match http::value_of(q, "name"@) {
                Some(n) => n,
                None => Seq::<char>::empty(),
            },
            RouteView::Deltas { since, me } => {
                &&& forall|n: u64|
                    http::value_of(q, "since"@) == Some(#[trigger] text::decimal(n as nat)) ==> since
                        == n
                &&& http::value_of(q, "since"@) is None ==> since == 0
                &&& me == match http::value_of(q, "me"@) {
                    Some(n) => n,
                    None => Seq::<char>::empty(),
                }
            },
            RouteView::Delta { me, name } => {
                &&& me == match http::value_of(q, "me"@) {
                    Some(n) => n,
                    None => Seq::<char>::empty(),
                }
                &&& http::value_of(q, "name"@) is Some ==> Some(name) == http::value_of(
                    q,
                    "name"@,
                )
                &&& http::value_of(q, "name"@) is None ==> name == me
            },
            _ => true,
        },
{
    if let RouteView::Deltas { since, me } = http::routed(true, method, path, q) {
        assert forall|n: u64|
            http::value_of(q, "since"@) == Some(#[trigger] text::decimal(n as nat)) implies since
            == n by {
            text::decimals_read_back(n);
        }
        let none = Seq::<char>::empty();
        assert(text::whole(none) is None);
    }
}

/// The length of a body is what its header says, if that is a number that the machine can count
/// to, and else none.
pub proof fn lengths_are_read_from_decimals(n: u64, v: Seq<char>)
    ensures
        n <= usize::MAX ==> http::length_of(text::decimal(n as nat)) == n,
        text::whole(v) is None ==> http::length_of(v) == 0,
        http::length_of(v) <= usize::MAX,
{
    text::decimals_read_back(n);
}

/// A line gives a key the value that follows the key and an equals sign, without white space
/// around it; other lines give it none.
pub proof fn lines_give_values_to_their_key(line: Seq<char>, key: Seq<char>, v: Seq<char>)
    ensures
        job::value_in(key + seq!['='] + v, key) == Some(text::trimmed(v)),
        job::value_in(line, key) is Some <==> line.len() > key.len() && line.take(key.len() as int)
            == key && line[key.len() as int] == '=',
{
    let s = key + seq!['='] + v;
    let n = key.len() as int;
    assert(s.take(n) =~= key);
    assert(s.skip(n)[0] == '=');
    assert(s.skip(n).skip(1) =~= v);
    if line.len() > n {
        assert(line.skip(n)[0] == line[n]);
    }
}

proof fn lemma_values_add(a: Seq<Seq<char>>, b: Seq<Seq<char>>, key: Seq<char>, n: int)
    requires
        0 <= n <= b.len(),
        a.len() == 1,
    ensures
        job::values_in(a + b, key, 1 + n) == job::values_in(a, key, 1) + job::values_in(b, key, n),
    decreases n,
{
    reveal_with_fuel(job::values_in, 2);
    if n == 0 {
        assert((a + b)[0] == a[0]);
        assert(job::values_in(a + b, key, 1) =~= job::values_in(a, key, 1) + job::values_in(
            b,
            key,
            0,
        ));
    } else {
        lemma_values_add(a, b, key, n - 1);
        assert((a + b)[n] == b[n - 1]);
        assert(job::values_in(a + b, key, 1 + n) =~= job::values_in(a, key, 1) + job::values_in(
            b,
            key,
            n,
        ));
    }
}

/// A job is read line by line: the values of a key come in the order of the lines that give it
/// one.
pub proof fn jobs_are_read_line_by_line(line: Seq<char>, rest: Seq<char>, key: Seq<char>)
    requires
        !line.contains('\n'),
        line.len() == 0 || line.last() != '\r',
    ensures
        job::values_of(Seq::empty(), key) == Seq::<Seq<char>>::empty(),
        job::values_of(line + seq!['\n'] + rest, key) == (match job::value_in(line, key) {
            Some(v) => seq![v],
            None => Seq::<Seq<char>>::empty(),
        }) + job::values_of(rest, key),
{
    reveal_with_fuel(job::values_in, 2);
    assert(text::lines(Seq::empty()) =~= seq![]);
    text::lemma_first_line(line, rest);
    let more = text::lines(rest);
    lemma_values_add(seq![line], more, key, more.len() as int);
    assert(job::values_in(seq![line], key, 1) =~= match job::value_in(line, key) {
        Some(v) => seq![v],
        None => Seq::<Seq<char>>::empty(),
    });
}

/// What a worker does by its job: it updates if the job's version is above three; else it stops
/// if it should; else it pauses if it should; else it needs a net before it trains.
pub proof fn workers_obey_in_this_order(
    version: Option<u64>,
    stop: Option<u64>,
    pause: Option<u64>,
    has_net: bool,
)
    ensures
        ({
            let newer = version is Some && floats::above64(version->0, 0x4008_0000_0000_0000);
            let stops = stop is Some && floats::above64(stop->0, 0);
            let pauses = pause is Some && floats::above64(pause->0, 0);
            let a = job::action_by(version, stop, pause, has_net);
            &&& a == Action::Update <==> newer
            &&& a == Action::Stop <==> !newer && stops
            &&& a == Action::Pause <==> !newer && !stops && pauses
            &&& a == Action::Download <==> !newer && !stops && !pauses && !has_net
            &&& a == Action::Train <==> !newer && !stops && !pauses && has_net
        }),
{
}

/// When the recipe cuts alpha: at half of the games, and again at three quarters. TC learning
/// takes the last tenth.
pub proof fn the_recipe_cuts_at_half_and_three_quarters(games: nat, goal: nat)
    ensures
        ({
            let p = job::phase_at(games, goal);
            &&& p.cuts >= 1 <==> games + games >= goal
            &&& p.cuts >= 2 <==> 4 * (goal - games) <= goal
            &&& p.cuts <= 2
            &&& p.tc <==> 10 * (goal - games) <= goal
        }),
{
}

/// An answer is the master's number, the number of deltas and the deltas, each behind its
/// length.
pub proof fn answers_are_written_delta_by_delta(seq: u64, frames: Seq<Seq<u8>>, f: Seq<u8>)
    requires
        frames.len() < u32::MAX,
        f.len() <= u32::MAX,
    ensures
        bundle::bundle_bytes(seq, Seq::empty()) == le::le64(seq) + seq![0u8, 0, 0, 0],
        bundle::bundle_bytes(seq, frames).take(8) == le::le64(seq),
        bundle::bundle_bytes(seq, frames).subrange(8, 12) == le::le32(frames.len() as u32),
        bundle::bundle_bytes(seq, frames.push(f)).skip(12) == bundle::bundle_bytes(
            seq,
            frames,
        ).skip(12) + le::le32(f.len() as u32) + f,
{
    let none = Seq::<Seq<u8>>::empty();
    crate::wire_laws::numbers_are_written_lowest_byte_first(0, 0, 0);
    assert(bundle::frames_bytes(none) =~= seq![]);
    assert(bundle::bundle_bytes(seq, none) =~= le::le64(seq) + seq![0u8, 0, 0, 0]);
    let a = bundle::bundle_bytes(seq, frames);
    assert(a.take(8) =~= le::le64(seq));
    assert(a.subrange(8, 12) =~= le::le32(frames.len() as u32));
    bundle::lemma_frames_push(frames, f);
    let b = bundle::bundle_bytes(seq, frames.push(f));
    assert(a.skip(12) =~= bundle::frames_bytes(frames));
    assert(b.skip(12) =~= bundle::frames_bytes(frames.push(f)));
    assert(b.skip(12) =~= a.skip(12) + le::le32(f.len() as u32) + f);
}

/// A network's file: the word 2048NT03, the numbers of stages and tuples, the cells of each
/// tuple at a byte each, and every weight at four bytes, the lowest first.
pub proof fn files_hold_every_weight(net: NTupleView, t: int, k: int, i: int, j: int)
    requires
        net.layout.stages <= u32::MAX,
        net.layout.tuples.len() <= u32::MAX,
        0 <= t < net.layout.tuples.len(),
        0 <= k < 6,
        net.layout.tuples[t]@[k] < 256,
        0 <= i < net.w.len(),
        0 <= j < 4,
    ensures
        ({
            let file = weights::file_bytes(net);
            let start = 16 + 6 * net.layout.tuples.len();
            &&& file.len() == start + 4 * net.w.len()
            &&& file.take(8) == seq![50u8, 48, 52, 56, 78, 84, 48, 51]
            &&& file.subrange(8, 12) == le::le32(net.layout.stages as u32)
            &&& file.subrange(12, 16) == le::le32(net.layout.tuples.len() as u32)
            &&& file[16 + 6 * t + k] == net.layout.tuples[t]@[k]
            &&& file[start + 4 * i + j] == le::le32(net.w[i])[j]
        }),
{
    let file = weights::file_bytes(net);
    let start = 16 + 6 * net.layout.tuples.len();
    assert(file.take(8) =~= seq![50u8, 48, 52, 56, 78, 84, 48, 51]);
    assert(file.subrange(8, 12) =~= le::le32(net.layout.stages as u32));
    assert(file.subrange(12, 16) =~= le::le32(net.layout.tuples.len() as u32));
    assert((6 * t + k) / 6 == t && (6 * t + k) % 6 == k);
    assert(weights::tuple_bytes(net.layout.tuples)[6 * t + k] == net.layout.tuples[t]@[k]);
    assert(file[16 + 6 * t + k] == weights::tuple_bytes(net.layout.tuples)[6 * t + k]);
    assert((4 * i + j) / 4 == i && (4 * i + j) % 4 == j);
    assert(file[start + 4 * i + j] == weights::weight_bytes(net.w)[4 * i + j]);
}

/// The word that a file starts with, up to its version.
pub open spec fn starts_with(bytes: Seq<u8>, version: u8) -> bool {
    bytes.len() >= 8 && bytes.take(8) == seq![50u8, 48, 52, 56, 78, 84, 48, version]
}

/// Which headers there are: files of the first version are for one stage and four tuples, those
/// of the second name their stages, and those of the third their tuples too. Files that start
/// otherwise are no networks, and files that end too early are cut short.
#[verifier::rlimit(40)]
pub proof fn files_tell_their_shape(bytes: Seq<u8>)
    ensures
        ({
            let h = weights::header_of(bytes);
            let n = le::read32(bytes, 12);
            &&& bytes.len() < 8 ==> h == Err::<weights::HeaderView, LoadError>(
                LoadError::Truncated,
            )
            &&& starts_with(bytes, 49) ==> (h matches Ok(x) && x.stages == 1 && x.start == 8
                && x.tuples == weights::cell_lists(TUPLES_4@))
            &&& starts_with(bytes, 50) && bytes.len() >= 12 ==> (h matches Ok(x) && x.stages
                == le::read32(bytes, 8) && x.start == 12 && x.tuples == weights::cell_lists(
                TUPLES_4@,
            ))
            &&& starts_with(bytes, 51) && bytes.len() >= 16 + 6 * n ==> (h matches Ok(x) && x.stages
                == le::read32(bytes, 8) && x.start == 16 + 6 * n && x.tuples.len() == n && forall|
                t: int,
                k: int,
            |
                0 <= t < n && 0 <= k < 6 ==> #[trigger] x.tuples[t][k] == bytes[16 + 6 * t + k])
            &&& starts_with(bytes, 50) && bytes.len() < 12 ==> h == Err::<
                weights::HeaderView,
                LoadError,
            >(LoadError::Truncated)
            &&& starts_with(bytes, 51) && bytes.len() < 16 + 6 * n ==> h == Err::<
                weights::HeaderView,
                LoadError,
            >(LoadError::Truncated)
            &&& bytes.len() >= 8 && !starts_with(bytes, 49) && !starts_with(bytes, 50)
                && !starts_with(bytes, 51) ==> h == Err::<weights::HeaderView, LoadError>(
                LoadError::NotWeights,
            )
        }),
{
    let (a, b, c) = (
        seq![50u8, 48, 52, 56, 78, 84, 48, 49],
        seq![50u8, 48, 52, 56, 78, 84, 48, 50],
        seq![50u8, 48, 52, 56, 78, 84, 48, 51],
    );
    assert(weights::magic(1) =~= a && weights::magic(2) =~= b && weights::magic(3) =~= c);
    assert(a[7] == 49 && b[7] == 50 && c[7] == 51);
}

/// A loaded network has the stages that its file names, at least one, a weight for every
/// filling of every tuple in every stage, and each weight as the file has it.
pub proof fn loaded_networks_hold_their_files_weights(
    bytes: Seq<u8>,
    h: weights::HeaderView,
    net: NTupleView,
    i: int,
)
    requires
        weights::header_of(bytes) == Ok::<weights::HeaderView, LoadError>(h),
        weights::is_loaded(bytes, Ok(net)),
        0 <= i < net.w.len(),
    ensures
        net.layout.stages == if h.stages == 0 {
            1
        } else {
            h.stages
        },
        net.layout.tuples.len() == h.tuples.len(),
        net.w.len() == net.layout.stages * (net.layout.tuples.len() * 16_777_216),
        net.w[i] == le::read32(bytes, h.start + 4 * i),
        bytes.len() >= h.start + 4 * net.w.len(),
        net.tc.len() == 0,
{
    assert(weights::cell_lists(net.layout.tuples).len() == net.layout.tuples.len());
}

}
