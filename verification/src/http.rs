//! Requests to the coordinator: the request line, headers and query, which endpoint they go
//! to, and the head of the answer.

use crate::text;
use crate::text::{
    decimal_chars, is_text, parse_whole, push_all, push_text, split, split_once, split_words,
    to_chars, to_lower, to_text, trim,
};
use vstd::prelude::*;

verus! {

/// The pairs that the first `n` pieces of a query are; a piece without `=` is none.
pub open spec fn pairs_in(ps: Seq<Seq<char>>, n: int) -> Seq<(Seq<char>, Seq<char>)>
    decreases n,
{
    if n <= 0 {
        seq![]
    } else {
        match text::halves(ps[n - 1], '=') {
            Some(kv) => pairs_in(ps, n - 1).push(kv),
            None => pairs_in(ps, n - 1),
        }
    }
}

/// The pairs of a query, in order.
pub open spec fn pairs_of(q: Seq<char>) -> Seq<(Seq<char>, Seq<char>)> {
    pairs_in(text::pieces(q, '&'), text::pieces(q, '&').len() as int)
}

/// The path and the query of a target.
pub open spec fn parts_of(target: Seq<char>) -> (Seq<char>, Seq<char>) {
    match text::halves(target, '?') {
        Some(pq) => pq,
        None => (target, seq![]),
    }
}

/// The value of `key` among the first `n` pairs: the last one counts.
pub open spec fn value_among(
    pairs: Seq<(Seq<char>, Seq<char>)>,
    key: Seq<char>,
    n: int,
) -> Option<Seq<char>>
    decreases n,
{
    if n <= 0 {
        None
    } else if pairs[n - 1].0 == key {
        Some(pairs[n - 1].1)
    } else {
        value_among(pairs, key, n - 1)
    }
}

/// The value of `key`.
pub open spec fn value_of(pairs: Seq<(Seq<char>, Seq<char>)>, key: Seq<char>) -> Option<Seq<char>> {
    value_among(pairs, key, pairs.len() as int)
}

/// The value of `key`, or the empty text.
pub open spec fn value_or_empty(pairs: Seq<(Seq<char>, Seq<char>)>, key: Seq<char>) -> Seq<char> {
    match value_of(pairs, key) {
        Some(v) => v,
        None => seq![],
    }
}

/// A query's pairs.
pub struct Query {
    pub pairs: Vec<(String, String)>,
}

impl View for Query {
    type V = Seq<(Seq<char>, Seq<char>)>;

    open spec fn view(&self) -> Seq<(Seq<char>, Seq<char>)> {
        self.pairs@.map_values(|p: (String, String)| (p.0@, p.1@))
    }
}

impl Query {
    /// The value of `key`.
    pub fn get(&self, key: &str) -> (v: Option<String>)
        ensures
            match value_of(self@, key@) {
                Some(t) => v matches Some(s) && s@ == t,
                None => v is None,
            },
    {
        let k: Vec<char> = to_chars(key);
        let mut n: usize = self.pairs.len();
        assert(self@.len() == n);
        while n > 0
            invariant
                n <= self.pairs@.len(),
                k@ == key@,
                value_of(self@, key@) == value_among(self@, key@, n as int),
            decreases n,
        {
            assert(self@[n - 1] == (self.pairs@[n - 1].0@, self.pairs@[n - 1].1@));
            if is_text(k.as_slice(), self.pairs[n - 1].0.as_str()) {
                return Some(self.pairs[n - 1].1.clone());
            }
            n -= 1;
        }
        None
    }

    /// The value of `key`, or the empty text.
    pub fn get_or_empty(&self, key: &str) -> (v: String)
        ensures
            v@ == value_or_empty(self@, key@),
    {
        match self.get(key) {
            Some(s) => s,
            None => {
                let s: String = String::new();
                assert(s@ =~= seq![]);
                s
            },
        }
    }

    /// A copy of the pairs.
    pub fn copy(&self) -> (q: Query)
        ensures
            q@ == self@,
    {
        let mut pairs: Vec<(String, String)> = Vec::new();
        let mut i: usize = 0;
        while i < self.pairs.len()
            invariant
                i <= self.pairs@.len(),
                pairs@.len() == i,
                forall|j: int|
                    0 <= j < i ==> (#[trigger] pairs@[j]).0@ == self.pairs@[j].0@ && pairs@[j].1@
                        == self.pairs@[j].1@,
            decreases self.pairs@.len() - i,
        {
            pairs.push((self.pairs[i].0.clone(), self.pairs[i].1.clone()));
            i += 1;
        }
        let q: Query = Query { pairs };
        assert(q@ =~= self@);
        q
    }
}

/// Splits a target into its path and its query.
pub fn parse_query(target: &str) -> (res: (String, Query))
    ensures
        res.0@ == parts_of(target@).0,
        res.1@ == pairs_of(parts_of(target@).1),
{
    let cs: Vec<char> = to_chars(target);
    let (path, q): (Vec<char>, Vec<char>) = match split_once(cs.as_slice(), '?') {
        Some(pq) => pq,
        None => {
            let none: Vec<char> = Vec::new();
            assert(none@ =~= seq![]);
            (cs, none)
        },
    };
    let ps: Vec<Vec<char>> = split(q.as_slice(), '&');
    let ghost all = text::texts(ps@);
    assert(all.len() == ps@.len());
    let mut pairs: Vec<(String, String)> = Vec::new();
    let ghost view = |p: (String, String)| (p.0@, p.1@);
    let mut i: usize = 0;
    assert(pairs@.map_values(view) =~= seq![]);
    while i < ps.len()
        invariant
            i <= ps@.len(),
            all == text::texts(ps@),
            view == (|p: (String, String)| (p.0@, p.1@)),
            pairs@.map_values(view) == pairs_in(all, i as int),
        decreases ps@.len() - i,
    {
        assert(all[i as int] == ps@[i as int]@);
        match split_once(ps[i].as_slice(), '=') {
            Some((k, v)) => {
                let p: (String, String) = (to_text(k.as_slice()), to_text(v.as_slice()));
                let ghost before = pairs@;
                pairs.push(p);
                assert(pairs@.map_values(view) =~= before.map_values(view).push((p.0@, p.1@)));
            },
            None => {},
        }
        i += 1;
    }
    (to_text(path.as_slice()), Query { pairs })
}

/// A request as far as it has been read.
pub struct Request {
    pub method: String,
    pub target: String,
    /// The length of the body.
    pub len: usize,
    /// The request carries the token.
    pub authed: bool,
}

/// Word `i` of a text, or the empty text.
pub open spec fn word(s: Seq<char>, i: int) -> Seq<char> {
    if i < text::words(s).len() {
        text::words(s)[i]
    } else {
        seq![]
    }
}

/// Word `i` of a text, or the empty text.
pub fn nth_word(s: &str, i: usize) -> (w: String)
    ensures
        w@ == word(s@, i as int),
{
    let cs: Vec<char> = to_chars(s);
    let ws: Vec<Vec<char>> = split_words(cs.as_slice());
    assert(text::texts(ws@).len() == ws@.len());
    if i < ws.len() {
        assert(text::texts(ws@)[i as int] == ws@[i as int]@);
        to_text(ws[i].as_slice())
    } else {
        let w: String = String::new();
        assert(w@ =~= seq![]);
        w
    }
}

/// The name and the value of a header line; both empty where there is no colon.
pub open spec fn header_of(line: Seq<char>) -> (Seq<char>, Seq<char>) {
    match text::halves(line, ':') {
        Some((k, v)) => (text::lowered(text::trimmed(k)), text::trimmed(v)),
        None => (text::lowered(text::trimmed(seq![])), text::trimmed(seq![])),
    }
}

/// The length that a header gives: zero where it gives none.
pub open spec fn length_of(v: Seq<char>) -> nat {
    match text::whole(v) {
        Some(n) if n <= usize::MAX => n as nat,
        _ => 0,
    }
}

impl Request {
    /// Starts with the request line.
    pub fn new(line: &str) -> (r: Request)
        ensures
            r.method@ == word(line@, 0),
            r.target@ == word(line@, 1),
            r.len == 0,
            !r.authed,
    {
        Request { method: nth_word(line, 0), target: nth_word(line, 1), len: 0, authed: false }
    }

    /// Takes a header line. A later header of the same name wins.
    pub fn header(&mut self, line: &str, token: &str)
        ensures
            final(self).method == old(self).method,
            final(self).target == old(self).target,
            final(self).len == if header_of(line@).0 == "content-length"@ {
                length_of(header_of(line@).1)
            } else {
                old(self).len as nat
            },
            final(self).authed == if header_of(line@).0 != "content-length"@ && header_of(line@).0
                == "authorization"@ {
                header_of(line@).1 == "Bearer "@ + token@
            } else {
                old(self).authed
            },
    {
        let cs: Vec<char> = to_chars(line);
        let (k, v): (Vec<char>, Vec<char>) = match split_once(cs.as_slice(), ':') {
            Some(kv) => kv,
            None => {
                let none: Vec<char> = Vec::new();
                let other: Vec<char> = Vec::new();
                assert(none@ =~= seq![] && other@ =~= seq![]);
                (none, other)
            },
        };
        let name: Vec<char> = to_lower(trim(k.as_slice()).as_slice());
        let value: Vec<char> = trim(v.as_slice());
        if is_text(name.as_slice(), "content-length") {
            self.len = match parse_whole(value.as_slice()) {
                Some(n) if n <= usize::MAX as u64 => n as usize,
                _ => 0,
            };
        } else if is_text(name.as_slice(), "authorization") {
            let mut want: String = String::new();
            push_text(&mut want, "Bearer ");
            push_text(&mut want, token);
            assert(want@ =~= "Bearer "@ + token@);
            self.authed = is_text(value.as_slice(), want.as_str());
        }
    }
}

/// Whether a line of `n` bytes ends the headers: it is empty, or the connection is.
pub fn ends_headers(n: usize) -> (yes: bool)
    ensures
        yes == (n <= 2),
{
    n <= 2
}

/// Where a request goes.
pub enum Route {
    /// No token: refused.
    Refused,
    GetJob,
    SetJob,
    Status { color: bool },
    Beat { name: String },
    Net,
    Deltas { since: u64, me: String },
    Delta { me: String, name: String },
    Shutdown,
    Unknown,
}

/// Where a request goes, in plain texts.
pub enum RouteView {
    Refused,
    GetJob,
    SetJob,
    Status { color: bool },
    Beat { name: Seq<char> },
    Net,
    Deltas { since: u64, me: Seq<char> },
    Delta { me: Seq<char>, name: Seq<char> },
    Shutdown,
    Unknown,
}

impl View for Route {
    type V = RouteView;

    open spec fn view(&self) -> RouteView {
        match self {
            Route::Refused => RouteView::Refused,
            Route::GetJob => RouteView::GetJob,
            Route::SetJob => RouteView::SetJob,
            Route::Status { color } => RouteView::Status { color: *color },
            Route::Beat { name } => RouteView::Beat { name: name@ },
            Route::Net => RouteView::Net,
            Route::Deltas { since, me } => RouteView::Deltas { since: *since, me: me@ },
            Route::Delta { me, name } => RouteView::Delta { me: me@, name: name@ },
            Route::Shutdown => RouteView::Shutdown,
            Route::Unknown => RouteView::Unknown,
        }
    }
}

/// Where a request goes. Without the token it goes nowhere.
pub open spec fn routed(
    authed: bool,
    method: Seq<char>,
    path: Seq<char>,
    q: Seq<(Seq<char>, Seq<char>)>,
) -> RouteView {
    if !authed {
        RouteView::Refused
    } else if method == "GET"@ {
        if path == "/job"@ {
            RouteView::GetJob
        } else if path == "/status"@ {
            RouteView::Status { color: value_of(q, "color"@) is Some }
        } else if path == "/net"@ {
            RouteView::Net
        } else if path == "/deltas"@ {
            RouteView::Deltas {
                since: match text::whole(value_or_empty(q, "since"@)) {
                    Some(n) => n,
                    None => 0,
                },
                me: value_or_empty(q, "me"@),
            }
        } else {
            RouteView::Unknown
        }
    } else if method == "POST"@ {
        if path == "/job"@ {
            RouteView::SetJob
        } else if path == "/beat"@ {
            RouteView::Beat { name: value_or_empty(q, "name"@) }
        } else if path == "/delta"@ {
            RouteView::Delta {
                me: value_or_empty(q, "me"@),
                name: match value_of(q, "name"@) {
                    Some(n) => n,
                    None => value_or_empty(q, "me"@),
                },
            }
        } else if path == "/shutdown"@ {
            RouteView::Shutdown
        } else {
            RouteView::Unknown
        }
    } else {
        RouteView::Unknown
    }
}

/// Where a request goes.
pub fn route(req: &Request, path: &str, q: &Query) -> (r: Route)
    ensures
        r@ == routed(req.authed, req.method@, path@, q@),
{
    if !req.authed {
        return Route::Refused;
    }
    let m: Vec<char> = to_chars(req.method.as_str());
    let p: Vec<char> = to_chars(path);
    if is_text(m.as_slice(), "GET") {
        if is_text(p.as_slice(), "/job") {
            Route::GetJob
        } else if is_text(p.as_slice(), "/status") {
            Route::Status { color: q.get("color").is_some() }
        } else if is_text(p.as_slice(), "/net") {
            Route::Net
        } else if is_text(p.as_slice(), "/deltas") {
            let since: Vec<char> = to_chars(q.get_or_empty("since").as_str());
            Route::Deltas {
                since: match parse_whole(since.as_slice()) {
                    Some(n) => n,
                    None => 0,
                },
                me: q.get_or_empty("me"),
            }
        } else {
            Route::Unknown
        }
    } else if is_text(m.as_slice(), "POST") {
        if is_text(p.as_slice(), "/job") {
            Route::SetJob
        } else if is_text(p.as_slice(), "/beat") {
            Route::Beat { name: q.get_or_empty("name") }
        } else if is_text(p.as_slice(), "/delta") {
            let me: String = q.get_or_empty("me");
            let name: String = match q.get("name") {
                Some(n) => n,
                None => q.get_or_empty("me"),
            };
            Route::Delta { me, name }
        } else if is_text(p.as_slice(), "/shutdown") {
            Route::Shutdown
        } else {
            Route::Unknown
        }
    } else {
        Route::Unknown
    }
}

/// The words for a status code.
pub open spec fn reason_of(code: u16) -> Seq<char> {
    if code == 200 {
        "OK"@
    } else if code == 401 {
        "Unauthorized"@
    } else if code == 404 {
        "Not Found"@
    } else if code == 410 {
        "Gone"@
    } else {
        "Error"@
    }
}

/// The head of an answer.
pub open spec fn head_of(code: u16, len: u64) -> Seq<char> {
    "HTTP/1.1 "@ + text::decimal(code as nat) + seq![' '] + reason_of(code)
        + "\r\nContent-Type: application/octet-stream\r\nContent-Length: "@ + text::decimal(
        len as nat,
    ) + "\r\nConnection: close\r\n\r\n"@
}

/// Writes the head of an answer with a body of `len` bytes.
pub fn response_head(code: u16, len: u64) -> (s: String)
    ensures
        s@ == head_of(code, len),
{
    let mut s: String = String::new();
    push_text(&mut s, "HTTP/1.1 ");
    push_all(&mut s, decimal_chars(code as u64).as_slice());
    s.push(' ');
    push_text(
        &mut s,
        if code == 200 {
            "OK"
        } else if code == 401 {
            "Unauthorized"
        } else if code == 404 {
            "Not Found"
        } else if code == 410 {
            "Gone"
        } else {
            "Error"
        },
    );
    push_text(&mut s, "\r\nContent-Type: application/octet-stream\r\nContent-Length: ");
    push_all(&mut s, decimal_chars(len).as_slice());
    push_text(&mut s, "\r\nConnection: close\r\n\r\n");
    assert(s@ =~= head_of(code, len));
    s
}

/// A request without the token reaches nothing: it is refused, whatever it asks for.
pub proof fn nothing_without_the_token(
    method: Seq<char>,
    path: Seq<char>,
    q: Seq<(Seq<char>, Seq<char>)>,
)
    ensures
        routed(false, method, path, q) == RouteView::Refused,
{
}

/// A pair in a query.
pub open spec fn pair_text(p: (Seq<char>, Seq<char>)) -> Seq<char> {
    p.0 + seq!['='] + p.1
}

/// Pairs as a query.
pub open spec fn joined(ps: Seq<(Seq<char>, Seq<char>)>) -> Seq<char>
    decreases ps.len(),
{
    if ps.len() == 0 {
        seq![]
    } else if ps.len() == 1 {
        pair_text(ps[0])
    } else {
        pair_text(ps[0]) + seq!['&'] + joined(ps.skip(1))
    }
}

impl Query {
    /// Adds a pair.
    pub fn push(&mut self, key: &str, value: &str)
        ensures
            final(self)@ == old(self)@.push((key@, value@)),
    {
        let p: (String, String) = (
            to_text(to_chars(key).as_slice()),
            to_text(to_chars(value).as_slice()),
        );
        self.pairs.push(p);
        assert(self@ =~= old(self)@.push((key@, value@)));
    }

    /// Adds a pair with a number.
    pub fn push_number(&mut self, key: &str, value: u64)
        ensures
            final(self)@ == old(self)@.push((key@, text::decimal(value as nat))),
    {
        let v: String = to_text(decimal_chars(value).as_slice());
        self.push(key, v.as_str());
    }

    /// No pairs.
    pub fn new() -> (q: Query)
        ensures
            q@ == Seq::<(Seq<char>, Seq<char>)>::empty(),
    {
        let q: Query = Query { pairs: Vec::new() };
        assert(q@ =~= Seq::<(Seq<char>, Seq<char>)>::empty());
        q
    }

    /// Writes the pairs as a query.
    pub fn write(&self) -> (s: String)
        ensures
            s@ == joined(self@),
    {
        let mut s: String = String::new();
        let n: usize = self.pairs.len();
        let ghost all = self@;
        let mut i: usize = 0;
        assert(all.skip(0) =~= all);
        assert(s@ + joined(all) =~= joined(all));
        while i < n
            invariant
                n == self.pairs@.len(),
                n == all.len(),
                all == self@,
                i <= n,
                i < n ==> s@ + joined(all.skip(i as int)) == joined(all),
                i == n ==> s@ == joined(all),
            decreases n - i,
        {
            let ghost before = s@;
            let ghost rest = all.skip(i as int);
            assert(all[i as int] == (self.pairs@[i as int].0@, self.pairs@[i as int].1@));
            assert(rest[0] == all[i as int]);
            assert(rest.skip(1) =~= all.skip(i + 1));
            push_text(&mut s, self.pairs[i].0.as_str());
            s.push('=');
            push_text(&mut s, self.pairs[i].1.as_str());
            assert(s@ =~= before + pair_text(all[i as int]));
            if i + 1 < n {
                s.push('&');
                assert(s@ + joined(all.skip(i + 1)) =~= before + joined(rest));
            } else {
                assert(s@ =~= before + joined(rest));
            }
            i += 1;
        }
        proof {
            if n == 0 {
                assert(s@ =~= joined(all));
            }
        }
        s
    }
}

/// A pair that a query can carry: its key has no `=`, and neither part has an `&`.
pub open spec fn plain(p: (Seq<char>, Seq<char>)) -> bool {
    !p.0.contains('=') && !p.0.contains('&') && !p.1.contains('&')
}

/// All pairs can be carried.
pub open spec fn all_plain(ps: Seq<(Seq<char>, Seq<char>)>) -> bool {
    forall|i: int| 0 <= i < ps.len() ==> plain(#[trigger] ps[i])
}

proof fn lemma_joined_pieces(ps: Seq<(Seq<char>, Seq<char>)>)
    requires
        ps.len() > 0,
        all_plain(ps),
    ensures
        text::pieces(joined(ps), '&') == ps.map_values(|p: (Seq<char>, Seq<char>)| pair_text(p)),
    decreases ps.len(),
{
    let want = ps.map_values(|p: (Seq<char>, Seq<char>)| pair_text(p));
    let first = pair_text(ps[0]);
    assert(plain(ps[0]));
    assert(!first.contains('&')) by {
        if first.contains('&') {
            let i = choose|i: int| 0 <= i < first.len() && first[i] == '&';
            let n = ps[0].0.len() as int;
            if i < n {
                assert(ps[0].0.contains(ps[0].0[i]));
            } else if i > n {
                assert(ps[0].1.contains(ps[0].1[i - n - 1]));
            }
        }
    }
    if ps.len() == 1 {
        text::lemma_only_piece(first, '&');
        assert(want =~= seq![first]);
    } else {
        let rest = ps.skip(1);
        assert forall|i: int| 0 <= i < rest.len() implies plain(#[trigger] rest[i]) by {
            assert(plain(ps[i + 1]));
        }
        lemma_joined_pieces(rest);
        text::lemma_first_piece(first, '&', joined(rest));
        assert(want =~= seq![first] + rest.map_values(
            |p: (Seq<char>, Seq<char>)| pair_text(p),
        ));
    }
}

proof fn lemma_pairs_back(ps: Seq<(Seq<char>, Seq<char>)>, n: int)
    requires
        all_plain(ps),
        0 <= n <= ps.len(),
    ensures
        pairs_in(ps.map_values(|p: (Seq<char>, Seq<char>)| pair_text(p)), n) == ps.take(n),
    decreases n,
{
    let all = ps.map_values(|p: (Seq<char>, Seq<char>)| pair_text(p));
    if n == 0 {
        assert(ps.take(0) =~= seq![]);
    } else {
        lemma_pairs_back(ps, n - 1);
        assert(plain(ps[n - 1]));
        text::lemma_halves(ps[n - 1].0, '=', ps[n - 1].1);
        assert(all[n - 1] == pair_text(ps[n - 1]));
        assert(ps.take(n) =~= ps.take(n - 1).push(ps[n - 1]));
    }
}

/// A query reads back as the pairs it was written from.
pub proof fn queries_read_back(ps: Seq<(Seq<char>, Seq<char>)>)
    requires
        all_plain(ps),
    ensures
        pairs_of(joined(ps)) == ps,
{
    if ps.len() == 0 {
        let e = Seq::<char>::empty();
        text::lemma_only_piece(e, '&');
        text::lemma_find_none(e, '=', 0, 0);
        assert(text::halves(e, '=') is None);
        reveal_with_fuel(pairs_in, 2);
        assert(pairs_of(joined(ps)) =~= ps);
    } else {
        lemma_joined_pieces(ps);
        lemma_pairs_back(ps, ps.len() as int);
        assert(ps.take(ps.len() as int) =~= ps);
    }
}

/// A target of a path and a query.
pub open spec fn target_text(path: Seq<char>, ps: Seq<(Seq<char>, Seq<char>)>) -> Seq<char> {
    path + seq!['?'] + joined(ps)
}

/// Writes a target.
pub fn write_target(path: &str, q: &Query) -> (s: String)
    ensures
        s@ == target_text(path@, q@),
{
    let mut s: String = to_text(to_chars(path).as_slice());
    s.push('?');
    push_text(&mut s, q.write().as_str());
    assert(s@ =~= target_text(path@, q@));
    s
}

/// A target reads back as its path and its pairs.
pub proof fn targets_read_back(path: Seq<char>, ps: Seq<(Seq<char>, Seq<char>)>)
    requires
        !path.contains('?'),
        all_plain(ps),
    ensures
        parts_of(target_text(path, ps)).0 == path,
        pairs_of(parts_of(target_text(path, ps)).1) == ps,
{
    text::lemma_halves(path, '?', joined(ps));
    queries_read_back(ps);
}

}
