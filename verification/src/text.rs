//! Characters, decimal numbers and the small text operations that the farm's formats need.

use crate::vecs::part;
use vstd::prelude::*;

verus! {

/// `String::push` appends the given character to the end of the string.
pub assume_specification[ String::push ](s: &mut String, c: char)
    ensures
        final(s)@ == old(s)@.push(c),
;

/// The characters of a string.
pub fn to_chars(s: &str) -> (v: Vec<char>)
    ensures
        v@ == s@,
{
    let mut v: Vec<char> = Vec::new();
    for c in it: s.chars()
        invariant
            v@ == it.seq().take(it.index()),
            it.seq() == s@,
    {
        let ghost before = v@;
        v.push(c);
        assert(v@ =~= it.seq().take(it.index() + 1));
    }
    assert(v@ =~= s@);
    v
}

/// The string of the given characters.
pub fn to_text(cs: &[char]) -> (s: String)
    ensures
        s@ == cs@,
{
    let mut s: String = String::new();
    push_all(&mut s, cs);
    assert(s@ =~= cs@);
    s
}

/// Appends characters to a string.
pub fn push_all(s: &mut String, cs: &[char])
    ensures
        final(s)@ == old(s)@ + cs@,
{
    let mut i: usize = 0;
    assert(s@ =~= old(s)@ + cs@.take(0));
    while i < cs.len()
        invariant
            i <= cs@.len(),
            s@ == old(s)@ + cs@.take(i as int),
        decreases cs@.len() - i,
    {
        s.push(cs[i]);
        i += 1;
        assert(s@ =~= old(s)@ + cs@.take(i as int));
    }
    assert(cs@.take(i as int) =~= cs@);
}

/// Appends a string to a string.
pub fn push_text(s: &mut String, t: &str)
    ensures
        final(s)@ == old(s)@ + t@,
{
    let cs: Vec<char> = to_chars(t);
    push_all(s, cs.as_slice());
}

/// The decimal digit of value `d`.
pub open spec fn digit(d: nat) -> char {
    (48 + d) as char
}

/// A number in decimal, without leading zeros.
pub open spec fn decimal(n: nat) -> Seq<char>
    decreases n,
{
    if n < 10 {
        seq![digit(n)]
    } else {
        decimal(n / 10).push(digit(n % 10))
    }
}

/// Writes a number in decimal.
pub fn decimal_chars(n: u64) -> (v: Vec<char>)
    ensures
        v@ == decimal(n as nat),
    decreases n,
{
    let mut v: Vec<char> = if n < 10 {
        Vec::new()
    } else {
        decimal_chars(n / 10)
    };
    let d: u8 = 48 + (n % 10) as u8;
    v.push(d as char);
    assert(v@ =~= decimal(n as nat));
    v
}

/// `t` with blanks before it up to a width of `w`.
pub open spec fn padded(t: Seq<char>, w: nat) -> Seq<char> {
    Seq::new(if t.len() < w { (w - t.len()) as nat } else { 0 }, |i: int| ' ') + t
}

/// Appends `cs`, right-aligned to a width of `w`.
pub fn push_padded(s: &mut String, cs: &[char], w: usize)
    ensures
        final(s)@ == old(s)@ + padded(cs@, w as nat),
{
    let ghost n = if cs@.len() < w { (w - cs@.len()) as nat } else { 0 };
    let ghost blanks = Seq::new(n, |i: int| ' ');
    let mut i: usize = cs.len();
    assert(s@ =~= old(s)@ + blanks.take(0));
    while i < w
        invariant
            cs@.len() <= i,
            i <= w || i == cs@.len(),
            n == if cs@.len() < w { (w - cs@.len()) as nat } else { 0 },
            blanks == Seq::new(n, |i: int| ' '),
            s@ == old(s)@ + blanks.take(i - cs@.len()),
        decreases w - i,
    {
        s.push(' ');
        i += 1;
        assert(s@ =~= old(s)@ + blanks.take(i - cs@.len()));
    }
    assert(blanks.take(i - cs@.len()) =~= blanks);
    push_all(s, cs);
    assert(s@ =~= old(s)@ + padded(cs@, w as nat));
}

/// The first place from `i` on that holds `c`, or the length.
pub open spec fn find(s: Seq<char>, c: char, i: int) -> int
    decreases s.len() - i,
{
    if i >= s.len() || s[i] == c {
        i
    } else {
        find(s, c, i + 1)
    }
}

pub proof fn lemma_find(s: Seq<char>, c: char, i: int)
    requires
        0 <= i <= s.len(),
    ensures
        i <= find(s, c, i) <= s.len(),
        find(s, c, i) < s.len() ==> s[find(s, c, i)] == c,
        forall|j: int| i <= j < find(s, c, i) ==> s[j] != c,
    decreases s.len() - i,
{
    if i < s.len() && s[i] != c {
        lemma_find(s, c, i + 1);
    }
}

pub fn find_char(s: &[char], c: char, from: usize) -> (i: usize)
    requires
        from <= s@.len(),
    ensures
        i == find(s@, c, from as int),
        from <= i <= s@.len(),
        i < s@.len() ==> s@[i as int] == c,
{
    let mut i: usize = from;
    while i < s.len() && s[i] != c
        invariant
            from <= i <= s@.len(),
            find(s@, c, i as int) == find(s@, c, from as int),
        decreases s@.len() - i,
    {
        i += 1;
    }
    i
}

/// The two sides of the first `c`.
pub open spec fn halves(s: Seq<char>, c: char) -> Option<(Seq<char>, Seq<char>)> {
    let i = find(s, c, 0);
    if i >= s.len() {
        None
    } else {
        Some((s.take(i), s.skip(i + 1)))
    }
}

/// Splits at the first `c`.
pub fn split_once(s: &[char], c: char) -> (res: Option<(Vec<char>, Vec<char>)>)
    ensures
        match halves(s@, c) {
            None => res is None,
            Some((a, b)) => res matches Some((x, y)) && x@ == a && y@ == b,
        },
{
    let i: usize = find_char(s, c, 0);
    if i >= s.len() {
        return None;
    }
    let a: Vec<char> = part(s, 0, i);
    let b: Vec<char> = part(s, i + 1, s.len());
    assert(a@ =~= s@.take(i as int));
    assert(b@ =~= s@.skip(i + 1));
    Some((a, b))
}

/// The pieces between the `c`s from place `i` on.
pub open spec fn pieces_from(s: Seq<char>, c: char, i: int) -> Seq<Seq<char>>
    decreases s.len() - i,
    when 0 <= i <= s.len()
    via pieces_shrink
{
    let j = find(s, c, i);
    if j >= s.len() {
        seq![s.skip(i)]
    } else {
        seq![s.subrange(i, j)] + pieces_from(s, c, j + 1)
    }
}

#[via_fn]
proof fn pieces_shrink(s: Seq<char>, c: char, i: int) {
    lemma_find(s, c, i);
}

/// The pieces between the `c`s; one piece where there is none.
pub open spec fn pieces(s: Seq<char>, c: char) -> Seq<Seq<char>> {
    pieces_from(s, c, 0)
}

/// What strings hold.
pub open spec fn contents(v: Seq<String>) -> Seq<Seq<char>> {
    v.map_values(|s: String| s@)
}

/// The texts of lists of characters.
pub open spec fn texts(v: Seq<Vec<char>>) -> Seq<Seq<char>> {
    v.map_values(|p: Vec<char>| p@)
}

pub proof fn lemma_texts_push(v: Seq<Vec<char>>, p: Vec<char>)
    ensures
        texts(v.push(p)) == texts(v).push(p@),
{
    assert(texts(v.push(p)) =~= texts(v).push(p@));
}

/// Splits at every `c`.
pub fn split(s: &[char], c: char) -> (out: Vec<Vec<char>>)
    ensures
        texts(out@) == pieces(s@, c),
{
    let mut out: Vec<Vec<char>> = Vec::new();
    let mut i: usize = 0;
    let n: usize = s.len();
    let mut j: usize = find_char(s, c, 0);
    assert(texts(out@) + pieces(s@, c) =~= pieces(s@, c));
    while j < n
        invariant
            n == s@.len(),
            i <= j <= n,
            j == find(s@, c, i as int),
            texts(out@) + pieces_from(s@, c, i as int) == pieces(s@, c),
        decreases n - j,
    {
        let ghost before = texts(out@);
        let p: Vec<char> = part(s, i, j);
        proof {
            lemma_texts_push(out@, p);
            assert(before + pieces_from(s@, c, i as int) =~= before.push(p@) + pieces_from(
                s@,
                c,
                j + 1,
            ));
        }
        out.push(p);
        i = j + 1;
        j = find_char(s, c, i);
    }
    let ghost before = texts(out@);
    let p: Vec<char> = part(s, i, n);
    proof {
        lemma_texts_push(out@, p);
        assert(p@ =~= s@.skip(i as int));
        assert(before + seq![p@] =~= before.push(p@));
    }
    out.push(p);
    out
}

/// A line without the carriage return that ended it.
pub open spec fn without_return(l: Seq<char>) -> Seq<char> {
    if l.len() > 0 && l.last() == '\r' {
        l.drop_last()
    } else {
        l
    }
}

/// The lines of a text from place `i` on. A line ends with a line feed, which may follow a
/// carriage return; the last line need not end.
pub open spec fn lines_from(s: Seq<char>, i: int) -> Seq<Seq<char>>
    decreases s.len() - i,
    when 0 <= i <= s.len()
    via lines_shrink
{
    let j = find(s, '\n', i);
    if i >= s.len() {
        seq![]
    } else if j >= s.len() {
        seq![s.skip(i)]
    } else {
        seq![without_return(s.subrange(i, j))] + lines_from(s, j + 1)
    }
}

#[via_fn]
proof fn lines_shrink(s: Seq<char>, i: int) {
    lemma_find(s, '\n', i);
}

/// The lines of a text.
pub open spec fn lines(s: Seq<char>) -> Seq<Seq<char>> {
    lines_from(s, 0)
}

/// Splits a text into its lines.
pub fn split_lines(s: &[char]) -> (out: Vec<Vec<char>>)
    ensures
        texts(out@) == lines(s@),
{
    let mut out: Vec<Vec<char>> = Vec::new();
    let mut i: usize = 0;
    let n: usize = s.len();
    assert(texts(out@) + lines(s@) =~= lines(s@));
    while i < n
        invariant
            n == s@.len(),
            i <= n,
            texts(out@) + lines_from(s@, i as int) == lines(s@),
        decreases n - i,
    {
        let ghost before = texts(out@);
        let j: usize = find_char(s, '\n', i);
        let end: usize = if j < n && j > i && s[j - 1] == '\r' {
            j - 1
        } else {
            j
        };
        let p: Vec<char> = part(s, i, end);
        proof {
            lemma_texts_push(out@, p);
            if j < n {
                let l = s@.subrange(i as int, j as int);
                assert(p@ =~= without_return(l));
                assert(before + (seq![p@] + lines_from(s@, j + 1)) =~= before.push(p@)
                    + lines_from(s@, j + 1));
            } else {
                assert(p@ =~= s@.skip(i as int));
                assert(before + seq![p@] =~= before.push(p@) + Seq::<Seq<char>>::empty());
            }
        }
        out.push(p);
        i = if j < n {
            j + 1
        } else {
            n
        };
    }
    assert(texts(out@) + Seq::<Seq<char>>::empty() =~= texts(out@));
    out
}

/// White space.
pub open spec fn is_white(c: char) -> bool {
    let u = c as u32;
    ||| 9 <= u <= 13
    ||| u == 0x20
    ||| u == 0x85
    ||| u == 0xA0
    ||| u == 0x1680
    ||| 0x2000 <= u <= 0x200A
    ||| u == 0x2028
    ||| u == 0x2029
    ||| u == 0x202F
    ||| u == 0x205F
    ||| u == 0x3000
}

pub fn is_blank(c: char) -> (yes: bool)
    ensures
        yes == is_white(c),
{
    let u: u32 = c as u32;
    (9 <= u && u <= 13) || u == 0x20 || u == 0x85 || u == 0xA0 || u == 0x1680 || (0x2000 <= u && u
        <= 0x200A) || u == 0x2028 || u == 0x2029 || u == 0x202F || u == 0x205F || u == 0x3000
}

/// The first place from `i` on that is not white space, or the length.
pub open spec fn past_white(s: Seq<char>, i: int) -> int
    decreases s.len() - i,
{
    if i >= s.len() || !is_white(s[i]) {
        i
    } else {
        past_white(s, i + 1)
    }
}

/// The first place from `i` on that is white space, or the length.
pub open spec fn past_word(s: Seq<char>, i: int) -> int
    decreases s.len() - i,
{
    if i >= s.len() || is_white(s[i]) {
        i
    } else {
        past_word(s, i + 1)
    }
}

/// A text without the white space at its end.
pub open spec fn trimmed_end(s: Seq<char>) -> Seq<char>
    decreases s.len(),
{
    if s.len() > 0 && is_white(s.last()) {
        trimmed_end(s.drop_last())
    } else {
        s
    }
}

/// A text without the white space at its ends.
pub open spec fn trimmed(s: Seq<char>) -> Seq<char> {
    trimmed_end(s.skip(past_white(s, 0)))
}

fn skip_white(s: &[char], from: usize) -> (i: usize)
    requires
        from <= s@.len(),
    ensures
        i == past_white(s@, from as int),
        from <= i <= s@.len(),
        i < s@.len() ==> !is_white(s@[i as int]),
{
    let mut i: usize = from;
    while i < s.len() && is_blank(s[i])
        invariant
            from <= i <= s@.len(),
            past_white(s@, i as int) == past_white(s@, from as int),
        decreases s@.len() - i,
    {
        i += 1;
    }
    i
}

fn skip_word(s: &[char], from: usize) -> (i: usize)
    requires
        from <= s@.len(),
    ensures
        i == past_word(s@, from as int),
        from <= i <= s@.len(),
        from < s@.len() && !is_white(s@[from as int]) ==> from < i,
{
    let mut i: usize = from;
    while i < s.len() && !is_blank(s[i])
        invariant
            from <= i <= s@.len(),
            past_word(s@, i as int) == past_word(s@, from as int),
            i == from || from < i,
        decreases s@.len() - i,
    {
        i += 1;
    }
    i
}

/// A text without the white space at its ends.
pub fn trim(s: &[char]) -> (out: Vec<char>)
    ensures
        out@ == trimmed(s@),
{
    let from: usize = skip_white(s, 0);
    let mut to: usize = s.len();
    let ghost all = s@.skip(from as int);
    assert(s@.subrange(from as int, to as int) =~= all);
    while to > from && is_blank(s[to - 1])
        invariant
            from <= to <= s@.len(),
            trimmed_end(s@.subrange(from as int, to as int)) == trimmed_end(all),
        decreases to,
    {
        let ghost t = s@.subrange(from as int, to as int);
        assert(t.drop_last() =~= s@.subrange(from as int, to - 1));
        assert(t.last() == s@[to - 1]);
        to -= 1;
    }
    proof {
        let t = s@.subrange(from as int, to as int);
        if t.len() > 0 {
            assert(t.last() == s@[to - 1]);
        }
    }
    part(s, from, to)
}

/// The words from place `i` on: the runs between white space.
pub open spec fn words_from(s: Seq<char>, i: int) -> Seq<Seq<char>>
    decreases s.len() - i,
    when 0 <= i <= s.len()
    via words_shrink
{
    let a = past_white(s, i);
    let b = past_word(s, a);
    if a >= s.len() {
        seq![]
    } else {
        seq![s.subrange(a, b)] + words_from(s, b)
    }
}

#[via_fn]
proof fn words_shrink(s: Seq<char>, i: int) {
    lemma_white(s, i);
    let a = past_white(s, i);
    lemma_word(s, a);
}

proof fn lemma_white(s: Seq<char>, i: int)
    requires
        0 <= i <= s.len(),
    ensures
        i <= past_white(s, i) <= s.len(),
        past_white(s, i) < s.len() ==> !is_white(s[past_white(s, i)]),
    decreases s.len() - i,
{
    if i < s.len() && is_white(s[i]) {
        lemma_white(s, i + 1);
    }
}

proof fn lemma_word(s: Seq<char>, i: int)
    requires
        0 <= i <= s.len(),
    ensures
        i <= past_word(s, i) <= s.len(),
        i < s.len() && !is_white(s[i]) ==> i < past_word(s, i),
    decreases s.len() - i,
{
    if i < s.len() && !is_white(s[i]) {
        lemma_word(s, i + 1);
    }
}

/// The words of a text.
pub open spec fn words(s: Seq<char>) -> Seq<Seq<char>> {
    words_from(s, 0)
}

/// Splits a text into its words.
pub fn split_words(s: &[char]) -> (out: Vec<Vec<char>>)
    ensures
        texts(out@) == words(s@),
{
    let mut out: Vec<Vec<char>> = Vec::new();
    let mut i: usize = 0;
    let n: usize = s.len();
    assert(texts(out@) + words(s@) =~= words(s@));
    while i < n
        invariant
            n == s@.len(),
            i <= n,
            texts(out@) + words_from(s@, i as int) == words(s@),
        decreases n - i,
    {
        let ghost before = texts(out@);
        let a: usize = skip_white(s, i);
        if a >= n {
            assert(before + Seq::<Seq<char>>::empty() =~= before);
            return out;
        }
        let b: usize = skip_word(s, a);
        let p: Vec<char> = part(s, a, b);
        proof {
            lemma_texts_push(out@, p);
            assert(before + (seq![p@] + words_from(s@, b as int)) =~= before.push(p@) + words_from(
                s@,
                b as int,
            ));
        }
        out.push(p);
        i = b;
    }
    assert(texts(out@) + Seq::<Seq<char>>::empty() =~= texts(out@));
    out
}

/// Whether two texts are the same.
pub fn same(a: &[char], b: &[char]) -> (yes: bool)
    ensures
        yes == (a@ == b@),
{
    if a.len() != b.len() {
        return false;
    }
    let mut i: usize = 0;
    while i < a.len()
        invariant
            a@.len() == b@.len(),
            i <= a@.len(),
            forall|k: int| 0 <= k < i ==> a@[k] == b@[k],
        decreases a@.len() - i,
    {
        if a[i] != b[i] {
            assert(a@[i as int] != b@[i as int]);
            return false;
        }
        i += 1;
    }
    assert(a@ =~= b@);
    true
}

/// Whether a text is the given one.
pub fn is_text(a: &[char], t: &str) -> (yes: bool)
    ensures
        yes == (a@ == t@),
{
    let b: Vec<char> = to_chars(t);
    same(a, b.as_slice())
}

/// What follows `p` at the start of a text.
pub open spec fn after_prefix(s: Seq<char>, p: Seq<char>) -> Option<Seq<char>> {
    if s.len() >= p.len() && s.take(p.len() as int) == p {
        Some(s.skip(p.len() as int))
    } else {
        None
    }
}

/// What follows `p` at the start of a text.
pub fn strip_prefix(s: &[char], p: &[char]) -> (rest: Option<Vec<char>>)
    ensures
        match after_prefix(s@, p@) {
            None => rest is None,
            Some(t) => rest matches Some(v) && v@ == t,
        },
{
    if s.len() < p.len() {
        return None;
    }
    let front: Vec<char> = part(s, 0, p.len());
    assert(front@ =~= s@.take(p@.len() as int));
    if !same(front.as_slice(), p) {
        return None;
    }
    let rest: Vec<char> = part(s, p.len(), s.len());
    assert(rest@ =~= s@.skip(p@.len() as int));
    Some(rest)
}

/// An ASCII letter in lower case.
pub open spec fn lower(c: char) -> char {
    if 65 <= c as u32 <= 90 {
        ((c as u32) + 32) as char
    } else {
        c
    }
}

/// A text with its ASCII letters in lower case.
pub open spec fn lowered(s: Seq<char>) -> Seq<char> {
    s.map_values(|c: char| lower(c))
}

/// A text with its ASCII letters in lower case.
pub fn to_lower(s: &[char]) -> (out: Vec<char>)
    ensures
        out@ == lowered(s@),
{
    let mut out: Vec<char> = Vec::new();
    let mut i: usize = 0;
    while i < s.len()
        invariant
            i <= s@.len(),
            out@ == lowered(s@.take(i as int)),
        decreases s@.len() - i,
    {
        let u: u32 = s[i] as u32;
        if 65 <= u && u <= 90 {
            let l: u8 = u as u8 + 32;
            out.push(l as char);
        } else {
            out.push(s[i]);
        }
        i += 1;
        assert(out@ =~= lowered(s@.take(i as int)));
    }
    assert(s@.take(i as int) =~= s@);
    out
}

/// A character is a decimal digit.
pub open spec fn is_digit(c: char) -> bool {
    48 <= c as u32 <= 57
}

/// The number that digits make.
pub open spec fn number(s: Seq<char>) -> nat
    decreases s.len(),
{
    if s.len() == 0 {
        0
    } else {
        10 * number(s.drop_last()) + (s.last() as u32 - 48) as nat
    }
}

/// The digits of a number, which a plus sign may precede.
pub open spec fn digits_of(s: Seq<char>) -> Seq<char> {
    if s.len() > 0 && s[0] == '+' {
        s.skip(1)
    } else {
        s
    }
}

/// The whole number that a text is, if it is one and fits in 64 bits.
pub open spec fn whole(s: Seq<char>) -> Option<u64> {
    let d = digits_of(s);
    if d.len() > 0 && (forall|i: int| 0 <= i < d.len() ==> is_digit(#[trigger] d[i])) && number(d)
        <= u64::MAX {
        Some(number(d) as u64)
    } else {
        None
    }
}

proof fn lemma_number_grows(s: Seq<char>, i: int)
    requires
        0 <= i <= s.len(),
    ensures
        number(s.take(i)) <= number(s),
    decreases s.len() - i,
{
    if i < s.len() {
        lemma_number_grows(s, i + 1);
        assert(s.take(i + 1).drop_last() =~= s.take(i));
    } else {
        assert(s.take(i) =~= s);
    }
}

/// Reads a whole number.
pub fn parse_whole(s: &[char]) -> (n: Option<u64>)
    ensures
        n == whole(s@),
{
    let from: usize = if s.len() > 0 && s[0] == '+' {
        1
    } else {
        0
    };
    let ghost d = digits_of(s@);
    assert(d =~= s@.skip(from as int));
    if from >= s.len() {
        return None;
    }
    let mut n: u64 = 0;
    let mut i: usize = from;
    assert(d.take(0) =~= seq![]);
    while i < s.len()
        invariant
            from <= i <= s@.len(),
            d == digits_of(s@),
            d == s@.skip(from as int),
            n == number(d.take(i - from)),
            forall|k: int| 0 <= k < i - from ==> is_digit(#[trigger] d[k]),
        decreases s@.len() - i,
    {
        let u: u32 = s[i] as u32;
        assert(d[i - from] == s@[i as int]);
        if u < 48 || u > 57 {
            assert(!is_digit(d[i - from]));
            return None;
        }
        let digit: u64 = (u - 48) as u64;
        proof {
            assert(d.take(i - from + 1).drop_last() =~= d.take(i - from));
            assert(d.take(i - from + 1).last() == d[i - from]);
            lemma_number_grows(d, i - from + 1);
        }
        if n > (u64::MAX - digit) / 10 {
            return None;
        }
        n = 10 * n + digit;
        i += 1;
    }
    assert(d.take(i - from) =~= d);
    Some(n)
}

/// A number in decimal reads back as the number.
pub proof fn decimals_read_back(n: u64)
    ensures
        whole(decimal(n as nat)) == Some(n),
{
    lemma_decimal(n as nat);
    let d = decimal(n as nat);
    assert(is_digit(d[0]));
    assert(digits_of(d) == d);
}

pub proof fn lemma_decimal(n: nat)
    ensures
        decimal(n).len() > 0,
        forall|i: int| 0 <= i < decimal(n).len() ==> is_digit(#[trigger] decimal(n)[i]),
        number(decimal(n)) == n,
    decreases n,
{
    let d = decimal(n);
    if n < 10 {
        assert(d.drop_last() =~= seq![]);
        assert(number(d.drop_last()) == 0);
    } else {
        lemma_decimal(n / 10);
        assert(d.drop_last() =~= decimal(n / 10));
    }
}

pub proof fn lemma_find_shift(p: Seq<char>, t: Seq<char>, c: char, i: int)
    requires
        0 <= i <= t.len(),
    ensures
        find(p + t, c, p.len() + i) == p.len() + find(t, c, i),
    decreases t.len() - i,
{
    if i < t.len() && t[i] != c {
        lemma_find_shift(p, t, c, i + 1);
    }
}

pub proof fn lemma_find_none(s: Seq<char>, c: char, i: int, end: int)
    requires
        0 <= i <= end <= s.len(),
        forall|j: int| i <= j < end ==> s[j] != c,
        end == s.len() || s[end] == c,
    ensures
        find(s, c, i) == end,
    decreases end - i,
{
    if i < end {
        lemma_find_none(s, c, i + 1, end);
    }
}

proof fn lemma_pieces_shift(p: Seq<char>, t: Seq<char>, c: char, i: int)
    requires
        0 <= i <= t.len(),
    ensures
        pieces_from(p + t, c, p.len() + i) == pieces_from(t, c, i),
    decreases t.len() - i,
{
    let s = p + t;
    let j = find(t, c, i);
    lemma_find(t, c, i);
    lemma_find_shift(p, t, c, i);
    if j >= t.len() {
        assert(s.skip(p.len() + i) =~= t.skip(i));
    } else {
        assert(s.subrange(p.len() + i, p.len() + j) =~= t.subrange(i, j));
        lemma_pieces_shift(p, t, c, j + 1);
    }
}

/// A first piece without `c` splits off.
pub proof fn lemma_first_piece(a: Seq<char>, c: char, rest: Seq<char>)
    requires
        !a.contains(c),
    ensures
        pieces(a + seq![c] + rest, c) == seq![a] + pieces(rest, c),
{
    let p = a + seq![c];
    let s = p + rest;
    assert forall|j: int| 0 <= j < a.len() implies s[j] != c by {
        assert(a.contains(a[j]));
    }
    lemma_find_none(s, c, 0, a.len() as int);
    assert(s.subrange(0, a.len() as int) =~= a);
    lemma_pieces_shift(p, rest, c, 0);
}

/// A text without `c` is one piece.
pub proof fn lemma_only_piece(a: Seq<char>, c: char)
    requires
        !a.contains(c),
    ensures
        pieces(a, c) == seq![a],
{
    assert forall|j: int| 0 <= j < a.len() implies a[j] != c by {
        assert(a.contains(a[j]));
    }
    lemma_find_none(a, c, 0, a.len() as int);
    assert(a.skip(0) =~= a);
}

/// The sides of the first `c`.
pub proof fn lemma_halves(a: Seq<char>, c: char, rest: Seq<char>)
    requires
        !a.contains(c),
    ensures
        halves(a + seq![c] + rest, c) == Some((a, rest)),
{
    let s = a + seq![c] + rest;
    assert forall|j: int| 0 <= j < a.len() implies s[j] != c by {
        assert(a.contains(a[j]));
    }
    lemma_find_none(s, c, 0, a.len() as int);
    assert(s.take(a.len() as int) =~= a);
    assert(s.skip((a.len() + 1) as int) =~= rest);
}

proof fn lemma_lines_shift(p: Seq<char>, t: Seq<char>, i: int)
    requires
        0 <= i <= t.len(),
    ensures
        lines_from(p + t, p.len() + i) == lines_from(t, i),
    decreases t.len() - i,
{
    let s = p + t;
    let j = find(t, '\n', i);
    lemma_find(t, '\n', i);
    lemma_find_shift(p, t, '\n', i);
    if i < t.len() {
        if j >= t.len() {
            assert(s.skip(p.len() + i) =~= t.skip(i));
        } else {
            assert(s.subrange(p.len() + i, p.len() + j) =~= t.subrange(i, j));
            lemma_lines_shift(p, t, j + 1);
        }
    }
}

/// A first line splits off.
pub proof fn lemma_first_line(a: Seq<char>, rest: Seq<char>)
    requires
        !a.contains('\n'),
    ensures
        lines(a + seq!['\n'] + rest) == seq![without_return(a)] + lines(rest),
{
    let p = a + seq!['\n'];
    let s = p + rest;
    assert forall|j: int| 0 <= j < a.len() implies s[j] != '\n' by {
        assert(a.contains(a[j]));
    }
    lemma_find_none(s, '\n', 0, a.len() as int);
    assert(s.subrange(0, a.len() as int) =~= a);
    lemma_lines_shift(p, rest, 0);
}

/// The order of texts: character by character, a beginning before the whole.
pub open spec fn precedes(a: Seq<char>, b: Seq<char>) -> bool
    decreases a.len(),
{
    if b.len() == 0 {
        false
    } else if a.len() == 0 {
        true
    } else if a[0] != b[0] {
        (a[0] as int) < (b[0] as int)
    } else {
        precedes(a.skip(1), b.skip(1))
    }
}

pub proof fn lemma_precedes_total(a: Seq<char>, b: Seq<char>)
    ensures
        !(precedes(a, b) && precedes(b, a)),
        a == b ==> !precedes(a, b),
        a != b ==> precedes(a, b) || precedes(b, a),
    decreases a.len(),
{
    if a.len() > 0 && b.len() > 0 && a[0] == b[0] {
        lemma_precedes_total(a.skip(1), b.skip(1));
        if a.skip(1) == b.skip(1) {
            assert(a =~= seq![a[0]] + a.skip(1));
            assert(b =~= seq![b[0]] + b.skip(1));
        }
    } else if a.len() == 0 && b.len() == 0 {
        assert(a =~= b);
    }
}

pub proof fn lemma_precedes_transitive(a: Seq<char>, b: Seq<char>, c: Seq<char>)
    requires
        precedes(a, b),
        precedes(b, c),
    ensures
        precedes(a, c),
    decreases a.len(),
{
    if a.len() > 0 && a[0] == b[0] && b[0] == c[0] {
        lemma_precedes_transitive(a.skip(1), b.skip(1), c.skip(1));
    }
}

/// Whether `a` comes before `b`.
pub fn comes_before(a: &[char], b: &[char]) -> (yes: bool)
    ensures
        yes == precedes(a@, b@),
{
    let mut i: usize = 0;
    assert(a@.skip(0) =~= a@);
    assert(b@.skip(0) =~= b@);
    while i < a.len() && i < b.len()
        invariant
            i <= a@.len(),
            i <= b@.len(),
            precedes(a@, b@) == precedes(a@.skip(i as int), b@.skip(i as int)),
        decreases a@.len() - i,
    {
        let ghost (x, y) = (a@.skip(i as int), b@.skip(i as int));
        assert(x[0] == a@[i as int] && y[0] == b@[i as int]);
        if a[i] != b[i] {
            let (c, d): (char, char) = (a[i], b[i]);
            proof {
                vstd::utf8::char_u32_cast(c, c as u32);
                vstd::utf8::char_u32_cast(d, d as u32);
            }
            return (c as u32) < (d as u32);
        }
        assert(x.skip(1) =~= a@.skip(i + 1));
        assert(y.skip(1) =~= b@.skip(i + 1));
        i += 1;
    }
    i < b.len()
}

}
