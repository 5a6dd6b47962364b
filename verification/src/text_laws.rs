//! What splitting, trimming, numbers and the order of texts come to, whatever the text.

use crate::text;
use vstd::arithmetic::power::pow;
use vstd::prelude::*;

verus! {

/// A character lies between two others, or is one of them.
pub open spec fn within(lo: char, c: char, hi: char) -> bool {
    lo as u32 <= c as u32 <= hi as u32
}

/// A text that is a word: not empty, and without white space.
pub open spec fn is_word(w: Seq<char>) -> bool {
    w.len() > 0 && forall|i: int| 0 <= i < w.len() ==> !text::is_white(#[trigger] w[i])
}

proof fn lemma_white_shift(p: Seq<char>, t: Seq<char>, i: int)
    requires
        0 <= i <= t.len(),
    ensures
        text::past_white(p + t, p.len() + i) == p.len() + text::past_white(t, i),
        text::past_word(p + t, p.len() + i) == p.len() + text::past_word(t, i),
        i <= text::past_white(t, i) <= t.len(),
        i <= text::past_word(t, i) <= t.len(),
        i < t.len() && !text::is_white(t[i]) ==> i < text::past_word(t, i),
        text::past_white(t, i) < t.len() ==> !text::is_white(t[text::past_white(t, i)]),
    decreases t.len() - i,
{
    if i < t.len() {
        assert((p + t)[p.len() + i] == t[i]);
        lemma_white_shift(p, t, i + 1);
    }
}

proof fn lemma_words_shift(p: Seq<char>, t: Seq<char>, i: int)
    requires
        0 <= i <= t.len(),
    ensures
        text::words_from(p + t, p.len() + i) == text::words_from(t, i),
    decreases t.len() - i,
{
    let s = p + t;
    let a = text::past_white(t, i);
    lemma_white_shift(p, t, i);
    if a < t.len() {
        let b = text::past_word(t, a);
        lemma_white_shift(p, t, a);
        assert(s.subrange(p.len() + a, p.len() + b) =~= t.subrange(a, b));
        lemma_words_shift(p, t, b);
    }
}

proof fn lemma_past_word(w: Seq<char>, s: Seq<char>, i: int)
    requires
        is_word(w),
        0 <= i <= w.len() <= s.len(),
        s.take(w.len() as int) == w,
        w.len() == s.len() || text::is_white(s[w.len() as int]),
    ensures
        text::past_word(s, i) == w.len(),
    decreases w.len() - i,
{
    if i < w.len() {
        assert(s.take(w.len() as int)[i] == s[i]);
        lemma_past_word(w, s, i + 1);
    }
}

/// The words of a text are what white space leaves: it splits words, wherever and however much
/// of it there is.
pub proof fn white_space_splits_words(w: Seq<char>, c: char, t: Seq<char>)
    requires
        is_word(w),
        text::is_white(c),
    ensures
        text::words(Seq::empty()) == Seq::<Seq<char>>::empty(),
        text::words(w) == seq![w],
        text::words(seq![c] + t) == text::words(t),
        text::words(w + seq![c] + t) == seq![w] + text::words(t),
{
    assert(text::words(Seq::empty()) =~= seq![]);
    let n = w.len() as int;
    assert(w.take(n) =~= w);
    lemma_past_word(w, w, 0);
    assert(!text::is_white(w[0]));
    assert(w.subrange(0, n) =~= w);
    assert(text::words_from(w, n) =~= seq![]);
    assert(text::words(w) =~= seq![w]);
    lemma_words_shift(seq![c], t, 0);
    lemma_white_shift(seq![c], t, 0);
    let one = seq![c] + t;
    assert(text::past_white(one, 0) == text::past_white(one, 1));
    assert(text::words_from(one, 0) =~= text::words_from(one, 1));
    let s = w + seq![c] + t;
    assert(s =~= w + one);
    assert(s.take(n) =~= w);
    assert(s[n] == c);
    lemma_past_word(w, s, 0);
    assert(s[0] == w[0]);
    assert(s.subrange(0, n) =~= w);
    lemma_words_shift(w, one, 0);
    assert(text::words(s) =~= seq![w] + text::words(t));
}

proof fn lemma_trim_front(c: char, t: Seq<char>)
    requires
        text::is_white(c),
    ensures
        text::trimmed(seq![c] + t) == text::trimmed(t),
{
    let s = seq![c] + t;
    lemma_white_shift(seq![c], t, 0);
    assert(text::past_white(s, 0) == text::past_white(s, 1));
    assert(s.skip(text::past_white(s, 0)) =~= t.skip(text::past_white(t, 0)));
}

proof fn lemma_past_white_push(t: Seq<char>, c: char, i: int)
    requires
        0 <= i <= t.len(),
        text::is_white(c),
    ensures
        text::past_white(t.push(c), i) == if text::past_white(t, i) < t.len() {
            text::past_white(t, i)
        } else {
            (t.len() + 1) as int
        },
        i <= text::past_white(t, i) <= t.len(),
    decreases t.len() - i,
{
    if i < t.len() {
        lemma_past_white_push(t, c, i + 1);
    } else {
        assert(text::past_white(t.push(c), i) == text::past_white(t.push(c), i + 1));
    }
}

/// Trimming takes the white space at both ends, and nothing else.
pub proof fn trimming_takes_white_space_at_the_ends(t: Seq<char>, c: char)
    requires
        text::is_white(c),
    ensures
        text::trimmed(seq![c] + t) == text::trimmed(t),
        text::trimmed(t.push(c)) == text::trimmed(t),
        t.len() == 0 || (!text::is_white(t[0]) && !text::is_white(t.last())) ==> text::trimmed(t)
            == t,
{
    lemma_trim_front(c, t);
    lemma_past_white_push(t, c, 0);
    let (s, a) = (t.push(c), text::past_white(t, 0));
    if a < t.len() {
        assert(s.skip(a).drop_last() =~= t.skip(a));
        assert(s.skip(a).last() == c);
    } else {
        assert(s.skip((t.len() + 1) as int) =~= seq![]);
        assert(t.skip(a) =~= seq![]);
    }
    if t.len() == 0 {
        assert(t.skip(text::past_white(t, 0)) =~= t);
    } else if !text::is_white(t[0]) {
        assert(t.skip(0) =~= t);
    }
}

/// What is white space: tab to carriage return, the blank, and the wider blanks beyond ASCII.
pub proof fn white_space_in_ascii(c: char)
    requires
        (c as u32) < 0x80,
    ensures
        text::is_white(c) <==> c == ' ' || c == '\t' || c == '\n' || c == '\r' || c as u32 == 11
            || c as u32 == 12,
{
}

/// Lines end with a line feed, which a carriage return may precede; what follows the last one
/// is a line if it is not empty.
pub proof fn lines_end_with_line_feeds(a: Seq<char>, rest: Seq<char>)
    requires
        !a.contains('\n'),
    ensures
        text::lines(Seq::empty()) == Seq::<Seq<char>>::empty(),
        a.len() > 0 ==> text::lines(a) == seq![a],
        a.len() == 0 || a.last() != '\r' ==> text::lines(a + seq!['\n'] + rest) == seq![a]
            + text::lines(rest),
        text::lines(a + seq!['\r', '\n'] + rest) == seq![a] + text::lines(rest),
{
    assert(text::lines(Seq::empty()) =~= seq![]);
    assert forall|j: int| 0 <= j < a.len() implies a[j] != '\n' by {
        assert(a.contains(a[j]));
    }
    text::lemma_find_none(a, '\n', 0, a.len() as int);
    assert(a.skip(0) =~= a);
    text::lemma_first_line(a, rest);
    let b = a.push('\r');
    assert(!b.contains('\n')) by {
        assert forall|j: int| 0 <= j < b.len() implies b[j] != '\n' by {
            if j < a.len() {
                assert(b[j] == a[j]);
            }
        }
    }
    text::lemma_first_line(b, rest);
    assert(b + seq!['\n'] + rest =~= a + seq!['\r', '\n'] + rest);
    assert(b.drop_last() =~= a);
}

/// A text splits at every separator: no piece holds one, and there is a piece before each and
/// one after the last.
pub proof fn separators_split_pieces(a: Seq<char>, c: char, rest: Seq<char>)
    requires
        !a.contains(c),
    ensures
        text::pieces(a, c) == seq![a],
        text::pieces(a + seq![c] + rest, c) == seq![a] + text::pieces(rest, c),
        text::halves(a, c) is None,
        text::halves(a + seq![c] + rest, c) == Some((a, rest)),
{
    text::lemma_only_piece(a, c);
    text::lemma_first_piece(a, c, rest);
    text::lemma_halves(a, c, rest);
    assert forall|j: int| 0 <= j < a.len() implies a[j] != c by {
        assert(a.contains(a[j]));
    }
    text::lemma_find_none(a, c, 0, a.len() as int);
}

/// The value of digits is their sum, each at its place in base ten.
pub proof fn digits_count_by_their_place(c: char, rest: Seq<char>)
    requires
        text::is_digit(c),
        forall|i: int| 0 <= i < rest.len() ==> text::is_digit(#[trigger] rest[i]),
    ensures
        text::number(seq![c] + rest) == (c as int - '0' as int) * pow(10, rest.len())
            + text::number(rest),
    decreases rest.len(),
{
    let s = seq![c] + rest;
    reveal_with_fuel(pow, 2);
    if rest.len() == 0 {
        assert(s =~= seq![c]);
        assert(s.drop_last() =~= seq![]);
        assert(text::number(s.drop_last()) == 0);
        assert(pow(10, 0) == 1);
    } else {
        let front = rest.drop_last();
        assert(s.drop_last() =~= seq![c] + front);
        assert(s.last() == rest.last());
        digits_count_by_their_place(c, front);
        let (d, p) = (c as int - '0' as int, pow(10, front.len()));
        assert(pow(10, rest.len()) == 10 * p) by {
            vstd::arithmetic::power::lemma_pow_adds(10, 1, front.len());
            vstd::arithmetic::power::lemma_pow1(10);
        }
        assert(10 * (d * p) == d * (10 * p)) by (nonlinear_arith);
    }
}

/// A number in decimal is digits that count as much, without zeros before them.
pub proof fn decimals_have_no_leading_zeros(n: nat)
    ensures
        text::number(text::decimal(n)) == n,
        text::decimal(n).len() > 0,
        forall|i: int|
            0 <= i < text::decimal(n).len() ==> within('0', #[trigger] text::decimal(n)[i], '9'),
        n > 0 ==> text::decimal(n)[0] != '0',
        n == 0 ==> text::decimal(n) == seq!['0'],
    decreases n,
{
    text::lemma_decimal(n);
    assert forall|i: int| 0 <= i < text::decimal(n).len() implies within(
        '0',
        #[trigger] text::decimal(n)[i],
        '9',
    ) by {
        assert(text::is_digit(text::decimal(n)[i]));
    }
    if n >= 10 {
        decimals_have_no_leading_zeros(n / 10);
        assert(text::decimal(n)[0] == text::decimal(n / 10)[0]);
    } else if n == 0 {
        assert(text::decimal(0) =~= seq!['0']);
    }
}

/// What reads as a whole number: digits, at least one, that count for less than 2^64, which a
/// plus sign may precede.
pub proof fn whole_numbers_are_digits(s: Seq<char>)
    requires
        s.len() > 0,
        forall|i: int| 0 <= i < s.len() ==> within('0', #[trigger] s[i], '9'),
    ensures
        text::number(s) < 0x1_0000_0000_0000_0000 ==> text::whole(s) == Some(text::number(s) as u64)
            && text::whole(seq!['+'] + s) == text::whole(s),
        text::number(s) >= 0x1_0000_0000_0000_0000 ==> text::whole(s) is None,
{
    assert(s[0] != '+');
    assert((seq!['+'] + s).skip(1) =~= s);
}

/// What holds anything else than digits behind its first character is no number, and neither is
/// the empty text.
pub proof fn other_texts_are_no_numbers(s: Seq<char>, i: int)
    requires
        s.len() == 0 || (0 <= i < s.len() && !within('0', s[i], '9') && (i > 0 || s[i] != '+')) || s
            == seq!['+'],
    ensures
        text::whole(s) is None,
{
    let d = text::digits_of(s);
    if s.len() > 0 && s[0] == '+' {
        if s.len() > 1 {
            assert(d[i - 1] == s[i]);
            assert(!text::is_digit(d[i - 1]));
        }
    } else if s.len() > 0 {
        assert(!text::is_digit(d[i]));
    }
}

/// Where two texts part, or one ends, at place `k`.
pub open spec fn parts_at(a: Seq<char>, b: Seq<char>, k: int) -> bool {
    &&& 0 <= k <= a.len()
    &&& k < b.len()
    &&& a.take(k) == b.take(k)
    &&& k == a.len() || (a[k] as int) < (b[k] as int)
}

/// A text comes before another if it is a beginning of it, or smaller where they first part.
pub proof fn texts_are_ordered_where_they_part(a: Seq<char>, b: Seq<char>)
    ensures
        text::precedes(a, b) <==> exists|k: int| #[trigger] parts_at(a, b, k),
    decreases a.len(),
{
    if a.len() > 0 && b.len() > 0 && a[0] == b[0] {
        let (x, y) = (a.skip(1), b.skip(1));
        texts_are_ordered_where_they_part(x, y);
        if exists|k: int| #[trigger] parts_at(x, y, k) {
            let k = choose|k: int| #[trigger] parts_at(x, y, k);
            assert forall|i: int| 0 <= i < k + 1 implies a[i] == b[i] by {
                if i > 0 {
                    assert(x.take(k)[i - 1] == y.take(k)[i - 1]);
                }
            }
            assert(a.take(k + 1) =~= b.take(k + 1));
            assert(parts_at(a, b, k + 1));
        }
        if exists|k: int| #[trigger] parts_at(a, b, k) {
            let k = choose|k: int| #[trigger] parts_at(a, b, k);
            assert(k > 0);
            assert forall|i: int| 0 <= i < k - 1 implies x[i] == y[i] by {
                assert(a.take(k)[i + 1] == b.take(k)[i + 1]);
            }
            assert(x.take(k - 1) =~= y.take(k - 1));
            assert(parts_at(x, y, k - 1));
        }
    } else {
        if text::precedes(a, b) {
            assert(a.take(0) =~= b.take(0));
            assert(parts_at(a, b, 0));
        }
        if exists|k: int| #[trigger] parts_at(a, b, k) {
            let k = choose|k: int| #[trigger] parts_at(a, b, k);
            if k > 0 {
                assert(a.take(k)[0] == b.take(k)[0]);
            }
        }
    }
}

/// Lower case changes the capital letters of ASCII, each to the small one, and nothing else.
pub proof fn only_capitals_are_lowered(s: Seq<char>, i: int)
    requires
        0 <= i < s.len(),
    ensures
        text::lowered(s).len() == s.len(),
        within('A', s[i], 'Z') ==> text::lowered(s)[i] as u32 - 'a' as u32 == s[i] as u32
            - 'A' as u32,
        !within('A', s[i], 'Z') ==> text::lowered(s)[i] == s[i],
{
}

/// Padding puts blanks before a text that is shorter than the width, and leaves others alone.
pub proof fn padding_fills_up_to_the_width(t: Seq<char>, w: nat, i: int)
    ensures
        text::padded(t, w).len() == if t.len() < w {
            w
        } else {
            t.len()
        },
        ({
            let n = text::padded(t, w).len() - t.len();
            &&& 0 <= i < n ==> text::padded(t, w)[i] == ' '
            &&& 0 <= i < t.len() ==> text::padded(t, w)[n + i] == t[i]
        }),
{
}

}
