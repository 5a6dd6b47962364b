//! How the status page writes things: columns, colours, grouped digits and durations.

use crate::floats;
use crate::floats::not_less64;
use crate::text;
use crate::text::{decimal_chars, push_all, push_padded, push_text, to_chars, to_text};
use vstd::prelude::*;

verus! {

/// `n` times the character `c`.
pub open spec fn repeated(c: char, n: nat) -> Seq<char> {
    Seq::new(n, |i: int| c)
}

/// `t` with blanks after it up to a width of `w`.
pub open spec fn left(t: Seq<char>, w: nat) -> Seq<char> {
    t + repeated(' ', if t.len() < w { (w - t.len()) as nat } else { 0 })
}

/// `t` with blanks before it up to a width of `w`.
pub open spec fn right(t: Seq<char>, w: nat) -> Seq<char> {
    text::padded(t, w)
}

/// `t` in the terminal's colour `code`, where colours are asked for.
pub open spec fn painted(color: bool, code: Seq<char>, t: Seq<char>) -> Seq<char> {
    if color {
        "\x1b["@ + code + "m"@ + t + "\x1b[0m"@
    } else {
        t
    }
}

/// Appends `n` times the character `c`.
pub fn push_repeated(s: &mut String, c: char, n: usize)
    ensures
        final(s)@ == old(s)@ + repeated(c, n as nat),
{
    let mut i: usize = 0;
    assert(s@ =~= old(s)@ + repeated(c, 0));
    while i < n
        invariant
            i <= n,
            s@ == old(s)@ + repeated(c, i as nat),
        decreases n - i,
    {
        s.push(c);
        i += 1;
        assert(s@ =~= old(s)@ + repeated(c, i as nat));
    }
}

/// Appends `t`, left-aligned to a width of `w`.
pub fn push_left(s: &mut String, t: &str, w: usize)
    ensures
        final(s)@ == old(s)@ + left(t@, w as nat),
{
    let cs: Vec<char> = to_chars(t);
    push_all(s, cs.as_slice());
    let n: usize = if cs.len() < w {
        w - cs.len()
    } else {
        0
    };
    push_repeated(s, ' ', n);
    assert(s@ =~= old(s)@ + left(t@, w as nat));
}

/// Appends `t`, right-aligned to a width of `w`.
pub fn push_right(s: &mut String, t: &str, w: usize)
    ensures
        final(s)@ == old(s)@ + right(t@, w as nat),
{
    push_padded(s, to_chars(t).as_slice(), w);
}

/// Appends `t`, coloured where colours are asked for.
pub fn push_painted(s: &mut String, color: bool, code: &str, t: &str)
    ensures
        final(s)@ == old(s)@ + painted(color, code@, t@),
{
    if color {
        push_text(s, "\x1b[");
        push_text(s, code);
        push_text(s, "m");
        push_text(s, t);
        push_text(s, "\x1b[0m");
    } else {
        push_text(s, t);
    }
    assert(s@ =~= old(s)@ + painted(color, code@, t@));
}

/// The first `n` of the digits `d`, with a comma before each group of three that ends them
/// all.
pub open spec fn grouped(d: Seq<char>, n: int) -> Seq<char>
    decreases n,
{
    if n <= 0 {
        seq![]
    } else if n > 1 && (d.len() - (n - 1)) % 3 == 0 {
        grouped(d, n - 1) + seq![',', d[n - 1]]
    } else {
        grouped(d, n - 1) + seq![d[n - 1]]
    }
}

/// A number in writing with commas between its thousands.
pub fn thousands(digits: &str) -> (s: String)
    ensures
        s@ == grouped(digits@, digits@.len() as int),
{
    let d: Vec<char> = to_chars(digits);
    let n: usize = d.len();
    let mut s: String = String::new();
    let mut i: usize = 0;
    assert(s@ =~= seq![]);
    while i < n
        invariant
            n == d@.len(),
            i <= n,
            d@ == digits@,
            s@ == grouped(digits@, i as int),
        decreases n - i,
    {
        if i > 0 && (n - i) % 3 == 0 {
            s.push(',');
        }
        s.push(d[i]);
        i += 1;
        assert(s@ =~= grouped(digits@, i as int));
    }
    s
}

/// A time of whole minutes and whole seconds: hours and minutes, else minutes, else seconds.
pub open spec fn duration_text(minutes: nat, seconds: nat) -> Seq<char> {
    if minutes >= 60 {
        text::decimal(minutes / 60) + "h "@ + (if minutes % 60 < 10 {
            "0"@
        } else {
            seq![]
        }) + text::decimal(minutes % 60) + "m"@
    } else if minutes > 0 {
        text::decimal(minutes) + "m"@
    } else {
        text::decimal(seconds) + "s"@
    }
}

/// Writes a time.
pub fn duration(minutes: u64, seconds: u64) -> (s: String)
    ensures
        s@ == duration_text(minutes as nat, seconds as nat),
{
    let mut s: String = String::new();
    if minutes >= 60 {
        push_all(&mut s, decimal_chars(minutes / 60).as_slice());
        push_text(&mut s, "h ");
        if minutes % 60 < 10 {
            push_text(&mut s, "0");
        }
        push_all(&mut s, decimal_chars(minutes % 60).as_slice());
        push_text(&mut s, "m");
    } else if minutes > 0 {
        push_all(&mut s, decimal_chars(minutes).as_slice());
        push_text(&mut s, "m");
    } else {
        push_all(&mut s, decimal_chars(seconds).as_slice());
        push_text(&mut s, "s");
    }
    assert(s@ =~= duration_text(minutes as nat, seconds as nat));
    s
}

/// The colour of a temperature, the bits of a 64-bit float: red from 95 on, yellow from 85.
pub open spec fn heat_code(temp: u64) -> Seq<char> {
    if floats::at_least64(temp, 0x4057_C000_0000_0000) {
        "31"@
    } else if floats::at_least64(temp, 0x4055_4000_0000_0000) {
        "33"@
    } else {
        "32"@
    }
}

/// The colour of a temperature.
pub fn heat(temp: u64) -> (code: String)
    ensures
        code@ == heat_code(temp),
{
    let code: &str = if not_less64(temp, 0x4057_C000_0000_0000) {
        "31"
    } else if not_less64(temp, 0x4055_4000_0000_0000) {
        "33"
    } else {
        "32"
    };
    to_text(to_chars(code).as_slice())
}

/// Removing the commas gives the digits back.
pub proof fn grouping_only_adds_commas(d: Seq<char>, n: int)
    requires
        0 <= n <= d.len(),
        !d.contains(','),
    ensures
        grouped(d, n).filter(|c: char| c != ',') == d.take(n),
    decreases n,
{
    let p = |c: char| c != ',';
    if n == 0 {
        assert(d.take(0) =~= seq![]);
        assert(grouped(d, 0).filter(p) =~= seq![]) by {
            reveal(Seq::filter);
        }
    } else {
        grouping_only_adds_commas(d, n - 1);
        let g = grouped(d, n - 1);
        let last = d[n - 1];
        assert(d.contains(last));
        assert(d.take(n) =~= d.take(n - 1).push(last));
        reveal(Seq::filter);
        let all = grouped(d, n);
        assert(all.drop_last() =~= if n > 1 && (d.len() - (n - 1)) % 3 == 0 {
            g.push(',')
        } else {
            g
        });
        if n > 1 && (d.len() - (n - 1)) % 3 == 0 {
            assert(g.push(',').drop_last() =~= g);
            assert(g.push(',').filter(p) == g.filter(p));
        }
        assert(all.last() == last);
        assert(all.filter(p) == all.drop_last().filter(p).push(last));
    }
}

}
