//! The order of floating-point numbers, read off their bit patterns.

use vstd::prelude::*;

verus! {

/// The pattern of a 32-bit float is no number.
pub open spec fn is_nan32(b: u32) -> bool {
    b % 0x8000_0000 > 0x7F80_0000
}

/// The place of a 32-bit float among the others: both zeros at 0, negatives below.
pub open spec fn place32(b: u32) -> int {
    if b < 0x8000_0000 {
        b as int
    } else {
        0x8000_0000 - b
    }
}

/// `a > b` of 32-bit floats; false where one is no number.
pub open spec fn above32(a: u32, b: u32) -> bool {
    !is_nan32(a) && !is_nan32(b) && place32(a) > place32(b)
}

/// The pattern of a 64-bit float is no number.
pub open spec fn is_nan64(b: u64) -> bool {
    b % 0x8000_0000_0000_0000 > 0x7FF0_0000_0000_0000
}

/// The place of a 64-bit float among the others.
pub open spec fn place64(b: u64) -> int {
    if b < 0x8000_0000_0000_0000 {
        b as int
    } else {
        0x8000_0000_0000_0000 - b
    }
}

/// `a > b` of 64-bit floats; false where one is no number.
pub open spec fn above64(a: u64, b: u64) -> bool {
    !is_nan64(a) && !is_nan64(b) && place64(a) > place64(b)
}

/// `a >= b` of 64-bit floats; false where one is no number.
pub open spec fn at_least64(a: u64, b: u64) -> bool {
    !is_nan64(a) && !is_nan64(b) && place64(a) >= place64(b)
}

/// `a > b` of 32-bit floats.
pub fn greater32(a: u32, b: u32) -> (yes: bool)
    ensures
        yes == above32(a, b),
{
    if a % 0x8000_0000 > 0x7F80_0000 || b % 0x8000_0000 > 0x7F80_0000 {
        return false;
    }
    if a < 0x8000_0000 {
        if b < 0x8000_0000 {
            a > b
        } else {
            a > 0 || b > 0x8000_0000
        }
    } else if b < 0x8000_0000 {
        false
    } else {
        a < b
    }
}

/// `a > b` of 64-bit floats.
pub fn greater64(a: u64, b: u64) -> (yes: bool)
    ensures
        yes == above64(a, b),
{
    if a % 0x8000_0000_0000_0000 > 0x7FF0_0000_0000_0000 || b % 0x8000_0000_0000_0000
        > 0x7FF0_0000_0000_0000 {
        return false;
    }
    if a < 0x8000_0000_0000_0000 {
        if b < 0x8000_0000_0000_0000 {
            a > b
        } else {
            a > 0 || b > 0x8000_0000_0000_0000
        }
    } else if b < 0x8000_0000_0000_0000 {
        false
    } else {
        a < b
    }
}

/// `a >= b` of 64-bit floats.
pub fn not_less64(a: u64, b: u64) -> (yes: bool)
    ensures
        yes == at_least64(a, b),
{
    if a % 0x8000_0000_0000_0000 > 0x7FF0_0000_0000_0000 || b % 0x8000_0000_0000_0000
        > 0x7FF0_0000_0000_0000 {
        return false;
    }
    !greater64(b, a)
}

/// The greater of two 32-bit floats; of one that is no number, the other.
pub open spec fn max32(a: u32, b: u32) -> u32 {
    if is_nan32(a) {
        b
    } else if is_nan32(b) {
        a
    } else if place32(b) > place32(a) {
        b
    } else {
        a
    }
}

/// The greater of two 32-bit floats.
pub fn greater_of(a: u32, b: u32) -> (m: u32)
    ensures
        m == max32(a, b),
{
    if a % 0x8000_0000 > 0x7F80_0000 || greater32(b, a) {
        b
    } else {
        a
    }
}

/// Which of the first `n` values a search that replaces its best by greater values ends with.
pub open spec fn best_among(values: Seq<u32>, n: int) -> int
    decreases n,
{
    if n <= 1 {
        0
    } else {
        let k = best_among(values, n - 1);
        if above32(values[n - 1], values[k]) {
            n - 1
        } else {
            k
        }
    }
}

pub proof fn lemma_pick_in_range(values: Seq<u32>, n: int)
    requires
        0 < n,
    ensures
        0 <= best_among(values, n) < n,
    decreases n,
{
    if n > 1 {
        lemma_pick_in_range(values, n - 1);
    }
}

/// The first of the greatest values; none if there are no values.
pub fn pick_best(values: &[u32]) -> (k: Option<usize>)
    ensures
        values@.len() == 0 ==> k is None,
        values@.len() > 0 ==> (k matches Some(i) && i == best_among(
            values@,
            values@.len() as int,
        ) && i < values@.len()),
{
    if values.len() == 0 {
        return None;
    }
    let mut best: usize = 0;
    let mut n: usize = 1;
    while n < values.len()
        invariant
            1 <= n <= values@.len(),
            best < n,
            best == best_among(values@, n as int),
        decreases values@.len() - n,
    {
        if greater32(values[n], values[best]) {
            best = n;
        }
        n += 1;
    }
    Some(best)
}

/// Among numbers, the pick is a greatest one, and the first such.
pub proof fn the_pick_is_the_first_maximum(values: Seq<u32>, n: int)
    requires
        0 < n <= values.len(),
        forall|i: int| 0 <= i < n ==> !is_nan32(#[trigger] values[i]),
    ensures
        0 <= best_among(values, n) < n,
        forall|i: int|
            0 <= i < n ==> place32(#[trigger] values[i]) <= place32(values[best_among(values, n)]),
        forall|i: int|
            0 <= i < best_among(values, n) ==> place32(#[trigger] values[i]) < place32(
                values[best_among(values, n)],
            ),
    decreases n,
{
    if n > 1 {
        the_pick_is_the_first_maximum(values, n - 1);
    }
}

/// A pattern is no number exactly if its exponent is full and its fraction is not empty.
pub proof fn numbers_have_no_full_exponent(x: u32, y: u64)
    ensures
        is_nan32(x) <==> (x / 0x80_0000) % 0x100 == 0xFF && x % 0x80_0000 != 0,
        is_nan64(y) <==> (y / 0x10_0000_0000_0000) % 0x800 == 0x7FF && y % 0x10_0000_0000_0000 != 0,
{
}

/// How numbers of 32 bits compare: positive ones as their patterns, negative ones the other way
/// round, any positive one above any negative one, and the two zeros as equals. What is no
/// number compares with nothing.
pub proof fn numbers_compare_by_sign_and_size(a: u32, b: u32)
    ensures
        is_nan32(a) || is_nan32(b) ==> !above32(a, b),
        !is_nan32(a) && !is_nan32(b) ==> {
            &&& a < 0x8000_0000 && b < 0x8000_0000 ==> (above32(a, b) <==> a > b)
            &&& a >= 0x8000_0000 && b >= 0x8000_0000 ==> (above32(a, b) <==> a < b)
            &&& a < 0x8000_0000 && b >= 0x8000_0000 ==> (above32(a, b) <==> a != 0 || b
                != 0x8000_0000)
            &&& a >= 0x8000_0000 && b < 0x8000_0000 ==> !above32(a, b)
            &&& above32(a, b) <==> place32(a) > place32(b)
        },
{
}

/// How numbers of 64 bits compare.
pub proof fn wide_numbers_compare_by_sign_and_size(a: u64, b: u64)
    ensures
        is_nan64(a) || is_nan64(b) ==> !above64(a, b) && !at_least64(a, b),
        !is_nan64(a) && !is_nan64(b) ==> {
            &&& a < 0x8000_0000_0000_0000 && b < 0x8000_0000_0000_0000 ==> (above64(a, b) <==> a
                > b)
            &&& a >= 0x8000_0000_0000_0000 && b >= 0x8000_0000_0000_0000 ==> (above64(a, b) <==> a
                < b)
            &&& a < 0x8000_0000_0000_0000 && b >= 0x8000_0000_0000_0000 ==> (above64(a, b) <==> a
                != 0 || b != 0x8000_0000_0000_0000)
            &&& a >= 0x8000_0000_0000_0000 && b < 0x8000_0000_0000_0000 ==> !above64(a, b)
            &&& at_least64(a, b) <==> !above64(b, a)
        },
{
}

/// The greater of two numbers is one of them, and neither is above it; beside what is no number
/// the other counts.
pub proof fn the_greater_number_is_not_below(a: u32, b: u32)
    ensures
        max32(a, b) == a || max32(a, b) == b,
        !above32(a, max32(a, b)),
        !above32(b, max32(a, b)),
        is_nan32(a) ==> max32(a, b) == b,
        is_nan32(b) && !is_nan32(a) ==> max32(a, b) == a,
{
}

}
