//! xorshift64*: a small random number generator, good enough for self-play.

use vstd::prelude::*;

verus! {

pub struct Rng(pub u64);

/// The state that follows `s`.
pub open spec fn advance(s: u64) -> u64 {
    let a = s ^ (s >> 12);
    let b = a ^ (a << 25);
    b ^ (b >> 27)
}

/// The number drawn in state `s`, after the state has advanced to it.
pub open spec fn drawn(s: u64) -> u64 {
    ((s * 0x2545_F491_4F6C_DD1D) % 0x1_0000_0000_0000_0000) as u64
}

/// A draw from `0..n` in state `s`: the high half of the number, scaled down to the range.
pub open spec fn drawn_below(s: u64, n: u32) -> u32 {
    (((drawn(s) / 0x1_0000_0000) * n) / 0x1_0000_0000) as u32
}

impl Rng {
    pub fn next(&mut self) -> (r: u64)
        ensures
            final(self).0 == advance(old(self).0),
            r == drawn(final(self).0),
    {
        self.0 = self.0 ^ (self.0 >> 12);
        self.0 = self.0 ^ (self.0 << 25);
        self.0 = self.0 ^ (self.0 >> 27);
        self.0.wrapping_mul(0x2545_F491_4F6C_DD1D)
    }

    /// A number below `n`, or 0 where `n` is 0.
    pub fn below(&mut self, n: u32) -> (r: u32)
        ensures
            final(self).0 == advance(old(self).0),
            r == drawn_below(final(self).0, n),
            n > 0 ==> r < n,
    {
        let hi: u64 = self.next() >> 32;
        let ghost s = self.0;
        proof {
            let d = drawn(s);
            assert(d >> 32 == d / 0x1_0000_0000) by (bit_vector);
            lemma_scaled(hi as int, n as int);
        }
        let wide: u64 = hi * (n as u64);
        assert(wide >> 32 == wide / 0x1_0000_0000) by (bit_vector);
        (wide >> 32) as u32
    }
}

pub proof fn lemma_scaled(hi: int, n: int)
    by (nonlinear_arith)
    requires
        0 <= hi < 0x1_0000_0000,
        0 <= n < 0x1_0000_0000,
    ensures
        0 <= hi * n <= 0xFFFF_FFFF * 0xFFFF_FFFF,
        n > 0 ==> (hi * n) / 0x1_0000_0000 < n,
{
}

/// The state never gets stuck at 0: only 0 is followed by 0.
pub proof fn advance_keeps_nonzero(s: u64)
    ensures
        advance(s) == 0 <==> s == 0,
{
    let a = s ^ (s >> 12);
    let b = a ^ (a << 25);
    assert((s ^ (s >> 12) == 0) <==> s == 0) by (bit_vector);
    assert((a ^ (a << 25) == 0) <==> a == 0) by (bit_vector);
    assert((b ^ (b >> 27) == 0) <==> b == 0) by (bit_vector);
}

/// A draw below `n` splits the high halves into `n` runs of nearly equal length: `k` is
/// drawn for those from `k / n` of the way up to `(k + 1) / n`.
pub proof fn drawn_below_is_even(s: u64, n: u32, k: u32)
    requires
        k < n,
    ensures
        drawn_below(s, n) == k <==> k * 0x1_0000_0000 <= (drawn(s) / 0x1_0000_0000) * n < (k + 1)
            * 0x1_0000_0000,
{
    let hi = (drawn(s) / 0x1_0000_0000) as int;
    lemma_scaled(hi, n as int);
}

}
