//! What an error does to a weight. The caller brings the arithmetic of 32-bit floats, on bit
//! patterns.

use crate::floats;
use crate::floats::greater32;
use vstd::prelude::*;

verus! {

/// The bits of a 32-bit float without its sign.
pub open spec fn magnitude(x: u32) -> u32 {
    x % 0x8000_0000
}

/// The arithmetic that learning needs.
pub struct Rule<P, T, O> {
    /// The sum of two numbers.
    pub plus: P,
    /// The product of two numbers.
    pub times: T,
    /// A number divided by another.
    pub over: O,
}

impl<P, T, O> Rule<P, T, O> where
    P: Fn(u32, u32) -> u32,
    T: Fn(u32, u32) -> u32,
    O: Fn(u32, u32) -> u32,
 {
    /// The arithmetic works on all numbers.
    pub open spec fn total(self) -> bool {
        &&& forall|x: u32, y: u32| call_requires(self.plus, (x, y))
        &&& forall|x: u32, y: u32| call_requires(self.times, (x, y))
        &&& forall|x: u32, y: u32| call_requires(self.over, (x, y))
    }

    /// `step` is `full` times the part that a weight's errors, summed up with and without
    /// their signs, leave of it.
    pub open spec fn is_part(self, full: u32, errors: (u32, u32), step: u32) -> bool {
        exists|part: u32| #[trigger]
            call_ensures(self.over, (magnitude(errors.0), errors.1), part) && call_ensures(
                self.times,
                (full, part),
                step,
            )
    }

    /// A weight moves by `step` under the error `err`: by `alpha` times `err`, and with an
    /// accumulator that has seen errors by its part of that.
    pub open spec fn is_step(
        self,
        alpha: u32,
        err: u32,
        tc: Option<(u32, u32)>,
        step: u32,
    ) -> bool {
        exists|full: u32| #[trigger]
            call_ensures(self.times, (alpha, err), full) && match tc {
                Some(errors) => if floats::above32(errors.1, 0) {
                    self.is_part(full, errors, step)
                } else {
                    step == full
                },
                None => step == full,
            }
    }

    /// The accumulator `to` has taken in the error `err`.
    pub open spec fn is_counted(
        self,
        err: u32,
        from: Option<(u32, u32)>,
        to: Option<(u32, u32)>,
    ) -> bool {
        match from {
            Some(f) => to matches Some(t) && call_ensures(self.plus, (f.0, err), t.0)
                && call_ensures(self.plus, (f.1, magnitude(err)), t.1),
            None => to is None,
        }
    }

    /// What the error `err` makes of the weight `w` and its accumulator, if it has one.
    pub open spec fn is_learned(
        self,
        alpha: u32,
        err: u32,
        w: u32,
        tc: Option<(u32, u32)>,
        out: (u32, Option<(u32, u32)>),
    ) -> bool {
        &&& exists|step: u32| #[trigger]
            self.is_step(alpha, err, tc, step) && call_ensures(self.plus, (w, step), out.0)
        &&& self.is_counted(err, tc, out.1)
    }

    /// The weight `w` and its accumulator after the error `err`.
    pub fn learned(&self, alpha: u32, err: u32, w: u32, tc: Option<(u32, u32)>) -> (out: (
        u32,
        Option<(u32, u32)>,
    ))
        requires
            self.total(),
        ensures
            self.is_learned(alpha, err, w, tc, out),
    {
        let full: u32 = (self.times)(alpha, err);
        match tc {
            None => {
                assert(self.is_step(alpha, err, tc, full));
                ((self.plus)(w, full), None)
            },
            Some((e, a)) => {
                let mut step: u32 = full;
                if greater32(a, 0) {
                    let part: u32 = (self.over)(e % 0x8000_0000, a);
                    step = (self.times)(full, part);
                    assert(self.is_part(full, (e, a), step));
                }
                assert(self.is_step(alpha, err, tc, step));
                let sum: u32 = (self.plus)(e, err);
                let sizes: u32 = (self.plus)(a, err % 0x8000_0000);
                ((self.plus)(w, step), Some((sum, sizes)))
            },
        }
    }
}

}
