//! Concrete sources: finite-digit literals and purely-repeating
//! literals, both integer-aligned (scale zero).

use vstd::prelude::*;

use crate::model::{digit_of, scale_of, wf, Model};
use crate::padic::{PadicAccessor, PadicError, PadicNumber, Producer};

verus! {

/// The digits of a vector of raw digit values, as the model sees them.
pub open spec fn digits_seq(digits: Vec<u8>) -> Seq<nat> {
    digits@.map_values(|d: u8| d as nat)
}

/// A number with finitely many nonzero digits: `digits[i]` at index
/// `i` (least significant first), zero everywhere else.
pub struct FinitePadicInteger {
    pub p: u8,
    pub digits: Vec<u8>,
}

impl FinitePadicInteger {
    /// The zero literal of base `p`; the base must be positive.
    pub fn new(p: u8) -> (r: Result<FinitePadicInteger, PadicError>)
        ensures
            match r {
                Ok(f) => {
                    &&& p >= 1
                    &&& f.inv()
                    &&& f.model() == (Model::Finite { p: p as nat, digits: Seq::<nat>::empty() })
                },
                Err(e) => e == PadicError::TooSmallBase && p == 0,
            },
    {
        let empty: Vec<u8> = Vec::new();
        proof {
            assert(digits_seq(empty) =~= Seq::<nat>::empty());
        }
        Self::new_with_digits(p, empty)
    }

    /// A finite literal of base `p` with the given digits, least
    /// significant first; rejected when the base is zero or a digit
    /// does not fit the base.
    pub fn new_with_digits(p: u8, digits: Vec<u8>) -> (r: Result<
        FinitePadicInteger,
        PadicError,
    >)
        ensures
            match r {
                Ok(f) => {
                    &&& p >= 1
                    &&& forall|t: int| 0 <= t < digits@.len() ==> #[trigger] digits@[t] < p
                    &&& f.inv()
                    &&& f.model() == (Model::Finite { p: p as nat, digits: digits_seq(digits) })
                },
                Err(e) => {
                    ||| (e == PadicError::TooSmallBase && p == 0)
                    ||| (e == PadicError::DigitOutOfRange && exists|t: int|
                        0 <= t < digits@.len() && #[trigger] digits@[t] >= p)
                },
            },
    {
        if p == 0 {
            return Err(PadicError::TooSmallBase);
        }
        let mut idx: usize = 0;
        while idx < digits.len()
            invariant
                idx <= digits.len(),
                forall|t: int| 0 <= t < idx ==> #[trigger] digits@[t] < p,
            decreases digits.len() - idx,
        {
            if digits[idx] >= p {
                return Err(PadicError::DigitOutOfRange);
            }
            idx = idx + 1;
        }
        Ok(FinitePadicInteger { p, digits })
    }
}

impl PadicAccessor for FinitePadicInteger {
    open spec fn model(&self) -> Model {
        Model::Finite { p: self.p as nat, digits: digits_seq(self.digits) }
    }

    open spec fn inv(&self) -> bool {
        wf(self.model())
    }

    fn get_digit(&mut self, index: i64) -> (d: u8) {
        if index < 0 {
            return 0;
        }
        if index as u64 >= self.digits.len() as u64 {
            0
        } else {
            self.digits[index as usize]
        }
    }

    fn get_scale(&self) -> (s: i64) {
        0
    }

    fn to_dyn(self) -> (n: PadicNumber) {
        PadicNumber { producer: Producer::Finite(self) }
    }
}

/// A purely repeating number: digit `i >= 0` is
/// `repeating_digits[i mod cycle length]`, zero below zero.
pub struct RepeatingPadicInteger {
    pub p: u8,
    pub repeating_digits: Vec<u8>,
}

impl RepeatingPadicInteger {
    /// A repeating literal of base `p` with the given nonempty cycle,
    /// least significant first; rejected when the base is zero or a
    /// digit does not fit the base.
    pub fn new_with_digits(p: u8, repeating_digits: Vec<u8>) -> (r: Result<
        RepeatingPadicInteger,
        PadicError,
    >)
        requires
            repeating_digits@.len() >= 1,
        ensures
            match r {
                Ok(f) => {
                    &&& p >= 1
                    &&& forall|t: int|
                        0 <= t < repeating_digits@.len() ==> #[trigger] repeating_digits@[t] < p
                    &&& f.inv()
                    &&& f.model() == (Model::Repeating {
                        p: p as nat,
                        cycle: digits_seq(repeating_digits),
                    })
                },
                Err(e) => {
                    ||| (e == PadicError::TooSmallBase && p == 0)
                    ||| (e == PadicError::DigitOutOfRange && exists|t: int|
                        0 <= t < repeating_digits@.len() && #[trigger] repeating_digits@[t] >= p)
                },
            },
    {
        if p == 0 {
            return Err(PadicError::TooSmallBase);
        }
        let mut idx: usize = 0;
        while idx < repeating_digits.len()
            invariant
                idx <= repeating_digits.len(),
                forall|t: int| 0 <= t < idx ==> #[trigger] repeating_digits@[t] < p,
            decreases repeating_digits.len() - idx,
        {
            if repeating_digits[idx] >= p {
                return Err(PadicError::DigitOutOfRange);
            }
            idx = idx + 1;
        }
        Ok(RepeatingPadicInteger { p, repeating_digits })
    }
}

impl PadicAccessor for RepeatingPadicInteger {
    open spec fn model(&self) -> Model {
        Model::Repeating { p: self.p as nat, cycle: digits_seq(self.repeating_digits) }
    }

    open spec fn inv(&self) -> bool {
        wf(self.model())
    }

    fn get_digit(&mut self, index: i64) -> (d: u8) {
        if index < 0 {
            0
        } else {
            let len = self.repeating_digits.len();
            proof {
                assert(digits_seq(self.repeating_digits).len() == len);
            }
            let at = ((index as u64) % (len as u64)) as usize;
            proof {
                vstd::arithmetic::div_mod::lemma_mod_bound(index as int, len as int);
            }
            self.repeating_digits[at]
        }
    }

    fn get_scale(&self) -> (s: i64) {
        0
    }

    fn to_dyn(self) -> (n: PadicNumber) {
        PadicNumber { producer: Producer::Repeating(self) }
    }
}

} // verus!

verus! {

impl Clone for FinitePadicInteger {
    fn clone(&self) -> (r: Self)
        ensures
            r.model() == self.model(),
            r.inv() == self.inv(),
    {
        FinitePadicInteger { p: self.p, digits: crate::padic::clone_digits(&self.digits) }
    }
}

impl Clone for RepeatingPadicInteger {
    fn clone(&self) -> (r: Self)
        ensures
            r.model() == self.model(),
            r.inv() == self.inv(),
    {
        RepeatingPadicInteger {
            p: self.p,
            repeating_digits: crate::padic::clone_digits(&self.repeating_digits),
        }
    }
}

} // verus!
