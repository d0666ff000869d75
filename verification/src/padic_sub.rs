//! The subtractive combinator: a memoized stream whose digit at column
//! `j` is the base-p difference of the operands' aligned digits with the
//! borrow propagated from the columns below, plus the scale adapter that
//! aligns the operands and strips leading zero digits into the scale.

use vstd::prelude::*;

use crate::discrete::digit_sub_borrow;
use crate::model::{
    sub_adj_from, sub_borrow_at, sub_raw, base_of, digit_of, hi_allow, lemma_base_pos,
    lemma_digit_range, lemma_scale_bounded, min_int, scale_of, wf, Model, NORM_CAP, SCALE_BOUND,
};
use crate::padic::{
    n_inv, n_model, PadicAccessor, PadicError, PadicIntegerAccessor, PadicNumber,
    PadicNumberScaler, Producer,
};

verus! {

/// Borrows in the difference recursion are zero or one.
proof fn lemma_borrow_bit(l: Model, r: Model, j: nat)
    ensures
        sub_borrow_at(l, r, j) <= 1,
{
    if j == 0 {
    } else {
    }
}

/// In base one every digit is zero, so the difference recursion never
/// borrows.
proof fn lemma_sub_borrow_unit_base(l: Model, r: Model, j: nat)
    requires
        wf(l),
        wf(r),
        base_of(l) == 1,
        base_of(r) == 1,
    ensures
        sub_borrow_at(l, r, j) == 0,
    decreases j,
{
    if j > 0 {
        let alpha = min_int(scale_of(l), scale_of(r));
        lemma_sub_borrow_unit_base(l, r, (j - 1) as nat);
        lemma_digit_range(l, alpha + j - 1);
        lemma_digit_range(r, alpha + j - 1);
    }
}

/// The inner memoized difference of two aligned operands: a growing
/// cache of computed digits and the single trailing borrow flag.
pub struct SubtractionPadicInteger {
    pub lhs: PadicNumberScaler,
    pub rhs: PadicNumberScaler,
    pub p: u8,
    pub cache: Vec<u8>,
    pub flag: bool,
}

impl SubtractionPadicInteger {
    pub open spec fn lmodel(&self) -> Model {
        n_model(*self.lhs.inner)
    }

    pub open spec fn rmodel(&self) -> Model {
        n_model(*self.rhs.inner)
    }

    pub open spec fn iinv_spec(&self) -> bool
        decreases self,
    {
        let l = self.lmodel();
        let r = self.rmodel();
        &&& self.lhs.iinv_spec()
        &&& self.rhs.iinv_spec()
        &&& self.lhs.scale as int == min_int(scale_of(l), scale_of(r))
        &&& self.rhs.scale == self.lhs.scale
        &&& base_of(l) == base_of(r)
        &&& self.p as nat == base_of(l)
        &&& forall|t: int|
            0 <= t < self.cache@.len() ==> (#[trigger] self.cache@[t]) as nat == sub_raw(
                l,
                r,
                t as nat,
            )
        &&& (self.flag <==> sub_borrow_at(l, r, self.cache@.len() as nat) == 1)
    }

    /// The combinator over two views already aligned at the common
    /// scale, with an empty cache.
    pub fn new(lhs: PadicNumberScaler, rhs: PadicNumberScaler, p: u8) -> (r:
        SubtractionPadicInteger)
        requires
            lhs.iinv(),
            rhs.iinv(),
            lhs.scale as int == min_int(scale_of(n_model(*lhs.inner)), scale_of(n_model(*rhs.inner))),
            rhs.scale == lhs.scale,
            base_of(n_model(*lhs.inner)) == base_of(n_model(*rhs.inner)),
            p as nat == base_of(n_model(*lhs.inner)),
        ensures
            r.iinv(),
            r.lmodel() == n_model(*lhs.inner),
            r.rmodel() == n_model(*rhs.inner),
            r.cache@.len() == 0,
    {
        SubtractionPadicInteger { lhs, rhs, p, cache: Vec::new(), flag: false }
    }
}

impl View for SubtractionPadicInteger {
    type V = (Model, Model);

    open spec fn view(&self) -> (Model, Model) {
        (self.lmodel(), self.rmodel())
    }
}

impl PadicIntegerAccessor for SubtractionPadicInteger {
    open spec fn iinv(&self) -> bool {
        self.iinv_spec()
    }

    open spec fn idigit(&self, j: int) -> nat {
        sub_raw(self.lmodel(), self.rmodel(), j as nat)
    }

    open spec fn iallow(&self) -> int {
        min_int(
            hi_allow(self.lmodel()) - self.lhs.scale,
            hi_allow(self.rmodel()) - self.rhs.scale,
        )
    }

    fn get_integer_digit(&mut self, index: i64) -> (d: u8)
        decreases
            crate::model::max_nat(
                crate::model::ddepth(old(self).lmodel()),
                crate::model::ddepth(old(self).rmodel()),
            ),
            crate::model::msize(old(self).lmodel()) + crate::model::msize(old(self).rmodel()),
            0int,
            5int,
    {
        let ghost l = self.lmodel();
        let ghost r = self.rmodel();
        let ghost p_spec = base_of(l) as int;
        proof {
            crate::padic::lemma_n_inv_wf(*self.lhs.inner);
            crate::padic::lemma_n_inv_wf(*self.rhs.inner);
            lemma_base_pos(l);
            crate::model::lemma_msize_pos(l);
            crate::model::lemma_msize_pos(r);
        }
        while (self.cache.len() as u64) <= (index as u64)
            invariant
                self.iinv(),
                self@ == (l, r),
                old(self)@ == (l, r),
                self.lhs.scale == old(self).lhs.scale,
                self.rhs.scale == old(self).rhs.scale,
                self.p == old(self).p,
                wf(l),
                wf(r),
                p_spec == base_of(l) as int,
                0 <= index,
                index <= min_int(hi_allow(l) - self.lhs.scale, hi_allow(r) - self.rhs.scale),
            decreases index as int + 1 - self.cache@.len(),
        {
            proof {
                crate::model::lemma_msize_pos(l);
                crate::model::lemma_msize_pos(r);
            }
            let j = self.cache.len();
            let ghost jn = j as nat;
            let a = self.lhs.get_integer_digit(j as i64);
            let b = self.rhs.get_integer_digit(j as i64);
            proof {
                lemma_digit_range(l, j as i64 + self.lhs.scale);
                lemma_digit_range(r, j as i64 + self.rhs.scale);
                lemma_borrow_bit(l, r, jn);
                if self.p == 1 {
                    lemma_sub_borrow_unit_base(l, r, jn);
                }
            }
            let f01: u8 = if self.flag {
                1
            } else {
                0
            };
            let (s1, c1) = digit_sub_borrow(self.p, a, b);
            let (s2, c2) = digit_sub_borrow(self.p, s1, f01);
            proof {
                let av = a as int;
                let bv = b as int;
                let fv = f01 as int;
                if !c1 {
                    vstd::arithmetic::div_mod::lemma_small_mod((a - b) as nat, self.p as nat);
                }
                vstd::arithmetic::div_mod::lemma_sub_mod_noop(av - bv, fv, p_spec);
                vstd::arithmetic::div_mod::lemma_small_mod(fv as nat, p_spec as nat);
                assert(s2 as int == (av - bv - fv) % p_spec);
                assert(sub_raw(l, r, jn) == ((digit_of(l, self.lhs.scale + jn) - digit_of(
                    r,
                    self.lhs.scale + jn,
                ) - sub_borrow_at(l, r, jn)) % p_spec) as nat);
                assert(s2 as nat == sub_raw(l, r, jn));
                assert(sub_borrow_at(l, r, jn + 1) == 1 <==> av < bv + fv);
                assert((c1 || c2) <==> av < bv + fv);
            }
            self.cache.push(s2);
            self.flag = c1 || c2;
            proof {
                assert(self.cache@.len() == jn + 1);
                assert forall|t: int| 0 <= t < self.cache@.len() implies (#[trigger] self
                    .cache@[t]) as nat == sub_raw(l, r, t as nat) by {
                    if t < jn {
                    } else {
                    }
                }
            }
        }
        let d = self.cache[index as usize];
        proof {
            assert(d as nat == sub_raw(l, r, index as nat));
        }
        d
    }
}

/// The public subtractive producer: the aligned difference, re-scaled by
/// the count of leading zero digits found at construction (capped).
pub struct SubtractivePadicIntegerScaler {
    pub inner: SubtractionPadicInteger,
    pub scale: i64,
    pub adj: u64,
}

impl SubtractivePadicIntegerScaler {
    pub open spec fn inv_spec(&self) -> bool
        decreases self,
    {
        let l = self.inner.lmodel();
        let r = self.inner.rmodel();
        &&& self.inner.iinv_spec()
        &&& self.scale as int == min_int(scale_of(l), scale_of(r))
        &&& self.adj <= NORM_CAP
        &&& forall|n: nat| n < self.adj ==> #[trigger] sub_raw(l, r, n) == 0
        &&& -SCALE_BOUND <= self.scale
        &&& self.scale + self.adj <= SCALE_BOUND
    }

    /// Builds the difference of two numbers: aligns both at the smaller
    /// scale, checks that the bases agree, and scans for leading zeros.
    pub fn new(lhs: PadicNumber, rhs: PadicNumber) -> (r: Result<
        SubtractivePadicIntegerScaler,
        PadicError,
    >)
        requires
            n_inv(lhs),
            n_inv(rhs),
            min_int(hi_allow(n_model(lhs)), hi_allow(n_model(rhs))) >= min_int(
                scale_of(n_model(lhs)),
                scale_of(n_model(rhs)),
            ) + NORM_CAP,
            min_int(scale_of(n_model(lhs)), scale_of(n_model(rhs))) + NORM_CAP <= SCALE_BOUND
                as int,
        ensures
            match r {
                Ok(a) => {
                    &&& base_of(n_model(lhs)) == base_of(n_model(rhs))
                    &&& a.inv()
                    &&& a.model() == (Model::Sub {
                        lhs: Box::new(n_model(lhs)),
                        rhs: Box::new(n_model(rhs)),
                        adj: sub_adj_from(n_model(lhs), n_model(rhs), 0),
                    })
                },
                Err(e) => {
                    &&& e == PadicError::MismatchedBase
                    &&& base_of(n_model(lhs)) != base_of(n_model(rhs))
                },
            },
        decreases
            crate::model::max_nat(
                crate::model::ddepth(n_model(lhs)),
                crate::model::ddepth(n_model(rhs)),
            ),
            crate::model::msize(n_model(lhs)) + crate::model::msize(n_model(rhs)),
            0int,
            7int,
    {
        proof {
            crate::model::lemma_msize_pos(n_model(lhs));
            crate::model::lemma_msize_pos(n_model(rhs));
        }
        let ghost lm = n_model(lhs);
        let ghost rm = n_model(rhs);
        let p = lhs.get_base();
        if p != rhs.get_base() {
            return Err(PadicError::MismatchedBase);
        }
        proof {
            crate::padic::lemma_n_inv_wf(lhs);
            crate::padic::lemma_n_inv_wf(rhs);
            lemma_scale_bounded(lm);
            lemma_scale_bounded(rm);
        }
        let sl = lhs.get_scale();
        let sr = rhs.get_scale();
        let s = if sl <= sr {
            sl
        } else {
            sr
        };
        let left = PadicNumberScaler::new(lhs, s);
        let right = PadicNumberScaler::new(rhs, s);
        let mut inner = SubtractionPadicInteger::new(left, right, p);
        let mut adj: u64 = 0;
        let mut stopped = false;
        while adj < NORM_CAP && !stopped
            invariant
                inner.iinv(),
                inner@ == (lm, rm),
                lm == n_model(lhs),
                rm == n_model(rhs),
                inner.lhs.scale as int == min_int(scale_of(lm), scale_of(rm)),
                inner.rhs.scale == inner.lhs.scale,
                min_int(hi_allow(lm), hi_allow(rm)) >= min_int(scale_of(lm), scale_of(rm))
                    + NORM_CAP,
                adj <= NORM_CAP,
                forall|t: nat| t < adj ==> #[trigger] sub_raw(lm, rm, t) == 0,
                sub_adj_from(lm, rm, 0) == sub_adj_from(lm, rm, adj as nat),
                stopped ==> adj < NORM_CAP && sub_raw(lm, rm, adj as nat) != 0,
            decreases NORM_CAP - adj + (if stopped { 0int } else { 1int }),
        {
            let d = inner.get_integer_digit(adj as i64);
            if d != 0 {
                stopped = true;
            } else {
                adj = adj + 1;
            }
        }
        proof {
            if stopped {
                assert(sub_adj_from(lm, rm, adj as nat) == adj as nat);
            } else {
                assert(adj == NORM_CAP);
                assert(sub_adj_from(lm, rm, adj as nat) == NORM_CAP as nat);
            }
        }
        Ok(SubtractivePadicIntegerScaler { inner, scale: s, adj })
    }
}

impl PadicAccessor for SubtractivePadicIntegerScaler {
    open spec fn model(&self) -> Model {
        Model::Sub {
            lhs: Box::new(self.inner.lmodel()),
            rhs: Box::new(self.inner.rmodel()),
            adj: self.adj as nat,
        }
    }

    open spec fn inv(&self) -> bool {
        self.inv_spec()
    }

    fn get_digit(&mut self, index: i64) -> (d: u8)
        decreases
            crate::model::ddepth(old(self).model()),
            crate::model::msize(old(self).model()),
            0int,
            2int,
    {
        let ghost l = self.inner.lmodel();
        let ghost r = self.inner.rmodel();
        proof {
            crate::model::lemma_hi_allow_le(self.model());
        }
        let adjusted = index - self.scale;
        if adjusted < self.adj as i64 {
            proof {
                if adjusted >= 0 {
                    assert(sub_raw(l, r, adjusted as nat) == 0);
                    assert(digit_of(self.model(), index as int) == sub_raw(l, r, adjusted as nat));
                } else {
                    assert(digit_of(self.model(), index as int) == 0);
                }
            }
            0
        } else {
            let d = self.inner.get_integer_digit(adjusted);
            proof {
                assert(digit_of(self.model(), index as int) == sub_raw(l, r, adjusted as nat));
            }
            d
        }
    }

    fn get_scale(&self) -> (s: i64) {
        self.scale + self.adj as i64
    }

    fn to_dyn(self) -> (n: PadicNumber) {
        PadicNumber { producer: Producer::Sub(self) }
    }
}

impl PadicNumber {
    /// The difference of two numbers, or `MismatchedBase` when their
    /// bases differ.
    pub fn sub(self, rhs: PadicNumber) -> (r: Result<PadicNumber, PadicError>)
        requires
            self.inv(),
            rhs.inv(),
            min_int(hi_allow(self@), hi_allow(rhs@)) >= min_int(scale_of(self@), scale_of(rhs@))
                + NORM_CAP,
            min_int(scale_of(self@), scale_of(rhs@)) + NORM_CAP <= SCALE_BOUND as int,
        ensures
            match r {
                Ok(n) => {
                    &&& base_of(self@) == base_of(rhs@)
                    &&& n.inv()
                    &&& n@ == (Model::Sub {
                        lhs: Box::new(self@),
                        rhs: Box::new(rhs@),
                        adj: sub_adj_from(self@, rhs@, 0),
                    })
                },
                Err(e) => {
                    &&& e == PadicError::MismatchedBase
                    &&& base_of(self@) != base_of(rhs@)
                },
            },
        decreases
            crate::model::max_nat(crate::model::ddepth(self@), crate::model::ddepth(rhs@)),
            crate::model::msize(self@) + crate::model::msize(rhs@),
            0int,
            8int,
    {
        match SubtractivePadicIntegerScaler::new(self, rhs) {
            Ok(a) => Ok(a.to_dyn()),
            Err(e) => Err(e),
        }
    }
}

} // verus!

verus! {

impl Clone for SubtractionPadicInteger {
    fn clone(&self) -> (r: Self)
        ensures
            r@ == self@,
            r.iinv_spec() == self.iinv_spec(),
        decreases *self,
            6int,
    {
        SubtractionPadicInteger {
            lhs: self.lhs.clone(),
            rhs: self.rhs.clone(),
            p: self.p,
            cache: crate::padic::clone_digits(&self.cache),
            flag: self.flag,
        }
    }
}

impl Clone for SubtractivePadicIntegerScaler {
    fn clone(&self) -> (r: Self)
        ensures
            r.model() == self.model(),
            r.inv() == self.inv(),
        decreases *self,
            2int,
    {
        SubtractivePadicIntegerScaler { inner: self.inner.clone(), scale: self.scale, adj: self.adj }
    }
}

} // verus!
