//! The division combinator: iterative long division producing one
//! quotient digit per remainder digit pulled. The divisor must live in
//! a prime base and show a nonzero digit within the scan bound; each
//! step multiplies the remainder's lowest live digit by the modular
//! inverse of the divisor's unit digit and, when that digit is nonzero,
//! replaces the remainder with the lazy difference built from the same
//! additive and multiplicative combinators the rest of the engine uses.

use vstd::prelude::*;

use crate::discrete::{digit_inverse, digit_mul_overflow, is_prime_u8};
use crate::model::{
    base_of, ddepth, digit_of, div_args_ok, hi_allow, lemma_base_pos, lemma_digit_range,
    lemma_hi_allow_le, lemma_scale_bounded, max_nat, min_int, msize, quot_digit, rem_model,
    rem_product, scale_of, spec_prime, sub_adj_from, sub_raw, wf, Model, DIV_MARGIN, IDX_BOUND,
    NORM_CAP, SCALE_BOUND, SCAN_BOUND,
};
use crate::padic::{
    n_inv, n_model, PadicAccessor, PadicError, PadicIntegerAccessor, PadicNumber,
    PadicIntegerToNumber, PadicNumberScaler, Producer,
};
use crate::padic_primitive::FinitePadicInteger;

verus! {

/// A quotient digit is a residue of the base.
pub proof fn lemma_quot_lt(l: Model, r: Model, k: nat, uinv: nat, m: nat)
    requires
        base_of(l) >= 1,
    ensures
        quot_digit(l, r, k, uinv, m) < base_of(l),
{
    let w = rem_model(l, r, k, uinv, m);
    if ddepth(w) <= max_nat(ddepth(l), ddepth(r)) {
        let rd = digit_of(w, m as int);
        if rd != 0 {
            vstd::arithmetic::div_mod::lemma_mod_bound((rd * uinv) as int, base_of(l) as int);
        }
    }
}

/// Shape facts about one step's subtracted stream.
pub proof fn lemma_rem_product_facts(l: Model, r: Model, k: nat, q: nat, m: nat)
    ensures
        ddepth(rem_product(l, r, k, q, m)) == ddepth(r),
        scale_of(rem_product(l, r, k, q, m)) == 0,
        base_of(rem_product(l, r, k, q, m)) == base_of(l),
        hi_allow(rem_product(l, r, k, q, m)) == min_int(
            IDX_BOUND as int,
            hi_allow(r) - scale_of(r) - k,
        ),
{
    let w = rem_product(l, r, k, q, m);
    let single = *w->Mul_lhs;
    let shifted = *w->Mul_rhs;
    assert(ddepth(single) == 0);
    assert(ddepth(shifted) == ddepth(r));
    assert(scale_of(single) == 0);
    assert(scale_of(shifted) == 0);
    assert(base_of(single) == base_of(l));
    assert(hi_allow(single) == IDX_BOUND as int);
    assert(hi_allow(shifted) == min_int(IDX_BOUND as int, hi_allow(r) + 0 - (scale_of(r) + k)));
    lemma_hi_allow_le(r);
}

/// One step's subtracted stream is well formed.
pub proof fn lemma_rem_product_wf(l: Model, r: Model, k: nat, q: nat, m: nat)
    requires
        wf(r),
        base_of(l) == base_of(r),
        base_of(l) >= 1,
        q < base_of(l),
        -SCALE_BOUND <= scale_of(r) <= SCALE_BOUND,
        k <= SCAN_BOUND,
    ensures
        wf(rem_product(l, r, k, q, m)),
{
    let w = rem_product(l, r, k, q, m);
    let single = *w->Mul_lhs;
    let shifted = *w->Mul_rhs;
    let digits = single->Finite_digits;
    assert(forall|t: int| 0 <= t < digits.len() ==> #[trigger] digits[t] < base_of(l));
    assert(wf(single));
    assert(wf(shifted));
    lemma_rem_product_facts(l, r, k, q, m);
    assert(scale_of(single) + scale_of(shifted) == 0);
    assert(wf(w));
}

/// The division nesting depth of the remainder chain never exceeds that
/// of the operands.
pub proof fn lemma_rem_ddepth(l: Model, r: Model, k: nat, uinv: nat, m: nat)
    ensures
        ddepth(rem_model(l, r, k, uinv, m)) <= max_nat(ddepth(l), ddepth(r)),
    decreases m,
{
    if m > 0 {
        lemma_rem_ddepth(l, r, k, uinv, (m - 1) as nat);
        let prev = rem_model(l, r, k, uinv, (m - 1) as nat);
        let q = quot_digit(l, r, k, uinv, (m - 1) as nat);
        if q != 0 && ddepth(prev) <= max_nat(ddepth(l), ddepth(r)) {
            lemma_rem_product_facts(l, r, k, q, m);
        }
    }
}

/// The remainder chain's scale stays within the normalization cap.
pub proof fn lemma_rem_scale(l: Model, r: Model, k: nat, uinv: nat, m: nat)
    ensures
        0 <= scale_of(rem_model(l, r, k, uinv, m)) <= NORM_CAP as int,
    decreases m,
{
    if m > 0 {
        lemma_rem_ddepth(l, r, k, uinv, (m - 1) as nat);
        lemma_rem_scale(l, r, k, uinv, (m - 1) as nat);
        let prev = rem_model(l, r, k, uinv, (m - 1) as nat);
        let q = quot_digit(l, r, k, uinv, (m - 1) as nat);
        if q != 0 && ddepth(prev) <= max_nat(ddepth(l), ddepth(r)) {
            let product = rem_product(l, r, k, q, m);
            lemma_rem_product_facts(l, r, k, q, m);
            let w = rem_model(l, r, k, uinv, m);
            assert(w is Sub);
            assert(scale_of(w) == min_int(scale_of(prev), 0) + w->Sub_adj);
            assert(w->Sub_adj <= NORM_CAP) by {
                lemma_sub_adj_props(prev, product, 0);
            }
        }
    }
}

/// The normalization scan result is capped and counts actual leading
/// zeros.
pub proof fn lemma_sub_adj_props(l: Model, r: Model, n: nat)
    requires
        n <= NORM_CAP,
    ensures
        n <= sub_adj_from(l, r, n) <= NORM_CAP,
        forall|t: nat|
            n <= t < sub_adj_from(l, r, n) ==> #[trigger] sub_raw(l, r, t) == 0,
    decreases (NORM_CAP - n) as int,
{
    if n < NORM_CAP && sub_raw(l, r, n) == 0 {
        lemma_sub_adj_props(l, r, n + 1);
    }
}

/// The remainder chain admits queries at least as far as both operands,
/// less their alignment offsets.
pub proof fn lemma_rem_hi_allow(l: Model, r: Model, k: nat, uinv: nat, m: nat)
    requires
        -SCALE_BOUND <= scale_of(l) <= SCALE_BOUND,
        -SCALE_BOUND <= scale_of(r) <= SCALE_BOUND,
        k <= SCAN_BOUND,
    ensures
        hi_allow(rem_model(l, r, k, uinv, m)) >= min_int(
            IDX_BOUND as int,
            min_int(
                hi_allow(l) - SCALE_BOUND,
                hi_allow(r) - SCALE_BOUND - SCAN_BOUND,
            ),
        ),
    decreases m,
{
    lemma_hi_allow_le(l);
    lemma_hi_allow_le(r);
    if m > 0 {
        lemma_rem_hi_allow(l, r, k, uinv, (m - 1) as nat);
        lemma_rem_ddepth(l, r, k, uinv, (m - 1) as nat);
        let prev = rem_model(l, r, k, uinv, (m - 1) as nat);
        let q = quot_digit(l, r, k, uinv, (m - 1) as nat);
        if q != 0 && ddepth(prev) <= max_nat(ddepth(l), ddepth(r)) {
            lemma_rem_product_facts(l, r, k, q, m);
        }
    }
}

/// The remainder chain is well formed.
pub proof fn lemma_rem_wf(l: Model, r: Model, k: nat, uinv: nat, m: nat)
    requires
        wf(l),
        wf(r),
        base_of(l) == base_of(r),
        -SCALE_BOUND <= scale_of(l) <= SCALE_BOUND,
        -SCALE_BOUND <= scale_of(r) <= SCALE_BOUND,
        k <= SCAN_BOUND,
    ensures
        wf(rem_model(l, r, k, uinv, m)),
        base_of(rem_model(l, r, k, uinv, m)) == base_of(l),
    decreases m,
{
    lemma_base_pos(l);
    if m > 0 {
        lemma_rem_wf(l, r, k, uinv, (m - 1) as nat);
        lemma_rem_ddepth(l, r, k, uinv, (m - 1) as nat);
        lemma_rem_scale(l, r, k, uinv, (m - 1) as nat);
        let prev = rem_model(l, r, k, uinv, (m - 1) as nat);
        let q = quot_digit(l, r, k, uinv, (m - 1) as nat);
        if q != 0 && ddepth(prev) <= max_nat(ddepth(l), ddepth(r)) {
            let w = rem_model(l, r, k, uinv, m);
            let product = rem_product(l, r, k, q, m);
            lemma_quot_lt(l, r, k, uinv, (m - 1) as nat);
            lemma_rem_product_wf(l, r, k, q, m);
            lemma_rem_product_facts(l, r, k, q, m);
            lemma_rem_scale(l, r, k, uinv, (m - 1) as nat);
            lemma_sub_adj_props(prev, product, 0);
            assert(w == (Model::Sub {
                lhs: Box::new(prev),
                rhs: Box::new(product),
                adj: sub_adj_from(prev, product, 0),
            }));
            assert(wf(w));
        }
    }
}

/// The inner long-division producer: the divisor's aligned view, the
/// dividend itself (anchoring the mathematical quotient), the
/// valuation `scale_adjustment` and inverted unit digit found at
/// construction, the cached quotient digits, and the current remainder
/// stream with its read offset.
pub struct DivisionPadicInteger {
    pub lhs: Box<PadicNumber>,
    pub rhs: PadicNumberScaler,
    pub p: u8,
    pub scale_adjustment: u64,
    pub uinv: u8,
    pub cache: Vec<u8>,
    pub remaining: Box<PadicNumber>,
    pub remaining_offset: u64,
}

impl DivisionPadicInteger {
    pub open spec fn lmodel(&self) -> Model {
        n_model(*self.lhs)
    }

    pub open spec fn rmodel(&self) -> Model {
        n_model(*self.rhs.inner)
    }

    pub open spec fn dmodel(&self) -> Model {
        Model::Div {
            lhs: Box::new(self.lmodel()),
            rhs: Box::new(self.rmodel()),
            k: self.scale_adjustment as nat,
            uinv: self.uinv as nat,
        }
    }

    pub open spec fn inv_spec(&self) -> bool
        decreases self,
    {
        let l = self.lmodel();
        let r = self.rmodel();
        let k = self.scale_adjustment as nat;
        let p = base_of(l);
        &&& n_inv(*self.lhs)
        &&& self.rhs.iinv_spec()
        &&& self.rhs.scale as int == scale_of(r)
        &&& base_of(l) == base_of(r)
        &&& self.p as nat == p
        &&& spec_prime(p as int)
        &&& self.scale_adjustment <= SCAN_BOUND
        &&& forall|j: nat| j < k ==> #[trigger] digit_of(r, scale_of(r) + j) == 0
        &&& digit_of(r, scale_of(r) + k) != 0
        &&& self.uinv < self.p
        &&& (digit_of(r, scale_of(r) + k) * self.uinv as nat) % p == 1
        &&& -SCALE_BOUND <= scale_of(l) - scale_of(r) - k <= SCALE_BOUND as int
        &&& hi_allow(l) >= 4 * SCALE_BOUND
        &&& hi_allow(r) >= 4 * SCALE_BOUND
        &&& forall|t: int|
            0 <= t < self.cache@.len() ==> (#[trigger] self.cache@[t]) as nat == quot_digit(
                l,
                r,
                k,
                self.uinv as nat,
                t as nat,
            )
        &&& self.remaining_offset == self.cache@.len()
        &&& n_inv(*self.remaining)
        &&& n_model(*self.remaining) == rem_model(l, r, k, self.uinv as nat, self.cache@.len()
            as nat)
    }

    /// Builds the long-division state for `lhs / rhs`: checks the
    /// bases, requires a prime base, scans the divisor for its first
    /// nonzero aligned digit, and inverts it.
    pub fn new(lhs: PadicNumber, rhs: PadicNumber) -> (r: Result<
        DivisionPadicInteger,
        PadicError,
    >)
        requires
            n_inv(lhs),
            n_inv(rhs),
            div_args_ok(n_model(lhs), n_model(rhs)),
        ensures
            match r {
                Ok(d) => {
                    &&& base_of(n_model(lhs)) == base_of(n_model(rhs))
                    &&& spec_prime(base_of(n_model(lhs)) as int)
                    &&& d.inv_spec()
                    &&& d.lmodel() == n_model(lhs)
                    &&& d.rmodel() == n_model(rhs)
                    &&& forall|j: nat|
                        j < d.scale_adjustment as nat ==> #[trigger] digit_of(
                            n_model(rhs),
                            scale_of(n_model(rhs)) + j,
                        ) == 0
                    &&& digit_of(
                        n_model(rhs),
                        scale_of(n_model(rhs)) + d.scale_adjustment as nat,
                    ) != 0
                },
                Err(e) => {
                    ||| (e == PadicError::MismatchedBase && base_of(n_model(lhs)) != base_of(
                        n_model(rhs),
                    ))
                    ||| (e == PadicError::NotInvertible && base_of(n_model(lhs)) == base_of(
                        n_model(rhs),
                    ) && !spec_prime(base_of(n_model(lhs)) as int))
                    ||| (e == PadicError::DivisionByZero && base_of(n_model(lhs)) == base_of(
                        n_model(rhs),
                    ) && spec_prime(base_of(n_model(lhs)) as int) && forall|j: nat|
                        j <= SCAN_BOUND ==> #[trigger] digit_of(
                            n_model(rhs),
                            scale_of(n_model(rhs)) + j,
                        ) == 0)
                },
            },
        decreases
            max_nat(ddepth(n_model(lhs)), ddepth(n_model(rhs))),
            msize(n_model(lhs)) + msize(n_model(rhs)),
            0int,
            7int,
    {
        proof {
            crate::model::lemma_msize_pos(n_model(lhs));
            crate::model::lemma_msize_pos(n_model(rhs));
        }
        let ghost lm = n_model(lhs);
        let ghost rm = n_model(rhs);
        let p = lhs.get_base();
        if p != rhs.get_base() {
            return Err(PadicError::MismatchedBase);
        }
        if !is_prime_u8(p) {
            return Err(PadicError::NotInvertible);
        }
        proof {
            crate::padic::lemma_n_inv_wf(lhs);
            crate::padic::lemma_n_inv_wf(rhs);
            lemma_scale_bounded(lm);
            lemma_scale_bounded(rm);
            lemma_hi_allow_le(lm);
            lemma_hi_allow_le(rm);
        }
        let sl = lhs.get_scale();
        let sr = rhs.get_scale();
        let mut rscaler = PadicNumberScaler::new(rhs, sr);
        let mut k: u64 = 0;
        let mut unit: u8 = 0;
        let mut found = false;
        while k <= SCAN_BOUND && !found
            invariant
                rscaler.iinv_spec(),
                rscaler@ == (rm, scale_of(rm)),
                rscaler.scale as int == scale_of(rm),
                k <= SCAN_BOUND + 1,
                hi_allow(rm) >= 4 * SCALE_BOUND,
                -SCALE_BOUND <= scale_of(rm) <= SCALE_BOUND,
                forall|j: nat| j < k as nat ==> #[trigger] digit_of(rm, scale_of(rm) + j) == 0,
                found ==> k <= SCAN_BOUND && unit as nat == digit_of(rm, scale_of(rm) + k as nat)
                    && unit != 0,
            decreases SCAN_BOUND + 1 - k + (if found { 0int } else { 1int }),
        {
            let d = rscaler.get_integer_digit(k as i64);
            if d != 0 {
                unit = d;
                found = true;
            } else {
                k = k + 1;
            }
        }
        if !found {
            return Err(PadicError::DivisionByZero);
        }
        proof {
            lemma_digit_range(rm, scale_of(rm) + k as nat);
        }
        let uinv = match digit_inverse(p, unit) {
            Some(x) => x,
            None => {
                proof {
                    crate::discrete::lemma_inverse_exists(p as int, unit as int);
                    assert(false);
                }
                return Err(PadicError::NotInvertible);
            },
        };
        let lhs_anchor = lhs.clone();
        let lscaler = PadicNumberScaler::new(lhs, sl);
        let initial = PadicIntegerToNumber::new(lscaler, 0).to_dyn();
        proof {
            assert(n_model(initial) == rem_model(lm, rm, k as nat, uinv as nat, 0));
        }
        let out = DivisionPadicInteger {
            lhs: Box::new(lhs_anchor),
            rhs: rscaler,
            p,
            scale_adjustment: k,
            uinv,
            cache: Vec::new(),
            remaining: Box::new(initial),
            remaining_offset: 0,
        };
        proof {
            assert(uinv < p);
        }
        Ok(out)
    }

    /// The quotient digit at `index + scale_adjustment`, zero below the
    /// quotient's range; fills the cache and advances the remainder
    /// chain as far as needed.
    pub fn get_digit(&mut self, index: i64) -> (d: u8)
        requires
            old(self).inv_spec(),
            -2 * IDX_BOUND <= index,
            index <= min_int(hi_allow(old(self).lmodel()), hi_allow(old(self).rmodel())) - (
            DIV_MARGIN as int) + 2 * SCALE_BOUND,
        ensures
            final(self).inv_spec(),
            final(self).lmodel() == old(self).lmodel(),
            final(self).rmodel() == old(self).rmodel(),
            final(self).scale_adjustment == old(self).scale_adjustment,
            final(self).uinv == old(self).uinv,
            final(self).p == old(self).p,
            final(self).rhs.scale == old(self).rhs.scale,
            d as nat == (if index + old(self).scale_adjustment < 0 {
                0nat
            } else {
                quot_digit(
                    old(self).lmodel(),
                    old(self).rmodel(),
                    old(self).scale_adjustment as nat,
                    old(self).uinv as nat,
                    (index + old(self).scale_adjustment) as nat,
                )
            }),
        decreases
            1 + max_nat(ddepth(old(self).lmodel()), ddepth(old(self).rmodel())),
            msize(old(self).lmodel()) + msize(old(self).rmodel()),
            0int,
            1int,
    {
        let ghost l = self.lmodel();
        let ghost r = self.rmodel();
        let ghost kn = self.scale_adjustment as nat;
        let ghost un = self.uinv as nat;
        proof {
            lemma_hi_allow_le(l);
            lemma_hi_allow_le(r);
            crate::padic::lemma_n_inv_wf(*self.lhs);
            crate::padic::lemma_n_inv_wf(*self.rhs.inner);
            lemma_base_pos(l);
            lemma_scale_bounded(l);
            lemma_scale_bounded(r);
        }
        if index + (self.scale_adjustment as i64) < 0 {
            return 0;
        }
        let target: i64 = index + self.scale_adjustment as i64;
        while (self.cache.len() as u64) <= (target as u64)
            invariant
                self.inv_spec(),
                self.lmodel() == l,
                self.rmodel() == r,
                old(self).lmodel() == l,
                old(self).rmodel() == r,
                self.scale_adjustment == old(self).scale_adjustment,
                self.uinv == old(self).uinv,
                self.p == old(self).p,
                self.rhs.scale == old(self).rhs.scale,
                kn == self.scale_adjustment as nat,
                un == self.uinv as nat,
                wf(l),
                wf(r),
                0 <= target,
                target <= min_int(hi_allow(l), hi_allow(r)) - (DIV_MARGIN as int) + 2
                    * SCALE_BOUND + SCAN_BOUND,
            decreases target as int + 1 - self.cache@.len(),
        {
            let m = self.cache.len() as u64;
            let ghost mn = m as nat;
            proof {
                lemma_rem_hi_allow(l, r, kn, un, mn);
                lemma_rem_wf(l, r, kn, un, mn);
                lemma_rem_ddepth(l, r, kn, un, mn);
                lemma_rem_scale(l, r, kn, un, mn);
                crate::model::lemma_msize_pos(l);
                crate::model::lemma_msize_pos(r);
                lemma_hi_allow_le(l);
                lemma_hi_allow_le(r);
                assert(m as int <= min_int(hi_allow(l), hi_allow(r)) - (DIV_MARGIN as int) + 2
                    * SCALE_BOUND + SCAN_BOUND);
                assert(min_int(hi_allow(l), hi_allow(r)) - (DIV_MARGIN as int) + 2 * SCALE_BOUND
                    + SCAN_BOUND <= min_int(
                    IDX_BOUND as int,
                    min_int(hi_allow(l) - SCALE_BOUND, hi_allow(r) - SCALE_BOUND - SCAN_BOUND),
                ));
                assert(m as int <= hi_allow(rem_model(l, r, kn, un, mn)));
            }
            let rd = self.remaining.get_digit(m as i64);
            proof {
                lemma_digit_range(rem_model(l, r, kn, un, mn), m as int);
            }
            let d: u8 = if rd == 0 {
                0
            } else {
                digit_mul_overflow(self.p, rd, self.uinv).0
            };
            proof {
                assert(quot_digit(l, r, kn, un, mn) == d as nat);
                lemma_quot_lt(l, r, kn, un, mn);
            }
            if d != 0 {
                // the single-digit literal holding d at column m
                let mut v: Vec<u8> = Vec::new();
                let mut cnt: u64 = 0;
                while cnt < m
                    invariant
                        cnt <= m,
                        v@.len() == cnt,
                        forall|t: int| 0 <= t < v@.len() ==> (#[trigger] v@[t]) == 0,
                    decreases m - cnt,
                {
                    v.push(0);
                    cnt = cnt + 1;
                }
                v.push(d);
                let ghost dseq = Seq::new(mn + 1, |t: int| if t == mn { d as nat } else { 0nat });
                proof {
                    assert(crate::padic_primitive::digits_seq(v) =~= dseq);
                }
                let single = match FinitePadicInteger::new_with_digits(self.p, v) {
                    Ok(f) => f,
                    Err(_) => {
                        proof {
                            assert(false);
                        }
                        FinitePadicInteger { p: self.p, digits: Vec::new() }
                    },
                };
                let rclone = (*self.rhs.inner).clone();
                let bscaler = PadicNumberScaler::new(
                    rclone,
                    self.rhs.scale + self.scale_adjustment as i64,
                );
                let bhat = PadicIntegerToNumber::new(bscaler, 0).to_dyn();
                let ghost shifted = Model::Lift {
                    inner: Box::new(r),
                    align: scale_of(r) + kn,
                    scale: 0,
                };
                proof {
                    assert(n_model(bhat) == shifted);
                }
                let ghost productm = rem_product(l, r, kn, d as nat, mn + 1);
                let product = match single.to_dyn().mul(bhat) {
                    Ok(x) => x,
                    Err(_) => {
                        proof {
                            assert(false);
                        }
                        PadicNumber {
                            producer: Producer::Finite(
                                FinitePadicInteger { p: self.p, digits: Vec::new() },
                            ),
                        }
                    },
                };
                let mut old_rem = match FinitePadicInteger::new(self.p) {
                    Ok(f) => f.to_dyn(),
                    Err(_) => {
                        proof {
                            assert(false);
                        }
                        PadicNumber {
                            producer: Producer::Finite(
                                FinitePadicInteger { p: self.p, digits: Vec::new() },
                            ),
                        }
                    },
                };
                core::mem::swap(&mut *self.remaining, &mut old_rem);
                proof {
                    lemma_hi_allow_le(rem_model(l, r, kn, un, mn));
                    assert(n_model(product) == productm);
                    lemma_rem_product_facts(l, r, kn, d as nat, mn + 1);
                    lemma_rem_product_wf(l, r, kn, d as nat, mn + 1);
                    assert(hi_allow(n_model(product)) == min_int(
                        IDX_BOUND as int,
                        hi_allow(r) - scale_of(r) - kn,
                    ));
                    assert(ddepth(n_model(product)) == ddepth(r));
                    assert(scale_of(n_model(product)) == 0);
                }
                let new_rem = match old_rem.sub(product) {
                    Ok(x) => x,
                    Err(_) => {
                        proof {
                            assert(false);
                        }
                        PadicNumber {
                            producer: Producer::Finite(
                                FinitePadicInteger { p: self.p, digits: Vec::new() },
                            ),
                        }
                    },
                };
                proof {
                    assert(n_model(new_rem) == rem_model(l, r, kn, un, mn + 1));
                }
                self.remaining = Box::new(new_rem);
            } else {
                proof {
                    assert(rem_model(l, r, kn, un, mn + 1) == rem_model(l, r, kn, un, mn));
                }
            }
            self.cache.push(d);
            self.remaining_offset = self.remaining_offset + 1;
            proof {
                assert forall|t: int| 0 <= t < self.cache@.len() implies (#[trigger] self
                    .cache@[t]) as nat == quot_digit(l, r, kn, un, t as nat) by {
                    if t < mn {
                    } else {
                    }
                }
            }
        }
        let d = self.cache[target as usize];
        proof {
            assert(d as nat == quot_digit(l, r, kn, un, target as nat));
        }
        d
    }
}

/// The public division producer: the quotient re-scaled by the
/// difference of the operands' scales and the divisor's valuation.
pub struct DivisivePadicIntegerScaler {
    pub inner: DivisionPadicInteger,
    pub scale: i64,
}

impl DivisivePadicIntegerScaler {
    pub open spec fn inv_spec(&self) -> bool
        decreases self,
    {
        &&& self.inner.inv_spec()
        &&& self.scale as int == scale_of(self.inner.lmodel()) - scale_of(self.inner.rmodel())
    }

    /// Builds the quotient of two numbers.
    pub fn new(lhs: PadicNumber, rhs: PadicNumber) -> (r: Result<
        DivisivePadicIntegerScaler,
        PadicError,
    >)
        requires
            n_inv(lhs),
            n_inv(rhs),
            div_args_ok(n_model(lhs), n_model(rhs)),
        ensures
            match r {
                Ok(a) => {
                    &&& base_of(n_model(lhs)) == base_of(n_model(rhs))
                    &&& spec_prime(base_of(n_model(lhs)) as int)
                    &&& a.inv()
                    &&& a.model() == (Model::Div {
                        lhs: Box::new(n_model(lhs)),
                        rhs: Box::new(n_model(rhs)),
                        k: a.inner.scale_adjustment as nat,
                        uinv: a.inner.uinv as nat,
                    })
                    &&& forall|j: nat|
                        j < a.inner.scale_adjustment as nat ==> #[trigger] digit_of(
                            n_model(rhs),
                            scale_of(n_model(rhs)) + j,
                        ) == 0
                    &&& digit_of(
                        n_model(rhs),
                        scale_of(n_model(rhs)) + a.inner.scale_adjustment as nat,
                    ) != 0
                },
                Err(e) => {
                    ||| (e == PadicError::MismatchedBase && base_of(n_model(lhs)) != base_of(
                        n_model(rhs),
                    ))
                    ||| (e == PadicError::NotInvertible && base_of(n_model(lhs)) == base_of(
                        n_model(rhs),
                    ) && !spec_prime(base_of(n_model(lhs)) as int))
                    ||| (e == PadicError::DivisionByZero && base_of(n_model(lhs)) == base_of(
                        n_model(rhs),
                    ) && spec_prime(base_of(n_model(lhs)) as int) && forall|j: nat|
                        j <= SCAN_BOUND ==> #[trigger] digit_of(
                            n_model(rhs),
                            scale_of(n_model(rhs)) + j,
                        ) == 0)
                },
            },
        decreases
            max_nat(ddepth(n_model(lhs)), ddepth(n_model(rhs))),
            msize(n_model(lhs)) + msize(n_model(rhs)),
            0int,
            8int,
    {
        let ghost lm = n_model(lhs);
        let ghost rm = n_model(rhs);
        proof {
            crate::padic::lemma_n_inv_wf(lhs);
            crate::padic::lemma_n_inv_wf(rhs);
            lemma_scale_bounded(lm);
            lemma_scale_bounded(rm);
        }
        let sl = lhs.get_scale();
        let sr = rhs.get_scale();
        let inner = match DivisionPadicInteger::new(lhs, rhs) {
            Ok(x) => x,
            Err(e) => {
                return Err(e);
            },
        };
        Ok(DivisivePadicIntegerScaler { inner, scale: sl - sr })
    }
}

impl PadicAccessor for DivisivePadicIntegerScaler {
    open spec fn model(&self) -> Model {
        self.inner.dmodel()
    }

    open spec fn inv(&self) -> bool {
        self.inv_spec()
    }

    fn get_digit(&mut self, index: i64) -> (d: u8)
        decreases
            ddepth(old(self).model()),
            msize(old(self).model()),
            0int,
            2int,
    {
        proof {
            lemma_hi_allow_le(self.model());
        }
        self.inner.get_digit(index - self.scale)
    }

    fn get_scale(&self) -> (s: i64) {
        self.scale - self.inner.scale_adjustment as i64
    }

    fn to_dyn(self) -> (n: PadicNumber) {
        PadicNumber { producer: Producer::Div(self) }
    }
}

impl PadicNumber {
    /// The quotient of two numbers: `MismatchedBase` when the bases
    /// differ, `NotInvertible` when the base is not prime, and
    /// `DivisionByZero` when the divisor shows no nonzero digit within
    /// the scan bound.
    pub fn div(self, rhs: PadicNumber) -> (r: Result<PadicNumber, PadicError>)
        requires
            self.inv(),
            rhs.inv(),
            div_args_ok(self@, rhs@),
        ensures
            match r {
                Ok(n) => {
                    &&& base_of(self@) == base_of(rhs@)
                    &&& spec_prime(base_of(self@) as int)
                    &&& n.inv()
                    &&& n@ is Div
                    &&& n@->Div_lhs == Box::new(self@)
                    &&& n@->Div_rhs == Box::new(rhs@)
                    &&& forall|j: nat|
                        j < n@->Div_k ==> #[trigger] digit_of(rhs@, scale_of(rhs@) + j) == 0
                    &&& digit_of(rhs@, scale_of(rhs@) + n@->Div_k) != 0
                    &&& (digit_of(rhs@, scale_of(rhs@) + n@->Div_k) * n@->Div_uinv) % base_of(
                        self@,
                    ) == 1
                },
                Err(e) => {
                    ||| (e == PadicError::MismatchedBase && base_of(self@) != base_of(rhs@))
                    ||| (e == PadicError::NotInvertible && base_of(self@) == base_of(rhs@)
                        && !spec_prime(base_of(self@) as int))
                    ||| (e == PadicError::DivisionByZero && base_of(self@) == base_of(rhs@)
                        && spec_prime(base_of(self@) as int) && forall|j: nat|
                        j <= SCAN_BOUND ==> #[trigger] digit_of(rhs@, scale_of(rhs@) + j) == 0)
                },
            },
        decreases
            max_nat(ddepth(self@), ddepth(rhs@)),
            msize(self@) + msize(rhs@),
            0int,
            9int,
    {
        match DivisivePadicIntegerScaler::new(self, rhs) {
            Ok(a) => Ok(a.to_dyn()),
            Err(e) => Err(e),
        }
    }
}

} // verus!

verus! {

impl Clone for DivisionPadicInteger {
    fn clone(&self) -> (r: Self)
        ensures
            r.lmodel() == self.lmodel(),
            r.rmodel() == self.rmodel(),
            r.scale_adjustment == self.scale_adjustment,
            r.uinv == self.uinv,
            r.p == self.p,
            r.rhs.scale == self.rhs.scale,
            r.inv_spec() == self.inv_spec(),
        decreases *self,
            6int,
    {
        proof {
            crate::model::lemma_msize_pos(self.lmodel());
            crate::model::lemma_msize_pos(self.rmodel());
            if self.inv_spec() {
                lemma_rem_ddepth(
                    self.lmodel(),
                    self.rmodel(),
                    self.scale_adjustment as nat,
                    self.uinv as nat,
                    self.cache@.len() as nat,
                );
            }
        }
        DivisionPadicInteger {
            lhs: Box::new((*self.lhs).clone()),
            rhs: self.rhs.clone(),
            p: self.p,
            scale_adjustment: self.scale_adjustment,
            uinv: self.uinv,
            cache: crate::padic::clone_digits(&self.cache),
            remaining: Box::new((*self.remaining).clone()),
            remaining_offset: self.remaining_offset,
        }
    }
}

impl Clone for DivisivePadicIntegerScaler {
    fn clone(&self) -> (r: Self)
        ensures
            r.model() == self.model(),
            r.inv() == self.inv(),
        decreases *self,
            2int,
    {
        DivisivePadicIntegerScaler { inner: self.inner.clone(), scale: self.scale }
    }
}

} // verus!
