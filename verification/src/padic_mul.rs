//! The multiplicative combinator: convolution of the integer-aligned
//! operand digits. The producer keeps the already-emitted digits and a
//! pending tail of not yet reduced column sums; each new column adds
//! every digit product of that column into the tail with carries, then
//! emits the tail's lowest digit.

use vstd::prelude::*;

use crate::discrete::{digit_add_carry, digit_mul_overflow};
use crate::model::{
    base_of, conv_part, conv_sum, digit_of, hi_allow, lemma_base_pos, lemma_digit_range,
    lemma_scale_bounded, min_int, mul_raw, scale_of, wf, Model, IDX_BOUND, SCALE_BOUND,
};
use crate::padic::{
    n_inv, n_model, PadicAccessor, PadicError, PadicIntegerAccessor, PadicNumber,
    PadicNumberScaler, Producer,
};
use vstd::arithmetic::power::pow;

verus! {

/// The value of a digit sequence, least significant first:
/// `sum of s[i] * p^i`.
pub open spec fn seq_val(s: Seq<u8>, p: nat) -> int
    decreases s.len(),
{
    if s.len() == 0 {
        0
    } else {
        seq_val(s.drop_last(), p) + s.last() as int * pow(p as int, (s.len() - 1) as nat)
    }
}

/// The first `i` digits of a sequence, or all of them when it is
/// shorter.
pub open spec fn clamped_take(s: Seq<u8>, i: int) -> Seq<u8> {
    if i <= s.len() {
        s.take(i)
    } else {
        s
    }
}

/// All digits of the sequence fit the base.
pub open spec fn seq_digits_ok(s: Seq<u8>, p: nat) -> bool {
    forall|t: int| 0 <= t < s.len() ==> (#[trigger] s[t]) < p
}

/// The value of a digit sequence is nonnegative and below `p^len`.
pub proof fn lemma_seq_val_bound(s: Seq<u8>, p: nat)
    requires
        p >= 1,
        seq_digits_ok(s, p),
    ensures
        0 <= seq_val(s, p),
        seq_val(s, p) < pow(p as int, s.len()),
    decreases s.len(),
{
    vstd::arithmetic::power::lemma_pow_positive(p as int, s.len());
    if s.len() == 0 {
    } else {
        let l = (s.len() - 1) as nat;
        lemma_seq_val_bound(s.drop_last(), p);
        vstd::arithmetic::power::lemma_pow_positive(p as int, l);
        assert(s.last() as int <= p - 1);
        assert(s.last() as int * pow(p as int, l) <= (p - 1) * pow(p as int, l))
            by (nonlinear_arith)
            requires
                s.last() as int <= p - 1,
                pow(p as int, l) >= 1,
        ;
        assert(pow(p as int, s.len() as nat) == p * pow(p as int, l)) by {
            vstd::arithmetic::power::lemma_pow1(p as int);
            vstd::arithmetic::power::lemma_pow_adds(p as int, 1, l);
        }
        assert(seq_val(s.drop_last(), p) + s.last() as int * pow(p as int, l) < p * pow(
            p as int,
            l,
        )) by (nonlinear_arith)
            requires
                seq_val(s.drop_last(), p) < pow(p as int, l),
                s.last() as int * pow(p as int, l) <= (p - 1) * pow(p as int, l),
                pow(p as int, l) >= 1,
        ;
    }
}

/// The value of a sequence, decomposed at the front:
/// `s[0] + p * value of the rest`.
pub proof fn lemma_seq_val_front(s: Seq<u8>, p: nat)
    requires
        s.len() >= 1,
    ensures
        seq_val(s, p) == s[0] as int + p * seq_val(s.drop_first(), p),
    decreases s.len(),
{
    reveal_with_fuel(seq_val, 3);
    if s.len() == 1 {
        assert(s.drop_last().len() == 0);
        assert(s.drop_first().len() == 0);
        assert(s.last() == s[0]);
        vstd::arithmetic::power::lemma_pow0(p as int);
    } else {
        let d = s.drop_last();
        lemma_seq_val_front(d, p);
        assert(d.drop_first() =~= s.drop_first().drop_last());
        assert(s.drop_first().last() == s.last());
        assert(s.drop_first().len() == s.len() - 1);
        let l2 = (s.len() - 2) as nat;
        assert(seq_val(s.drop_first(), p) == seq_val(s.drop_first().drop_last(), p) + s.last()
            as int * pow(p as int, l2));
        assert(pow(p as int, (s.len() - 1) as nat) == p * pow(p as int, l2)) by {
            vstd::arithmetic::power::lemma_pow1(p as int);
            vstd::arithmetic::power::lemma_pow_adds(p as int, 1, l2);
        }
        assert(p * (seq_val(d.drop_first(), p) + s.last() as int * pow(p as int, l2)) == p
            * seq_val(d.drop_first(), p) + s.last() as int * (p * pow(p as int, l2)))
            by (nonlinear_arith)
        ;
    }
}

/// Adds two digit sequences as base-p numbers, least significant digit
/// first, propagating carries; the result's value is the sum of the
/// operands' values.
pub fn add_vec(p: u8, lhs: &Vec<u8>, rhs: &Vec<u8>) -> (r: Vec<u8>)
    requires
        p >= 1,
        seq_digits_ok(lhs@, p as nat),
        seq_digits_ok(rhs@, p as nat),
    ensures
        seq_digits_ok(r@, p as nat),
        seq_val(r@, p as nat) == seq_val(lhs@, p as nat) + seq_val(rhs@, p as nat),
        r@.len() >= lhs@.len(),
        r@.len() >= rhs@.len(),
        rhs@.len() == 0 ==> r@ == lhs@,
{
    let ghost pn = p as nat;
    let mut out: Vec<u8> = Vec::new();
    let mut carry = false;
    let mut i: usize = 0;
    let n = if lhs.len() >= rhs.len() {
        lhs.len()
    } else {
        rhs.len()
    };
    proof {
        vstd::arithmetic::power::lemma_pow0(p as int);
        assert(clamped_take(lhs@, 0) =~= Seq::<u8>::empty());
        assert(clamped_take(rhs@, 0) =~= Seq::<u8>::empty());
    }
    while i < n
        invariant
            i <= n,
            n == if lhs@.len() >= rhs@.len() {
                lhs@.len()
            } else {
                rhs@.len()
            },
            p >= 1,
            pn == p as nat,
            seq_digits_ok(lhs@, pn),
            seq_digits_ok(rhs@, pn),
            out@.len() == i,
            seq_digits_ok(out@, pn),
            seq_val(out@, pn) + (if carry {
                1int
            } else {
                0int
            }) * pow(p as int, i as nat) == seq_val(clamped_take(lhs@, i as int), pn) + seq_val(
                clamped_take(rhs@, i as int),
                pn,
            ),
            p == 1 ==> !carry,
            rhs@.len() == 0 ==> !carry && out@ == lhs@.take(i as int),
        decreases n - i,
    {
        let a: u8 = if i < lhs.len() {
            lhs[i]
        } else {
            0
        };
        let b: u8 = if i < rhs.len() {
            rhs[i]
        } else {
            0
        };
        let f01: u8 = if carry {
            1
        } else {
            0
        };
        let (s1, c1) = digit_add_carry(p, a, b);
        let (s2, c2) = digit_add_carry(p, s1, f01);
        proof {
            let t = a as int + b as int + f01 as int;
            if !c1 {
                vstd::arithmetic::div_mod::lemma_small_mod((a + b) as nat, p as nat);
            }
            vstd::arithmetic::div_mod::lemma_add_mod_noop(a as int + b as int, f01 as int, p as int);
            vstd::arithmetic::div_mod::lemma_small_mod(f01 as nat, p as nat);
            assert(s2 as int == t % (p as int));
            assert((c1 || c2) <==> t >= p as int);
            if t < p as int {
                vstd::arithmetic::div_mod::lemma_small_mod((a + b + f01) as nat, p as nat);
            } else {
                vstd::arithmetic::div_mod::lemma_mod_sub_multiples_vanish(t, p as int);
                vstd::arithmetic::div_mod::lemma_small_mod((t - p) as nat, p as nat);
            }
            assert(s2 as int + (if c1 || c2 {
                1int
            } else {
                0int
            }) * (p as int) == t);
        }
        let ghost old_out = out@;
        let ghost old_carry = carry;
        out.push(s2);
        carry = c1 || c2;
        i = i + 1;
        proof {
            assert(out@.drop_last() =~= old_out);
            let ii = (i - 1) as nat;
            assert(pow(p as int, i as nat) == p * pow(p as int, ii)) by {
                vstd::arithmetic::power::lemma_pow1(p as int);
                vstd::arithmetic::power::lemma_pow_adds(p as int, 1, ii);
            }
            if i - 1 < lhs@.len() {
                assert(clamped_take(lhs@, i as int).drop_last() =~= clamped_take(lhs@, i - 1));
                assert(clamped_take(lhs@, i as int).last() == lhs@[i - 1]);
                assert(seq_val(clamped_take(lhs@, i as int), pn) == seq_val(
                    clamped_take(lhs@, i - 1),
                    pn,
                ) + a as int * pow(p as int, ii));
            } else {
                assert(clamped_take(lhs@, i as int) =~= clamped_take(lhs@, i - 1));
                assert(a == 0);
            }
            if i - 1 < rhs@.len() {
                assert(clamped_take(rhs@, i as int).drop_last() =~= clamped_take(rhs@, i - 1));
                assert(clamped_take(rhs@, i as int).last() == rhs@[i - 1]);
                assert(seq_val(clamped_take(rhs@, i as int), pn) == seq_val(
                    clamped_take(rhs@, i - 1),
                    pn,
                ) + b as int * pow(p as int, ii));
            } else {
                assert(clamped_take(rhs@, i as int) =~= clamped_take(rhs@, i - 1));
                assert(b == 0);
            }
            assert(seq_val(out@, pn) + (if carry {
                1int
            } else {
                0int
            }) * pow(p as int, i as nat) == seq_val(clamped_take(lhs@, i as int), pn) + seq_val(
                clamped_take(rhs@, i as int),
                pn,
            )) by (nonlinear_arith)
                requires
                    seq_val(out@, pn) == seq_val(old_out, pn) + s2 as int * pow(p as int, ii),
                    seq_val(old_out, pn) + (if old_carry {
                        1int
                    } else {
                        0int
                    }) * pow(p as int, ii) == seq_val(clamped_take(lhs@, i - 1), pn) + seq_val(
                        clamped_take(rhs@, i - 1),
                        pn,
                    ),
                    seq_val(clamped_take(lhs@, i as int), pn) == seq_val(
                        clamped_take(lhs@, i - 1),
                        pn,
                    ) + a as int * pow(p as int, ii),
                    seq_val(clamped_take(rhs@, i as int), pn) == seq_val(
                        clamped_take(rhs@, i - 1),
                        pn,
                    ) + b as int * pow(p as int, ii),
                    s2 as int + (if carry {
                        1int
                    } else {
                        0int
                    }) * (p as int) == a as int + b as int + (if old_carry {
                        1int
                    } else {
                        0int
                    }),
                    pow(p as int, i as nat) == p * pow(p as int, ii),
            ;
            if rhs@.len() == 0 {
                assert(b == 0 && f01 == 0);
                assert(!carry && s2 == a);
                assert(out@ =~= lhs@.take(i as int));
            }
        }
    }
    proof {
        assert(clamped_take(lhs@, n as int) =~= lhs@);
        assert(clamped_take(rhs@, n as int) =~= rhs@);
        if rhs@.len() == 0 {
            assert(out@ =~= lhs@.take(n as int));
            assert(lhs@.take(n as int) =~= lhs@);
        }
    }
    if carry {
        let ghost old_out = out@;
        out.push(1);
        proof {
            assert(out@.drop_last() =~= old_out);
        }
    }
    out
}

/// The inner memoized product of two integer-aligned operands: the
/// emitted digits and the pending tail of column sums, whose combined
/// value always equals the value of the convolution columns consumed
/// so far.
pub struct MultiplicationPadicInteger {
    pub lhs: PadicNumberScaler,
    pub rhs: PadicNumberScaler,
    pub p: u8,
    pub computed: Vec<u8>,
    pub tail: Vec<u8>,
}

impl MultiplicationPadicInteger {
    pub open spec fn lmodel(&self) -> Model {
        n_model(*self.lhs.inner)
    }

    pub open spec fn rmodel(&self) -> Model {
        n_model(*self.rhs.inner)
    }

    pub open spec fn iinv_spec(&self) -> bool
        decreases self,
    {
        let l = self.lmodel();
        let r = self.rmodel();
        let p = base_of(l);
        &&& self.lhs.iinv_spec()
        &&& self.rhs.iinv_spec()
        &&& self.lhs.scale as int == scale_of(l)
        &&& self.rhs.scale as int == scale_of(r)
        &&& base_of(l) == base_of(r)
        &&& self.p as nat == p
        &&& forall|t: int|
            0 <= t < self.computed@.len() ==> (#[trigger] self.computed@[t]) as nat == mul_raw(
                l,
                r,
                t as nat,
            )
        &&& seq_digits_ok(self.computed@, p)
        &&& seq_digits_ok(self.tail@, p)
        &&& seq_val(self.computed@, p) + pow(p as int, self.computed@.len() as nat) * seq_val(
            self.tail@,
            p,
        ) == conv_sum(l, r, self.computed@.len() as nat)
    }

    /// The combinator over two integer-aligned views, with nothing
    /// computed yet.
    pub fn new(lhs: PadicNumberScaler, rhs: PadicNumberScaler, p: u8) -> (r:
        MultiplicationPadicInteger)
        requires
            lhs.iinv(),
            rhs.iinv(),
            lhs.scale as int == scale_of(n_model(*lhs.inner)),
            rhs.scale as int == scale_of(n_model(*rhs.inner)),
            base_of(n_model(*lhs.inner)) == base_of(n_model(*rhs.inner)),
            p as nat == base_of(n_model(*lhs.inner)),
        ensures
            r.iinv(),
            r.lmodel() == n_model(*lhs.inner),
            r.rmodel() == n_model(*rhs.inner),
    {
        let out = MultiplicationPadicInteger {
            lhs,
            rhs,
            p,
            computed: Vec::new(),
            tail: Vec::new(),
        };
        proof {
            vstd::arithmetic::power::lemma_pow0(p as int);
        }
        out
    }
}

impl View for MultiplicationPadicInteger {
    type V = (Model, Model);

    open spec fn view(&self) -> (Model, Model) {
        (self.lmodel(), self.rmodel())
    }
}

impl PadicIntegerAccessor for MultiplicationPadicInteger {
    open spec fn iinv(&self) -> bool {
        self.iinv_spec()
    }

    open spec fn idigit(&self, j: int) -> nat {
        mul_raw(self.lmodel(), self.rmodel(), j as nat)
    }

    open spec fn iallow(&self) -> int {
        min_int(
            hi_allow(self.lmodel()) - self.lhs.scale,
            hi_allow(self.rmodel()) - self.rhs.scale,
        )
    }

    fn get_integer_digit(&mut self, index: i64) -> (d: u8)
        decreases
            crate::model::max_nat(
                crate::model::ddepth(old(self).lmodel()),
                crate::model::ddepth(old(self).rmodel()),
            ),
            crate::model::msize(old(self).lmodel()) + crate::model::msize(old(self).rmodel()),
            0int,
            5int,
    {
        let ghost l = self.lmodel();
        let ghost r = self.rmodel();
        let ghost pn = base_of(l);
        proof {
            crate::padic::lemma_n_inv_wf(*self.lhs.inner);
            crate::padic::lemma_n_inv_wf(*self.rhs.inner);
            lemma_base_pos(l);
            crate::model::lemma_msize_pos(l);
            crate::model::lemma_msize_pos(r);
        }
        while (self.computed.len() as u64) <= (index as u64)
            invariant
                self.iinv(),
                self@ == (l, r),
                old(self)@ == (l, r),
                self.lhs.scale == old(self).lhs.scale,
                self.rhs.scale == old(self).rhs.scale,
                self.p == old(self).p,
                wf(l),
                wf(r),
                pn == base_of(l),
                0 <= index,
                index <= min_int(hi_allow(l) - self.lhs.scale, hi_allow(r) - self.rhs.scale),
            decreases index as int + 1 - self.computed@.len(),
        {
            proof {
                crate::model::lemma_msize_pos(l);
                crate::model::lemma_msize_pos(r);
            }
            let k = self.computed.len();
            let ghost kn = k as nat;
            let ghost computed0 = self.computed@;
            let mut offset: u64 = 0;
            proof {
                assert(conv_part(l, r, kn, 0) == 0);
            }
            while offset <= k as u64
                invariant
                    self.lhs.iinv_spec(),
                    self.rhs.iinv_spec(),
                    self@ == (l, r),
                    old(self)@ == (l, r),
                    self.lhs.scale == old(self).lhs.scale,
                    self.rhs.scale == old(self).rhs.scale,
                    self.lhs.scale as int == scale_of(l),
                    self.rhs.scale as int == scale_of(r),
                    self.p == old(self).p,
                    wf(l),
                    wf(r),
                    base_of(l) == base_of(r),
                    pn == base_of(l),
                    self.p as nat == pn,
                    0 <= index,
                    index <= min_int(hi_allow(l) - self.lhs.scale, hi_allow(r) - self.rhs.scale),
                    self.computed@ == computed0,
                    k == self.computed@.len(),
                    kn == k as nat,
                    k as u64 <= index as u64,
                    forall|t: int|
                        0 <= t < self.computed@.len() ==> (#[trigger] self.computed@[t]) as nat
                            == mul_raw(l, r, t as nat),
                    seq_digits_ok(self.computed@, pn),
                    seq_digits_ok(self.tail@, pn),
                    offset <= k as u64 + 1,
                    seq_val(self.computed@, pn) + pow(pn as int, kn) * (seq_val(self.tail@, pn)
                        - conv_part(l, r, kn, offset as nat)) == conv_sum(l, r, kn),
                    offset == k as u64 + 1 ==> self.tail@.len() >= 2,
                decreases k as u64 + 1 - offset,
            {
                proof {
                    crate::model::lemma_msize_pos(l);
                    crate::model::lemma_msize_pos(r);
                }
                let a = self.lhs.get_integer_digit(offset as i64);
                let b = self.rhs.get_integer_digit((k as u64 - offset) as i64);
                proof {
                    lemma_digit_range(l, offset as i64 + self.lhs.scale);
                    lemma_digit_range(r, (k as u64 - offset) as i64 + self.rhs.scale);
                }
                let (lo, hi) = digit_mul_overflow(self.p, a, b);
                let mut two: Vec<u8> = Vec::new();
                two.push(lo);
                two.push(hi);
                proof {
                    reveal_with_fuel(seq_val, 4);
                    vstd::arithmetic::power::lemma_pow0(pn as int);
                    vstd::arithmetic::power::lemma_pow1(pn as int);
                    assert(two@.drop_last() =~= seq![lo]);
                    assert(seq![lo].drop_last() =~= Seq::<u8>::empty());
                    assert(seq_val(two@, pn) == lo as int + hi as int * (pn as int));
                    assert(seq_val(two@, pn) == a as int * b as int);
                }
                let ghost old_tail = self.tail@;
                let new_tail = add_vec(self.p, &self.tail, &two);
                self.tail = new_tail;
                offset = offset + 1;
                proof {
                    let om = (offset - 1) as nat;
                    assert(conv_part(l, r, kn, om + 1) == conv_part(l, r, kn, om) + digit_of(
                        l,
                        scale_of(l) + om,
                    ) * digit_of(r, scale_of(r) + kn - om));
                    assert(a as nat == digit_of(l, scale_of(l) + om));
                    assert(b as nat == digit_of(r, scale_of(r) + kn - om));
                    assert(seq_val(self.tail@, pn) == seq_val(old_tail, pn) + a as int * b as int);
                    assert(seq_val(self.computed@, pn) + pow(pn as int, kn) * (seq_val(
                        self.tail@,
                        pn,
                    ) - conv_part(l, r, kn, offset as nat)) == conv_sum(l, r, kn))
                        by (nonlinear_arith)
                        requires
                            seq_val(self.computed@, pn) + pow(pn as int, kn) * (seq_val(
                                old_tail,
                                pn,
                            ) - conv_part(l, r, kn, om)) == conv_sum(l, r, kn),
                            seq_val(self.tail@, pn) == seq_val(old_tail, pn) + a as int * b as int,
                            conv_part(l, r, kn, om + 1) == conv_part(l, r, kn, om) + a as int * (
                            b as int),
                            offset as nat == om + 1,
                    ;
                }
            }
            let ghost tail_before = self.tail@;
            let d = self.tail.remove(0);
            let ghost tail_after = self.tail@;
            proof {
                assert(tail_before.drop_first() =~= tail_after);
                lemma_seq_val_front(tail_before, pn);
                assert(seq_val(tail_before, pn) == d as int + pn * seq_val(tail_after, pn));
            }
            let ghost old_computed = self.computed@;
            self.computed.push(d);
            proof {
                let ci = self.computed@;
                assert(ci.drop_last() =~= old_computed);
                assert(ci.len() == kn + 1);
                let pk = pow(pn as int, kn);
                let pk1 = pow(pn as int, kn + 1);
                assert(pk1 == pn * pk) by {
                    vstd::arithmetic::power::lemma_pow1(pn as int);
                    vstd::arithmetic::power::lemma_pow_adds(pn as int, 1, kn);
                }
                vstd::arithmetic::power::lemma_pow_positive(pn as int, kn);
                lemma_seq_val_bound(old_computed, pn);
                lemma_seq_val_bound(tail_after, pn);
                assert(conv_sum(l, r, kn + 1) == conv_sum(l, r, kn) + conv_part(l, r, kn, kn + 1)
                    * pow(pn as int, kn));
                let x = seq_val(tail_before, pn);
                assert(seq_val(old_computed, pn) + pk * x == conv_sum(l, r, kn + 1))
                    by (nonlinear_arith)
                    requires
                        seq_val(old_computed, pn) + pk * (x - conv_part(l, r, kn, kn + 1))
                            == conv_sum(l, r, kn),
                        conv_sum(l, r, kn + 1) == conv_sum(l, r, kn) + conv_part(l, r, kn, kn + 1)
                            * pk,
                ;
                assert(conv_sum(l, r, kn + 1) == (d as int + pn * seq_val(tail_after, pn)) * pk
                    + seq_val(old_computed, pn)) by (nonlinear_arith)
                    requires
                        seq_val(old_computed, pn) + pk * x == conv_sum(l, r, kn + 1),
                        x == d as int + pn * seq_val(tail_after, pn),
                ;
                vstd::arithmetic::div_mod::lemma_fundamental_div_mod_converse(
                    conv_sum(l, r, kn + 1) as int,
                    pk,
                    d as int + pn * seq_val(tail_after, pn),
                    seq_val(old_computed, pn),
                );
                vstd::arithmetic::div_mod::lemma_fundamental_div_mod_converse(
                    d as int + pn * seq_val(tail_after, pn),
                    pn as int,
                    seq_val(tail_after, pn),
                    d as int,
                );
                assert(mul_raw(l, r, kn) == ((conv_sum(l, r, kn + 1) as int / pk) % (pn as int))
                    as nat);
                assert(d as nat == mul_raw(l, r, kn));
                assert(seq_val(ci, pn) == seq_val(old_computed, pn) + d as int * pk);
                assert(seq_val(ci, pn) + pk1 * seq_val(tail_after, pn) == conv_sum(l, r, kn + 1))
                    by (nonlinear_arith)
                    requires
                        seq_val(ci, pn) == seq_val(old_computed, pn) + d as int * pk,
                        seq_val(old_computed, pn) + pk * (d as int + pn * seq_val(tail_after, pn))
                            == conv_sum(l, r, kn + 1),
                        pk1 == pn * pk,
                ;
                assert forall|t: int| 0 <= t < ci.len() implies (#[trigger] ci[t]) as nat
                    == mul_raw(l, r, t as nat) by {
                    if t < kn {
                    } else {
                    }
                }
            }
        }
        let d = self.computed[index as usize];
        proof {
            assert(d as nat == mul_raw(l, r, index as nat));
        }
        d
    }
}

/// The public multiplicative producer: the convolution re-scaled to the
/// sum of the operands' scales.
pub struct MultiplicativePadicIntegerScaler {
    pub inner: MultiplicationPadicInteger,
    pub scale: i64,
}

impl MultiplicativePadicIntegerScaler {
    pub open spec fn inv_spec(&self) -> bool
        decreases self,
    {
        let l = self.inner.lmodel();
        let r = self.inner.rmodel();
        &&& self.inner.iinv_spec()
        &&& self.scale as int == scale_of(l) + scale_of(r)
        &&& -SCALE_BOUND <= self.scale <= SCALE_BOUND
    }

    /// Builds the product of two numbers: aligns each at its own scale
    /// and checks that the bases agree.
    pub fn new(lhs: PadicNumber, rhs: PadicNumber) -> (r: Result<
        MultiplicativePadicIntegerScaler,
        PadicError,
    >)
        requires
            n_inv(lhs),
            n_inv(rhs),
            -SCALE_BOUND <= scale_of(n_model(lhs)) + scale_of(n_model(rhs)) <= SCALE_BOUND as int,
        ensures
            match r {
                Ok(a) => {
                    &&& base_of(n_model(lhs)) == base_of(n_model(rhs))
                    &&& a.inv()
                    &&& a.model() == (Model::Mul {
                        lhs: Box::new(n_model(lhs)),
                        rhs: Box::new(n_model(rhs)),
                    })
                },
                Err(e) => {
                    &&& e == PadicError::MismatchedBase
                    &&& base_of(n_model(lhs)) != base_of(n_model(rhs))
                },
            },
    {
        let ghost lm = n_model(lhs);
        let ghost rm = n_model(rhs);
        let p = lhs.get_base();
        if p != rhs.get_base() {
            return Err(PadicError::MismatchedBase);
        }
        proof {
            crate::padic::lemma_n_inv_wf(lhs);
            crate::padic::lemma_n_inv_wf(rhs);
            lemma_scale_bounded(lm);
            lemma_scale_bounded(rm);
        }
        let sl = lhs.get_scale();
        let sr = rhs.get_scale();
        let left = PadicNumberScaler::new(lhs, sl);
        let right = PadicNumberScaler::new(rhs, sr);
        let inner = MultiplicationPadicInteger::new(left, right, p);
        Ok(MultiplicativePadicIntegerScaler { inner, scale: sl + sr })
    }
}

impl PadicAccessor for MultiplicativePadicIntegerScaler {
    open spec fn model(&self) -> Model {
        Model::Mul {
            lhs: Box::new(self.inner.lmodel()),
            rhs: Box::new(self.inner.rmodel()),
        }
    }

    open spec fn inv(&self) -> bool {
        self.inv_spec()
    }

    fn get_digit(&mut self, index: i64) -> (d: u8)
        decreases
            crate::model::ddepth(old(self).model()),
            crate::model::msize(old(self).model()),
            0int,
            2int,
    {
        let ghost l = self.inner.lmodel();
        let ghost r = self.inner.rmodel();
        proof {
            crate::model::lemma_hi_allow_le(self.model());
        }
        let adjusted = index - self.scale;
        if adjusted < 0 {
            proof {
                assert(digit_of(self.model(), index as int) == 0);
            }
            0
        } else {
            let d = self.inner.get_integer_digit(adjusted);
            proof {
                assert(digit_of(self.model(), index as int) == mul_raw(l, r, adjusted as nat));
            }
            d
        }
    }

    fn get_scale(&self) -> (s: i64) {
        self.scale
    }

    fn to_dyn(self) -> (n: PadicNumber) {
        PadicNumber { producer: Producer::Mul(self) }
    }
}

impl PadicNumber {
    /// The product of two numbers, or `MismatchedBase` when their bases
    /// differ.
    pub fn mul(self, rhs: PadicNumber) -> (r: Result<PadicNumber, PadicError>)
        requires
            self.inv(),
            rhs.inv(),
            -SCALE_BOUND <= scale_of(self@) + scale_of(rhs@) <= SCALE_BOUND as int,
        ensures
            match r {
                Ok(n) => {
                    &&& base_of(self@) == base_of(rhs@)
                    &&& n.inv()
                    &&& n@ == (Model::Mul { lhs: Box::new(self@), rhs: Box::new(rhs@) })
                },
                Err(e) => {
                    &&& e == PadicError::MismatchedBase
                    &&& base_of(self@) != base_of(rhs@)
                },
            },
    {
        match MultiplicativePadicIntegerScaler::new(self, rhs) {
            Ok(a) => Ok(a.to_dyn()),
            Err(e) => Err(e),
        }
    }
}

} // verus!

verus! {

impl Clone for MultiplicationPadicInteger {
    fn clone(&self) -> (r: Self)
        ensures
            r@ == self@,
            r.iinv_spec() == self.iinv_spec(),
        decreases *self,
            6int,
    {
        MultiplicationPadicInteger {
            lhs: self.lhs.clone(),
            rhs: self.rhs.clone(),
            p: self.p,
            computed: crate::padic::clone_digits(&self.computed),
            tail: crate::padic::clone_digits(&self.tail),
        }
    }
}

impl Clone for MultiplicativePadicIntegerScaler {
    fn clone(&self) -> (r: Self)
        ensures
            r.model() == self.model(),
            r.inv() == self.inv(),
        decreases *self,
            2int,
    {
        MultiplicativePadicIntegerScaler { inner: self.inner.clone(), scale: self.scale }
    }
}

} // verus!
