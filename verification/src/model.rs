//! The mathematical model of a p-adic stream: a ghost mirror of the
//! producer tree, with spec-level digit and scale semantics for every
//! kind of producer. Digits are defined operationally, exactly as the
//! engine computes them: carry and borrow recursions for the additive
//! combinators, column convolution sums for multiplication, and the
//! long-division remainder chain for division.

use vstd::prelude::*;

verus! {

/// Cap on the leading-zero scan that normalizes the scale of a sum or
/// difference.
pub const NORM_CAP: u64 = 10;

/// Cap on the scan for the divisor's first nonzero digit.
pub const SCAN_BOUND: u64 = 1000;

/// Bound on the magnitude of any scale or alignment held by a producer.
pub const SCALE_BOUND: i64 = 0x20_0000;

/// Bound on the magnitude of a queried digit index.
pub const IDX_BOUND: i64 = 0x1000_0000_0000;

/// Headroom consumed by the long-division machinery: the divisor shift,
/// the operand alignments, and the normalization scans of the internal
/// remainder chain.
pub const DIV_MARGIN: i64 = 0x80_0000;

/// The structure of one p-adic number: a literal source, or an operator
/// over the models of its operands. Normalization amounts chosen at
/// construction time (`adj`, `k`, `uinv`) are part of the structure.
pub enum Model {
    /// Digits `digits[0]`, `digits[1]`, ... least significant first,
    /// zero beyond; scale 0.
    Finite { p: nat, digits: Seq<nat> },
    /// Digit at `i >= 0` is `cycle[i % len]`; scale 0.
    Repeating { p: nat, cycle: Seq<nat> },
    /// An integer-aligned view of `inner` lifted back to a number:
    /// digit at `i` is zero below `scale` and `inner`'s digit at
    /// `i - scale + align` from there on.
    Lift { inner: Box<Model>, align: int, scale: int },
    /// Sum of the operands aligned at the smaller scale, with carries
    /// propagating leftward; `adj` leading zero digits were stripped
    /// into the scale.
    Add { lhs: Box<Model>, rhs: Box<Model>, adj: nat },
    /// Difference of the operands aligned at the smaller scale, with
    /// borrows propagating leftward; `adj` as for `Add`.
    Sub { lhs: Box<Model>, rhs: Box<Model>, adj: nat },
    /// Product: convolution of the integer-aligned operand digits,
    /// at scale `scale(lhs) + scale(rhs)`.
    Mul { lhs: Box<Model>, rhs: Box<Model> },
    /// Quotient by long division: `k` is the index of the divisor's
    /// first nonzero aligned digit, `uinv` the modular inverse of that
    /// digit.
    Div { lhs: Box<Model>, rhs: Box<Model>, k: nat, uinv: nat },
}

/// How deeply divisions nest below this node.
pub open spec fn ddepth(m: Model) -> nat
    decreases m,
{
    match m {
        Model::Finite { .. } => 0,
        Model::Repeating { .. } => 0,
        Model::Lift { inner, .. } => ddepth(*inner),
        Model::Add { lhs, rhs, .. } => max_nat(ddepth(*lhs), ddepth(*rhs)),
        Model::Sub { lhs, rhs, .. } => max_nat(ddepth(*lhs), ddepth(*rhs)),
        Model::Mul { lhs, rhs } => max_nat(ddepth(*lhs), ddepth(*rhs)),
        Model::Div { lhs, rhs, .. } => 1 + max_nat(ddepth(*lhs), ddepth(*rhs)),
    }
}

/// The number of nodes of the model tree.
pub open spec fn msize(m: Model) -> nat
    decreases m,
{
    match m {
        Model::Finite { .. } => 1,
        Model::Repeating { .. } => 1,
        Model::Lift { inner, .. } => 1 + msize(*inner),
        Model::Add { lhs, rhs, .. } => 1 + msize(*lhs) + msize(*rhs),
        Model::Sub { lhs, rhs, .. } => 1 + msize(*lhs) + msize(*rhs),
        Model::Mul { lhs, rhs } => 1 + msize(*lhs) + msize(*rhs),
        Model::Div { lhs, rhs, .. } => 1 + msize(*lhs) + msize(*rhs),
    }
}

pub open spec fn max_nat(a: nat, b: nat) -> nat {
    if a >= b {
        a
    } else {
        b
    }
}

pub open spec fn min_int(a: int, b: int) -> int {
    if a <= b {
        a
    } else {
        b
    }
}

/// The base of the number, read off the leftmost leaf; well-formed
/// models use one base throughout.
pub open spec fn base_of(m: Model) -> nat
    decreases m,
{
    match m {
        Model::Finite { p, .. } => p,
        Model::Repeating { p, .. } => p,
        Model::Lift { inner, .. } => base_of(*inner),
        Model::Add { lhs, .. } => base_of(*lhs),
        Model::Sub { lhs, .. } => base_of(*lhs),
        Model::Mul { lhs, .. } => base_of(*lhs),
        Model::Div { lhs, .. } => base_of(*lhs),
    }
}

/// The scale: the smallest index at which the producer may hold a
/// nonzero digit.
pub open spec fn scale_of(m: Model) -> int
    decreases m,
{
    match m {
        Model::Finite { .. } => 0,
        Model::Repeating { .. } => 0,
        Model::Lift { scale, .. } => scale,
        Model::Add { lhs, rhs, adj } => min_int(scale_of(*lhs), scale_of(*rhs)) + adj,
        Model::Sub { lhs, rhs, adj } => min_int(scale_of(*lhs), scale_of(*rhs)) + adj,
        Model::Mul { lhs, rhs } => scale_of(*lhs) + scale_of(*rhs),
        Model::Div { lhs, rhs, k, .. } => scale_of(*lhs) - scale_of(*rhs) - k,
    }
}

/// The digit of the number at integer index `i`.
pub open spec fn digit_of(m: Model, i: int) -> nat
    decreases ddepth(m), msize(m), 0nat, 0nat,
{
    match m {
        Model::Finite { p, digits } => {
            if 0 <= i < digits.len() {
                digits[i]
            } else {
                0
            }
        },
        Model::Repeating { p, cycle } => {
            if i < 0 || cycle.len() == 0 {
                0
            } else {
                cycle[i % (cycle.len() as int)]
            }
        },
        Model::Lift { inner, align, scale } => {
            if i < scale {
                0
            } else {
                digit_of(*inner, i - scale + align)
            }
        },
        Model::Add { lhs, rhs, .. } => {
            let alpha = min_int(scale_of(*lhs), scale_of(*rhs));
            if i < alpha {
                0
            } else {
                add_raw(*lhs, *rhs, (i - alpha) as nat)
            }
        },
        Model::Sub { lhs, rhs, .. } => {
            let alpha = min_int(scale_of(*lhs), scale_of(*rhs));
            if i < alpha {
                0
            } else {
                sub_raw(*lhs, *rhs, (i - alpha) as nat)
            }
        },
        Model::Mul { lhs, rhs } => {
            let alpha = scale_of(*lhs) + scale_of(*rhs);
            if i < alpha {
                0
            } else {
                mul_raw(*lhs, *rhs, (i - alpha) as nat)
            }
        },
        Model::Div { lhs, rhs, k, uinv } => {
            let j = i - (scale_of(*lhs) - scale_of(*rhs)) + k;
            if j < 0 {
                0
            } else {
                quot_digit(*lhs, *rhs, k, uinv, j as nat)
            }
        },
    }
}

/// The carry entering column `j` of the aligned sum of `l` and `r`.
pub open spec fn add_carry_at(l: Model, r: Model, j: nat) -> nat
    decreases max_nat(ddepth(l), ddepth(r)), msize(l) + msize(r), j, 0nat,
{
    if j == 0 {
        0
    } else {
        let alpha = min_int(scale_of(l), scale_of(r));
        let t = digit_of(l, alpha + j - 1) + digit_of(r, alpha + j - 1) + add_carry_at(
            l,
            r,
            (j - 1) as nat,
        );
        if t >= base_of(l) {
            1
        } else {
            0
        }
    }
}

/// Column `j` of the aligned sum of `l` and `r`, carries applied.
pub open spec fn add_raw(l: Model, r: Model, j: nat) -> nat
    decreases max_nat(ddepth(l), ddepth(r)), msize(l) + msize(r), j, 1nat,
{
    let alpha = min_int(scale_of(l), scale_of(r));
    (((digit_of(l, alpha + j) + digit_of(r, alpha + j) + add_carry_at(l, r, j)) as int) % (base_of(
        l,
    ) as int)) as nat
}

/// The borrow entering column `j` of the aligned difference of `l` and
/// `r`.
pub open spec fn sub_borrow_at(l: Model, r: Model, j: nat) -> nat
    decreases max_nat(ddepth(l), ddepth(r)), msize(l) + msize(r), j, 0nat,
{
    if j == 0 {
        0
    } else {
        let alpha = min_int(scale_of(l), scale_of(r));
        let jj = j - 1;
        if digit_of(l, alpha + jj) < digit_of(r, alpha + jj) + sub_borrow_at(l, r, jj as nat) {
            1
        } else {
            0
        }
    }
}

/// Column `j` of the aligned difference of `l` and `r`, borrows applied.
pub open spec fn sub_raw(l: Model, r: Model, j: nat) -> nat
    decreases max_nat(ddepth(l), ddepth(r)), msize(l) + msize(r), j, 1nat,
{
    let alpha = min_int(scale_of(l), scale_of(r));
    ((digit_of(l, alpha + j) - digit_of(r, alpha + j) - sub_borrow_at(l, r, j)) % (base_of(
        l,
    ) as int)) as nat
}

/// Partial convolution of column `k`: the first `t` terms of
/// `sum over j of l[j] * r[k - j]` on the integer-aligned digits.
pub open spec fn conv_part(l: Model, r: Model, k: nat, t: nat) -> nat
    decreases max_nat(ddepth(l), ddepth(r)), msize(l) + msize(r), t, 0nat,
{
    if t == 0 {
        0
    } else {
        let j = (t - 1) as nat;
        conv_part(l, r, k, j) + digit_of(l, scale_of(l) + j) * digit_of(r, scale_of(r) + k - j)
    }
}

/// The value of the first `n` convolution columns:
/// `sum over c < n of conv(c) * p^c`.
pub open spec fn conv_sum(l: Model, r: Model, n: nat) -> nat
    decreases max_nat(ddepth(l), ddepth(r)), msize(l) + msize(r), n, 1nat,
{
    if n == 0 {
        0
    } else {
        let c = (n - 1) as nat;
        (conv_sum(l, r, c) as int + conv_part(l, r, c, c + 1) as int * vstd::arithmetic::power::pow(
            base_of(l) as int,
            c,
        )) as nat
    }
}

/// Column `j` of the integer-aligned product: the value of the columns
/// up to `j`, shifted down to column `j` and reduced modulo the base.
pub open spec fn mul_raw(l: Model, r: Model, j: nat) -> nat
    decreases max_nat(ddepth(l), ddepth(r)), msize(l) + msize(r), j + 1, 2nat,
{
    (((conv_sum(l, r, j + 1) as int) / vstd::arithmetic::power::pow(base_of(l) as int, j)) % (
    base_of(l) as int)) as nat
}

/// The leading-zero count of the aligned difference, capped: the first
/// column at or after `n`, up to `NORM_CAP`, whose difference digit is
/// nonzero.
pub open spec fn sub_adj_from(l: Model, r: Model, n: nat) -> nat
    decreases max_nat(ddepth(l), ddepth(r)), msize(l) + msize(r) + 1, (NORM_CAP - n) as int, 0nat,
{
    if n >= NORM_CAP {
        NORM_CAP as nat
    } else if sub_raw(l, r, n) != 0 {
        n
    } else {
        sub_adj_from(l, r, n + 1)
    }
}

/// As `sub_adj_from`, for the sum.
pub open spec fn add_adj_from(l: Model, r: Model, n: nat) -> nat
    decreases max_nat(ddepth(l), ddepth(r)), msize(l) + msize(r) + 1, (NORM_CAP - n) as int, 1nat,
{
    if n >= NORM_CAP {
        NORM_CAP as nat
    } else if add_raw(l, r, n) != 0 {
        n
    } else {
        add_adj_from(l, r, n + 1)
    }
}

/// The lazy stream subtracted from the remainder at one long-division
/// step: the single-digit literal `q` at column `m - 1`, multiplied by
/// the divisor's unit part (its aligned digits from `k` on).
pub open spec fn rem_product(l: Model, r: Model, k: nat, q: nat, m: nat) -> Model {
    Model::Mul {
        lhs: Box::new(
            Model::Finite {
                p: base_of(l),
                digits: Seq::new(m, |t: int| if t == m - 1 { q } else { 0nat }),
            },
        ),
        rhs: Box::new(Model::Lift { inner: Box::new(r), align: scale_of(r) + k, scale: 0 }),
    }
}

/// The model of the remainder stream after `m` long-division steps of
/// `l` by the unit part of `r` (the divisor's aligned digits from index
/// `k` on). Each step with a nonzero quotient digit `q` subtracts
/// `q * p^step * unit-part-of-r`, built with the same additive and
/// multiplicative combinators the engine uses.
pub open spec fn rem_model(l: Model, r: Model, k: nat, uinv: nat, m: nat) -> Model
    decreases 1 + max_nat(ddepth(l), ddepth(r)), 0nat, m, 0nat,
{
    if m == 0 {
        Model::Lift { inner: Box::new(l), align: scale_of(l), scale: 0 }
    } else {
        let prev = rem_model(l, r, k, uinv, (m - 1) as nat);
        let q = quot_digit(l, r, k, uinv, (m - 1) as nat);
        if q == 0 {
            prev
        } else if ddepth(prev) <= max_nat(ddepth(l), ddepth(r)) {
            let product = rem_product(l, r, k, q, m);
            proof {
                assert(product is Mul);
                assert(ddepth(*product->Mul_lhs) == 0);
                assert(ddepth(*product->Mul_rhs) == ddepth(r));
                assert(ddepth(product) == max_nat(0, ddepth(r)));
            }
            Model::Sub {
                lhs: Box::new(prev),
                rhs: Box::new(product),
                adj: sub_adj_from(prev, product, 0),
            }
        } else {
            prev
        }
    }
}

/// Quotient digit `m` of the long division: the remainder's digit at
/// column `m` times the inverse of the divisor's unit digit, modulo the
/// base.
pub open spec fn quot_digit(l: Model, r: Model, k: nat, uinv: nat, m: nat) -> nat
    decreases 1 + max_nat(ddepth(l), ddepth(r)), 0nat, m, 1nat,
{
    let w = rem_model(l, r, k, uinv, m);
    if ddepth(w) <= max_nat(ddepth(l), ddepth(r)) {
        let rd = digit_of(w, m as int);
        if rd == 0 {
            0
        } else {
            (rd * uinv) % base_of(l)
        }
    } else {
        0
    }
}

/// Well-formedness: digits of literals fit the base, cycles are
/// nonempty, both operands of an operator carry the same base, stored
/// normalization amounts describe actual leading zeros, division has a
/// prime base and a divisor with a nonzero aligned digit at `k`, with
/// `uinv` inverse to it, and every scale and alignment is bounded.
pub open spec fn wf(m: Model) -> bool
    decreases msize(m),
{
    match m {
        Model::Finite { p, digits } => {
            &&& p >= 1
            &&& forall|t: int| 0 <= t < digits.len() ==> #[trigger] digits[t] < p
        },
        Model::Repeating { p, cycle } => {
            &&& p >= 1
            &&& cycle.len() >= 1
            &&& forall|t: int| 0 <= t < cycle.len() ==> #[trigger] cycle[t] < p
        },
        Model::Lift { inner, align, scale } => {
            &&& wf(*inner)
            &&& -2 * SCALE_BOUND <= align <= 2 * SCALE_BOUND
            &&& -SCALE_BOUND <= scale <= SCALE_BOUND
        },
        Model::Add { lhs, rhs, adj } => {
            &&& wf(*lhs)
            &&& wf(*rhs)
            &&& base_of(*lhs) == base_of(*rhs)
            &&& adj <= NORM_CAP
            &&& forall|n: nat| n < adj ==> #[trigger] add_raw(*lhs, *rhs, n) == 0
            &&& -SCALE_BOUND <= min_int(scale_of(*lhs), scale_of(*rhs))
            &&& min_int(scale_of(*lhs), scale_of(*rhs)) + adj <= SCALE_BOUND
        },
        Model::Sub { lhs, rhs, adj } => {
            &&& wf(*lhs)
            &&& wf(*rhs)
            &&& base_of(*lhs) == base_of(*rhs)
            &&& adj <= NORM_CAP
            &&& forall|n: nat| n < adj ==> #[trigger] sub_raw(*lhs, *rhs, n) == 0
            &&& -SCALE_BOUND <= min_int(scale_of(*lhs), scale_of(*rhs))
            &&& min_int(scale_of(*lhs), scale_of(*rhs)) + adj <= SCALE_BOUND
        },
        Model::Mul { lhs, rhs } => {
            &&& wf(*lhs)
            &&& wf(*rhs)
            &&& base_of(*lhs) == base_of(*rhs)
            &&& -SCALE_BOUND <= scale_of(*lhs) + scale_of(*rhs) <= SCALE_BOUND
        },
        Model::Div { lhs, rhs, k, uinv } => {
            &&& wf(*lhs)
            &&& wf(*rhs)
            &&& base_of(*lhs) == base_of(*rhs)
            &&& spec_prime(base_of(*lhs) as int)
            &&& k <= SCAN_BOUND
            &&& forall|j: nat| j < k ==> #[trigger] digit_of(*rhs, scale_of(*rhs) + j) == 0
            &&& digit_of(*rhs, scale_of(*rhs) + k) != 0
            &&& uinv < base_of(*lhs)
            &&& (digit_of(*rhs, scale_of(*rhs) + k) * uinv) % base_of(*lhs) == 1
            &&& -SCALE_BOUND <= scale_of(*lhs) - scale_of(*rhs) - k <= SCALE_BOUND
        },
    }
}

pub use crate::discrete::spec_prime;

/// A well-formed number has a positive base.
pub proof fn lemma_base_pos(m: Model)
    requires
        wf(m),
    ensures
        base_of(m) >= 1,
    decreases msize(m),
{
    match m {
        Model::Finite { .. } => {},
        Model::Repeating { .. } => {},
        Model::Lift { inner, .. } => lemma_base_pos(*inner),
        Model::Add { lhs, .. } => lemma_base_pos(*lhs),
        Model::Sub { lhs, .. } => lemma_base_pos(*lhs),
        Model::Mul { lhs, .. } => lemma_base_pos(*lhs),
        Model::Div { lhs, .. } => lemma_base_pos(*lhs),
    }
}

/// Every digit of a well-formed number is a residue of its base.
pub proof fn lemma_digit_range(m: Model, i: int)
    requires
        wf(m),
    ensures
        digit_of(m, i) < base_of(m),
    decreases msize(m),
{
    lemma_base_pos(m);
    let p = base_of(m) as int;
    match m {
        Model::Finite { p: p2, digits } => {
            assert(base_of(m) == p2);
            assert(digit_of(m, i) < p2);
        },
        Model::Repeating { p: p2, cycle } => {
            if i >= 0 {
                vstd::arithmetic::div_mod::lemma_mod_bound(i, cycle.len() as int);
            }
            assert(digit_of(m, i) < p2);
        },
        Model::Lift { inner, align, scale } => {
            if i >= scale {
                lemma_digit_range(*inner, i - scale + align);
            }
            assert(digit_of(m, i) < base_of(m));
        },
        Model::Add { lhs, rhs, .. } => {
            {
                let alpha = min_int(scale_of(*lhs), scale_of(*rhs));
                if i >= alpha {
                    vstd::arithmetic::div_mod::lemma_mod_bound(
                        (digit_of(*lhs, i) + digit_of(*rhs, i) + add_carry_at(
                            *lhs,
                            *rhs,
                            (i - alpha) as nat,
                        )) as int,
                        p,
                    );
                }
            }
            assert(base_of(m) == base_of(*lhs));
            let alpha2 = min_int(scale_of(*lhs), scale_of(*rhs));
            if i < alpha2 {
                assert(digit_of(m, i) == 0);
            } else {
                assert(digit_of(m, i) == add_raw(*lhs, *rhs, (i - alpha2) as nat));
                assert(add_raw(*lhs, *rhs, (i - alpha2) as nat) < base_of(m));
            }
            assert(digit_of(m, i) < base_of(m));
        },
        Model::Sub { lhs, rhs, .. } => {
            {
                let alpha = min_int(scale_of(*lhs), scale_of(*rhs));
                if i >= alpha {
                    let j = (i - alpha) as nat;
                    vstd::arithmetic::div_mod::lemma_mod_bound(
                        digit_of(*lhs, alpha + j) - digit_of(*rhs, alpha + j) - sub_borrow_at(
                            *lhs,
                            *rhs,
                            j,
                        ),
                        p,
                    );
                }
            }
            let alpha2 = min_int(scale_of(*lhs), scale_of(*rhs));
            if i >= alpha2 {
                assert(digit_of(m, i) == sub_raw(*lhs, *rhs, (i - alpha2) as nat));
                assert(sub_raw(*lhs, *rhs, (i - alpha2) as nat) < base_of(m));
            }
            assert(digit_of(m, i) < base_of(m));
        },
        Model::Mul { lhs, rhs } => {
            {
                let alpha = scale_of(*lhs) + scale_of(*rhs);
                if i >= alpha {
                    let j = (i - alpha) as nat;
                    vstd::arithmetic::div_mod::lemma_mod_bound(
                        conv_sum(*lhs, *rhs, j + 1) as int / vstd::arithmetic::power::pow(p, j),
                        p,
                    );
                }
            }
            let alpha2 = scale_of(*lhs) + scale_of(*rhs);
            if i >= alpha2 {
                assert(digit_of(m, i) == mul_raw(*lhs, *rhs, (i - alpha2) as nat));
                assert(mul_raw(*lhs, *rhs, (i - alpha2) as nat) < base_of(m));
            }
            assert(digit_of(m, i) < base_of(m));
        },
        Model::Div { lhs, rhs, k, uinv } => {
            let j = i - (scale_of(*lhs) - scale_of(*rhs)) + k;
            if j >= 0 {
                let w = rem_model(*lhs, *rhs, k, uinv, j as nat);
                if ddepth(w) <= max_nat(ddepth(*lhs), ddepth(*rhs)) {
                    let rd = digit_of(w, j);
                    if rd != 0 {
                        vstd::arithmetic::div_mod::lemma_mod_bound((rd * uinv) as int, p);
                    }
                }
                assert(digit_of(m, i) == quot_digit(*lhs, *rhs, k, uinv, j as nat));
                assert(quot_digit(*lhs, *rhs, k, uinv, j as nat) < base_of(m));
            }
            assert(digit_of(m, i) < base_of(m));
        },
    }
}

/// The machine-limit conditions under which a quotient of `l` by `r`
/// can be built: both operands admit queries well past the scan bound,
/// and the difference of their scales leaves room for the divisor's
/// valuation.
pub open spec fn div_args_ok(l: Model, r: Model) -> bool {
    &&& hi_allow(l) >= 4 * SCALE_BOUND
    &&& hi_allow(r) >= 4 * SCALE_BOUND
    &&& -SCALE_BOUND <= scale_of(l) - scale_of(r) - SCAN_BOUND
    &&& scale_of(l) - scale_of(r) <= SCALE_BOUND as int
}

/// Every model tree has at least one node.
pub proof fn lemma_msize_pos(m: Model)
    ensures
        msize(m) >= 1,
{
    match m {
        Model::Finite { .. } => {},
        Model::Repeating { .. } => {},
        Model::Lift { .. } => {},
        Model::Add { .. } => {},
        Model::Sub { .. } => {},
        Model::Mul { .. } => {},
        Model::Div { .. } => {},
    }
}

/// The scale of a well-formed number is bounded.
pub proof fn lemma_scale_bounded(m: Model)
    requires
        wf(m),
    ensures
        -SCALE_BOUND <= scale_of(m) <= SCALE_BOUND,
{
}

/// No producer admits queries beyond the global index bound.
pub proof fn lemma_hi_allow_le(m: Model)
    ensures
        hi_allow(m) <= IDX_BOUND as int,
    decreases m,
{
    match m {
        Model::Finite { .. } => {},
        Model::Repeating { .. } => {},
        Model::Lift { .. } => {},
        Model::Add { lhs, rhs, .. } => {
            lemma_hi_allow_le(*lhs);
        },
        Model::Sub { lhs, rhs, .. } => {
            lemma_hi_allow_le(*lhs);
        },
        Model::Mul { .. } => {},
        Model::Div { lhs, rhs, .. } => {
            lemma_hi_allow_le(*lhs);
        },
    }
}

/// Digits below the scale are always zero.
pub proof fn lemma_digit_below_scale(m: Model, i: int)
    requires
        wf(m),
        i < scale_of(m),
    ensures
        digit_of(m, i) == 0,
{
    match m {
        Model::Finite { .. } => {},
        Model::Repeating { .. } => {},
        Model::Lift { .. } => {},
        Model::Add { lhs, rhs, adj } => {
            let alpha = min_int(scale_of(*lhs), scale_of(*rhs));
            if i >= alpha {
                assert(((i - alpha) as nat) < adj);
                assert(add_raw(*lhs, *rhs, (i - alpha) as nat) == 0);
            }
        },
        Model::Sub { lhs, rhs, adj } => {
            let alpha = min_int(scale_of(*lhs), scale_of(*rhs));
            if i >= alpha {
                assert(((i - alpha) as nat) < adj);
                assert(sub_raw(*lhs, *rhs, (i - alpha) as nat) == 0);
            }
        },
        Model::Mul { .. } => {},
        Model::Div { .. } => {},
    }
}

} // verus!

verus! {

/// Saturation point for the headroom probe.
pub const ALLOW_SAT: i64 = -0x4_0000_0000_0000;

/// The headroom probe's exact result: the same recursion as `hi_allow`,
/// saturating at `ALLOW_SAT` so that the machine computation never
/// overflows. Wherever it does not saturate it is a lower bound on
/// `hi_allow`.
pub open spec fn est_allow(m: Model) -> int
    decreases m,
{
    let raw = match m {
        Model::Finite { .. } => IDX_BOUND as int,
        Model::Repeating { .. } => IDX_BOUND as int,
        Model::Lift { inner, align, scale } => {
            let x = est_allow(*inner);
            if x == ALLOW_SAT {
                ALLOW_SAT as int
            } else {
                min_int(IDX_BOUND as int, x + scale - align)
            }
        },
        Model::Add { lhs, rhs, .. } => {
            let x = est_allow(*lhs);
            let y = est_allow(*rhs);
            if x == ALLOW_SAT || y == ALLOW_SAT {
                ALLOW_SAT as int
            } else {
                min_int(x, y)
            }
        },
        Model::Sub { lhs, rhs, .. } => {
            let x = est_allow(*lhs);
            let y = est_allow(*rhs);
            if x == ALLOW_SAT || y == ALLOW_SAT {
                ALLOW_SAT as int
            } else {
                min_int(x, y)
            }
        },
        Model::Mul { lhs, rhs } => {
            let xa = est_allow(*lhs);
            let ya = est_allow(*rhs);
            if xa == ALLOW_SAT || ya == ALLOW_SAT {
                ALLOW_SAT as int
            } else {
                min_int(IDX_BOUND as int, min_int(xa + scale_of(*rhs), ya + scale_of(*lhs)))
            }
        },
        Model::Div { lhs, rhs, .. } => {
            let x = est_allow(*lhs);
            let y = est_allow(*rhs);
            if x == ALLOW_SAT || y == ALLOW_SAT {
                ALLOW_SAT as int
            } else {
                min_int(x, y) - (DIV_MARGIN as int)
            }
        },
    };
    if raw < ALLOW_SAT {
        ALLOW_SAT as int
    } else {
        raw
    }
}

/// The largest index that may be queried of this producer: recursive
/// queries add and subtract scales and alignments on the way down, so
/// the admissible window shrinks by exactly those offsets.
pub open spec fn hi_allow(m: Model) -> int
    decreases m,
{
    match m {
        Model::Finite { .. } => IDX_BOUND as int,
        Model::Repeating { .. } => IDX_BOUND as int,
        Model::Lift { inner, align, scale } => min_int(
            IDX_BOUND as int,
            hi_allow(*inner) + scale - align,
        ),
        Model::Add { lhs, rhs, .. } => min_int(hi_allow(*lhs), hi_allow(*rhs)),
        Model::Sub { lhs, rhs, .. } => min_int(hi_allow(*lhs), hi_allow(*rhs)),
        Model::Mul { lhs, rhs } => min_int(
            IDX_BOUND as int,
            min_int(hi_allow(*lhs) + scale_of(*rhs), hi_allow(*rhs) + scale_of(*lhs)),
        ),
        Model::Div { lhs, rhs, .. } => min_int(hi_allow(*lhs), hi_allow(*rhs)) - (DIV_MARGIN
            as int),
    }
}

} // verus!
