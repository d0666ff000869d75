//! Algebraic laws of the digit streams, stated over the models that
//! every producer's contract speaks of: adding or subtracting zero
//! leaves every digit unchanged, subtracting a number from itself gives
//! the zero stream, addition and multiplication are commutative digit
//! for digit, and the scale of a product or quotient follows the
//! operands' scales exactly while a sum's scale moves past the common
//! alignment only by the stripped leading zeros.

use vstd::prelude::*;

use crate::model::{
    add_carry_at, add_raw, base_of, conv_part, conv_sum, ddepth, digit_of, lemma_base_pos,
    lemma_digit_below_scale, lemma_digit_range, min_int, mul_raw, quot_digit, rem_model,
    rem_product, scale_of, sub_borrow_at, sub_raw, wf, Model, NORM_CAP, SCALE_BOUND, SCAN_BOUND,
};
use crate::padic_div::{
    lemma_quot_lt, lemma_rem_ddepth, lemma_rem_product_facts, lemma_rem_product_wf,
    lemma_rem_scale, lemma_rem_wf,
};
use vstd::arithmetic::power::pow;

verus! {

/// The value of the digits of `m` from index `lo` upward, `n` of them:
/// `sum of digit(lo + t) * base^t`.
pub open spec fn prefix_val(m: Model, lo: int, n: nat) -> int
    decreases n,
{
    if n == 0 {
        0
    } else {
        prefix_val(m, lo, (n - 1) as nat) + digit_of(m, lo + n - 1) * pow(
            base_of(m) as int,
            (n - 1) as nat,
        )
    }
}

/// The zero stream of base `p`: the finite literal with no digits.
pub open spec fn zero_model(p: nat) -> Model {
    Model::Finite { p, digits: Seq::<nat>::empty() }
}

/// Adding zero never carries.
proof fn lemma_add_zero_carry(a: Model, j: nat)
    requires
        wf(a),
    ensures
        add_carry_at(a, zero_model(base_of(a)), j) == 0,
    decreases j,
{
    let z = zero_model(base_of(a));
    lemma_base_pos(a);
    if j > 0 {
        lemma_add_zero_carry(a, (j - 1) as nat);
        let alpha = min_int(scale_of(a), scale_of(z));
        lemma_digit_range(a, alpha + j - 1);
        assert(digit_of(z, alpha + j - 1) == 0);
    }
}

/// Adding the zero stream leaves every digit unchanged.
pub proof fn lemma_add_zero_identity(a: Model, adj: nat, i: int)
    requires
        wf(a),
    ensures
        digit_of(Model::Add { lhs: Box::new(a), rhs: Box::new(zero_model(base_of(a))), adj }, i)
            == digit_of(a, i),
{
    let z = zero_model(base_of(a));
    let m = Model::Add { lhs: Box::new(a), rhs: Box::new(z), adj };
    let alpha = min_int(scale_of(a), 0);
    lemma_base_pos(a);
    if i < alpha {
        lemma_digit_below_scale(a, i);
    } else {
        let j = (i - alpha) as nat;
        lemma_add_zero_carry(a, j);
        lemma_digit_range(a, i);
        vstd::arithmetic::div_mod::lemma_small_mod(
            digit_of(a, alpha + j),
            base_of(a),
        );
        assert(digit_of(m, i) == add_raw(a, z, j));
    }
}

/// Subtracting zero never borrows.
proof fn lemma_sub_zero_borrow(a: Model, j: nat)
    requires
        wf(a),
    ensures
        sub_borrow_at(a, zero_model(base_of(a)), j) == 0,
    decreases j,
{
    if j > 0 {
        lemma_sub_zero_borrow(a, (j - 1) as nat);
        let z = zero_model(base_of(a));
        let alpha = min_int(scale_of(a), scale_of(z));
        assert(digit_of(z, alpha + j - 1) == 0);
    }
}

/// Subtracting the zero stream leaves every digit unchanged.
pub proof fn lemma_sub_zero_identity(a: Model, adj: nat, i: int)
    requires
        wf(a),
    ensures
        digit_of(Model::Sub { lhs: Box::new(a), rhs: Box::new(zero_model(base_of(a))), adj }, i)
            == digit_of(a, i),
{
    let z = zero_model(base_of(a));
    let m = Model::Sub { lhs: Box::new(a), rhs: Box::new(z), adj };
    let alpha = min_int(scale_of(a), 0);
    lemma_base_pos(a);
    if i < alpha {
        lemma_digit_below_scale(a, i);
    } else {
        let j = (i - alpha) as nat;
        lemma_sub_zero_borrow(a, j);
        lemma_digit_range(a, i);
        vstd::arithmetic::div_mod::lemma_small_mod(
            digit_of(a, alpha + j),
            base_of(a),
        );
        assert(digit_of(m, i) == sub_raw(a, z, j));
    }
}

/// Subtracting a number from itself never borrows.
proof fn lemma_sub_self_borrow(a: Model, j: nat)
    ensures
        sub_borrow_at(a, a, j) == 0,
    decreases j,
{
    if j > 0 {
        lemma_sub_self_borrow(a, (j - 1) as nat);
    }
}

/// Every digit of `a - a` is zero.
pub proof fn lemma_sub_self_zero(a: Model, adj: nat, i: int)
    requires
        wf(a),
    ensures
        digit_of(Model::Sub { lhs: Box::new(a), rhs: Box::new(a), adj }, i) == 0,
{
    let m = Model::Sub { lhs: Box::new(a), rhs: Box::new(a), adj };
    let alpha = min_int(scale_of(a), scale_of(a));
    lemma_base_pos(a);
    if i >= alpha {
        let j = (i - alpha) as nat;
        lemma_sub_self_borrow(a, j);
        vstd::arithmetic::div_mod::lemma_mod_self_0(base_of(a) as int);
        assert(digit_of(m, i) == sub_raw(a, a, j));
        assert(sub_raw(a, a, j) == ((0int) % (base_of(a) as int)) as nat);
    }
}

/// The carry of a sum does not depend on the operands' order.
proof fn lemma_add_carry_comm(a: Model, b: Model, j: nat)
    requires
        base_of(a) == base_of(b),
    ensures
        add_carry_at(a, b, j) == add_carry_at(b, a, j),
    decreases j,
{
    if j > 0 {
        lemma_add_carry_comm(a, b, (j - 1) as nat);
    }
}

/// Addition is commutative digit for digit, whatever normalization
/// amounts the two orders chose.
pub proof fn lemma_add_comm(a: Model, b: Model, adj1: nat, adj2: nat, i: int)
    requires
        base_of(a) == base_of(b),
    ensures
        digit_of(Model::Add { lhs: Box::new(a), rhs: Box::new(b), adj: adj1 }, i) == digit_of(
            Model::Add { lhs: Box::new(b), rhs: Box::new(a), adj: adj2 },
            i,
        ),
{
    let alpha = min_int(scale_of(a), scale_of(b));
    if i >= alpha {
        let j = (i - alpha) as nat;
        lemma_add_carry_comm(a, b, j);
        assert(add_raw(a, b, j) == add_raw(b, a, j));
    }
}

/// Below the sum's stripped range no carry arises and the second
/// operand's digits are all zero: the first operand contributes nothing
/// there (it is below its own scale), so each stripped zero column
/// forces the second operand's digit to zero in turn.
proof fn lemma_round_trip_low(a: Model, b: Model, adj1: nat, k: nat)
    requires
        wf(a),
        wf(b),
        base_of(a) == base_of(b),
        wf(Model::Add { lhs: Box::new(a), rhs: Box::new(b), adj: adj1 }),
        k <= adj1,
        min_int(scale_of(a), scale_of(b)) + k <= scale_of(a),
    ensures
        add_carry_at(a, b, k) == 0,
        forall|t: nat|
            t < k ==> #[trigger] digit_of(b, min_int(scale_of(a), scale_of(b)) + t) == 0,
    decreases k,
{
    let alpha = min_int(scale_of(a), scale_of(b));
    let p = base_of(a);
    lemma_base_pos(a);
    if k > 0 {
        let t = (k - 1) as nat;
        lemma_round_trip_low(a, b, adj1, t);
        assert(add_raw(a, b, t) == 0);
        lemma_digit_below_scale(a, alpha + t);
        lemma_digit_range(b, alpha + t);
        let db = digit_of(b, alpha + t);
        assert(add_raw(a, b, t) == (((0 + db + 0) as int) % (p as int)) as nat);
        vstd::arithmetic::div_mod::lemma_small_mod(db, p);
        assert(db == 0);
        assert(add_carry_at(a, b, k) == 0);
        assert forall|t2: nat| t2 < k implies #[trigger] digit_of(b, alpha + t2) == 0 by {
            if t2 < t {
            } else {
                assert(t2 == t);
            }
        }
    }
}

/// Column by column, subtracting `a` back out of the sum mirrors the
/// addition: the subtraction's borrow equals the addition's carry at
/// the same column, and each difference digit is `b`'s digit there.
proof fn lemma_round_trip_col(a: Model, b: Model, adj1: nat, j: nat)
    requires
        wf(a),
        wf(b),
        base_of(a) == base_of(b),
        wf(Model::Add { lhs: Box::new(a), rhs: Box::new(b), adj: adj1 }),
    ensures
        ({
            let c = Model::Add { lhs: Box::new(a), rhs: Box::new(b), adj: adj1 };
            let alpha1 = min_int(scale_of(a), scale_of(b));
            let alpha2 = min_int(scale_of(c), scale_of(a));
            let g = (alpha2 - alpha1) as nat;
            &&& sub_borrow_at(c, a, j) == add_carry_at(a, b, j + g)
            &&& sub_raw(c, a, j) == digit_of(b, alpha2 + j)
        }),
    decreases j,
{
    let c = Model::Add { lhs: Box::new(a), rhs: Box::new(b), adj: adj1 };
    let p = base_of(a) as int;
    lemma_base_pos(a);
    let alpha1 = min_int(scale_of(a), scale_of(b));
    let alpha2 = min_int(scale_of(c), scale_of(a));
    assert(scale_of(c) == alpha1 + adj1);
    assert(alpha1 <= alpha2);
    let g = (alpha2 - alpha1) as nat;
    assert(g <= adj1);
    assert(alpha1 + g <= scale_of(a));
    if j == 0 {
        lemma_round_trip_low(a, b, adj1, g);
        assert(sub_borrow_at(c, a, 0) == 0);
    } else {
        let j1 = (j - 1) as nat;
        lemma_round_trip_col(a, b, adj1, j1);
        let i1 = alpha2 + j1;
        let da = digit_of(a, i1);
        let db = digit_of(b, i1);
        let carry = add_carry_at(a, b, j1 + g);
        lemma_digit_range(a, i1);
        lemma_digit_range(b, i1);
        lemma_add_carry_bit(a, b, j1 + g);
        assert(digit_of(c, i1) == add_raw(a, b, (j1 + g) as nat));
        let s = da + db + carry;
        assert(add_raw(a, b, j1 + g) == ((s as int) % p) as nat);
        if s >= p {
            vstd::arithmetic::div_mod::lemma_mod_sub_multiples_vanish(s as int, p);
            vstd::arithmetic::div_mod::lemma_small_mod((s - p) as nat, p as nat);
            assert(digit_of(c, i1) == s - p);
            assert(add_carry_at(a, b, j + g) == 1);
            assert(digit_of(c, i1) < da + sub_borrow_at(c, a, j1));
            assert(sub_borrow_at(c, a, j) == 1);
        } else {
            vstd::arithmetic::div_mod::lemma_small_mod(s, p as nat);
            assert(digit_of(c, i1) == s);
            assert(add_carry_at(a, b, j + g) == 0);
            assert(digit_of(c, i1) >= da + sub_borrow_at(c, a, j1));
            assert(sub_borrow_at(c, a, j) == 0);
        }
    }
    // with the borrow settled, the difference digit at column `j`
    // reduces to `b`'s digit there
    let i = alpha2 + j;
    let da2 = digit_of(a, i);
    let db2 = digit_of(b, i);
    let carry2 = add_carry_at(a, b, j + g);
    lemma_digit_range(a, i);
    lemma_digit_range(b, i);
    lemma_add_carry_bit(a, b, j + g);
    assert(digit_of(c, i) == add_raw(a, b, (j + g) as nat));
    let s2 = da2 + db2 + carry2;
    assert(add_raw(a, b, j + g) == ((s2 as int) % p) as nat);
    if s2 >= p {
        vstd::arithmetic::div_mod::lemma_mod_sub_multiples_vanish(s2 as int, p);
        vstd::arithmetic::div_mod::lemma_small_mod((s2 - p) as nat, p as nat);
        assert(digit_of(c, i) == s2 - p);
        assert(digit_of(c, i) - da2 - sub_borrow_at(c, a, j) == db2 - p);
        vstd::arithmetic::div_mod::lemma_mod_add_multiples_vanish(db2 - p, p);
        vstd::arithmetic::div_mod::lemma_small_mod(db2 as nat, p as nat);
        assert(sub_raw(c, a, j) == db2);
    } else {
        vstd::arithmetic::div_mod::lemma_small_mod(s2, p as nat);
        assert(digit_of(c, i) == s2);
        assert(digit_of(c, i) - da2 - sub_borrow_at(c, a, j) == db2);
        vstd::arithmetic::div_mod::lemma_small_mod(db2 as nat, p as nat);
        assert(sub_raw(c, a, j) == db2);
    }
}

/// Adding a number and then subtracting it back restores the other
/// operand digit for digit: every digit of `(a + b) - a` is the
/// corresponding digit of `b`, whatever normalization amounts the two
/// operators chose.
pub proof fn lemma_add_sub_round_trip(a: Model, b: Model, adj1: nat, adj2: nat, i: int)
    requires
        wf(a),
        wf(b),
        base_of(a) == base_of(b),
        wf(Model::Add { lhs: Box::new(a), rhs: Box::new(b), adj: adj1 }),
    ensures
        digit_of(
            Model::Sub {
                lhs: Box::new(Model::Add { lhs: Box::new(a), rhs: Box::new(b), adj: adj1 }),
                rhs: Box::new(a),
                adj: adj2,
            },
            i,
        ) == digit_of(b, i),
{
    let c = Model::Add { lhs: Box::new(a), rhs: Box::new(b), adj: adj1 };
    let m = Model::Sub { lhs: Box::new(c), rhs: Box::new(a), adj: adj2 };
    let alpha1 = min_int(scale_of(a), scale_of(b));
    let alpha2 = min_int(scale_of(c), scale_of(a));
    assert(scale_of(c) == alpha1 + adj1);
    assert(alpha1 <= alpha2);
    let g = (alpha2 - alpha1) as nat;
    if i < alpha2 {
        assert(digit_of(m, i) == 0);
        if i < alpha1 {
            assert(i < scale_of(b));
            lemma_digit_below_scale(b, i);
        } else {
            lemma_round_trip_low(a, b, adj1, g);
            let t = (i - alpha1) as nat;
            assert(t < g);
            assert(digit_of(b, alpha1 + t) == 0);
        }
    } else {
        let j = (i - alpha2) as nat;
        lemma_round_trip_col(a, b, adj1, j);
        assert(digit_of(m, i) == sub_raw(c, a, j));
        assert(alpha2 + j == i);
    }
}

/// The convolution terms of column `k` from offset `t` upward.
spec fn conv_from(a: Model, b: Model, k: nat, t: nat) -> nat
    decreases (k + 1 - t) as int,
{
    if t > k {
        0
    } else {
        digit_of(a, scale_of(a) + t) * digit_of(b, scale_of(b) + k - t) + conv_from(
            a,
            b,
            k,
            t + 1,
        )
    }
}

/// A column splits into its lower and upper parts.
proof fn lemma_conv_split(a: Model, b: Model, k: nat, t: nat)
    requires
        t <= k + 1,
    ensures
        conv_part(a, b, k, t) + conv_from(a, b, k, t) == conv_part(a, b, k, k + 1),
    decreases (k + 1 - t) as int,
{
    if t == k + 1 {
        assert(conv_from(a, b, k, t) == 0);
    } else {
        lemma_conv_split(a, b, k, t + 1);
        assert(conv_part(a, b, k, t + 1) == conv_part(a, b, k, t) + digit_of(a, scale_of(a) + t)
            * digit_of(b, scale_of(b) + k - t));
    }
}

/// The upper part of a column is the swapped column's lower part.
proof fn lemma_conv_from_swap(a: Model, b: Model, k: nat, t: nat)
    requires
        t <= k + 1,
    ensures
        conv_from(a, b, k, t) == conv_part(b, a, k, (k + 1 - t) as nat),
    decreases (k + 1 - t) as int,
{
    if t == k + 1 {
    } else {
        lemma_conv_from_swap(a, b, k, t + 1);
        let u = (k - t) as nat;
        assert(conv_from(a, b, k, t) == digit_of(a, scale_of(a) + t) * digit_of(
            b,
            scale_of(b) + k - t,
        ) + conv_from(a, b, k, t + 1));
        assert(conv_from(a, b, k, t + 1) == conv_part(b, a, k, u));
        assert(conv_part(b, a, k, u + 1) == conv_part(b, a, k, u) + digit_of(b, scale_of(b) + u)
            * digit_of(a, scale_of(a) + k - u));
        assert(digit_of(b, scale_of(b) + u) * digit_of(a, scale_of(a) + k - u) == digit_of(
            a,
            scale_of(a) + t,
        ) * digit_of(b, scale_of(b) + k - t)) by (nonlinear_arith)
            requires
                digit_of(b, scale_of(b) + u) == digit_of(b, scale_of(b) + k - t),
                digit_of(a, scale_of(a) + k - u) == digit_of(a, scale_of(a) + t),
        ;
        assert((k + 1 - t) as nat == u + 1);
    }
}

/// Whole convolution columns do not depend on the operands' order.
proof fn lemma_conv_comm(a: Model, b: Model, k: nat)
    ensures
        conv_part(a, b, k, k + 1) == conv_part(b, a, k, k + 1),
{
    lemma_conv_split(a, b, k, 0);
    lemma_conv_from_swap(a, b, k, 0);
}

/// The convolution value is symmetric.
proof fn lemma_conv_sum_comm(a: Model, b: Model, n: nat)
    requires
        base_of(a) == base_of(b),
    ensures
        conv_sum(a, b, n) == conv_sum(b, a, n),
    decreases n,
{
    if n > 0 {
        lemma_conv_sum_comm(a, b, (n - 1) as nat);
        lemma_conv_comm(a, b, (n - 1) as nat);
    }
}

/// Multiplication is commutative digit for digit.
pub proof fn lemma_mul_comm(a: Model, b: Model, i: int)
    requires
        base_of(a) == base_of(b),
    ensures
        digit_of(Model::Mul { lhs: Box::new(a), rhs: Box::new(b) }, i) == digit_of(
            Model::Mul { lhs: Box::new(b), rhs: Box::new(a) },
            i,
        ),
{
    let alpha = scale_of(a) + scale_of(b);
    if i >= alpha {
        let j = (i - alpha) as nat;
        lemma_conv_sum_comm(a, b, j + 1);
        assert(mul_raw(a, b, j) == mul_raw(b, a, j));
    }
}

/// The scale of a product is exactly the sum of the operands' scales.
pub proof fn lemma_scale_mul(a: Model, b: Model)
    ensures
        scale_of(Model::Mul { lhs: Box::new(a), rhs: Box::new(b) }) == scale_of(a) + scale_of(b),
{
}

/// The scale of a quotient is the difference of the operands' scales
/// less the divisor's valuation `k`; a well-formed quotient's `k` is
/// the index of the divisor's first nonzero aligned digit.
pub proof fn lemma_scale_div(a: Model, b: Model, k: nat, uinv: nat)
    ensures
        scale_of(Model::Div { lhs: Box::new(a), rhs: Box::new(b), k, uinv }) == scale_of(a)
            - scale_of(b) - k,
        wf(Model::Div { lhs: Box::new(a), rhs: Box::new(b), k, uinv }) ==> digit_of(
            b,
            scale_of(b) + k,
        ) != 0 && forall|j: nat| j < k ==> #[trigger] digit_of(b, scale_of(b) + j) == 0,
{
}

/// The scale of a sum or difference sits between the smaller operand
/// scale and that scale moved past the capped count of stripped leading
/// zeros.
pub proof fn lemma_scale_addsub(a: Model, b: Model, adj: nat)
    requires
        adj <= NORM_CAP,
    ensures
        min_int(scale_of(a), scale_of(b)) <= scale_of(
            Model::Add { lhs: Box::new(a), rhs: Box::new(b), adj },
        ) <= min_int(scale_of(a), scale_of(b)) + NORM_CAP,
        min_int(scale_of(a), scale_of(b)) <= scale_of(
            Model::Sub { lhs: Box::new(a), rhs: Box::new(b), adj },
        ) <= min_int(scale_of(a), scale_of(b)) + NORM_CAP,
{
}

} // verus!

verus! {

/// The sum stream carries the sum of the operands' values: its first
/// `n` aligned digits, plus the outgoing carry at `n`, hold exactly the
/// sum of the operands' first `n` aligned digits.
#[verifier::rlimit(60)]
#[verifier::spinoff_prover]
pub proof fn lemma_add_value(b: Model, c: Model, adj: nat, n: nat)
    requires
        wf(b),
        wf(c),
        base_of(b) == base_of(c),
    ensures
        ({
            let m = Model::Add { lhs: Box::new(b), rhs: Box::new(c), adj };
            let alpha = min_int(scale_of(b), scale_of(c));
            prefix_val(m, alpha, n) + add_carry_at(b, c, n) * pow(base_of(b) as int, n)
                == prefix_val(b, alpha, n) + prefix_val(c, alpha, n)
        }),
    decreases n,
{
    let m = Model::Add { lhs: Box::new(b), rhs: Box::new(c), adj };
    let alpha = min_int(scale_of(b), scale_of(c));
    let p = base_of(b) as int;
    lemma_base_pos(b);
    assert(base_of(m) == base_of(b));
    if n == 0 {
        assert(add_carry_at(b, c, 0) == 0);
        assert(prefix_val(m, alpha, 0) == 0);
        assert(prefix_val(b, alpha, 0) == 0);
        assert(prefix_val(c, alpha, 0) == 0);
        assert(prefix_val(m, alpha, n) + add_carry_at(b, c, n) * pow(base_of(b) as int, n)
            == prefix_val(b, alpha, n) + prefix_val(c, alpha, n));
    } else {
        let j = (n - 1) as nat;
        lemma_add_value(b, c, adj, j);
        let db = digit_of(b, alpha + j);
        let dc = digit_of(c, alpha + j);
        let carry = add_carry_at(b, c, j);
        let t = db + dc + carry;
        lemma_digit_range(b, alpha + j);
        lemma_digit_range(c, alpha + j);
        lemma_add_carry_bit(b, c, j);
        assert(digit_of(m, alpha + j) == add_raw(b, c, j));
        assert(add_raw(b, c, j) == ((t as int) % p) as nat);
        if t >= p {
            vstd::arithmetic::div_mod::lemma_mod_sub_multiples_vanish(t as int, p);
            vstd::arithmetic::div_mod::lemma_small_mod((t - p) as nat, p as nat);
            assert(add_carry_at(b, c, n) == 1);
            assert(add_raw(b, c, j) + p == t);
            assert((add_raw(b, c, j) as int) + (add_carry_at(b, c, n) as int) * p == (db as int)
                + (dc as int) + (carry as int));
        } else {
            vstd::arithmetic::div_mod::lemma_small_mod(t, p as nat);
            assert(add_carry_at(b, c, n) == 0);
            assert(add_raw(b, c, j) == t);
            assert((add_raw(b, c, j) as int) + (add_carry_at(b, c, n) as int) * p == (db as int)
                + (dc as int) + (carry as int));
        }
        let pj = pow(p, j);
        let pn = pow(p, n);
        assert(pn == p * pj) by {
            vstd::arithmetic::power::lemma_pow1(p);
            vstd::arithmetic::power::lemma_pow_adds(p, 1, j);
        }
        vstd::arithmetic::power::lemma_pow_positive(p, j);
        assert(prefix_val(m, alpha, n) + add_carry_at(b, c, n) * pn == prefix_val(b, alpha, n)
            + prefix_val(c, alpha, n)) by (nonlinear_arith)
            requires
                prefix_val(m, alpha, n) == prefix_val(m, alpha, j) + (add_raw(b, c, j) as int)
                    * pj,
                prefix_val(b, alpha, n) == prefix_val(b, alpha, j) + (db as int) * pj,
                prefix_val(c, alpha, n) == prefix_val(c, alpha, j) + (dc as int) * pj,
                prefix_val(m, alpha, j) + (carry as int) * pj == prefix_val(b, alpha, j)
                    + prefix_val(c, alpha, j),
                (add_raw(b, c, j) as int) + (add_carry_at(b, c, n) as int) * p == (db as int) + (
                dc as int) + (carry as int),
                pn == p * pj,
        ;
        assert(prefix_val(m, alpha, n) + add_carry_at(b, c, n) * pow(base_of(b) as int, n)
            == prefix_val(b, alpha, n) + prefix_val(c, alpha, n));
    }
}

/// Carries are zero or one.
proof fn lemma_add_carry_bit(b: Model, c: Model, j: nat)
    ensures
        add_carry_at(b, c, j) <= 1,
{
    if j == 0 {
    } else {
    }
}

/// Borrows are zero or one.
proof fn lemma_sub_borrow_bit(b: Model, c: Model, j: nat)
    ensures
        sub_borrow_at(b, c, j) <= 1,
{
    if j == 0 {
    } else {
    }
}

/// The difference stream carries the difference of the operands'
/// values: its first `n` aligned digits, less the outgoing borrow at
/// `n` scaled by `base^n`, hold exactly that difference.
#[verifier::rlimit(60)]
#[verifier::spinoff_prover]
pub proof fn lemma_sub_value(b: Model, c: Model, adj: nat, n: nat)
    requires
        wf(b),
        wf(c),
        base_of(b) == base_of(c),
    ensures
        ({
            let m = Model::Sub { lhs: Box::new(b), rhs: Box::new(c), adj };
            let alpha = min_int(scale_of(b), scale_of(c));
            prefix_val(m, alpha, n) - sub_borrow_at(b, c, n) * pow(base_of(b) as int, n)
                == prefix_val(b, alpha, n) - prefix_val(c, alpha, n)
        }),
    decreases n,
{
    let m = Model::Sub { lhs: Box::new(b), rhs: Box::new(c), adj };
    let alpha = min_int(scale_of(b), scale_of(c));
    let p = base_of(b) as int;
    lemma_base_pos(b);
    assert(base_of(m) == base_of(b));
    if n > 0 {
        let j = (n - 1) as nat;
        lemma_sub_value(b, c, adj, j);
        let db = digit_of(b, alpha + j);
        let dc = digit_of(c, alpha + j);
        let borrow = sub_borrow_at(b, c, j);
        let t = db - dc - borrow;
        lemma_digit_range(b, alpha + j);
        lemma_digit_range(c, alpha + j);
        lemma_sub_borrow_bit(b, c, j);
        assert(digit_of(m, alpha + j) == sub_raw(b, c, j));
        assert(sub_raw(b, c, j) == (t % p) as nat);
        if db < dc + borrow {
            vstd::arithmetic::div_mod::lemma_mod_add_multiples_vanish(t, p);
            vstd::arithmetic::div_mod::lemma_small_mod((t + p) as nat, p as nat);
            assert(sub_borrow_at(b, c, n) == 1);
            assert(sub_raw(b, c, j) as int - p == t);
            assert((sub_raw(b, c, j) as int) - (sub_borrow_at(b, c, n) as int) * p == (db as int)
                - (dc as int) - (borrow as int)) by (nonlinear_arith)
                requires
                    sub_borrow_at(b, c, n) == 1,
                    sub_raw(b, c, j) as int - p == (db as int) - (dc as int) - (borrow as int),
            ;
        } else {
            vstd::arithmetic::div_mod::lemma_small_mod(t as nat, p as nat);
            assert(sub_borrow_at(b, c, n) == 0);
            assert(sub_raw(b, c, j) as int == t);
            assert((sub_raw(b, c, j) as int) - (sub_borrow_at(b, c, n) as int) * p == (db as int)
                - (dc as int) - (borrow as int)) by (nonlinear_arith)
                requires
                    sub_borrow_at(b, c, n) == 0,
                    sub_raw(b, c, j) as int == (db as int) - (dc as int) - (borrow as int),
            ;
        }
        let pj = pow(p, j);
        let pn = pow(p, n);
        assert(pn == p * pj) by {
            vstd::arithmetic::power::lemma_pow1(p);
            vstd::arithmetic::power::lemma_pow_adds(p, 1, j);
        }
        vstd::arithmetic::power::lemma_pow_positive(p, j);
        assert((sub_raw(b, c, j) as int) - (sub_borrow_at(b, c, n) as int) * p == (db as int) - (
        dc as int) - (borrow as int));
        assert(prefix_val(m, alpha, n) == prefix_val(m, alpha, j) + (sub_raw(b, c, j) as int)
            * pj);
        assert(prefix_val(b, alpha, n) == prefix_val(b, alpha, j) + (db as int) * pj);
        assert(prefix_val(c, alpha, n) == prefix_val(c, alpha, j) + (dc as int) * pj);
        assert(prefix_val(m, alpha, n) - sub_borrow_at(b, c, n) * pn == prefix_val(b, alpha, n)
            - prefix_val(c, alpha, n)) by (nonlinear_arith)
            requires
                prefix_val(m, alpha, n) == prefix_val(m, alpha, j) + (sub_raw(b, c, j) as int)
                    * pj,
                prefix_val(b, alpha, n) == prefix_val(b, alpha, j) + (db as int) * pj,
                prefix_val(c, alpha, n) == prefix_val(c, alpha, j) + (dc as int) * pj,
                prefix_val(m, alpha, j) - (borrow as int) * pj == prefix_val(b, alpha, j)
                    - prefix_val(c, alpha, j),
                (sub_raw(b, c, j) as int) - (sub_borrow_at(b, c, n) as int) * p == (db as int) - (
                dc as int) - (borrow as int),
                pn == p * pj,
        ;
    }
}

} // verus!

verus! {

/// The product stream carries the convolution value: its first `n`
/// aligned digits are exactly the value of the first `n` convolution
/// columns, reduced modulo `base^n`.
#[verifier::rlimit(60)]
#[verifier::spinoff_prover]
pub proof fn lemma_mul_value(a: Model, b: Model, n: nat)
    requires
        wf(a),
        wf(b),
        base_of(a) == base_of(b),
    ensures
        ({
            let m = Model::Mul { lhs: Box::new(a), rhs: Box::new(b) };
            let alpha = scale_of(a) + scale_of(b);
            prefix_val(m, alpha, n) == (conv_sum(a, b, n) as int) % pow(base_of(a) as int, n)
        }),
    decreases n,
{
    let m = Model::Mul { lhs: Box::new(a), rhs: Box::new(b) };
    let alpha = scale_of(a) + scale_of(b);
    let p = base_of(a) as int;
    lemma_base_pos(a);
    assert(base_of(m) == base_of(a));
    if n == 0 {
        vstd::arithmetic::power::lemma_pow0(p);
        vstd::arithmetic::div_mod::lemma_mod_bound(conv_sum(a, b, 0) as int, 1);
    } else {
        let j = (n - 1) as nat;
        lemma_mul_value(a, b, j);
        let pj = pow(p, j);
        let pn = pow(p, n);
        vstd::arithmetic::power::lemma_pow_positive(p, j);
        vstd::arithmetic::power::lemma_pow_positive(p, n);
        assert(pn == pj * p) by {
            vstd::arithmetic::power::lemma_pow1(p);
            vstd::arithmetic::power::lemma_pow_adds(p, j, 1);
        }
        let x = conv_sum(a, b, n) as int;
        assert(digit_of(m, alpha + j) == mul_raw(a, b, j));
        assert(mul_raw(a, b, j) == ((x / pj) % p) as nat);
        // the value of n columns splits into its low part and digit j
        vstd::arithmetic::div_mod::lemma_breakdown(x, pj, p);
        assert(x % pn == pj * ((x / pj) % p) + x % pj);
        // columns beyond j vanish modulo base^j
        assert(conv_sum(a, b, n) == conv_sum(a, b, j) + conv_part(a, b, j, j + 1) * pj);
        assert(x % pj == conv_sum(a, b, j) as int % pj) by {
            vstd::arithmetic::div_mod::lemma_mod_multiples_vanish(
                conv_part(a, b, j, j + 1) as int,
                conv_sum(a, b, j) as int,
                pj,
            );
            assert(conv_sum(a, b, n) as int == conv_sum(a, b, j) as int + conv_part(
                a,
                b,
                j,
                j + 1,
            ) as int * pj);
            assert(pj * (conv_part(a, b, j, j + 1) as int) == (conv_part(a, b, j, j + 1) as int)
                * pj) by (nonlinear_arith);
            assert(pj * (conv_part(a, b, j, j + 1) as int) + conv_sum(a, b, j) as int == x);
        }
        assert(prefix_val(m, alpha, n) == prefix_val(m, alpha, j) + (mul_raw(a, b, j) as int)
            * pj);
        assert(prefix_val(m, alpha, n) == x % pn) by (nonlinear_arith)
            requires
                prefix_val(m, alpha, n) == prefix_val(m, alpha, j) + (mul_raw(a, b, j) as int)
                    * pj,
                prefix_val(m, alpha, j) == conv_sum(a, b, j) as int % pj,
                mul_raw(a, b, j) as int == (x / pj) % p,
                x % pn == pj * ((x / pj) % p) + x % pj,
                x % pj == conv_sum(a, b, j) as int % pj,
        ;
    }
}

/// Two streams with the same prefix values from a common index have the
/// same digits from that index on: each digit is the scaled difference
/// of two successive prefix values.
pub proof fn lemma_digits_from_values(x: Model, y: Model, lo: int, t: nat)
    requires
        base_of(x) == base_of(y),
        base_of(x) >= 1,
        prefix_val(x, lo, t) == prefix_val(y, lo, t),
        prefix_val(x, lo, t + 1) == prefix_val(y, lo, t + 1),
    ensures
        digit_of(x, lo + t) == digit_of(y, lo + t),
{
    let p = base_of(x) as int;
    let pt = pow(p, t);
    vstd::arithmetic::power::lemma_pow_positive(p, t);
    assert(prefix_val(x, lo, t + 1) == prefix_val(x, lo, t) + digit_of(x, lo + t) * pt);
    assert(prefix_val(y, lo, t + 1) == prefix_val(y, lo, t) + digit_of(y, lo + t) * pt);
    assert(digit_of(x, lo + t) * pt == digit_of(y, lo + t) * pt);
    assert(digit_of(x, lo + t) == digit_of(y, lo + t)) by (nonlinear_arith)
        requires
            digit_of(x, lo + t) * pt == digit_of(y, lo + t) * pt,
            pt >= 1,
    ;
}

} // verus!

verus! {

/// The digits of a window from `k` to `n` contribute a value divisible
/// by `base^k`.
proof fn lemma_pv_diff_divisible(b: Model, lo: int, k: nat, n: nat)
    requires
        k <= n,
        base_of(b) >= 1,
    ensures
        (prefix_val(b, lo, n) - prefix_val(b, lo, k)) % pow(base_of(b) as int, k) == 0,
    decreases n - k,
{
    let p = base_of(b) as int;
    let pk = pow(p, k);
    vstd::arithmetic::power::lemma_pow_positive(p, k);
    if n == k {
        vstd::arithmetic::div_mod::lemma_small_mod(0nat, pk as nat);
        assert((0int) % pk == 0);
    } else {
        let j = (n - 1) as nat;
        lemma_pv_diff_divisible(b, lo, k, j);
        let d = prefix_val(b, lo, j) - prefix_val(b, lo, k);
        let step = digit_of(b, lo + j) as int * pow(p, j);
        assert(prefix_val(b, lo, n) - prefix_val(b, lo, k) == d + step);
        assert(pow(p, j) == pk * pow(p, (j - k) as nat)) by {
            vstd::arithmetic::power::lemma_pow_adds(p, k, (j - k) as nat);
        }
        assert(step == pk * (digit_of(b, lo + j) as int * pow(p, (j - k) as nat)))
            by (nonlinear_arith)
            requires
                pow(p, j) == pk * pow(p, (j - k) as nat),
                step == digit_of(b, lo + j) as int * pow(p, j),
        ;
        vstd::arithmetic::div_mod::lemma_fundamental_div_mod(d, pk);
        assert(d == pk * (d / pk) + d % pk);
        assert(d + step == pk * (d / pk + digit_of(b, lo + j) as int * pow(p, (j - k) as nat)))
            by (nonlinear_arith)
            requires
                d == pk * (d / pk),
                step == pk * (digit_of(b, lo + j) as int * pow(p, (j - k) as nat)),
        ;
        vstd::arithmetic::div_mod::lemma_mod_multiples_basic(
            d / pk + digit_of(b, lo + j) as int * pow(p, (j - k) as nat),
            pk,
        );
    }
}

} // verus!

verus! {

/// The mixed sums behind the convolution value: the terms
/// `a(t) * base^t * value-of-b-window` for `t` from `i` to `n`, with
/// the b window ending at `n - t` for `mixed_prod` and at `n` for
/// `full_prod`.
spec fn mixed_prod(a: Model, b: Model, n: nat, i: nat) -> int
    decreases (n - i) as int,
{
    if i >= n {
        0
    } else {
        digit_of(a, scale_of(a) + i) * pow(base_of(a) as int, i) * prefix_val(
            b,
            scale_of(b),
            (n - i) as nat,
        ) + mixed_prod(a, b, n, i + 1)
    }
}

spec fn full_prod(a: Model, b: Model, n: nat, i: nat) -> int
    decreases (n - i) as int,
{
    if i >= n {
        0
    } else {
        digit_of(a, scale_of(a) + i) * pow(base_of(a) as int, i) * prefix_val(
            b,
            scale_of(b),
            n,
        ) + full_prod(a, b, n, i + 1)
    }
}

/// Extending every b window by one digit adds one convolution column.
#[verifier::rlimit(90)]
#[verifier::spinoff_prover]
proof fn lemma_mixed_step(a: Model, b: Model, n: nat, i: nat)
    requires
        i <= n,
        base_of(a) == base_of(b),
        base_of(a) >= 1,
    ensures
        mixed_prod(a, b, n + 1, i) == mixed_prod(a, b, n, i) + pow(base_of(a) as int, n) * (
        conv_part(a, b, n, n + 1) - conv_part(a, b, n, i)),
    decreases (n - i) as int,
{
    let p = base_of(a) as int;
    let pn = pow(p, n);
    vstd::arithmetic::power::lemma_pow_positive(p, n);
    if i == n {
        // one remaining term: a(n) * base^n * b(0)
        reveal_with_fuel(mixed_prod, 3);
        reveal_with_fuel(prefix_val, 3);
        assert(mixed_prod(a, b, n + 1, n + 1) == 0);
        assert(mixed_prod(a, b, n, n) == 0);
        assert(mixed_prod(a, b, n + 1, n) == digit_of(a, scale_of(a) + n) * pow(p, n)
            * prefix_val(b, scale_of(b), 1));
        vstd::arithmetic::power::lemma_pow0(p);
        assert(prefix_val(b, scale_of(b), 0) == 0);
        assert(prefix_val(b, scale_of(b), 1) == digit_of(b, scale_of(b)) as int);
        assert(conv_part(a, b, n, n + 1) == conv_part(a, b, n, n) + digit_of(a, scale_of(a) + n)
            * digit_of(b, scale_of(b) + n - n));
        assert(mixed_prod(a, b, n + 1, n) == pn * (conv_part(a, b, n, n + 1) - conv_part(
            a,
            b,
            n,
            n,
        ))) by (nonlinear_arith)
            requires
                mixed_prod(a, b, n + 1, n) == digit_of(a, scale_of(a) + n) * pn * (digit_of(
                    b,
                    scale_of(b),
                ) as int),
                conv_part(a, b, n, n + 1) - conv_part(a, b, n, n) == digit_of(
                    a,
                    scale_of(a) + n,
                ) * digit_of(b, scale_of(b)),
        ;
    } else {
        lemma_mixed_step(a, b, n, i + 1);
        let at = digit_of(a, scale_of(a) + i) as int;
        let pt = pow(p, i);
        let bn = digit_of(b, scale_of(b) + n - i) as int;
        let w = (n - i) as nat;
        assert(prefix_val(b, scale_of(b), w + 1) == prefix_val(b, scale_of(b), w) + digit_of(
            b,
            scale_of(b) + w,
        ) * pow(p, w));
        assert(conv_part(a, b, n, i + 1) == conv_part(a, b, n, i) + digit_of(a, scale_of(a) + i)
            * digit_of(b, scale_of(b) + n - i));
        assert(pt * pow(p, w) == pn) by {
            vstd::arithmetic::power::lemma_pow_adds(p, i, w);
        }
        assert(mixed_prod(a, b, n + 1, i) == at * pt * prefix_val(b, scale_of(b), w + 1)
            + mixed_prod(a, b, n + 1, i + 1));
        assert(mixed_prod(a, b, n + 1, i) == mixed_prod(a, b, n, i) + pn * (conv_part(
            a,
            b,
            n,
            n + 1,
        ) - conv_part(a, b, n, i))) by (nonlinear_arith)
            requires
                mixed_prod(a, b, n + 1, i) == at * pt * prefix_val(b, scale_of(b), w + 1)
                    + mixed_prod(a, b, n + 1, i + 1),
                mixed_prod(a, b, n, i) == at * pt * prefix_val(b, scale_of(b), w) + mixed_prod(
                    a,
                    b,
                    n,
                    i + 1,
                ),
                mixed_prod(a, b, n + 1, i + 1) == mixed_prod(a, b, n, i + 1) + pn * (conv_part(
                    a,
                    b,
                    n,
                    n + 1,
                ) - conv_part(a, b, n, i + 1)),
                prefix_val(b, scale_of(b), w + 1) == prefix_val(b, scale_of(b), w) + bn * pow(
                    p,
                    w,
                ),
                conv_part(a, b, n, i + 1) == conv_part(a, b, n, i) + at * bn,
                pt * pow(p, w) == pn,
        ;
    }
}

/// The convolution value equals the mixed sum.
proof fn lemma_conv_mixed(a: Model, b: Model, n: nat)
    requires
        base_of(a) == base_of(b),
        base_of(a) >= 1,
    ensures
        conv_sum(a, b, n) == mixed_prod(a, b, n, 0),
    decreases n,
{
    if n > 0 {
        let j = (n - 1) as nat;
        lemma_conv_mixed(a, b, j);
        lemma_mixed_step(a, b, j, 0);
        assert(conv_part(a, b, j, 0) == 0);
        vstd::arithmetic::power::lemma_pow_positive(base_of(a) as int, j);
        assert(conv_sum(a, b, n) as int == conv_sum(a, b, j) as int + conv_part(
            a,
            b,
            j,
            j + 1,
        ) as int * pow(base_of(a) as int, j));
        assert(mixed_prod(a, b, j + 1, 0) == mixed_prod(a, b, j, 0) + pow(base_of(a) as int, j)
            * conv_part(a, b, j, j + 1));
        assert(conv_part(a, b, j, j + 1) as int * pow(base_of(a) as int, j) == pow(
            base_of(a) as int,
            j,
        ) * conv_part(a, b, j, j + 1)) by (nonlinear_arith);
    }
}

} // verus!

verus! {

/// The full-window sum collapses to a product of values.
proof fn lemma_full_prod(a: Model, b: Model, n: nat, i: nat)
    requires
        i <= n,
        base_of(a) == base_of(b),
        base_of(a) >= 1,
    ensures
        full_prod(a, b, n, i) == (prefix_val(a, scale_of(a), n) - prefix_val(
            a,
            scale_of(a),
            i,
        )) * prefix_val(b, scale_of(b), n),
    decreases (n - i) as int,
{
    let p = base_of(a) as int;
    if i == n {
        assert(full_prod(a, b, n, n) == 0);
        assert((prefix_val(a, scale_of(a), n) - prefix_val(a, scale_of(a), n)) * prefix_val(
            b,
            scale_of(b),
            n,
        ) == 0) by (nonlinear_arith);
    } else {
        lemma_full_prod(a, b, n, i + 1);
        let at = digit_of(a, scale_of(a) + i) as int;
        let pt = pow(p, i);
        assert(prefix_val(a, scale_of(a), i + 1) == prefix_val(a, scale_of(a), i) + at * pt);
        assert(full_prod(a, b, n, i) == at * pt * prefix_val(b, scale_of(b), n) + full_prod(
            a,
            b,
            n,
            i + 1,
        ));
        assert(full_prod(a, b, n, i) == (prefix_val(a, scale_of(a), n) - prefix_val(
            a,
            scale_of(a),
            i,
        )) * prefix_val(b, scale_of(b), n)) by (nonlinear_arith)
            requires
                full_prod(a, b, n, i) == at * pt * prefix_val(b, scale_of(b), n) + full_prod(
                    a,
                    b,
                    n,
                    i + 1,
                ),
                full_prod(a, b, n, i + 1) == (prefix_val(a, scale_of(a), n) - prefix_val(
                    a,
                    scale_of(a),
                    i + 1,
                )) * prefix_val(b, scale_of(b), n),
                prefix_val(a, scale_of(a), i + 1) == prefix_val(a, scale_of(a), i) + at * pt,
        ;
    }
}

/// Replacing every truncated b window by the whole window changes the
/// sum only by a multiple of `base^n`.
proof fn lemma_mixed_full_congruent(a: Model, b: Model, n: nat, i: nat)
    requires
        i <= n,
        base_of(a) == base_of(b),
        base_of(a) >= 1,
    ensures
        (full_prod(a, b, n, i) - mixed_prod(a, b, n, i)) % pow(base_of(a) as int, n) == 0,
    decreases (n - i) as int,
{
    let p = base_of(a) as int;
    let pn = pow(p, n);
    vstd::arithmetic::power::lemma_pow_positive(p, n);
    if i == n {
        vstd::arithmetic::div_mod::lemma_small_mod(0nat, pn as nat);
    } else {
        lemma_mixed_full_congruent(a, b, n, i + 1);
        let at = digit_of(a, scale_of(a) + i) as int;
        let pt = pow(p, i);
        let w = (n - i) as nat;
        let dwin = prefix_val(b, scale_of(b), n) - prefix_val(b, scale_of(b), w);
        lemma_pv_diff_divisible(b, scale_of(b), w, n);
        let pw = pow(p, w);
        vstd::arithmetic::power::lemma_pow_positive(p, w);
        vstd::arithmetic::div_mod::lemma_fundamental_div_mod(dwin, pw);
        let e = dwin / pw;
        assert(dwin == pw * e);
        // the term's difference is a(i) * base^i * (whole minus truncated)
        assert(full_prod(a, b, n, i) == at * pt * prefix_val(b, scale_of(b), n) + full_prod(
            a,
            b,
            n,
            i + 1,
        ));
        assert(mixed_prod(a, b, n, i) == at * pt * prefix_val(b, scale_of(b), w) + mixed_prod(
            a,
            b,
            n,
            i + 1,
        ));
        assert(full_prod(a, b, n, i) - mixed_prod(a, b, n, i) == at * pt * dwin + (full_prod(
            a,
            b,
            n,
            i + 1,
        ) - mixed_prod(a, b, n, i + 1))) by (nonlinear_arith)
            requires
                full_prod(a, b, n, i) == at * pt * prefix_val(b, scale_of(b), n) + full_prod(
                    a,
                    b,
                    n,
                    i + 1,
                ),
                mixed_prod(a, b, n, i) == at * pt * prefix_val(b, scale_of(b), w) + mixed_prod(
                    a,
                    b,
                    n,
                    i + 1,
                ),
                dwin == prefix_val(b, scale_of(b), n) - prefix_val(b, scale_of(b), w),
        ;
        assert(pt * pw == pn) by {
            vstd::arithmetic::power::lemma_pow_adds(p, i, w);
        }
        assert(at * pt * dwin == pn * (at * e)) by (nonlinear_arith)
            requires
                dwin == pw * e,
                pt * pw == pn,
        ;
        let rest = full_prod(a, b, n, i + 1) - mixed_prod(a, b, n, i + 1);
        vstd::arithmetic::div_mod::lemma_fundamental_div_mod(rest, pn);
        assert(rest == pn * (rest / pn));
        assert(at * pt * dwin + rest == pn * (at * e + rest / pn)) by (nonlinear_arith)
            requires
                at * pt * dwin == pn * (at * e),
                rest == pn * (rest / pn),
        ;
        vstd::arithmetic::div_mod::lemma_mod_multiples_basic(at * e + rest / pn, pn);
    }
}

/// The convolution columns carry the product of the operands' values:
/// the first `n` columns equal the product of the operands' first `n`
/// aligned digits, modulo `base^n`.
pub proof fn lemma_conv_product(a: Model, b: Model, n: nat)
    requires
        base_of(a) == base_of(b),
        base_of(a) >= 1,
    ensures
        (conv_sum(a, b, n) as int) % pow(base_of(a) as int, n) == (prefix_val(a, scale_of(a), n)
            * prefix_val(b, scale_of(b), n)) % pow(base_of(a) as int, n),
{
    let p = base_of(a) as int;
    let pn = pow(p, n);
    vstd::arithmetic::power::lemma_pow_positive(p, n);
    lemma_conv_mixed(a, b, n);
    lemma_mixed_full_congruent(a, b, n, 0);
    lemma_full_prod(a, b, n, 0);
    assert(prefix_val(a, scale_of(a), 0) == 0);
    assert(full_prod(a, b, n, 0) == prefix_val(a, scale_of(a), n) * prefix_val(
        b,
        scale_of(b),
        n,
    )) by (nonlinear_arith)
        requires
            full_prod(a, b, n, 0) == (prefix_val(a, scale_of(a), n) - 0) * prefix_val(
                b,
                scale_of(b),
                n,
            ),
    ;
    let d = full_prod(a, b, n, 0) - mixed_prod(a, b, n, 0);
    vstd::arithmetic::div_mod::lemma_fundamental_div_mod(d, pn);
    assert(d == pn * (d / pn));
    vstd::arithmetic::div_mod::lemma_mod_multiples_vanish(d / pn, conv_sum(a, b, n) as int, pn);
    assert(pn * (d / pn) + conv_sum(a, b, n) as int == full_prod(a, b, n, 0));
}

} // verus!

verus! {

/// A window of all-zero digits has value zero.
proof fn lemma_pv_zeros(x: Model, lo: int, n: nat)
    requires
        forall|t: int| 0 <= t < n ==> #[trigger] digit_of(x, lo + t) == 0,
    ensures
        prefix_val(x, lo, n) == 0,
    decreases n,
{
    if n > 0 {
        lemma_pv_zeros(x, lo, (n - 1) as nat);
        let p = base_of(x) as int;
        assert(prefix_val(x, lo, n) == prefix_val(x, lo, (n - 1) as nat) + digit_of(
            x,
            lo + n - 1,
        ) * pow(p, (n - 1) as nat));
        assert(digit_of(x, lo + (n - 1)) == 0);
        assert((0int) * pow(p, (n - 1) as nat) == 0) by (nonlinear_arith);
    }
}

/// A window that starts with `z` zero digits has the value of its tail,
/// scaled by `base^z`.
proof fn lemma_pv_shift(x: Model, lo: int, z: nat, n: nat)
    requires
        z <= n,
        base_of(x) >= 1,
        forall|t: int| 0 <= t < z ==> #[trigger] digit_of(x, lo + t) == 0,
    ensures
        prefix_val(x, lo, n) == pow(base_of(x) as int, z) * prefix_val(x, lo + z, (n - z) as nat),
    decreases n,
{
    let p = base_of(x) as int;
    let pz = pow(p, z);
    vstd::arithmetic::power::lemma_pow_positive(p, z);
    if n == z {
        lemma_pv_zeros(x, lo, n);
        assert(prefix_val(x, lo + z, 0) == 0);
        assert(pz * 0 == 0) by (nonlinear_arith);
    } else {
        lemma_pv_shift(x, lo, z, (n - 1) as nat);
        let j = (n - 1) as nat;
        let w = (n - z) as nat;
        assert(prefix_val(x, lo, n) == prefix_val(x, lo, j) + digit_of(x, lo + j) * pow(p, j));
        assert(prefix_val(x, lo + z, w) == prefix_val(x, lo + z, (w - 1) as nat) + digit_of(
            x,
            lo + z + (w - 1),
        ) * pow(p, (w - 1) as nat));
        assert(lo + z + (w - 1) == lo + j);
        assert(pow(p, j) == pz * pow(p, (w - 1) as nat)) by {
            vstd::arithmetic::power::lemma_pow_adds(p, z, (w - 1) as nat);
        }
        assert(prefix_val(x, lo, n) == pz * prefix_val(x, lo + z, w)) by (nonlinear_arith)
            requires
                prefix_val(x, lo, n) == prefix_val(x, lo, j) + digit_of(x, lo + j) * pow(p, j),
                prefix_val(x, lo, j) == pz * prefix_val(x, lo + z, (w - 1) as nat),
                prefix_val(x, lo + z, w) == prefix_val(x, lo + z, (w - 1) as nat) + digit_of(
                    x,
                    lo + j,
                ) * pow(p, (w - 1) as nat),
                pow(p, j) == pz * pow(p, (w - 1) as nat),
        ;
    }
}

/// The value of a well-formed window is nonnegative and below
/// `base^length`.
proof fn lemma_pv_bound(x: Model, lo: int, n: nat)
    requires
        wf(x),
    ensures
        0 <= prefix_val(x, lo, n) < pow(base_of(x) as int, n),
    decreases n,
{
    let p = base_of(x) as int;
    lemma_base_pos(x);
    vstd::arithmetic::power::lemma_pow_positive(p, n);
    if n == 0 {
    } else {
        let j = (n - 1) as nat;
        lemma_pv_bound(x, lo, j);
        lemma_digit_range(x, lo + j);
        let pj = pow(p, j);
        vstd::arithmetic::power::lemma_pow_positive(p, j);
        assert(pow(p, n) == p * pj) by {
            vstd::arithmetic::power::lemma_pow1(p);
            vstd::arithmetic::power::lemma_pow_adds(p, 1, j);
        }
        assert(prefix_val(x, lo, j) + digit_of(x, lo + j) * pj < p * pj) by (nonlinear_arith)
            requires
                prefix_val(x, lo, j) < pj,
                digit_of(x, lo + j) as int <= p - 1,
                pj >= 1,
        ;
        assert(0 <= digit_of(x, lo + j) * pj) by (nonlinear_arith)
            requires
                pj >= 1,
        ;
    }
}

/// A product stream's window taken from `z` places below its scale:
/// the product of the operands' values, the second operand's window
/// also starting `z` places below its scale, reduced to the window.
proof fn lemma_mul_window(x: Model, y: Model, z: nat, n: nat)
    requires
        wf(x),
        wf(y),
        base_of(x) == base_of(y),
    ensures
        ({
            let m = Model::Mul { lhs: Box::new(x), rhs: Box::new(y) };
            prefix_val(m, scale_of(x) + scale_of(y) - z, n) == (prefix_val(x, scale_of(x), n)
                * prefix_val(y, scale_of(y) - z, n)) % pow(base_of(x) as int, n)
        }),
{
    let m = Model::Mul { lhs: Box::new(x), rhs: Box::new(y) };
    let alpha = scale_of(x) + scale_of(y);
    let lo = alpha - z;
    let p = base_of(x) as int;
    let pn = pow(p, n);
    lemma_base_pos(x);
    vstd::arithmetic::power::lemma_pow_positive(p, n);
    assert(base_of(m) == base_of(x));
    assert(forall|t: int| 0 <= t < z ==> #[trigger] digit_of(m, lo + t) == 0);
    assert forall|t: int| 0 <= t < z implies #[trigger] digit_of(y, scale_of(y) - z + t)
        == 0 by {
        lemma_digit_below_scale(y, scale_of(y) - z + t);
    }
    if n <= z {
        assert(forall|t: int| 0 <= t < n ==> #[trigger] digit_of(m, lo + t) == 0);
        lemma_pv_zeros(m, lo, n);
        assert(forall|t: int|
            0 <= t < n ==> #[trigger] digit_of(y, scale_of(y) - z + t) == 0);
        lemma_pv_zeros(y, scale_of(y) - z, n);
        assert((prefix_val(x, scale_of(x), n) * 0) % pn == 0) by (nonlinear_arith)
            requires
                pn > 0,
        ;
    } else {
        let w = (n - z) as nat;
        let pz = pow(p, z);
        let pw = pow(p, w);
        vstd::arithmetic::power::lemma_pow_positive(p, z);
        vstd::arithmetic::power::lemma_pow_positive(p, w);
        assert(pn == pz * pw) by {
            vstd::arithmetic::power::lemma_pow_adds(p, z, w);
        }
        lemma_pv_shift(m, lo, z, n);
        assert(prefix_val(m, lo, n) == pz * prefix_val(m, alpha, w));
        lemma_mul_value(x, y, w);
        lemma_conv_product(x, y, w);
        assert(prefix_val(m, alpha, w) == (prefix_val(x, scale_of(x), w) * prefix_val(
            y,
            scale_of(y),
            w,
        )) % pw);
        let xa = prefix_val(x, scale_of(x), w);
        let ya = prefix_val(y, scale_of(y), w);
        lemma_pv_bound(x, scale_of(x), w);
        lemma_pv_bound(y, scale_of(y), w);
        assert(0 <= xa * ya) by (nonlinear_arith)
            requires
                xa >= 0,
                ya >= 0,
        ;
        vstd::arithmetic::div_mod::lemma_truncate_middle(xa * ya, pz, pw);
        assert(prefix_val(m, lo, n) == (pz * (xa * ya)) % pn);
        // fold the scale into the second operand's window
        lemma_pv_shift(y, scale_of(y) - z, z, n);
        let yl = prefix_val(y, scale_of(y) - z, n);
        assert(yl == pz * prefix_val(y, scale_of(y), w));
        assert(pz * (xa * ya) == xa * yl) by (nonlinear_arith)
            requires
                yl == pz * ya,
        ;
        // widen the first operand's window from w to n
        let xn = prefix_val(x, scale_of(x), n);
        lemma_pv_diff_divisible(x, scale_of(x), w, n);
        let dx = xn - xa;
        vstd::arithmetic::div_mod::lemma_fundamental_div_mod(dx, pw);
        assert(dx == pw * (dx / pw));
        assert(xn * yl - xa * yl == pn * ((dx / pw) * prefix_val(y, scale_of(y), w)))
            by (nonlinear_arith)
            requires
                dx == pw * (dx / pw),
                xn - xa == dx,
                yl == pz * prefix_val(y, scale_of(y), w),
                pn == pz * pw,
        ;
        vstd::arithmetic::div_mod::lemma_mod_multiples_basic(
            (dx / pw) * prefix_val(y, scale_of(y), w),
            pn,
        );
        assert(pn * ((dx / pw) * prefix_val(y, scale_of(y), w)) == ((dx / pw) * prefix_val(
            y,
            scale_of(y),
            w,
        )) * pn) by (nonlinear_arith);
        assert((xn * yl - xa * yl) % pn == 0);
        vstd::arithmetic::div_mod::lemma_mod_equivalence(xn * yl, xa * yl, pn);
        assert((xn * yl) % pn == (xa * yl) % pn);
    }
}

} // verus!

verus! {

/// Window values are bounded when every digit in the window fits the
/// base.
proof fn lemma_pv_bound_by(x: Model, lo: int, n: nat)
    requires
        base_of(x) >= 1,
        forall|t: int| 0 <= t < n ==> #[trigger] digit_of(x, lo + t) < base_of(x),
    ensures
        0 <= prefix_val(x, lo, n) < pow(base_of(x) as int, n),
    decreases n,
{
    let p = base_of(x) as int;
    vstd::arithmetic::power::lemma_pow_positive(p, n);
    if n > 0 {
        let j = (n - 1) as nat;
        lemma_pv_bound_by(x, lo, j);
        assert(digit_of(x, lo + j) < base_of(x));
        let pj = pow(p, j);
        vstd::arithmetic::power::lemma_pow_positive(p, j);
        assert(pow(p, n) == p * pj) by {
            vstd::arithmetic::power::lemma_pow1(p);
            vstd::arithmetic::power::lemma_pow_adds(p, 1, j);
        }
        assert(prefix_val(x, lo, j) + digit_of(x, lo + j) * pj < p * pj) by (nonlinear_arith)
            requires
                prefix_val(x, lo, j) < pj,
                digit_of(x, lo + j) as int <= p - 1,
                pj >= 1,
        ;
        assert(0 <= digit_of(x, lo + j) * pj) by (nonlinear_arith)
            requires
                pj >= 1,
        ;
    }
}

/// Digits of a sum node fit the base.
proof fn lemma_add_digit_lt(l: Model, r: Model, adj: nat, i: int)
    requires
        base_of(l) >= 1,
    ensures
        digit_of(Model::Add { lhs: Box::new(l), rhs: Box::new(r), adj }, i) < base_of(l),
{
    let alpha = min_int(scale_of(l), scale_of(r));
    if i >= alpha {
        vstd::arithmetic::div_mod::lemma_mod_bound(
            (digit_of(l, i) + digit_of(r, i) + add_carry_at(l, r, (i - alpha) as nat)) as int,
            base_of(l) as int,
        );
        assert(digit_of(Model::Add { lhs: Box::new(l), rhs: Box::new(r), adj }, i) == add_raw(
            l,
            r,
            (i - alpha) as nat,
        ));
    }
}

/// The distributive law's two sides agree window for window.
#[verifier::rlimit(90)]
#[verifier::spinoff_prover]
proof fn lemma_distrib_window(a: Model, b: Model, c: Model, adjs: nat, adjr: nat, n: nat)
    requires
        wf(Model::Mul { lhs: Box::new(a), rhs: Box::new(b) }),
        wf(Model::Mul { lhs: Box::new(a), rhs: Box::new(c) }),
        wf(Model::Add { lhs: Box::new(b), rhs: Box::new(c), adj: adjs }),
        base_of(a) == base_of(b),
    ensures
        ({
            let s = Model::Add { lhs: Box::new(b), rhs: Box::new(c), adj: adjs };
            let lhsm = Model::Mul { lhs: Box::new(a), rhs: Box::new(s) };
            let rhsm = Model::Add {
                lhs: Box::new(Model::Mul { lhs: Box::new(a), rhs: Box::new(b) }),
                rhs: Box::new(Model::Mul { lhs: Box::new(a), rhs: Box::new(c) }),
                adj: adjr,
            };
            let alpha = scale_of(a) + min_int(scale_of(b), scale_of(c));
            prefix_val(lhsm, alpha, n) == prefix_val(rhsm, alpha, n)
        }),
{
    let s = Model::Add { lhs: Box::new(b), rhs: Box::new(c), adj: adjs };
    let ab = Model::Mul { lhs: Box::new(a), rhs: Box::new(b) };
    let ac = Model::Mul { lhs: Box::new(a), rhs: Box::new(c) };
    let lhsm = Model::Mul { lhs: Box::new(a), rhs: Box::new(s) };
    let rhsm = Model::Add { lhs: Box::new(ab), rhs: Box::new(ac), adj: adjr };
    let m = min_int(scale_of(b), scale_of(c));
    let alpha = scale_of(a) + m;
    let p = base_of(a) as int;
    let pn = pow(p, n);
    lemma_base_pos(a);
    vstd::arithmetic::power::lemma_pow_positive(p, n);
    let av = prefix_val(a, scale_of(a), n);
    let bm = prefix_val(b, m, n);
    let cm = prefix_val(c, m, n);
    let sm = prefix_val(s, m, n);
    // the left side: the product window over the sum stream
    assert(scale_of(s) == m + adjs);
    lemma_mul_window(a, s, adjs, n);
    assert(prefix_val(lhsm, alpha, n) == (av * sm) % pn);
    // the sum stream's window carries the sum of the operand windows
    lemma_add_value(b, c, adjs, n);
    assert(sm + add_carry_at(b, c, n) * pn == bm + cm);
    assert(av * sm - (av * bm + av * cm) == pn * (-av * add_carry_at(b, c, n)))
        by (nonlinear_arith)
        requires
            sm == bm + cm - add_carry_at(b, c, n) * pn,
    ;
    assert((pn * (-av * add_carry_at(b, c, n))) % pn == 0) by {
        vstd::arithmetic::div_mod::lemma_mod_multiples_basic(-av * add_carry_at(b, c, n), pn);
        assert(pn * (-av * add_carry_at(b, c, n)) == (-av * add_carry_at(b, c, n)) * pn)
            by (nonlinear_arith);
    }
    vstd::arithmetic::div_mod::lemma_mod_equivalence(av * sm, av * bm + av * cm, pn);
    assert(prefix_val(lhsm, alpha, n) == (av * bm + av * cm) % pn);
    // the right side: the sum window over the two product streams
    assert(scale_of(ab) == scale_of(a) + scale_of(b));
    assert(scale_of(ac) == scale_of(a) + scale_of(c));
    assert(min_int(scale_of(ab), scale_of(ac)) == alpha);
    lemma_add_value(ab, ac, adjr, n);
    assert(prefix_val(rhsm, alpha, n) + add_carry_at(ab, ac, n) * pn == prefix_val(ab, alpha, n)
        + prefix_val(ac, alpha, n));
    let zb = (scale_of(b) - m) as nat;
    let zc = (scale_of(c) - m) as nat;
    lemma_mul_window(a, b, zb, n);
    lemma_mul_window(a, c, zc, n);
    assert(prefix_val(ab, alpha, n) == (av * bm) % pn);
    assert(prefix_val(ac, alpha, n) == (av * cm) % pn);
    // the right side's window is bounded and congruent, hence equal
    assert forall|t: int| 0 <= t < n implies #[trigger] digit_of(rhsm, alpha + t) < base_of(
        rhsm,
    ) by {
        lemma_add_digit_lt(ab, ac, adjr, alpha + t);
    }
    lemma_pv_bound_by(rhsm, alpha, n);
    vstd::arithmetic::div_mod::lemma_mod_bound(av * bm, pn);
    vstd::arithmetic::div_mod::lemma_mod_bound(av * cm, pn);
    vstd::arithmetic::div_mod::lemma_add_mod_noop(av * bm, av * cm, pn);
    let r = prefix_val(rhsm, alpha, n);
    assert(r == (av * bm) % pn + (av * cm) % pn - add_carry_at(ab, ac, n) * pn);
    assert(r - (av * bm + av * cm) == pn * (-1 * add_carry_at(ab, ac, n)) + ((av * bm) % pn + (av
        * cm) % pn - (av * bm + av * cm))) by (nonlinear_arith)
        requires
            r == (av * bm) % pn + (av * cm) % pn - add_carry_at(ab, ac, n) * pn,
    ;
    vstd::arithmetic::div_mod::lemma_fundamental_div_mod(av * bm, pn);
    vstd::arithmetic::div_mod::lemma_fundamental_div_mod(av * cm, pn);
    assert((av * bm) % pn + (av * cm) % pn - (av * bm + av * cm) == pn * (-((av * bm) / pn) - ((
    av * cm) / pn))) by (nonlinear_arith)
        requires
            av * bm == pn * ((av * bm) / pn) + (av * bm) % pn,
            av * cm == pn * ((av * cm) / pn) + (av * cm) % pn,
    ;
    assert(r - (av * bm + av * cm) == pn * (-1 * add_carry_at(ab, ac, n) - ((av * bm) / pn) - ((
    av * cm) / pn))) by (nonlinear_arith)
        requires
            r - (av * bm + av * cm) == pn * (-1 * add_carry_at(ab, ac, n)) + pn * (-((av * bm)
                / pn) - ((av * cm) / pn)),
    ;
    assert((r - (av * bm + av * cm)) % pn == 0) by {
        vstd::arithmetic::div_mod::lemma_mod_multiples_basic(
            -1 * add_carry_at(ab, ac, n) - ((av * bm) / pn) - ((av * cm) / pn),
            pn,
        );
        assert(pn * (-1 * add_carry_at(ab, ac, n) - ((av * bm) / pn) - ((av * cm) / pn)) == (-1
            * add_carry_at(ab, ac, n) - ((av * bm) / pn) - ((av * cm) / pn)) * pn)
            by (nonlinear_arith);
    }
    vstd::arithmetic::div_mod::lemma_mod_equivalence(r, av * bm + av * cm, pn);
    assert(r % pn == (av * bm + av * cm) % pn);
    vstd::arithmetic::div_mod::lemma_small_mod(r as nat, pn as nat);
    assert(r == (av * bm + av * cm) % pn);
}

/// Multiplication distributes over addition digit for digit: the
/// product of a number with a sum has the same digits as the sum of
/// the two products, whatever normalization amounts the two sides'
/// constructions chose.
pub proof fn lemma_mul_distributes(
    a: Model,
    b: Model,
    c: Model,
    adjs: nat,
    adjr: nat,
    i: int,
)
    requires
        wf(Model::Mul { lhs: Box::new(a), rhs: Box::new(b) }),
        wf(Model::Mul { lhs: Box::new(a), rhs: Box::new(c) }),
        wf(Model::Add { lhs: Box::new(b), rhs: Box::new(c), adj: adjs }),
        base_of(a) == base_of(b),
    ensures
        ({
            let s = Model::Add { lhs: Box::new(b), rhs: Box::new(c), adj: adjs };
            digit_of(Model::Mul { lhs: Box::new(a), rhs: Box::new(s) }, i) == digit_of(
                Model::Add {
                    lhs: Box::new(Model::Mul { lhs: Box::new(a), rhs: Box::new(b) }),
                    rhs: Box::new(Model::Mul { lhs: Box::new(a), rhs: Box::new(c) }),
                    adj: adjr,
                },
                i,
            )
        }),
{
    let s = Model::Add { lhs: Box::new(b), rhs: Box::new(c), adj: adjs };
    let ab = Model::Mul { lhs: Box::new(a), rhs: Box::new(b) };
    let ac = Model::Mul { lhs: Box::new(a), rhs: Box::new(c) };
    let lhsm = Model::Mul { lhs: Box::new(a), rhs: Box::new(s) };
    let rhsm = Model::Add { lhs: Box::new(ab), rhs: Box::new(ac), adj: adjr };
    let m = min_int(scale_of(b), scale_of(c));
    let alpha = scale_of(a) + m;
    lemma_base_pos(a);
    assert(base_of(s) == base_of(b));
    assert(base_of(ab) == base_of(a));
    assert(base_of(lhsm) == base_of(a));
    assert(base_of(rhsm) == base_of(ab));
    assert(scale_of(s) == m + adjs);
    if i < alpha {
        assert(scale_of(lhsm) == scale_of(a) + scale_of(s));
        assert(digit_of(lhsm, i) == 0);
        assert(min_int(scale_of(ab), scale_of(ac)) == alpha);
        assert(digit_of(rhsm, i) == 0);
    } else {
        let t = (i - alpha) as nat;
        lemma_distrib_window(a, b, c, adjs, adjr, t);
        lemma_distrib_window(a, b, c, adjs, adjr, t + 1);
        assert(base_of(lhsm) == base_of(rhsm));
        lemma_digits_from_values(lhsm, rhsm, alpha, t);
        assert(alpha + t == i);
    }
}

} // verus!

verus! {

/// The partial quotient after `m` long-division steps:
/// `sum of quotient digit j times base^j` for `j` below `m`.
pub open spec fn quot_part(l: Model, r: Model, k: nat, uinv: nat, m: nat) -> int
    decreases m,
{
    if m == 0 {
        0
    } else {
        quot_part(l, r, k, uinv, (m - 1) as nat) + quot_digit(l, r, k, uinv, (m - 1) as nat)
            * pow(base_of(l) as int, (m - 1) as nat)
    }
}

/// An integer-lift at scale zero carries its inner window.
proof fn lemma_pv_lift(x: Model, align: int, n: nat)
    ensures
        prefix_val(Model::Lift { inner: Box::new(x), align, scale: 0 }, 0, n) == prefix_val(
            x,
            align,
            n,
        ),
    decreases n,
{
    let w = Model::Lift { inner: Box::new(x), align, scale: 0 };
    assert(base_of(w) == base_of(x));
    if n > 0 {
        lemma_pv_lift(x, align, (n - 1) as nat);
        assert(digit_of(w, 0 + (n - 1)) == digit_of(x, align + (n - 1)));
    }
}

/// The window value of a single-digit literal at column `m - 1`.
proof fn lemma_pv_single(p: nat, q: nat, m: nat, n: nat)
    requires
        m >= 1,
    ensures
        prefix_val(
            Model::Finite { p, digits: Seq::new(m, |t: int| if t == m - 1 { q } else { 0nat }) },
            0,
            n,
        ) == if n < m {
            0int
        } else {
            q * pow(p as int, (m - 1) as nat)
        },
    decreases n,
{
    let x = Model::Finite { p, digits: Seq::new(m, |t: int| if t == m - 1 { q } else { 0nat }) };
    if n > 0 {
        lemma_pv_single(p, q, m, (n - 1) as nat);
        let j = (n - 1) as nat;
        if j == m - 1 {
            assert(digit_of(x, j as int) == q);
        } else {
            assert(digit_of(x, j as int) == 0);
            assert((0int) * pow(p as int, j) == 0) by (nonlinear_arith);
        }
    }
}

} // verus!

verus! {

/// After `m` long-division steps the remainder stream carries the
/// dividend less the partial quotient times the divisor's unit part:
/// window for window, modulo `base^n`.
#[verifier::rlimit(90)]
#[verifier::spinoff_prover]
pub proof fn lemma_div_value(l: Model, r: Model, k: nat, uinv: nat, m: nat, n: nat)
    requires
        wf(l),
        wf(r),
        base_of(l) == base_of(r),
        k <= SCAN_BOUND,
    ensures
        prefix_val(rem_model(l, r, k, uinv, m), 0, n) % pow(base_of(l) as int, n) == (prefix_val(
            l,
            scale_of(l),
            n,
        ) - quot_part(l, r, k, uinv, m) * prefix_val(r, scale_of(r) + k, n)) % pow(
            base_of(l) as int,
            n,
        ),
    decreases m,
{
    let p = base_of(l) as int;
    let pn = pow(p, n);
    lemma_base_pos(l);
    crate::model::lemma_scale_bounded(l);
    crate::model::lemma_scale_bounded(r);
    vstd::arithmetic::power::lemma_pow_positive(p, n);
    let bh = prefix_val(r, scale_of(r) + k, n);
    if m == 0 {
        lemma_pv_lift(l, scale_of(l), n);
        assert(rem_model(l, r, k, uinv, 0) == (Model::Lift {
            inner: Box::new(l),
            align: scale_of(l),
            scale: 0,
        }));
        assert(quot_part(l, r, k, uinv, 0) == 0);
        assert((0int) * bh == 0) by (nonlinear_arith);
    } else {
        let mm = (m - 1) as nat;
        lemma_div_value(l, r, k, uinv, mm, n);
        lemma_rem_ddepth(l, r, k, uinv, mm);
        lemma_rem_wf(l, r, k, uinv, mm);
        lemma_rem_scale(l, r, k, uinv, mm);
        lemma_quot_lt(l, r, k, uinv, mm);
        let prev = rem_model(l, r, k, uinv, mm);
        let q = quot_digit(l, r, k, uinv, mm);
        let pm = pow(p, mm);
        vstd::arithmetic::power::lemma_pow_positive(p, mm);
        // the previous remainder's deviation is a multiple of base^n
        let dprev = prefix_val(prev, 0, n) - (prefix_val(l, scale_of(l), n) - quot_part(
            l,
            r,
            k,
            uinv,
            mm,
        ) * bh);
        vstd::arithmetic::div_mod::lemma_mod_equivalence(
            prefix_val(prev, 0, n),
            prefix_val(l, scale_of(l), n) - quot_part(l, r, k, uinv, mm) * bh,
            pn,
        );
        assert(dprev % pn == 0);
        vstd::arithmetic::div_mod::lemma_fundamental_div_mod(dprev, pn);
        vstd::arithmetic::div_mod::lemma_small_mod(0nat, pn as nat);
        assert(dprev == pn * (dprev / pn));
        assert(quot_part(l, r, k, uinv, m) == quot_part(l, r, k, uinv, mm) + q * pm);
        if q == 0 {
            assert(rem_model(l, r, k, uinv, m) == prev);
            assert(quot_part(l, r, k, uinv, m) == quot_part(l, r, k, uinv, mm))
                by (nonlinear_arith)
                requires
                    quot_part(l, r, k, uinv, m) == quot_part(l, r, k, uinv, mm) + 0 * pm,
            ;
        } else {
            let prod = rem_product(l, r, k, q, m);
            let w = rem_model(l, r, k, uinv, m);
            lemma_rem_product_facts(l, r, k, q, m);
            lemma_rem_product_wf(l, r, k, q, m);
            assert(w == (Model::Sub {
                lhs: Box::new(prev),
                rhs: Box::new(prod),
                adj: crate::model::sub_adj_from(prev, prod, 0),
            }));
            let adj = crate::model::sub_adj_from(prev, prod, 0);
            // the subtraction aligns at zero
            assert(min_int(scale_of(prev), scale_of(prod)) == 0);
            lemma_sub_value(prev, prod, adj, n);
            assert(prefix_val(w, 0, n) - sub_borrow_at(prev, prod, n) * pn == prefix_val(
                prev,
                0,
                n,
            ) - prefix_val(prod, 0, n));
            // the subtracted stream's window is the single quotient digit
            // times the unit part
            let single = *prod->Mul_lhs;
            let blift = *prod->Mul_rhs;
            assert(single == (Model::Finite {
                p: base_of(l),
                digits: Seq::new(m, |t: int| if t == m - 1 { q } else { 0nat }),
            }));
            assert(blift == (Model::Lift {
                inner: Box::new(r),
                align: scale_of(r) + k,
                scale: 0,
            }));
            assert(wf(single)) by {
                assert(forall|t: int|
                    0 <= t < single->Finite_digits.len() ==> #[trigger] single->Finite_digits[t]
                        < base_of(l));
            }
            assert(wf(blift));
            assert(base_of(single) == base_of(blift));
            assert(scale_of(single) == 0);
            assert(scale_of(blift) == 0);
            lemma_mul_window(single, blift, 0, n);
            assert(prefix_val(prod, 0, n) == (prefix_val(single, 0, n) * prefix_val(
                blift,
                0,
                n,
            )) % pn);
            lemma_pv_lift(r, scale_of(r) + k, n);
            assert(prefix_val(blift, 0, n) == bh);
            lemma_pv_single(base_of(l), q, m, n);
            if n < m {
                // the subtracted stream contributes nothing yet, and the
                // new quotient digit sits beyond the window
                assert(prefix_val(single, 0, n) == 0);
                assert((0int * bh) % pn == 0) by {
                    assert(0int * bh == 0) by (nonlinear_arith);
                }
                assert(prefix_val(prod, 0, n) == 0);
                assert(pm == pn * pow(p, (mm - n) as nat)) by {
                    vstd::arithmetic::power::lemma_pow_adds(p, n, (mm - n) as nat);
                    assert(n + (mm - n) as nat == mm);
                }
                let kq = q * pow(p, (mm - n) as nat) * bh + sub_borrow_at(prev, prod, n) + dprev
                    / pn;
                assert(prefix_val(w, 0, n) - (prefix_val(l, scale_of(l), n) - quot_part(
                    l,
                    r,
                    k,
                    uinv,
                    m,
                ) * bh) == pn * kq) by (nonlinear_arith)
                    requires
                        prefix_val(w, 0, n) == prefix_val(prev, 0, n) - 0 + sub_borrow_at(
                            prev,
                            prod,
                            n,
                        ) * pn,
                        prefix_val(prev, 0, n) == (prefix_val(l, scale_of(l), n) - quot_part(
                            l,
                            r,
                            k,
                            uinv,
                            mm,
                        ) * bh) + pn * (dprev / pn),
                        quot_part(l, r, k, uinv, m) == quot_part(l, r, k, uinv, mm) + q * pm,
                        pm == pn * pow(p, (mm - n) as nat),
                        kq == q * pow(p, (mm - n) as nat) * bh + sub_borrow_at(prev, prod, n)
                            + dprev / pn,
                ;
                vstd::arithmetic::div_mod::lemma_mod_multiples_basic(kq, pn);
                assert(pn * kq == kq * pn) by (nonlinear_arith);
                vstd::arithmetic::div_mod::lemma_mod_equivalence(
                    prefix_val(w, 0, n),
                    prefix_val(l, scale_of(l), n) - quot_part(l, r, k, uinv, m) * bh,
                    pn,
                );
            } else {
                assert(prefix_val(single, 0, n) == q * pm);
                let y = q * pm * bh;
                assert(prefix_val(prod, 0, n) == y % pn);
                vstd::arithmetic::div_mod::lemma_fundamental_div_mod(y, pn);
                assert(y == pn * (y / pn) + y % pn);
                let kq = sub_borrow_at(prev, prod, n) + dprev / pn + y / pn;
                assert(prefix_val(w, 0, n) - (prefix_val(l, scale_of(l), n) - quot_part(
                    l,
                    r,
                    k,
                    uinv,
                    m,
                ) * bh) == pn * kq) by (nonlinear_arith)
                    requires
                        prefix_val(w, 0, n) == prefix_val(prev, 0, n) - (y - pn * (y / pn))
                            + sub_borrow_at(prev, prod, n) * pn,
                        prefix_val(prev, 0, n) == (prefix_val(l, scale_of(l), n) - quot_part(
                            l,
                            r,
                            k,
                            uinv,
                            mm,
                        ) * bh) + pn * (dprev / pn),
                        quot_part(l, r, k, uinv, m) == quot_part(l, r, k, uinv, mm) + q * pm,
                        y == q * pm * bh,
                        kq == sub_borrow_at(prev, prod, n) + dprev / pn + y / pn,
                ;
                vstd::arithmetic::div_mod::lemma_mod_multiples_basic(kq, pn);
                assert(pn * kq == kq * pn) by (nonlinear_arith);
                vstd::arithmetic::div_mod::lemma_mod_equivalence(
                    prefix_val(w, 0, n),
                    prefix_val(l, scale_of(l), n) - quot_part(l, r, k, uinv, m) * bh,
                    pn,
                );
            }
        }
    }
}

} // verus!

verus! {

/// The convolution columns of the single-digit literal with the lifted
/// unit part are empty below the literal's column.
proof fn lemma_single_conv_zero(single: Model, blift: Model, q: nat, mm: nat, kcol: nat, t: nat)
    requires
        single == (Model::Finite {
            p: base_of(single),
            digits: Seq::new(mm + 1, |x: int| if x == mm { q } else { 0nat }),
        }),
        kcol < mm,
        t <= kcol + 1,
    ensures
        conv_part(single, blift, kcol, t) == 0,
    decreases t,
{
    if t > 0 {
        lemma_single_conv_zero(single, blift, q, mm, kcol, (t - 1) as nat);
        let j = (t - 1) as nat;
        assert(scale_of(single) == 0);
        if j < mm + 1 {
            assert(digit_of(single, j as int) == (if j == mm {
                q
            } else {
                0nat
            }));
        } else {
            assert(digit_of(single, j as int) == 0);
        }
        assert(digit_of(single, scale_of(single) + j) == 0);
        assert((0nat) * digit_of(blift, scale_of(blift) + kcol - j) == 0) by (nonlinear_arith);
    }
}

/// Below the literal's column the convolution value is zero.
proof fn lemma_single_convsum_zero(single: Model, blift: Model, q: nat, mm: nat, n: nat)
    requires
        single == (Model::Finite {
            p: base_of(single),
            digits: Seq::new(mm + 1, |x: int| if x == mm { q } else { 0nat }),
        }),
        n <= mm,
    ensures
        conv_sum(single, blift, n) == 0,
    decreases n,
{
    if n > 0 {
        lemma_single_convsum_zero(single, blift, q, mm, (n - 1) as nat);
        lemma_single_conv_zero(single, blift, q, mm, (n - 1) as nat, n);
        assert(conv_part(single, blift, (n - 1) as nat, n) == 0);
        assert((0nat) as int * pow(base_of(single) as int, (n - 1) as nat) == 0)
            by (nonlinear_arith);
    }
}

/// A difference of two streams that are both zero on a window never
/// borrows within it.
proof fn lemma_zeros_no_borrow(x: Model, y: Model, j: nat)
    requires
        forall|t: int|
            0 <= t < j ==> #[trigger] digit_of(x, min_int(scale_of(x), scale_of(y)) + t) == 0,
        forall|t: int|
            0 <= t < j ==> #[trigger] digit_of(y, min_int(scale_of(x), scale_of(y)) + t) == 0,
    ensures
        sub_borrow_at(x, y, j) == 0,
    decreases j,
{
    if j > 0 {
        lemma_zeros_no_borrow(x, y, (j - 1) as nat);
        let alpha = min_int(scale_of(x), scale_of(y));
        assert(digit_of(x, alpha + (j - 1)) == 0);
        assert(digit_of(y, alpha + (j - 1)) == 0);
    }
}

/// After `m` long-division steps the remainder stream is zero on its
/// first `m` columns.
#[verifier::rlimit(90)]
#[verifier::spinoff_prover]
pub proof fn lemma_rem_zeros(l: Model, r: Model, k: nat, uinv: nat, m: nat, j: nat)
    requires
        wf(l),
        wf(r),
        base_of(l) == base_of(r),
        k <= SCAN_BOUND,
        uinv < base_of(l),
        (digit_of(r, scale_of(r) + k) * uinv) % base_of(l) == 1,
        j < m,
    ensures
        digit_of(rem_model(l, r, k, uinv, m), j as int) == 0,
    decreases m,
{
    let p = base_of(l) as int;
    lemma_base_pos(l);
    crate::model::lemma_scale_bounded(l);
    crate::model::lemma_scale_bounded(r);
    let mm = (m - 1) as nat;
    let prev = rem_model(l, r, k, uinv, mm);
    let q = quot_digit(l, r, k, uinv, mm);
    let u = digit_of(r, scale_of(r) + k);
    lemma_rem_ddepth(l, r, k, uinv, mm);
    lemma_rem_wf(l, r, k, uinv, mm);
    lemma_rem_scale(l, r, k, uinv, mm);
    lemma_quot_lt(l, r, k, uinv, mm);
    lemma_digit_range(r, scale_of(r) + k);
    assert forall|t: nat| t < mm implies #[trigger] digit_of(prev, t as int) == 0 by {
        lemma_rem_zeros(l, r, k, uinv, mm, t);
    }
    // the digit the step consumed, and the quotient digit made from it
    let rd = digit_of(prev, mm as int);
    lemma_digit_range(prev, mm as int);
    assert(quot_digit(l, r, k, uinv, mm) == (if rd == 0 {
        0nat
    } else {
        (rd * uinv) % base_of(l)
    })) by {
        assert(ddepth(prev) <= crate::model::max_nat(ddepth(l), ddepth(r)));
    }
    // with the unit digit inverted, the quotient digit scaled back by the
    // unit digit gives the consumed digit again
    assert((q * u) % (p as nat) == rd) by {
        if rd == 0 {
            assert((0nat * u) as int % p == 0) by (nonlinear_arith)
                requires
                    p >= 1,
            ;
        } else {
            assert(q == (rd * uinv) % base_of(l));
            vstd::arithmetic::div_mod::lemma_mul_mod_noop_left(
                (rd * uinv) as int,
                u as int,
                p,
            );
            assert((rd * uinv * u) as int % p == (q * u) as int % p);
            assert(rd * uinv * u == rd * (u * uinv)) by (nonlinear_arith);
            vstd::arithmetic::div_mod::lemma_mul_mod_noop_right(rd as int, (u * uinv) as int, p);
            assert((rd * (u * uinv)) as int % p == (rd * (((u * uinv) as int) % p)) % p);
            assert((u * uinv) as int % p == 1) by {
                assert(u * uinv == digit_of(r, scale_of(r) + k) * uinv);
            }
            assert(rd as int * 1 == rd) by (nonlinear_arith);
            vstd::arithmetic::div_mod::lemma_small_mod(rd, p as nat);
        }
    }
    if q == 0 {
        assert(rem_model(l, r, k, uinv, m) == prev);
        assert(rd == 0) by {
            if rd != 0 {
                assert((q * u) % (p as nat) == 0nat) by (nonlinear_arith)
                    requires
                        q == 0,
                        p >= 1,
                        ((0nat * u) as int) % p == ((q * u) as int) % p,
                ;
            }
        }
        if j < mm {
        } else {
            assert(j == mm);
        }
    } else {
        let prod = rem_product(l, r, k, q, m);
        let w = rem_model(l, r, k, uinv, m);
        lemma_rem_product_facts(l, r, k, q, m);
        lemma_rem_product_wf(l, r, k, q, m);
        assert(w == (Model::Sub {
            lhs: Box::new(prev),
            rhs: Box::new(prod),
            adj: crate::model::sub_adj_from(prev, prod, 0),
        }));
        let single = *prod->Mul_lhs;
        let blift = *prod->Mul_rhs;
        assert(single == (Model::Finite {
            p: base_of(l),
            digits: Seq::new(m, |t: int| if t == m - 1 { q } else { 0nat }),
        }));
        assert(base_of(single) == base_of(l));
        assert(scale_of(single) == 0);
        assert(scale_of(blift) == 0);
        assert(digit_of(blift, 0) == u);
        assert(single == (Model::Finite {
            p: base_of(single),
            digits: Seq::new(mm + 1, |x: int| if x == mm { q } else { 0nat }),
        })) by {
            assert(Seq::new(m, |t: int| if t == m - 1 { q } else { 0nat }) =~= Seq::new(
                mm + 1,
                |x: int| if x == mm { q } else { 0nat },
            ));
        }
        // the subtracted stream is empty below the step's column and holds
        // the re-scaled quotient digit there
        assert forall|t: nat| t < mm implies #[trigger] digit_of(prod, t as int) == 0 by {
            lemma_single_convsum_zero(single, blift, q, mm, t + 1);
            assert(digit_of(prod, t as int) == mul_raw(single, blift, t));
            let pt = pow(p, t);
            vstd::arithmetic::power::lemma_pow_positive(p, t);
            vstd::arithmetic::div_mod::lemma_basic_div(0, pt);
            vstd::arithmetic::div_mod::lemma_small_mod(0nat, p as nat);
        }
        assert(digit_of(prod, mm as int) == (q * u) % (p as nat)) by {
            assert(digit_of(prod, mm as int) == mul_raw(single, blift, mm));
            lemma_single_convsum_zero(single, blift, q, mm, mm);
            let pm = pow(p, mm);
            vstd::arithmetic::power::lemma_pow_positive(p, mm);
            assert(conv_part(single, blift, mm, mm + 1) == q * u) by {
                lemma_single_conv_zero_upper(single, blift, q, mm);
            }
            assert(conv_sum(single, blift, mm + 1) as int == 0 + (q * u) as int * pm);
            vstd::arithmetic::div_mod::lemma_div_by_multiple((q * u) as int, pm);
            assert(((q * u) as int * pm) / pm == (q * u) as int);
            lemma_digit_range(r, scale_of(r) + k);
            assert((q * u) as int % p == ((q * u) as nat % (p as nat)) as int);
        }
        // subtracting equal digits over a zero window leaves zeros
        assert(min_int(scale_of(prev), scale_of(prod)) == 0);
        assert forall|t: int|
            0 <= t < j implies #[trigger] digit_of(
            prev,
            min_int(scale_of(prev), scale_of(prod)) + t,
        ) == 0 by {}
        if j <= mm {
            lemma_zeros_no_borrow(prev, prod, j);
            assert(digit_of(w, j as int) == sub_raw(prev, prod, j));
            if j < mm {
                assert(digit_of(prev, j as int) == 0);
                assert(digit_of(prod, j as int) == 0);
                vstd::arithmetic::div_mod::lemma_small_mod(0nat, p as nat);
            } else {
                assert(digit_of(prev, j as int) == rd);
                assert(digit_of(prod, j as int) == (q * u) % (p as nat));
                vstd::arithmetic::div_mod::lemma_small_mod(0nat, p as nat);
                assert((rd - (q * u) % (p as nat) - 0) % p == 0);
            }
        }
    }
}

/// The terms of the step column reduce to the quotient digit times the
/// unit digit.
proof fn lemma_single_conv_zero_upper(single: Model, blift: Model, q: nat, mm: nat)
    requires
        single == (Model::Finite {
            p: base_of(single),
            digits: Seq::new(mm + 1, |x: int| if x == mm { q } else { 0nat }),
        }),
        scale_of(blift) == 0,
    ensures
        conv_part(single, blift, mm, mm + 1) == q * digit_of(blift, 0),
{
    lemma_single_conv_partial(single, blift, q, mm, mm);
    assert(scale_of(single) == 0);
    assert(digit_of(single, mm as int) == q);
    assert(conv_part(single, blift, mm, mm + 1) == conv_part(single, blift, mm, mm) + q
        * digit_of(blift, mm - mm));
}

/// The step column's terms below the literal's digit are zero.
proof fn lemma_single_conv_partial(single: Model, blift: Model, q: nat, mm: nat, t: nat)
    requires
        single == (Model::Finite {
            p: base_of(single),
            digits: Seq::new(mm + 1, |x: int| if x == mm { q } else { 0nat }),
        }),
        t <= mm,
    ensures
        conv_part(single, blift, mm, t) == 0,
    decreases t,
{
    if t > 0 {
        lemma_single_conv_partial(single, blift, q, mm, (t - 1) as nat);
        let j = (t - 1) as nat;
        assert(scale_of(single) == 0);
        assert(digit_of(single, j as int) == 0);
        assert((0nat) * digit_of(blift, scale_of(blift) + mm - j) == 0) by (nonlinear_arith);
    }
}

} // verus!

verus! {

/// Division is an inverse of multiplication at the value level: the
/// partial quotient of `m` steps, multiplied by the divisor's unit
/// part, reproduces the dividend's first `m` aligned digits modulo
/// `base^m`.
pub proof fn lemma_div_correct(l: Model, r: Model, k: nat, uinv: nat, m: nat)
    requires
        wf(l),
        wf(r),
        base_of(l) == base_of(r),
        k <= SCAN_BOUND,
        uinv < base_of(l),
        (digit_of(r, scale_of(r) + k) * uinv) % base_of(l) == 1,
    ensures
        (quot_part(l, r, k, uinv, m) * prefix_val(r, scale_of(r) + k, m)) % pow(
            base_of(l) as int,
            m,
        ) == prefix_val(l, scale_of(l), m) % pow(base_of(l) as int, m),
{
    let p = base_of(l) as int;
    let pm = pow(p, m);
    lemma_base_pos(l);
    vstd::arithmetic::power::lemma_pow_positive(p, m);
    lemma_div_value(l, r, k, uinv, m, m);
    let w = rem_model(l, r, k, uinv, m);
    assert forall|t: int| 0 <= t < m implies #[trigger] digit_of(w, 0 + t) == 0 by {
        lemma_rem_zeros(l, r, k, uinv, m, t as nat);
    }
    lemma_pv_zeros(w, 0, m);
    vstd::arithmetic::div_mod::lemma_small_mod(0nat, pm as nat);
    let av = prefix_val(l, scale_of(l), m);
    let qb = quot_part(l, r, k, uinv, m) * prefix_val(r, scale_of(r) + k, m);
    assert((av - qb) % pm == 0);
    vstd::arithmetic::div_mod::lemma_mod_equivalence(av, qb, pm);
}

} // verus!
