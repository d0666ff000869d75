//! Digit algebra: residues modulo a base `p` held as a runtime value,
//! with the carrying / borrowing / overflowing primitives and, for prime
//! bases, modular inversion.

use vstd::prelude::*;

verus! {

/// `p` has no divisor in `[2, p)` and is at least 2.
pub open spec fn spec_prime(p: int) -> bool {
    p >= 2 && forall|d: int| 2 <= d < p ==> #[trigger] (p % d) != 0
}

/// Decides primality of the base by trial division.
pub fn is_prime_u8(p: u8) -> (r: bool)
    ensures
        r <==> spec_prime(p as int),
{
    if p < 2 {
        return false;
    }
    let mut d: u8 = 2;
    while d < p
        invariant
            2 <= d <= p,
            p >= 2,
            forall|e: int| 2 <= e < d ==> #[trigger] ((p as int) % e) != 0,
        decreases p - d,
    {
        if p % d == 0 {
            return false;
        }
        d = d + 1;
    }
    true
}

/// For a prime base every nonzero digit has a modular inverse: from an
/// inverse of `p mod u` an inverse of `u` follows, descending as in
/// Euclid's algorithm.
pub proof fn lemma_inverse_exists(p: int, u: int)
    requires
        spec_prime(p),
        1 <= u < p,
    ensures
        exists|x: int| 0 <= x < p && #[trigger] ((u * x) % p) == 1,
    decreases u,
{
    if u == 1 {
        vstd::arithmetic::div_mod::lemma_small_mod(1nat, p as nat);
        assert((1int * 1int) % p == 1);
        assert(0 <= 1int < p && ((u * 1int) % p) == 1);
    } else {
        let q = p / u;
        let r = p % u;
        vstd::arithmetic::div_mod::lemma_fundamental_div_mod(p, u);
        vstd::arithmetic::div_mod::lemma_mod_bound(p, u);
        assert(r != 0);
        lemma_inverse_exists(p, r);
        let y = choose|y: int| 0 <= y < p && #[trigger] ((r * y) % p) == 1;
        let x = (p - ((q * y) % p)) % p;
        vstd::arithmetic::div_mod::lemma_mod_bound(q * y, p);
        vstd::arithmetic::div_mod::lemma_mod_bound(p - ((q * y) % p), p);
        assert((u * x) % p == 1) by {
            // u * x is congruent to -(q * u) * y, which is (r - p) * y,
            // which is congruent to r * y, which is one
            vstd::arithmetic::div_mod::lemma_mul_mod_noop_right(u, p - ((q * y) % p), p);
            assert((u * x) % p == (u * (p - ((q * y) % p))) % p);
            assert(u * (p - ((q * y) % p)) == u * p - u * ((q * y) % p)) by (nonlinear_arith);
            vstd::arithmetic::div_mod::lemma_mod_multiples_vanish(u, -(u * ((q * y) % p)), p);
            assert((u * p + -(u * ((q * y) % p))) % p == (-(u * ((q * y) % p))) % p);
            vstd::arithmetic::div_mod::lemma_mul_mod_noop_right(-u, q * y, p);
            assert((-(u * ((q * y) % p))) % p == (-u * ((q * y) % p)) % p) by (nonlinear_arith);
            assert((-u * (q * y)) % p == (-u * ((q * y) % p)) % p);
            assert(-u * (q * y) == (r - p) * y - r * y + (p - q * u) * y - (r - p) * y + (r - p)
                * y) by (nonlinear_arith)
                requires
                    r == p - q * u,
            ;
            assert(-u * (q * y) == (r - p) * y) by (nonlinear_arith)
                requires
                    r == p - q * u,
            ;
            assert(((r - p) * y) % p == (r * y - p * y) % p) by (nonlinear_arith);
            vstd::arithmetic::div_mod::lemma_mod_multiples_vanish(-y, r * y, p);
            assert((-y * p + r * y) % p == (r * y) % p);
            assert(r * y - p * y == -y * p + r * y) by (nonlinear_arith);
            assert((r * y) % p == 1);
        }
        assert(0 <= x < p && ((u * x) % p) == 1);
    }
}

/// Base-p addition of two digits: the wrapped sum and the carry flag.
pub fn digit_add_carry(p: u8, a: u8, b: u8) -> (r: (u8, bool))
    requires
        a < p,
        b < p,
    ensures
        r.0 < p,
        r.0 as int == (a + b) % (p as int),
        r.1 <==> a + b >= p,
{
    let s: u16 = a as u16 + b as u16;
    if s >= p as u16 {
        let w = (s - p as u16) as u8;
        assert(w as int == (a + b) % (p as int)) by {
            vstd::arithmetic::div_mod::lemma_mod_sub_multiples_vanish(
                (a + b) as int,
                p as int,
            );
            vstd::arithmetic::div_mod::lemma_small_mod((a + b - p) as nat, p as nat);
        }
        (w, true)
    } else {
        assert((a + b) % (p as int) == a + b) by {
            vstd::arithmetic::div_mod::lemma_small_mod((a + b) as nat, p as nat);
        }
        (a + b, false)
    }
}

/// Base-p subtraction of two digits: the wrapped (non-negative) difference
/// and the borrow flag.
pub fn digit_sub_borrow(p: u8, a: u8, b: u8) -> (r: (u8, bool))
    requires
        a < p,
        b < p,
    ensures
        r.0 < p,
        r.0 as int == (a - b) % (p as int),
        r.1 <==> a < b,
{
    if a >= b {
        assert((a - b) % (p as int) == a - b) by {
            vstd::arithmetic::div_mod::lemma_small_mod((a - b) as nat, p as nat);
        }
        (a - b, false)
    } else {
        let w = (a as u16 + p as u16 - b as u16) as u8;
        assert(w as int == (a - b) % (p as int)) by {
            vstd::arithmetic::div_mod::lemma_mod_add_multiples_vanish(
                (a - b) as int,
                p as int,
            );
            vstd::arithmetic::div_mod::lemma_small_mod((a + p - b) as nat, p as nat);
        }
        (w, true)
    }
}

/// Base-p multiplication of two digits as a two-digit result `(low, high)`.
pub fn digit_mul_overflow(p: u8, a: u8, b: u8) -> (r: (u8, u8))
    requires
        a < p,
        b < p,
    ensures
        r.0 < p,
        r.1 < p,
        r.0 as int == (a * b) % (p as int),
        r.1 as int == (a * b) / (p as int),
        a * b == r.1 * p + r.0,
{
    proof {
        assert(a as int * b as int <= 254 * 254) by (nonlinear_arith)
            requires
                a <= 254,
                b <= 254,
        ;
    }
    let m: u16 = a as u16 * b as u16;
    let lo = (m % (p as u16)) as u8;
    let hi = (m / (p as u16)) as u8;
    proof {
        vstd::arithmetic::div_mod::lemma_fundamental_div_mod(m as int, p as int);
        vstd::arithmetic::div_mod::lemma_mod_bound(m as int, p as int);
        assert(m < p * p) by (nonlinear_arith)
            requires
                a < p,
                b < p,
                m == a * b,
        ;
        assert((m as int) / (p as int) < p as int) by (nonlinear_arith)
            requires
                p >= 1,
                m < p * p,
                m >= 0,
        ;
    }
    (lo, hi)
}

/// The modular inverse of `a` in base `p`, found by trial multiplication;
/// `None` exactly when no digit multiplies with `a` to 1 modulo `p`.
pub fn digit_inverse(p: u8, a: u8) -> (r: Option<u8>)
    requires
        a < p,
    ensures
        match r {
            Some(x) => x < p && (a * x) % (p as int) == 1,
            None => forall|x: int| 0 <= x < p ==> #[trigger] ((a * x) % (p as int)) != 1,
        },
{
    let mut i: u8 = 0;
    while i < p
        invariant
            i <= p,
            a < p,
            forall|x: int| 0 <= x < i ==> #[trigger] ((a * x) % (p as int)) != 1,
        decreases p - i,
    {
        proof {
            assert(a as int * i as int <= 254 * 254) by (nonlinear_arith)
                requires
                    a <= 254,
                    i <= 254,
            ;
        }
        let m: u16 = a as u16 * i as u16;
        if m % (p as u16) == 1 {
            return Some(i);
        }
        i = i + 1;
    }
    None
}

/// The digit standing for a carry or borrow flag: one or zero.
pub fn digit_from_bool(p: u8, value: bool) -> (r: u8)
    requires
        p >= 1,
    ensures
        r < p || (r == 1 && p == 1),
        r as int == if value { 1int } else { 0int },
{
    if value {
        1
    } else {
        0
    }
}

/// A residue modulo the base carried in the value itself.
#[derive(Clone, Copy, Debug, PartialEq, Eq, Structural)]
pub struct AddGroupU8 {
    base: u8,
    val: u8,
}

/// The common spec view of a digit value: its base and its residue.
pub trait Value: Sized {
    spec fn base(&self) -> int;

    spec fn val(&self) -> int;

    open spec fn wf(&self) -> bool {
        0 <= self.val() < self.base()
    }

    fn from_bool(p: u8, value: bool) -> (r: Self)
        requires
            p >= 2,
        ensures
            r.wf(),
            r.base() == p as int,
            r.val() == if value { 1int } else { 0int },
    ;
}

pub trait Zero: Value {
    fn zero(p: u8) -> (r: Self)
        requires
            p >= 1,
        ensures
            r.wf(),
            r.base() == p as int,
            r.val() == 0,
    ;

    fn is_zero(&self) -> (r: bool)
        ensures
            r <==> self.val() == 0,
    ;
}

pub trait One: Value {
    fn one(p: u8) -> (r: Self)
        requires
            p >= 2,
        ensures
            r.wf(),
            r.base() == p as int,
            r.val() == 1,
    ;

    fn is_one(&self) -> (r: bool)
        ensures
            r <==> self.val() == 1,
    ;
}

pub trait CarryingAdd: Value {
    /// Carrying addition, wrapping on the base: `(value, carry)`, carrying
    /// whenever the unwrapped sum would reach the base.
    fn add_carry(self, rhs: Self) -> (r: (Self, bool))
        requires
            self.wf(),
            rhs.wf(),
            self.base() == rhs.base(),
        ensures
            r.0.wf(),
            r.0.base() == self.base(),
            r.0.val() == (self.val() + rhs.val()) % self.base(),
            r.1 <==> self.val() + rhs.val() >= self.base(),
    ;
}

pub trait BorrowingSub: Value {
    /// Borrowing subtraction, wrapping on the base: `(value, borrow)`,
    /// borrowing whenever the unwrapped difference would go negative.
    fn sub_borrow(self, rhs: Self) -> (r: (Self, bool))
        requires
            self.wf(),
            rhs.wf(),
            self.base() == rhs.base(),
        ensures
            r.0.wf(),
            r.0.base() == self.base(),
            r.0.val() == (self.val() - rhs.val()) % self.base(),
            r.1 <==> self.val() < rhs.val(),
    ;
}

pub trait OverflowingMul: Value {
    /// Overflowing multiplication: the result acts as the two-digit number
    /// "`r.1` `r.0`" in the base.
    fn mul_overflow(self, rhs: Self) -> (r: (Self, Self))
        requires
            self.wf(),
            rhs.wf(),
            self.base() == rhs.base(),
        ensures
            r.0.wf(),
            r.1.wf(),
            r.0.base() == self.base(),
            r.1.base() == self.base(),
            r.0.val() == (self.val() * rhs.val()) % self.base(),
            r.1.val() == (self.val() * rhs.val()) / self.base(),
    ;
}

pub trait Invertible: Value {
    /// Whether every nonzero digit of base `p` has a modular inverse,
    /// that is, whether `p` is prime.
    fn is_invertible(p: u8) -> (r: bool)
        ensures
            r <==> spec_prime(p as int),
    ;

    /// The unique digit multiplying with `self` to 1 modulo the base;
    /// `None` exactly when no such digit exists.
    fn inverse(self) -> (r: Option<Self>)
        requires
            self.wf(),
        ensures
            match r {
                Some(x) => {
                    &&& x.wf()
                    &&& x.base() == self.base()
                    &&& (self.val() * x.val()) % self.base() == 1
                },
                None => forall|x: int|
                    0 <= x < self.base() ==> #[trigger] ((self.val() * x) % self.base()) != 1,
            },
    ;
}

impl AddGroupU8 {
    /// A digit of base `p`; `None` when the value does not fit the base.
    pub fn new(p: u8, val: u8) -> (r: Option<AddGroupU8>)
        ensures
            match r {
                Some(g) => g.wf() && g.base() == p as int && g.val() == val as int,
                None => val >= p,
            },
    {
        if val < p {
            Some(AddGroupU8 { base: p, val })
        } else {
            None
        }
    }

    /// Digits of base `p` from raw values; `None` when any value does not
    /// fit the base.
    pub fn new_vec(p: u8, values: Vec<u8>) -> (r: Option<Vec<AddGroupU8>>)
        ensures
            match r {
                Some(gs) => {
                    &&& gs.len() == values.len()
                    &&& forall|t: int|
                        0 <= t < gs.len() ==> {
                            &&& (#[trigger] gs[t]).wf()
                            &&& gs[t].base() == p as int
                            &&& gs[t].val() == values[t] as int
                        }
                },
                None => exists|t: int| 0 <= t < values.len() && #[trigger] values[t] >= p,
            },
    {
        let mut out: Vec<AddGroupU8> = Vec::new();
        let mut idx: usize = 0;
        while idx < values.len()
            invariant
                idx <= values.len(),
                out.len() == idx,
                forall|t: int|
                    0 <= t < idx ==> {
                        &&& (#[trigger] out[t]).wf()
                        &&& out[t].base() == p as int
                        &&& out[t].val() == values[t] as int
                    },
            decreases values.len() - idx,
        {
            match Self::new(p, values[idx]) {
                Some(g) => out.push(g),
                None => {
                    return None;
                },
            }
            idx = idx + 1;
        }
        Some(out)
    }
}

impl Value for AddGroupU8 {
    closed spec fn base(&self) -> int {
        self.base as int
    }

    closed spec fn val(&self) -> int {
        self.val as int
    }

    fn from_bool(p: u8, value: bool) -> (r: Self) {
        AddGroupU8 { base: p, val: digit_from_bool(p, value) }
    }
}

impl Zero for AddGroupU8 {
    fn zero(p: u8) -> (r: Self) {
        AddGroupU8 { base: p, val: 0 }
    }

    fn is_zero(&self) -> (r: bool) {
        self.val == 0
    }
}

impl One for AddGroupU8 {
    fn one(p: u8) -> (r: Self) {
        AddGroupU8 { base: p, val: 1 }
    }

    fn is_one(&self) -> (r: bool) {
        self.val == 1
    }
}

impl CarryingAdd for AddGroupU8 {
    fn add_carry(self, rhs: Self) -> (r: (Self, bool)) {
        let (v, c) = digit_add_carry(self.base, self.val, rhs.val);
        (AddGroupU8 { base: self.base, val: v }, c)
    }
}

impl BorrowingSub for AddGroupU8 {
    fn sub_borrow(self, rhs: Self) -> (r: (Self, bool)) {
        let (v, w) = digit_sub_borrow(self.base, self.val, rhs.val);
        (AddGroupU8 { base: self.base, val: v }, w)
    }
}

impl OverflowingMul for AddGroupU8 {
    fn mul_overflow(self, rhs: Self) -> (r: (Self, Self)) {
        let (lo, hi) = digit_mul_overflow(self.base, self.val, rhs.val);
        (AddGroupU8 { base: self.base, val: lo }, AddGroupU8 { base: self.base, val: hi })
    }
}

impl Invertible for AddGroupU8 {
    fn is_invertible(p: u8) -> (r: bool) {
        is_prime_u8(p)
    }

    fn inverse(self) -> (r: Option<Self>) {
        match digit_inverse(self.base, self.val) {
            Some(x) => Some(AddGroupU8 { base: self.base, val: x }),
            None => None,
        }
    }
}

} // verus!
