//! The stream abstraction: a handle to a lazily evaluated p-adic number.
//! A `PadicNumber` owns one `Producer`, which answers digit queries
//! (memoizing per producer) and reports its scale. The accessor traits
//! carry the common contract: a digit query returns the digit of the
//! producer's mathematical model and leaves that model unchanged.

use vstd::prelude::*;

use crate::model::{
    base_of, digit_of, hi_allow, scale_of, wf, Model, IDX_BOUND, SCALE_BOUND,
};
use crate::padic_primitive::{FinitePadicInteger, RepeatingPadicInteger};

verus! {

/// Everything that can go wrong while building or evaluating a number.
#[derive(Clone, Copy, Debug, PartialEq, Eq, Structural)]
pub enum PadicError {
    /// A literal or input supplied a digit at or above the base.
    DigitOutOfRange,
    /// Two operands carry different bases.
    MismatchedBase,
    /// The base is zero.
    TooSmallBase,
    /// Division in a base that is not prime.
    NotInvertible,
    /// A divisor whose digits are all zero up to the scan bound.
    DivisionByZero,
    /// A token the lexer does not recognize.
    UnknownToken,
    /// A parenthesized digit group whose value does not fit a digit.
    DigitGroupTooBig,
    /// A second decimal point inside one number.
    TwoDecimalPoints,
    /// More repeated digits requested than digits given.
    RepeatTooLong,
    /// An expression that does not leave exactly one value on the stack.
    UnbalancedStack,
    /// A reference to a name with no bound value.
    UnknownVariable,
    /// Brackets are reserved and unsupported.
    BracketsUnsupported,
    /// An input too large for the machine limits of the engine.
    InputTooLarge,
}

/// A producer of one p-adic number: a literal source, a lifted
/// integer-aligned view, or an arithmetic combinator.
pub enum Producer {
    Finite(FinitePadicInteger),
    Repeating(RepeatingPadicInteger),
    Lift(PadicIntegerToNumber),
    Add(crate::padic_add::AdditivePadicIntegerScaler),
    Sub(crate::padic_sub::SubtractivePadicIntegerScaler),
    Mul(crate::padic_mul::MultiplicativePadicIntegerScaler),
    Div(crate::padic_div::DivisivePadicIntegerScaler),
}

/// An owning handle to a producer. Arithmetic on handles builds new
/// producers that hold their operands; querying a digit may fill the
/// producer's interior caches, but never changes the number it stands
/// for.
pub struct PadicNumber {
    pub producer: Producer,
}

/// The model of a number handle: the model of its producer.
pub open spec fn n_model(n: PadicNumber) -> Model
    decreases n,
{
    p_model(n.producer)
}

/// The model of a producer, by structure.
pub open spec fn p_model(pr: Producer) -> Model
    decreases pr,
{
    match pr {
        Producer::Finite(f) => Model::Finite {
            p: f.p as nat,
            digits: crate::padic_primitive::digits_seq(f.digits),
        },
        Producer::Repeating(r) => Model::Repeating {
            p: r.p as nat,
            cycle: crate::padic_primitive::digits_seq(r.repeating_digits),
        },
        Producer::Lift(l) => Model::Lift {
            inner: Box::new(n_model(*l.inner.inner)),
            align: l.inner.scale as int,
            scale: l.scale as int,
        },
        Producer::Add(a) => Model::Add {
            lhs: Box::new(n_model(*a.inner.lhs.inner)),
            rhs: Box::new(n_model(*a.inner.rhs.inner)),
            adj: a.adj as nat,
        },
        Producer::Sub(s) => Model::Sub {
            lhs: Box::new(n_model(*s.inner.lhs.inner)),
            rhs: Box::new(n_model(*s.inner.rhs.inner)),
            adj: s.adj as nat,
        },
        Producer::Mul(m) => Model::Mul {
            lhs: Box::new(n_model(*m.inner.lhs.inner)),
            rhs: Box::new(n_model(*m.inner.rhs.inner)),
        },
        Producer::Div(d) => Model::Div {
            lhs: Box::new(n_model(*d.inner.lhs)),
            rhs: Box::new(n_model(*d.inner.rhs.inner)),
            k: d.inner.scale_adjustment as nat,
            uinv: d.inner.uinv as nat,
        },
    }
}

/// The invariant of a number handle: the invariant of its producer.
pub open spec fn n_inv(n: PadicNumber) -> bool
    decreases n,
{
    p_inv(n.producer)
}

/// The invariant of a producer: its model is well formed, its stored
/// scales are bounded, and its interior caches agree with the model.
pub open spec fn p_inv(pr: Producer) -> bool
    decreases pr,
{
    match pr {
        Producer::Finite(f) => wf(p_model(pr)),
        Producer::Repeating(r) => wf(p_model(pr)),
        Producer::Lift(l) => {
            &&& l.inner.iinv_spec()
            &&& -SCALE_BOUND <= l.scale <= SCALE_BOUND
        },
        Producer::Add(a) => a.inv_spec(),
        Producer::Sub(s) => s.inv_spec(),
        Producer::Mul(m) => m.inv_spec(),
        Producer::Div(d) => d.inv_spec(),
    }
}

impl View for PadicNumber {
    type V = Model;

    open spec fn view(&self) -> Model {
        n_model(*self)
    }
}

/// A producer of a full (scaled) p-adic number.
///
/// `model` is the mathematical number the producer stands for and
/// `inv` its well-formedness, which every construction establishes and
/// every query preserves: a digit query returns exactly the model's
/// digit and leaves the model unchanged.
pub trait PadicAccessor: Sized {
    spec fn model(&self) -> Model;

    spec fn inv(&self) -> bool;

    fn get_digit(&mut self, index: i64) -> (d: u8)
        requires
            old(self).inv(),
            -IDX_BOUND <= index,
            index <= hi_allow(old(self).model()),
        ensures
            final(self).inv(),
            final(self).model() == old(self).model(),
            d as nat == digit_of(old(self).model(), index as int),
    ;

    fn get_scale(&self) -> (s: i64)
        requires
            self.inv(),
        ensures
            s as int == scale_of(self.model()),
    ;

    fn to_dyn(self) -> (n: PadicNumber)
        requires
            self.inv(),
        ensures
            n_inv(n),
            n_model(n) == self.model(),
    ;
}

/// A producer of an integer-aligned digit sequence: digit queries take
/// indices from zero upward. `idigit` is the digit function it stands
/// for, `allow` the largest admissible query index.
pub trait PadicIntegerAccessor: View + Sized {
    spec fn iinv(&self) -> bool;

    spec fn idigit(&self, j: int) -> nat;

    spec fn iallow(&self) -> int;

    fn get_integer_digit(&mut self, index: i64) -> (d: u8)
        requires
            old(self).iinv(),
            0 <= index,
            index <= old(self).iallow(),
        ensures
            final(self).iinv(),
            final(self)@ == old(self)@,
            d as nat == old(self).idigit(index as int),
    ;
}

/// Copies a digit vector.
pub fn clone_digits(v: &Vec<u8>) -> (r: Vec<u8>)
    ensures
        r@ == v@,
{
    let mut out: Vec<u8> = Vec::new();
    let mut i: usize = 0;
    while i < v.len()
        invariant
            i <= v.len(),
            out@ == v@.take(i as int),
        decreases v.len() - i,
    {
        out.push(v[i]);
        proof {
            assert(out@ =~= v@.take(i + 1));
        }
        i = i + 1;
    }
    proof {
        assert(v@.take(v@.len() as int) =~= v@);
    }
    out
}

impl Clone for PadicNumber {
    /// A deep copy standing for the same number. A handle owns its
    /// producer tree outright — nothing here shares one producer's
    /// memo between handles — so a copy recomputes digits its source
    /// had already cached; the arithmetic meaning is unchanged.
    fn clone(&self) -> (r: Self)
        ensures
            n_model(r) == n_model(*self),
            n_inv(r) == n_inv(*self),
        decreases *self,
            3int,
    {
        match &self.producer {
            Producer::Finite(f) => PadicNumber { producer: Producer::Finite(f.clone()) },
            Producer::Repeating(x) => PadicNumber { producer: Producer::Repeating(x.clone()) },
            Producer::Lift(l) => PadicNumber { producer: Producer::Lift(l.clone()) },
            Producer::Add(a) => PadicNumber { producer: Producer::Add(a.clone()) },
            Producer::Sub(x) => PadicNumber { producer: Producer::Sub(x.clone()) },
            Producer::Mul(m) => PadicNumber { producer: Producer::Mul(m.clone()) },
            Producer::Div(d) => PadicNumber { producer: Producer::Div(d.clone()) },
        }
    }
}

impl Clone for PadicNumberScaler {
    fn clone(&self) -> (r: Self)
        ensures
            n_model(*r.inner) == n_model(*self.inner),
            n_inv(*r.inner) == n_inv(*self.inner),
            r.scale == self.scale,
        decreases *self,
            4int,
    {
        PadicNumberScaler { inner: Box::new((*self.inner).clone()), scale: self.scale }
    }
}

impl Clone for PadicIntegerToNumber {
    fn clone(&self) -> (r: Self)
        ensures
            r.model() == self.model(),
            r.inv() == self.inv(),
        decreases *self,
            2int,
    {
        PadicIntegerToNumber { inner: self.inner.clone(), scale: self.scale }
    }
}

pub use crate::model::ALLOW_SAT;

impl PadicNumber {
    /// The headroom probe: exactly `est_allow` of the model, which is a
    /// sound lower estimate of the largest admissible query index until
    /// it saturates far below zero.
    pub fn get_allow(&self) -> (r: i64)
        requires
            self.inv_spec(),
        ensures
            r as int == crate::model::est_allow(self@),
            r as int <= crate::model::hi_allow(self@) || r == ALLOW_SAT,
            r <= crate::model::IDX_BOUND,
            r >= ALLOW_SAT,
        decreases *self,
    {
        proof {
            crate::model::lemma_hi_allow_le(self@);
        }
        let raw: i64 = match &self.producer {
            Producer::Finite(..) => crate::model::IDX_BOUND,
            Producer::Repeating(..) => crate::model::IDX_BOUND,
            Producer::Lift(l) => {
                proof {
                    assert(l.inner.iinv_spec());
                }
                let inner = l.inner.inner.get_allow();
                if inner == ALLOW_SAT {
                    ALLOW_SAT
                } else {
                    let v = inner + l.scale - l.inner.scale;
                    if v > crate::model::IDX_BOUND {
                        crate::model::IDX_BOUND
                    } else {
                        v
                    }
                }
            },
            Producer::Add(a) => {
                proof {
                    assert(a.inv_spec());
                    assert(a.inner.iinv_spec());
                    assert(a.inner.lhs.iinv_spec());
                    assert(a.inner.rhs.iinv_spec());
                }
                let x = a.inner.lhs.inner.get_allow();
                let y = a.inner.rhs.inner.get_allow();
                if x == ALLOW_SAT || y == ALLOW_SAT {
                    ALLOW_SAT
                } else if x <= y {
                    x
                } else {
                    y
                }
            },
            Producer::Sub(sx) => {
                proof {
                    assert(sx.inv_spec());
                    assert(sx.inner.iinv_spec());
                    assert(sx.inner.lhs.iinv_spec());
                    assert(sx.inner.rhs.iinv_spec());
                }
                let x = sx.inner.lhs.inner.get_allow();
                let y = sx.inner.rhs.inner.get_allow();
                if x == ALLOW_SAT || y == ALLOW_SAT {
                    ALLOW_SAT
                } else if x <= y {
                    x
                } else {
                    y
                }
            },
            Producer::Mul(m) => {
                proof {
                    assert(m.inv_spec());
                    assert(m.inner.iinv_spec());
                    assert(m.inner.lhs.iinv_spec());
                    assert(m.inner.rhs.iinv_spec());
                    crate::padic::lemma_n_inv_wf(*m.inner.lhs.inner);
                    crate::padic::lemma_n_inv_wf(*m.inner.rhs.inner);
                    crate::model::lemma_scale_bounded(n_model(*m.inner.lhs.inner));
                    crate::model::lemma_scale_bounded(n_model(*m.inner.rhs.inner));
                }
                let xa = m.inner.lhs.inner.get_allow();
                let ya = m.inner.rhs.inner.get_allow();
                if xa == ALLOW_SAT || ya == ALLOW_SAT {
                    ALLOW_SAT
                } else {
                    let x = xa + m.inner.rhs.inner.get_scale();
                    let y = ya + m.inner.lhs.inner.get_scale();
                    let v = if x <= y {
                        x
                    } else {
                        y
                    };
                    if v > crate::model::IDX_BOUND {
                        crate::model::IDX_BOUND
                    } else {
                        v
                    }
                }
            },
            Producer::Div(d) => {
                proof {
                    assert(d.inv_spec());
                    assert(d.inner.inv_spec());
                    assert(d.inner.rhs.iinv_spec());
                }
                let x = d.inner.lhs.get_allow();
                let y = d.inner.rhs.inner.get_allow();
                if x == ALLOW_SAT || y == ALLOW_SAT {
                    ALLOW_SAT
                } else {
                    let v = if x <= y {
                        x
                    } else {
                        y
                    };
                    v - crate::model::DIV_MARGIN
                }
            },
        };
        if raw < ALLOW_SAT {
            ALLOW_SAT
        } else {
            raw
        }
    }
}

/// A well-formed producer stands for a well-formed model.
pub proof fn lemma_n_inv_wf(n: PadicNumber)
    requires
        n_inv(n),
    ensures
        wf(n_model(n)),
    decreases n,
{
    match n.producer {
        Producer::Finite(..) => {},
        Producer::Repeating(..) => {},
        Producer::Lift(l) => {
            lemma_n_inv_wf(*l.inner.inner);
        },
        Producer::Add(a) => {
            assert(a.inv_spec());
            assert(a.inner.iinv_spec());
            assert(n_inv(*a.inner.lhs.inner));
            assert(n_inv(*a.inner.rhs.inner));
            lemma_n_inv_wf(*a.inner.lhs.inner);
            lemma_n_inv_wf(*a.inner.rhs.inner);
        },
        Producer::Sub(s) => {
            assert(s.inv_spec());
            assert(s.inner.iinv_spec());
            assert(n_inv(*s.inner.lhs.inner));
            assert(n_inv(*s.inner.rhs.inner));
            lemma_n_inv_wf(*s.inner.lhs.inner);
            lemma_n_inv_wf(*s.inner.rhs.inner);
        },
        Producer::Mul(m) => {
            assert(m.inv_spec());
            assert(m.inner.iinv_spec());
            assert(n_inv(*m.inner.lhs.inner));
            assert(n_inv(*m.inner.rhs.inner));
            lemma_n_inv_wf(*m.inner.lhs.inner);
            lemma_n_inv_wf(*m.inner.rhs.inner);
        },
        Producer::Div(d) => {
            assert(d.inv_spec());
            assert(n_inv(*d.inner.lhs));
            assert(n_inv(*d.inner.rhs.inner));
            lemma_n_inv_wf(*d.inner.lhs);
            lemma_n_inv_wf(*d.inner.rhs.inner);
        },
    }
}

impl PadicNumber {
    pub open spec fn inv_spec(&self) -> bool {
        n_inv(*self)
    }

    /// The base every digit of this number lives under.
    pub fn get_base(&self) -> (p: u8)
        requires
            self.inv(),
        ensures
            p as nat == crate::model::base_of(self@),
        decreases *self,
    {
        proof {
            assert(p_inv(self.producer));
        }
        match &self.producer {
            Producer::Finite(f) => f.p,
            Producer::Repeating(r) => r.p,
            Producer::Lift(l) => l.inner.inner.get_base(),
            Producer::Add(a) => {
                proof {
                    assert(a.inv_spec());
                    assert(a.inner.iinv_spec());
                }
                a.inner.p
            },
            Producer::Sub(s) => {
                proof {
                    assert(s.inv_spec());
                    assert(s.inner.iinv_spec());
                }
                s.inner.p
            },
            Producer::Mul(m) => {
                proof {
                    assert(m.inv_spec());
                    assert(m.inner.iinv_spec());
                }
                m.inner.p
            },
            Producer::Div(d) => {
                proof {
                    assert(d.inv_spec());
                    assert(d.inner.inv_spec());
                }
                d.inner.p
            },
        }
    }

    /// Wraps a producer into a number handle.
    pub fn new(producer: Producer) -> (n: PadicNumber)
        requires
            p_inv(producer),
        ensures
            n.inv(),
            n@ == p_model(producer),
    {
        PadicNumber { producer }
    }
}

impl PadicAccessor for PadicNumber {
    open spec fn model(&self) -> Model {
        self@
    }

    open spec fn inv(&self) -> bool {
        self.inv_spec()
    }

    fn get_digit(&mut self, index: i64) -> (d: u8)
        decreases
            crate::model::ddepth(old(self)@),
            crate::model::msize(old(self)@),
            0int,
            3int,
    {
        match &mut self.producer {
            Producer::Finite(f) => f.get_digit(index),
            Producer::Repeating(r) => r.get_digit(index),
            Producer::Lift(l) => l.get_digit(index),
            Producer::Add(a) => a.get_digit(index),
            Producer::Sub(s) => s.get_digit(index),
            Producer::Mul(m) => m.get_digit(index),
            Producer::Div(d) => d.get_digit(index),
        }
    }

    fn get_scale(&self) -> (s: i64) {
        match &self.producer {
            Producer::Finite(f) => f.get_scale(),
            Producer::Repeating(r) => r.get_scale(),
            Producer::Lift(l) => l.get_scale(),
            Producer::Add(a) => a.get_scale(),
            Producer::Sub(s) => s.get_scale(),
            Producer::Mul(m) => m.get_scale(),
            Producer::Div(d) => d.get_scale(),
        }
    }

    fn to_dyn(self) -> (n: PadicNumber) {
        self
    }
}

/// An integer-aligned view of a number: integer digit `j` is the
/// number's digit at `j + scale`.
pub struct PadicNumberScaler {
    pub inner: Box<PadicNumber>,
    pub scale: i64,
}

impl PadicNumberScaler {
    pub open spec fn iinv_spec(&self) -> bool
        decreases self,
    {
        &&& n_inv(*self.inner)
        &&& -2 * SCALE_BOUND <= self.scale <= 2 * SCALE_BOUND
    }

    /// Wraps `number` so that integer index `j` reads digit `j + scale`.
    pub fn new(number: PadicNumber, scale: i64) -> (r: PadicNumberScaler)
        requires
            number.inv(),
            -2 * SCALE_BOUND <= scale <= 2 * SCALE_BOUND,
        ensures
            r.iinv(),
            r@ == (number@, scale as int),
            forall|j: int| #[trigger] r.idigit(j) == digit_of(number@, j + scale),
            r.iallow() == hi_allow(number@) - scale,
    {
        PadicNumberScaler { inner: Box::new(number), scale }
    }
}

impl View for PadicNumberScaler {
    type V = (Model, int);

    open spec fn view(&self) -> (Model, int) {
        (n_model(*self.inner), self.scale as int)
    }
}

impl PadicIntegerAccessor for PadicNumberScaler {
    open spec fn iinv(&self) -> bool {
        self.iinv_spec()
    }


    open spec fn idigit(&self, j: int) -> nat {
        digit_of(n_model(*self.inner), j + self.scale)
    }

    open spec fn iallow(&self) -> int {
        hi_allow(n_model(*self.inner)) - self.scale
    }

    fn get_integer_digit(&mut self, index: i64) -> (d: u8)
        decreases
            crate::model::ddepth(old(self).inner@),
            crate::model::msize(old(self).inner@),
            0int,
            4int,
    {
        proof {
            crate::model::lemma_hi_allow_le(n_model(*self.inner));
        }
        self.inner.get_digit(index + self.scale)
    }
}

/// Re-aligns an integer-aligned producer as a full number with a target
/// scale: digits below `scale` are zero, digit `i` from there on is the
/// integer digit at `i - scale`.
pub struct PadicIntegerToNumber {
    pub inner: PadicNumberScaler,
    pub scale: i64,
}

impl PadicIntegerToNumber {
    /// Lifts `inner` to a number whose scale is `scale`.
    pub fn new(inner: PadicNumberScaler, scale: i64) -> (r: PadicIntegerToNumber)
        requires
            inner.iinv(),
            -SCALE_BOUND <= scale <= SCALE_BOUND,
        ensures
            r.inv(),
            r.model() == (Model::Lift {
                inner: Box::new(inner.inner@),
                align: inner.scale as int,
                scale: scale as int,
            }),
    {
        PadicIntegerToNumber { inner, scale }
    }
}

impl PadicAccessor for PadicIntegerToNumber {
    open spec fn model(&self) -> Model {
        Model::Lift {
            inner: Box::new(n_model(*self.inner.inner)),
            align: self.inner.scale as int,
            scale: self.scale as int,
        }
    }

    open spec fn inv(&self) -> bool {
        &&& self.inner.iinv_spec()
        &&& -SCALE_BOUND <= self.scale <= SCALE_BOUND
    }

    fn get_digit(&mut self, index: i64) -> (d: u8)
        decreases
            crate::model::ddepth(old(self).model()),
            crate::model::msize(old(self).model()),
            0int,
            2int,
    {
        if index < self.scale {
            0
        } else {
            self.inner.get_integer_digit(index - self.scale)
        }
    }

    fn get_scale(&self) -> (s: i64) {
        self.scale
    }

    fn to_dyn(self) -> (n: PadicNumber) {
        PadicNumber { producer: Producer::Lift(self) }
    }
}

/// The character for one decimal digit value.
pub open spec fn decimal_char(d: nat) -> char {
    if d == 0 {
        '0'
    } else if d == 1 {
        '1'
    } else if d == 2 {
        '2'
    } else if d == 3 {
        '3'
    } else if d == 4 {
        '4'
    } else if d == 5 {
        '5'
    } else if d == 6 {
        '6'
    } else if d == 7 {
        '7'
    } else if d == 8 {
        '8'
    } else {
        '9'
    }
}

/// The decimal text of a digit value below 256.
pub open spec fn dec_chars(d: nat) -> Seq<char> {
    if d < 10 {
        seq![decimal_char(d)]
    } else if d < 100 {
        seq![decimal_char(d / 10), decimal_char(d % 10)]
    } else {
        seq![decimal_char(d / 100), decimal_char((d / 10) % 10), decimal_char(d % 10)]
    }
}

/// How one digit is printed: the bare character in bases up to ten,
/// else the decimal value in parentheses.
pub open spec fn digit_chars(p: nat, d: nat) -> Seq<char> {
    if p <= 10 {
        seq![decimal_char(d)]
    } else {
        seq!['('] + dec_chars(d) + seq![')']
    }
}

/// The printed integer part: digits from index `n - 1` down to 0, most
/// significant leftmost.
pub open spec fn int_chars(m: Model, n: nat) -> Seq<char>
    decreases n,
{
    if n == 0 {
        Seq::<char>::empty()
    } else {
        digit_chars(base_of(m), digit_of(m, n - 1)) + int_chars(m, (n - 1) as nat)
    }
}

/// The fractional digits as printed: the digits at indices `-1` down to
/// `scale`, the one nearest the point first.
pub open spec fn frac_seq(m: Model) -> Seq<nat> {
    if scale_of(m) >= 0 {
        Seq::<nat>::empty()
    } else {
        Seq::new((0 - scale_of(m)) as nat, |t: int| digit_of(m, -1 - t))
    }
}

/// Drops the zeros at the front of a digit list.
pub open spec fn strip_zeros(s: Seq<nat>) -> Seq<nat>
    decreases s.len(),
{
    if s.len() == 0 || s[0] != 0 {
        s
    } else {
        strip_zeros(s.drop_first())
    }
}

/// The printed form of a digit list under base `p`.
pub open spec fn digits_chars(p: nat, s: Seq<nat>) -> Seq<char>
    decreases s.len(),
{
    if s.len() == 0 {
        Seq::<char>::empty()
    } else {
        digit_chars(p, s[0]) + digits_chars(p, s.drop_first())
    }
}

/// The full rendering of a number at a given view size: the integer
/// digits, then, when any nonzero fractional digit exists, a point and
/// the fractional digits with the zeros nearest the point stripped.
pub open spec fn render_chars(m: Model, n: nat) -> Seq<char> {
    let frac = strip_zeros(frac_seq(m));
    if frac.len() == 0 {
        int_chars(m, n)
    } else {
        int_chars(m, n) + seq!['.'] + digits_chars(base_of(m), frac)
    }
}

/// Appends the character of one decimal digit value.
fn push_decimal_char(out: &mut String, d: u8)
    requires
        d < 10,
    ensures
        final(out)@ == old(out)@ + seq![decimal_char(d as nat)],
{
    proof {
        reveal_strlit("0");
        reveal_strlit("1");
        reveal_strlit("2");
        reveal_strlit("3");
        reveal_strlit("4");
        reveal_strlit("5");
        reveal_strlit("6");
        reveal_strlit("7");
        reveal_strlit("8");
        reveal_strlit("9");
    }
    let t: &str = match d {
        0 => "0",
        1 => "1",
        2 => "2",
        3 => "3",
        4 => "4",
        5 => "5",
        6 => "6",
        7 => "7",
        8 => "8",
        _ => "9",
    };
    out.append(t);
    proof {
        assert(final(out)@ =~= old(out)@ + seq![decimal_char(d as nat)]);
    }
}

/// Appends the printed form of one digit: bare in bases up to ten, else
/// the decimal value in parentheses.
pub fn push_digit_text(out: &mut String, p: u8, d: u8)
    requires
        p <= 10 ==> d < 10,
    ensures
        final(out)@ == old(out)@ + digit_chars(p as nat, d as nat),
{
    if p <= 10 {
        push_decimal_char(out, d);
    } else {
        proof {
            reveal_strlit("(");
            reveal_strlit(")");
        }
        out.append("(");
        if d >= 100 {
            push_decimal_char(out, d / 100);
        }
        if d >= 10 {
            push_decimal_char(out, (d / 10) % 10);
        }
        push_decimal_char(out, d % 10);
        out.append(")");
        proof {
            assert(final(out)@ =~= old(out)@ + digit_chars(p as nat, d as nat));
        }
    }
}

/// A rendered window of a number: `view_size` integer digits and the
/// stripped fractional part, produced eagerly.
pub struct PadicNumberView {
    pub rendered: String,
}

impl PadicNumberView {
    /// The rendered text.
    pub fn text(&self) -> (r: String)
        ensures
            r@ == self.rendered@,
    {
        self.rendered.clone()
    }
}

impl PadicNumber {
    /// Renders the number: `view_size` integer digits, most significant
    /// leftmost, then the fractional digits when any is nonzero.
    pub fn as_view(&mut self, view_size: i64) -> (v: PadicNumberView)
        requires
            old(self).inv(),
            0 <= view_size,
            view_size <= hi_allow(old(self)@),
        ensures
            final(self).inv(),
            final(self)@ == old(self)@,
            v.rendered@ == render_chars(old(self)@, view_size as nat),
    {
        let ghost m = self@;
        proof {
            crate::padic::lemma_n_inv_wf(*self);
        }
        let base = self.get_base();
        let mut out = String::new();
        let mut i: i64 = view_size;
        while i > 0
            invariant
                self.inv(),
                self@ == m,
                old(self)@ == m,
                wf(m),
                base as nat == base_of(m),
                0 <= i <= view_size,
                view_size <= hi_allow(m),
                out@ + int_chars(m, i as nat) == int_chars(m, view_size as nat),
            decreases i,
        {
            let d = self.get_digit(i - 1);
            proof {
                crate::model::lemma_digit_range(m, i - 1);
            }
            push_digit_text(&mut out, base, d);
            i = i - 1;
            proof {
                assert(out@ + int_chars(m, i as nat) == int_chars(m, view_size as nat)) by {
                    assert(int_chars(m, (i + 1) as nat) == digit_chars(
                        base_of(m),
                        digit_of(m, i as int),
                    ) + int_chars(m, i as nat));
                    assert(out@ + int_chars(m, i as nat) =~= (out@ + int_chars(m, i as nat)));
                }
            }
        }
        proof {
            assert(int_chars(m, 0) =~= Seq::<char>::empty());
            assert(out@ =~= int_chars(m, view_size as nat));
        }
        let scale = self.get_scale();
        if scale < 0 {
            proof {
                crate::model::lemma_scale_bounded(m);
            }
            let ghost fs = frac_seq(m);
            proof {
                assert(fs.subrange(0, 0) =~= Seq::<nat>::empty());
                assert(strip_zeros(fs.subrange(0, 0)) =~= Seq::<nat>::empty());
                assert(fs.subrange(0, fs.len() as int) =~= fs);
            }
            let mut j: i64 = -1;
            let mut started = false;
            while j >= scale
                invariant
                    self.inv(),
                    self@ == m,
                    old(self)@ == m,
                    wf(m),
                    base as nat == base_of(m),
                    scale as int == scale_of(m),
                    scale < 0,
                    -SCALE_BOUND <= scale,
                    scale - 1 <= j <= -1,
                    view_size <= hi_allow(m),
                    0 <= view_size,
                    fs == frac_seq(m),
                    !started ==> {
                        &&& out@ == int_chars(m, view_size as nat)
                        &&& strip_zeros(fs.subrange(0, -1 - j)) =~= Seq::<nat>::empty()
                        &&& strip_zeros(fs) == strip_zeros(fs.subrange(-1 - j, fs.len() as int))
                    },
                    started ==> {
                        &&& strip_zeros(fs).len() > 0
                        &&& strip_zeros(fs).len() <= fs.len()
                        &&& strip_zeros(fs) == fs.subrange(
                            fs.len() - (strip_zeros(fs).len() as int),
                            fs.len() as int,
                        )
                        &&& -1 - j >= fs.len() - strip_zeros(fs).len()
                        &&& out@ == int_chars(m, view_size as nat) + seq!['.'] + digits_chars(
                            base_of(m),
                            strip_zeros(fs).subrange(
                                0,
                                (-1 - j) - (fs.len() - strip_zeros(fs).len()),
                            ),
                        )
                    },
                decreases j - scale + 1,
            {
                let d = self.get_digit(j);
                proof {
                    assert(fs[-1 - j] == digit_of(m, j as int));
                    crate::model::lemma_digit_range(m, j as int);
                }
                if !started && d == 0 {
                    proof {
                        lemma_strip_skip(fs, (-1 - j) as nat);
                    }
                } else {
                    if !started {
                        proof {
                            reveal_strlit(".");
                        }
                        out.append(".");
                        started = true;
                        proof {
                            lemma_strip_found(fs, (-1 - j) as nat);
                            assert(strip_zeros(fs).subrange(0, 0).len() == 0);
                            assert(digits_chars(base_of(m), strip_zeros(fs).subrange(0, 0)).len()
                                == 0);
                            assert(out@ =~= int_chars(m, view_size as nat) + seq!['.']
                                + digits_chars(base_of(m), strip_zeros(fs).subrange(0, 0)));
                        }
                    }
                    push_digit_text(&mut out, base, d);
                    proof {
                        let st = strip_zeros(fs);
                        let pos = (-1 - j) - (fs.len() - st.len());
                        assert(st == fs.subrange(fs.len() - (st.len() as int), fs.len() as int));
                        assert(0 <= pos < st.len());
                        let a0 = fs.len() - (st.len() as int);
                        assert(st[pos] == fs.subrange(a0, fs.len() as int)[pos]);
                        assert(fs.subrange(a0, fs.len() as int)[pos] == fs[a0 + pos]);
                        assert(a0 + pos == -1 - j);
                        assert(st[pos] == fs[-1 - j]);
                        assert(st[pos] == d as nat);
                        lemma_digits_chars_snoc(base_of(m), st, pos);
                        assert(out@ =~= int_chars(m, view_size as nat) + seq!['.'] + digits_chars(
                            base_of(m),
                            st.subrange(0, pos + 1),
                        ));
                    }
                }
                j = j - 1;
            }
            proof {
                assert(-1 - j == fs.len());
                if started {
                    let st = strip_zeros(fs);
                    assert(st.subrange(0, st.len() as int) =~= st);
                } else {
                    assert(fs.subrange(0, fs.len() as int) =~= fs);
                    assert(strip_zeros(fs) =~= Seq::<nat>::empty());
                }
            }
        } else {
            proof {
                assert(frac_seq(m) =~= Seq::<nat>::empty());
            }
        }
        PadicNumberView { rendered: out }
    }
}

/// Stripping is unaffected by dropping one leading zero.
proof fn lemma_strip_skip(fs: Seq<nat>, t: nat)
    requires
        t < fs.len(),
        strip_zeros(fs.subrange(0, t as int)) =~= Seq::<nat>::empty(),
        strip_zeros(fs) == strip_zeros(fs.subrange(t as int, fs.len() as int)),
        fs[t as int] == 0,
    ensures
        strip_zeros(fs.subrange(0, t + 1 as int)) =~= Seq::<nat>::empty(),
        strip_zeros(fs) == strip_zeros(fs.subrange(t + 1 as int, fs.len() as int)),
{
    let pre = fs.subrange(0, t + 1 as int);
    lemma_strip_all_zero(fs.subrange(0, t as int), pre);
    let tail = fs.subrange(t as int, fs.len() as int);
    assert(tail[0] == 0);
    assert(tail.drop_first() =~= fs.subrange(t + 1 as int, fs.len() as int));
}

/// A prefix of zeros followed by one more zero strips to nothing.
proof fn lemma_strip_all_zero(a: Seq<nat>, b: Seq<nat>)
    requires
        strip_zeros(a) =~= Seq::<nat>::empty(),
        b.len() == a.len() + 1,
        forall|t: int| 0 <= t < a.len() ==> b[t] == a[t],
        b[b.len() - 1] == 0,
    ensures
        strip_zeros(b) =~= Seq::<nat>::empty(),
    decreases a.len(),
{
    reveal_with_fuel(strip_zeros, 3);
    if a.len() == 0 {
        assert(b.len() == 1 && b[0] == 0);
        assert(b.drop_first().len() == 0);
    } else {
        assert(a[0] == 0) by {
            if a[0] != 0 {
                assert(strip_zeros(a) == a);
            }
        }
        assert(b[0] == 0);
        lemma_strip_all_zero(a.drop_first(), b.drop_first());
    }
}

/// When the first nonzero digit is reached, the stripped list is the
/// tail from there on.
proof fn lemma_strip_found(fs: Seq<nat>, t: nat)
    requires
        t < fs.len(),
        strip_zeros(fs) == strip_zeros(fs.subrange(t as int, fs.len() as int)),
        fs[t as int] != 0,
    ensures
        strip_zeros(fs) == fs.subrange(t as int, fs.len() as int),
        strip_zeros(fs).len() == fs.len() - t,
{
    let tail = fs.subrange(t as int, fs.len() as int);
    assert(tail[0] != 0);
    assert(strip_zeros(tail) == tail);
}

/// Extending the printed prefix of a digit list by its next digit.
proof fn lemma_digits_chars_snoc(p: nat, s: Seq<nat>, pos: int)
    requires
        0 <= pos < s.len(),
    ensures
        digits_chars(p, s.subrange(0, pos + 1)) == digits_chars(p, s.subrange(0, pos))
            + digit_chars(p, s[pos]),
    decreases pos,
{
    reveal_with_fuel(digits_chars, 3);
    if pos == 0 {
        let one = s.subrange(0, 1);
        assert(one.drop_first().len() == 0);
        assert(digits_chars(p, s.subrange(0, 0)).len() == 0);
        assert(digits_chars(p, one) =~= digit_chars(p, s[0]));
        assert(digits_chars(p, s.subrange(0, 0)) + digit_chars(p, s[0]) =~= digit_chars(p, s[0]));
    } else {
        let a = s.subrange(0, pos + 1);
        let b = s.subrange(0, pos);
        lemma_digits_chars_snoc(p, s.drop_first(), pos - 1);
        assert(a.drop_first() =~= s.drop_first().subrange(0, pos));
        assert(b.drop_first() =~= s.drop_first().subrange(0, pos - 1));
        assert(a[0] == s[0] && b[0] == s[0]);
        assert(s.drop_first()[pos - 1] == s[pos]);
        assert(digits_chars(p, a) == digit_chars(p, s[0]) + digits_chars(
            p,
            s.drop_first().subrange(0, pos),
        ));
        assert(digits_chars(p, b) == digit_chars(p, s[0]) + digits_chars(
            p,
            s.drop_first().subrange(0, pos - 1),
        ));
        assert(digits_chars(p, a) =~= digits_chars(p, b) + digit_chars(p, s[pos]));
    }
}

} // verus!
