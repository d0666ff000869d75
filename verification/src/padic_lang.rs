//! The expression language: a hand-written lexer for the postfix
//! grammar, the number-literal builder, the evaluation stack, and the
//! variable store.
//!
//! A number literal is optional leading underscores (their count is how
//! many of the trailing digits repeat), then digit groups, each either a
//! decimal character or a parenthesized decimal integer standing for one
//! digit, then an optional point followed by further digit groups that
//! contribute with negative scale.
//!
//! Every executable function here mirrors a spec function on the raw
//! bytes: `spec_scan_number` for the lexer, `spec_build_literal` for the
//! literal builder, `spec_binop` and `spec_unop` for the stack
//! operators, and `spec_eval` for the whole evaluation, so that the
//! value a parse returns — and the error it fails with — is fixed by
//! the input and the store alone.

use vstd::prelude::*;
use vstd::string::StringSliceAdditionalSpecFns;

use crate::model::{
    add_adj_from, base_of, digit_of, div_args_ok, hi_allow, scale_of, spec_prime, wf,
    Model, DIV_MARGIN, IDX_BOUND, NORM_CAP, SCALE_BOUND, SCAN_BOUND,
};
use crate::padic::{n_inv, n_model, PadicAccessor, PadicError, PadicNumber};
use crate::padic_primitive::{digits_seq, FinitePadicInteger, RepeatingPadicInteger};

verus! {

/// The longest expression the evaluator accepts, in bytes.
///
/// The bound is set by the evaluation budget, not by the index
/// headroom: one consumed input byte can add up to
/// `VAR_SCALE_MAX + SCAN_BOUND + NORM_CAP` (one `SCALE_PER_BYTE`) to
/// the summed scale magnitudes of the stack, and that sum must stay
/// within `SCALE_BOUND` so that every intermediate operand respects the
/// engine's bounded-scale machine limits.
pub const MAX_EXPR: u64 = 400;

/// The largest scale magnitude a stored variable may carry.
pub const VAR_SCALE_MAX: i64 = 4096;

/// The scale-budget weight of one consumed input byte.
pub const SCALE_PER_BYTE: i64 = 5107;

/// The query headroom floor for any value the evaluator produces.
pub open spec fn parse_hi_floor() -> int {
    IDX_BOUND as int - (MAX_EXPR as int + 2) * (DIV_MARGIN as int)
}

/// A well-formed evaluation value: a valid number of base `p` with
/// bounded scale and enough query headroom left.
pub open spec fn value_ok(n: PadicNumber, p: nat, hf: int, sc: int) -> bool {
    &&& n_inv(n)
    &&& base_of(n_model(n)) == p
    &&& hi_allow(n_model(n)) >= hf
    &&& -sc <= scale_of(n_model(n)) <= sc
}

/// Every stack element is a well-formed value and the scale magnitudes
/// sum below the budget.
pub open spec fn stack_ok(s: Seq<PadicNumber>, p: nat, hf: int) -> bool {
    forall|t: int|
        0 <= t < s.len() ==> #[trigger] value_ok(s[t], p, hf, SCALE_BOUND as int)
}

/// The summed scale magnitudes of the stack.
pub open spec fn sum_scales(s: Seq<PadicNumber>) -> int
    decreases s.len(),
{
    if s.len() == 0 {
        0
    } else {
        sum_scales(s.drop_last()) + abs_int(scale_of(n_model(s.last())))
    }
}

pub open spec fn abs_int(x: int) -> int {
    if x >= 0 {
        x
    } else {
        -x
    }
}

/// The reversal of a digit list.
pub open spec fn seq_rev(s: Seq<u8>) -> Seq<u8> {
    Seq::new(s.len(), |i: int| s[s.len() - 1 - i])
}

/// The digit values of a list, reversed.
pub open spec fn rev_vals(s: Seq<u8>) -> Seq<nat> {
    Seq::new(s.len(), |i: int| s[s.len() - 1 - i] as nat)
}

/// The characters a byte sequence spells, byte for byte.
pub open spec fn chars_of_bytes(s: Seq<u8>) -> Seq<char> {
    Seq::new(s.len(), |i: int| s[i] as char)
}

/// The models of the numbers on a stack.
pub open spec fn models_of(s: Seq<PadicNumber>) -> Seq<Model> {
    s.map_values(|n: PadicNumber| n_model(n))
}

/// Reverses a digit vector.
pub fn reversed(v: &Vec<u8>) -> (r: Vec<u8>)
    ensures
        r@ == seq_rev(v@),
{
    let mut out: Vec<u8> = Vec::new();
    let mut i: usize = v.len();
    while i > 0
        invariant
            i <= v.len(),
            out@.len() == v@.len() - i,
            forall|t: int| 0 <= t < out@.len() ==> #[trigger] out@[t] == v@[v@.len() - 1 - t],
        decreases i,
    {
        i = i - 1;
        out.push(v[i]);
    }
    proof {
        assert(out@ =~= seq_rev(v@));
    }
    out
}

/// The binding list as the contracts see it: each name's characters
/// paired with the model of its value, in binding order.
pub open spec fn store_pairs(names: Seq<String>, values: Seq<PadicNumber>) -> Seq<
    (Seq<char>, Model),
> {
    Seq::new(names.len(), |t: int| (names[t]@, n_model(values[t])))
}

/// The index of the first binding whose name is `name`.
pub open spec fn store_find_idx(s: Seq<(Seq<char>, Model)>, name: Seq<char>) -> Option<int>
    decreases s.len(),
{
    if s.len() == 0 {
        None
    } else if s[0].0 == name {
        Some(0)
    } else {
        match store_find_idx(s.drop_first(), name) {
            Some(t) => Some(t + 1),
            None => None,
        }
    }
}

/// The model bound to `name`, if any.
pub open spec fn store_find(s: Seq<(Seq<char>, Model)>, name: Seq<char>) -> Option<Model> {
    match store_find_idx(s, name) {
        Some(t) => Some(s[t].1),
        None => None,
    }
}

/// The binding list after binding `name` to `m`: the first binding of
/// that name replaced, or a new binding appended.
pub open spec fn spec_insert(s: Seq<(Seq<char>, Model)>, name: Seq<char>, m: Model) -> Seq<
    (Seq<char>, Model),
> {
    match store_find_idx(s, name) {
        Some(t) => s.update(t, (name, m)),
        None => s.push((name, m)),
    }
}

/// `store_find_idx` finds the first match, and only fails when no
/// binding carries the name.
pub proof fn lemma_store_find_idx(s: Seq<(Seq<char>, Model)>, name: Seq<char>)
    ensures
        match store_find_idx(s, name) {
            Some(t) => {
                &&& 0 <= t < s.len()
                &&& s[t].0 == name
                &&& forall|u: int| 0 <= u < t ==> (#[trigger] s[u]).0 != name
            },
            None => forall|u: int| 0 <= u < s.len() ==> (#[trigger] s[u]).0 != name,
        },
    decreases s.len(),
{
    if s.len() > 0 && s[0].0 != name {
        let d = s.drop_first();
        lemma_store_find_idx(d, name);
        assert(forall|u: int| 0 <= u < d.len() ==> #[trigger] d[u] == s[u + 1]);
        match store_find_idx(d, name) {
            Some(t) => {
                assert(d[t] == s[t + 1]);
                assert forall|u: int| 0 <= u < t + 1 implies (#[trigger] s[u]).0 != name by {
                    if u > 0 {
                        assert(d[u - 1] == s[u]);
                        assert(d[u - 1].0 != name);
                    }
                }
            },
            None => {
                assert forall|u: int| 0 <= u < s.len() implies (#[trigger] s[u]).0 != name by {
                    if u > 0 {
                        assert(d[u - 1] == s[u]);
                        assert(d[u - 1].0 != name);
                    }
                }
            },
        }
    }
}

/// The variable store: bindings from ASCII names to numbers, in the
/// order they were first made.
pub struct VarStore {
    pub names: Vec<String>,
    pub values: Vec<PadicNumber>,
}

impl VarStore {
    /// The bindings as the contracts see them.
    pub open spec fn store_view(&self) -> Seq<(Seq<char>, Model)> {
        store_pairs(self.names@, self.values@)
    }

    pub open spec fn inv_for(&self, p: nat) -> bool {
        &&& self.names@.len() == self.values@.len()
        &&& forall|t: int|
            0 <= t < self.values@.len() ==> #[trigger] value_ok(
                self.values@[t],
                p,
                IDX_BOUND as int - (MAX_EXPR as int + 1) * (DIV_MARGIN as int),
                VAR_SCALE_MAX as int,
            )
        &&& forall|t: int|
            0 <= t < self.names@.len() ==> vstd::utf8::is_ascii_chars(
                (#[trigger] self.names@[t])@,
            )
    }

    /// An empty store.
    pub fn new() -> (r: VarStore)
        ensures
            forall|p: nat| #[trigger] r.inv_for(p),
            r.store_view() == Seq::<(Seq<char>, Model)>::empty(),
            r.names@.len() == 0,
    {
        let r = VarStore { names: Vec::new(), values: Vec::new() };
        proof {
            assert(r.store_view() =~= Seq::<(Seq<char>, Model)>::empty());
        }
        r
    }

    /// The value bound to the name spelled by `bytes[from..to]`, if
    /// any: a deep copy of the first binding whose name's characters
    /// match those bytes, and `None` exactly when no binding matches.
    pub fn lookup_range(&self, bytes: &[u8], from: usize, to: usize, Ghost(p): Ghost<nat>) -> (r:
        Option<PadicNumber>)
        requires
            self.inv_for(p),
            from <= to <= bytes@.len(),
        ensures
            match r {
                Some(n) => {
                    &&& store_find(
                        self.store_view(),
                        chars_of_bytes(bytes@.subrange(from as int, to as int)),
                    ) == Some(n_model(n))
                    &&& exists|t: int|
                        0 <= t < self.values@.len() && n_model(n) == n_model(
                            #[trigger] self.values@[t],
                        ) && n_inv(n) == n_inv(self.values@[t])
                },
                None => store_find(
                    self.store_view(),
                    chars_of_bytes(bytes@.subrange(from as int, to as int)),
                ) is None,
            },
    {
        let ghost key = chars_of_bytes(bytes@.subrange(from as int, to as int));
        let mut i: usize = 0;
        while i < self.names.len()
            invariant
                i <= self.names@.len(),
                self.inv_for(p),
                self.names@.len() == self.values@.len(),
                from <= to <= bytes@.len(),
                key == chars_of_bytes(bytes@.subrange(from as int, to as int)),
                forall|u: int| 0 <= u < i ==> (#[trigger] self.names@[u])@ != key,
            decreases self.names@.len() - i,
        {
            let ns = self.names[i].as_str();
            proof {
                assert(vstd::utf8::is_ascii_chars(ns@));
                vstd::string::is_ascii_spec_bytes(ns);
            }
            let nb = ns.as_bytes();
            let mut matched = false;
            if nb.len() == to - from {
                let mut j: usize = 0;
                let mut same = true;
                while j < nb.len() && same
                    invariant
                        j <= nb@.len(),
                        nb@.len() == to - from,
                        from <= to <= bytes@.len(),
                        same ==> forall|t: int|
                            0 <= t < j ==> #[trigger] nb@[t] == bytes@[from + t],
                        !same ==> j < nb@.len() && nb@[j as int] != bytes@[from + j],
                    decreases nb@.len() - j + (if same {
                        1int
                    } else {
                        0int
                    }),
                {
                    if nb[j] != bytes[from + j] {
                        same = false;
                    } else {
                        j = j + 1;
                    }
                }
                matched = same;
                proof {
                    let nm = self.names@[i as int]@;
                    assert(nb@.len() == nm.len());
                    assert(forall|t: int| 0 <= t < nm.len() ==> nb@[t] == (#[trigger] nm[t]) as u8);
                    if same {
                        assert(nm =~= key) by {
                            assert forall|t: int| 0 <= t < nm.len() implies nm[t] == key[t] by {
                                assert(nb@[t] == bytes@[from + t]);
                                assert(nm[t] as u8 == bytes@[from + t]);
                                assert(key[t] == bytes@[from + t] as char);
                                assert(nm[t] <= '\u{7f}');
                                assert((nm[t] as u8) as char == nm[t]);
                            }
                        }
                    } else {
                        let jb = j as int;
                        assert(nm[jb] as u8 == nb@[jb]);
                        assert(key[jb] == bytes@[from + jb] as char);
                        assert((bytes@[from + jb] as char) as u8 == bytes@[from + jb]);
                        assert(nm[jb] != key[jb]);
                        assert(nm != key);
                    }
                }
            } else {
                proof {
                    assert(self.names@[i as int]@.len() != key.len());
                    assert(self.names@[i as int]@ != key);
                }
            }
            if matched {
                let v = self.values[i].clone();
                proof {
                    lemma_store_find_idx(self.store_view(), key);
                    match store_find_idx(self.store_view(), key) {
                        Some(t) => {
                            assert(self.store_view()[t].0 == key);
                            if t < i {
                                assert(self.names@[t]@ != key);
                            }
                            if t > i {
                                assert(self.store_view()[i as int].0 != key);
                            }
                            assert(t == i);
                        },
                        None => {
                            assert(self.store_view()[i as int].0 != key);
                        },
                    }
                }
                return Some(v);
            }
            i = i + 1;
        }
        proof {
            lemma_store_find_idx(self.store_view(), key);
            match store_find_idx(self.store_view(), key) {
                Some(t) => {
                    assert(self.names@[t]@ != key);
                    assert(self.store_view()[t].0 == key);
                },
                None => {},
            }
        }
        None
    }

    /// Binds `name` to `value`: replaces the first binding of that name
    /// or appends a new one.
    pub fn insert(&mut self, name: String, value: PadicNumber, Ghost(p): Ghost<nat>)
        requires
            old(self).inv_for(p),
            vstd::utf8::is_ascii_chars(name@),
            value_ok(
                value,
                p,
                IDX_BOUND as int - (MAX_EXPR as int + 1) * (DIV_MARGIN as int),
                VAR_SCALE_MAX as int,
            ),
        ensures
            final(self).inv_for(p),
            final(self).store_view() == spec_insert(
                old(self).store_view(),
                name@,
                n_model(value),
            ),
    {
        let ghost sv0 = self.store_view();
        let mut i: usize = 0;
        while i < self.names.len()
            invariant
                i <= self.names@.len(),
                self.inv_for(p),
                *self == *old(self),
                sv0 == self.store_view(),
                self.names@.len() == self.values@.len(),
                vstd::utf8::is_ascii_chars(name@),
                value_ok(
                    value,
                    p,
                    IDX_BOUND as int - (MAX_EXPR as int + 1) * (DIV_MARGIN as int),
                    VAR_SCALE_MAX as int,
                ),
                forall|u: int| 0 <= u < i ==> (#[trigger] self.names@[u])@ != name@,
            decreases self.names@.len() - i,
    {
            if self.names[i].eq(&name) {
                self.values.set(i, value);
                proof {
                    lemma_store_find_idx(sv0, name@);
                    match store_find_idx(sv0, name@) {
                        Some(t) => {
                            assert(sv0[t].0 == name@);
                            if t < i {
                                assert(old(self).names@[t]@ != name@);
                            }
                            if t > i {
                                assert(sv0[i as int].0 != name@);
                            }
                            assert(t == i);
                        },
                        None => {
                            assert(sv0[i as int].0 != name@);
                        },
                    }
                    assert(self.store_view() =~= spec_insert(sv0, name@, n_model(value)));
                }
                return ;
            }
            i = i + 1;
        }
        self.names.push(name);
        self.values.push(value);
        proof {
            lemma_store_find_idx(sv0, name@);
            match store_find_idx(sv0, name@) {
                Some(t) => {
                    assert(old(self).names@[t]@ != name@);
                    assert(sv0[t].0 == name@);
                },
                None => {},
            }
            assert(self.store_view() =~= spec_insert(sv0, name@, n_model(value)));
        }
    }
}

/// The digit sequence of one at depth `f`: `f` zeros and then a one.
pub open spec fn pow_digits(f: nat) -> Seq<nat> {
    Seq::new(f + 1, |t: int| if t == f { 1nat } else { 0nat })
}

/// The model a literal without a point stands for: the finite source
/// over the reversed digits when nothing repeats, the pure repeating
/// source when everything does, and in between the repeating head
/// shifted up by a power of the base plus the finite tail.
pub open spec fn lit_unscaled(p: nat, digits: Seq<u8>, repeat: nat) -> Model {
    if repeat == 0 {
        Model::Finite { p, digits: rev_vals(digits) }
    } else if repeat == digits.len() {
        Model::Repeating { p, cycle: rev_vals(digits) }
    } else {
        let head = Model::Repeating { p, cycle: rev_vals(digits.take(repeat as int)) };
        let power = Model::Finite { p, digits: pow_digits((digits.len() - repeat) as nat) };
        let shifted = Model::Mul { lhs: Box::new(head), rhs: Box::new(power) };
        let tail = Model::Finite { p, digits: rev_vals(digits.skip(repeat as int)) };
        Model::Add {
            lhs: Box::new(shifted),
            rhs: Box::new(tail),
            adj: add_adj_from(shifted, tail, 0),
        }
    }
}

/// The model a literal stands for: the unscaled part, divided by the
/// base to the fractional depth when a point was typed.
pub open spec fn lit_model(p: nat, digits: Seq<u8>, repeat: nat, frac: Option<nat>) -> Model {
    match frac {
        None => lit_unscaled(p, digits, repeat),
        Some(f) => Model::Div {
            lhs: Box::new(lit_unscaled(p, digits, repeat)),
            rhs: Box::new(Model::Finite { p, digits: pow_digits(f) }),
            k: f,
            uinv: 1,
        },
    }
}

/// What building a literal returns: its model, or the first fault the
/// builder meets — a zero base, a digit at or above the base, more
/// repeated digits than typed, a power digit that base one cannot hold,
/// or a fractional part in a base that is not prime.
pub open spec fn spec_build_literal(
    p: nat,
    digits: Seq<u8>,
    repeat: nat,
    frac: Option<nat>,
) -> Result<Model, PadicError> {
    if p == 0 {
        Err(PadicError::TooSmallBase)
    } else if exists|t: int| 0 <= t < digits.len() && (#[trigger] digits[t]) >= p {
        Err(PadicError::DigitOutOfRange)
    } else if repeat > digits.len() {
        Err(PadicError::RepeatTooLong)
    } else if p == 1 && ((0 < repeat && repeat < digits.len()) || frac is Some) {
        Err(PadicError::DigitOutOfRange)
    } else if frac is Some && !spec_prime(p as int) {
        Err(PadicError::NotInvertible)
    } else {
        Ok(lit_model(p, digits, repeat, frac))
    }
}

pub open spec fn opt_nat(f: Option<u64>) -> Option<nat> {
    match f {
        Some(x) => Some(x as nat),
        None => None,
    }
}

pub open spec fn opt_int(f: Option<u64>) -> Option<int> {
    match f {
        Some(x) => Some(x as int),
        None => None,
    }
}

/// Builds the number a literal token stands for. `digits` holds the
/// digit values as typed, most significant first; `repeat_count` says
/// how many of them (from the most significant end) repeat; `frac`,
/// when present, is how many contribute with negative scale. The result
/// — and the error — is exactly `spec_build_literal`.
pub fn build_literal(p: u8, digits: Vec<u8>, repeat_count: u64, frac: Option<u64>) -> (r: Result<
    PadicNumber,
    PadicError,
>)
    requires
        digits@.len() <= MAX_EXPR,
        match frac {
            Some(f) => f <= digits@.len(),
            None => true,
        },
    ensures
        match r {
            Ok(n) => {
                &&& spec_build_literal(p as nat, digits@, repeat_count as nat, opt_nat(frac))
                    == Ok::<Model, PadicError>(n@)
                &&& n_inv(n)
                &&& base_of(n_model(n)) == p as nat
                &&& hi_allow(n_model(n)) >= IDX_BOUND as int - DIV_MARGIN as int
                &&& -(MAX_EXPR as int) - NORM_CAP <= scale_of(n_model(n)) <= NORM_CAP as int
            },
            Err(e) => spec_build_literal(p as nat, digits@, repeat_count as nat, opt_nat(frac))
                == Err::<Model, PadicError>(e),
        },
{
    if p == 0 {
        return Err(PadicError::TooSmallBase);
    }
    let mut idx: usize = 0;
    while idx < digits.len()
        invariant
            p >= 1,
            idx <= digits@.len(),
            forall|t: int| 0 <= t < idx ==> #[trigger] digits@[t] < p,
        decreases digits@.len() - idx,
    {
        if digits[idx] >= p {
            proof {
                assert(digits@[idx as int] >= p);
            }
            return Err(PadicError::DigitOutOfRange);
        }
        idx = idx + 1;
    }
    proof {
        assert(forall|t: int| 0 <= t < digits@.len() ==> #[trigger] digits@[t] < p);
    }
    if repeat_count > digits.len() as u64 {
        return Err(PadicError::RepeatTooLong);
    }
    let unscaled: PadicNumber = if repeat_count == 0 {
        let rev = reversed(&digits);
        proof {
            assert(forall|t: int| 0 <= t < rev@.len() ==> #[trigger] rev@[t] < p);
        }
        match FinitePadicInteger::new_with_digits(p, rev) {
            Ok(f) => {
                let n = f.to_dyn();
                proof {
                    assert(digits_seq(rev) =~= rev_vals(digits@));
                    assert(hi_allow(n_model(n)) == IDX_BOUND as int);
                    assert(scale_of(n_model(n)) == 0);
                }
                n
            },
            Err(e) => {
                proof {
                    assert(false);
                }
                return Err(e);
            },
        }
    } else if repeat_count == digits.len() as u64 {
        let rev = reversed(&digits);
        proof {
            assert(rev@.len() >= 1);
            assert(forall|t: int| 0 <= t < rev@.len() ==> #[trigger] rev@[t] < p);
        }
        match RepeatingPadicInteger::new_with_digits(p, rev) {
            Ok(f) => {
                let n = f.to_dyn();
                proof {
                    assert(digits_seq(rev) =~= rev_vals(digits@));
                    assert(hi_allow(n_model(n)) == IDX_BOUND as int);
                    assert(scale_of(n_model(n)) == 0);
                }
                n
            },
            Err(e) => {
                proof {
                    assert(false);
                }
                return Err(e);
            },
        }
    } else {
        // repeating head times a power of the base, plus the finite tail
        let mut head: Vec<u8> = Vec::new();
        let mut i: usize = 0;
        while i < repeat_count as usize
            invariant
                repeat_count < digits@.len(),
                i <= repeat_count,
                head@.len() == i,
                forall|t: int| 0 <= t < head@.len() ==> #[trigger] head@[t] == digits@[t],
                forall|t: int| 0 <= t < digits@.len() ==> #[trigger] digits@[t] < p,
            decreases repeat_count - i,
        {
            head.push(digits[i]);
            i = i + 1;
        }
        let mut tail: Vec<u8> = Vec::new();
        let mut j: usize = repeat_count as usize;
        while j < digits.len()
            invariant
                repeat_count < digits@.len(),
                repeat_count <= j <= digits@.len(),
                tail@.len() == j - repeat_count,
                forall|t: int|
                    0 <= t < tail@.len() ==> #[trigger] tail@[t] == digits@[repeat_count + t],
                forall|t: int| 0 <= t < digits@.len() ==> #[trigger] digits@[t] < p,
            decreases digits@.len() - j,
        {
            tail.push(digits[j]);
            j = j + 1;
        }
        let mut power: Vec<u8> = Vec::new();
        let mut z: usize = 0;
        let zeros = digits.len() - repeat_count as usize;
        while z < zeros
            invariant
                z <= zeros,
                zeros == digits@.len() - repeat_count,
                power@.len() == z,
                forall|t: int| 0 <= t < power@.len() ==> #[trigger] power@[t] == 0,
            decreases zeros - z,
        {
            power.push(0);
            z = z + 1;
        }
        power.push(1);
        let rev_head = reversed(&head);
        let rev_tail = reversed(&tail);
        proof {
            assert(rev_head@.len() >= 1);
            assert(forall|t: int| 0 <= t < rev_head@.len() ==> #[trigger] rev_head@[t] < p);
            assert(forall|t: int| 0 <= t < rev_tail@.len() ==> #[trigger] rev_tail@[t] < p);
        }
        let head_num = match RepeatingPadicInteger::new_with_digits(p, rev_head) {
            Ok(f) => f.to_dyn(),
            Err(e) => {
                proof {
                    assert(false);
                }
                return Err(e);
            },
        };
        let power_num = match FinitePadicInteger::new_with_digits(p, power) {
            Ok(f) => f.to_dyn(),
            Err(e) => {
                proof {
                    assert(p == 1);
                }
                return Err(e);
            },
        };
        let tail_num = match FinitePadicInteger::new_with_digits(p, rev_tail) {
            Ok(f) => f.to_dyn(),
            Err(e) => {
                proof {
                    assert(false);
                }
                return Err(e);
            },
        };
        proof {
            assert(digits_seq(rev_head) =~= rev_vals(digits@.take(repeat_count as int)));
            assert(digits_seq(rev_tail) =~= rev_vals(digits@.skip(repeat_count as int)));
            assert(digits_seq(power) =~= pow_digits((digits@.len() - repeat_count) as nat));
            assert(power@[power@.len() - 1] == 1);
            assert(p >= 2);
            assert(hi_allow(n_model(head_num)) == IDX_BOUND as int);
            assert(hi_allow(n_model(power_num)) == IDX_BOUND as int);
            assert(hi_allow(n_model(tail_num)) == IDX_BOUND as int);
            assert(scale_of(n_model(head_num)) == 0);
            assert(scale_of(n_model(power_num)) == 0);
            assert(scale_of(n_model(tail_num)) == 0);
        }
        let shifted = match head_num.mul(power_num) {
            Ok(x) => x,
            Err(e) => {
                proof {
                    assert(false);
                }
                return Err(e);
            },
        };
        proof {
            assert(hi_allow(n_model(shifted)) == IDX_BOUND as int);
            assert(scale_of(n_model(shifted)) == 0);
        }
        let sum = match shifted.add(tail_num) {
            Ok(x) => x,
            Err(e) => {
                proof {
                    assert(false);
                }
                return Err(e);
            },
        };
        proof {
            lemma_add_adj_le(n_model(shifted), n_model(tail_num), 0);
            assert(0 <= scale_of(n_model(sum)) <= NORM_CAP as int);
            assert(hi_allow(n_model(sum)) == IDX_BOUND as int);
            assert(n_model(sum) == lit_unscaled(p as nat, digits@, repeat_count as nat));
        }
        sum
    };
    proof {
        assert(n_model(unscaled) == lit_unscaled(p as nat, digits@, repeat_count as nat));
    }
    match frac {
        Some(f) => {
            let mut power: Vec<u8> = Vec::new();
            let mut z: u64 = 0;
            while z < f
                invariant
                    z <= f,
                    power@.len() == z,
                    forall|t: int| 0 <= t < power@.len() ==> #[trigger] power@[t] == 0,
                decreases f - z,
            {
                power.push(0);
                z = z + 1;
            }
            power.push(1);
            let power_num = match FinitePadicInteger::new_with_digits(p, power) {
                Ok(x) => x.to_dyn(),
                Err(e) => {
                    proof {
                        assert(p == 1);
                    }
                    return Err(e);
                },
            };
            proof {
                assert(digits_seq(power) =~= pow_digits(f as nat));
                assert(power@[power@.len() - 1] == 1);
                assert(p >= 2);
                crate::model::lemma_hi_allow_le(n_model(unscaled));
                assert(hi_allow(n_model(power_num)) == IDX_BOUND as int);
                assert(scale_of(n_model(power_num)) == 0);
                assert(div_args_ok(n_model(unscaled), n_model(power_num)));
            }
            let ghost pm = n_model(power_num);
            match unscaled.div(power_num) {
                Ok(x) => {
                    proof {
                        crate::padic::lemma_n_inv_wf(x);
                        let km = n_model(x)->Div_k;
                        let uv = n_model(x)->Div_uinv;
                        assert(digit_of(pm, f as int) == 1);
                        assert(km <= f) by {
                            if km > f {
                                assert(digit_of(pm, scale_of(pm) + (f as nat)) == 0);
                            }
                        }
                        assert(km == f) by {
                            if km < f {
                                assert(digit_of(pm, scale_of(pm) + km) == 0);
                            }
                        }
                        assert(uv < base_of(n_model(x)));
                        assert((digit_of(pm, scale_of(pm) + km) * uv) % (p as nat) == 1);
                        assert(1 * uv == uv);
                        assert(uv % (p as nat) == uv) by {
                            vstd::arithmetic::div_mod::lemma_small_mod(uv, p as nat);
                        }
                        assert(uv == 1);
                        assert(n_model(x) == lit_model(
                            p as nat,
                            digits@,
                            repeat_count as nat,
                            opt_nat(frac),
                        ));
                        assert(spec_prime(p as nat as int));
                        assert(scale_of(n_model(x)) == scale_of(n_model(unscaled)) - scale_of(pm)
                            - km);
                        assert(hi_allow(n_model(x)) >= IDX_BOUND as int - DIV_MARGIN as int);
                    }
                    Ok(x)
                },
                Err(e) => {
                    proof {
                        if e == PadicError::DivisionByZero {
                            assert(digit_of(pm, scale_of(pm) + (f as nat)) == 0);
                            assert(false);
                        }
                        assert(e == PadicError::NotInvertible);
                        assert(!spec_prime(p as int));
                    }
                    Err(e)
                },
            }
        },
        _ => Ok(unscaled),
    }
}

/// Whether a byte may stand in a reference name.
pub open spec fn spec_word_byte(b: u8) -> bool {
    97 <= b <= 122 || 65 <= b <= 90 || 48 <= b <= 57 || b == 95
}

/// Whether a byte may stand in a reference name.
pub fn is_word_byte(b: u8) -> (r: bool)
    ensures
        r <==> spec_word_byte(b),
{
    (b >= 97u8 && b <= 122u8) || (b >= 65u8 && b <= 90u8) || (b >= 48u8 && b <= 57u8) || b == 95u8
}

/// The first position at or after `j` that does not hold a name byte.
pub open spec fn spec_word_end(bytes: Seq<u8>, j: int) -> int
    decreases bytes.len() - j,
{
    if j >= bytes.len() || !spec_word_byte(bytes[j]) {
        j
    } else {
        spec_word_end(bytes, j + 1)
    }
}

pub proof fn lemma_word_end_bounds(bytes: Seq<u8>, j: int)
    requires
        j <= bytes.len(),
    ensures
        j <= spec_word_end(bytes, j) <= bytes.len(),
    decreases bytes.len() - j,
{
    if j < bytes.len() && spec_word_byte(bytes[j]) {
        lemma_word_end_bounds(bytes, j + 1);
    }
}

/// The name span a reference at `i` uses: with a well-bracketed name the
/// bytes between the braces, else the empty span after the ampersand;
/// and how many bytes the reference consumes.
pub open spec fn ref_span(bytes: Seq<u8>, i: int) -> (int, int, int) {
    if i + 1 < bytes.len() && bytes[i + 1] == 123 {
        let j = spec_word_end(bytes, i + 2);
        if j < bytes.len() && bytes[j] == 125 {
            (i + 2, j, j + 1 - i)
        } else {
            (i + 1, i + 1, 1)
        }
    } else {
        (i + 1, i + 1, 1)
    }
}

/// The first position at or after `i` that is not an underscore.
pub open spec fn scan_rep(bytes: Seq<u8>, i: int) -> int
    decreases bytes.len() - i,
{
    if i >= bytes.len() || bytes[i] != 95 {
        i
    } else {
        scan_rep(bytes, i + 1)
    }
}

pub proof fn lemma_scan_rep_bounds(bytes: Seq<u8>, i: int)
    requires
        i <= bytes.len(),
    ensures
        i <= scan_rep(bytes, i) <= bytes.len(),
    decreases bytes.len() - i,
{
    if i < bytes.len() && bytes[i] == 95 {
        lemma_scan_rep_bounds(bytes, i + 1);
    }
}

/// One parenthesized digit group read from `j` with the digits seen so
/// far spelling `value`: the group's value and the position of the
/// closing parenthesis, or the fault met first.
pub open spec fn scan_paren(bytes: Seq<u8>, j: int, value: int) -> Result<
    (int, int),
    PadicError,
>
    decreases bytes.len() - j,
{
    if j >= bytes.len() {
        Err(PadicError::UnknownToken)
    } else if bytes[j] == 41 {
        Ok((value, j))
    } else if 48 <= bytes[j] <= 57 {
        let nv = value * 10 + (bytes[j] - 48);
        if nv > 255 {
            Err(PadicError::DigitGroupTooBig)
        } else {
            scan_paren(bytes, j + 1, nv)
        }
    } else {
        Err(PadicError::UnknownToken)
    }
}

pub proof fn lemma_scan_paren_bounds(bytes: Seq<u8>, j: int, value: int)
    ensures
        match scan_paren(bytes, j, value) {
            Ok((v, jc)) => j <= jc < bytes.len(),
            Err(e) => true,
        },
    decreases bytes.len() - j,
{
    if j < bytes.len() && bytes[j] != 41 && 48 <= bytes[j] <= 57 && value * 10 + (bytes[j] - 48)
        <= 255 {
        lemma_scan_paren_bounds(bytes, j + 1, value * 10 + (bytes[j] - 48));
    }
}

/// The digit groups read from `i` with `digits`, the typed position of
/// the point `dec`, and `groups` groups seen so far: the state at the
/// first byte that ends the token, or the fault met first.
pub open spec fn scan_groups(
    bytes: Seq<u8>,
    i: int,
    digits: Seq<u8>,
    dec: Option<int>,
    groups: nat,
) -> Result<(Seq<u8>, Option<int>, nat, int), PadicError>
    decreases bytes.len() - i,
        via scan_groups_dec
{
    if i >= bytes.len() {
        Ok((digits, dec, groups, i))
    } else if 48 <= bytes[i] <= 57 {
        scan_groups(bytes, i + 1, digits.push((bytes[i] - 48) as u8), dec, groups + 1)
    } else if bytes[i] == 40 {
        match scan_paren(bytes, i + 1, 0) {
            Ok((v, jc)) => scan_groups(bytes, jc + 1, digits.push(v as u8), dec, groups + 1),
            Err(e) => Err(e),
        }
    } else if bytes[i] == 46 {
        match dec {
            Some(_) => Err(PadicError::TwoDecimalPoints),
            None => {
                if groups == 0 {
                    Err(PadicError::UnknownToken)
                } else {
                    scan_groups(bytes, i + 1, digits, Some(digits.len() as int), groups)
                }
            },
        }
    } else {
        Ok((digits, dec, groups, i))
    }
}

#[via_fn]
proof fn scan_groups_dec(bytes: Seq<u8>, i: int, digits: Seq<u8>, dec: Option<int>, groups: nat) {
    if i < bytes.len() && bytes[i] == 40 {
        lemma_scan_paren_bounds(bytes, i + 1, 0);
    }
}

pub proof fn lemma_scan_groups_bounds(
    bytes: Seq<u8>,
    i: int,
    digits: Seq<u8>,
    dec: Option<int>,
    groups: nat,
)
    requires
        i <= bytes.len(),
    ensures
        match scan_groups(bytes, i, digits, dec, groups) {
            Ok((d2, dec2, g2, next)) => i <= next <= bytes.len() && (g2 > groups ==> next > i),
            Err(e) => true,
        },
    decreases bytes.len() - i,
{
    if i < bytes.len() {
        if 48 <= bytes[i] <= 57 {
            lemma_scan_groups_bounds(
                bytes,
                i + 1,
                digits.push((bytes[i] - 48) as u8),
                dec,
                groups + 1,
            );
        } else if bytes[i] == 40 {
            lemma_scan_paren_bounds(bytes, i + 1, 0);
            match scan_paren(bytes, i + 1, 0) {
                Ok((v, jc)) => {
                    lemma_scan_groups_bounds(bytes, jc + 1, digits.push(v as u8), dec, groups + 1);
                },
                Err(e) => {},
            }
        } else if bytes[i] == 46 {
            if dec is None && groups > 0 {
                lemma_scan_groups_bounds(bytes, i + 1, digits, Some(digits.len() as int), groups);
            }
        }
    }
}

/// What scanning one number token from `start` returns: the digit
/// values most significant first, the count of repeated digits, the
/// count of fractional digits when a point was typed, and the position
/// after the token; or the fault met first.
pub open spec fn spec_scan_number(bytes: Seq<u8>, start: int) -> Result<
    (Seq<u8>, nat, Option<nat>, int),
    PadicError,
> {
    let i0 = scan_rep(bytes, start);
    match scan_groups(bytes, i0, Seq::<u8>::empty(), None, 0) {
        Ok((digits, dec, groups, next)) => {
            if groups == 0 {
                Err(PadicError::UnknownToken)
            } else {
                Ok(
                    (
                        digits,
                        (i0 - start) as nat,
                        match dec {
                            Some(d) => Some((digits.len() - d) as nat),
                            None => None,
                        },
                        next,
                    ),
                )
            }
        },
        Err(e) => Err(e),
    }
}

pub proof fn lemma_scan_number_bounds(bytes: Seq<u8>, start: int)
    requires
        start <= bytes.len(),
    ensures
        match spec_scan_number(bytes, start) {
            Ok((d, rep, frac, next)) => start < next <= bytes.len(),
            Err(e) => true,
        },
{
    lemma_scan_rep_bounds(bytes, start);
    let i0 = scan_rep(bytes, start);
    lemma_scan_groups_bounds(bytes, i0, Seq::<u8>::empty(), None, 0);
}

/// Scans one number token starting at `start`; the result — and the
/// error — is exactly `spec_scan_number`.
pub fn scan_number(bytes: &[u8], start: usize) -> (r: Result<
    (Vec<u8>, u64, Option<u64>, usize),
    PadicError,
>)
    requires
        start < bytes@.len(),
        bytes@.len() - start <= MAX_EXPR,
    ensures
        match r {
            Ok((digits, repeat, frac, next)) => {
                &&& spec_scan_number(bytes@, start as int) == Ok::<
                    (Seq<u8>, nat, Option<nat>, int),
                    PadicError,
                >((digits@, repeat as nat, opt_nat(frac), next as int))
                &&& start < next <= bytes@.len()
                &&& digits@.len() <= MAX_EXPR
                &&& match frac {
                    Some(f) => f <= digits@.len(),
                    None => true,
                }
            },
            Err(e) => spec_scan_number(bytes@, start as int) == Err::<
                (Seq<u8>, nat, Option<nat>, int),
                PadicError,
            >(e),
        },
{
    let n = bytes.len();
    let mut i = start;
    let mut repeat: u64 = 0;
    let mut digits: Vec<u8> = Vec::new();
    let mut dec_index: Option<u64> = None;
    while i < n && bytes[i] == 95u8
        invariant
            start <= i <= n,
            n == bytes@.len(),
            n - start <= MAX_EXPR,
            repeat == i - start,
            scan_rep(bytes@, start as int) == scan_rep(bytes@, i as int),
        decreases n - i,
    {
        i = i + 1;
        repeat = repeat + 1;
    }
    let ghost i0 = i as int;
    proof {
        assert(scan_rep(bytes@, i as int) == i as int);
        assert(scan_rep(bytes@, start as int) == i0);
    }
    let ghost goal = scan_groups(bytes@, i0, Seq::<u8>::empty(), None, 0);
    let mut groups: u64 = 0;
    proof {
        assert(digits@ =~= Seq::<u8>::empty());
    }
    loop
        invariant
            start <= i0 <= i <= n,
            n == bytes@.len(),
            n - start <= MAX_EXPR,
            i0 == scan_rep(bytes@, start as int),
            repeat == i0 - start,
            digits@.len() <= i - start,
            groups <= i - i0,
            match dec_index {
                Some(d) => d <= digits@.len(),
                None => true,
            },
            goal == scan_groups(bytes@, i0, Seq::<u8>::empty(), None, 0),
            goal == scan_groups(bytes@, i as int, digits@, opt_int(dec_index), groups as nat),
        ensures
            start <= i0 <= i <= n,
            n == bytes@.len(),
            i0 == scan_rep(bytes@, start as int),
            repeat == i0 - start,
            digits@.len() <= i - start,
            groups <= i - i0,
            match dec_index {
                Some(d) => d <= digits@.len(),
                None => true,
            },
            goal == scan_groups(bytes@, i0, Seq::<u8>::empty(), None, 0),
            goal == Ok::<(Seq<u8>, Option<int>, nat, int), PadicError>(
                (digits@, opt_int(dec_index), groups as nat, i as int),
            ),
        decreases n - i, 1int,
    {
        if i >= n {
            break ;
        }
        let b = bytes[i];
        if b >= 48u8 && b <= 57u8 {
            digits.push(b - 48u8);
            groups = groups + 1;
            i = i + 1;
        } else if b == 40u8 {
            let mut j = i + 1;
            let mut value: u64 = 0;
            let mut closed = false;
            while j < n && !closed
                invariant
                    start <= i0 <= i < n,
                    i < j <= n,
                    n == bytes@.len(),
                    n - start <= MAX_EXPR,
                    i0 == scan_rep(bytes@, start as int),
                    repeat == i0 - start,
                    digits@.len() <= i - start,
                    groups <= i - i0,
                    match dec_index {
                        Some(d) => d <= digits@.len(),
                        None => true,
                    },
                    bytes@[i as int] == 40,
                    goal == scan_groups(bytes@, i0, Seq::<u8>::empty(), None, 0),
                    goal == scan_groups(
                        bytes@,
                        i as int,
                        digits@,
                        opt_int(dec_index),
                        groups as nat,
                    ),
                    value <= 255,
                    closed ==> j < n && scan_paren(bytes@, i + 1, 0) == Ok::<
                        (int, int),
                        PadicError,
                    >((value as int, j as int)),
                    !closed ==> scan_paren(bytes@, i + 1, 0) == scan_paren(
                        bytes@,
                        j as int,
                        value as int,
                    ),
                decreases n - j + (if closed {
                    0int
                } else {
                    1int
                }),
            {
                let c = bytes[j];
                if c == 41u8 {
                    closed = true;
                } else if c >= 48u8 && c <= 57u8 {
                    let next_value = value * 10 + (c - 48u8) as u64;
                    if next_value > 255 {
                        proof {
                            assert(scan_paren(bytes@, j as int, value as int) == Err::<
                                (int, int),
                                PadicError,
                            >(PadicError::DigitGroupTooBig));
                            assert(scan_groups(
                                bytes@,
                                i as int,
                                digits@,
                                opt_int(dec_index),
                                groups as nat,
                            ) == Err::<(Seq<u8>, Option<int>, nat, int), PadicError>(
                                PadicError::DigitGroupTooBig,
                            ));
                        }
                        return Err(PadicError::DigitGroupTooBig);
                    }
                    value = next_value;
                    j = j + 1;
                } else {
                    proof {
                        assert(scan_paren(bytes@, j as int, value as int) == Err::<
                            (int, int),
                            PadicError,
                        >(PadicError::UnknownToken));
                        assert(scan_groups(
                            bytes@,
                            i as int,
                            digits@,
                            opt_int(dec_index),
                            groups as nat,
                        ) == Err::<(Seq<u8>, Option<int>, nat, int), PadicError>(
                            PadicError::UnknownToken,
                        ));
                    }
                    return Err(PadicError::UnknownToken);
                }
            }
            if !closed {
                proof {
                    assert(scan_paren(bytes@, j as int, value as int) == Err::<
                        (int, int),
                        PadicError,
                    >(PadicError::UnknownToken));
                    assert(scan_groups(
                        bytes@,
                        i as int,
                        digits@,
                        opt_int(dec_index),
                        groups as nat,
                    ) == Err::<(Seq<u8>, Option<int>, nat, int), PadicError>(
                        PadicError::UnknownToken,
                    ));
                }
                return Err(PadicError::UnknownToken);
            }
            digits.push(value as u8);
            groups = groups + 1;
            i = j + 1;
        } else if b == 46u8 {
            match dec_index {
                Some(_) => {
                    return Err(PadicError::TwoDecimalPoints);
                },
                None => {
                    if groups == 0 {
                        return Err(PadicError::UnknownToken);
                    }
                    dec_index = Some(digits.len() as u64);
                    i = i + 1;
                },
            }
        } else {
            break ;
        }
    }
    if groups == 0 {
        return Err(PadicError::UnknownToken);
    }
    let frac = match dec_index {
        Some(d) => Some(digits.len() as u64 - d),
        None => None,
    };
    Ok((digits, repeat, frac, i))
}

/// The scale-magnitude sum is nonnegative and bounds each element.
proof fn lemma_sum_scales_nonneg(s: Seq<PadicNumber>)
    ensures
        sum_scales(s) >= 0,
        forall|t: int|
            0 <= t < s.len() ==> #[trigger] abs_int(scale_of(n_model(s[t]))) <= sum_scales(s),
    decreases s.len(),
{
    if s.len() > 0 {
        lemma_sum_scales_nonneg(s.drop_last());
        assert(forall|t: int|
            0 <= t < s.len() - 1 ==> s.drop_last()[t] == #[trigger] s[t]);
    }
}

/// A stack floor can be lowered.
proof fn lemma_stack_ok_weaken(s: Seq<PadicNumber>, p: nat, hf1: int, hf2: int)
    requires
        stack_ok(s, p, hf1),
        hf2 <= hf1,
    ensures
        stack_ok(s, p, hf2),
{
    assert forall|t: int| 0 <= t < s.len() implies #[trigger] value_ok(
        s[t],
        p,
        hf2,
        SCALE_BOUND as int,
    ) by {
        assert(value_ok(s[t], p, hf1, SCALE_BOUND as int));
    }
}

/// The arithmetic operators of the expression language.
#[derive(Clone, Copy, PartialEq, Eq, Structural)]
pub enum BinOp {
    Addition,
    Subtraction,
    Multiplication,
    Division,
}

/// The index of the divisor's first nonzero aligned digit, scanning
/// from `j` and giving up one past the scan bound.
pub open spec fn first_nz_from(r: Model, j: nat) -> nat
    decreases SCAN_BOUND + 1 - j,
{
    if j > SCAN_BOUND {
        j
    } else if digit_of(r, scale_of(r) + j) != 0 {
        j
    } else {
        first_nz_from(r, j + 1)
    }
}

pub open spec fn first_nz(r: Model) -> nat {
    first_nz_from(r, 0)
}

proof fn lemma_first_nz_from(r: Model, j: nat, k: nat)
    requires
        j <= k <= SCAN_BOUND,
        forall|t: nat| t < k ==> #[trigger] digit_of(r, scale_of(r) + t) == 0,
        digit_of(r, scale_of(r) + k) != 0,
    ensures
        first_nz_from(r, j) == k,
    decreases k - j,
{
    if j < k {
        assert(digit_of(r, scale_of(r) + j) == 0);
        lemma_first_nz_from(r, j + 1, k);
    }
}

/// The inverse of `d` modulo `p`, where one exists.
pub open spec fn inv_mod(p: nat, d: nat) -> nat {
    choose|x: nat| x < p && #[trigger] ((d * x) % p) == 1
}

/// The inverse modulo `p` is unique below `p`.
proof fn lemma_inverse_unique(p: int, u: int, x: int, y: int)
    requires
        p >= 2,
        0 <= x < p,
        0 <= y < p,
        (u * x) % p == 1,
        (u * y) % p == 1,
    ensures
        x == y,
{
    vstd::arithmetic::div_mod::lemma_mul_mod_noop_right(x, u * y, p);
    assert((x * ((u * y) % p)) % p == (x * (u * y)) % p);
    assert(x * 1 == x);
    vstd::arithmetic::div_mod::lemma_small_mod(x as nat, p as nat);
    assert((x * (u * y)) % p == x);
    assert(x * (u * y) == (u * x) * y) by (nonlinear_arith);
    vstd::arithmetic::div_mod::lemma_mul_mod_noop_left(u * x, y, p);
    assert((((u * x) % p) * y) % p == ((u * x) * y) % p);
    assert(1 * y == y);
    vstd::arithmetic::div_mod::lemma_small_mod(y as nat, p as nat);
    assert(((u * x) * y) % p == y);
}

/// The model an operator's result stands for, applied to the two
/// topmost models.
pub open spec fn op_model(op: BinOp, a: Model, b: Model) -> Model {
    match op {
        BinOp::Addition => Model::Add {
            lhs: Box::new(a),
            rhs: Box::new(b),
            adj: add_adj_from(a, b, 0),
        },
        BinOp::Subtraction => Model::Sub {
            lhs: Box::new(a),
            rhs: Box::new(b),
            adj: crate::model::sub_adj_from(a, b, 0),
        },
        BinOp::Multiplication => Model::Mul { lhs: Box::new(a), rhs: Box::new(b) },
        BinOp::Division => Model::Div {
            lhs: Box::new(a),
            rhs: Box::new(b),
            k: first_nz(b),
            uinv: inv_mod(base_of(a), digit_of(b, scale_of(b) + first_nz(b))),
        },
    }
}

/// What one binary operator does to the stack: pops the two topmost
/// values and pushes the operator's result on them, the next-to-top
/// value first; fails on a short stack, and for division in a base that
/// is not prime or by a divisor showing no nonzero digit within the
/// scan bound.
pub open spec fn spec_binop(p: nat, op: BinOp, stack: Seq<Model>) -> Result<
    Seq<Model>,
    PadicError,
> {
    if stack.len() < 2 {
        Err(PadicError::UnbalancedStack)
    } else {
        let a = stack[stack.len() - 2];
        let b = stack.last();
        if op is Division && !spec_prime(p as int) {
            Err(PadicError::NotInvertible)
        } else if op is Division && (forall|j: nat|
            j <= SCAN_BOUND ==> #[trigger] digit_of(b, scale_of(b) + j) == 0) {
            Err(PadicError::DivisionByZero)
        } else {
            Ok(stack.drop_last().drop_last().push(op_model(op, a, b)))
        }
    }
}

/// Pops two values and pushes the operator's result; the new stack —
/// and the error — is exactly `spec_binop` on the old one.
pub fn binary_operator(
    stack: &mut Vec<PadicNumber>,
    op: BinOp,
    Ghost(p): Ghost<nat>,
    Ghost(hf): Ghost<int>,
) -> (r: Result<(), PadicError>)
    requires
        stack_ok(old(stack)@, p, hf),
        sum_scales(old(stack)@) + SCAN_BOUND + NORM_CAP <= SCALE_BOUND as int,
        4 * SCALE_BOUND + DIV_MARGIN as int <= hf <= IDX_BOUND as int,
    ensures
        match r {
            Ok(()) => {
                &&& spec_binop(p, op, models_of(old(stack)@)) == Ok::<Seq<Model>, PadicError>(
                    models_of(final(stack)@),
                )
                &&& old(stack)@.len() >= 2
                &&& final(stack)@.len() == old(stack)@.len() - 1
                &&& stack_ok(final(stack)@, p, hf - DIV_MARGIN as int)
                &&& sum_scales(final(stack)@) <= sum_scales(old(stack)@) + SCAN_BOUND + NORM_CAP
            },
            Err(e) => spec_binop(p, op, models_of(old(stack)@)) == Err::<Seq<Model>, PadicError>(
                e,
            ),
        },
{
    proof {
        lemma_sum_scales_nonneg(stack@);
    }
    if stack.len() < 2 {
        return Err(PadicError::UnbalancedStack);
    }
    let ghost s0 = stack@;
    let b = match stack.pop() {
        Some(x) => x,
        None => {
            proof {
                assert(false);
            }
            return Err(PadicError::UnbalancedStack);
        },
    };
    let ghost s1 = stack@;
    let a = match stack.pop() {
        Some(x) => x,
        None => {
            proof {
                assert(false);
            }
            return Err(PadicError::UnbalancedStack);
        },
    };
    let ghost am = n_model(a);
    let ghost bm = n_model(b);
    proof {
        assert(s1 =~= s0.drop_last());
        assert(stack@ =~= s1.drop_last());
        assert(value_ok(a, p, hf, SCALE_BOUND as int));
        assert(value_ok(b, p, hf, SCALE_BOUND as int));
        assert(models_of(s0)[s0.len() - 2] == am);
        assert(models_of(s0).last() == bm);
        assert(sum_scales(s0) == sum_scales(s1) + abs_int(scale_of(bm)));
        assert(sum_scales(s1) == sum_scales(stack@) + abs_int(scale_of(am)));
        lemma_sum_scales_nonneg(stack@);
        crate::padic::lemma_n_inv_wf(a);
        crate::padic::lemma_n_inv_wf(b);
        crate::model::lemma_scale_bounded(n_model(a));
        crate::model::lemma_scale_bounded(n_model(b));
        crate::model::lemma_hi_allow_le(n_model(a));
        crate::model::lemma_hi_allow_le(n_model(b));
    }
    let c = match op {
        BinOp::Addition => {
            proof {
                lemma_add_adj_le(n_model(a), n_model(b), 0);
            }
            match a.add(b) {
                Ok(x) => {
                    proof {
                        crate::padic::lemma_n_inv_wf(x);
                        assert(n_model(x) == op_model(op, am, bm));
                        assert(abs_int(scale_of(n_model(x))) <= abs_int(scale_of(am)) + abs_int(
                            scale_of(bm),
                        ) + SCAN_BOUND + NORM_CAP);
                        assert(hi_allow(n_model(x)) >= hf - DIV_MARGIN as int);
                        assert(value_ok(x, p, hf - DIV_MARGIN as int, SCALE_BOUND as int));
                    }
                    x
                },
                Err(e) => {
                    proof {
                        assert(false);
                    }
                    return Err(e);
                },
            }
        },
        BinOp::Subtraction => {
            proof {
                lemma_sub_adj_le(n_model(a), n_model(b), 0);
            }
            match a.sub(b) {
                Ok(x) => {
                    proof {
                        crate::padic::lemma_n_inv_wf(x);
                        assert(n_model(x) == op_model(op, am, bm));
                        assert(abs_int(scale_of(n_model(x))) <= abs_int(scale_of(am)) + abs_int(
                            scale_of(bm),
                        ) + SCAN_BOUND + NORM_CAP);
                        assert(hi_allow(n_model(x)) >= hf - DIV_MARGIN as int);
                        assert(value_ok(x, p, hf - DIV_MARGIN as int, SCALE_BOUND as int));
                    }
                    x
                },
                Err(e) => {
                    proof {
                        assert(false);
                    }
                    return Err(e);
                },
            }
        },
        BinOp::Multiplication => {
            match a.mul(b) {
                Ok(x) => {
                    proof {
                        crate::padic::lemma_n_inv_wf(x);
                        assert(n_model(x) == op_model(op, am, bm));
                        assert(abs_int(scale_of(n_model(x))) <= abs_int(scale_of(am)) + abs_int(
                            scale_of(bm),
                        ) + SCAN_BOUND + NORM_CAP);
                        assert(hi_allow(n_model(x)) >= hf - DIV_MARGIN as int);
                        assert(value_ok(x, p, hf - DIV_MARGIN as int, SCALE_BOUND as int));
                    }
                    x
                },
                Err(e) => {
                    proof {
                        assert(false);
                    }
                    return Err(e);
                },
            }
        },
        BinOp::Division => {
            match a.div(b) {
                Ok(x) => {
                    proof {
                        crate::padic::lemma_n_inv_wf(x);
                        let km = n_model(x)->Div_k;
                        let uv = n_model(x)->Div_uinv;
                        assert(km <= SCAN_BOUND);
                        lemma_first_nz_from(bm, 0, km);
                        assert(km == first_nz(bm));
                        let d = digit_of(bm, scale_of(bm) + km);
                        assert((d * uv) % p == 1);
                        assert(uv < p);
                        assert(spec_prime(p as int));
                        let cv = inv_mod(p, d);
                        assert(cv < p && (d * cv) % p == 1) by {
                            assert(uv < p && (d * uv) % p == 1);
                        }
                        lemma_inverse_unique(p as int, d as int, uv as int, cv as int);
                        assert(n_model(x) == op_model(op, am, bm));
                        assert(abs_int(scale_of(n_model(x))) <= abs_int(scale_of(am)) + abs_int(
                            scale_of(bm),
                        ) + SCAN_BOUND + NORM_CAP);
                        assert(hi_allow(n_model(x)) >= hf - DIV_MARGIN as int);
                        assert(value_ok(x, p, hf - DIV_MARGIN as int, SCALE_BOUND as int));
                    }
                    x
                },
                Err(e) => {
                    proof {
                        assert(e != PadicError::MismatchedBase);
                    }
                    return Err(e);
                },
            }
        },
    };
    let ghost snew = stack@;
    stack.push(c);
    proof {
        assert(stack@.drop_last() == snew);
        assert(stack@.last() == c);
        assert(value_ok(c, p, hf - DIV_MARGIN as int, SCALE_BOUND as int));
        assert(models_of(stack@) =~= models_of(s0).drop_last().drop_last().push(
            op_model(op, am, bm),
        ));
        assert forall|t: int| 0 <= t < stack@.len() implies #[trigger] value_ok(
            stack@[t],
            p,
            hf - DIV_MARGIN as int,
            SCALE_BOUND as int,
        ) by {
            if t < stack@.len() - 1 {
                assert(value_ok(s0[t], p, hf, SCALE_BOUND as int));
            }
        }
    }
    Ok(())
}

/// What the square operator does to the stack: replaces the top with
/// its product by itself; fails on an empty stack, and on a value whose
/// scale is too deep to square within the engine's bounds.
pub open spec fn spec_unop(stack: Seq<Model>) -> Result<Seq<Model>, PadicError> {
    if stack.len() < 1 {
        Err(PadicError::UnbalancedStack)
    } else {
        let a = stack.last();
        if scale_of(a) > VAR_SCALE_MAX as int / 2 || scale_of(a) < -(VAR_SCALE_MAX as int / 2) {
            Err(PadicError::InputTooLarge)
        } else {
            Ok(stack.drop_last().push(Model::Mul { lhs: Box::new(a), rhs: Box::new(a) }))
        }
    }
}

/// Pops one value and pushes its square; the new stack — and the error
/// — is exactly `spec_unop` on the old one.
pub fn unary_operator(
    stack: &mut Vec<PadicNumber>,
    Ghost(p): Ghost<nat>,
    Ghost(hf): Ghost<int>,
) -> (r: Result<(), PadicError>)
    requires
        stack_ok(old(stack)@, p, hf),
        sum_scales(old(stack)@) + VAR_SCALE_MAX <= SCALE_BOUND as int,
        4 * SCALE_BOUND + DIV_MARGIN as int <= hf <= IDX_BOUND as int,
    ensures
        match r {
            Ok(()) => {
                &&& spec_unop(models_of(old(stack)@)) == Ok::<Seq<Model>, PadicError>(
                    models_of(final(stack)@),
                )
                &&& old(stack)@.len() >= 1
                &&& final(stack)@.len() == old(stack)@.len()
                &&& stack_ok(final(stack)@, p, hf - DIV_MARGIN as int)
                &&& sum_scales(final(stack)@) <= sum_scales(old(stack)@) + VAR_SCALE_MAX
            },
            Err(e) => spec_unop(models_of(old(stack)@)) == Err::<Seq<Model>, PadicError>(e),
        },
{
    proof {
        lemma_sum_scales_nonneg(stack@);
    }
    if stack.len() < 1 {
        return Err(PadicError::UnbalancedStack);
    }
    let ghost s0 = stack@;
    let a = match stack.pop() {
        Some(x) => x,
        None => {
            proof {
                assert(false);
            }
            return Err(PadicError::UnbalancedStack);
        },
    };
    proof {
        assert(stack@ =~= s0.drop_last());
        assert(value_ok(a, p, hf, SCALE_BOUND as int));
        assert(models_of(s0).last() == n_model(a));
        lemma_sum_scales_nonneg(stack@);
        crate::padic::lemma_n_inv_wf(a);
        crate::model::lemma_scale_bounded(n_model(a));
        crate::model::lemma_hi_allow_le(n_model(a));
    }
    let sa = a.get_scale();
    if sa > VAR_SCALE_MAX / 2 || sa < -VAR_SCALE_MAX / 2 {
        return Err(PadicError::InputTooLarge);
    }
    let ghost am = n_model(a);
    proof {
        assert(sum_scales(s0) == sum_scales(stack@) + abs_int(scale_of(am)));
    }
    let a2 = a.clone();
    let c = match a2.mul(a) {
        Ok(x) => {
            proof {
                crate::padic::lemma_n_inv_wf(x);
                assert(n_model(x) == (Model::Mul { lhs: Box::new(am), rhs: Box::new(am) }));
                assert(abs_int(scale_of(n_model(x))) <= 2 * abs_int(scale_of(am)));
                assert(hi_allow(n_model(x)) >= hf - DIV_MARGIN as int);
                assert(value_ok(x, p, hf - DIV_MARGIN as int, SCALE_BOUND as int));
            }
            x
        },
        Err(e) => {
            proof {
                assert(false);
            }
            return Err(e);
        },
    };
    let ghost snew = stack@;
    stack.push(c);
    proof {
        assert(stack@.drop_last() == snew);
        assert(value_ok(c, p, hf - DIV_MARGIN as int, SCALE_BOUND as int));
        assert(models_of(stack@) =~= models_of(s0).drop_last().push(
            Model::Mul { lhs: Box::new(am), rhs: Box::new(am) },
        ));
        assert forall|t: int| 0 <= t < stack@.len() implies #[trigger] value_ok(
            stack@[t],
            p,
            hf - DIV_MARGIN as int,
            SCALE_BOUND as int,
        ) by {
            if t < stack@.len() - 1 {
                assert(value_ok(s0[t], p, hf, SCALE_BOUND as int));
            }
        }
    }
    Ok(())
}

pub open spec fn is_space(b: u8) -> bool {
    b == 32 || b == 9 || b == 10 || b == 12
}

/// What evaluating the bytes from `i` with the given stack and bindings
/// returns: the one remaining model, or the fault met first — an
/// unknown token, a malformed literal, a reserved bracket, an unknown
/// variable, an operator fault, or a stack that does not end with
/// exactly one value.
pub open spec fn spec_eval(
    p: nat,
    bytes: Seq<u8>,
    i: int,
    stack: Seq<Model>,
    store: Seq<(Seq<char>, Model)>,
) -> Result<Model, PadicError>
    decreases bytes.len() - i,
        via spec_eval_dec
{
    if i >= bytes.len() {
        if stack.len() == 1 {
            Ok(stack[0])
        } else {
            Err(PadicError::UnbalancedStack)
        }
    } else {
        let b = bytes[i];
        if is_space(b) {
            spec_eval(p, bytes, i + 1, stack, store)
        } else if b == 43 {
            match spec_binop(p, BinOp::Addition, stack) {
                Ok(s) => spec_eval(p, bytes, i + 1, s, store),
                Err(e) => Err(e),
            }
        } else if b == 45 {
            match spec_binop(p, BinOp::Subtraction, stack) {
                Ok(s) => spec_eval(p, bytes, i + 1, s, store),
                Err(e) => Err(e),
            }
        } else if b == 42 {
            match spec_binop(p, BinOp::Multiplication, stack) {
                Ok(s) => spec_eval(p, bytes, i + 1, s, store),
                Err(e) => Err(e),
            }
        } else if b == 47 {
            match spec_binop(p, BinOp::Division, stack) {
                Ok(s) => spec_eval(p, bytes, i + 1, s, store),
                Err(e) => Err(e),
            }
        } else if b == 94 {
            if i + 1 >= bytes.len() || bytes[i + 1] != 94 {
                Err(PadicError::UnknownToken)
            } else {
                match spec_unop(stack) {
                    Ok(s) => spec_eval(p, bytes, i + 2, s, store),
                    Err(e) => Err(e),
                }
            }
        } else if b == 91 || b == 93 {
            Err(PadicError::BracketsUnsupported)
        } else if b == 38 {
            let (from, to, consumed) = ref_span(bytes, i);
            match store_find(store, chars_of_bytes(bytes.subrange(from, to))) {
                Some(m) => spec_eval(p, bytes, i + consumed, stack.push(m), store),
                None => Err(PadicError::UnknownVariable),
            }
        } else if b == 95 || (48 <= b <= 57) || b == 40 {
            match spec_scan_number(bytes, i) {
                Ok((digits, rep, frac, next)) => {
                    match spec_build_literal(p, digits, rep, frac) {
                        Ok(m) => spec_eval(p, bytes, next, stack.push(m), store),
                        Err(e) => Err(e),
                    }
                },
                Err(e) => Err(e),
            }
        } else {
            Err(PadicError::UnknownToken)
        }
    }
}

#[via_fn]
proof fn spec_eval_dec(
    p: nat,
    bytes: Seq<u8>,
    i: int,
    stack: Seq<Model>,
    store: Seq<(Seq<char>, Model)>,
) {
    if i < bytes.len() {
        let b = bytes[i];
        if b == 38 {
            if i + 1 < bytes.len() && bytes[i + 1] == 123 {
                lemma_word_end_bounds(bytes, i + 2);
            }
        }
        if b == 95 || (48 <= b <= 57) || b == 40 {
            if i <= bytes.len() {
                lemma_scan_number_bounds(bytes, i);
            }
        }
    }
}

/// The headroom floor every value of the evaluation stack keeps while
/// `used` input bytes have been consumed.
pub open spec fn eval_floor(used: int) -> int {
    IDX_BOUND as int - (MAX_EXPR as int + 1 + used) * (DIV_MARGIN as int)
}

/// Evaluates a postfix expression over base `p` read from `bytes`
/// starting at `start`, with `arguments` supplying the values of
/// references. The value returned — and the error — is exactly
/// `spec_eval` from an empty stack.
pub fn parse_bytes(p: u8, bytes: &[u8], start: usize, arguments: &VarStore) -> (r: Result<
    PadicNumber,
    PadicError,
>)
    requires
        p >= 1,
        start <= bytes@.len(),
        bytes@.len() - start <= MAX_EXPR,
        arguments.inv_for(p as nat),
    ensures
        match r {
            Ok(n) => {
                &&& value_ok(n, p as nat, eval_floor(MAX_EXPR as int), SCALE_BOUND as int)
                &&& spec_eval(
                    p as nat,
                    bytes@,
                    start as int,
                    Seq::<Model>::empty(),
                    arguments.store_view(),
                ) == Ok::<Model, PadicError>(n@)
            },
            Err(e) => spec_eval(
                p as nat,
                bytes@,
                start as int,
                Seq::<Model>::empty(),
                arguments.store_view(),
            ) == Err::<Model, PadicError>(e),
        },
{
    let n = bytes.len();
    let mut stack: Vec<PadicNumber> = Vec::new();
    let ghost sv = arguments.store_view();
    let ghost goal = spec_eval(p as nat, bytes@, start as int, Seq::<Model>::empty(), sv);
    let mut i = start;
    proof {
        assert(models_of(stack@) =~= Seq::<Model>::empty());
    }
    while i < n
        invariant
            p >= 1,
            start <= i <= n,
            n == bytes@.len(),
            n - start <= MAX_EXPR,
            arguments.inv_for(p as nat),
            sv == arguments.store_view(),
            goal == spec_eval(p as nat, bytes@, start as int, Seq::<Model>::empty(), sv),
            goal == spec_eval(p as nat, bytes@, i as int, models_of(stack@), sv),
            stack_ok(stack@, p as nat, eval_floor(i - start)),
            sum_scales(stack@) <= SCALE_PER_BYTE * (i - start),
        decreases n - i,
    {
        let ghost i0 = i;
        let ghost hf0 = eval_floor(i0 - start);
        let ghost ms0 = models_of(stack@);
        proof {
            lemma_sum_scales_nonneg(stack@);
        }
        let b = bytes[i];
        if b == 32u8 || b == 9u8 || b == 10u8 || b == 12u8 {
            i = i + 1;
            proof {
                lemma_stack_ok_weaken(stack@, p as nat, hf0, eval_floor(i - start));
            }
        } else if b == 43u8 {
            // '+'
            match binary_operator(&mut stack, BinOp::Addition, Ghost(p as nat), Ghost(hf0)) {
                Ok(()) => {},
                Err(e) => {
                    return Err(e);
                },
            }
            i = i + 1;
            proof {
                lemma_stack_ok_weaken(
                    stack@,
                    p as nat,
                    hf0 - DIV_MARGIN as int,
                    eval_floor(i - start),
                );
            }
        } else if b == 45u8 {
            // '-'
            match binary_operator(&mut stack, BinOp::Subtraction, Ghost(p as nat), Ghost(hf0)) {
                Ok(()) => {},
                Err(e) => {
                    return Err(e);
                },
            }
            i = i + 1;
            proof {
                lemma_stack_ok_weaken(
                    stack@,
                    p as nat,
                    hf0 - DIV_MARGIN as int,
                    eval_floor(i - start),
                );
            }
        } else if b == 42u8 {
            // '*'
            match binary_operator(&mut stack, BinOp::Multiplication, Ghost(p as nat), Ghost(hf0)) {
                Ok(()) => {},
                Err(e) => {
                    return Err(e);
                },
            }
            i = i + 1;
            proof {
                lemma_stack_ok_weaken(
                    stack@,
                    p as nat,
                    hf0 - DIV_MARGIN as int,
                    eval_floor(i - start),
                );
            }
        } else if b == 47u8 {
            // '/'
            match binary_operator(&mut stack, BinOp::Division, Ghost(p as nat), Ghost(hf0)) {
                Ok(()) => {},
                Err(e) => {
                    return Err(e);
                },
            }
            i = i + 1;
            proof {
                lemma_stack_ok_weaken(
                    stack@,
                    p as nat,
                    hf0 - DIV_MARGIN as int,
                    eval_floor(i - start),
                );
            }
        } else if b == 94u8 {
            // '^', which must pair into the square operator
            if i + 1 >= n || bytes[i + 1] != 94u8 {
                return Err(PadicError::UnknownToken);
            }
            match unary_operator(&mut stack, Ghost(p as nat), Ghost(hf0)) {
                Ok(()) => {},
                Err(e) => {
                    return Err(e);
                },
            }
            i = i + 2;
            proof {
                lemma_stack_ok_weaken(
                    stack@,
                    p as nat,
                    hf0 - DIV_MARGIN as int,
                    eval_floor(i - start),
                );
            }
        } else if b == 91u8 || b == 93u8 {
            // '[' and ']' are reserved
            return Err(PadicError::BracketsUnsupported);
        } else if b == 38u8 {
            // '&', optionally followed by a braced name
            let mut from = i + 1;
            let mut to = i + 1;
            let mut consumed: usize = 1;
            if i + 1 < n && bytes[i + 1] == 123u8 {
                let mut j = i + 2;
                while j < n && is_word_byte(bytes[j])
                    invariant
                        i + 2 <= j <= n,
                        n == bytes@.len(),
                        spec_word_end(bytes@, i + 2) == spec_word_end(bytes@, j as int),
                    decreases n - j,
                {
                    j = j + 1;
                }
                proof {
                    assert(spec_word_end(bytes@, j as int) == j as int);
                }
                if j < n && bytes[j] == 125u8 {
                    from = i + 2;
                    to = j;
                    consumed = j + 1 - i;
                }
            }
            proof {
                assert(ref_span(bytes@, i as int) == (from as int, to as int, consumed as int));
            }
            let value = match arguments.lookup_range(bytes, from, to, Ghost(p as nat)) {
                Some(v) => v,
                None => {
                    return Err(PadicError::UnknownVariable);
                },
            };
            proof {
                let tw = choose|t: int|
                    0 <= t < arguments.values@.len() && n_model(value) == n_model(
                        #[trigger] arguments.values@[t],
                    ) && n_inv(value) == n_inv(arguments.values@[t]);
                assert(value_ok(
                    arguments.values@[tw],
                    p as nat,
                    IDX_BOUND as int - (MAX_EXPR as int + 1) * (DIV_MARGIN as int),
                    VAR_SCALE_MAX as int,
                ));
                assert(value_ok(
                    value,
                    p as nat,
                    IDX_BOUND as int - (MAX_EXPR as int + 1) * (DIV_MARGIN as int),
                    VAR_SCALE_MAX as int,
                ));
            }
            let ghost svv = stack@;
            stack.push(value);
            i = i + consumed;
            proof {
                assert(stack@.drop_last() == svv);
                assert(models_of(stack@) =~= ms0.push(n_model(value)));
                assert(sum_scales(stack@) == sum_scales(svv) + abs_int(
                    scale_of(n_model(stack@.last())),
                ));
                assert(value_ok(stack@.last(), p as nat, eval_floor(i - start), SCALE_BOUND as int));
                assert forall|t: int| 0 <= t < stack@.len() implies #[trigger] value_ok(
                    stack@[t],
                    p as nat,
                    eval_floor(i - start),
                    SCALE_BOUND as int,
                ) by {
                    if t < stack@.len() - 1 {
                        assert(value_ok(svv[t], p as nat, hf0, SCALE_BOUND as int));
                    }
                }
            }
        } else if b == 95u8 || (b >= 48u8 && b <= 57u8) || b == 40u8 {
            // a number literal
            let (digits, repeat, frac, next) = match scan_number(bytes, i) {
                Ok(x) => x,
                Err(e) => {
                    return Err(e);
                },
            };
            let lit = match build_literal(p, digits, repeat, frac) {
                Ok(x) => x,
                Err(e) => {
                    return Err(e);
                },
            };
            let ghost svv = stack@;
            stack.push(lit);
            i = next;
            proof {
                assert(stack@.drop_last() == svv);
                assert(models_of(stack@) =~= ms0.push(n_model(lit)));
                assert(sum_scales(stack@) == sum_scales(svv) + abs_int(
                    scale_of(n_model(stack@.last())),
                ));
                assert(value_ok(stack@.last(), p as nat, eval_floor(i - start), SCALE_BOUND as int));
                assert forall|t: int| 0 <= t < stack@.len() implies #[trigger] value_ok(
                    stack@[t],
                    p as nat,
                    eval_floor(i - start),
                    SCALE_BOUND as int,
                ) by {
                    if t < stack@.len() - 1 {
                        assert(value_ok(svv[t], p as nat, hf0, SCALE_BOUND as int));
                    }
                }
            }
        } else {
            return Err(PadicError::UnknownToken);
        }
    }
    if stack.len() != 1 {
        return Err(PadicError::UnbalancedStack);
    }
    match stack.pop() {
        Some(x) => {
            proof {
                assert(models_of(stack@.push(x))[0] == n_model(x));
                assert(value_ok(x, p as nat, eval_floor(n - start), SCALE_BOUND as int));
                lemma_sum_scales_nonneg(stack@);
            }
            Ok(x)
        },
        None => {
            proof {
                assert(false);
            }
            Err(PadicError::UnbalancedStack)
        },
    }
}

/// Parses and evaluates one postfix expression over base `p`: exactly
/// `spec_eval` on the string's bytes from an empty stack.
pub fn parse_padic(p: u8, string: &str, arguments: &VarStore) -> (r: Result<
    PadicNumber,
    PadicError,
>)
    requires
        p >= 1,
        string.spec_bytes().len() <= MAX_EXPR,
        arguments.inv_for(p as nat),
    ensures
        match r {
            Ok(n) => {
                &&& value_ok(n, p as nat, eval_floor(MAX_EXPR as int), SCALE_BOUND as int)
                &&& spec_eval(
                    p as nat,
                    string.spec_bytes(),
                    0,
                    Seq::<Model>::empty(),
                    arguments.store_view(),
                ) == Ok::<Model, PadicError>(n@)
            },
            Err(e) => spec_eval(
                p as nat,
                string.spec_bytes(),
                0,
                Seq::<Model>::empty(),
                arguments.store_view(),
            ) == Err::<Model, PadicError>(e),
        },
{
    let bytes = string.as_bytes();
    parse_bytes(p, bytes, 0, arguments)
}

/// The normalization count of a difference is capped.
proof fn lemma_sub_adj_le(l: Model, r: Model, n: nat)
    requires
        n <= NORM_CAP,
    ensures
        n <= crate::model::sub_adj_from(l, r, n) <= NORM_CAP,
    decreases (NORM_CAP - n) as int,
{
    if n < NORM_CAP && crate::model::sub_raw(l, r, n) == 0 {
        lemma_sub_adj_le(l, r, n + 1);
    }
}

/// The normalization count of a sum is capped.
proof fn lemma_add_adj_le(l: Model, r: Model, n: nat)
    requires
        n <= NORM_CAP,
    ensures
        n <= add_adj_from(l, r, n) <= NORM_CAP,
    decreases (NORM_CAP - n) as int,
{
    if n < NORM_CAP && crate::model::add_raw(l, r, n) == 0 {
        lemma_add_adj_le(l, r, n + 1);
    }
}

} // verus!
