//! The calculator session: a base, a rendering view size, the bound
//! variables, and the handler that turns one input line into the lines
//! to print. Reading input and printing stay outside; this module only
//! decides, and what it decides is fixed by spec functions over the
//! line's bytes: `eval_lines` and `eval_store` for an evaluation,
//! `view_len` for the length command, and `var_lines` for the listing.

use vstd::prelude::*;
use vstd::string::StringSliceAdditionalSpecFns;

use crate::model::{est_allow, scale_of, Model, DIV_MARGIN, IDX_BOUND};
use crate::padic::{n_model, render_chars, PadicAccessor, PadicError};
use crate::padic_lang::{
    parse_bytes, spec_eval, spec_insert, value_ok, VarStore, MAX_EXPR, VAR_SCALE_MAX,
};

verus! {

/// The largest rendering view size the session accepts.
pub const VIEW_MAX: i64 = 0x4000_0000;

/// The description of each failure.
pub open spec fn describe_chars(e: PadicError) -> Seq<char> {
    match e {
        PadicError::DigitOutOfRange => "a digit does not fit the base"@,
        PadicError::MismatchedBase => "the operands carry different bases"@,
        PadicError::TooSmallBase => "the base must be positive"@,
        PadicError::NotInvertible => "division needs a prime base"@,
        PadicError::DivisionByZero => "the divisor looks like zero"@,
        PadicError::UnknownToken => "unknown token"@,
        PadicError::DigitGroupTooBig => "parenthesized digit too big"@,
        PadicError::TwoDecimalPoints => "two decimal points in one number"@,
        PadicError::RepeatTooLong => "more digits repeat than were given"@,
        PadicError::UnbalancedStack => "wrong remaining amount on stack"@,
        PadicError::UnknownVariable => "unknown variable"@,
        PadicError::BracketsUnsupported => "brackets are not supported yet"@,
        PadicError::InputTooLarge => "the input exceeds the engine's limits"@,
    }
}

/// The one line a failure prints.
pub open spec fn err_line(e: PadicError) -> Seq<char> {
    "Error: "@ + describe_chars(e)
}

impl PadicError {
    /// A short description of the failure.
    pub fn describe(&self) -> (r: &'static str)
        ensures
            r@ == describe_chars(*self),
    {
        match self {
            PadicError::DigitOutOfRange => "a digit does not fit the base",
            PadicError::MismatchedBase => "the operands carry different bases",
            PadicError::TooSmallBase => "the base must be positive",
            PadicError::NotInvertible => "division needs a prime base",
            PadicError::DivisionByZero => "the divisor looks like zero",
            PadicError::UnknownToken => "unknown token",
            PadicError::DigitGroupTooBig => "parenthesized digit too big",
            PadicError::TwoDecimalPoints => "two decimal points in one number",
            PadicError::RepeatTooLong => "more digits repeat than were given",
            PadicError::UnbalancedStack => "wrong remaining amount on stack",
            PadicError::UnknownVariable => "unknown variable",
            PadicError::BracketsUnsupported => "brackets are not supported yet",
            PadicError::InputTooLarge => "the input exceeds the engine's limits",
        }
    }
}

/// Whether an evaluated value fits the store's bounds: its scale within
/// the stored-variable cap and enough headroom left for later lines.
pub open spec fn bind_fits(m: Model) -> bool {
    &&& -VAR_SCALE_MAX <= scale_of(m) <= VAR_SCALE_MAX as int
    &&& est_allow(m) >= IDX_BOUND as int - (MAX_EXPR as int + 1) * (DIV_MARGIN as int)
}

/// The lines one evaluation prints: the label and the rendered value on
/// success, with a note when the result cannot be remembered; a single
/// error line on failure or on an oversized input.
pub open spec fn eval_lines(
    p: nat,
    bytes: Seq<u8>,
    start: int,
    store: Seq<(Seq<char>, Model)>,
    label: Seq<char>,
    length: int,
) -> Seq<Seq<char>> {
    if bytes.len() - start > MAX_EXPR {
        seq![err_line(PadicError::InputTooLarge)]
    } else {
        match spec_eval(p, bytes, start, Seq::<Model>::empty(), store) {
            Ok(m) => {
                if bind_fits(m) {
                    seq![label + render_chars(m, length as nat)]
                } else {
                    seq![
                        label + render_chars(m, length as nat),
                        err_line(PadicError::InputTooLarge),
                    ]
                }
            },
            Err(e) => seq![err_line(e)],
        }
    }
}

/// The bindings after one evaluation: the result bound under `name`
/// when it fits the store's bounds, the old bindings otherwise.
pub open spec fn eval_store(
    p: nat,
    bytes: Seq<u8>,
    start: int,
    store: Seq<(Seq<char>, Model)>,
    name: Seq<char>,
) -> Seq<(Seq<char>, Model)> {
    if bytes.len() - start > MAX_EXPR {
        store
    } else {
        match spec_eval(p, bytes, start, Seq::<Model>::empty(), store) {
            Ok(m) => {
                if bind_fits(m) {
                    spec_insert(store, name, m)
                } else {
                    store
                }
            },
            Err(e) => store,
        }
    }
}

/// The listing of the bindings, one line each, in binding order.
pub open spec fn var_lines(store: Seq<(Seq<char>, Model)>, length: int) -> Seq<Seq<char>> {
    Seq::new(store.len(), |t: int| store[t].0 + " = "@ + render_chars(store[t].1, length as nat))
}

/// The first position at or after `j` that is not a space.
pub open spec fn skip_spaces(bytes: Seq<u8>, j: int) -> int
    decreases bytes.len() - j,
{
    if j >= bytes.len() || bytes[j] != 32 {
        j
    } else {
        skip_spaces(bytes, j + 1)
    }
}

/// The first position at or after `j` that is a space, or the end.
pub open spec fn skip_nonspace(bytes: Seq<u8>, j: int) -> int
    decreases bytes.len() - j,
{
    if j >= bytes.len() || bytes[j] == 32 {
        j
    } else {
        skip_nonspace(bytes, j + 1)
    }
}

/// The view size the length command's digits spell, reading from `a`
/// with `value` accumulated: `None` on a non-digit, on overflow past
/// `VIEW_MAX`, or when no digit was typed.
pub open spec fn scan_len(bytes: Seq<u8>, a: int, value: int, digits: bool) -> Option<int>
    decreases bytes.len() - a,
{
    if a >= bytes.len() || bytes[a] == 32 {
        if digits {
            Some(value)
        } else {
            None
        }
    } else if 48 <= bytes[a] <= 57 {
        let nv = value * 10 + (bytes[a] - 48);
        if nv > VIEW_MAX {
            None
        } else {
            scan_len(bytes, a + 1, nv, true)
        }
    } else {
        None
    }
}

/// The view size a length command sets, if its argument is well formed.
pub open spec fn view_len(bytes: Seq<u8>) -> Option<int> {
    scan_len(bytes, skip_spaces(bytes, 1), 0, false)
}

/// One calculator session.
pub struct ReplState {
    pub p: u8,
    pub length: i64,
    pub vars: VarStore,
}

impl ReplState {
    pub open spec fn inv_spec(&self) -> bool {
        &&& self.p >= 1
        &&& 0 <= self.length <= VIEW_MAX
        &&& self.vars.inv_for(self.p as nat)
    }

    /// A fresh session over base `p`, rendering ten integer digits.
    pub fn new(p: u8) -> (r: ReplState)
        requires
            p >= 1,
        ensures
            r.inv_spec(),
            r.p == p,
            r.length == 10,
            r.vars.store_view() == Seq::<(Seq<char>, Model)>::empty(),
    {
        ReplState { p, length: 10, vars: VarStore::new() }
    }

    /// Evaluates the expression in `line` from byte `start` on, appends
    /// the lines of `eval_lines`, and leaves the bindings of
    /// `eval_store`: the result is remembered under `name` exactly when
    /// it fits the store's bounds, and a note is printed when it does
    /// not.
    fn evaluate(
        &mut self,
        line: &str,
        start: usize,
        name: String,
        label: String,
        out: &mut Vec<String>,
    )
        requires
            old(self).inv_spec(),
            start <= line.spec_bytes().len(),
            vstd::utf8::is_ascii_chars(name@),
        ensures
            final(self).inv_spec(),
            final(self).p == old(self).p,
            final(self).length == old(self).length,
            final(out).deep_view() == old(out).deep_view() + eval_lines(
                old(self).p as nat,
                line.spec_bytes(),
                start as int,
                old(self).vars.store_view(),
                label@,
                old(self).length as int,
            ),
            final(self).vars.store_view() == eval_store(
                old(self).p as nat,
                line.spec_bytes(),
                start as int,
                old(self).vars.store_view(),
                name@,
            ),
    {
        let bytes = line.as_bytes();
        if bytes.len() - start > MAX_EXPR as usize {
            out.push(String::from_str("Error: ").concat(PadicError::InputTooLarge.describe()));
            proof {
                assert(out.deep_view() =~~= old(out).deep_view() + eval_lines(
                    old(self).p as nat,
                    line.spec_bytes(),
                    start as int,
                    old(self).vars.store_view(),
                    label@,
                    old(self).length as int,
                ));
            }
            return ;
        }
        match parse_bytes(self.p, bytes, start, &self.vars) {
            Ok(number) => {
                let mut shown = number.clone();
                proof {
                    assert(VIEW_MAX as int <= crate::model::hi_allow(n_model(shown)));
                }
                let view = shown.as_view(self.length);
                let sc = number.get_scale();
                let allow = number.get_allow();
                let fits = sc <= VAR_SCALE_MAX && sc >= -VAR_SCALE_MAX && allow >= IDX_BOUND - (
                MAX_EXPR as i64 + 1) * DIV_MARGIN;
                proof {
                    assert(fits == bind_fits(n_model(number)));
                }
                if fits {
                    proof {
                        assert(allow as int <= crate::model::hi_allow(n_model(number)));
                        assert(value_ok(
                            number,
                            self.p as nat,
                            IDX_BOUND as int - (MAX_EXPR as int + 1) * (DIV_MARGIN as int),
                            VAR_SCALE_MAX as int,
                        ));
                    }
                    self.vars.insert(name, number, Ghost(self.p as nat));
                }
                out.push(label.concat(view.text().as_str()));
                if !fits {
                    out.push(
                        String::from_str("Error: ").concat(PadicError::InputTooLarge.describe()),
                    );
                }
                proof {
                    assert(out.deep_view() =~~= old(out).deep_view() + eval_lines(
                        old(self).p as nat,
                        line.spec_bytes(),
                        start as int,
                        old(self).vars.store_view(),
                        label@,
                        old(self).length as int,
                    ));
                }
            },
            Err(e) => {
                out.push(String::from_str("Error: ").concat(e.describe()));
                proof {
                    assert(out.deep_view() =~~= old(out).deep_view() + eval_lines(
                        old(self).p as nat,
                        line.spec_bytes(),
                        start as int,
                        old(self).vars.store_view(),
                        label@,
                        old(self).length as int,
                    ));
                }
            },
        }
    }

    /// Handles one input line: the first byte selects the command, any
    /// other leading character makes the line an expression. Returns
    /// the lines to print and whether the session should end; what each
    /// command prints, sets and binds is fixed below, branch by branch.
    pub fn handle_line(&mut self, line: &str) -> (r: (Vec<String>, bool))
        requires
            old(self).inv_spec(),
        ensures
            final(self).inv_spec(),
            final(self).p == old(self).p,
            r.1 <==> (line.spec_bytes().len() > 0 && line.spec_bytes()[0] == 113),
            ({
                let bytes = line.spec_bytes();
                let p = old(self).p as nat;
                let sv = old(self).vars.store_view();
                let len0 = old(self).length as int;
                if bytes.len() == 0 {
                    &&& r.0.deep_view() == seq!["Format: <cmd> [args]. Use 'h' for help."@]
                    &&& final(self).vars.store_view() == sv
                    &&& final(self).length == old(self).length
                } else {
                    let c = bytes[0];
                    if c == 113 {
                        // 'q'
                        &&& r.0.deep_view() == Seq::<Seq<char>>::empty()
                        &&& final(self).vars.store_view() == sv
                        &&& final(self).length == old(self).length
                    } else if c == 101 {
                        // 'e'
                        let start = if bytes.len() >= 2 {
                            2int
                        } else {
                            1int
                        };
                        let label = if vstd::utf8::is_ascii_chars(line@) {
                            line@.subrange(start, line@.len() as int) + " : "@
                        } else {
                            Seq::<char>::empty()
                        };
                        &&& r.0.deep_view() == eval_lines(p, bytes, start, sv, label, len0)
                        &&& final(self).vars.store_view() == eval_store(
                            p,
                            bytes,
                            start,
                            sv,
                            Seq::<char>::empty(),
                        )
                        &&& final(self).length == old(self).length
                    } else if c == 115 {
                        // 's'
                        let a = skip_spaces(bytes, 1);
                        let b2 = skip_nonspace(bytes, a);
                        if a < b2 && 97 <= bytes[a] <= 122 && b2 < bytes.len()
                            && vstd::utf8::is_ascii_chars(line@) {
                            let name = line@.subrange(a, b2);
                            let label = name + " = "@ + line@.subrange(
                                b2 + 1,
                                line@.len() as int,
                            ) + " : "@;
                            &&& r.0.deep_view() == eval_lines(p, bytes, b2, sv, label, len0)
                            &&& final(self).vars.store_view() == eval_store(p, bytes, b2, sv, name)
                            &&& final(self).length == old(self).length
                        } else {
                            &&& r.0.deep_view() == seq![
                                "Bad format, expecting: s <var name starts with lowercase letter> <expression>"@,
                            ]
                            &&& final(self).vars.store_view() == sv
                            &&& final(self).length == old(self).length
                        }
                    } else if c == 108 {
                        // 'l'
                        match view_len(bytes) {
                            Some(v) => {
                                &&& r.0.deep_view() == Seq::<Seq<char>>::empty()
                                &&& final(self).length == v
                                &&& final(self).vars.store_view() == sv
                            },
                            None => {
                                &&& r.0.deep_view() == seq![
                                    "Bad format, expecting: l <new length (a number)>. Ex: l 50"@,
                                ]
                                &&& final(self).length == old(self).length
                                &&& final(self).vars.store_view() == sv
                            },
                        }
                    } else if c == 118 {
                        // 'v'
                        &&& r.0.deep_view() == var_lines(sv, len0)
                        &&& final(self).vars.store_view() == sv
                        &&& final(self).length == old(self).length
                    } else if c == 104 {
                        // 'h'
                        &&& r.0.deep_view() == seq![
                            "Available commands: e (evaluate), s (set), l (set the length), v (list variables), q (quit), h (help)"@,
                        ]
                        &&& final(self).vars.store_view() == sv
                        &&& final(self).length == old(self).length
                    } else if (97 <= c <= 122) || (65 <= c <= 90) {
                        &&& r.0.deep_view() == seq![
                            "Unknown command, use the 'h' command for help"@,
                        ]
                        &&& final(self).vars.store_view() == sv
                        &&& final(self).length == old(self).length
                    } else {
                        let label = if vstd::utf8::is_ascii_chars(line@) {
                            line@ + " : "@
                        } else {
                            Seq::<char>::empty()
                        };
                        &&& r.0.deep_view() == eval_lines(p, bytes, 0, sv, label, len0)
                        &&& final(self).vars.store_view() == eval_store(
                            p,
                            bytes,
                            0,
                            sv,
                            Seq::<char>::empty(),
                        )
                        &&& final(self).length == old(self).length
                    }
                }
            }),
    {
        let mut out: Vec<String> = Vec::new();
        proof {
            assert(out.deep_view() =~~= Seq::<Seq<char>>::empty());
        }
        let bytes = line.as_bytes();
        if bytes.len() == 0 {
            out.push(String::from_str("Format: <cmd> [args]. Use 'h' for help."));
            proof {
                assert(out.deep_view() =~~= seq!["Format: <cmd> [args]. Use 'h' for help."@]);
            }
            return (out, false);
        }
        let c = bytes[0];
        if c == 113u8 {
            // 'q'
            return (out, true);
        }
        if c == 101u8 {
            // 'e'
            let start = if bytes.len() >= 2 {
                2
            } else {
                1
            };
            let label = if line.is_ascii() {
                proof {
                    vstd::string::is_ascii_spec_bytes(line);
                }
                line.substring_ascii(start, bytes.len()).to_owned().concat(" : ")
            } else {
                String::new()
            };
            let anon = String::new();
            proof {
                assert(vstd::utf8::is_ascii_chars(anon@));
            }
            self.evaluate(line, start, anon, label, &mut out);
            proof {
                assert(out.deep_view() =~~= Seq::<Seq<char>>::empty() + out.deep_view());
            }
        } else if c == 115u8 {
            // 's'
            let mut a: usize = 1;
            let n = bytes.len();
            while a < n && bytes[a] == 32u8
                invariant
                    1 <= a <= n,
                    n == bytes@.len(),
                    n == line.spec_bytes().len(),
                    bytes@ == line.spec_bytes(),
                    skip_spaces(bytes@, 1) == skip_spaces(bytes@, a as int),
                decreases n - a,
            {
                a = a + 1;
            }
            proof {
                assert(skip_spaces(bytes@, a as int) == a as int);
            }
            let mut b: usize = a;
            while b < n && bytes[b] != 32u8
                invariant
                    a <= b <= n,
                    n == bytes@.len(),
                    n == line.spec_bytes().len(),
                    bytes@ == line.spec_bytes(),
                    skip_nonspace(bytes@, a as int) == skip_nonspace(bytes@, b as int),
                decreases n - b,
            {
                b = b + 1;
            }
            proof {
                assert(skip_nonspace(bytes@, b as int) == b as int);
            }
            if a < b && bytes[a] >= 97u8 && bytes[a] <= 122u8 && b < n && line.is_ascii() {
                proof {
                    vstd::string::is_ascii_spec_bytes(line);
                }
                let name = line.substring_ascii(a, b).to_owned();
                let label = name.clone().concat(" = ").concat(
                    line.substring_ascii(b + 1, bytes.len()),
                ).concat(" : ");
                proof {
                    assert(name@ == line@.subrange(a as int, b as int));
                    assert(label@ =~= name@ + " = "@ + line@.subrange(b + 1, line@.len() as int)
                        + " : "@);
                }
                self.evaluate(line, b, name, label, &mut out);
                proof {
                    assert(out.deep_view() =~~= Seq::<Seq<char>>::empty() + out.deep_view());
                }
            } else {
                out.push(
                    String::from_str(
                        "Bad format, expecting: s <var name starts with lowercase letter> <expression>",
                    ),
                );
                proof {
                    assert(out.deep_view() =~~= seq![
                        "Bad format, expecting: s <var name starts with lowercase letter> <expression>"@,
                    ]);
                }
            }
        } else if c == 108u8 {
            // 'l'
            let n = bytes.len();
            let mut a: usize = 1;
            while a < n && bytes[a] == 32u8
                invariant
                    1 <= a <= n,
                    n == bytes@.len(),
                    n == line.spec_bytes().len(),
                    bytes@ == line.spec_bytes(),
                    skip_spaces(bytes@, 1) == skip_spaces(bytes@, a as int),
                decreases n - a,
            {
                a = a + 1;
            }
            proof {
                assert(skip_spaces(bytes@, a as int) == a as int);
            }
            let ghost goal_l = view_len(bytes@);
            let mut value: i64 = 0;
            let mut digits = false;
            let mut ok = true;
            while a < n && ok && bytes[a] != 32u8
                invariant
                    1 <= a <= n,
                    n == bytes@.len(),
                    bytes@ == line.spec_bytes(),
                    0 <= value <= VIEW_MAX,
                    ok ==> goal_l == scan_len(bytes@, a as int, value as int, digits),
                    !ok ==> goal_l is None,
                decreases n - a + (if ok {
                    1int
                } else {
                    0int
                }),
            {
                let d = bytes[a];
                if d >= 48u8 && d <= 57u8 {
                    let next = value * 10 + (d - 48u8) as i64;
                    if next > VIEW_MAX {
                        ok = false;
                    } else {
                        value = next;
                        digits = true;
                        a = a + 1;
                    }
                } else {
                    ok = false;
                }
            }
            if ok && digits {
                proof {
                    assert(goal_l == Some(value as int));
                }
                self.length = value;
            } else {
                proof {
                    if ok {
                        assert(goal_l == scan_len(
                            bytes@,
                            a as int,
                            value as int,
                            digits,
                        ));
                        assert(goal_l is None);
                    }
                }
                out.push(
                    String::from_str("Bad format, expecting: l <new length (a number)>. Ex: l 50"),
                );
                proof {
                    assert(out.deep_view() =~~= seq![
                        "Bad format, expecting: l <new length (a number)>. Ex: l 50"@,
                    ]);
                }
            }
        } else if c == 118u8 {
            // 'v'
            let ghost sv = self.vars.store_view();
            let ghost len0 = self.length as int;
            let mut i: usize = 0;
            while i < self.vars.values.len()
                invariant
                    self.inv_spec(),
                    *self == *old(self),
                    sv == self.vars.store_view(),
                    len0 == self.length as int,
                    i <= self.vars.values@.len(),
                    self.vars.names@.len() == self.vars.values@.len(),
                    out.deep_view() =~~= var_lines(sv, len0).take(i as int),
                decreases self.vars.values@.len() - i,
            {
                proof {
                    assert(crate::padic_lang::value_ok(
                        self.vars.values@[i as int],
                        self.p as nat,
                        IDX_BOUND as int - (MAX_EXPR as int + 1) * (DIV_MARGIN as int),
                        VAR_SCALE_MAX as int,
                    ));
                }
                let mut shown = self.vars.values[i].clone();
                let view = shown.as_view(self.length);
                let mut entry = self.vars.names[i].clone();
                entry.append(" = ");
                entry.append(view.text().as_str());
                proof {
                    assert(entry@ =~= sv[i as int].0 + " = "@ + render_chars(
                        sv[i as int].1,
                        len0 as nat,
                    ));
                }
                let ghost outv0 = out@;
                let ghost dv0 = out.deep_view();
                out.push(entry);
                proof {
                    assert(out@ =~= outv0.push(entry));
                    assert(out.deep_view() =~~= dv0.push(entry@)) by {
                        assert(forall|t: int|
                            0 <= t < outv0.len() ==> out@[t] == #[trigger] outv0[t]);
                    }
                    assert(out.deep_view() =~~= var_lines(sv, len0).take(i + 1));
                }
                i = i + 1;
            }
            proof {
                assert(var_lines(sv, len0).take(sv.len() as int) =~~= var_lines(sv, len0));
            }
        } else if c == 104u8 {
            // 'h'
            out.push(
                String::from_str(
                    "Available commands: e (evaluate), s (set), l (set the length), v (list variables), q (quit), h (help)",
                ),
            );
            proof {
                assert(out.deep_view() =~~= seq![
                    "Available commands: e (evaluate), s (set), l (set the length), v (list variables), q (quit), h (help)"@,
                ]);
            }
        } else if (c >= 97u8 && c <= 122u8) || (c >= 65u8 && c <= 90u8) {
            out.push(String::from_str("Unknown command, use the 'h' command for help"));
            proof {
                assert(out.deep_view() =~~= seq![
                    "Unknown command, use the 'h' command for help"@,
                ]);
            }
        } else {
            let label = if line.is_ascii() {
                proof {
                    vstd::string::is_ascii_spec_bytes(line);
                }
                let l = line.substring_ascii(0, bytes.len()).to_owned().concat(" : ");
                proof {
                    assert(line@.subrange(0, line@.len() as int) =~= line@);
                }
                l
            } else {
                String::new()
            };
            let anon = String::new();
            proof {
                assert(vstd::utf8::is_ascii_chars(anon@));
            }
            self.evaluate(line, 0, anon, label, &mut out);
            proof {
                assert(out.deep_view() =~~= Seq::<Seq<char>>::empty() + out.deep_view());
            }
        }
        (out, false)
    }
}

} // verus!
