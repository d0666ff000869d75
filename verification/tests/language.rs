// The expression language and the session handler.

use padic::padic::{PadicAccessor, PadicError};
use padic::padic_lang::{parse_padic, VarStore};
use padic::repl::ReplState;

#[test]
fn parse_errors() {
    let vars = VarStore::new();
    assert!(matches!(parse_padic(7, "#", &vars), Err(PadicError::UnknownToken)));
    assert!(matches!(parse_padic(7, "[", &vars), Err(PadicError::BracketsUnsupported)));
    assert!(matches!(parse_padic(7, "]", &vars), Err(PadicError::BracketsUnsupported)));
    assert!(matches!(parse_padic(7, "9", &vars), Err(PadicError::DigitOutOfRange)));
    assert!(matches!(parse_padic(7, "___12", &vars), Err(PadicError::RepeatTooLong)));
    assert!(matches!(parse_padic(7, "(300)", &vars), Err(PadicError::DigitGroupTooBig)));
    assert!(matches!(parse_padic(7, "1.2.3", &vars), Err(PadicError::TwoDecimalPoints)));
    assert!(matches!(parse_padic(7, "&{x}", &vars), Err(PadicError::UnknownVariable)));
    assert!(matches!(parse_padic(7, "1 +", &vars), Err(PadicError::UnbalancedStack)));
    assert!(matches!(parse_padic(7, "1 2", &vars), Err(PadicError::UnbalancedStack)));
    assert!(matches!(parse_padic(7, "", &vars), Err(PadicError::UnbalancedStack)));
    assert!(matches!(parse_padic(7, "^", &vars), Err(PadicError::UnknownToken)));
    assert!(matches!(parse_padic(7, "(12", &vars), Err(PadicError::UnknownToken)));
}

#[test]
fn parenthesized_digits_for_large_bases() {
    let vars = VarStore::new();
    let mut n = parse_padic(13, "(12)", &vars).unwrap();
    assert_eq!(n.get_digit(0), 12);
    assert_eq!(n.as_view(2).text(), "(0)(12)");
}

#[test]
fn large_base_parenthesizes_small_digits_too() {
    let vars = VarStore::new();
    let mut n = parse_padic(13, "5", &vars).unwrap();
    assert_eq!(n.as_view(2).text(), "(0)(5)");
    let mut m = parse_padic(10, "5", &vars).unwrap();
    assert_eq!(m.as_view(2).text(), "05");
}

#[test]
fn rebinding_replaces_the_value() {
    let mut state = ReplState::new(7);
    let _ = state.handle_line("s a 1");
    let _ = state.handle_line("s a 2");
    let (out, _) = state.handle_line("v");
    assert_eq!(out.len(), 1);
    assert_eq!(out[0], "a = 0000000002");
}

#[test]
fn empty_parentheses_stand_for_zero() {
    let vars = VarStore::new();
    let mut n = parse_padic(7, "1()", &vars).unwrap();
    // "1()" spells the two digits one and zero, most significant first
    assert_eq!(n.get_digit(0), 0);
    assert_eq!(n.get_digit(1), 1);
}

#[test]
fn fractional_literals_divide_by_the_base() {
    let vars = VarStore::new();
    let mut n = parse_padic(3, "0.1", &vars).unwrap();
    assert_eq!(n.get_scale(), -1);
    assert_eq!(n.get_digit(-1), 1);
    assert_eq!(n.get_digit(0), 0);
    assert_eq!(n.as_view(2).text(), "00.1");
}

#[test]
fn square_operator() {
    let vars = VarStore::new();
    let mut n = parse_padic(7, "3 ^^", &vars).unwrap();
    // nine in base seven
    assert_eq!(n.get_digit(0), 2);
    assert_eq!(n.get_digit(1), 1);
}

#[test]
fn commutativity_on_digits() {
    let vars = VarStore::new();
    let mut ab = parse_padic(7, "123 _45 +", &vars).unwrap();
    let mut ba = parse_padic(7, "_45 123 +", &vars).unwrap();
    let mut mab = parse_padic(7, "123 _45 *", &vars).unwrap();
    let mut mba = parse_padic(7, "_45 123 *", &vars).unwrap();
    for i in 0..9i64 {
        assert_eq!(ab.get_digit(i), ba.get_digit(i));
        assert_eq!(mab.get_digit(i), mba.get_digit(i));
    }
}

#[test]
fn identity_and_inverse_on_digits() {
    let vars = VarStore::new();
    let mut a = parse_padic(7, "_16", &vars).unwrap();
    let mut plus_zero = parse_padic(7, "_16 0 +", &vars).unwrap();
    let mut minus_zero = parse_padic(7, "_16 0 -", &vars).unwrap();
    let mut minus_self = parse_padic(7, "_16 _16 -", &vars).unwrap();
    for i in 0..9i64 {
        assert_eq!(plus_zero.get_digit(i), a.get_digit(i));
        assert_eq!(minus_zero.get_digit(i), a.get_digit(i));
        assert_eq!(minus_self.get_digit(i), 0);
    }
}

#[test]
fn digits_below_scale_are_zero() {
    let vars = VarStore::new();
    let mut n = parse_padic(7, "12 100 *", &vars).unwrap();
    assert_eq!(n.get_scale(), 0);
    assert_eq!(n.get_digit(-3), 0);
    assert_eq!(n.get_digit(-1), 0);
    assert_eq!(n.get_digit(0), 0);
    assert_eq!(n.get_digit(1), 0);
    assert_eq!(n.get_digit(2), 2);
    assert_eq!(n.get_digit(3), 1);
    let mut f = parse_padic(7, "1 10 /", &vars).unwrap();
    assert_eq!(f.get_scale(), -1);
    assert_eq!(f.get_digit(-2), 0);
    assert_eq!(f.get_digit(-4), 0);
}

#[test]
fn session_binds_and_uses_variables() {
    let mut state = ReplState::new(7);
    let (out, quit) = state.handle_line("s a 11");
    assert!(!quit);
    assert_eq!(out.len(), 1);
    assert_eq!(out[0], "a = 11 : 0000000011");
    let (out, _) = state.handle_line("s b _3");
    assert_eq!(out[0], "b = _3 : 3333333333");
    let (out, _) = state.handle_line("s c &{a} &{b} +");
    assert_eq!(out[0], "c = &{a} &{b} + : 3333333344");
    let (out, _) = state.handle_line("e &{c} &{a} -");
    assert_eq!(out[0], "&{c} &{a} - : 3333333333");
}

#[test]
fn session_anonymous_reference() {
    let mut state = ReplState::new(7);
    let _ = state.handle_line("e 5");
    let (out, _) = state.handle_line("e & 1 +");
    assert_eq!(out[0], "& 1 + : 0000000006");
}

#[test]
fn session_view_size_command() {
    let mut state = ReplState::new(7);
    let (out, _) = state.handle_line("l 5");
    assert_eq!(out.len(), 0);
    let (out, _) = state.handle_line("e 11");
    assert_eq!(out[0], "11 : 00011");
    let (out, _) = state.handle_line("l x");
    assert_eq!(out.len(), 1);
}

#[test]
fn session_control_lines() {
    let mut state = ReplState::new(7);
    let (_, quit) = state.handle_line("q");
    assert!(quit);
    let (out, quit) = state.handle_line("h");
    assert!(!quit);
    assert_eq!(out.len(), 1);
    let (out, _) = state.handle_line("z");
    assert_eq!(out[0], "Unknown command, use the 'h' command for help");
    let (out, _) = state.handle_line("");
    assert_eq!(out.len(), 1);
    let (out, _) = state.handle_line("e #");
    assert!(out[0].starts_with("Error: "));
}

#[test]
fn session_implicit_expression() {
    let mut state = ReplState::new(7);
    let (out, _) = state.handle_line("11 1 +");
    assert_eq!(out[0], "11 1 + : 0000000012");
}

#[test]
fn session_lists_variables() {
    let mut state = ReplState::new(7);
    let _ = state.handle_line("s a 1");
    let _ = state.handle_line("s b 2");
    let (out, _) = state.handle_line("v");
    assert_eq!(out.len(), 2);
    assert!(out.contains(&"a = 0000000001".to_string()));
    assert!(out.contains(&"b = 0000000002".to_string()));
}

#[test]
fn scale_homomorphism() {
    let vars = VarStore::new();
    // the scale of a product is the sum of the operands' scales
    let mut u = parse_padic(7, "1 10 /", &vars).unwrap();
    assert_eq!(u.get_scale(), -1);
    let mut prod = parse_padic(7, "1 10 / 1 10 / *", &vars).unwrap();
    assert_eq!(prod.get_scale(), -2);
    // the scale of a quotient subtracts the divisor's scale and valuation
    let mut q = parse_padic(7, "1 10 / 20 /", &vars).unwrap();
    assert_eq!(q.get_scale(), -2);
    // a sum's scale starts at the smaller operand scale and moves up only
    // over stripped leading zeros
    let mut s = parse_padic(7, "1 10 / 1 +", &vars).unwrap();
    assert_eq!(s.get_scale(), -1);
    let mut s2 = parse_padic(7, "1 6 +", &vars).unwrap();
    assert_eq!(s2.get_scale(), 1);
}
