// End-to-end scenarios: expressions over base 7 (and base 3 for the
// division of one by the repeating two), rendered at ten integer digits.

use padic::padic::PadicAccessor;
use padic::padic_lang::{parse_padic, VarStore};
use padic::padic_primitive::FinitePadicInteger;

fn render(p: u8, expr: &str) -> String {
    let vars = VarStore::new();
    let mut n = parse_padic(p, expr, &vars).unwrap();
    n.as_view(10).text()
}

#[test]
fn eleven_renders_with_leading_zeros() {
    assert_eq!(render(7, "11"), "0000000011");
}

#[test]
fn repeating_three_plus_eleven() {
    assert_eq!(render(7, "11 _3 +"), "3333333344");
}

#[test]
fn subtracting_eleven_restores_repeating_three() {
    assert_eq!(render(7, "11 _3 + 11 -"), "3333333333");
    assert_eq!(render(7, "_3"), "3333333333");
}

#[test]
fn repeating_twelve_minus_sum_has_consistent_tail() {
    let vars = VarStore::new();
    // two repetition marks make both digits of "12" repeat
    let mut f = parse_padic(7, "__12 11 _3 + -", &vars).unwrap();
    assert_eq!(f.get_digit(0), 5);
    assert_eq!(f.get_digit(1), 3);
    // thereafter the repeating tail of the difference
    assert_eq!(f.get_digit(2), 5);
    assert_eq!(f.get_digit(3), 4);
    assert_eq!(f.get_digit(4), 5);
    assert_eq!(f.get_digit(5), 4);
}

#[test]
fn single_mark_repeats_only_the_leading_digit() {
    let vars = VarStore::new();
    // one repetition mark on "12" repeats only the leading one
    let mut e = parse_padic(7, "_12", &vars).unwrap();
    assert_eq!(e.get_digit(0), 2);
    assert_eq!(e.get_digit(1), 1);
    assert_eq!(e.get_digit(2), 1);
    assert_eq!(e.get_digit(5), 1);
    let mut f = parse_padic(7, "_12 11 _3 + -", &vars).unwrap();
    assert_eq!(f.get_digit(0), 5);
    assert_eq!(f.get_digit(1), 3);
    assert_eq!(f.get_digit(2), 4);
    assert_eq!(f.get_digit(3), 4);
}

#[test]
fn one_divided_by_repeating_two_in_base_three() {
    assert_eq!(render(3, "1 _2 /"), "2222222222");
}

#[test]
fn zero_literal_laws() {
    let x = FinitePadicInteger::new_with_digits(7, vec![0, 0, 0]).unwrap().to_dyn();
    let mut shown = x.clone();
    assert_eq!(shown.as_view(10).text(), "0000000000");
    let mut diff = x.clone().sub(x.clone()).unwrap();
    assert_eq!(diff.as_view(10).text(), "0000000000");
    assert_eq!(render(7, "123 0 *"), "0000000000");
    assert_eq!(render(7, "0 1 /"), "0000000000");
}

#[test]
fn distributivity_on_digits() {
    let vars = VarStore::new();
    let mut left = parse_padic(7, "12 3 _4 + *", &vars).unwrap();
    let mut right = parse_padic(7, "12 3 * 12 _4 * +", &vars).unwrap();
    for i in 0..9i64 {
        assert_eq!(left.get_digit(i), right.get_digit(i));
    }
}

#[test]
fn division_consistency_on_digits() {
    let vars = VarStore::new();
    let mut back = parse_padic(7, "123 16 / 16 *", &vars).unwrap();
    let mut back2 = parse_padic(7, "123 16 * 16 /", &vars).unwrap();
    let mut a = parse_padic(7, "123", &vars).unwrap();
    for i in 0..9i64 {
        assert_eq!(back.get_digit(i), a.get_digit(i));
        assert_eq!(back2.get_digit(i), a.get_digit(i));
    }
}

#[test]
fn render_then_parse_is_identity() {
    let vars = VarStore::new();
    let mut n1 = parse_padic(7, "123", &vars).unwrap();
    let text = n1.as_view(10).text();
    assert_eq!(text, "0000000123");
    let mut n2 = parse_padic(7, &text, &vars).unwrap();
    for i in 0..12i64 {
        assert_eq!(n1.get_digit(i), n2.get_digit(i));
    }
}

#[test]
fn render_then_parse_with_fraction() {
    let vars = VarStore::new();
    let mut n1 = parse_padic(7, "1 10 /", &vars).unwrap();
    let text = n1.as_view(10).text();
    assert_eq!(text, "0000000000.1");
    let mut n2 = parse_padic(7, &text, &vars).unwrap();
    for i in -3..9i64 {
        assert_eq!(n1.get_digit(i), n2.get_digit(i));
    }
}

#[test]
fn fraction_renders_nearest_the_point_first() {
    let vars = VarStore::new();
    let mut n1 = parse_padic(7, "0.12", &vars).unwrap();
    // the first typed digit after the point sits nearest the point
    assert_eq!(n1.get_digit(-1), 1);
    assert_eq!(n1.get_digit(-2), 2);
    let text = n1.as_view(2).text();
    assert_eq!(text, "00.12");
    let mut n2 = parse_padic(7, &text, &vars).unwrap();
    for i in -3..5i64 {
        assert_eq!(n1.get_digit(i), n2.get_digit(i));
    }
}

#[test]
fn fraction_strips_zeros_nearest_the_point() {
    let vars = VarStore::new();
    // one seventh of one seventh: only the digit at depth two is set
    let mut n = parse_padic(7, "0.01", &vars).unwrap();
    assert_eq!(n.get_digit(-1), 0);
    assert_eq!(n.get_digit(-2), 1);
    assert_eq!(n.as_view(2).text(), "00.1");
}

#[test]
fn repeating_equals_finite_over_one_minus_power() {
    // base 5: the repeating three equals 3 / (1 - 5), digit for digit
    let vars = VarStore::new();
    let mut lhs = parse_padic(5, "_3", &vars).unwrap();
    let mut rhs = parse_padic(5, "3 1 10 - /", &vars).unwrap();
    for i in 0..9i64 {
        assert_eq!(lhs.get_digit(i), rhs.get_digit(i));
    }
    // base 5, cycle of length two: the pure repeating "14" equals its
    // one copy over 1 - 25
    let mut lhs2 = parse_padic(5, "__14", &vars).unwrap();
    let mut rhs2 = parse_padic(5, "14 1 100 - /", &vars).unwrap();
    for i in 0..9i64 {
        assert_eq!(lhs2.get_digit(i), rhs2.get_digit(i));
    }
}
