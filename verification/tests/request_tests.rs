use num_bigint::BigUint;
use zpp::bignum::BigNum;
use zpp::controller::Verdict;
use zpp::request::{empty_instance, parse_file_content, parse_number, parse_numbers, parse_target_line};

fn chars(s: &str) -> Vec<char> {
    s.chars().collect()
}

fn value(b: &BigNum) -> BigUint {
    BigUint::new(b.to_u32_digits())
}

fn values(v: &[BigNum]) -> Vec<BigUint> {
    v.iter().map(value).collect()
}

fn n(x: u64) -> BigUint {
    BigUint::from(x)
}

#[test]
fn numbers_split_on_commas_and_spaces() {
    let v = parse_numbers(&chars("1, 3,7\t21\n50  ,,200"));
    assert_eq!(values(&v), vec![n(1), n(3), n(7), n(21), n(50), n(200)]);
}

#[test]
fn numbers_skip_pieces_that_are_not_numbers() {
    let v = parse_numbers(&chars("12, abc, 4x, +5, 1_000, _7, -3"));
    assert_eq!(values(&v), vec![n(12), n(5), n(1000)]);
}

#[test]
fn numbers_split_on_unicode_space() {
    let v = parse_numbers(&chars("8\u{a0}9\u{3000}10"));
    assert_eq!(values(&v), vec![n(8), n(9), n(10)]);
    assert!(parse_numbers(&chars("")).is_empty());
}

#[test]
fn numbers_with_many_digits() {
    let text = "123456789012345678901234567890123456789012345678901234567890";
    let v = parse_numbers(&chars(text));
    assert_eq!(values(&v), vec![text.parse::<BigUint>().unwrap()]);
}

#[test]
fn single_number_parsing() {
    assert_eq!(parse_number(&chars("42")).map(|b| value(&b)), Some(n(42)));
    assert_eq!(parse_number(&chars("+42")).map(|b| value(&b)), Some(n(42)));
    assert!(parse_number(&chars("")).is_none());
    assert!(parse_number(&chars("4 2")).is_none());
    assert!(parse_number(&chars("٤")).is_none());
}

#[test]
fn file_with_goal_line() {
    let (v, t) = parse_file_content(&chars("1, 2, 3\ngoal: 5\n")).unwrap();
    assert_eq!(values(&v), vec![n(1), n(2), n(3)]);
    assert_eq!(value(&t), n(5));
}

#[test]
fn file_with_inline_goal_uses_last_marker() {
    let (v, t) = parse_file_content(&chars("4 5 goal: 1 goal: 9")).unwrap();
    assert_eq!(values(&v), vec![n(4), n(5), n(1)]);
    assert_eq!(value(&t), n(9));
}

#[test]
fn file_goal_keeps_only_digits() {
    let (_, t) = parse_file_content(&chars("7,8\ngoal: 1,2 3x4")).unwrap();
    assert_eq!(value(&t), n(1234));
}

#[test]
fn file_refused_without_marker_goal_or_elements() {
    assert!(parse_file_content(&chars("1, 2, 3")).is_none());
    assert!(parse_file_content(&chars("1, 2\ngoal: none")).is_none());
    assert!(parse_file_content(&chars("\ngoal: 12")).is_none());
}

#[test]
fn target_line_trimmed_or_zero() {
    assert_eq!(value(&parse_target_line(&chars("  5570 \n"))), n(5570));
    assert_eq!(value(&parse_target_line(&chars("abc"))), n(0));
    assert_eq!(value(&parse_target_line(&chars(""))), n(0));
}

#[test]
fn empty_instance_answers() {
    match empty_instance(&BigNum::zero()) {
        Verdict::Found(sol) => assert!(sol.is_empty()),
        _ => panic!("zero target is met by the empty selection"),
    }
    assert!(matches!(empty_instance(&BigNum::from_u32_digits(vec![3])), Verdict::Impossible));
}
