use calc_engine::engine::{CalcError, Calculator, Operation};
use calc_engine::number::Number;

fn num(neg: bool, mant: u64, scale: u8) -> Number {
    Number::from_parts(neg, mant, scale).unwrap()
}

fn digit(d: u64) -> Option<Number> {
    Some(num(false, d, 0))
}

#[test]
fn fresh_engine_is_zeroed() {
    let c = Calculator::new();
    assert_eq!(c.total(), num(false, 0, 0));
    assert_eq!(c.current(), num(false, 0, 0));
    assert_eq!(c.history().len(), 0);
}

#[test]
fn digits_concatenate() {
    let mut c = Calculator::new();
    c.operate(Operation::Append, digit(1)).unwrap();
    c.operate(Operation::Append, digit(2)).unwrap();
    c.operate(Operation::Append, digit(3)).unwrap();
    assert_eq!(c.current(), num(false, 123, 0));
    assert_eq!(c.total(), num(false, 0, 0));
}

#[test]
fn leading_zeros_collapse() {
    let mut c = Calculator::new();
    c.operate(Operation::Append, digit(0)).unwrap();
    c.operate(Operation::Append, digit(0)).unwrap();
    c.operate(Operation::Append, digit(5)).unwrap();
    assert_eq!(c.current(), num(false, 5, 0));
}

#[test]
fn decimal_point_opens_fraction() {
    let mut c = Calculator::new();
    c.operate(Operation::Append, digit(1)).unwrap();
    c.operate(Operation::Decimal, None).unwrap();
    c.operate(Operation::Append, digit(5)).unwrap();
    assert_eq!(c.current(), num(false, 15, 1));
}

#[test]
fn second_decimal_is_inert() {
    let mut c = Calculator::new();
    c.operate(Operation::Append, digit(1)).unwrap();
    c.operate(Operation::Decimal, None).unwrap();
    c.operate(Operation::Append, digit(5)).unwrap();
    c.operate(Operation::Decimal, None).unwrap();
    c.operate(Operation::Append, digit(2)).unwrap();
    assert_eq!(c.current(), num(false, 152, 2));
}

#[test]
fn trailing_fraction_zero_drops_like_text() {
    // "1", ".", "0" parses back to the integer 1, so a following digit
    // extends the integer part, exactly as text-based re-parsing would.
    let mut c = Calculator::new();
    c.operate(Operation::Append, digit(1)).unwrap();
    c.operate(Operation::Decimal, None).unwrap();
    c.operate(Operation::Append, digit(0)).unwrap();
    assert_eq!(c.current(), num(false, 1, 0));
    c.operate(Operation::Append, digit(5)).unwrap();
    assert_eq!(c.current(), num(false, 15, 0));
}

#[test]
fn subtract_seeds_then_subtracts() {
    let mut c = Calculator::new();
    c.operate(Operation::Subtract, Some(num(false, 5, 0))).unwrap();
    assert_eq!(c.total(), num(false, 5, 0));
    c.operate(Operation::Subtract, Some(num(false, 5, 0))).unwrap();
    assert_eq!(c.total(), num(false, 0, 0));
    // The total is zero again, so the identity-seed rule reapplies.
    c.operate(Operation::Subtract, Some(num(false, 5, 0))).unwrap();
    assert_eq!(c.total(), num(false, 5, 0));
}

#[test]
fn equal_replays_last_substantive_operation() {
    let mut c = Calculator::new();
    c.operate(Operation::Add, Some(num(false, 3, 0))).unwrap();
    assert_eq!(c.total(), num(false, 3, 0));
    c.operate(Operation::Add, Some(num(false, 4, 0))).unwrap();
    assert_eq!(c.total(), num(false, 7, 0));
    c.operate(Operation::Append, digit(2)).unwrap();
    assert_eq!(c.current(), num(false, 2, 0));
    c.operate(Operation::Equal, None).unwrap();
    assert_eq!(c.total(), num(false, 9, 0));
    assert_eq!(c.current(), num(false, 0, 0));
}

#[test]
fn equal_with_no_substantive_history_is_a_marker() {
    let mut c = Calculator::new();
    c.operate(Operation::Append, digit(5)).unwrap();
    c.operate(Operation::Equal, None).unwrap();
    assert_eq!(c.total(), num(false, 0, 0));
    assert_eq!(c.current(), num(false, 5, 0));
    assert_eq!(c.history().len(), 2);
}

#[test]
fn negate_flips_current_and_keeps_zero_signed() {
    let mut c = Calculator::new();
    c.operate(Operation::Append, digit(5)).unwrap();
    c.operate(Operation::Negate, None).unwrap();
    assert_eq!(c.current(), num(true, 5, 0));
    let mut z = Calculator::new();
    z.operate(Operation::Negate, None).unwrap();
    assert_eq!(z.current(), num(true, 0, 0));
    assert!(z.current().eq_zero());
}

#[test]
fn find_last_skips_excluded_tags() {
    let mut c = Calculator::new();
    c.operate(Operation::Add, Some(num(false, 1, 0))).unwrap();
    c.operate(Operation::Append, digit(2)).unwrap();
    c.operate(Operation::Append, digit(3)).unwrap();
    let excluded = vec![Operation::Equal, Operation::Append, Operation::Decimal];
    assert_eq!(c.find_last_operation_excluding(excluded), Some(Operation::Add));
    c.operate(Operation::Equal, None).unwrap();
    let excluded = vec![Operation::Equal, Operation::Append, Operation::Decimal];
    assert_eq!(c.find_last_operation_excluding(excluded), Some(Operation::Add));
    assert_eq!(c.find_last_operation_excluding(Vec::new()), Some(Operation::Equal));
}

#[test]
fn find_last_on_fresh_history_is_none() {
    let c = Calculator::new();
    assert_eq!(c.find_last_operation_excluding(Vec::new()), None);
}

#[test]
fn history_grows_by_one_per_accepted_call() {
    let mut c = Calculator::new();
    c.operate(Operation::Noop, None).unwrap();
    assert_eq!(c.history().len(), 1);
    c.operate(Operation::Decimal, None).unwrap();
    assert_eq!(c.history().len(), 2);
    c.operate(Operation::Negate, None).unwrap();
    assert_eq!(c.history().len(), 3);
    c.operate(Operation::Append, digit(7)).unwrap();
    assert_eq!(c.history().len(), 4);
    c.operate(Operation::Add, Some(num(false, 1, 0))).unwrap();
    assert_eq!(c.history().len(), 5);
    // A repeating Equal pushes the repeated operation and then itself, as
    // the original's recursive dispatch did.
    c.operate(Operation::Equal, None).unwrap();
    assert_eq!(c.history().len(), 7);
    assert_eq!(c.history()[5], Operation::Add);
    assert_eq!(c.history()[6], Operation::Equal);
}

#[test]
fn square_root_of_negative_is_nan_not_an_error() {
    let mut c = Calculator::new();
    c.operate(Operation::Append, digit(4)).unwrap();
    c.operate(Operation::Negate, None).unwrap();
    let cur = c.current();
    c.operate(Operation::SquareRoot, Some(cur)).unwrap();
    assert!(matches!(c.total(), Number::NaN));
}

#[test]
fn square_squares_the_operand() {
    let mut c = Calculator::new();
    c.operate(Operation::Square, Some(num(true, 12, 1))).unwrap();
    assert_eq!(c.total(), num(false, 144, 2));
}

#[test]
fn divide_by_zero_total_nonzero_is_infinite() {
    let mut c = Calculator::new();
    c.operate(Operation::Add, Some(num(false, 1, 0))).unwrap();
    c.operate(Operation::Divide, Some(num(false, 0, 0))).unwrap();
    assert!(matches!(c.total(), Number::Infinite { neg: false }));
}

#[test]
fn missing_operand_is_rejected_without_a_trace() {
    let mut c = Calculator::new();
    c.operate(Operation::Append, digit(8)).unwrap();
    let before_current = c.current();
    let before_len = c.history().len();
    assert_eq!(c.operate(Operation::Add, None), Err(CalcError::InvalidOperand));
    assert_eq!(c.operate(Operation::SquareRoot, None), Err(CalcError::InvalidOperand));
    assert_eq!(c.operate(Operation::Append, None), Err(CalcError::InvalidOperand));
    assert_eq!(c.current(), before_current);
    assert_eq!(c.history().len(), before_len);
}

#[test]
fn non_digit_append_is_rejected() {
    let mut c = Calculator::new();
    assert_eq!(
        c.operate(Operation::Append, Some(num(false, 12, 0))),
        Err(CalcError::InvalidOperand)
    );
    assert_eq!(
        c.operate(Operation::Append, Some(num(true, 1, 0))),
        Err(CalcError::InvalidOperand)
    );
    assert_eq!(
        c.operate(Operation::Append, Some(num(false, 5, 1))),
        Err(CalcError::InvalidOperand)
    );
    assert_eq!(c.history().len(), 0);
}

#[test]
fn digit_entry_past_capacity_is_a_parse_error() {
    let mut c = Calculator::new();
    for _ in 0..16 {
        c.operate(Operation::Append, digit(9)).unwrap();
    }
    assert_eq!(c.current(), num(false, 9_999_999_999_999_999, 0));
    let before_len = c.history().len();
    assert_eq!(c.operate(Operation::Append, digit(9)), Err(CalcError::ParseError));
    assert_eq!(c.current(), num(false, 9_999_999_999_999_999, 0));
    assert_eq!(c.history().len(), before_len);
}

#[test]
fn clear_resets_registers_and_keeps_history() {
    let mut c = Calculator::new();
    c.operate(Operation::Add, Some(num(false, 3, 0))).unwrap();
    c.operate(Operation::Append, digit(2)).unwrap();
    let len = c.history().len();
    c.clear();
    assert_eq!(c.total(), num(false, 0, 0));
    assert_eq!(c.current(), num(false, 0, 0));
    assert_eq!(c.history().len(), len);
}

#[test]
fn multiply_and_divide_seed_a_zero_total() {
    let mut c = Calculator::new();
    c.operate(Operation::Multiply, Some(num(false, 7, 0))).unwrap();
    assert_eq!(c.total(), num(false, 7, 0));
    c.operate(Operation::Divide, Some(num(false, 2, 0))).unwrap();
    assert_eq!(c.total(), num(false, 35, 1));
    c.clear();
    c.operate(Operation::Divide, Some(num(false, 9, 0))).unwrap();
    assert_eq!(c.total(), num(false, 9, 0));
}

#[test]
fn repeated_equal_replays_with_the_reset_current() {
    // A binary operation resets `current` to zero, so an immediate `=`
    // replays it with zero as the operand.
    let mut c = Calculator::new();
    c.operate(Operation::Add, Some(num(false, 3, 0))).unwrap();
    c.operate(Operation::Equal, None).unwrap();
    assert_eq!(c.total(), num(false, 3, 0));
    c.operate(Operation::Equal, None).unwrap();
    assert_eq!(c.total(), num(false, 3, 0));
}

#[test]
fn default_matches_new() {
    let c = Calculator::default();
    assert_eq!(c.total(), num(false, 0, 0));
    assert_eq!(c.current(), num(false, 0, 0));
    assert_eq!(c.history().len(), 0);
}
