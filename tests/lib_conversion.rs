use calculator::{infix_to_postfix, CalcError};

#[test]
fn lib_from_empty_infix_string_empty_postfix_string() {
    assert_eq!("", infix_to_postfix("").unwrap());
}

#[test]
fn lib_infix_to_postfix_add() {
    assert_eq!("13 5 +", infix_to_postfix("13+5").unwrap());
}

#[test]
fn lib_infix_to_postfix_subtract() {
    assert_eq!("13 5 -", infix_to_postfix("13-5").unwrap());
}

#[test]
fn lib_infix_to_postfix_divide() {
    assert_eq!("13 5 /", infix_to_postfix("13/5").unwrap());
}

#[test]
fn lib_infix_to_postfix_multiply() {
    assert_eq!("13 5 *", infix_to_postfix("13*5").unwrap());
}

#[test]
fn lib_infix_to_postfix_multiplication_higher_priority_than_add() {
    assert_eq!("13 5 2 * +", infix_to_postfix("13+5*2").unwrap());
}

#[test]
fn lib_infix_to_postfix_multiplication_higher_priority_than_subtract() {
    assert_eq!("13 5 2 * -", infix_to_postfix("13-5*2").unwrap());
}

#[test]
fn lib_infix_to_postfix_division_higher_priority_than_add() {
    assert_eq!("13 5 2 / +", infix_to_postfix("13+5/2").unwrap());
}

#[test]
fn lib_infix_to_postfix_division_higher_priority_than_subtract() {
    assert_eq!("13 5 2 / -", infix_to_postfix("13-5/2").unwrap());
}

#[test]
fn lib_test() {
    println!("{}", infix_to_postfix("13+5").unwrap());
    assert_eq!("", infix_to_postfix("").unwrap());
}

#[test]
fn lib_infix_to_postfix_brackets_change_priority() {
    assert_eq!("13 5 + 2 *", infix_to_postfix("(13+5)*2").unwrap());
}

#[test]
fn lib_infix_to_postfix_no_open_bracket() {
    assert_eq!(Err(CalcError::BracketMismatch), infix_to_postfix("13+5)*2"));
}

#[test]
fn lib_infix_to_postfix_no_close_bracket() {
    assert_eq!(Err(CalcError::BracketMismatch), infix_to_postfix("(13+5*2"));
}
