use calculator::ExpressionEntry::{Operand, Operator};
use calculator::{get_operand_from_stack, CalcError, ExpressionEntry, PostfixNotation};

#[test]
fn from_empty_infix_string_empty_instance_created() {
    let notation = PostfixNotation::from_infix_string("").unwrap();
    assert_eq!(0, notation.expression().len());
}

#[test]
fn sum_values_return_their_sum() {
    let expression = vec![Operand(4), Operand(13), Operator('+')];

    let notation = PostfixNotation::from_expression(expression);
    assert_eq!(Ok(17), notation.calculate());
}

#[test]
fn subtract_values_return_their_subtraction() {
    let expression = vec![Operand(4), Operand(13), Operator('-')];
    let notation = PostfixNotation::from_expression(expression);
    assert_eq!(Ok(-9), notation.calculate());
}

#[test]
fn multiply_values_return_their_product() {
    let expression = vec![Operand(4), Operand(13), Operator('*')];
    let notation = PostfixNotation::from_expression(expression);
    assert_eq!(Ok(52), notation.calculate());
}

#[test]
fn divide_values_return_their_division() {
    let expression = vec![Operand(13), Operand(4), Operator('/')];
    let notation = PostfixNotation::from_expression(expression);
    assert_eq!(Ok(3), notation.calculate());
}

#[test]
fn unknown_operator_leads_to_panic() {
    let expression = vec![Operand(13), Operand(4), Operator('&')];
    let notation = PostfixNotation::from_expression(expression);
    assert_eq!(Err(CalcError::UnknownOperator), notation.calculate());
}

#[test]
fn complex_expression_evaluation_returns_correct_result() {
    let expression = vec![
        Operand(4),
        Operand(13),
        Operand(5),
        Operator('/'),
        Operator('+'),
    ];
    let notation = PostfixNotation::from_expression(expression);
    assert_eq!(Ok(6), notation.calculate());
}

#[test]
fn get_operand_from_stack_return_valid_value() {
    let mut stack = vec![Operand(4), Operand(13)];
    assert_eq!(Ok(13), get_operand_from_stack(&mut stack));
    assert_eq!(Ok(4), get_operand_from_stack(&mut stack));
}

#[test]
fn get_operand_from_stack_empty_stack_lead_to_panic() {
    let mut stack = Vec::<ExpressionEntry>::new();
    assert_eq!(Err(CalcError::StackUnderflow), get_operand_from_stack(&mut stack));
}

#[test]
fn get_operand_from_stack_operator_on_head_lead_to_panic() {
    let mut stack = vec![Operator('+')];
    assert_eq!(Err(CalcError::StackUnderflow), get_operand_from_stack(&mut stack));
    assert!(stack.is_empty());
}
