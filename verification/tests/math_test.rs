use idc_runtime::math::{evaluate_expression, resolve_math_placeholders, MathError};
use idc_runtime::memory::StrMap;

#[test]
fn test_precedence_multiplication_first() {
    let mem = StrMap::new();
    assert_eq!(evaluate_expression("2 + 3 * 4", &mem), Ok(14));
}

#[test]
fn test_parentheses_override_precedence() {
    let mem = StrMap::new();
    assert_eq!(evaluate_expression("(2 + 3) * 4", &mem), Ok(20));
}

#[test]
fn test_division_by_zero_is_an_error() {
    let mem = StrMap::new();
    assert_eq!(evaluate_expression("10 / 0", &mem), Err(MathError::DivisionByZero));
}

#[test]
fn test_modulo_by_zero_is_an_error() {
    let mem = StrMap::new();
    assert_eq!(evaluate_expression("10 % 0", &mem), Err(MathError::ModuloByZero));
}

#[test]
fn test_comparisons_yield_one_and_zero() {
    let mem = StrMap::new();
    assert_eq!(evaluate_expression("5 == 5", &mem), Ok(1));
    assert_eq!(evaluate_expression("5 != 5", &mem), Ok(0));
    assert_eq!(evaluate_expression("3 < 4", &mem), Ok(1));
    assert_eq!(evaluate_expression("3 <= 3", &mem), Ok(1));
    assert_eq!(evaluate_expression("3 > 4", &mem), Ok(0));
    assert_eq!(evaluate_expression("4 >= 5", &mem), Ok(0));
}

#[test]
fn test_truncating_division_with_negatives() {
    let mem = StrMap::new();
    assert_eq!(evaluate_expression("10 / (2 - 5)", &mem), Ok(-3));
    assert_eq!(evaluate_expression("(0 - 10) % 3", &mem), Ok(-1));
}

#[test]
fn test_unexpected_character_is_an_error() {
    let mem = StrMap::new();
    assert_eq!(evaluate_expression("2 + #", &mem), Err(MathError::UnexpectedChar('#')));
}

#[test]
fn test_unmatched_parens_are_errors() {
    let mem = StrMap::new();
    assert_eq!(evaluate_expression("(2 + 3", &mem), Err(MathError::MismatchedParens));
    assert_eq!(evaluate_expression("2 + 3)", &mem), Err(MathError::UnmatchedClose));
}

#[test]
fn test_missing_operand_is_an_error() {
    let mem = StrMap::new();
    assert_eq!(evaluate_expression("+", &mem), Err(MathError::MissingOperand));
}

#[test]
fn test_empty_expression_is_an_error() {
    let mem = StrMap::new();
    assert_eq!(evaluate_expression("", &mem), Err(MathError::EmptyResult));
}

#[test]
fn test_stray_equals_is_an_unknown_token() {
    let mem = StrMap::new();
    assert_eq!(evaluate_expression("2 = 3", &mem), Err(MathError::UnknownToken('=')));
}

#[test]
fn test_number_too_large_is_an_error() {
    let mem = StrMap::new();
    assert_eq!(evaluate_expression("99999999999", &mem), Err(MathError::NumberTooLarge));
}

#[test]
fn test_overflow_is_an_error() {
    let mem = StrMap::new();
    assert_eq!(
        evaluate_expression("2000000000 + 2000000000", &mem),
        Err(MathError::Overflow)
    );
}

#[test]
fn test_placeholder_substitution_in_expression() {
    let mut mem = StrMap::new();
    mem.insert("x".to_string(), "7".to_string());
    assert_eq!(evaluate_expression("{{x}} + 1", &mem), Ok(8));
}

#[test]
fn test_missing_placeholder_defaults_to_zero() {
    let mem = StrMap::new();
    assert_eq!(evaluate_expression("{{absent}} + 1", &mem), Ok(1));
}

#[test]
fn test_quoted_expression_evaluates() {
    let mem = StrMap::new();
    assert_eq!(evaluate_expression("\"1 + 2\"", &mem), Ok(3));
}

#[test]
fn test_math_placeholder_replacement() {
    let mem = StrMap::new();
    let out = resolve_math_placeholders("val={{5 + 3}}", &mem);
    assert_eq!(out.as_str(), "val=8");
}

#[test]
fn test_math_placeholder_with_memory() {
    let mut mem = StrMap::new();
    mem.insert("x".to_string(), "7".to_string());
    let out = resolve_math_placeholders("val={{{{x}} + 1}} tail", &mem);
    // brace matching is lazy: the inner `}}` ends the placeholder
    assert_eq!(out.as_str(), "val=7 + 1}} tail");
}

#[test]
fn test_identifier_resolves_inside_placeholder() {
    let mut mem = StrMap::new();
    mem.insert("x".to_string(), "7".to_string());
    let out = resolve_math_placeholders("val={{x + 1}}", &mem);
    assert_eq!(out.as_str(), "val=8");
}

#[test]
fn test_failed_placeholder_contributes_zero() {
    let mut mem = StrMap::new();
    mem.insert("x".to_string(), "oops".to_string());
    // x resolves to a non-numeric value, so the placeholder fails and
    // degrades to 0; the failure never reaches the caller
    let out = resolve_math_placeholders("val={{x + 1}}", &mem);
    assert_eq!(out.as_str(), "val=0");
}

#[test]
fn test_unmapped_identifier_defaults_to_zero() {
    let mem = StrMap::new();
    assert_eq!(evaluate_expression("nothing + 4", &mem), Ok(4));
}

#[test]
fn test_identifier_resolves_in_expression() {
    let mut mem = StrMap::new();
    mem.insert("count".to_string(), "5".to_string());
    assert_eq!(evaluate_expression("count * 2", &mem), Ok(10));
}

#[test]
fn test_placeholder_without_closing_still_resolves() {
    let mut mem = StrMap::new();
    mem.insert("k".to_string(), "3".to_string());
    let out = resolve_math_placeholders("a={{1 + 2", &mem);
    assert_eq!(out.as_str(), "a=3");
}
