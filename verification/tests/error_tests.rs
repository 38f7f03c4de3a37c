use vasc::build;
use vasc::errors::{CompileError, ErrorKind};

#[test]
fn unrecognized_character() {
    let e = build("$".to_string()).unwrap_err();
    assert_eq!(e, CompileError::UnrecognizedCharacter('$'));
    assert_eq!(e.kind(), ErrorKind::Lex);
}

#[test]
fn end_of_input_after_assignment() {
    let e = build("var x =".to_string()).unwrap_err();
    assert_eq!(e, CompileError::UnexpectedEndAfterAssignment);
    assert_eq!(e.kind(), ErrorKind::Lex);
}

#[test]
fn literal_too_large() {
    let e = build("var x = 123456789012345678901234567890;".to_string()).unwrap_err();
    assert_eq!(e, CompileError::LiteralTooLarge);
    assert_eq!(e.kind(), ErrorKind::Lex);
}

#[test]
fn unpaired_block_end() {
    assert_eq!(build("}".to_string()).unwrap_err(), CompileError::UnpairedBlockEnd);
}

#[test]
fn unpaired_expr_end() {
    assert_eq!(build(")".to_string()).unwrap_err(), CompileError::UnpairedExprEnd);
}

#[test]
fn unclosed_block() {
    assert_eq!(build("{".to_string()).unwrap_err(), CompileError::UnclosedBlock);
}

#[test]
fn unclosed_expr() {
    assert_eq!(build("(".to_string()).unwrap_err(), CompileError::UnclosedExpr);
}

#[test]
fn missing_identifier_after_var() {
    let e = build("var 5;".to_string()).unwrap_err();
    assert_eq!(e, CompileError::ExpectedIdentifierAfterLet);
}

#[test]
fn redefinition_without_intervening_free() {
    let e = build("var x = 1; var x = 2;".to_string()).unwrap_err();
    assert_eq!(e, CompileError::Redefinition);
    assert_eq!(e.kind(), ErrorKind::Semantic);
}

#[test]
fn redefinition_later_in_program() {
    let e = build("var a = 1; var x = 2; var b = 3; var x = 4;".to_string()).unwrap_err();
    assert_eq!(e, CompileError::Redefinition);
}

#[test]
fn redefinition_allowed_after_free() {
    let out = build("var x = 1; free x; var x = 2;".to_string()).unwrap();
    assert_eq!(
        out,
        "memset 0 1 // VARIABLE : x // \n\
         memset 0 2 // VARIABLE : x // \n"
    );
}

#[test]
fn missing_value_after_assignment() {
    let e = build("var x = if;".to_string()).unwrap_err();
    assert_eq!(e, CompileError::ExpectedValueAfterAssignment);
}

#[test]
fn undefined_source_variable() {
    let e = build("var x = y;".to_string()).unwrap_err();
    assert_eq!(e, CompileError::UndefinedVariable);
    assert_eq!(e.kind(), ErrorKind::Semantic);
}

#[test]
fn free_of_non_identifier() {
    let e = build("free if;".to_string()).unwrap_err();
    assert_eq!(e, CompileError::FreedNonIdentifier);
    assert_eq!(e.kind(), ErrorKind::Semantic);
}

#[test]
fn free_of_literal() {
    let e = build("free 5;".to_string()).unwrap_err();
    assert_eq!(e, CompileError::FreedLiteral);
    assert_eq!(e.kind(), ErrorKind::Semantic);
}

#[test]
fn free_of_undefined_variable() {
    let e = build("free x;".to_string()).unwrap_err();
    assert_eq!(e, CompileError::FreedUndefined);
    assert_eq!(e.kind(), ErrorKind::Semantic);
}

#[test]
fn conditional_without_parenthesis() {
    let e = build("if x { }".to_string()).unwrap_err();
    assert_eq!(e, CompileError::ExpectedExprStart);
}

#[test]
fn conditional_left_operand_not_literal() {
    let e = build("if (x == 1) { }".to_string()).unwrap_err();
    assert_eq!(e, CompileError::ExpectedLeftLiteral);
}

#[test]
fn conditional_operator_not_equality() {
    let e = build("if (1 = 1) { }".to_string()).unwrap_err();
    assert_eq!(e, CompileError::ExpectedEquality);
}

#[test]
fn conditional_right_operand_not_literal() {
    let e = build("if (1 == x) { }".to_string()).unwrap_err();
    assert_eq!(e, CompileError::ExpectedRightLiteral);
}

#[test]
fn conditional_without_block() {
    let e = build("if (1 == 1) var y = 2;".to_string()).unwrap_err();
    assert_eq!(e, CompileError::NoBlockAfterConditional);
}

#[test]
fn empty_statement_is_unrecognized() {
    let e = build(";;".to_string()).unwrap_err();
    assert_eq!(e, CompileError::UnrecognizedToken);
    assert_eq!(e.kind(), ErrorKind::Syntax);
}
