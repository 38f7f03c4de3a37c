use vasc::codegen::{compile, compile_expression_recursive};
use vasc::errors::CompileError;
use vasc::lexer::parse;
use vasc::resolver::preprocessor_firstpass;
use vasc::slots::{allocate, free_index};
use vasc::symbols::{free, SymbolTable};
use vasc::token::{process_identifier, Token};

#[test]
fn allocator_returns_lowest_free_and_marks_it() {
    let mut table = vec![true, false, true, false];
    assert_eq!(allocate(&mut table), 1);
    assert_eq!(table, vec![true, true, true, false]);
    assert_eq!(allocate(&mut table), 3);
    assert_eq!(table, vec![true, true, true, true]);
}

#[test]
fn allocator_grows_when_full() {
    let mut table: Vec<bool> = Vec::new();
    assert_eq!(allocate(&mut table), 0);
    assert_eq!(allocate(&mut table), 1);
    assert_eq!(table, vec![true, true]);
}

#[test]
fn allocator_reuses_freed_slot_first() {
    let mut table: Vec<bool> = Vec::new();
    let a = allocate(&mut table);
    let _b = allocate(&mut table);
    free_index(&mut table, a);
    assert_eq!(allocate(&mut table), a);
}

#[test]
fn free_of_absent_name_mutates_nothing() {
    let mut table = SymbolTable::new();
    let mut malloc = vec![true, true];
    let r = free(&mut table, &mut malloc, "x".to_string());
    assert_eq!(r.unwrap_err(), CompileError::FreedUndefined);
    assert_eq!(malloc, vec![true, true]);
    assert!(!table.contains("x"));
}

#[test]
fn free_of_live_name_clears_slot_and_entry() {
    let mut table = SymbolTable::new();
    let mut malloc = vec![true, true];
    table.insert("x".to_string(), 1);
    assert!(table.contains("x"));
    assert_eq!(table.get("x"), Some(1));
    free(&mut table, &mut malloc, "x".to_string()).unwrap();
    assert_eq!(malloc, vec![true, false]);
    assert!(!table.contains("x"));
    assert_eq!(table.get("x"), None);
}

#[test]
fn keyword_lookup() {
    assert!(matches!(process_identifier("var".to_string()), Token::Let));
    assert!(matches!(process_identifier("free".to_string()), Token::Free));
    assert!(matches!(process_identifier("if".to_string()), Token::Conditional));
    assert!(matches!(process_identifier(String::new()), Token::Blank));
    assert!(matches!(process_identifier("(".to_string()), Token::ExprStart(0)));
    assert!(matches!(process_identifier(")".to_string()), Token::ExprEnd));
    assert!(matches!(process_identifier("{".to_string()), Token::BlockStart(0)));
    assert!(matches!(process_identifier("}".to_string()), Token::BlockEnd));
    match process_identifier("velocity".to_string()) {
        Token::Identifier(s) => assert_eq!(s, "velocity"),
        t => panic!("expected an identifier, got {:?}", t),
    }
}

#[test]
fn parse_resolves_bracket_payloads() {
    let toks = parse("if (1 == 1) { }".to_string()).unwrap();
    assert_eq!(toks.len(), 8);
    assert!(matches!(toks[0], Token::Conditional));
    assert!(matches!(toks[1], Token::ExprStart(5)));
    assert!(matches!(toks[5], Token::ExprEnd));
    assert!(matches!(toks[6], Token::BlockStart(7)));
    assert!(matches!(toks[7], Token::BlockEnd));
}

#[test]
fn firstpass_rejects_unpaired_end() {
    let mut toks = vec![Token::BlockEnd];
    assert_eq!(preprocessor_firstpass(&mut toks).unwrap_err(), CompileError::UnpairedBlockEnd);
    let mut toks = vec![Token::ExprEnd];
    assert_eq!(preprocessor_firstpass(&mut toks).unwrap_err(), CompileError::UnpairedExprEnd);
}

#[test]
fn firstpass_rejects_incomplete_pairs() {
    let mut toks = vec![Token::BlockStart(0)];
    assert_eq!(preprocessor_firstpass(&mut toks).unwrap_err(), CompileError::UnclosedBlock);
    let mut toks = vec![Token::ExprStart(0)];
    assert_eq!(preprocessor_firstpass(&mut toks).unwrap_err(), CompileError::UnclosedExpr);
}

#[test]
fn firstpass_pairs_nested_blocks() {
    let mut toks = vec![
        Token::BlockStart(0),
        Token::BlockStart(0),
        Token::BlockEnd,
        Token::BlockEnd,
    ];
    preprocessor_firstpass(&mut toks).unwrap();
    assert!(matches!(toks[0], Token::BlockStart(3)));
    assert!(matches!(toks[1], Token::BlockStart(2)));
}

#[test]
fn compile_declaration_tokens() {
    let toks = vec![
        Token::Let,
        Token::Identifier("x".to_string()),
        Token::Assignment,
        Token::SizedLiteral(7),
    ];
    assert_eq!(compile(toks).unwrap(), "memset 0 7 // VARIABLE : x // \n");
}

#[test]
fn compile_rejects_placeholder_token() {
    assert_eq!(compile(vec![Token::Blank]).unwrap_err(), CompileError::UnrecognizedToken);
}

#[test]
fn expression_evaluator_emits_and_frees_scratch_slots() {
    let mut malloc: Vec<bool> = Vec::new();
    let toks = vec![
        Token::Conditional,
        Token::ExprStart(5),
        Token::SizedLiteral(2),
        Token::Equality,
        Token::SizedLiteral(3),
        Token::ExprEnd,
    ];
    let mut index: usize = 0;
    let text = compile_expression_recursive(&mut malloc, &toks, &mut index).unwrap();
    assert_eq!(
        text,
        "memset 0 2 // COMPILER INTERNAL // \n\
         mov rax 0 // COMPILER INTERNAL //\n\
         memset 1 3 // COMPILER INTERNAL // \n\
         mov rbx 1\n\
         eq rcx rax rbx // COMPILER INTERNAL // \n\
         inv rcx // EQUALITY // \n"
    );
    assert_eq!(index, 6);
    assert_eq!(malloc, vec![false, false]);
}
