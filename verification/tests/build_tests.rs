use vasc::build;
use vasc::errors::{CompileError, ErrorKind};

#[test]
fn declaration_with_literal() {
    let out = build("var x = 5;".to_string()).unwrap();
    assert_eq!(out, "memset 0 5 // VARIABLE : x // \n");
}

#[test]
fn declaration_from_variable() {
    let out = build("var x = 5; var y = x;".to_string()).unwrap();
    assert_eq!(
        out,
        "memset 0 5 // VARIABLE : x // \n\
         mov rax 0 // MEMORY VALUE PULL // \n\
         memset 1 rax // ASSIGN MEMORY TO VARIABLE //\n"
    );
}

#[test]
fn freed_slot_is_reused() {
    let out = build("var x = 5; free x; var y = 3;".to_string()).unwrap();
    assert_eq!(
        out,
        "memset 0 5 // VARIABLE : x // \n\
         memset 0 3 // VARIABLE : y // \n"
    );
}

#[test]
fn conditional_block() {
    let out = build("if (1 == 1) { }".to_string()).unwrap();
    assert_eq!(
        out,
        "memset 0 1 // COMPILER INTERNAL // \n\
         mov rax 0 // COMPILER INTERNAL //\n\
         memset 1 1 // COMPILER INTERNAL // \n\
         mov rbx 1\n\
         eq rcx rax rbx // COMPILER INTERNAL // \n\
         inv rcx // EQUALITY // \n\
         cgt rcx 7 // IF // \n\
         label 7 // IF END // \n"
    );
}

#[test]
fn scratch_slots_are_free_after_conditional() {
    let out = build("if (1 == 1) { } var z = 9;".to_string()).unwrap();
    assert!(out.ends_with("memset 0 9 // VARIABLE : z // \n"));
}

#[test]
fn missing_assignment_is_syntax_error() {
    let e = build("var x 5;".to_string()).unwrap_err();
    assert_eq!(e, CompileError::ExpectedAssignment);
    assert_eq!(e.kind(), ErrorKind::Syntax);
}

#[test]
fn unclosed_block_fails_in_resolution() {
    let e = build("if (1 == 1) {".to_string()).unwrap_err();
    assert_eq!(e, CompileError::UnclosedBlock);
    assert_eq!(e.kind(), ErrorKind::Syntax);
}

#[test]
fn directive_is_parsed_but_not_evaluated() {
    assert_eq!(build("# warp speed".to_string()).unwrap(), "");
    let out = build("#directive\nvar x = 2;".to_string()).unwrap();
    assert_eq!(out, "memset 0 2 // VARIABLE : x // \n");
}

#[test]
fn backslash_discards_rest_of_line_and_keeps_buffer() {
    let out = build("va\\ junk $$$\nr x = 1;".to_string()).unwrap();
    assert_eq!(out, "memset 0 1 // VARIABLE : x // \n");
}

#[test]
fn value_directly_after_assignment_is_retained() {
    let out = build("var x = 5; var z =x;".to_string()).unwrap();
    assert_eq!(
        out,
        "memset 0 5 // VARIABLE : x // \n\
         mov rax 0 // MEMORY VALUE PULL // \n\
         memset 1 rax // ASSIGN MEMORY TO VARIABLE //\n"
    );
}

#[test]
fn unicode_identifier() {
    let out = build("var ident\u{00e9} = 7;".to_string()).unwrap();
    assert_eq!(out, "memset 0 7 // VARIABLE : ident\u{00e9} // \n");
}

#[test]
fn multi_digit_literal() {
    let out = build("var big = 12345;".to_string()).unwrap();
    assert_eq!(out, "memset 0 12345 // VARIABLE : big // \n");
}

#[test]
fn stray_block_emits_label_only() {
    let out = build("{ }".to_string()).unwrap();
    assert_eq!(out, "label 1 // IF END // \n");
}

#[test]
fn empty_source_builds_to_nothing() {
    assert_eq!(build(String::new()).unwrap(), "");
}

#[test]
fn statement_inside_conditional_block() {
    let out = build("if (1 == 1) { var t = 2; }".to_string()).unwrap();
    assert_eq!(
        out,
        "memset 0 1 // COMPILER INTERNAL // \n\
         mov rax 0 // COMPILER INTERNAL //\n\
         memset 1 1 // COMPILER INTERNAL // \n\
         mov rbx 1\n\
         eq rcx rax rbx // COMPILER INTERNAL // \n\
         inv rcx // EQUALITY // \n\
         cgt rcx 11 // IF // \n\
         memset 0 2 // VARIABLE : t // \n\
         label 11 // IF END // \n"
    );
}

#[test]
fn unicode_whitespace_separates_tokens() {
    let out = build("var\u{00a0}x\u{00a0}=\u{00a0}4;".to_string()).unwrap();
    assert_eq!(out, "memset 0 4 // VARIABLE : x // \n");
}
