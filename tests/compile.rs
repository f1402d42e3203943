use r9cc::codegen::Codegen;
use r9cc::errors::{CodegenError, CompileError, CompileErrorType, ParseError, TokenizeError};

fn lines(v: &[&str]) -> Vec<String> {
    v.iter().map(|e| e.to_string()).collect()
}

fn parse_error(kind: ParseError, pos: Option<std::ops::Range<usize>>) -> Vec<CompileError> {
    vec![CompileError {
        error_type: CompileErrorType::Parsing(kind),
        pos,
    }]
}

#[test]
fn test_error_parse_not_number_1() {
    let code = "+1+22 + 123;";
    let out = Codegen::compile(code);
    assert!(out.is_ok());
    assert_eq!(
        out.ok().unwrap(),
        lines(&[
            ".intel_syntax noprefix",
            ".global main",
            "main:",
            "\tpush rbp",
            "\tmov rbp, rsp",
            "\tsub rsp, 208",
            "\tpush 1",
            "\tpush 22",
            "\tpop rdi",
            "\tpop rax",
            "\tadd rax, rdi",
            "\tpush rax",
            "\tpush 123",
            "\tpop rdi",
            "\tpop rax",
            "\tadd rax, rdi",
            "\tpush rax",
            "\tpop rax",
            "\tmov rsp, rbp",
            "\tpop rbp",
            "\tret"
        ])
    );
}

#[test]
fn test_error_parse_not_number_2() {
    let code = "1++++22 + 123;";
    let out = Codegen::compile(code);
    assert!(out.is_ok());
    assert_eq!(
        out.ok().unwrap(),
        lines(&[
            ".intel_syntax noprefix",
            ".global main",
            "main:",
            "\tpush rbp",
            "\tmov rbp, rsp",
            "\tsub rsp, 208",
            "\tpush 1",
            "\tpush 22",
            "\tpop rdi",
            "\tpop rax",
            "\tadd rax, rdi",
            "\tpush rax",
            "\tpush 123",
            "\tpop rdi",
            "\tpop rax",
            "\tadd rax, rdi",
            "\tpush rax",
            "\tpop rax",
            "\tmov rsp, rbp",
            "\tpop rbp",
            "\tret"
        ])
    );
}

#[test]
fn test_error_parse_trailing_1() {
    let code = "1+ 123+";
    let out = Codegen::compile(code);
    assert!(out.is_err());
    assert_eq!(
        out.err().unwrap(),
        vec![CompileError {
            error_type: CompileErrorType::Parsing(ParseError::TrailingOp),
            pos: None,
        }]
    );
}

#[test]
fn test_error_parse_trailing_2() {
    let code = "1+ 123-";
    let out = Codegen::compile(code);
    assert!(out.is_err());
    assert_eq!(
        out.err().unwrap(),
        vec![CompileError {
            error_type: CompileErrorType::Parsing(ParseError::TrailingOp),
            pos: None,
        }]
    );
}

#[test]
fn test_error_parse_not_number_3() {
    let code = "1+-22 + 123;";
    let out = Codegen::compile(code);
    assert!(out.is_ok());
    assert_eq!(
        out.ok().unwrap(),
        lines(&[
            ".intel_syntax noprefix",
            ".global main",
            "main:",
            "\tpush rbp",
            "\tmov rbp, rsp",
            "\tsub rsp, 208",
            "\tpush 1",
            "\tpush 0",
            "\tpush 22",
            "\tpop rdi",
            "\tpop rax",
            "\tsub rax, rdi",
            "\tpush rax",
            "\tpop rdi",
            "\tpop rax",
            "\tadd rax, rdi",
            "\tpush rax",
            "\tpush 123",
            "\tpop rdi",
            "\tpop rax",
            "\tadd rax, rdi",
            "\tpush rax",
            "\tpop rax",
            "\tmov rsp, rbp",
            "\tpop rbp",
            "\tret"
        ])
    );
}

#[test]
fn test_error_parse_cannot() {
    let code = "1 3 23";
    let out = Codegen::compile(code);
    assert!(out.is_err());
    assert_eq!(
        out.err().unwrap(),
        vec![CompileError {
            error_type: CompileErrorType::Parsing(ParseError::CannotParse),
            pos: Some(2..3),
        }]
    );
}

#[test]
fn test_error_no_semicolon() {
    let code = "1 + 2 ";
    let out = Codegen::compile(code);
    assert_eq!(out.err().unwrap(), parse_error(ParseError::NeedSemiColon, None));
}

#[test]
fn test_variable() {
    let code = "a=3;a;";
    let out = Codegen::compile(code);
    assert!(out.is_ok());
    assert_eq!(
        out.ok().unwrap(),
        lines(&[
            ".intel_syntax noprefix",
            ".global main",
            "main:",
            "\tpush rbp",
            "\tmov rbp, rsp",
            "\tsub rsp, 208",
            "\tmov rax, rbp",
            "\tsub rax, 8",
            "\tpush rax",
            "\tpush 3",
            "\tpop rdi",
            "\tpop rax",
            "\tmov [rax], rdi",
            "\tpush rdi",
            "\tpop rax",
            "\tmov rax, rbp",
            "\tsub rax, 8",
            "\tpush rax",
            "\tpop rax",
            "\tmov rax, [rax]",
            "\tpush rax",
            "\tpop rax",
            "\tmov rsp, rbp",
            "\tpop rbp",
            "\tret"
        ])
    );
}

#[test]
fn multiplication_binds_tighter() {
    let out = Codegen::compile("1+2*3;").unwrap();
    assert_eq!(
        out,
        lines(&[
            ".intel_syntax noprefix",
            ".global main",
            "main:",
            "\tpush rbp",
            "\tmov rbp, rsp",
            "\tsub rsp, 208",
            "\tpush 1",
            "\tpush 2",
            "\tpush 3",
            "\tpop rdi",
            "\tpop rax",
            "\timul rax, rdi",
            "\tpush rax",
            "\tpop rdi",
            "\tpop rax",
            "\tadd rax, rdi",
            "\tpush rax",
            "\tpop rax",
            "\tmov rsp, rbp",
            "\tpop rbp",
            "\tret"
        ])
    );
}

#[test]
fn adjacent_literals_cannot_parse() {
    let out = Codegen::compile("1 2;");
    assert_eq!(out.err().unwrap(), parse_error(ParseError::CannotParse, Some(2..3)));
}

#[test]
fn operator_at_end_is_trailing() {
    let out = Codegen::compile("1+");
    assert_eq!(out.err().unwrap(), parse_error(ParseError::TrailingOp, None));
}

#[test]
fn unclosed_paren_is_reported() {
    let out = Codegen::compile("(1+2;");
    assert_eq!(
        out.err().unwrap(),
        parse_error(ParseError::NotFoundRoundBracketR, Some(4..5))
    );
    let out = Codegen::compile("(1+2");
    assert_eq!(
        out.err().unwrap(),
        parse_error(ParseError::NotFoundRoundBracketR, None)
    );
}

#[test]
fn missing_semicolon_is_reported() {
    let out = Codegen::compile("1+2");
    assert_eq!(out.err().unwrap(), parse_error(ParseError::NeedSemiColon, None));
    let out = Codegen::compile("1+2)");
    assert_eq!(
        out.err().unwrap(),
        parse_error(ParseError::NeedSemiColon, Some(3..4))
    );
}

#[test]
fn operator_in_operand_position_is_not_a_number() {
    let out = Codegen::compile("1+*2;");
    assert_eq!(out.err().unwrap(), parse_error(ParseError::NotNumber, Some(2..3)));
}

#[test]
fn assigning_to_a_number_fails_in_codegen() {
    let out = Codegen::compile("1=2;");
    assert_eq!(
        out.err().unwrap(),
        vec![CompileError {
            error_type: CompileErrorType::Codegen(CodegenError::LValueNotVar),
            pos: None,
        }]
    );
}

#[test]
fn tokenizing_errors_come_all_at_once() {
    let out = Codegen::compile("1 # 2 $;");
    assert_eq!(
        out.err().unwrap(),
        vec![
            CompileError {
                error_type: CompileErrorType::Tokenizing(TokenizeError("#".to_string())),
                pos: Some(2..3)
            },
            CompileError {
                error_type: CompileErrorType::Tokenizing(TokenizeError("$;".to_string())),
                pos: Some(6..8)
            },
        ]
    );
}

#[test]
fn empty_input_is_an_empty_program() {
    let out = Codegen::compile("   ").unwrap();
    assert_eq!(
        out,
        lines(&[
            ".intel_syntax noprefix",
            ".global main",
            "main:",
            "\tpush rbp",
            "\tmov rbp, rsp",
            "\tsub rsp, 208",
            "\tmov rsp, rbp",
            "\tpop rbp",
            "\tret"
        ])
    );
}

#[test]
fn comparisons_and_slots() {
    let out = Codegen::compile("b=1; a=b>=2; a!=b;").unwrap();
    // `b` takes the first slot, `a` the second; `b>=2` becomes `2<=b`.
    let body: Vec<String> = out[6..out.len() - 3].to_vec();
    assert_eq!(
        body,
        lines(&[
            "\tmov rax, rbp",
            "\tsub rax, 8",
            "\tpush rax",
            "\tpush 1",
            "\tpop rdi",
            "\tpop rax",
            "\tmov [rax], rdi",
            "\tpush rdi",
            "\tpop rax",
            "\tmov rax, rbp",
            "\tsub rax, 16",
            "\tpush rax",
            "\tpush 2",
            "\tmov rax, rbp",
            "\tsub rax, 8",
            "\tpush rax",
            "\tpop rax",
            "\tmov rax, [rax]",
            "\tpush rax",
            "\tpop rdi",
            "\tpop rax",
            "\tcmp rax, rdi",
            "\tsetle al",
            "\tmovzb rax, al",
            "\tpush rax",
            "\tpop rdi",
            "\tpop rax",
            "\tmov [rax], rdi",
            "\tpush rdi",
            "\tpop rax",
            "\tmov rax, rbp",
            "\tsub rax, 16",
            "\tpush rax",
            "\tpop rax",
            "\tmov rax, [rax]",
            "\tpush rax",
            "\tmov rax, rbp",
            "\tsub rax, 8",
            "\tpush rax",
            "\tpop rax",
            "\tmov rax, [rax]",
            "\tpush rax",
            "\tpop rdi",
            "\tpop rax",
            "\tcmp rax, rdi",
            "\tsetne al",
            "\tmovzb rax, al",
            "\tpush rax",
            "\tpop rax",
        ])
    );
}

#[test]
fn negative_literal_and_division() {
    let out = Codegen::compile("-8/(2);").unwrap();
    let body: Vec<String> = out[6..out.len() - 3].to_vec();
    assert_eq!(
        body,
        lines(&[
            "\tpush 0",
            "\tpush 8",
            "\tpop rdi",
            "\tpop rax",
            "\tsub rax, rdi",
            "\tpush rax",
            "\tpush 2",
            "\tpop rdi",
            "\tpop rax",
            "\tcqo",
            "\tidiv rdi",
            "\tpush rax",
            "\tpop rax",
        ])
    );
}

#[test]
fn unary_minus_matches_zero_minus() {
    assert_eq!(Codegen::compile("-a;"), Codegen::compile("0-a;"));
    assert_eq!(Codegen::compile("+a;"), Codegen::compile("a;"));
    assert_eq!(Codegen::compile("-(a*2);"), Codegen::compile("0-(a*2);"));
}

#[test]
fn greater_matches_swapped_less() {
    assert_eq!(Codegen::compile("3>4;"), Codegen::compile("4<3;"));
    assert_eq!(Codegen::compile("3>=4;"), Codegen::compile("4<=3;"));
    assert_eq!(Codegen::compile("a;b;a>b;"), Codegen::compile("a;b;b<a;"));
}

#[test]
fn compiling_twice_gives_the_same_lines() {
    let code = "x = y = 5; x * (y - 2) == 9;";
    assert_eq!(Codegen::compile(code), Codegen::compile(code));
}

#[test]
fn large_literal_is_written_in_decimal() {
    let out = Codegen::compile("9223372036854775807;").unwrap();
    assert_eq!(out[6], "\tpush 9223372036854775807");
}

#[test]
fn slots_follow_first_sight() {
    let out = Codegen::compile("c; a; c; b;").unwrap();
    let offsets: Vec<String> = out
        .iter()
        .filter(|l| l.starts_with("\tsub rax, "))
        .cloned()
        .collect();
    assert_eq!(
        offsets,
        lines(&["\tsub rax, 8", "\tsub rax, 16", "\tsub rax, 8", "\tsub rax, 24"])
    );
}

#[test]
fn each_statement_leaves_one_value_for_its_pop() {
    let out = Codegen::compile("a = (1 + 2) * -3 <= 4 != 5 / 6;").unwrap();
    // Body lines only: the statement's code, then the pop that discards its value.
    let body = &out[6..out.len() - 3];
    let mut depth: i64 = 0;
    for line in &body[..body.len() - 1] {
        if line.starts_with("\tpush") {
            depth += 1;
        } else if line.starts_with("\tpop") {
            depth -= 1;
        }
        assert!(depth >= 0);
    }
    assert_eq!(depth, 1);
    assert_eq!(body[body.len() - 1], "\tpop rax");
}

#[test]
fn literals_are_written_in_decimal_at_digit_boundaries() {
    let out = Codegen::compile("0; 9; 10; 100;").unwrap();
    let pushes: Vec<String> = out
        .iter()
        .filter(|l| l.starts_with("\tpush ") && *l != "\tpush rbp")
        .cloned()
        .collect();
    assert_eq!(
        pushes,
        lines(&["\tpush 0", "\tpush 9", "\tpush 10", "\tpush 100"])
    );
}

#[test]
fn long_digit_runs_inside_unscannable_text_are_tokenizing_errors() {
    let out = Codegen::compile("#99999999999999999999;");
    assert_eq!(
        out.err().unwrap(),
        vec![CompileError {
            error_type: CompileErrorType::Tokenizing(TokenizeError(
                "#99999999999999999999;".to_string()
            )),
            pos: Some(0..22)
        }]
    );
    let out = Codegen::compile("1@99999999999999999999");
    assert_eq!(
        out.err().unwrap(),
        vec![CompileError {
            error_type: CompileErrorType::Tokenizing(TokenizeError(
                "@99999999999999999999".to_string()
            )),
            pos: Some(1..22)
        }]
    );
}
