use chipasm::compile::{compile, CompileError};
use chipasm::interp::interp;
use chipasm::lexer::{Lexer, Span, Token};
use chipasm::parser::{parse, Expected, Expr, Expr_, Program};

fn bytes(src: &str) -> Vec<u8> {
    match compile(src) {
        Ok(b) => b,
        Err(e) => panic!("{:?}", e),
    }
}

#[test]
fn assign_then_copy_compiles() {
    assert_eq!(bytes("v0 = 5\r\nv1 = v0\r\n"), vec![0x60, 0x05, 0x81, 0x00]);
}

#[test]
fn backward_jump_to_first_label() {
    assert_eq!(
        bytes("loop:\r\nclear\r\ngoto loop\r\n"),
        vec![0x00, 0xE0, 0x10, 0x00]
    );
}

#[test]
fn register_sixteen_is_rejected() {
    match compile("v16 = 1\r\n") {
        Err(CompileError::Parse(e)) => {
            assert_eq!(e.expected, Expected::AssignOrIncrement);
            let (tok, span) = e.found.expect("a token");
            assert!(matches!(tok, Token::Int8(6)));
            assert_eq!(span, Span { lo: 2, hi: 3 });
        }
        other => panic!("expected a syntax error, got {:?}", other),
    }
}

#[test]
fn forward_jump_is_unresolved() {
    match compile("goto end\r\nend:\r\n") {
        Err(CompileError::UnresolvedLabel { line, label }) => {
            assert_eq!(line, 1);
            assert_eq!(label, "end");
        }
        other => panic!("expected an unresolved label, got {:?}", other),
    }
}

#[test]
fn unresolved_label_reports_source_line() {
    match compile("clear\r\n\r\nx:\r\ngoto y\r\n") {
        Err(CompileError::UnresolvedLabel { line, label }) => {
            assert_eq!(line, 4);
            assert_eq!(label, "y");
        }
        other => panic!("expected an unresolved label, got {:?}", other),
    }
}

#[test]
fn output_is_two_bytes_per_instruction() {
    let out = bytes("a:\r\nclear\r\nb:\r\nv1 = 2\r\n\r\nv2 += 3\r\nc:\r\n");
    assert_eq!(out.len(), 6);
}

#[test]
fn clear_is_fixed_anywhere() {
    assert_eq!(bytes("v1 = 1\r\nclear\r\nclear\r\n"), vec![0x61, 0x01, 0x00, 0xE0, 0x00, 0xE0]);
}

#[test]
fn register_copy_encoding() {
    assert_eq!(bytes("v3 = vf\r\n"), vec![0x83, 0xF0]);
    assert_eq!(bytes("vf = v0\r\n"), vec![0x8F, 0x00]);
}

#[test]
fn load_and_add_encoding() {
    assert_eq!(bytes("va = 255\r\nv2 += 0x10\r\n"), vec![0x6A, 0xFF, 0x72, 0x10]);
}

#[test]
fn i_register_encodings() {
    assert_eq!(bytes("i = 0x123\r\n"), vec![0xD1, 0x23]);
    assert_eq!(bytes("i = 4095\r\n"), vec![0xDF, 0xFF]);
    assert_eq!(bytes("i = 65535\r\n"), vec![0xDF, 0xFF]);
    assert_eq!(bytes("i = 7\r\n"), vec![0xD0, 0x07]);
    assert_eq!(bytes("i = *v2\r\n"), vec![0xF2, 0x29]);
}

#[test]
fn draw_encoding() {
    assert_eq!(bytes("draw v1 v2 5\r\n"), vec![0xD1, 0x25]);
}

#[test]
fn label_does_not_take_a_slot() {
    // the label after two instructions names address 6
    assert_eq!(
        bytes("clear\r\nclear\r\nhere:\r\ngoto here\r\n"),
        vec![0x00, 0xE0, 0x00, 0xE0, 0x10, 0x04]
    );
}

#[test]
fn redeclared_label_takes_latest() {
    assert_eq!(
        bytes("a:\r\nclear\r\na:\r\ngoto a\r\n"),
        vec![0x00, 0xE0, 0x10, 0x02]
    );
}

#[test]
fn blank_lines_and_empty_source() {
    assert_eq!(bytes(""), Vec::<u8>::new());
    assert_eq!(bytes("\r\n\r\n"), Vec::<u8>::new());
    assert_eq!(bytes("  \t\r\nclear  \r\n"), vec![0x00, 0xE0]);
}

#[test]
fn missing_final_line_break() {
    match compile("clear") {
        Err(CompileError::Parse(e)) => {
            assert!(e.found.is_none());
            assert_eq!(e.expected, Expected::LineBreak);
        }
        other => panic!("expected a syntax error, got {:?}", other),
    }
}

#[test]
fn statement_cannot_start_with_symbol() {
    match compile("= 5\r\n") {
        Err(CompileError::Parse(e)) => {
            let (tok, span) = e.found.expect("a token");
            assert!(matches!(tok, Token::Assign));
            assert_eq!(e.expected, Expected::Statement);
            assert_eq!(span, Span { lo: 0, hi: 1 });
        }
        other => panic!("expected a syntax error, got {:?}", other),
    }
}

#[test]
fn register_needs_small_literal() {
    match compile("v1 = 300\r\n") {
        Err(CompileError::Parse(e)) => {
            let (tok, _) = e.found.expect("a token");
            assert!(matches!(tok, Token::Int16(300)));
            assert_eq!(e.expected, Expected::RegisterOrByte);
        }
        other => panic!("expected a syntax error, got {:?}", other),
    }
}

#[test]
fn invalid_character_is_lexical_error() {
    match compile("clear\r\nV1 = 2\r\n") {
        Err(CompileError::Lex(e)) => assert_eq!(e.span, Span { lo: 7, hi: 8 }),
        other => panic!("expected a lexical error, got {:?}", other),
    }
    match compile("clear\n") {
        Err(CompileError::Lex(e)) => assert_eq!(e.span, Span { lo: 5, hi: 6 }),
        other => panic!("expected a lexical error, got {:?}", other),
    }
}

#[test]
fn too_large_number_is_lexical_error() {
    match compile("i = 65536\r\n") {
        Err(CompileError::Lex(e)) => assert_eq!(e.span, Span { lo: 4, hi: 9 }),
        other => panic!("expected a lexical error, got {:?}", other),
    }
}

#[test]
fn too_many_instructions() {
    let src = "clear\r\n".repeat(32767);
    match compile(&src) {
        Err(CompileError::TooManyInstructions(n)) => assert_eq!(n, 32767),
        other => panic!("expected too many instructions, got {:?}", other.map(|b| b.len())),
    }
}

#[test]
fn labels_do_not_count_against_the_limit() {
    let mut src = "start:\r\n".repeat(2000);
    src.push_str(&"clear\r\n".repeat(32765));
    src.push_str("end:\r\ngoto end\r\n");
    let out = bytes(&src);
    assert_eq!(out.len(), 2 * 32766);
    // end names address 2 * 32765 + 2 = 0xFFFC
    assert_eq!(&out[out.len() - 2..], &[0x1F, 0xFA]);
}

#[test]
fn interp_reports_statement_position() {
    let program = Program {
        statements: vec![
            Expr { span: Span { lo: 0, hi: 5 }, node: Expr_::Clear },
            Expr { span: Span { lo: 7, hi: 13 }, node: Expr_::GotoLabel("nowhere".to_string()) },
        ],
    };
    let e = interp(&program).unwrap_err();
    assert_eq!(e.line, 2);
    assert_eq!(e.label, "nowhere");
}

#[test]
fn parse_builds_statements_with_spans() {
    let mut lexer = Lexer::new("start:\r\ndraw v1 v2 3\r\n");
    let tokens = lexer.tokenize().unwrap();
    let program = parse(&tokens).unwrap();
    assert_eq!(program.statements.len(), 2);
    match &program.statements[0].node {
        Expr_::DeclareLabel(id) => assert_eq!(id, "start"),
        other => panic!("{:?}", other),
    }
    assert_eq!(program.statements[0].span, Span { lo: 0, hi: 6 });
    assert!(matches!(program.statements[1].node, Expr_::DrawIRegister(1, 2, 3)));
    assert_eq!(program.statements[1].span, Span { lo: 8, hi: 20 });
}

#[test]
fn expected_after_partial_statements() {
    let cases: [(&str, Expected); 6] = [
        ("i 5\r\n", Expected::Assign),
        ("i = v1\r\n", Expected::NumberOrStar),
        ("i = * 3\r\n", Expected::Register),
        ("draw v1 5\r\n", Expected::Register),
        ("goto 5\r\n", Expected::Label),
        ("name = 1\r\n", Expected::Colon),
    ];
    for (src, want) in cases {
        match compile(src) {
            Err(CompileError::Parse(e)) => assert_eq!(e.expected, want, "{}", src),
            other => panic!("{}: expected a syntax error, got {:?}", src, other),
        }
    }
}
