use actorlang::ast::{Expr, Literal, Stmt};
use actorlang::lexer::tokenize;
use actorlang::parser::{ParseError, Parser};
use actorlang::token::{Token, TokenKind};

fn parse_source(src: &str) -> Result<Vec<Stmt>, ParseError> {
    let toks = tokenize(src).unwrap();
    Parser::new(&toks).parse()
}

#[test]
fn empty_token_sequence_is_an_empty_program() {
    assert_eq!(parse_source("").unwrap(), Vec::new());
}

#[test]
fn trivia_only_source_is_an_empty_program() {
    assert_eq!(parse_source("  // nothing here\n\t ").unwrap(), Vec::new());
}

#[test]
fn hello_world_parses_to_one_actor() {
    let prog = parse_source("actor hello { on startup { print \"Hello, World!\" die } }")
        .unwrap();
    assert_eq!(prog.len(), 1);
    match &prog[0] {
        Stmt::ActorDef { name, message_handlers } => {
            assert_eq!(name.kind, TokenKind::Ident);
            assert_eq!(name.text, "hello");
            assert_eq!(message_handlers.len(), 1);
            let h = &message_handlers[0];
            assert_eq!(h.on.kind, TokenKind::Ident);
            assert_eq!(h.on.text, "startup");
            assert_eq!(h.body.len(), 2);
            assert_eq!(
                h.body[0],
                Stmt::Print(Expr::Literal(Literal::String("Hello, World!".to_string())))
            );
            assert_eq!(h.body[1], Stmt::Die);
        },
        other => panic!("expected an actor definition, got {:?}", other),
    }
}

#[test]
fn die_before_print_is_accepted() {
    // No statement-ordering rule: die followed by print is syntactically legal.
    let prog = parse_source("actor hello { on startup { die print \"x\" } }").unwrap();
    assert_eq!(prog.len(), 1);
    match &prog[0] {
        Stmt::ActorDef { message_handlers, .. } => {
            let h = &message_handlers[0];
            assert_eq!(h.body.len(), 2);
            assert_eq!(h.body[0], Stmt::Die);
            assert_eq!(
                h.body[1],
                Stmt::Print(Expr::Literal(Literal::String("x".to_string())))
            );
        },
        other => panic!("expected an actor definition, got {:?}", other),
    }
}

#[test]
fn several_actors_and_handlers() {
    let prog = parse_source("actor a { on x { } on y { die } } actor b { }").unwrap();
    assert_eq!(prog.len(), 2);
    match &prog[0] {
        Stmt::ActorDef { name, message_handlers } => {
            assert_eq!(name.text, "a");
            assert_eq!(message_handlers.len(), 2);
            assert_eq!(message_handlers[0].on.text, "x");
            assert_eq!(message_handlers[0].body.len(), 0);
            assert_eq!(message_handlers[1].on.text, "y");
            assert_eq!(message_handlers[1].body, vec![Stmt::Die]);
        },
        other => panic!("expected an actor definition, got {:?}", other),
    }
}

#[test]
fn actor_without_name_is_expected_token_ident() {
    match parse_source("actor { }") {
        Err(ParseError::ExpectedToken { expected: TokenKind::Ident, found: Some(t) }) => {
            assert_eq!(t.kind, TokenKind::LCurlyBrace);
        },
        other => panic!("expected ExpectedToken(Ident), got {:?}", other),
    }
}

#[test]
fn missing_closing_brace_is_expected_token() {
    match parse_source("actor a { on b { die }") {
        Err(ParseError::ExpectedToken { expected: TokenKind::RCurlyBrace, found: None }) => {},
        other => panic!("expected ExpectedToken(RCurlyBrace), got {:?}", other),
    }
}

#[test]
fn top_level_non_actor_is_unexpected_token() {
    match parse_source("die") {
        Err(ParseError::UnexpectedToken(Some(t))) => assert_eq!(t.kind, TokenKind::Die),
        other => panic!("expected UnexpectedToken, got {:?}", other),
    }
}

#[test]
fn handler_body_hitting_end_of_input_is_unexpected_token() {
    match parse_source("actor a { on b {") {
        Err(ParseError::UnexpectedToken(None)) => {},
        other => panic!("expected UnexpectedToken(None), got {:?}", other),
    }
}

#[test]
fn print_without_expression_is_expected_expression() {
    match parse_source("actor a { on b { print") {
        Err(ParseError::ExpectedExpression) => {},
        other => panic!("expected ExpectedExpression, got {:?}", other),
    }
}

#[test]
fn print_of_non_string_is_unexpected_token() {
    match parse_source("actor a { on b { print 42 } }") {
        Err(ParseError::UnexpectedToken(Some(t))) => assert_eq!(t.kind, TokenKind::Int),
        other => panic!("expected UnexpectedToken, got {:?}", other),
    }
}

#[test]
fn escape_decoding_maps_the_fixed_table() {
    let p = Parser::new(&[]);
    assert_eq!(p.parse_string_literal("\"a\\nb\"").unwrap(), "a\nb");
    assert_eq!(p.parse_string_literal("\"\\r\\t\\\\\\\"\"").unwrap(), "\r\t\\\"");
    assert_eq!(p.parse_string_literal("\"plain\"").unwrap(), "plain");
}

#[test]
fn unknown_escape_is_invalid_escape_sequence() {
    let p = Parser::new(&[]);
    assert_eq!(
        p.parse_string_literal("\"\\q\""),
        Err(ParseError::InvalidEscapeSequence(Some('q')))
    );
}

#[test]
fn escape_at_end_of_text_is_invalid_escape_sequence() {
    let p = Parser::new(&[]);
    assert_eq!(p.parse_string_literal("\"a\\"), Err(ParseError::InvalidEscapeSequence(None)));
}

#[test]
fn text_without_opening_quote_is_invalid_string_literal() {
    let p = Parser::new(&[]);
    assert_eq!(p.parse_string_literal("abc"), Err(ParseError::InvalidStringLiteral));
}

#[test]
fn text_after_closing_quote_is_invalid_string_literal() {
    let p = Parser::new(&[]);
    assert_eq!(p.parse_string_literal("\"ab\"x"), Err(ParseError::InvalidStringLiteral));
}

#[test]
fn escaped_quote_inside_string_decodes_via_the_parser() {
    // The tokenizer ends the string at the first quote; the backslash before
    // it is decoded by the parser only when the raw text supports it.
    let p = Parser::new(&[]);
    assert_eq!(p.parse_string_literal("\"say \\\"hi\\\"\"").unwrap(), "say \"hi\"");
}

#[test]
fn parse_error_carries_the_offending_token() {
    let toks: Vec<Token> = tokenize("actor a { on b { let } }").unwrap();
    match Parser::new(&toks).parse() {
        Err(ParseError::UnexpectedToken(Some(t))) => {
            assert_eq!(t.kind, TokenKind::Let);
            assert_eq!(t.span.start, 17);
            assert_eq!(t.span.end, 20);
        },
        other => panic!("expected UnexpectedToken, got {:?}", other),
    }
}

#[test]
fn boolean_literals_are_recognized_but_never_parsed() {
    // True/False are lexical classes only: no grammar rule builds a literal
    // from them, so an expression position rejects them.
    match parse_source("actor a { on b { print true } }") {
        Err(ParseError::UnexpectedToken(Some(t))) => assert_eq!(t.kind, TokenKind::True),
        other => panic!("expected UnexpectedToken, got {:?}", other),
    }
}
