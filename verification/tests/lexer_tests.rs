use actorlang::lexer::{tokenize, LexError, Lexer};
use actorlang::token::TokenKind;

fn kinds(src: &str) -> Vec<TokenKind> {
    tokenize(src).unwrap().iter().map(|t| t.kind).collect()
}

#[test]
fn empty_source_yields_no_tokens() {
    assert_eq!(tokenize("").unwrap().len(), 0);
}

#[test]
fn whitespace_only_source_is_one_trivia_token() {
    let toks = tokenize(" \t\r\n ").unwrap();
    assert_eq!(toks.len(), 1);
    assert_eq!(toks[0].kind, TokenKind::Whitespace);
    assert!(toks[0].kind.is_trivia());
    assert_eq!(toks[0].text, " \t\r\n ");
}

#[test]
fn trivia_only_source_is_all_trivia_tokens() {
    let toks = tokenize("  // a comment\n\t").unwrap();
    assert!(toks.iter().all(|t| t.kind.is_trivia()));
    let expected = vec![TokenKind::Whitespace, TokenKind::Comment, TokenKind::Whitespace];
    let got: Vec<TokenKind> = toks.iter().map(|t| t.kind).collect();
    assert_eq!(got, expected);
}

#[test]
fn comment_runs_to_end_of_line() {
    let toks = tokenize("// rest } of line\nactor").unwrap();
    assert_eq!(toks[0].kind, TokenKind::Comment);
    assert_eq!(toks[0].text, "// rest } of line");
    assert_eq!(toks[1].kind, TokenKind::Whitespace);
    assert_eq!(toks[2].kind, TokenKind::Actor);
}

#[test]
fn keywords_are_not_identifiers() {
    assert_eq!(
        kinds("actor let on print die true false"),
        vec![
            TokenKind::Actor,
            TokenKind::Whitespace,
            TokenKind::Let,
            TokenKind::Whitespace,
            TokenKind::On,
            TokenKind::Whitespace,
            TokenKind::Print,
            TokenKind::Whitespace,
            TokenKind::Die,
            TokenKind::Whitespace,
            TokenKind::True,
            TokenKind::Whitespace,
            TokenKind::False,
        ]
    );
}

#[test]
fn longer_words_are_identifiers() {
    assert_eq!(kinds("actors"), vec![TokenKind::Ident]);
    assert_eq!(kinds("onx"), vec![TokenKind::Ident]);
    assert_eq!(kinds("_die"), vec![TokenKind::Ident]);
    assert_eq!(kinds("die1"), vec![TokenKind::Ident]);
}

#[test]
fn numbers_integer_and_float() {
    assert_eq!(kinds("123"), vec![TokenKind::Int]);
    assert_eq!(kinds("12.5"), vec![TokenKind::Float]);
    let toks = tokenize("12.5").unwrap();
    assert_eq!(toks[0].text, "12.5");
}

#[test]
fn integer_followed_by_bare_dot_is_a_lex_error() {
    // "12." matches the integer rule for "12"; no rule matches ".".
    assert_eq!(tokenize("12."), Err(LexError { pos: 2 }));
}

#[test]
fn punctuation_tokens() {
    assert_eq!(
        kinds("(){}="),
        vec![
            TokenKind::LParen,
            TokenKind::RParen,
            TokenKind::LCurlyBrace,
            TokenKind::RCurlyBrace,
            TokenKind::Equals,
        ]
    );
}

#[test]
fn string_token_keeps_raw_text_with_quotes() {
    let toks = tokenize("\"a\\nb\"").unwrap();
    assert_eq!(toks.len(), 1);
    assert_eq!(toks[0].kind, TokenKind::String);
    assert_eq!(toks[0].text, "\"a\\nb\"");
}

#[test]
fn unterminated_string_is_a_lex_error() {
    assert_eq!(tokenize("\"abc"), Err(LexError { pos: 0 }));
}

#[test]
fn unlexable_character_reports_its_position() {
    assert_eq!(tokenize("actor #"), Err(LexError { pos: 6 }));
}

#[test]
fn round_trip_concatenation_reconstructs_source() {
    let src = "actor hello {\n  on startup { // greet\n    print \"hi\"\n    die\n  }\n}";
    let toks = tokenize(src).unwrap();
    let rebuilt: String = toks.iter().map(|t| t.text.as_str()).collect::<Vec<_>>().concat();
    assert_eq!(rebuilt, src);
}

#[test]
fn spans_are_contiguous_and_cover_the_source() {
    let src = "on x { die } // end";
    let toks = tokenize(src).unwrap();
    let mut expected_start = 0;
    for t in &toks {
        assert_eq!(t.span.start, expected_start);
        assert!(t.span.end > t.span.start);
        expected_start = t.span.end;
    }
    assert_eq!(expected_start, src.len());
}

#[test]
fn spans_are_byte_offsets_on_multibyte_input() {
    // \u{e9} takes two bytes in UTF-8, so the string token spans 7 bytes
    // while matching 6 characters.
    let src = "\"caf\u{e9}\" x";
    let toks = tokenize(src).unwrap();
    assert_eq!(toks[0].kind, TokenKind::String);
    assert_eq!(toks[0].text, "\"caf\u{e9}\"");
    assert_eq!(toks[0].span.start, 0);
    assert_eq!(toks[0].span.end, 7);
    assert_eq!(toks[1].span.start, 7);
    assert_eq!(toks[1].span.end, 8);
    assert_eq!(toks[2].kind, TokenKind::Ident);
    assert_eq!(toks[2].span.start, 8);
    assert_eq!(toks[2].span.end, 9);
    let rebuilt: String = toks.iter().map(|t| t.text.as_str()).collect::<Vec<_>>().concat();
    assert_eq!(rebuilt, src);
}

#[test]
fn retokenizing_the_reconstruction_is_identical() {
    let src = "actor a { on b { print \"x\" die } } // done";
    let first = tokenize(src).unwrap();
    let rebuilt: String = first.iter().map(|t| t.text.as_str()).collect::<Vec<_>>().concat();
    let second = tokenize(&rebuilt).unwrap();
    assert_eq!(first, second);
}

#[test]
fn lexer_streams_tokens_one_by_one() {
    let mut lx = Lexer::new("on x");
    let t1 = lx.next().unwrap().unwrap();
    assert_eq!(t1.kind, TokenKind::On);
    assert_eq!(t1.text, "on");
    let t2 = lx.next().unwrap().unwrap();
    assert_eq!(t2.kind, TokenKind::Whitespace);
    let t3 = lx.next().unwrap().unwrap();
    assert_eq!(t3.kind, TokenKind::Ident);
    assert_eq!(t3.text, "x");
    assert!(lx.next().is_none());
}

#[test]
fn lexer_reports_error_and_stops_at_bad_input() {
    let mut lx = Lexer::new("ok %");
    assert!(lx.next().unwrap().is_ok());
    assert!(lx.next().unwrap().is_ok());
    assert_eq!(lx.next(), Some(Err(LexError { pos: 3 })));
    // The cursor does not advance past unlexable input.
    assert_eq!(lx.next(), Some(Err(LexError { pos: 3 })));
}
