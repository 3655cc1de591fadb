use actorlang::get_characters;
use actorlang::token::TokenKind;

#[test]
fn trivia_classification() {
    assert!(TokenKind::Whitespace.is_trivia());
    assert!(TokenKind::Comment.is_trivia());
    assert!(!TokenKind::Actor.is_trivia());
    assert!(!TokenKind::Ident.is_trivia());
    assert!(!TokenKind::String.is_trivia());
    assert!(!TokenKind::RCurlyBrace.is_trivia());
}

#[test]
fn get_characters_takes_a_middle_slice() {
    assert_eq!(get_characters("hello world", 6, 5), "world");
    assert_eq!(get_characters("hello", 0, 2), "he");
}

#[test]
fn get_characters_clamps_to_the_end() {
    assert_eq!(get_characters("abc", 1, 10), "bc");
    assert_eq!(get_characters("abc", 5, 2), "");
    assert_eq!(get_characters("abc", 0, 0), "");
}
