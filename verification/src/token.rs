//! Token kinds, spans, and the token type produced by the tokenizer.

use vstd::prelude::*;
use vstd::utf8::{encode_scalar, encode_utf8};

verus! {

/// The byte offset of character position `i` of `src`: the length of the
/// UTF-8 encoding of everything before it.
pub open spec fn byte_pos(src: Seq<char>, i: int) -> int
    recommends
        0 <= i <= src.len(),
{
    encode_utf8(src.subrange(0, i)).len() as int
}

/// UTF-8 encoding distributes over concatenation.
pub proof fn lemma_encode_utf8_concat(a: Seq<char>, b: Seq<char>)
    ensures
        encode_utf8(a + b) == encode_utf8(a) + encode_utf8(b),
    decreases a.len(),
{
    if a.len() == 0 {
        assert(a + b =~= b);
        assert(encode_utf8(a) + encode_utf8(b) =~= encode_utf8(b));
    } else {
        assert((a + b).drop_first() =~= a.drop_first() + b);
        assert((a + b)[0] == a[0]);
        lemma_encode_utf8_concat(a.drop_first(), b);
        assert(encode_scalar(a[0] as u32) + (encode_utf8(a.drop_first()) + encode_utf8(b)) =~= (
        encode_scalar(a[0] as u32) + encode_utf8(a.drop_first())) + encode_utf8(b));
    }
}

/// Byte offsets advance by the encoded length of the characters in between,
/// so they are monotone in the character position.
pub proof fn lemma_byte_pos_step(src: Seq<char>, i: int, e: int)
    requires
        0 <= i <= e <= src.len(),
    ensures
        byte_pos(src, e) == byte_pos(src, i) + encode_utf8(src.subrange(i, e)).len(),
        byte_pos(src, i) <= byte_pos(src, e),
{
    assert(src.subrange(0, e) =~= src.subrange(0, i) + src.subrange(i, e));
    lemma_encode_utf8_concat(src.subrange(0, i), src.subrange(i, e));
}

/// The start of the source is byte offset zero.
pub proof fn lemma_byte_pos_zero(src: Seq<char>)
    ensures
        byte_pos(src, 0) == 0,
{
    assert(src.subrange(0, 0) =~= Seq::<char>::empty());
    assert(encode_utf8(Seq::<char>::empty()) =~= Seq::<u8>::empty());
}

/// The closed set of lexical classes. Trivia (whitespace, comments) is
/// produced by the tokenizer but skipped by the parser.
#[derive(Debug, Copy, Clone, PartialEq, Eq, Structural)]
pub enum TokenKind {
    Whitespace,
    Comment,
    // Keywords
    Actor,
    Let,
    On,
    Print,
    Die,
    // Literals
    Ident,
    String,
    Int,
    Float,
    True,
    False,
    // Single character tokens
    LParen,
    RParen,
    LCurlyBrace,
    RCurlyBrace,
    Equals,
}

impl TokenKind {
    /// Whether this kind carries no grammatical meaning and is skipped by the
    /// parser.
    pub fn is_trivia(self) -> (r: bool)
        ensures
            r == self.spec_is_trivia(),
    {
        matches!(self, TokenKind::Whitespace | TokenKind::Comment)
    }

    pub open spec fn spec_is_trivia(self) -> bool {
        self is Whitespace || self is Comment
    }
}

/// A half-open range of byte offsets into the UTF-8 encoding of the source
/// string.
#[derive(Debug, Copy, Clone, PartialEq, Eq, Structural)]
pub struct Span {
    pub start: usize,
    pub end: usize,
}

/// One lexical token: its class, the exact matched substring, and where in
/// the source it was matched.
#[derive(Debug, PartialEq)]
pub struct Token {
    pub kind: TokenKind,
    pub text: String,
    pub span: Span,
}

impl Clone for Token {
    fn clone(&self) -> (r: Self)
        ensures
            r == *self,
    {
        Token { kind: self.kind, text: self.text.clone(), span: self.span }
    }
}

impl Token {
    /// The token matched the characters `[start, end)` of the source: its
    /// text is exactly that slice, and its span holds the byte offsets of
    /// those two character positions.
    pub open spec fn fits(self, src: Seq<char>, kind: TokenKind, start: int, end: int) -> bool {
        &&& self.kind == kind
        &&& 0 <= start <= end <= src.len()
        &&& self.span.start == byte_pos(src, start)
        &&& self.span.end == byte_pos(src, end)
        &&& self.text@ == src.subrange(start, end)
    }
}

} // verus!
