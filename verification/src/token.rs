//! The lexical vocabulary the scanner produces and the parser consumes.

use vstd::prelude::*;

verus! {

/// The class of a lexeme: a run of decimal digits, one of the three
/// separators, a run of alphanumerics and hyphens that is not purely digits,
/// or the end-of-input marker.
#[derive(Clone, Copy, Debug, PartialEq, Eq, Structural)]
pub enum TokenKind {
    Digits,
    Dot,
    Hyphen,
    Plus,
    Identifier,
    EndOfInput,
}

/// One token: its class, the 0-based offset of its first character in the
/// scanned text, and the text it covers.
#[derive(Debug, Clone, PartialEq, Eq)]
pub struct Token {
    pub kind: TokenKind,
    pub position: usize,
    pub lexeme: Vec<char>,
}

/// The mathematical image of a token: the same data over `int` and `Seq`.
pub struct TokenView {
    pub kind: TokenKind,
    pub position: int,
    pub lexeme: Seq<char>,
}

impl View for Token {
    type V = TokenView;

    open spec fn view(&self) -> TokenView {
        TokenView { kind: self.kind, position: self.position as int, lexeme: self.lexeme@ }
    }
}

/// The image of a token sequence.
pub open spec fn tokens_view(ts: Seq<Token>) -> Seq<TokenView> {
    ts.map_values(|t: Token| t@)
}

} // verus!
