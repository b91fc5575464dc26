use vstd::prelude::*;

verus! {

/// The category of a token. The text a token carries (an identifier's name,
/// a number's digits, a string's content) is held by `Token::literal`.
#[derive(Clone, Copy, Debug, PartialEq, Eq, Structural)]
pub enum TokenKind {
    LeftParen,
    RightParen,
    LeftBrace,
    RightBrace,
    Comma,
    Semicolon,
    Colon,
    Plus,
    Minus,
    Star,
    Percent,
    Slash,
    EqualEqual,
    Equal,
    BangEqual,
    Bang,
    LessEqual,
    Less,
    GreaterEqual,
    Greater,
    AndAnd,
    OrOr,
    Let,
    Fn,
    If,
    Else,
    True,
    False,
    Return,
    Print,
    Identifier,
    Number,
    String,
    Eof,
}

/// A token with its position (1-based line and byte column) in the source.
///
/// `literal` is the identifier's name for `Identifier`, the decimal digits
/// for `Number`, the content between the quotes for `String`, and empty for
/// every other kind. `lexeme` is the source text the token was read from.
#[derive(Debug)]
pub struct Token {
    pub kind: TokenKind,
    pub literal: String,
    pub lexeme: String,
    pub line: usize,
    pub column: usize,
}

/// The mathematical content of a token.
pub struct TokenView {
    pub kind: TokenKind,
    pub literal: Seq<char>,
    pub lexeme: Seq<char>,
    pub line: int,
    pub column: int,
}

impl View for Token {
    type V = TokenView;

    open spec fn view(&self) -> TokenView {
        TokenView {
            kind: self.kind,
            literal: self.literal@,
            lexeme: self.lexeme@,
            line: self.line as int,
            column: self.column as int,
        }
    }
}

pub open spec fn tokens_view(tokens: Seq<Token>) -> Seq<TokenView> {
    tokens.map_values(|t: Token| t@)
}

impl Token {
    pub fn new(kind: TokenKind, literal: String, lexeme: String, line: usize, column: usize) -> (t: Token)
        ensures
            t.kind == kind,
            t.literal == literal,
            t.lexeme == lexeme,
            t.line == line,
            t.column == column,
    {
        Token { kind, literal, lexeme, line, column }
    }

    /// A copy of the token, field for field.
    pub fn duplicate(&self) -> (t: Token)
        ensures
            t == *self,
    {
        Token {
            kind: self.kind,
            literal: self.literal.clone(),
            lexeme: self.lexeme.clone(),
            line: self.line,
            column: self.column,
        }
    }
}

} // verus!
