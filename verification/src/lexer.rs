use vstd::prelude::*;

use vstd::string::StringSliceAdditionalSpecFns;

use crate::text::{lemma_after_ascii, lemma_decode_nonempty, lemma_decode_wrapped, lemma_slice_valid, push_char, text_from_bytes};
use vstd::utf8::{decode_utf8, valid_utf8};
use crate::token::{tokens_view, Token, TokenKind, TokenView};

verus! {

/// A lexical error, at the line and byte column where the offending token starts.
#[derive(Debug)]
pub struct LexError {
    pub message: String,
    pub line: usize,
    pub column: usize,
}

pub struct LexErrorView {
    pub message: Seq<char>,
    pub line: int,
    pub column: int,
}

impl View for LexError {
    type V = LexErrorView;

    open spec fn view(&self) -> LexErrorView {
        LexErrorView { message: self.message@, line: self.line as int, column: self.column as int }
    }
}

/// A position in the source: byte offset, 1-based line, 1-based byte column.
pub struct Cursor {
    pub current: int,
    pub line: int,
    pub column: int,
}

pub open spec fn start_cursor() -> Cursor {
    Cursor { current: 0, line: 1, column: 1 }
}

/// The byte at `i`, or 0 past the end of the source.
pub open spec fn byte_at(src: Seq<u8>, i: int) -> u8 {
    if 0 <= i < src.len() {
        src[i]
    } else {
        0
    }
}

/// Moving over one byte: a newline starts a new line at column 1.
pub open spec fn step(src: Seq<u8>, c: Cursor) -> Cursor {
    if byte_at(src, c.current) == 10u8 {
        Cursor { current: c.current + 1, line: c.line + 1, column: 1 }
    } else {
        Cursor { current: c.current + 1, line: c.line, column: c.column + 1 }
    }
}

/// Moving over every byte from `c.current` up to `end`.
pub open spec fn step_to(src: Seq<u8>, c: Cursor, end: int) -> Cursor
    decreases end - c.current,
{
    if c.current < end {
        step_to(src, step(src, c), end)
    } else {
        c
    }
}

pub open spec fn is_digit(b: u8) -> bool {
    48 <= b <= 57
}

pub open spec fn is_alpha(b: u8) -> bool {
    (97 <= b <= 122) || (65 <= b <= 90) || b == 95u8
}

pub open spec fn is_ident_byte(b: u8) -> bool {
    is_alpha(b) || is_digit(b)
}

pub open spec fn is_space(b: u8) -> bool {
    b == 32u8 || b == 13u8 || b == 9u8 || b == 10u8
}

/// The end of the run of whitespace and `//` comments that starts at `i`;
/// `in_comment` says that `i` lies inside a comment.
pub open spec fn blank_end(src: Seq<u8>, i: int, in_comment: bool) -> int
    decreases src.len() - i,
{
    if i < 0 || i >= src.len() {
        i
    } else if in_comment {
        blank_end(src, i + 1, src[i] != 10u8)
    } else if is_space(src[i]) {
        blank_end(src, i + 1, false)
    } else if src[i] == 47u8 && byte_at(src, i + 1) == 47u8 {
        blank_end(src, i + 2, true)
    } else {
        i
    }
}

/// The end of the run of bytes from `i` on that satisfy `is_ident_byte`.
pub open spec fn ident_end(src: Seq<u8>, i: int) -> int
    decreases src.len() - i,
{
    if 0 <= i < src.len() && is_ident_byte(src[i]) {
        ident_end(src, i + 1)
    } else {
        i
    }
}

/// The end of the run of decimal digits from `i` on.
pub open spec fn digits_end(src: Seq<u8>, i: int) -> int
    decreases src.len() - i,
{
    if 0 <= i < src.len() && is_digit(src[i]) {
        digits_end(src, i + 1)
    } else {
        i
    }
}

/// The first `"` at or after `i`, or the end of the source.
pub open spec fn quote_end(src: Seq<u8>, i: int) -> int
    decreases src.len() - i,
{
    if 0 <= i < src.len() && src[i] != 34u8 {
        quote_end(src, i + 1)
    } else {
        i
    }
}

/// The end of a number literal whose first digit is at `i`: digits, then
/// optionally a `.` followed by at least one digit and the digits after it.
pub open spec fn number_end(src: Seq<u8>, i: int) -> int {
    let e = digits_end(src, i + 1);
    if byte_at(src, e) == 46u8 && is_digit(byte_at(src, e + 1)) {
        digits_end(src, e + 1)
    } else {
        e
    }
}

/// The kind of a word: a keyword's own kind, or `Identifier`.
pub open spec fn keyword_kind(w: Seq<u8>) -> TokenKind {
    if w =~= seq![108u8, 101u8, 116u8] {
        TokenKind::Let
    } else if w =~= seq![102u8, 110u8] {
        TokenKind::Fn
    } else if w =~= seq![105u8, 102u8] {
        TokenKind::If
    } else if w =~= seq![101u8, 108u8, 115u8, 101u8] {
        TokenKind::Else
    } else if w =~= seq![116u8, 114u8, 117u8, 101u8] {
        TokenKind::True
    } else if w =~= seq![102u8, 97u8, 108u8, 115u8, 101u8] {
        TokenKind::False
    } else if w =~= seq![114u8, 101u8, 116u8, 117u8, 114u8, 110u8] {
        TokenKind::Return
    } else if w =~= seq![112u8, 114u8, 105u8, 110u8, 116u8] {
        TokenKind::Print
    } else {
        TokenKind::Identifier
    }
}

/// The kind of a one-byte punctuation token, if `b` is one.
pub open spec fn single_kind(b: u8) -> Option<TokenKind> {
    if b == 40u8 {
        Some(TokenKind::LeftParen)
    } else if b == 41u8 {
        Some(TokenKind::RightParen)
    } else if b == 123u8 {
        Some(TokenKind::LeftBrace)
    } else if b == 125u8 {
        Some(TokenKind::RightBrace)
    } else if b == 44u8 {
        Some(TokenKind::Comma)
    } else if b == 59u8 {
        Some(TokenKind::Semicolon)
    } else if b == 58u8 {
        Some(TokenKind::Colon)
    } else if b == 43u8 {
        Some(TokenKind::Plus)
    } else if b == 45u8 {
        Some(TokenKind::Minus)
    } else if b == 42u8 {
        Some(TokenKind::Star)
    } else if b == 37u8 {
        Some(TokenKind::Percent)
    } else if b == 47u8 {
        Some(TokenKind::Slash)
    } else {
        None
    }
}

/// For `=`, `!`, `<`, `>`: the kind when followed by `=`, and the kind alone.
pub open spec fn pair_kinds(b: u8) -> Option<(TokenKind, TokenKind)> {
    if b == 61u8 {
        Some((TokenKind::EqualEqual, TokenKind::Equal))
    } else if b == 33u8 {
        Some((TokenKind::BangEqual, TokenKind::Bang))
    } else if b == 60u8 {
        Some((TokenKind::LessEqual, TokenKind::Less))
    } else if b == 62u8 {
        Some((TokenKind::GreaterEqual, TokenKind::Greater))
    } else {
        None
    }
}

/// `&&` and `||`: the kind of the doubled byte.
pub open spec fn doubled_kind(b: u8) -> Option<TokenKind> {
    if b == 38u8 {
        Some(TokenKind::AndAnd)
    } else if b == 124u8 {
        Some(TokenKind::OrOr)
    } else {
        None
    }
}

/// A token without literal text, spanning the bytes `start..end`.
pub open spec fn plain_token(src: Seq<u8>, kind: TokenKind, s: Cursor, end: int) -> TokenView {
    TokenView {
        kind,
        literal: Seq::empty(),
        lexeme: decode_utf8(src.subrange(s.current, end)),
        line: s.line,
        column: s.column,
    }
}

pub open spec fn eof_token(c: Cursor) -> TokenView {
    TokenView { kind: TokenKind::Eof, literal: Seq::empty(), lexeme: Seq::empty(), line: c.line, column: c.column }
}

pub open spec fn unexpected_message(b: u8) -> Seq<char> {
    "unexpected character '"@ + seq![b as char] + "'."@
}

/// The token that starts at `s` (which holds a byte that is not blank), and
/// the cursor just after it.
pub open spec fn next_token(src: Seq<u8>, s: Cursor) -> Result<(TokenView, Cursor), LexErrorView> {
    let i = s.current;
    let b = byte_at(src, i);
    if let Some(k) = single_kind(b) {
        Ok((plain_token(src, k, s, i + 1), step_to(src, s, i + 1)))
    } else if let Some((k2, k1)) = pair_kinds(b) {
        if byte_at(src, i + 1) == 61u8 {
            Ok((plain_token(src, k2, s, i + 2), step_to(src, s, i + 2)))
        } else {
            Ok((plain_token(src, k1, s, i + 1), step_to(src, s, i + 1)))
        }
    } else if doubled_kind(b) is Some && byte_at(src, i + 1) == b {
        Ok((plain_token(src, doubled_kind(b)->0, s, i + 2), step_to(src, s, i + 2)))
    } else if b == 34u8 {
        let e = quote_end(src, i + 1);
        if e >= src.len() {
            Err(LexErrorView { message: "unterminated string literal."@, line: s.line, column: s.column })
        } else {
            Ok((
                TokenView {
                    kind: TokenKind::String,
                    literal: decode_utf8(src.subrange(i + 1, e)),
                    lexeme: decode_utf8(src.subrange(i, e + 1)),
                    line: s.line,
                    column: s.column,
                },
                step_to(src, s, e + 1),
            ))
        }
    } else if is_digit(b) {
        let e = number_end(src, i);
        let text = decode_utf8(src.subrange(i, e));
        Ok((TokenView { kind: TokenKind::Number, literal: text, lexeme: text, line: s.line, column: s.column }, step_to(src, s, e)))
    } else if is_alpha(b) {
        let e = ident_end(src, i + 1);
        let text = decode_utf8(src.subrange(i, e));
        let kind = keyword_kind(src.subrange(i, e));
        Ok((
            TokenView {
                kind,
                literal: if kind == TokenKind::Identifier { text } else { Seq::empty() },
                lexeme: text,
                line: s.line,
                column: s.column,
            },
            step_to(src, s, e),
        ))
    } else {
        Err(LexErrorView { message: unexpected_message(b), line: s.line, column: s.column })
    }
}

pub open spec fn prepend(
    ts: Seq<TokenView>,
    r: Result<Seq<TokenView>, LexErrorView>,
) -> Result<Seq<TokenView>, LexErrorView> {
    match r {
        Ok(rest) => Ok(ts + rest),
        Err(e) => Err(e),
    }
}

/// The tokens of the source from cursor `c` on: blanks are skipped before
/// each token, and an `Eof` token at the final position closes the list.
pub open spec fn scan_tokens(src: Seq<u8>, c: Cursor) -> Result<Seq<TokenView>, LexErrorView>
    decreases src.len() - c.current,
{
    if c.current >= src.len() {
        Ok(seq![eof_token(c)])
    } else {
        let s = step_to(src, c, blank_end(src, c.current, false));
        if s.current >= src.len() {
            Ok(seq![eof_token(s)])
        } else {
            match next_token(src, s) {
                Err(e) => Err(e),
                Ok((t, u)) => if c.current < u.current <= src.len() {
                    prepend(seq![t], scan_tokens(src, u))
                } else {
                    Err(LexErrorView { message: Seq::empty(), line: 0, column: 0 })
                },
            }
        }
    }
}

/// The result of lexing the whole source.
pub open spec fn lex(src: Seq<u8>) -> Result<Seq<TokenView>, LexErrorView> {
    scan_tokens(src, start_cursor())
}

pub open spec fn lex_result_view(r: Result<Vec<Token>, LexError>) -> Result<Seq<TokenView>, LexErrorView> {
    match r {
        Ok(v) => Ok(tokens_view(v@)),
        Err(e) => Err(e@),
    }
}

proof fn lemma_step_to_snoc(src: Seq<u8>, c: Cursor, j: int)
    requires
        c.current <= j,
    ensures
        step_to(src, c, j + 1) == step(src, step_to(src, c, j)),
    decreases j - c.current,
{
    if c.current < j {
        lemma_step_to_snoc(src, step(src, c), j);
    } else {
        assert(step_to(src, step(src, c), j + 1) == step(src, c));
    }
}

proof fn lemma_step_to_current(src: Seq<u8>, c: Cursor, j: int)
    requires
        c.current <= j,
    ensures
        step_to(src, c, j).current == j,
    decreases j - c.current,
{
    if c.current < j {
        lemma_step_to_current(src, step(src, c), j);
    }
}

proof fn lemma_step_to_trans(src: Seq<u8>, c: Cursor, j: int, k: int)
    requires
        c.current <= j <= k,
    ensures
        step_to(src, step_to(src, c, j), k) == step_to(src, c, k),
    decreases j - c.current,
{
    if c.current < j {
        lemma_step_to_trans(src, step(src, c), j, k);
    } else {
    }
}

pub struct Lexer<'a> {
    source: &'a [u8],
    current: usize,
    line: usize,
    column: usize,
}

impl<'a> Lexer<'a> {
    pub closed spec fn source_bytes(&self) -> Seq<u8> {
        self.source@
    }

    pub closed spec fn cursor(&self) -> Cursor {
        Cursor { current: self.current as int, line: self.line as int, column: self.column as int }
    }

    pub closed spec fn wf(&self) -> bool {
        &&& valid_utf8(self.source@)
        &&& self.current <= self.source@.len()
        &&& self.source@.len() < usize::MAX
        &&& 1 <= self.line <= self.current + 1
        &&& 1 <= self.column <= self.current + 1
    }

    /// A lexer at the start of `source`, reading its UTF-8 bytes.
    pub fn new(source: &'a str) -> (lexer: Self)
        requires
            source.spec_bytes().len() < usize::MAX,
        ensures
            lexer.wf(),
            lexer.source_bytes() == source.spec_bytes(),
            lexer.cursor() == start_cursor(),
    {
        proof {
            vstd::utf8::encode_utf8_valid_utf8(source@);
        }
        Lexer { source: source.as_bytes(), current: 0, line: 1, column: 1 }
    }

    /// All tokens of the source, the last one `Eof`, or the first lexical error.
    pub fn tokenize(self) -> (r: Result<Vec<Token>, LexError>)
        requires
            self.wf(),
        ensures
            lex_result_view(r) == scan_tokens(self.source_bytes(), self.cursor()),
    {
        let ghost src = self.source_bytes();
        let ghost c0 = self.cursor();
        let mut lexer = self;
        let mut tokens: Vec<Token> = Vec::new();
        let mut failure: Option<LexError> = None;
        assert(tokens_view(tokens@) =~= Seq::<TokenView>::empty());
        loop
            invariant_except_break
                failure is None,
                scan_tokens(src, c0) == prepend(tokens_view(tokens@), scan_tokens(src, lexer.cursor())),
            invariant
                lexer.wf(),
                lexer.source@ == src,
            ensures
                failure matches Some(e) ==> scan_tokens(src, c0) == Err::<Seq<TokenView>, LexErrorView>(e@),
                failure is None ==> scan_tokens(src, c0) == prepend(
                    tokens_view(tokens@),
                    Ok(seq![eof_token(lexer.cursor())]),
                ),
            decreases src.len() - lexer.current,
        {
            if lexer.is_at_end() {
                break;
            }
            let ghost before = lexer.cursor();
            lexer.skip_whitespace_and_comments();
            if lexer.is_at_end() {
                break;
            }
            match lexer.next_token() {
                Ok(token) => {
                    let ghost prev = tokens_view(tokens@);
                    tokens.push(token);
                    proof {
                        assert(tokens_view(tokens@) =~= prev + seq![token@]);
                        let r = scan_tokens(src, lexer.cursor());
                        match r {
                            Ok(rest) => {
                                assert(prev + (seq![token@] + rest) =~= prev + seq![token@] + rest);
                            },
                            Err(_) => {},
                        }
                    }
                },
                Err(error) => {
                    proof {
                        assert(scan_tokens(src, before) == Err::<Seq<TokenView>, LexErrorView>(error@));
                    }
                    failure = Some(error);
                    break;
                },
            }
        }
        if let Some(error) = failure {
            return Err(error);
        }
        let eof = Token::new(TokenKind::Eof, String::new(), String::new(), lexer.line, lexer.column);
        let ghost prev = tokens_view(tokens@);
        tokens.push(eof);
        proof {
            assert(tokens_view(tokens@) =~= prev + seq![eof@]);
            assert(eof@ == eof_token(lexer.cursor()));
        }
        Ok(tokens)
    }

    fn next_token(&mut self) -> (r: Result<Token, LexError>)
        requires
            old(self).wf(),
            old(self).current < old(self).source@.len(),
        ensures
            final(self).wf(),
            final(self).source@ == old(self).source@,
            match next_token(old(self).source@, old(self).cursor()) {
                Ok((t, u)) => r matches Ok(token) && token@ == t && final(self).cursor() == u
                    && old(self).current < final(self).current,
                Err(e) => r matches Err(err) && err@ == e,
            },
    {
        let ghost src = self.source@;
        let ghost s = self.cursor();
        let line = self.line;
        let column = self.column;
        let start = self.current;
        let byte = self.advance();
        proof {
            assert(step_to(src, step(src, s), s.current + 1) == step(src, s));
            assert(step_to(src, s, s.current + 1) == step(src, s));
        }
        let kind = if byte == 40u8 {
            TokenKind::LeftParen
        } else if byte == 41u8 {
            TokenKind::RightParen
        } else if byte == 123u8 {
            TokenKind::LeftBrace
        } else if byte == 125u8 {
            TokenKind::RightBrace
        } else if byte == 44u8 {
            TokenKind::Comma
        } else if byte == 59u8 {
            TokenKind::Semicolon
        } else if byte == 58u8 {
            TokenKind::Colon
        } else if byte == 43u8 {
            TokenKind::Plus
        } else if byte == 45u8 {
            TokenKind::Minus
        } else if byte == 42u8 {
            TokenKind::Star
        } else if byte == 37u8 {
            TokenKind::Percent
        } else if byte == 47u8 {
            TokenKind::Slash
        } else if byte == 61u8 {
            if self.match_byte(61u8) {
                TokenKind::EqualEqual
            } else {
                TokenKind::Equal
            }
        } else if byte == 33u8 {
            if self.match_byte(61u8) {
                TokenKind::BangEqual
            } else {
                TokenKind::Bang
            }
        } else if byte == 60u8 {
            if self.match_byte(61u8) {
                TokenKind::LessEqual
            } else {
                TokenKind::Less
            }
        } else if byte == 62u8 {
            if self.match_byte(61u8) {
                TokenKind::GreaterEqual
            } else {
                TokenKind::Greater
            }
        } else if byte == 38u8 && self.match_byte(38u8) {
            TokenKind::AndAnd
        } else if byte == 124u8 && self.match_byte(124u8) {
            TokenKind::OrOr
        } else if byte == 34u8 {
            return self.string_token(start, line, column);
        } else if byte >= 48u8 && byte <= 57u8 {
            return Ok(self.number_token(start, line, column));
        } else if (byte >= 97u8 && byte <= 122u8) || (byte >= 65u8 && byte <= 90u8) || byte == 95u8 {
            return Ok(self.identifier_token(start, line, column));
        } else {
            let mut message = String::from_str("unexpected character '");
            push_char(&mut message, byte as char);
            message.append("'.");
            proof {
                assert(message@ =~= unexpected_message(byte));
            }
            return Err(LexError { message, line, column });
        };
        proof {
            lemma_step_to_snoc(src, s, s.current + 1);
            assert(src[start as int] < 128);
            assert(src[self.current - 1] < 128);
            lemma_after_ascii(src, self.current - 1);
            lemma_slice_valid(src, start as int, self.current as int);
        }
        let lexeme = text_from_bytes(&self.source[start..self.current]);
        Ok(Token::new(kind, String::new(), lexeme, line, column))
    }

    fn identifier_token(&mut self, start: usize, line: usize, column: usize) -> (t: Token)
        requires
            old(self).wf(),
            start + 1 == old(self).current,
            start < old(self).source@.len(),
            is_alpha(old(self).source@[start as int]),
            ({
                let s = Cursor { current: start as int, line: line as int, column: column as int };
                old(self).cursor() == step_to(old(self).source@, s, start + 1)
            }),
        ensures
            final(self).wf(),
            final(self).source@ == old(self).source@,
            final(self).current > start,
            ({
                let s = Cursor { current: start as int, line: line as int, column: column as int };
                next_token(old(self).source@, s) == Ok::<(TokenView, Cursor), LexErrorView>((t@, final(self).cursor()))
            }),
    {
        let ghost src = self.source@;
        let ghost s = Cursor { current: start as int, line: line as int, column: column as int };
        while self.is_ident_continue()
            invariant
                self.wf(),
                self.source@ == src,
                start < self.current,
                src[self.current - 1] < 128,
                ident_end(src, start + 1) == ident_end(src, self.current as int),
                self.cursor() == step_to(src, s, self.current as int),
            decreases src.len() - self.current,
        {
            let ghost cur = self.current as int;
            self.advance();
            proof {
                lemma_step_to_snoc(src, s, cur);
            }
        }
        proof {
            lemma_after_ascii(src, self.current - 1);
            lemma_slice_valid(src, start as int, self.current as int);
        }
        let lexeme = text_from_bytes(&self.source[start..self.current]);
        let kind = self.keyword_kind(start);
        let literal = if kind == TokenKind::Identifier {
            lexeme.clone()
        } else {
            String::new()
        };
        Token::new(kind, literal, lexeme, line, column)
    }

    /// Whether the byte at the cursor continues an identifier.
    fn is_ident_continue(&self) -> (b: bool)
        requires
            self.wf(),
        ensures
            b == (self.current < self.source@.len() && is_ident_byte(self.source@[self.current as int])),
    {
        let p = self.peek();
        (p >= 97u8 && p <= 122u8) || (p >= 65u8 && p <= 90u8) || p == 95u8 || (p >= 48u8 && p <= 57u8)
    }

    /// The kind of the word that runs from `start` to the cursor.
    fn keyword_kind(&self, start: usize) -> (k: TokenKind)
        requires
            self.wf(),
            start <= self.current,
        ensures
            k == keyword_kind(self.source@.subrange(start as int, self.current as int)),
    {
        let ghost w = self.source@.subrange(start as int, self.current as int);
        let s = self.source;
        let n = self.current - start;
        if n == 3 && s[start] == 108u8 && s[start + 1] == 101u8 && s[start + 2] == 116u8 {
            assert(w =~= seq![108u8, 101u8, 116u8]);
            TokenKind::Let
        } else if n == 2 && s[start] == 102u8 && s[start + 1] == 110u8 {
            assert(w =~= seq![102u8, 110u8]);
            TokenKind::Fn
        } else if n == 2 && s[start] == 105u8 && s[start + 1] == 102u8 {
            assert(w =~= seq![105u8, 102u8]);
            TokenKind::If
        } else if n == 4 && s[start] == 101u8 && s[start + 1] == 108u8 && s[start + 2] == 115u8 && s[start + 3] == 101u8 {
            assert(w =~= seq![101u8, 108u8, 115u8, 101u8]);
            TokenKind::Else
        } else if n == 4 && s[start] == 116u8 && s[start + 1] == 114u8 && s[start + 2] == 117u8 && s[start + 3] == 101u8 {
            assert(w =~= seq![116u8, 114u8, 117u8, 101u8]);
            TokenKind::True
        } else if n == 5 && s[start] == 102u8 && s[start + 1] == 97u8 && s[start + 2] == 108u8 && s[start + 3] == 115u8
            && s[start + 4] == 101u8 {
            assert(w =~= seq![102u8, 97u8, 108u8, 115u8, 101u8]);
            TokenKind::False
        } else if n == 6 && s[start] == 114u8 && s[start + 1] == 101u8 && s[start + 2] == 116u8 && s[start + 3] == 117u8
            && s[start + 4] == 114u8 && s[start + 5] == 110u8 {
            assert(w =~= seq![114u8, 101u8, 116u8, 117u8, 114u8, 110u8]);
            TokenKind::Return
        } else if n == 5 && s[start] == 112u8 && s[start + 1] == 114u8 && s[start + 2] == 105u8 && s[start + 3] == 110u8
            && s[start + 4] == 116u8 {
            assert(w =~= seq![112u8, 114u8, 105u8, 110u8, 116u8]);
            TokenKind::Print
        } else {
            proof {
                if w =~= seq![108u8, 101u8, 116u8] { assert(w[0] == 108u8 && w[1] == 101u8 && w[2] == 116u8); }
                if w =~= seq![102u8, 110u8] { assert(w[0] == 102u8 && w[1] == 110u8); }
                if w =~= seq![105u8, 102u8] { assert(w[0] == 105u8 && w[1] == 102u8); }
                if w =~= seq![101u8, 108u8, 115u8, 101u8] { assert(w[0] == 101u8 && w[3] == 101u8); }
                if w =~= seq![116u8, 114u8, 117u8, 101u8] { assert(w[0] == 116u8 && w[3] == 101u8); }
                if w =~= seq![102u8, 97u8, 108u8, 115u8, 101u8] { assert(w[0] == 102u8 && w[4] == 101u8); }
                if w =~= seq![114u8, 101u8, 116u8, 117u8, 114u8, 110u8] { assert(w[0] == 114u8 && w[5] == 110u8); }
                if w =~= seq![112u8, 114u8, 105u8, 110u8, 116u8] { assert(w[0] == 112u8 && w[4] == 116u8); }
            }
            TokenKind::Identifier
        }
    }

    fn number_token(&mut self, start: usize, line: usize, column: usize) -> (t: Token)
        requires
            old(self).wf(),
            start + 1 == old(self).current,
            start < old(self).source@.len(),
            is_digit(old(self).source@[start as int]),
            ({
                let s = Cursor { current: start as int, line: line as int, column: column as int };
                old(self).cursor() == step_to(old(self).source@, s, start + 1)
            }),
        ensures
            final(self).wf(),
            final(self).source@ == old(self).source@,
            final(self).current > start,
            ({
                let s = Cursor { current: start as int, line: line as int, column: column as int };
                next_token(old(self).source@, s) == Ok::<(TokenView, Cursor), LexErrorView>((t@, final(self).cursor()))
            }),
    {
        let ghost src = self.source@;
        let ghost s = Cursor { current: start as int, line: line as int, column: column as int };
        while self.is_digit_here()
            invariant
                self.wf(),
                self.source@ == src,
                start < self.current,
                src[self.current - 1] < 128,
                digits_end(src, start + 1) == digits_end(src, self.current as int),
                self.cursor() == step_to(src, s, self.current as int),
            decreases src.len() - self.current,
        {
            let ghost cur = self.current as int;
            self.advance();
            proof {
                lemma_step_to_snoc(src, s, cur);
            }
        }
        let next = self.peek_next();
        if self.peek() == 46u8 && next >= 48u8 && next <= 57u8 {
            let ghost cur = self.current as int;
            self.advance();
            proof {
                lemma_step_to_snoc(src, s, cur);
            }
            while self.is_digit_here()
                invariant
                    self.wf(),
                    self.source@ == src,
                    start < self.current,
                    src[self.current - 1] < 128,
                    digits_end(src, cur + 1) == digits_end(src, self.current as int),
                    self.cursor() == step_to(src, s, self.current as int),
                decreases src.len() - self.current,
            {
                let ghost c2 = self.current as int;
                self.advance();
                proof {
                    lemma_step_to_snoc(src, s, c2);
                }
            }
        }
        proof {
            lemma_after_ascii(src, self.current - 1);
            lemma_slice_valid(src, start as int, self.current as int);
        }
        let lexeme = text_from_bytes(&self.source[start..self.current]);
        let literal = lexeme.clone();
        Token::new(TokenKind::Number, literal, lexeme, line, column)
    }

    /// Whether the byte at the cursor is a decimal digit.
    fn is_digit_here(&self) -> (b: bool)
        requires
            self.wf(),
        ensures
            b == (self.current < self.source@.len() && is_digit(self.source@[self.current as int])),
    {
        let p = self.peek();
        p >= 48u8 && p <= 57u8
    }

    fn string_token(&mut self, start: usize, line: usize, column: usize) -> (r: Result<Token, LexError>)
        requires
            old(self).wf(),
            start + 1 == old(self).current,
            start < old(self).source@.len(),
            old(self).source@[start as int] == 34u8,
            ({
                let s = Cursor { current: start as int, line: line as int, column: column as int };
                old(self).cursor() == step_to(old(self).source@, s, start + 1)
            }),
        ensures
            final(self).wf(),
            final(self).source@ == old(self).source@,
            ({
                let s = Cursor { current: start as int, line: line as int, column: column as int };
                match next_token(old(self).source@, s) {
                    Ok((t, u)) => r matches Ok(token) && token@ == t && final(self).cursor() == u
                        && final(self).current > start,
                    Err(e) => r matches Err(err) && err@ == e,
                }
            }),
    {
        let ghost src = self.source@;
        let ghost s = Cursor { current: start as int, line: line as int, column: column as int };
        let content_start = self.current;
        while !self.is_at_end() && self.peek() != 34u8
            invariant
                self.wf(),
                self.source@ == src,
                content_start <= self.current,
                content_start == start + 1,
                quote_end(src, start + 1) == quote_end(src, self.current as int),
                self.cursor() == step_to(src, s, self.current as int),
            decreases src.len() - self.current,
        {
            let ghost cur = self.current as int;
            self.advance();
            proof {
                lemma_step_to_snoc(src, s, cur);
            }
        }
        if self.is_at_end() {
            return Err(LexError { message: String::from_str("unterminated string literal."), line, column });
        }
        proof {
            lemma_after_ascii(src, start as int);
            lemma_slice_valid(src, content_start as int, self.current as int);
        }
        let content = text_from_bytes(&self.source[content_start..self.current]);
        let ghost cur = self.current as int;
        self.advance();
        proof {
            lemma_step_to_snoc(src, s, cur);
        }
        proof {
            lemma_after_ascii(src, self.current - 1);
            lemma_slice_valid(src, start as int, self.current as int);
        }
        let lexeme = text_from_bytes(&self.source[start..self.current]);
        Ok(Token::new(TokenKind::String, content, lexeme, line, column))
    }

    fn skip_whitespace_and_comments(&mut self)
        requires
            old(self).wf(),
        ensures
            final(self).wf(),
            final(self).source@ == old(self).source@,
            final(self).cursor() == step_to(
                old(self).source@,
                old(self).cursor(),
                blank_end(old(self).source@, old(self).current as int, false),
            ),
            final(self).current >= old(self).current,
    {
        let ghost src = self.source@;
        let ghost c0 = self.cursor();
        let ghost target = blank_end(src, c0.current, false);
        loop
            invariant
                self.wf(),
                self.source@ == src,
                c0.current <= self.current,
                blank_end(src, self.current as int, false) == target,
                self.cursor() == step_to(src, c0, self.current as int),
            ensures
                self.current == target,
            decreases src.len() - self.current,
        {
            let p = self.peek();
            if p == 32u8 || p == 13u8 || p == 9u8 || p == 10u8 {
                let ghost cur = self.current as int;
                self.advance();
                proof {
                    lemma_step_to_snoc(src, c0, cur);
                }
            } else if p == 47u8 && self.peek_next() == 47u8 {
                let ghost first = self.current as int;
                proof {
                    assert(blank_end(src, first, true) == blank_end(src, first + 1, true));
                    assert(blank_end(src, first + 1, true) == blank_end(src, first + 2, true));
                }
                while !self.is_at_end() && self.peek() != 10u8
                    invariant
                        self.wf(),
                        self.source@ == src,
                        c0.current <= first <= self.current,
                        blank_end(src, self.current as int, true) == target,
                        self.cursor() == step_to(src, c0, self.current as int),
                    decreases src.len() - self.current,
                {
                    let ghost cur = self.current as int;
                    self.advance();
                    proof {
                        lemma_step_to_snoc(src, c0, cur);
                    }
                }
            } else {
                break;
            }
        }
    }

    fn advance(&mut self) -> (byte: u8)
        requires
            old(self).wf(),
            old(self).current < old(self).source@.len(),
        ensures
            final(self).wf(),
            final(self).source@ == old(self).source@,
            byte == old(self).source@[old(self).current as int],
            final(self).cursor() == step(old(self).source@, old(self).cursor()),
    {
        let byte = self.source[self.current];
        self.current = self.current + 1;
        if byte == 10u8 {
            self.line = self.line + 1;
            self.column = 1;
        } else {
            self.column = self.column + 1;
        }
        byte
    }

    fn match_byte(&mut self, expected: u8) -> (b: bool)
        requires
            old(self).wf(),
        ensures
            final(self).wf(),
            final(self).source@ == old(self).source@,
            b == (byte_at(old(self).source@, old(self).current as int) == expected && old(self).current
                < old(self).source@.len()),
            b ==> final(self).cursor() == step(old(self).source@, old(self).cursor()),
            !b ==> *final(self) == *old(self),
    {
        if self.is_at_end() || self.peek() != expected {
            return false;
        }
        self.advance();
        true
    }

    fn peek(&self) -> (b: u8)
        requires
            self.wf(),
        ensures
            b == byte_at(self.source@, self.current as int),
    {
        if self.current < self.source.len() {
            self.source[self.current]
        } else {
            0
        }
    }

    fn peek_next(&self) -> (b: u8)
        requires
            self.wf(),
        ensures
            b == byte_at(self.source@, self.current + 1),
    {
        if self.current + 1 < self.source.len() {
            self.source[self.current + 1]
        } else {
            0
        }
    }

    fn is_at_end(&self) -> (b: bool)
        requires
            self.wf(),
        ensures
            b == (self.current >= self.source@.len()),
    {
        self.current >= self.source.len()
    }
}

} // verus!

verus! {

proof fn lemma_scan_tokens_eof(src: Seq<u8>, c: Cursor)
    ensures
        scan_tokens(src, c) matches Ok(ts) ==> {
            &&& ts.len() >= 1
            &&& ts.last().kind == TokenKind::Eof
            &&& forall|i: int| 0 <= i < ts.len() - 1 ==> #[trigger] ts[i].kind != TokenKind::Eof
        },
    decreases src.len() - c.current,
{
    if c.current < src.len() {
        let s = step_to(src, c, blank_end(src, c.current, false));
        if s.current < src.len() {
            match next_token(src, s) {
                Ok((t, u)) => {
                    if c.current < u.current <= src.len() {
                        lemma_scan_tokens_eof(src, u);
                        match scan_tokens(src, u) {
                            Ok(rest) => {
                                let ts = seq![t] + rest;
                                assert forall|i: int| 0 <= i < ts.len() - 1 implies #[trigger] ts[i].kind
                                    != TokenKind::Eof by {
                                    if i > 0 {
                                        assert(ts[i] == rest[i - 1]);
                                    }
                                }
                            },
                            Err(_) => {},
                        }
                    }
                },
                Err(_) => {},
            }
        }
    }
}

/// Lexing that succeeds ends with exactly one `Eof` token, the last one.
pub proof fn lemma_lex_ends_with_eof(src: Seq<u8>)
    ensures
        lex(src) matches Ok(ts) ==> {
            &&& ts.len() >= 1
            &&& ts.last().kind == TokenKind::Eof
            &&& forall|i: int| 0 <= i < ts.len() - 1 ==> #[trigger] ts[i].kind != TokenKind::Eof
        },
{
    lemma_scan_tokens_eof(src, start_cursor());
}

proof fn lemma_ident_end(src: Seq<u8>, i: int)
    requires
        0 <= i <= src.len(),
    ensures
        i <= ident_end(src, i) <= src.len(),
        forall|k: int| i <= k < ident_end(src, i) ==> is_ident_byte(#[trigger] src[k]),
    decreases src.len() - i,
{
    if i < src.len() && is_ident_byte(src[i]) {
        lemma_ident_end(src, i + 1);
    }
}

proof fn lemma_digits_end(src: Seq<u8>, i: int)
    requires
        0 <= i <= src.len(),
    ensures
        i <= digits_end(src, i) <= src.len(),
        forall|k: int| i <= k < digits_end(src, i) ==> is_digit(#[trigger] src[k]),
    decreases src.len() - i,
{
    if i < src.len() && is_digit(src[i]) {
        lemma_digits_end(src, i + 1);
    }
}

proof fn lemma_quote_end(src: Seq<u8>, i: int)
    requires
        0 <= i <= src.len(),
    ensures
        i <= quote_end(src, i) <= src.len(),
        quote_end(src, i) < src.len() ==> src[quote_end(src, i)] == 34u8,
    decreases src.len() - i,
{
    if i < src.len() && src[i] != 34u8 {
        lemma_quote_end(src, i + 1);
    }
}

/// The text of `src[a..b]` when its first and last bytes are ASCII.
proof fn lemma_ascii_ends_text(src: Seq<u8>, a: int, b: int)
    requires
        valid_utf8(src),
        0 <= a < b <= src.len(),
        src[a] < 128,
        src[b - 1] < 128,
    ensures
        valid_utf8(src.subrange(a, b)),
        decode_utf8(src.subrange(a, b)).len() >= 1,
{
    lemma_after_ascii(src, b - 1);
    lemma_slice_valid(src, a, b);
    lemma_decode_nonempty(src.subrange(a, b));
}

/// A token starting at `s` is the text of the source bytes it spans: it is
/// not empty, it starts at `s`'s line and column, and lexing goes on just
/// after it. A lexical error is reported at `s`.
pub proof fn lemma_next_token_text(src: Seq<u8>, s: Cursor)
    requires
        valid_utf8(src),
        0 <= s.current < src.len(),
    ensures
        next_token(src, s) matches Ok((t, u)) ==> {
            &&& s.current < u.current <= src.len()
            &&& u == step_to(src, s, u.current)
            &&& t.lexeme == decode_utf8(src.subrange(s.current, u.current))
            &&& t.lexeme.len() >= 1
            &&& t.kind != TokenKind::Eof
            &&& t.line == s.line && t.column == s.column
        },
        next_token(src, s) matches Err(e) ==> e.line == s.line && e.column == s.column,
{
    let i = s.current;
    let b = src[i];
    assert(byte_at(src, i) == b);
    if let Some(k) = single_kind(b) {
        lemma_step_to_current(src, s, i + 1);
        lemma_ascii_ends_text(src, i, i + 1);
    } else if let Some((k2, k1)) = pair_kinds(b) {
        if byte_at(src, i + 1) == 61u8 {
            lemma_step_to_current(src, s, i + 2);
            lemma_ascii_ends_text(src, i, i + 2);
        } else {
            lemma_step_to_current(src, s, i + 1);
            lemma_ascii_ends_text(src, i, i + 1);
        }
    } else if doubled_kind(b) is Some && byte_at(src, i + 1) == b {
        lemma_step_to_current(src, s, i + 2);
        lemma_ascii_ends_text(src, i, i + 2);
    } else if b == 34u8 {
        lemma_quote_end(src, i + 1);
        let e = quote_end(src, i + 1);
        if e < src.len() {
            lemma_step_to_current(src, s, e + 1);
            lemma_ascii_ends_text(src, i, e + 1);
        }
    } else if is_digit(b) {
        lemma_digits_end(src, i + 1);
        let e = digits_end(src, i + 1);
        let e2 = number_end(src, i);
        if byte_at(src, e) == 46u8 && is_digit(byte_at(src, e + 1)) {
            assert(e + 1 < src.len());
            lemma_digits_end(src, e + 2);
            assert(e2 == digits_end(src, e + 2));
            lemma_digits_end(src, e + 1);
            assert(is_digit(src[e2 - 1]));
        } else if e > i + 1 {
            assert(is_digit(src[e - 1]));
        }
        lemma_step_to_current(src, s, e2);
        lemma_ascii_ends_text(src, i, e2);
    } else if is_alpha(b) {
        lemma_ident_end(src, i + 1);
        let e = ident_end(src, i + 1);
        if e > i + 1 {
            assert(is_ident_byte(src[e - 1]));
        }
        lemma_step_to_current(src, s, e);
        lemma_ascii_ends_text(src, i, e);
    }
}

/// Where each token of `scan_tokens(src, c)` lies in the source: the byte
/// offsets of its start and end (for the closing `Eof`, both are the end of
/// the source).
pub open spec fn token_spans(src: Seq<u8>, c: Cursor) -> Seq<(int, int)>
    decreases src.len() - c.current,
{
    if c.current >= src.len() {
        seq![(c.current, c.current)]
    } else {
        let s = step_to(src, c, blank_end(src, c.current, false));
        if s.current >= src.len() {
            seq![(s.current, s.current)]
        } else {
            match next_token(src, s) {
                Ok((t, u)) => if c.current < u.current <= src.len() {
                    seq![(s.current, u.current)] + token_spans(src, u)
                } else {
                    Seq::empty()
                },
                Err(_) => Seq::empty(),
            }
        }
    }
}

proof fn lemma_blank_end(src: Seq<u8>, i: int, in_comment: bool)
    requires
        0 <= i <= src.len(),
    ensures
        i <= blank_end(src, i, in_comment) <= src.len(),
    decreases src.len() - i,
{
    if i < src.len() {
        if in_comment {
            lemma_blank_end(src, i + 1, src[i] != 10u8);
        } else if is_space(src[i]) {
            lemma_blank_end(src, i + 1, false);
        } else if src[i] == 47u8 && byte_at(src, i + 1) == 47u8 {
            lemma_blank_end(src, i + 2, true);
        }
    }
}

/// The tokens from `c` on, as text of the source: see `lemma_lex_tokens_are_source_text`.
pub open spec fn spans_fit(src: Seq<u8>, c0: Cursor, from: int, ts: Seq<TokenView>, sp: Seq<(int, int)>) -> bool {
    &&& sp.len() == ts.len()
    &&& forall|i: int|
        #![trigger ts[i]]
        0 <= i < ts.len() ==> {
            &&& 0 <= sp[i].0 <= sp[i].1 <= src.len()
            &&& sp[i].0 == blank_end(src, if i == 0 { from } else { sp[i - 1].1 }, false)
            &&& ts[i].lexeme == decode_utf8(src.subrange(sp[i].0, sp[i].1))
            &&& ts[i].line == step_to(src, c0, sp[i].0).line
            &&& ts[i].column == step_to(src, c0, sp[i].0).column
            &&& i < ts.len() - 1 ==> sp[i].0 < sp[i].1 && ts[i].lexeme.len() >= 1
            &&& i == ts.len() - 1 ==> sp[i].0 == sp[i].1 && sp[i].1 == src.len() && ts[i].lexeme.len() == 0
        }
}

proof fn lemma_scan_spans(src: Seq<u8>, c0: Cursor, c: Cursor)
    requires
        valid_utf8(src),
        0 <= c0.current <= c.current <= src.len(),
        c == step_to(src, c0, c.current),
    ensures
        scan_tokens(src, c) matches Ok(ts) ==> spans_fit(src, c0, c.current, ts, token_spans(src, c)),
    decreases src.len() - c.current,
{
    if c.current >= src.len() {
        assert(blank_end(src, c.current, false) == c.current);
        assert(decode_utf8(src.subrange(c.current, c.current)) =~= Seq::<char>::empty()) by {
            assert(src.subrange(c.current, c.current).len() == 0);
        }
    } else {
        let e = blank_end(src, c.current, false);
        lemma_blank_end(src, c.current, false);
        lemma_step_to_current(src, c, e);
        lemma_step_to_trans(src, c0, c.current, e);
        let s = step_to(src, c, e);
        if s.current >= src.len() {
            assert(src.subrange(s.current, s.current).len() == 0);
            assert(decode_utf8(src.subrange(s.current, s.current)) =~= Seq::<char>::empty());
        } else {
            lemma_next_token_text(src, s);
            match next_token(src, s) {
                Ok((t, u)) => {
                    if c.current < u.current <= src.len() {
                        lemma_step_to_trans(src, c0, e, u.current);
                        lemma_scan_spans(src, c0, u);
                        match scan_tokens(src, u) {
                            Ok(rest) => {
                                let ts = seq![t] + rest;
                                let rsp = token_spans(src, u);
                                let sp = seq![(s.current, u.current)] + rsp;
                                assert forall|i: int| #![trigger ts[i]] 0 <= i < ts.len() implies {
                                    &&& 0 <= sp[i].0 <= sp[i].1 <= src.len()
                                    &&& sp[i].0 == blank_end(src, if i == 0 { c.current } else { sp[i - 1].1 }, false)
                                    &&& ts[i].lexeme == decode_utf8(src.subrange(sp[i].0, sp[i].1))
                                    &&& ts[i].line == step_to(src, c0, sp[i].0).line
                                    &&& ts[i].column == step_to(src, c0, sp[i].0).column
                                    &&& i < ts.len() - 1 ==> sp[i].0 < sp[i].1 && ts[i].lexeme.len() >= 1
                                    &&& i == ts.len() - 1 ==> sp[i].0 == sp[i].1 && sp[i].1 == src.len() && ts[i].lexeme.len() == 0
                                } by {
                                    if i > 0 {
                                        assert(ts[i] == rest[i - 1]);
                                        assert(sp[i] == rsp[i - 1]);
                                        if i > 1 {
                                            assert(sp[i - 1] == rsp[i - 2]);
                                        }
                                    }
                                }
                            },
                            Err(_) => {},
                        }
                    }
                },
                Err(_) => {},
            }
        }
    }
}

/// The tokens of a source are its text. Each token covers the bytes
/// `src[a..b]` of its span (`token_spans`), and its lexeme is their UTF-8
/// text. Before `Eof` every token is at least one character long. Each
/// token starts at the line and column of byte `a`, and only whitespace and
/// `//` comments lie between one token's end and the next one's start
/// (`blank_end`). The closing `Eof` sits at the end of the source with an
/// empty lexeme.
pub proof fn lemma_lex_tokens_are_source_text(src: Seq<u8>)
    requires
        valid_utf8(src),
    ensures
        lex(src) matches Ok(ts) ==> spans_fit(src, start_cursor(), 0, ts, token_spans(src, start_cursor())),
{
    lemma_scan_spans(src, start_cursor(), start_cursor());
}

// ---------------------------------------------------------------------------
// A line comment at the end changes no token.
// ---------------------------------------------------------------------------

/// `src2` is `src` followed by a line comment: `//` and bytes that hold no
/// newline.
pub open spec fn comment_appended(src: Seq<u8>, src2: Seq<u8>) -> bool {
    &&& src2.len() >= src.len() + 2
    &&& src2.subrange(0, src.len() as int) == src
    &&& src2[src.len() as int] == 47u8
    &&& src2[src.len() + 1int] == 47u8
    &&& forall|k: int| src.len() + 2 <= k < src2.len() ==> src2[k] != 10u8
}

proof fn lemma_prefix_byte(src: Seq<u8>, src2: Seq<u8>, k: int)
    requires
        comment_appended(src, src2),
        0 <= k < src.len(),
    ensures
        src2[k] == src[k],
        byte_at(src2, k) == byte_at(src, k),
{
    assert(src2.subrange(0, src.len() as int)[k] == src2[k]);
}

proof fn lemma_step_to_agree(src: Seq<u8>, src2: Seq<u8>, c: Cursor, end: int)
    requires
        comment_appended(src, src2),
        0 <= c.current,
        end <= src.len(),
    ensures
        step_to(src2, c, end) == step_to(src, c, end),
    decreases end - c.current,
{
    if c.current < end {
        lemma_prefix_byte(src, src2, c.current);
        lemma_step_to_agree(src, src2, step(src, c), end);
    }
}

proof fn lemma_comment_to_end(src2: Seq<u8>, n: int, j: int)
    requires
        0 <= n <= j <= src2.len(),
        forall|k: int| n <= k < src2.len() ==> src2[k] != 10u8,
    ensures
        blank_end(src2, j, true) == src2.len(),
    decreases src2.len() - j,
{
    if j < src2.len() {
        assert(src2[j] != 10u8);
        lemma_comment_to_end(src2, n, j + 1);
    }
}

proof fn lemma_blank_end_agree(src: Seq<u8>, src2: Seq<u8>, i: int, ic: bool)
    requires
        comment_appended(src, src2),
        src.len() == 0 || src[src.len() - 1] == 10u8,
        0 <= i <= src.len(),
        i == src.len() ==> !ic,
    ensures
        blank_end(src, i, ic) < src.len() ==> blank_end(src2, i, ic) == blank_end(src, i, ic),
        blank_end(src, i, ic) >= src.len() ==> blank_end(src2, i, ic) == src2.len(),
    decreases src.len() - i,
{
    let n = src.len() as int;
    if i == n {
        lemma_comment_to_end(src2, n + 2, n + 2);
        assert(byte_at(src2, n + 1) == 47u8);
    } else {
        lemma_prefix_byte(src, src2, i);
        if ic {
            lemma_blank_end_agree(src, src2, i + 1, src[i] != 10u8);
        } else if is_space(src[i]) {
            lemma_blank_end_agree(src, src2, i + 1, false);
        } else if src[i] == 47u8 && byte_at(src, i + 1) == 47u8 {
            assert(i + 1 < n - 1);
            lemma_prefix_byte(src, src2, i + 1);
            lemma_blank_end_agree(src, src2, i + 2, true);
        } else {
            if i + 1 < n {
                lemma_prefix_byte(src, src2, i + 1);
            }
        }
    }
}

proof fn lemma_run_ends_agree(src: Seq<u8>, src2: Seq<u8>, i: int)
    requires
        comment_appended(src, src2),
        0 <= i <= src.len(),
    ensures
        ident_end(src2, i) == ident_end(src, i),
        digits_end(src2, i) == digits_end(src, i),
        quote_end(src, i) < src.len() ==> quote_end(src2, i) == quote_end(src, i),
    decreases src.len() - i,
{
    if i < src.len() {
        lemma_prefix_byte(src, src2, i);
        lemma_run_ends_agree(src, src2, i + 1);
    } else {
        assert(src2[i] == 47u8);
    }
}

proof fn lemma_subrange_agree(src: Seq<u8>, src2: Seq<u8>, a: int, b: int)
    requires
        comment_appended(src, src2),
        0 <= a <= b <= src.len(),
    ensures
        src2.subrange(a, b) == src.subrange(a, b),
{
    assert(src2.subrange(a, b) =~= src2.subrange(0, src.len() as int).subrange(a, b));
}

proof fn lemma_next_token_agree(src: Seq<u8>, src2: Seq<u8>, s: Cursor)
    requires
        comment_appended(src, src2),
        src.len() == 0 || src[src.len() - 1] == 10u8,
        0 <= s.current < src.len(),
        next_token(src, s) is Ok,
    ensures
        next_token(src2, s) == next_token(src, s),
{
    let i = s.current;
    let n = src.len() as int;
    lemma_prefix_byte(src, src2, i);
    if i + 1 < n {
        lemma_prefix_byte(src, src2, i + 1);
    } else {
        assert(byte_at(src2, i + 1) == 47u8);
    }
    let b = src[i];
    lemma_run_ends_agree(src, src2, i + 1);
    if i + 2 <= n {
        lemma_run_ends_agree(src, src2, i + 2);
    }
    if single_kind(b) is Some {
        lemma_step_to_agree(src, src2, s, i + 1);
        lemma_subrange_agree(src, src2, i, i + 1);
    } else if pair_kinds(b) is Some {
        if byte_at(src, i + 1) == 61u8 {
            lemma_step_to_agree(src, src2, s, i + 2);
            lemma_subrange_agree(src, src2, i, i + 2);
        } else {
            lemma_step_to_agree(src, src2, s, i + 1);
            lemma_subrange_agree(src, src2, i, i + 1);
        }
    } else if doubled_kind(b) is Some && byte_at(src, i + 1) == b {
        lemma_step_to_agree(src, src2, s, i + 2);
        lemma_subrange_agree(src, src2, i, i + 2);
    } else if b == 34u8 {
        lemma_quote_end(src, i + 1);
        let e = quote_end(src, i + 1);
        lemma_step_to_agree(src, src2, s, e + 1);
        lemma_subrange_agree(src, src2, i + 1, e);
        lemma_subrange_agree(src, src2, i, e + 1);
    } else if is_digit(b) {
        lemma_digits_end(src, i + 1);
        let e = digits_end(src, i + 1);
        if e < n {
            lemma_prefix_byte(src, src2, e);
        } else {
            assert(byte_at(src2, e) == 47u8);
        }
        if byte_at(src, e) == 46u8 && is_digit(byte_at(src, e + 1)) {
            lemma_prefix_byte(src, src2, e + 1);
            lemma_run_ends_agree(src, src2, e + 1);
            lemma_digits_end(src, e + 1);
        } else if e + 1 < n {
            lemma_prefix_byte(src, src2, e + 1);
        } else if e + 1 == n {
            assert(byte_at(src2, e + 1) == 47u8);
        }
        let e2 = number_end(src, i);
        lemma_digits_end(src, i + 1);
        assert(e2 <= n);
        lemma_step_to_agree(src, src2, s, e2);
        lemma_subrange_agree(src, src2, i, e2);
    } else if is_alpha(b) {
        lemma_ident_end(src, i + 1);
        let e = ident_end(src, i + 1);
        lemma_step_to_agree(src, src2, s, e);
        lemma_subrange_agree(src, src2, i, e);
    }
}

proof fn lemma_scan_agree(src: Seq<u8>, src2: Seq<u8>, c: Cursor)
    requires
        comment_appended(src, src2),
        src.len() == 0 || src[src.len() - 1] == 10u8,
        0 <= c.current <= src.len(),
    ensures
        scan_tokens(src, c) matches Ok(ts) ==> scan_tokens(src2, c) matches Ok(ts2) && ts2.len() == ts.len()
            && ts2.last().kind == TokenKind::Eof && forall|i: int| 0 <= i < ts.len() - 1 ==> ts2[i] == ts[i],
    decreases src.len() - c.current,
{
    let n = src.len() as int;
    lemma_blank_end_agree(src, src2, c.current, false);
    lemma_blank_end(src, c.current, false);
    let e = blank_end(src, c.current, false);
    if c.current >= n {
        let s2 = step_to(src2, c, blank_end(src2, c.current, false));
        lemma_step_to_current(src2, c, src2.len() as int);
    } else if e >= n {
        lemma_step_to_current(src, c, e);
        lemma_step_to_current(src2, c, src2.len() as int);
    } else {
        lemma_step_to_agree(src, src2, c, e);
        lemma_step_to_current(src, c, e);
        let s = step_to(src, c, e);
        if let Ok((t, u)) = next_token(src, s) {
            lemma_next_token_agree(src, src2, s);
            if c.current < u.current <= n {
                lemma_scan_agree(src, src2, u);
                if let Ok(rest) = scan_tokens(src, u) {
                    let rest2 = scan_tokens(src2, u)->Ok_0;
                    let ts = seq![t] + rest;
                    let ts2 = seq![t] + rest2;
                    assert forall|i: int| 0 <= i < ts.len() - 1 implies ts2[i] == ts[i] by {
                        if i > 0 {
                            assert(ts[i] == rest[i - 1]);
                            assert(ts2[i] == rest2[i - 1]);
                        }
                    }
                }
            }
        }
    }
}

/// A line comment at the end of a source that is empty or ends with a
/// newline adds, removes and moves no token: only the closing `Eof` moves to
/// the new end.
pub proof fn lemma_trailing_comment_keeps_tokens(src: Seq<u8>, src2: Seq<u8>)
    requires
        comment_appended(src, src2),
        src.len() == 0 || src[src.len() - 1] == 10u8,
    ensures
        lex(src) matches Ok(ts) ==> lex(src2) matches Ok(ts2) && ts2.len() == ts.len() && ts2.last().kind
            == TokenKind::Eof && forall|i: int| 0 <= i < ts.len() - 1 ==> ts2[i] == ts[i],
{
    lemma_scan_agree(src, src2, start_cursor());
}

/// The number of newlines among the first `a` bytes.
pub open spec fn newlines_before(src: Seq<u8>, a: int) -> int
    decreases a,
{
    if a <= 0 {
        0
    } else {
        newlines_before(src, a - 1) + if src[a - 1] == 10u8 {
            1int
        } else {
            0int
        }
    }
}

/// Where the line of byte `a` starts: just after the last newline before
/// `a`, or 0 when there is none.
pub open spec fn line_start(src: Seq<u8>, a: int) -> int
    decreases a,
{
    if a <= 0 {
        0
    } else if src[a - 1] == 10u8 {
        a
    } else {
        line_start(src, a - 1)
    }
}

/// The position of byte `a`: line 1 plus the newlines before it, and the
/// column counted in bytes from the start of its line, from 1.
pub proof fn lemma_position(src: Seq<u8>, a: int)
    requires
        0 <= a <= src.len(),
    ensures
        step_to(src, start_cursor(), a) == (Cursor {
            current: a,
            line: 1 + newlines_before(src, a),
            column: a + 1 - line_start(src, a),
        }),
    decreases a,
{
    if a > 0 {
        lemma_position(src, a - 1);
        lemma_step_to_snoc(src, start_cursor(), a - 1);
        assert(byte_at(src, a - 1) == src[a - 1]);
    }
}

/// The tokens of a source, in closed form: their spans follow one another,
/// and each token's line is 1 plus the newlines before its first byte and its
/// column that byte's place in its line, from 1 (see also
/// `lemma_lex_tokens_are_source_text`).
pub proof fn lemma_lex_token_positions(src: Seq<u8>)
    requires
        valid_utf8(src),
    ensures
        lex(src) matches Ok(ts) ==> {
            let sp = token_spans(src, start_cursor());
            &&& spans_fit(src, start_cursor(), 0, ts, sp)
            &&& forall|i: int|
                0 <= i < ts.len() ==> {
                    &&& (#[trigger] ts[i]).line == 1 + newlines_before(src, sp[i].0)
                    &&& ts[i].column == sp[i].0 + 1 - line_start(src, sp[i].0)
                    &&& i > 0 ==> sp[i - 1].1 <= sp[i].0
                }
        },
{
    lemma_lex_tokens_are_source_text(src);
    if let Ok(ts) = lex(src) {
        let sp = token_spans(src, start_cursor());
        assert(spans_fit(src, start_cursor(), 0, ts, sp));
        assert forall|i: int| 0 <= i < ts.len() implies {
            &&& (#[trigger] ts[i]).line == 1 + newlines_before(src, sp[i].0)
            &&& ts[i].column == sp[i].0 + 1 - line_start(src, sp[i].0)
            &&& i > 0 ==> sp[i - 1].1 <= sp[i].0
        } by {
            lemma_position(src, sp[i].0);
            if i > 0 {
                let k = i - 1;
                let tk = ts[k];
                assert(0 <= sp[k].0 <= sp[k].1 <= src.len());
                lemma_blank_end(src, sp[i - 1].1, false);
            }
        }
    }
}

/// Where a run of blanks and comments ends inside the source, the byte there
/// is not blank.
proof fn lemma_blank_end_stops(src: Seq<u8>, i: int, in_comment: bool)
    requires
        0 <= i,
    ensures
        blank_end(src, i, in_comment) < src.len() ==> !is_space(src[blank_end(src, i, in_comment)]),
    decreases src.len() - i,
{
    if i < src.len() {
        if in_comment {
            lemma_blank_end_stops(src, i + 1, src[i] != 10u8);
        } else if is_space(src[i]) {
            lemma_blank_end_stops(src, i + 1, false);
        } else if src[i] == 47u8 && byte_at(src, i + 1) == 47u8 {
            lemma_blank_end_stops(src, i + 2, true);
        }
    }
}

/// The message reporting a byte tells the byte.
proof fn lemma_unexpected_message_differs(b: u8, c: u8)
    requires
        b != c,
    ensures
        unexpected_message(b) != unexpected_message(c),
{
    reveal_strlit("unexpected character '");
    let pre = "unexpected character '"@;
    assert(pre.len() == 22);
    assert(unexpected_message(b)[22] == b as char);
    assert(unexpected_message(c)[22] == c as char);
}

/// No lexical error from cursor `c` on is about a blank byte.
proof fn lemma_scan_error_not_blank(src: Seq<u8>, c: Cursor)
    requires
        0 <= c.current,
    ensures
        scan_tokens(src, c) matches Err(e) ==> {
            &&& e.message != unexpected_message(9u8)
            &&& e.message != unexpected_message(10u8)
            &&& e.message != unexpected_message(13u8)
            &&& e.message != unexpected_message(32u8)
        },
    decreases src.len() - c.current,
{
    if c.current < src.len() {
        let j = blank_end(src, c.current, false);
        lemma_blank_end(src, c.current, false);
        lemma_blank_end_stops(src, c.current, false);
        lemma_step_to_current(src, c, j);
        let s = step_to(src, c, j);
        if s.current < src.len() {
            let b = src[j];
            assert(b != 9u8 && b != 10u8 && b != 13u8 && b != 32u8);
            assert(byte_at(src, s.current) == b);
            reveal_strlit("unterminated string literal.");
            reveal_strlit("unexpected character '");
            reveal_strlit("'.");
            assert("unterminated string literal."@.len() == 28);
            assert forall|x: u8| #[trigger] unexpected_message(x).len() == 25 by {}
            lemma_unexpected_message_differs(b, 9u8);
            lemma_unexpected_message_differs(b, 10u8);
            lemma_unexpected_message_differs(b, 13u8);
            lemma_unexpected_message_differs(b, 32u8);
            match next_token(src, s) {
                Ok((t, u)) => {
                    if c.current < u.current <= src.len() {
                        lemma_scan_error_not_blank(src, u);
                    }
                },
                Err(_) => {},
            }
        }
    }
}

/// Tab, newline, carriage return and space are all blank: lexing never
/// fails on one of them, so no lexical error reports a blank byte as an
/// unexpected character.
pub proof fn lemma_blank_bytes_never_rejected(src: Seq<u8>)
    ensures
        lex(src) matches Err(e) ==> {
            &&& e.message != unexpected_message(9u8)
            &&& e.message != unexpected_message(10u8)
            &&& e.message != unexpected_message(13u8)
            &&& e.message != unexpected_message(32u8)
        },
{
    lemma_scan_error_not_blank(src, start_cursor());
}

/// The kind of the token that a lexing step gives, if it gives one.
pub open spec fn lexed_kind(r: Result<(TokenView, Cursor), LexErrorView>) -> Option<TokenKind> {
    match r {
        Ok((t, _)) => Some(t.kind),
        Err(_) => None,
    }
}

/// Each punctuation and operator character lexes to the token it denotes:
/// `( ) { } , ; : + - * % /` alone, `=`, `!`, `<`, `>` alone or with a
/// following `=` (`== != <= >=`), and `&&`, `||`.
pub proof fn lemma_symbol_kinds(src: Seq<u8>, s: Cursor)
    ensures
        ({
            let b = byte_at(src, s.current);
            let n = byte_at(src, s.current + 1);
            let k = lexed_kind(next_token(src, s));
            &&& b == 40u8 ==> k == Some(TokenKind::LeftParen)
            &&& b == 41u8 ==> k == Some(TokenKind::RightParen)
            &&& b == 123u8 ==> k == Some(TokenKind::LeftBrace)
            &&& b == 125u8 ==> k == Some(TokenKind::RightBrace)
            &&& b == 44u8 ==> k == Some(TokenKind::Comma)
            &&& b == 59u8 ==> k == Some(TokenKind::Semicolon)
            &&& b == 58u8 ==> k == Some(TokenKind::Colon)
            &&& b == 43u8 ==> k == Some(TokenKind::Plus)
            &&& b == 45u8 ==> k == Some(TokenKind::Minus)
            &&& b == 42u8 ==> k == Some(TokenKind::Star)
            &&& b == 37u8 ==> k == Some(TokenKind::Percent)
            &&& b == 47u8 ==> k == Some(TokenKind::Slash)
            &&& b == 61u8 ==> k == Some(if n == 61u8 { TokenKind::EqualEqual } else { TokenKind::Equal })
            &&& b == 33u8 ==> k == Some(if n == 61u8 { TokenKind::BangEqual } else { TokenKind::Bang })
            &&& b == 60u8 ==> k == Some(if n == 61u8 { TokenKind::LessEqual } else { TokenKind::Less })
            &&& b == 62u8 ==> k == Some(if n == 61u8 { TokenKind::GreaterEqual } else { TokenKind::Greater })
            &&& b == 38u8 && n == 38u8 ==> k == Some(TokenKind::AndAnd)
            &&& b == 124u8 && n == 124u8 ==> k == Some(TokenKind::OrOr)
        }),
{
}

/// The word `w` stands at `i` in the source, not followed by a further
/// letter, digit or underscore.
pub open spec fn word_at(src: Seq<u8>, i: int, w: Seq<u8>) -> bool {
    &&& 0 <= i
    &&& i + w.len() <= src.len()
    &&& src.subrange(i, i + w.len()) == w
    &&& !is_ident_byte(byte_at(src, i + w.len()))
}

proof fn lemma_ident_end_exact(src: Seq<u8>, a: int, e: int)
    requires
        0 <= a <= e <= src.len(),
        forall|k: int| a <= k < e ==> is_ident_byte(#[trigger] src[k]),
        !is_ident_byte(byte_at(src, e)),
    ensures
        ident_end(src, a) == e,
    decreases e - a,
{
    if a < e {
        lemma_ident_end_exact(src, a + 1, e);
    } else if e < src.len() {
        assert(byte_at(src, e) == src[e]);
    }
}

/// A word that starts with a letter lexes to the kind `keyword_kind` gives it.
proof fn lemma_word_kind(src: Seq<u8>, s: Cursor, w: Seq<u8>)
    requires
        word_at(src, s.current, w),
        w.len() >= 1,
        97 <= w[0] <= 122,
        forall|j: int| 0 <= j < w.len() ==> is_ident_byte(#[trigger] w[j]),
    ensures
        lexed_kind(next_token(src, s)) == Some(keyword_kind(w)),
{
    let i = s.current;
    let e = i + w.len();
    assert forall|k: int| i + 1 <= k < e implies is_ident_byte(#[trigger] src[k]) by {
        assert(src[k] == src.subrange(i, e)[k - i]);
    }
    assert(src[i] == src.subrange(i, e)[0]);
    assert(byte_at(src, i) == w[0]);
    lemma_ident_end_exact(src, i + 1, e);
}

/// Each keyword lexes to its own kind when it stands as a whole word:
/// `let fn if else true false return print`.
pub proof fn lemma_keyword_kinds(src: Seq<u8>, s: Cursor)
    ensures
        ({
            let i = s.current;
            let k = lexed_kind(next_token(src, s));
            &&& word_at(src, i, "let"@.map_values(|c: char| c as u8)) ==> k == Some(TokenKind::Let)
            &&& word_at(src, i, "fn"@.map_values(|c: char| c as u8)) ==> k == Some(TokenKind::Fn)
            &&& word_at(src, i, "if"@.map_values(|c: char| c as u8)) ==> k == Some(TokenKind::If)
            &&& word_at(src, i, "else"@.map_values(|c: char| c as u8)) ==> k == Some(TokenKind::Else)
            &&& word_at(src, i, "true"@.map_values(|c: char| c as u8)) ==> k == Some(TokenKind::True)
            &&& word_at(src, i, "false"@.map_values(|c: char| c as u8)) ==> k == Some(TokenKind::False)
            &&& word_at(src, i, "return"@.map_values(|c: char| c as u8)) ==> k == Some(TokenKind::Return)
            &&& word_at(src, i, "print"@.map_values(|c: char| c as u8)) ==> k == Some(TokenKind::Print)
        }),
{
    reveal_strlit("let");
    reveal_strlit("fn");
    reveal_strlit("if");
    reveal_strlit("else");
    reveal_strlit("true");
    reveal_strlit("false");
    reveal_strlit("return");
    reveal_strlit("print");
    let ws = seq![
        "let"@.map_values(|c: char| c as u8),
        "fn"@.map_values(|c: char| c as u8),
        "if"@.map_values(|c: char| c as u8),
        "else"@.map_values(|c: char| c as u8),
        "true"@.map_values(|c: char| c as u8),
        "false"@.map_values(|c: char| c as u8),
        "return"@.map_values(|c: char| c as u8),
        "print"@.map_values(|c: char| c as u8),
    ];
    assert(ws[0] =~= seq![108u8, 101u8, 116u8]);
    assert(ws[1] =~= seq![102u8, 110u8]);
    assert(ws[2] =~= seq![105u8, 102u8]);
    assert(ws[3] =~= seq![101u8, 108u8, 115u8, 101u8]);
    assert(ws[4] =~= seq![116u8, 114u8, 117u8, 101u8]);
    assert(ws[5] =~= seq![102u8, 97u8, 108u8, 115u8, 101u8]);
    assert(ws[6] =~= seq![114u8, 101u8, 116u8, 117u8, 114u8, 110u8]);
    assert(ws[7] =~= seq![112u8, 114u8, 105u8, 110u8, 116u8]);
    let i = s.current;
    assert forall|m: int| 0 <= m < 8 && word_at(src, i, #[trigger] ws[m]) implies lexed_kind(next_token(src, s))
        == Some(keyword_kind(ws[m])) by {
        lemma_word_kind(src, s, ws[m]);
    }
    assert(word_at(src, i, ws[0]) ==> lexed_kind(next_token(src, s)) == Some(keyword_kind(ws[0])));
    assert(word_at(src, i, ws[1]) ==> lexed_kind(next_token(src, s)) == Some(keyword_kind(ws[1])));
    assert(word_at(src, i, ws[2]) ==> lexed_kind(next_token(src, s)) == Some(keyword_kind(ws[2])));
    assert(word_at(src, i, ws[3]) ==> lexed_kind(next_token(src, s)) == Some(keyword_kind(ws[3])));
    assert(word_at(src, i, ws[4]) ==> lexed_kind(next_token(src, s)) == Some(keyword_kind(ws[4])));
    assert(word_at(src, i, ws[5]) ==> lexed_kind(next_token(src, s)) == Some(keyword_kind(ws[5])));
    assert(word_at(src, i, ws[6]) ==> lexed_kind(next_token(src, s)) == Some(keyword_kind(ws[6])));
    assert(word_at(src, i, ws[7]) ==> lexed_kind(next_token(src, s)) == Some(keyword_kind(ws[7])));
}

/// A string token is its text between the two double quotes: its lexeme is
/// the literal with a `"` before and after it. A number or an identifier is
/// its own literal text.
pub proof fn lemma_literal_in_lexeme(src: Seq<u8>, s: Cursor)
    requires
        valid_utf8(src),
        0 <= s.current < src.len(),
    ensures
        next_token(src, s) matches Ok((t, _)) ==> {
            &&& t.kind == TokenKind::String ==> t.lexeme == seq!['"'] + t.literal + seq!['"']
            &&& t.kind == TokenKind::Number || t.kind == TokenKind::Identifier ==> t.literal == t.lexeme
        },
{
    let i = s.current;
    let b = src[i];
    assert(byte_at(src, i) == b);
    if single_kind(b) is None && pair_kinds(b) is None && !(doubled_kind(b) is Some && byte_at(src, i + 1) == b)
        && b == 34u8 {
        lemma_quote_end(src, i + 1);
        let e = quote_end(src, i + 1);
        if e < src.len() {
            lemma_ascii_ends_text(src, i, e + 1);
            let w = src.subrange(i, e + 1);
            assert(w[0] == 34u8);
            assert(w[w.len() - 1] == src[e]);
            lemma_decode_wrapped(w, 34u8);
            assert(w.subrange(1, w.len() - 1) =~= src.subrange(i + 1, e));
            assert(34u8 as char == '"');
        }
    }
}

} // verus!
