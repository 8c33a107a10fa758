//! Lexical analysis: source text to tokens.

use vstd::prelude::*;

use crate::errors::Span;
use crate::text::{
    digit_char,
    byte_offset, char_debug, char_debug_text, lemma_byte_offset_mono, lemma_byte_offset_step,
    nat_decimal, push_char, push_str, push_usize_decimal, str_chars, str_debug, str_debug_text,
    string_of, utf8_len, utf8_width,
};

verus! {

#[derive(Clone, Debug, PartialEq, Eq)]
pub enum TokenKind {
    Fn,
    Return,
    Int,
    String,
    Void,
    Ident(String),
    IntLit(i64),
    StringLit(String),
    Plus,
    Minus,
    Star,
    Slash,
    LParen,
    RParen,
    LBrace,
    RBrace,
    Comma,
    Semicolon,
    Colon,
    Arrow,
    Eof,
}

/// The mathematical content of a [`TokenKind`].
pub enum TokenKindView {
    Fn,
    Return,
    Int,
    String,
    Void,
    Ident(Seq<char>),
    IntLit(i64),
    StringLit(Seq<char>),
    Plus,
    Minus,
    Star,
    Slash,
    LParen,
    RParen,
    LBrace,
    RBrace,
    Comma,
    Semicolon,
    Colon,
    Arrow,
    Eof,
}

impl View for TokenKind {
    type V = TokenKindView;

    open spec fn view(&self) -> TokenKindView {
        match self {
            TokenKind::Fn => TokenKindView::Fn,
            TokenKind::Return => TokenKindView::Return,
            TokenKind::Int => TokenKindView::Int,
            TokenKind::String => TokenKindView::String,
            TokenKind::Void => TokenKindView::Void,
            TokenKind::Ident(s) => TokenKindView::Ident(s@),
            TokenKind::IntLit(n) => TokenKindView::IntLit(*n),
            TokenKind::StringLit(s) => TokenKindView::StringLit(s@),
            TokenKind::Plus => TokenKindView::Plus,
            TokenKind::Minus => TokenKindView::Minus,
            TokenKind::Star => TokenKindView::Star,
            TokenKind::Slash => TokenKindView::Slash,
            TokenKind::LParen => TokenKindView::LParen,
            TokenKind::RParen => TokenKindView::RParen,
            TokenKind::LBrace => TokenKindView::LBrace,
            TokenKind::RBrace => TokenKindView::RBrace,
            TokenKind::Comma => TokenKindView::Comma,
            TokenKind::Semicolon => TokenKindView::Semicolon,
            TokenKind::Colon => TokenKindView::Colon,
            TokenKind::Arrow => TokenKindView::Arrow,
            TokenKind::Eof => TokenKindView::Eof,
        }
    }
}

#[derive(Clone, Debug)]
pub struct Token {
    pub kind: TokenKind,
    pub span: Span,
}

/// The mathematical content of a [`Token`].
pub struct TokenView {
    pub kind: TokenKindView,
    pub span: Span,
}

impl View for Token {
    type V = TokenView;

    open spec fn view(&self) -> TokenView {
        TokenView { kind: self.kind@, span: self.span }
    }
}

/// The views of a sequence of tokens.
pub open spec fn tokens_view(ts: Seq<Token>) -> Seq<TokenView> {
    ts.map_values(|t: Token| t@)
}

// ---------------------------------------------------------------------------
// The lexical grammar, over the characters of the source.
/// `char::is_ascii_whitespace`: space, tab, line feed, form feed, carriage return.
pub open spec fn is_ws(c: char) -> bool {
    c == ' ' || c == '\t' || c == '\n' || c == '\x0C' || c == '\r'
}

pub open spec fn is_digit(c: char) -> bool {
    '0' <= c <= '9'
}

pub open spec fn is_ident_start(c: char) -> bool {
    ('a' <= c <= 'z') || ('A' <= c <= 'Z') || c == '_'
}

pub open spec fn is_ident_char(c: char) -> bool {
    is_ident_start(c) || is_digit(c)
}

/// The first index at or after `i` that does not hold whitespace.
pub open spec fn skip_ws(cs: Seq<char>, i: int) -> int
    decreases cs.len() - i,
{
    if 0 <= i < cs.len() && is_ws(cs[i]) {
        skip_ws(cs, i + 1)
    } else {
        i
    }
}

/// The first index at or after `i` that does not hold an identifier character.
pub open spec fn scan_ident(cs: Seq<char>, i: int) -> int
    decreases cs.len() - i,
{
    if 0 <= i < cs.len() && is_ident_char(cs[i]) {
        scan_ident(cs, i + 1)
    } else {
        i
    }
}

/// The first index at or after `i` that does not hold a decimal digit.
pub open spec fn scan_digits(cs: Seq<char>, i: int) -> int
    decreases cs.len() - i,
{
    if 0 <= i < cs.len() && is_digit(cs[i]) {
        scan_digits(cs, i + 1)
    } else {
        i
    }
}

/// The value of a string of decimal digits.
pub open spec fn digits_value(ds: Seq<char>) -> nat
    decreases ds.len(),
{
    if ds.len() == 0 {
        0
    } else {
        digits_value(ds.drop_last()) * 10 + ((ds.last() as u32) - ('0' as u32)) as nat
    }
}

/// The contents of a string literal whose body starts at `i`, with `buf` already read, and
/// the index just past the closing quote.
pub open spec fn scan_string(cs: Seq<char>, i: int, buf: Seq<char>) -> Result<(Seq<char>, int), Seq<char>>
    decreases cs.len() - i,
{
    if i < 0 || i >= cs.len() {
        Err("unterminated string literal"@)
    } else if cs[i] == '"' {
        Ok((buf, i + 1))
    } else if cs[i] == '\\' {
        if i + 1 >= cs.len() {
            Err("unterminated escape in string"@)
        } else {
            let e = cs[i + 1];
            if e == 'n' {
                scan_string(cs, i + 2, buf.push('\n'))
            } else if e == 't' {
                scan_string(cs, i + 2, buf.push('\t'))
            } else if e == '"' {
                scan_string(cs, i + 2, buf.push('"'))
            } else if e == '\\' {
                scan_string(cs, i + 2, buf.push('\\'))
            } else {
                Err("unknown escape \\"@.push(e))
            }
        }
    } else {
        scan_string(cs, i + 1, buf.push(cs[i]))
    }
}

/// A keyword token for the reserved words, an identifier otherwise.
pub open spec fn keyword_or_ident(s: Seq<char>) -> TokenKindView {
    if s == "fn"@ {
        TokenKindView::Fn
    } else if s == "return"@ {
        TokenKindView::Return
    } else if s == "Int"@ {
        TokenKindView::Int
    } else if s == "String"@ {
        TokenKindView::String
    } else if s == "Void"@ {
        TokenKindView::Void
    } else {
        TokenKindView::Ident(s)
    }
}

/// The kind of the token that starts at index `i` (not whitespace), and the index just past it.
pub open spec fn lex_one(cs: Seq<char>, i: int) -> Result<(TokenKindView, int), Seq<char>> {
    let c = cs[i];
    if c == '+' {
        Ok((TokenKindView::Plus, i + 1))
    } else if c == '-' {
        if i + 1 < cs.len() && cs[i + 1] == '>' {
            Ok((TokenKindView::Arrow, i + 2))
        } else {
            Ok((TokenKindView::Minus, i + 1))
        }
    } else if c == '*' {
        Ok((TokenKindView::Star, i + 1))
    } else if c == '/' {
        Ok((TokenKindView::Slash, i + 1))
    } else if c == '(' {
        Ok((TokenKindView::LParen, i + 1))
    } else if c == ')' {
        Ok((TokenKindView::RParen, i + 1))
    } else if c == '{' {
        Ok((TokenKindView::LBrace, i + 1))
    } else if c == '}' {
        Ok((TokenKindView::RBrace, i + 1))
    } else if c == ',' {
        Ok((TokenKindView::Comma, i + 1))
    } else if c == ';' {
        Ok((TokenKindView::Semicolon, i + 1))
    } else if c == ':' {
        Ok((TokenKindView::Colon, i + 1))
    } else if c == '"' {
        match scan_string(cs, i + 1, Seq::empty()) {
            Ok((s, e)) => Ok((TokenKindView::StringLit(s), e)),
            Err(m) => Err(m),
        }
    } else if is_digit(c) {
        let e = scan_digits(cs, i + 1);
        let ds = cs.subrange(i, e);
        if digits_value(ds) <= i64::MAX {
            Ok((TokenKindView::IntLit(digits_value(ds) as i64), e))
        } else {
            Err("invalid integer literal "@ + str_debug_text(ds))
        }
    } else if is_ident_start(c) {
        let e = scan_ident(cs, i + 1);
        Ok((keyword_or_ident(cs.subrange(i, e)), e))
    } else {
        Err("unexpected character "@ + char_debug_text(c) + " at byte "@ + nat_decimal(
            byte_offset(cs, i),
        ))
    }
}

/// The span of the characters `[i, e)`, in bytes (truncated to 32 bits).
pub open spec fn char_span(cs: Seq<char>, i: int, e: int) -> Span {
    Span { start: byte_offset(cs, i) as u32, end: byte_offset(cs, e) as u32 }
}

/// All tokens from index `i` on, ending with `Eof`, or the first lexical error.
pub open spec fn lex_from(cs: Seq<char>, i: int) -> Result<Seq<TokenView>, Seq<char>>
    decreases cs.len() - i,
{
    let s = skip_ws(cs, i);
    if s < 0 || s >= cs.len() {
        Ok(seq![TokenView { kind: TokenKindView::Eof, span: char_span(cs, s, s) }])
    } else {
        match lex_one(cs, s) {
            Err(m) => Err(m),
            Ok((k, e)) => {
                proof {
                    lemma_skip_ws(cs, i);
                    lemma_lex_one(cs, s);
                }
                match lex_from(cs, e) {
                    Ok(rest) => Ok(seq![TokenView { kind: k, span: char_span(cs, s, e) }] + rest),
                    Err(m) => Err(m),
                }
            },
        }
    }
}

/// The tokens of the whole source text, or the first lexical error.
pub open spec fn tokenize_spec(src: Seq<char>) -> Result<Seq<TokenView>, Seq<char>> {
    lex_from(src, 0)
}

pub proof fn lemma_skip_ws(cs: Seq<char>, i: int)
    ensures
        i <= skip_ws(cs, i),
        0 <= i <= cs.len() ==> skip_ws(cs, i) <= cs.len(),
        0 <= skip_ws(cs, i) < cs.len() ==> !is_ws(cs[skip_ws(cs, i)]),
    decreases cs.len() - i,
{
    if 0 <= i < cs.len() && is_ws(cs[i]) {
        lemma_skip_ws(cs, i + 1);
    }
}

pub proof fn lemma_scan_ident(cs: Seq<char>, i: int)
    requires
        0 <= i <= cs.len(),
    ensures
        i <= scan_ident(cs, i) <= cs.len(),
    decreases cs.len() - i,
{
    if i < cs.len() && is_ident_char(cs[i]) {
        lemma_scan_ident(cs, i + 1);
    }
}

pub proof fn lemma_scan_digits(cs: Seq<char>, i: int)
    requires
        0 <= i <= cs.len(),
    ensures
        i <= scan_digits(cs, i) <= cs.len(),
        forall|j: int| i <= j < scan_digits(cs, i) ==> is_digit(#[trigger] cs[j]),
    decreases cs.len() - i,
{
    if i < cs.len() && is_digit(cs[i]) {
        lemma_scan_digits(cs, i + 1);
    }
}

pub proof fn lemma_scan_string(cs: Seq<char>, i: int, buf: Seq<char>)
    requires
        0 <= i,
    ensures
        scan_string(cs, i, buf) matches Ok((s, e)) ==> i < e <= cs.len(),
    decreases cs.len() - i,
{
    if 0 <= i < cs.len() && cs[i] != '"' {
        if cs[i] == '\\' {
            if i + 1 < cs.len() {
                let e = cs[i + 1];
                if e == 'n' {
                    lemma_scan_string(cs, i + 2, buf.push('\n'));
                } else if e == 't' {
                    lemma_scan_string(cs, i + 2, buf.push('\t'));
                } else if e == '"' {
                    lemma_scan_string(cs, i + 2, buf.push('"'));
                } else if e == '\\' {
                    lemma_scan_string(cs, i + 2, buf.push('\\'));
                }
            }
        } else {
            lemma_scan_string(cs, i + 1, buf.push(cs[i]));
        }
    }
}

/// A token always consumes at least one character, never runs past the end, and is never `Eof`.
pub proof fn lemma_lex_one(cs: Seq<char>, i: int)
    requires
        0 <= i < cs.len(),
    ensures
        lex_one(cs, i) matches Ok((k, e)) ==> i < e <= cs.len() && !(k is Eof),
{
    lemma_scan_string(cs, i + 1, Seq::empty());
    lemma_scan_ident(cs, i + 1);
    lemma_scan_digits(cs, i + 1);
}

/// One step of `lex_from`: the first token, then the rest.
pub proof fn lemma_lex_from_unfold(cs: Seq<char>, i: int)
    requires
        0 <= i <= cs.len(),
    ensures
        ({
            let s = skip_ws(cs, i);
            if s >= cs.len() {
                lex_from(cs, i) == Ok::<Seq<TokenView>, Seq<char>>(
                    seq![TokenView { kind: TokenKindView::Eof, span: char_span(cs, s, s) }],
                )
            } else {
                match lex_one(cs, s) {
                    Err(m) => lex_from(cs, i) == Err::<Seq<TokenView>, Seq<char>>(m),
                    Ok((k, e)) => lex_from(cs, i) == prepend_tokens(
                        seq![TokenView { kind: k, span: char_span(cs, s, e) }],
                        lex_from(cs, e),
                    ),
                }
            }
        }),
{
    lemma_skip_ws(cs, i);
}

pub proof fn lemma_prepend_empty(r: Result<Seq<TokenView>, Seq<char>>)
    ensures
        prepend_tokens(Seq::empty(), r) == r,
{
    if let Ok(ts) = r {
        assert(Seq::<TokenView>::empty() + ts =~= ts);
    }
}

pub proof fn lemma_prepend_assoc(p: Seq<TokenView>, t: TokenView, r: Result<Seq<TokenView>, Seq<char>>)
    ensures
        prepend_tokens(p, prepend_tokens(seq![t], r)) == prepend_tokens(p.push(t), r),
{
    if let Ok(ts) = r {
        assert(p + (seq![t] + ts) =~= p.push(t) + ts);
    }
}

/// Prepends `p` to the tokens of a lexing result.
pub open spec fn prepend_tokens(p: Seq<TokenView>, r: Result<Seq<TokenView>, Seq<char>>) -> Result<
    Seq<TokenView>,
    Seq<char>,
> {
    match r {
        Ok(ts) => Ok(p + ts),
        Err(m) => Err(m),
    }
}

// ---------------------------------------------------------------------------
// The lexer.
struct Cursor {
    idx: usize,
    pos: usize,
}

/// Turns source text into tokens.
pub struct Lexer<'a> {
    src: &'a str,
    chars: Vec<char>,
    total: usize,
    at: Cursor,
}

impl<'a> Lexer<'a> {
    #[verifier::type_invariant]
    spec fn wf(&self) -> bool {
        &&& self.chars@ == self.src@
        &&& self.total == utf8_len(self.chars@)
        &&& self.at.idx <= self.chars@.len()
        &&& self.at.pos == byte_offset(self.chars@, self.at.idx as int)
    }

    /// The characters being lexed.
    pub closed spec fn source(&self) -> Seq<char> {
        self.src@
    }

    /// The index of the next character to read.
    pub closed spec fn position(&self) -> int {
        self.at.idx as int
    }

    pub fn new(src: &'a str) -> (l: Self)
        ensures
            l.source() == src@,
            l.position() == 0,
    {
        let (chars, total) = str_chars(src);
        proof {
            assert(chars@.take(0) =~= Seq::<char>::empty());
        }
        Lexer { src, chars, total, at: Cursor { idx: 0, pos: 0 } }
    }

    /// All tokens from the current position on, ending with `Eof`, or the first error.
    pub fn tokenize(self) -> (r: Result<Vec<Token>, String>)
        ensures
            match lex_from(self.source(), self.position()) {
                Ok(ts) => r matches Ok(v) && tokens_view(v@) == ts,
                Err(m) => r matches Err(e) && e@ == m,
            },
    {
        let mut lx = self;
        lx.lex_all()
    }

    /// Reads tokens up to and including `Eof`, or up to the first error.
    fn lex_all(&mut self) -> (r: Result<Vec<Token>, String>)
        ensures
            match lex_from(old(self).source(), old(self).position()) {
                Ok(ts) => r matches Ok(v) && tokens_view(v@) == ts,
                Err(m) => r matches Err(e) && e@ == m,
            },
    {
        let ghost cs = self.source();
        let ghost start = self.position();
        let lx = self;
        proof {
            use_type_invariant(&*lx);
        }
        let mut out: Vec<Token> = Vec::new();
        proof {
            assert(tokens_view(out@) =~= Seq::<TokenView>::empty());
            lemma_prepend_empty(lex_from(cs, start));
        }
        loop
            invariant_except_break
                old(self).source() == cs,
                old(self).position() == start,
                lx.source() == cs,
                0 <= lx.position() <= cs.len(),
                lex_from(cs, start) == prepend_tokens(tokens_view(out@), lex_from(cs, lx.position())),
            ensures
                lex_from(cs, start) == Ok::<Seq<TokenView>, Seq<char>>(tokens_view(out@)),
            decreases cs.len() - lx.position(),
        {
            let ghost before = lx.position();
            let ghost ov = tokens_view(out@);
            proof {
                lemma_lex_from_unfold(cs, before);
                lemma_skip_ws(cs, before);
            }
            let t = match lx.next_token() {
                Ok(t) => t,
                Err(e) => {
                    return Err(e);
                },
            };
            proof {
                use_type_invariant(&*lx);
            }
            let eof = matches!(t.kind, TokenKind::Eof);
            out.push(t);
            proof {
                assert(tokens_view(out@) =~= ov.push(t@));
                let s = skip_ws(cs, before);
                if s < cs.len() {
                    lemma_lex_one(cs, s);
                }
                lemma_prepend_assoc(ov, t@, lex_from(cs, lx.position()));
            }
            if eof {
                proof {
                    assert(ov + seq![t@] =~= ov.push(t@));
                }
                break;
            }
        }
        Ok(out)
    }

    /// Skips whitespace and reads one token.
    fn next_token(&mut self) -> (r: Result<Token, String>)
        ensures
            final(self).source() == old(self).source(),
            ({
                let cs = old(self).source();
                let s = skip_ws(cs, old(self).position());
                if s >= cs.len() {
                    &&& r matches Ok(t) && t@ == (TokenView { kind: TokenKindView::Eof, span: char_span(cs, s, s) })
                    &&& final(self).position() == s
                } else {
                    match lex_one(cs, s) {
                        Ok((k, e)) => {
                            &&& r matches Ok(t) && t@ == (TokenView { kind: k, span: char_span(cs, s, e) })
                            &&& final(self).position() == e
                        },
                        Err(m) => r matches Err(msg) && msg@ == m,
                    }
                }
            }),
    {
        proof {
            use_type_invariant(&*self);
        }
        self.skip_ws();
        proof {
            use_type_invariant(&*self);
            lemma_skip_ws(self.chars@, old(self).at.idx as int);
        }
        let start = Cursor { idx: self.at.idx, pos: self.at.pos };
        let c = match self.peek_char() {
            Some(c) => c,
            None => {
                return Ok(Token { kind: TokenKind::Eof, span: Span::new(start.pos as u32, start.pos as u32) });
            },
        };
        if c == '+' {
            self.bump();
            Ok(self.tok(TokenKind::Plus, &start))
        } else if c == '-' {
            if self.peek_next() == Some('>') {
                self.bump();
                self.bump();
                Ok(self.tok(TokenKind::Arrow, &start))
            } else {
                self.bump();
                Ok(self.tok(TokenKind::Minus, &start))
            }
        } else if c == '*' {
            self.bump();
            Ok(self.tok(TokenKind::Star, &start))
        } else if c == '/' {
            self.bump();
            Ok(self.tok(TokenKind::Slash, &start))
        } else if c == '(' {
            self.bump();
            Ok(self.tok(TokenKind::LParen, &start))
        } else if c == ')' {
            self.bump();
            Ok(self.tok(TokenKind::RParen, &start))
        } else if c == '{' {
            self.bump();
            Ok(self.tok(TokenKind::LBrace, &start))
        } else if c == '}' {
            self.bump();
            Ok(self.tok(TokenKind::RBrace, &start))
        } else if c == ',' {
            self.bump();
            Ok(self.tok(TokenKind::Comma, &start))
        } else if c == ';' {
            self.bump();
            Ok(self.tok(TokenKind::Semicolon, &start))
        } else if c == ':' {
            self.bump();
            Ok(self.tok(TokenKind::Colon, &start))
        } else if c == '"' {
            self.string_lit(&start)
        } else if '0' <= c && c <= '9' {
            self.int_lit(&start)
        } else if ('a' <= c && c <= 'z') || ('A' <= c && c <= 'Z') || c == '_' {
            self.ident_or_kw(&start)
        } else {
            let mut msg = string_of("unexpected character ");
            let d = char_debug(c);
            push_str(&mut msg, d.as_str());
            push_str(&mut msg, " at byte ");
            push_usize_decimal(&mut msg, self.at.pos);
            Err(msg)
        }
    }

    /// A token of `kind` from `start` to the current position.
    fn tok(&self, kind: TokenKind, start: &Cursor) -> (t: Token)
        requires
            start.idx <= self.at.idx,
            start.pos == byte_offset(self.chars@, start.idx as int),
        ensures
            t@ == (TokenView { kind: kind@, span: char_span(self.chars@, start.idx as int, self.at.idx as int) }),
    {
        proof {
            use_type_invariant(self);
        }
        Token { kind, span: Span::new(start.pos as u32, self.at.pos as u32) }
    }

    /// Reads an identifier or keyword that starts at `start`.
    fn ident_or_kw(&mut self, start: &Cursor) -> (r: Result<Token, String>)
        requires
            start.idx == old(self).at.idx < old(self).chars@.len(),
            start.pos == old(self).at.pos,
            is_ident_start(old(self).chars@[start.idx as int]),
        ensures
            final(self).source() == old(self).source(),
            ({
                let cs = old(self).source();
                let e = scan_ident(cs, start.idx + 1);
                &&& r matches Ok(t) && t@ == (TokenView {
                    kind: keyword_or_ident(cs.subrange(start.idx as int, e)),
                    span: char_span(cs, start.idx as int, e),
                })
                &&& final(self).position() == e
            }),
    {
        proof {
            use_type_invariant(&*self);
        }
        let ghost cs = self.chars@;
        let mut s = String::new();
        push_char(&mut s, self.chars[self.at.idx]);
        self.bump();
        proof {
            assert(s@ =~= cs.subrange(start.idx as int, start.idx + 1));
        }
        loop
            invariant_except_break
                self.chars@ == cs,
                self.src@ == cs,
                start.idx < self.at.idx <= cs.len(),
                scan_ident(cs, self.at.idx as int) == scan_ident(cs, start.idx + 1),
                s@ == cs.subrange(start.idx as int, self.at.idx as int),
            ensures
                self.chars@ == cs,
                self.src@ == cs,
                start.idx < self.at.idx <= cs.len(),
                self.at.idx == scan_ident(cs, start.idx + 1),
                s@ == cs.subrange(start.idx as int, self.at.idx as int),
            decreases cs.len() - self.at.idx,
        {
            proof {
                use_type_invariant(&*self);
            }
            match self.peek_char() {
                Some(c) => {
                    if ('a' <= c && c <= 'z') || ('A' <= c && c <= 'Z') || ('0' <= c && c <= '9') || c == '_' {
                        push_char(&mut s, c);
                        proof {
                            assert(s@ =~= cs.subrange(start.idx as int, self.at.idx + 1));
                        }
                        self.bump();
                    } else {
                        break;
                    }
                },
                None => {
                    break;
                },
            }
        }
        let kind = if s == string_of("fn") {
            TokenKind::Fn
        } else if s == string_of("return") {
            TokenKind::Return
        } else if s == string_of("Int") {
            TokenKind::Int
        } else if s == string_of("String") {
            TokenKind::String
        } else if s == string_of("Void") {
            TokenKind::Void
        } else {
            TokenKind::Ident(s)
        };
        Ok(self.tok(kind, start))
    }

    /// Reads a decimal integer literal that starts at `start`.
    fn int_lit(&mut self, start: &Cursor) -> (r: Result<Token, String>)
        requires
            start.idx == old(self).at.idx < old(self).chars@.len(),
            start.pos == old(self).at.pos,
            is_digit(old(self).chars@[start.idx as int]),
        ensures
            final(self).source() == old(self).source(),
            ({
                let cs = old(self).source();
                let e = scan_digits(cs, start.idx + 1);
                let ds = cs.subrange(start.idx as int, e);
                if digits_value(ds) <= i64::MAX {
                    &&& r matches Ok(t) && t@ == (TokenView {
                        kind: TokenKindView::IntLit(digits_value(ds) as i64),
                        span: char_span(cs, start.idx as int, e),
                    })
                    &&& final(self).position() == e
                } else {
                    r matches Err(m) && m@ == "invalid integer literal "@ + str_debug_text(ds)
                }
            }),
    {
        proof {
            use_type_invariant(&*self);
        }
        let ghost cs = self.chars@;
        self.bump();
        loop
            invariant_except_break
                self.chars@ == cs,
                self.src@ == cs,
                start.idx < self.at.idx <= cs.len(),
                scan_digits(cs, self.at.idx as int) == scan_digits(cs, start.idx + 1),
            ensures
                self.chars@ == cs,
                self.src@ == cs,
                start.idx < self.at.idx <= cs.len(),
                self.at.idx == scan_digits(cs, start.idx + 1),
            decreases cs.len() - self.at.idx,
        {
            proof {
                use_type_invariant(&*self);
            }
            match self.peek_char() {
                Some(c) => {
                    if '0' <= c && c <= '9' {
                        self.bump();
                    } else {
                        break;
                    }
                },
                None => {
                    break;
                },
            }
        }
        proof {
            use_type_invariant(&*self);
        }
        let end = self.at.idx;
        let ghost ds = cs.subrange(start.idx as int, end as int);
        proof {
            lemma_scan_digits(cs, start.idx + 1);
            assert forall|j: int| 0 <= j < ds.len() implies is_digit(#[trigger] ds[j]) by {
                assert(ds[j] == cs[start.idx + j]);
            }
        }
        let mut n: i64 = 0;
        let mut i: usize = start.idx;
        let mut overflow = false;
        proof {
            assert(cs.subrange(start.idx as int, start.idx as int) =~= Seq::<char>::empty());
        }
        while i < end
            invariant_except_break
                start.idx <= i <= end <= cs.len(),
                self.chars@ == cs,
                forall|j: int| start.idx <= j < end ==> is_digit(#[trigger] cs[j]),
                forall|j: int| 0 <= j < ds.len() ==> is_digit(#[trigger] ds[j]),
                ds == cs.subrange(start.idx as int, end as int),
                0 <= n,
                n as nat == digits_value(cs.subrange(start.idx as int, i as int)),
                !overflow,
            ensures
                overflow ==> digits_value(ds) > i64::MAX,
                !overflow ==> 0 <= n && n as nat == digits_value(ds),
            decreases end - i,
        {
            let c = self.chars[i];
            proof {
                assert(is_digit(cs[i as int]));
                assert(cs.subrange(start.idx as int, i + 1).drop_last() =~= cs.subrange(start.idx as int, i as int));
                assert(cs.subrange(start.idx as int, i + 1).last() == c);
            }
            let d = (c as u32 - '0' as u32) as i64;
            if n > 922337203685477580 || (n == 922337203685477580 && d > 7) {
                proof {
                    lemma_digits_value_prefix(ds, (i + 1 - start.idx) as int);
                    assert(ds.take((i + 1 - start.idx) as int) =~= cs.subrange(start.idx as int, i + 1));
                }
                overflow = true;
                break;
            }
            n = n * 10 + d;
            i = i + 1;
        }

        proof {
            assert(cs.subrange(start.idx as int, end as int) == ds);
        }
        if overflow {
            let mut digits = String::new();
            let mut j: usize = start.idx;
            while j < end
                invariant
                    start.idx <= j <= end <= cs.len(),
                    self.chars@ == cs,
                    digits@ == cs.subrange(start.idx as int, j as int),
                decreases end - j,
            {
                push_char(&mut digits, self.chars[j]);
                assert(digits@ =~= cs.subrange(start.idx as int, j + 1));
                j = j + 1;
            }
            let mut msg = string_of("invalid integer literal ");
            let dbg = str_debug(digits.as_str());
            push_str(&mut msg, dbg.as_str());
            return Err(msg);
        }
        proof {
            assert(n == digits_value(ds) as i64);
        }
        Ok(self.tok(TokenKind::IntLit(n), start))
    }

    /// Reads a string literal whose opening quote is at `start`.
    fn string_lit(&mut self, start: &Cursor) -> (r: Result<Token, String>)
        requires
            start.idx == old(self).at.idx < old(self).chars@.len(),
            start.pos == old(self).at.pos,
            old(self).chars@[start.idx as int] == '"',
        ensures
            final(self).source() == old(self).source(),
            ({
                let cs = old(self).source();
                match scan_string(cs, start.idx + 1, Seq::empty()) {
                    Ok((s, e)) => {
                        &&& r matches Ok(t) && t@ == (TokenView {
                            kind: TokenKindView::StringLit(s),
                            span: char_span(cs, start.idx as int, e),
                        })
                        &&& final(self).position() == e
                    },
                    Err(m) => r matches Err(msg) && msg@ == m,
                }
            }),
    {
        proof {
            use_type_invariant(&*self);
        }
        let ghost cs = self.chars@;
        self.bump();
        let mut buf = String::new();
        loop
            invariant_except_break
                self.chars@ == cs,
                self.src@ == cs,
                start.idx < self.at.idx <= cs.len(),
                old(self).src@ == cs,
                scan_string(cs, self.at.idx as int, buf@) == scan_string(cs, start.idx + 1, Seq::empty()),
            ensures
                self.chars@ == cs,
                self.src@ == cs,
                start.idx < self.at.idx <= cs.len(),
                scan_string(cs, start.idx + 1, Seq::empty()) == Ok::<(Seq<char>, int), Seq<char>>((buf@, self.at.idx as int)),
            decreases cs.len() - self.at.idx,
        {
            proof {
                use_type_invariant(&*self);
            }
            let c = match self.peek_char() {
                Some(c) => c,
                None => {
                    return Err(string_of("unterminated string literal"));
                },
            };
            if c == '"' {
                self.bump();
                break;
            }
            if c == '\\' {
                self.bump();
                let esc = match self.peek_char() {
                    Some(e) => e,
                    None => {
                        return Err(string_of("unterminated escape in string"));
                    },
                };
                if esc == 'n' {
                    push_char(&mut buf, '\n');
                    self.bump();
                } else if esc == 't' {
                    push_char(&mut buf, '\t');
                    self.bump();
                } else if esc == '"' {
                    push_char(&mut buf, '"');
                    self.bump();
                } else if esc == '\\' {
                    push_char(&mut buf, '\\');
                    self.bump();
                } else {
                    let mut msg = string_of("unknown escape \\");
                    push_char(&mut msg, esc);
                    return Err(msg);
                }
            } else {
                self.bump();
                push_char(&mut buf, c);
            }
        }
        Ok(self.tok(TokenKind::StringLit(buf), start))
    }

    /// Advances past whitespace.
    fn skip_ws(&mut self)
        ensures
            final(self).source() == old(self).source(),
            final(self).position() == skip_ws(old(self).source(), old(self).position()),
    {
        proof {
            use_type_invariant(&*self);
        }
        let ghost cs = self.chars@;
        loop
            invariant_except_break
                self.chars@ == cs,
                self.src@ == cs,
                self.at.idx <= cs.len(),
                skip_ws(cs, self.at.idx as int) == skip_ws(cs, old(self).at.idx as int),
            ensures
                self.chars@ == cs,
                self.src@ == cs,
                self.at.idx == skip_ws(cs, old(self).at.idx as int),
            decreases cs.len() - self.at.idx,
        {
            proof {
                use_type_invariant(&*self);
            }
            match self.peek_char() {
                Some(c) => {
                    if c == ' ' || c == '\t' || c == '\n' || c == '\x0C' || c == '\r' {
                        self.bump();
                    } else {
                        break;
                    }
                },
                None => {
                    break;
                },
            }
        }
    }

    /// The character at the current position, if any.
    fn peek_char(&self) -> (r: Option<char>)
        ensures
            self.at.idx < self.chars@.len() ==> r == Some(self.chars@[self.at.idx as int]),
            self.at.idx >= self.chars@.len() ==> r is None,
    {
        if self.at.idx < self.chars.len() {
            Some(self.chars[self.at.idx])
        } else {
            None
        }
    }

    /// The character after the current one, if any.
    fn peek_next(&self) -> (r: Option<char>)
        ensures
            self.at.idx + 1 < self.chars@.len() ==> r == Some(self.chars@[self.at.idx + 1]),
            self.at.idx + 1 >= self.chars@.len() ==> r is None,
    {
        proof {
            use_type_invariant(self);
        }
        if self.at.idx < self.chars.len() && self.at.idx + 1 < self.chars.len() {
            Some(self.chars[self.at.idx + 1])
        } else {
            None
        }
    }

    /// Moves past the current character, if any.
    fn bump(&mut self)
        ensures
            final(self).chars@ == old(self).chars@,
            final(self).src@ == old(self).src@,
            old(self).at.idx < old(self).chars@.len() ==> final(self).at.idx == old(self).at.idx + 1,
            old(self).at.idx >= old(self).chars@.len() ==> final(self).at.idx == old(self).at.idx,
    {
        proof {
            use_type_invariant(&*self);
        }
        if self.at.idx < self.chars.len() {
            let c = self.chars[self.at.idx];
            proof {
                lemma_byte_offset_step(self.chars@, self.at.idx as int);
                lemma_byte_offset_mono(self.chars@, self.at.idx + 1, self.chars@.len() as int);
                assert(self.chars@.take(self.chars@.len() as int) =~= self.chars@);
            }
            let w: usize = if (c as u32) < 0x80 {
                1
            } else if (c as u32) < 0x800 {
                2
            } else if (c as u32) < 0x10000 {
                3
            } else {
                4
            };
            self.at = Cursor { idx: self.at.idx + 1, pos: self.at.pos + w };
        }
    }
}

/// The value of a prefix of a digit string is at most the value of the whole.
pub proof fn lemma_digits_value_prefix(ds: Seq<char>, k: int)
    requires
        0 <= k <= ds.len(),
        forall|j: int| 0 <= j < ds.len() ==> is_digit(#[trigger] ds[j]),
    ensures
        digits_value(ds.take(k)) <= digits_value(ds),
    decreases ds.len() - k,
{
    if k < ds.len() {
        lemma_digits_value_prefix(ds, k + 1);
        assert(ds.take(k + 1).drop_last() =~= ds.take(k));
    } else {
        assert(ds.take(k) =~= ds);
    }
}

} // verus!

verus! {

/// The Debug rendering of a token kind, as `format!("{:?}", kind)` gives it for the derived impl.
pub open spec fn kind_debug_text(k: TokenKindView) -> Seq<char> {
    match k {
        TokenKindView::Fn => "Fn"@,
        TokenKindView::Return => "Return"@,
        TokenKindView::Int => "Int"@,
        TokenKindView::String => "String"@,
        TokenKindView::Void => "Void"@,
        TokenKindView::Ident(s) => "Ident("@ + str_debug_text(s) + ")"@,
        TokenKindView::IntLit(n) => "IntLit("@ + crate::text::int_decimal(n as int) + ")"@,
        TokenKindView::StringLit(s) => "StringLit("@ + str_debug_text(s) + ")"@,
        TokenKindView::Plus => "Plus"@,
        TokenKindView::Minus => "Minus"@,
        TokenKindView::Star => "Star"@,
        TokenKindView::Slash => "Slash"@,
        TokenKindView::LParen => "LParen"@,
        TokenKindView::RParen => "RParen"@,
        TokenKindView::LBrace => "LBrace"@,
        TokenKindView::RBrace => "RBrace"@,
        TokenKindView::Comma => "Comma"@,
        TokenKindView::Semicolon => "Semicolon"@,
        TokenKindView::Colon => "Colon"@,
        TokenKindView::Arrow => "Arrow"@,
        TokenKindView::Eof => "Eof"@,
    }
}

impl TokenKind {
    /// The Debug rendering of this kind (see `kind_debug_text`).
    pub fn debug_text(&self) -> (r: String)
        ensures
            r@ == kind_debug_text(self@),
    {
        match self {
            TokenKind::Fn => string_of("Fn"),
            TokenKind::Return => string_of("Return"),
            TokenKind::Int => string_of("Int"),
            TokenKind::String => string_of("String"),
            TokenKind::Void => string_of("Void"),
            TokenKind::Ident(s) => {
                let mut r = string_of("Ident(");
                let d = str_debug(s.as_str());
                push_str(&mut r, d.as_str());
                push_str(&mut r, ")");
                r
            },
            TokenKind::IntLit(n) => {
                let mut r = string_of("IntLit(");
                crate::text::push_i64_decimal(&mut r, *n);
                push_str(&mut r, ")");
                r
            },
            TokenKind::StringLit(s) => {
                let mut r = string_of("StringLit(");
                let d = str_debug(s.as_str());
                push_str(&mut r, d.as_str());
                push_str(&mut r, ")");
                r
            },
            TokenKind::Plus => string_of("Plus"),
            TokenKind::Minus => string_of("Minus"),
            TokenKind::Star => string_of("Star"),
            TokenKind::Slash => string_of("Slash"),
            TokenKind::LParen => string_of("LParen"),
            TokenKind::RParen => string_of("RParen"),
            TokenKind::LBrace => string_of("LBrace"),
            TokenKind::RBrace => string_of("RBrace"),
            TokenKind::Comma => string_of("Comma"),
            TokenKind::Semicolon => string_of("Semicolon"),
            TokenKind::Colon => string_of("Colon"),
            TokenKind::Arrow => string_of("Arrow"),
            TokenKind::Eof => string_of("Eof"),
        }
    }

    /// A copy of this kind.
    pub fn duplicate(&self) -> (r: TokenKind)
        ensures
            r@ == self@,
    {
        match self {
            TokenKind::Fn => TokenKind::Fn,
            TokenKind::Return => TokenKind::Return,
            TokenKind::Int => TokenKind::Int,
            TokenKind::String => TokenKind::String,
            TokenKind::Void => TokenKind::Void,
            TokenKind::Ident(s) => TokenKind::Ident(s.clone()),
            TokenKind::IntLit(n) => TokenKind::IntLit(*n),
            TokenKind::StringLit(s) => TokenKind::StringLit(s.clone()),
            TokenKind::Plus => TokenKind::Plus,
            TokenKind::Minus => TokenKind::Minus,
            TokenKind::Star => TokenKind::Star,
            TokenKind::Slash => TokenKind::Slash,
            TokenKind::LParen => TokenKind::LParen,
            TokenKind::RParen => TokenKind::RParen,
            TokenKind::LBrace => TokenKind::LBrace,
            TokenKind::RBrace => TokenKind::RBrace,
            TokenKind::Comma => TokenKind::Comma,
            TokenKind::Semicolon => TokenKind::Semicolon,
            TokenKind::Colon => TokenKind::Colon,
            TokenKind::Arrow => TokenKind::Arrow,
            TokenKind::Eof => TokenKind::Eof,
        }
    }
}

} // verus!

verus! {

/// A successful lexing ends with exactly one `Eof` token, and only there.
pub proof fn lemma_tokens_end_with_eof(cs: Seq<char>, i: int)
    requires
        0 <= i <= cs.len(),
    ensures
        lex_from(cs, i) matches Ok(ts) ==> {
            &&& ts.len() >= 1
            &&& ts.last().kind is Eof
            &&& forall|k: int| 0 <= k < ts.len() - 1 ==> !(ts[k].kind is Eof)
        },
    decreases cs.len() - i,
{
    lemma_lex_from_unfold(cs, i);
    lemma_skip_ws(cs, i);
    let s = skip_ws(cs, i);
    if s < cs.len() {
        lemma_lex_one(cs, s);
        if let Ok((k, e)) = lex_one(cs, s) {
            lemma_tokens_end_with_eof(cs, e);
            if let Ok(rest) = lex_from(cs, e) {
                let t = TokenView { kind: k, span: char_span(cs, s, e) };
                assert(seq![t] + rest == prepend_tokens(seq![t], lex_from(cs, e))->Ok_0);
                assert forall|j: int| 0 <= j < rest.len() + 1 - 1 implies !((seq![t] + rest)[j].kind is Eof) by {
                    if j > 0 {
                        assert((seq![t] + rest)[j] == rest[j - 1]);
                    }
                }
            }
        }
    }
}

/// When byte offsets fit in 32 bits, the tokens from index `i` on have well-formed spans that
/// follow one another in order, start at or after the byte offset of `i`, and end within the
/// source.
pub proof fn lemma_token_spans_ordered(cs: Seq<char>, i: int)
    requires
        0 <= i <= cs.len(),
        utf8_len(cs) <= u32::MAX,
    ensures
        lex_from(cs, i) matches Ok(ts) ==> {
            &&& ts.len() >= 1
            &&& byte_offset(cs, i) <= ts[0].span.start
            &&& forall|k: int| 0 <= k < ts.len() ==> #[trigger] ts[k].span.start <= ts[k].span.end <= utf8_len(cs)
            &&& forall|k: int| 0 <= k < ts.len() - 1 ==> #[trigger] ts[k].span.end <= ts[k + 1].span.start
        },
    decreases cs.len() - i,
{
    lemma_lex_from_unfold(cs, i);
    lemma_skip_ws(cs, i);
    let s = skip_ws(cs, i);
    assert(cs.take(cs.len() as int) =~= cs);
    lemma_byte_offset_mono(cs, i, s);
    lemma_byte_offset_mono(cs, s, cs.len() as int);
    if s < cs.len() {
        lemma_lex_one(cs, s);
        if let Ok((k, e)) = lex_one(cs, s) {
            lemma_byte_offset_mono(cs, s, e);
            lemma_byte_offset_mono(cs, e, cs.len() as int);
            lemma_token_spans_ordered(cs, e);
            if let Ok(rest) = lex_from(cs, e) {
                let t = TokenView { kind: k, span: char_span(cs, s, e) };
                let ts = seq![t] + rest;
                assert forall|j: int| 0 <= j < ts.len() implies #[trigger] ts[j].span.start <= ts[j].span.end <= utf8_len(cs) by {
                    if j > 0 {
                        assert(ts[j] == rest[j - 1]);
                    }
                }
                assert forall|j: int| 0 <= j < ts.len() - 1 implies #[trigger] ts[j].span.end <= ts[j + 1].span.start by {
                    if j > 0 {
                        assert(ts[j] == rest[j - 1]);
                        assert(ts[j + 1] == rest[j]);
                    } else {
                        assert(ts[1] == rest[0]);
                    }
                }
            }
        }
    } else {
        assert(cs.take(s) =~= cs);
    }
}

/// The characters that `scan_ident` passes over are identifier characters, and it stops at
/// the first one that is not.
proof fn lemma_scan_ident_run(cs: Seq<char>, i: int)
    requires
        0 <= i <= cs.len(),
    ensures
        forall|j: int| i <= j < scan_ident(cs, i) ==> is_ident_char(#[trigger] cs[j]),
        scan_ident(cs, i) < cs.len() ==> !is_ident_char(cs[scan_ident(cs, i)]),
    decreases cs.len() - i,
{
    lemma_scan_ident(cs, i);
    if i < cs.len() && is_ident_char(cs[i]) {
        lemma_scan_ident_run(cs, i + 1);
    }
}

/// A word (a run starting with an ASCII letter or `_`) is one token that takes in every
/// following ASCII letter of either case, digit and underscore, and stops at the first other
/// character: its text is that whole run, read as a keyword or an identifier.
pub proof fn lemma_words_are_maximal(cs: Seq<char>, i: int)
    requires
        0 <= i < cs.len(),
        ('a' <= cs[i] <= 'z') || ('A' <= cs[i] <= 'Z') || cs[i] == '_',
    ensures
        lex_one(cs, i) matches Ok((k, e)) && {
            &&& i < e <= cs.len()
            &&& k == keyword_or_ident(cs.subrange(i, e))
            &&& forall|j: int|
                i <= j < e ==> ('a' <= #[trigger] cs[j] <= 'z') || ('A' <= cs[j] <= 'Z') || ('0' <= cs[j] <= '9') || cs[j]
                    == '_'
            &&& e < cs.len() ==> !(('a' <= cs[e] <= 'z') || ('A' <= cs[e] <= 'Z') || ('0' <= cs[e] <= '9') || cs[e] == '_')
        },
{
    lemma_scan_ident(cs, i + 1);
    lemma_scan_ident_run(cs, i + 1);
    let c = cs[i];
    assert(!is_digit(c) && is_ident_start(c));
    assert(c != '+' && c != '-' && c != '*' && c != '/' && c != '(' && c != ')' && c != '{' && c != '}' && c != ','
        && c != ';' && c != ':' && c != '"');
    let e = scan_ident(cs, i + 1);
    assert(lex_one(cs, i) == Ok::<(TokenKindView, int), Seq<char>>((keyword_or_ident(cs.subrange(i, e)), e)));
    assert forall|j: int| i <= j < e implies ('a' <= #[trigger] cs[j] <= 'z') || ('A' <= cs[j] <= 'Z') || ('0' <= cs[j]
        <= '9') || cs[j] == '_' by {
        if j > i {
            assert(is_ident_char(cs[j]));
        }
    }
    if e < cs.len() {
        assert(!is_ident_char(cs[e]));
    }
}

/// `digits_value` reads decimal numerals: one digit is its own value, and the numeral `a`
/// followed by the numeral `b` has the value of `a` shifted left by the length of `b`, plus the
/// value of `b`.
pub proof fn lemma_decimal_value(a: Seq<char>, b: Seq<char>, d: char)
    requires
        '0' <= d <= '9',
    ensures
        digits_value(seq![d]) == (d as u32) - ('0' as u32),
        digits_value(a + b) == digits_value(a) * vstd::arithmetic::power::pow(10, b.len()) + digits_value(b),
    decreases b.len(),
{
    reveal(vstd::arithmetic::power::pow);
    assert(seq![d].drop_last() =~= Seq::<char>::empty());
    assert(digits_value(Seq::<char>::empty()) == 0);
    assert(seq![d].last() == d);
    if b.len() == 0 {
        assert(a + b =~= a);
        assert(vstd::arithmetic::power::pow(10, 0) == 1);
    } else {
        lemma_decimal_value(a, b.drop_last(), d);
        assert((a + b).drop_last() =~= a + b.drop_last());
        assert((a + b).last() == b.last());
        let p = vstd::arithmetic::power::pow(10, b.drop_last().len());
        assert(vstd::arithmetic::power::pow(10, b.len()) == 10 * p);
        let x = digits_value(a);
        let y = digits_value(b.drop_last());
        assert((x * p + y) * 10 == x * (10 * p) + y * 10) by (nonlinear_arith);
    }
}

proof fn lemma_skip_ws_run(cs: Seq<char>, i: int)
    requires
        0 <= i <= cs.len(),
    ensures
        forall|j: int| i <= j < skip_ws(cs, i) ==> is_ws(#[trigger] cs[j]),
    decreases cs.len() - i,
{
    if i < cs.len() && is_ws(cs[i]) {
        lemma_skip_ws_run(cs, i + 1);
    }
}

/// Tokens are separated only by ASCII whitespace (space, tab, line feed, form feed, carriage
/// return): lexing skips exactly the run of such characters before a token, and where no
/// token is left the only token is `Eof`.
pub proof fn lemma_whitespace_is_skipped(cs: Seq<char>, i: int)
    requires
        0 <= i <= cs.len(),
    ensures
        ({
            let w = skip_ws(cs, i);
            &&& i <= w <= cs.len()
            &&& forall|j: int|
                i <= j < w ==> (#[trigger] cs[j] == ' ' || cs[j] == '\t' || cs[j] == '\n' || cs[j] == '\x0C' || cs[j]
                    == '\r')
            &&& w < cs.len() ==> !(cs[w] == ' ' || cs[w] == '\t' || cs[w] == '\n' || cs[w] == '\x0C' || cs[w] == '\r')
            &&& w == cs.len() ==> (lex_from(cs, i) matches Ok(ts) && ts.len() == 1 && ts[0].kind is Eof)
            &&& w < cs.len() ==> lex_from(cs, i) == lex_from(cs, w)
        }),
{
    lemma_skip_ws(cs, i);
    lemma_skip_ws_run(cs, i);
    let w = skip_ws(cs, i);
    lemma_skip_ws(cs, w);
    if w < cs.len() {
        assert(skip_ws(cs, w) == w);
    }
}

/// Token `k` of `ts` is the one read at character `pos[k]`: every token but the last is what
/// `lex_one` reads there, with the span of the characters it read, and the next one starts
/// after the whitespace that follows; the last one is `Eof`, at the end of the text.
pub open spec fn token_at(cs: Seq<char>, ts: Seq<TokenView>, pos: Seq<int>, k: int) -> bool {
    if k + 1 < ts.len() {
        0 <= pos[k] < cs.len() && match lex_one(cs, pos[k]) {
            Ok((kind, e)) => ts[k] == (TokenView { kind, span: char_span(cs, pos[k], e) }) && pos[k + 1] == skip_ws(cs, e),
            Err(_) => false,
        }
    } else {
        pos[k] >= cs.len() && ts[k] == (TokenView { kind: TokenKindView::Eof, span: char_span(cs, pos[k], pos[k]) })
    }
}

/// `ts` are the tokens read one after another from the first non-space character at or
/// after `i`.
pub open spec fn tokens_at(cs: Seq<char>, i: int, ts: Seq<TokenView>, pos: Seq<int>) -> bool {
    &&& ts.len() >= 1
    &&& pos.len() == ts.len()
    &&& pos[0] == skip_ws(cs, i)
    &&& forall|k: int| 0 <= k < ts.len() ==> #[trigger] token_at(cs, ts, pos, k)
}

/// Lexing reads the text from left to right, one token after another, skipping the
/// whitespace between them, and drops nothing: each token is the one that starts where the
/// previous one (and the whitespace after it) ends.
pub proof fn lemma_tokens_in_order(cs: Seq<char>, i: int)
    requires
        0 <= i <= cs.len(),
    ensures
        lex_from(cs, i) is Ok ==> exists|pos: Seq<int>| #[trigger] tokens_at(cs, i, lex_from(cs, i)->Ok_0, pos),
    decreases cs.len() - i,
{
    lemma_lex_from_unfold(cs, i);
    lemma_skip_ws(cs, i);
    let w = skip_ws(cs, i);
    if w >= cs.len() {
        let ts = lex_from(cs, i)->Ok_0;
        let pos = seq![w];
        assert(token_at(cs, ts, pos, 0));
        assert(tokens_at(cs, i, ts, pos));
    } else if let Ok((kind, e)) = lex_one(cs, w) {
        lemma_lex_one(cs, w);
        lemma_tokens_in_order(cs, e);
        if let Ok(rest) = lex_from(cs, e) {
            let p2 = choose|pos: Seq<int>| #[trigger] tokens_at(cs, e, rest, pos);
            let t0 = TokenView { kind, span: char_span(cs, w, e) };
            let ts = seq![t0] + rest;
            assert(lex_from(cs, i)->Ok_0 == ts);
            let pos = seq![w] + p2;
            assert forall|k: int| 0 <= k < ts.len() implies #[trigger] token_at(cs, ts, pos, k) by {
                if k > 0 {
                    assert(pos[k] == p2[k - 1]);
                    assert(ts[k] == rest[k - 1]);
                    assert(token_at(cs, rest, p2, k - 1));
                    if k + 1 < ts.len() {
                        assert(pos[k + 1] == p2[k]);
                    }
                } else {
                    assert(pos[1] == p2[0]);
                }
            }
            assert(tokens_at(cs, i, ts, pos));
        }
    }
}

/// `-` followed by `>` is one arrow token; any other `-` is a minus sign.
pub proof fn lemma_arrow_or_minus(cs: Seq<char>, i: int)
    requires
        0 <= i < cs.len(),
        cs[i] == '-',
    ensures
        (i + 1 < cs.len() && cs[i + 1] == '>') ==> lex_one(cs, i) == Ok::<(TokenKindView, int), Seq<char>>(
            (TokenKindView::Arrow, i + 2),
        ),
        !(i + 1 < cs.len() && cs[i + 1] == '>') ==> lex_one(cs, i) == Ok::<(TokenKindView, int), Seq<char>>(
            (TokenKindView::Minus, i + 1),
        ),
{
}

/// The decimal rendering of a number reads back as that number: it is a non-empty run of
/// digits, without a leading zero unless the number is zero, whose value is the number.
pub proof fn lemma_decimal_round_trip(n: nat)
    ensures
        nat_decimal(n).len() >= 1,
        forall|j: int| 0 <= j < nat_decimal(n).len() ==> '0' <= #[trigger] nat_decimal(n)[j] <= '9',
        nat_decimal(n)[0] == '0' ==> n == 0,
        digits_value(nat_decimal(n)) == n,
    decreases n,
{
    if n < 10 {
        let d = digit_char(n);
        assert(d as u32 == '0' as u32 + n);
        assert(nat_decimal(n) =~= seq![d]);
        assert(seq![d].drop_last() =~= Seq::<char>::empty());
        assert(digits_value(Seq::<char>::empty()) == 0);
    } else {
        lemma_decimal_round_trip(n / 10);
        let x = nat_decimal(n / 10);
        let d = digit_char(n % 10);
        assert(d as u32 == '0' as u32 + n % 10);
        assert(x.push(d).drop_last() =~= x);
        assert(x.push(d)[0] == x[0]);
        assert(n / 10 > 0);
        assert(n == (n / 10) * 10 + n % 10);
    }
}

/// A number is one token over the whole run of decimal digits that starts it, and its value
/// is the value of that numeral; a numeral too large for `i64` is an error.
pub proof fn lemma_numbers_are_maximal(cs: Seq<char>, i: int)
    requires
        0 <= i < cs.len(),
        '0' <= cs[i] <= '9',
    ensures
        ({
            let e = scan_digits(cs, i + 1);
            &&& i < e <= cs.len()
            &&& forall|j: int| i <= j < e ==> '0' <= #[trigger] cs[j] <= '9'
            &&& e < cs.len() ==> !('0' <= cs[e] <= '9')
            &&& digits_value(cs.subrange(i, e)) <= i64::MAX ==> lex_one(cs, i) == Ok::<(TokenKindView, int), Seq<char>>(
                (TokenKindView::IntLit(digits_value(cs.subrange(i, e)) as i64), e),
            )
            &&& digits_value(cs.subrange(i, e)) > i64::MAX ==> lex_one(cs, i) is Err
        }),
{
    lemma_scan_digits(cs, i + 1);
    lemma_scan_digits_stops(cs, i + 1);
    let c = cs[i];
    assert(c != '+' && c != '-' && c != '*' && c != '/' && c != '(' && c != ')' && c != '{' && c != '}' && c != ','
        && c != ';' && c != ':' && c != '"');
}

proof fn lemma_scan_digits_stops(cs: Seq<char>, i: int)
    requires
        0 <= i <= cs.len(),
    ensures
        scan_digits(cs, i) < cs.len() ==> !is_digit(cs[scan_digits(cs, i)]),
    decreases cs.len() - i,
{
    if i < cs.len() && is_digit(cs[i]) {
        lemma_scan_digits_stops(cs, i + 1);
    }
}

proof fn lemma_scan_plain(cs: Seq<char>, start: int, k: int, j: int)
    requires
        0 <= start <= k <= j < cs.len(),
        cs[j] == '"',
        forall|m: int| start <= m < j ==> #[trigger] cs[m] != '"' && cs[m] != '\\',
    ensures
        scan_string(cs, k, cs.subrange(start, k)) == Ok::<(Seq<char>, int), Seq<char>>((cs.subrange(start, j), j + 1)),
    decreases j - k,
{
    if k < j {
        assert(cs.subrange(start, k).push(cs[k]) =~= cs.subrange(start, k + 1));
        lemma_scan_plain(cs, start, k + 1, j);
    }
}

/// A string literal without backslashes holds exactly the characters between its quotes, and
/// ends at the first closing quote.
pub proof fn lemma_plain_strings(cs: Seq<char>, i: int, j: int)
    requires
        0 <= i < j < cs.len(),
        cs[i] == '"',
        cs[j] == '"',
        forall|m: int| i < m < j ==> #[trigger] cs[m] != '"' && cs[m] != '\\',
    ensures
        lex_one(cs, i) == Ok::<(TokenKindView, int), Seq<char>>((TokenKindView::StringLit(cs.subrange(i + 1, j)), j + 1)),
{
    assert(cs.subrange(i + 1, i + 1) =~= Seq::<char>::empty());
    lemma_scan_plain(cs, i + 1, i + 1, j);
}

/// An identifier token never carries a reserved word.
pub proof fn lemma_keywords_not_identifiers(s: Seq<char>)
    ensures
        keyword_or_ident(s) matches TokenKindView::Ident(name) ==> name == s && s != "fn"@ && s != "return"@
            && s != "Int"@ && s != "String"@ && s != "Void"@,
{
}

} // verus!
