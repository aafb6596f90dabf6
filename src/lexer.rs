//! The tokenizer of the assembly dialect.
use vstd::prelude::*;
use vstd::string::*;
use crate::isa::{op_named, Op};

verus! {

/// The kind of a token, with its value where it has one.
#[derive(Debug, Clone, PartialEq, Eq)]
pub enum TokenKind {
    Plus,
    Minus,
    Star,
    Slash,
    LParen,
    RParen,
    LSquare,
    RSquare,
    Comma,
    /// An instruction mnemonic; the token's literal holds it.
    Instruction,
    Directive(String),
    Label(String),
    Int(u32),
    Ident(String),
    /// A string literal; the token's literal holds its text.
    String,
    ByteSeq(Vec<u8>),
}

/// A token and the text it stands for.
#[derive(Debug, Clone)]
pub struct Token {
    pub kind: TokenKind,
    pub literal: String,
}

/// Why a source text could not be tokenized; `pos` counts characters.
#[derive(Debug, Clone, PartialEq, Eq)]
pub enum LexError {
    UnterminatedString { pos: usize },
    UnterminatedByteSeq { pos: usize },
    ByteOutOfRange { value: u32, pos: usize },
    BadByteSeqChar { pos: usize },
    IntOverflow { pos: usize },
    MissingDigits { pos: usize },
}

/// Unicode `White_Space`: the characters that `char::is_whitespace` accepts.
pub open spec fn whitespace(c: char) -> bool {
    ('\u{9}' <= c <= '\u{d}') || c == ' ' || c == '\u{85}' || c == '\u{a0}' || c == '\u{1680}' || ('\u{2000}'
        <= c <= '\u{200a}') || c == '\u{2028}' || c == '\u{2029}' || c == '\u{202f}' || c == '\u{205f}' || c
        == '\u{3000}'
}

/// A name for `char::is_alphabetic` (Unicode `Alphabetic`).
pub uninterp spec fn alphabetic(c: char) -> bool;

/// A name for `char::is_alphanumeric` (Unicode `Alphabetic` or `Numeric`).
pub uninterp spec fn alphanumeric(c: char) -> bool;

/// Whether `c` is whitespace.
fn is_space(c: char) -> (r: bool)
    ensures
        r == whitespace(c),
{
    ('\u{9}' <= c && c <= '\u{d}') || c == ' ' || c == '\u{85}' || c == '\u{a0}' || c == '\u{1680}' || ('\u{2000}'
        <= c && c <= '\u{200a}') || c == '\u{2028}' || c == '\u{2029}' || c == '\u{202f}' || c == '\u{205f}' || c
        == '\u{3000}'
}

/// Relies on `char::is_alphabetic`, a function of the character alone.
#[verifier::external_body]
fn is_alpha(c: char) -> (r: bool)
    ensures
        r == alphabetic(c),
{
    c.is_alphabetic()
}

/// Relies on `char::is_alphanumeric`, a function of the character alone.
#[verifier::external_body]
fn is_alnum(c: char) -> (r: bool)
    ensures
        r == alphanumeric(c),
{
    c.is_alphanumeric()
}

/// Relies on `String::push`: appends one character.
#[verifier::external_body]
pub(crate) fn push_char(s: &mut String, c: char)
    ensures
        final(s)@ == old(s)@.push(c),
{
    s.push(c)
}

/// The character at `i`, or `'\0'` past the end.
pub open spec fn char_at(cs: Seq<char>, i: int) -> char {
    if 0 <= i < cs.len() {
        cs[i]
    } else {
        '\0'
    }
}

/// Whether `c` is a digit in `base` (2, 8, 10 or 16).
pub open spec fn is_digit_of(c: char, base: nat) -> bool {
    if base == 2 {
        c == '0' || c == '1'
    } else if base == 8 {
        '0' <= c <= '7'
    } else if base == 10 {
        '0' <= c <= '9'
    } else {
        ('0' <= c <= '9') || ('a' <= c <= 'f') || ('A' <= c <= 'F')
    }
}

pub open spec fn digit_value(c: char) -> nat {
    if '0' <= c <= '9' {
        (c as nat - '0' as nat) as nat
    } else if 'a' <= c <= 'f' {
        (c as nat - 'a' as nat + 10) as nat
    } else {
        (c as nat - 'A' as nat + 10) as nat
    }
}

/// A token as values: its kind with the text or number it carries.
pub enum Tok {
    Plus,
    Minus,
    Star,
    Slash,
    LParen,
    RParen,
    LSquare,
    RSquare,
    Comma,
    Instruction(Seq<char>),
    Directive(Seq<char>),
    Label(Seq<char>),
    Int(u32),
    Ident(Seq<char>),
    Str(Seq<char>),
    Bytes(Seq<u8>),
}

/// What a token stands for. An instruction carries its mnemonic and a
/// string its text, both held in the literal.
pub open spec fn tok_of(t: Token) -> Tok {
    match t.kind {
        TokenKind::Plus => Tok::Plus,
        TokenKind::Minus => Tok::Minus,
        TokenKind::Star => Tok::Star,
        TokenKind::Slash => Tok::Slash,
        TokenKind::LParen => Tok::LParen,
        TokenKind::RParen => Tok::RParen,
        TokenKind::LSquare => Tok::LSquare,
        TokenKind::RSquare => Tok::RSquare,
        TokenKind::Comma => Tok::Comma,
        TokenKind::Instruction => Tok::Instruction(t.literal@),
        TokenKind::Directive(n) => Tok::Directive(n@),
        TokenKind::Label(n) => Tok::Label(n@),
        TokenKind::Int(v) => Tok::Int(v),
        TokenKind::Ident(n) => Tok::Ident(n@),
        TokenKind::String => Tok::Str(t.literal@),
        TokenKind::ByteSeq(b) => Tok::Bytes(b@),
    }
}

pub open spec fn toks_of(ts: Seq<Token>) -> Seq<Tok> {
    ts.map_values(|t: Token| tok_of(t))
}

/// The base of a number whose first digit is at `i - 1`: a leading `0`
/// followed by `x`, `b` or `o` selects 16, 2 or 8.
pub open spec fn number_base(cs: Seq<char>, i: int) -> nat {
    if char_at(cs, i - 1) != '0' {
        10
    } else {
        let c = char_at(cs, i);
        if c == 'x' || c == 'X' {
            16
        } else if c == 'b' || c == 'B' {
            2
        } else if c == 'o' || c == 'O' {
            8
        } else {
            10
        }
    }
}

/// Where the digits of that number start.
pub open spec fn digits_start(cs: Seq<char>, i: int) -> int {
    if number_base(cs, i) == 10 {
        i - 1
    } else {
        i + 1
    }
}

/// A character that may stand in a word (a mnemonic, label or identifier).
pub open spec fn word_char(c: char) -> bool {
    alphanumeric(c) || alphabetic(c) || c == '_'
}

/// The first position at or after `p` that is not whitespace.
pub open spec fn skip_ws(cs: Seq<char>, p: int) -> int
    decreases cs.len() - p,
{
    if 0 <= p < cs.len() && whitespace(cs[p]) {
        skip_ws(cs, p + 1)
    } else {
        p
    }
}

/// The end of a `//` comment that starts at `p`: its line break, a NUL, or
/// the end of the text.
pub open spec fn comment_end(cs: Seq<char>, p: int) -> int
    decreases cs.len() - p,
{
    if 0 <= p < cs.len() && cs[p] != '\n' && cs[p] != '\0' {
        comment_end(cs, p + 1)
    } else {
        p
    }
}

/// The end of the word that starts at `p`.
pub open spec fn word_end(cs: Seq<char>, p: int) -> int
    decreases cs.len() - p,
{
    if 0 <= p < cs.len() && word_char(cs[p]) {
        word_end(cs, p + 1)
    } else {
        p
    }
}

/// Whether a word is a mnemonic (or an older spelling of one).
pub open spec fn reserved(w: Seq<char>) -> bool {
    op_named(w) is Some
}

/// Whether `w` is a mnemonic.
fn is_reserved(w: &String) -> (r: bool)
    ensures
        r == reserved(w@),
{
    Op::from_mnemonic(w.as_str()).is_some()
}

/// The tokenizer: a cursor over the characters of one source text.
#[derive(Debug, Clone)]
pub struct Lexer<'l> {
    pub src: &'l str,
    /// Index of the next character.
    pub pos: usize,
    /// The characters of `src`.
    pub chars: Vec<char>,
}

impl<'l> Lexer<'l> {
    pub open spec fn text(&self) -> Seq<char> {
        self.chars@
    }

    pub fn new(src: &'l str) -> (r: Lexer<'l>)
        ensures
            r.pos == 0,
            r.src == src,
            r.text() == src@,
    {
        let n = src.unicode_len();
        let mut chars: Vec<char> = Vec::new();
        let mut i: usize = 0;
        while i < n
            invariant
                n == src@.len(),
                0 <= i <= n,
                chars@ == src@.subrange(0, i as int),
            decreases n - i,
        {
            chars.push(src.get_char(i));
            i = i + 1;
            assert(chars@ =~= src@.subrange(0, i as int));
        }
        assert(src@.subrange(0, n as int) =~= src@);
        Lexer { src, pos: 0, chars }
    }

    /// The next character without consuming it; `'\0'` at the end.
    fn peek(&self) -> (r: char)
        ensures
            r == char_at(self.text(), self.pos as int),
    {
        if self.pos < self.chars.len() {
            self.chars[self.pos]
        } else {
            '\0'
        }
    }

    /// The character `offset` places ahead; `'\0'` past the end.
    fn peek_ahead(&self, offset: usize) -> (r: char)
        ensures
            r == char_at(self.text(), self.pos + offset),
    {
        if offset < self.chars.len() && self.pos < self.chars.len() - offset {
            self.chars[self.pos + offset]
        } else {
            '\0'
        }
    }

    /// Consumes and returns the next character.
    fn advance(&mut self) -> (r: char)
        requires
            old(self).pos <= old(self).text().len(),
        ensures
            r == char_at(old(self).text(), old(self).pos as int),
            final(self).text() == old(self).text(),
            final(self).src == old(self).src,
            final(self).pos == if old(self).pos < old(self).text().len() {
                old(self).pos + 1
            } else {
                old(self).pos as int
            },
    {
        let c = self.peek();
        if self.pos < self.chars.len() {
            self.pos = self.pos + 1;
        }
        c
    }

    /// Skips whitespace.
    fn eat_whitespace(&mut self)
        requires
            old(self).pos <= old(self).text().len(),
        ensures
            final(self).text() == old(self).text(),
            final(self).src == old(self).src,
            old(self).pos <= final(self).pos <= final(self).text().len(),
            forall|j: int| old(self).pos <= j < final(self).pos ==> whitespace(final(self).text()[j]),
            final(self).pos == final(self).text().len() || !whitespace(final(self).text()[final(self).pos as int]),
            final(self).pos == skip_ws(old(self).text(), old(self).pos as int),
    {
        while self.pos < self.chars.len() && is_space(self.chars[self.pos])
            invariant
                self.text() == old(self).text(),
                self.src == old(self).src,
                old(self).pos <= self.pos <= self.text().len(),
                skip_ws(self.text(), self.pos as int) == skip_ws(old(self).text(), old(self).pos as int),
                forall|j: int| old(self).pos <= j < self.pos ==> whitespace(self.text()[j]),
            decreases self.text().len() - self.pos,
        {
            self.pos = self.pos + 1;
        }
    }

    /// The source text from `start` to the cursor.
    fn lexeme(&self, start: usize) -> (r: String)
        requires
            start <= self.pos <= self.text().len(),
        ensures
            r@ == self.text().subrange(start as int, self.pos as int),
    {
        let mut s = String::new();
        let mut i = start;
        while i < self.pos
            invariant
                start <= i <= self.pos <= self.text().len(),
                s@ == self.text().subrange(start as int, i as int),
            decreases self.pos - i,
        {
            push_char(&mut s, self.chars[i]);
            i = i + 1;
            assert(s@ =~= self.text().subrange(start as int, i as int));
        }
        s
    }
}

/// The value of `c` as a digit in `base`, if it is one.
fn digit_of(c: char, base: u32) -> (r: Option<u32>)
    requires
        base == 2 || base == 8 || base == 10 || base == 16,
    ensures
        r is Some <==> is_digit_of(c, base as nat),
        r is Some ==> r->Some_0 as nat == digit_value(c) && r->Some_0 < base,
{
    let ok = if base == 2 {
        c == '0' || c == '1'
    } else if base == 8 {
        '0' <= c && c <= '7'
    } else if base == 10 {
        '0' <= c && c <= '9'
    } else {
        ('0' <= c && c <= '9') || ('a' <= c && c <= 'f') || ('A' <= c && c <= 'F')
    };
    if !ok {
        None
    } else if '0' <= c && c <= '9' {
        Some(c as u32 - '0' as u32)
    } else if 'a' <= c && c <= 'f' {
        Some(c as u32 - 'a' as u32 + 10)
    } else {
        Some(c as u32 - 'A' as u32 + 10)
    }
}

/// The character that a backslash escape stands for.
pub open spec fn escaped(c: char) -> char {
    if c == '0' {
        '\0'
    } else if c == 'n' {
        '\n'
    } else if c == 'r' {
        '\r'
    } else if c == 't' {
        '\t'
    } else {
        c
    }
}

fn escape(c: char) -> (r: char)
    ensures
        r == escaped(c),
{
    if c == '0' {
        '\0'
    } else if c == 'n' {
        '\n'
    } else if c == 'r' {
        '\r'
    } else if c == 't' {
        '\t'
    } else {
        c
    }
}

/// A token without a value, its literal the name of its kind.
fn simple_token(kind: TokenKind, name: &str) -> (r: Token)
    ensures
        r.kind == kind,
        r.literal@ == name@,
{
    Token { kind, literal: name.to_owned() }
}

/// The word that starts at `p` and where lexing goes on: a mnemonic, a
/// label (its `:` consumed) or an identifier.
pub open spec fn word_tok(cs: Seq<char>, p: int) -> (Tok, int) {
    let e = word_end(cs, p);
    let w = cs.subrange(p, e);
    if reserved(w) {
        (Tok::Instruction(w), e)
    } else if char_at(cs, e) == ':' {
        (Tok::Label(w), e + 1)
    } else {
        (Tok::Ident(w), e)
    }
}

/// The directive whose `%` is at `p`: its name is the word that follows.
pub open spec fn dir_tok(cs: Seq<char>, p: int) -> (Tok, int) {
    (Tok::Directive(cs.subrange(p + 1, word_end(cs, p + 1))), word_tok(cs, p + 1).1)
}

/// Reads the digits of `base` from `k` on into `acc`; fails at the first
/// digit that takes the value past 32 bits.
pub open spec fn scan_digits(cs: Seq<char>, k: int, base: nat, acc: nat) -> Result<(nat, int), LexError>
    decreases cs.len() - k,
{
    if 0 <= k < cs.len() && is_digit_of(cs[k], base) {
        let nv = acc * base + digit_value(cs[k]);
        if nv > u32::MAX {
            Err(LexError::IntOverflow { pos: k as usize })
        } else {
            scan_digits(cs, k + 1, base, nv)
        }
    } else {
        Ok((acc, k))
    }
}

/// The number whose first digit is at `p - 1`.
pub open spec fn number_tok(cs: Seq<char>, p: int) -> Result<(Tok, int), LexError> {
    let base = number_base(cs, p);
    let q = if base == 10 { p } else { p + 1 };
    let acc0 = if base == 10 { digit_value(cs[p - 1]) } else { 0 };
    match scan_digits(cs, q, base, acc0) {
        Err(e) => Err(e),
        Ok((v, k)) => if k == digits_start(cs, p) {
            Err(LexError::MissingDigits { pos: k as usize })
        } else {
            Ok((Tok::Int(v as u32), k))
        },
    }
}

/// The text of a string from `p` on, with its escapes, and where it stops:
/// at a quote, a NUL or the end.
pub open spec fn scan_str(cs: Seq<char>, p: int) -> (Seq<char>, int)
    decreases cs.len() - p,
{
    let c = char_at(cs, p);
    if p < 0 || p >= cs.len() || c == '"' || c == '\'' || c == '\0' {
        (Seq::empty(), p)
    } else if c == '\\' {
        let n = if p + 1 < cs.len() { p + 2 } else { p + 1 };
        let r = scan_str(cs, n);
        (seq![escaped(char_at(cs, p + 1))] + r.0, r.1)
    } else {
        let r = scan_str(cs, p + 1);
        (seq![c] + r.0, r.1)
    }
}

/// The string whose opening quote is at `p - 1`.
pub open spec fn string_tok(cs: Seq<char>, p: int) -> Result<(Tok, int), LexError> {
    let (v, q) = scan_str(cs, p);
    if char_at(cs, q) == '"' || char_at(cs, q) == '\'' {
        Ok((Tok::Str(v), q + 1))
    } else {
        Err(LexError::UnterminatedString { pos: q as usize })
    }
}

/// The bytes of a byte sequence from `k` up to its `]`, appended to `acc`.
pub open spec fn scan_bytes(cs: Seq<char>, k: int, acc: Seq<u8>) -> Result<(Seq<u8>, int), LexError>
    decreases cs.len() - k,
{
    let c = char_at(cs, k);
    if k < 0 || k >= cs.len() || c == ']' || c == '\0' {
        Ok((acc, k))
    } else if c == ' ' || c == '\t' {
        scan_bytes(cs, k + 1, acc)
    } else if '0' <= c <= '9' {
        match number_tok(cs, k + 1) {
            Err(e) => Err(e),
            Ok((t, k2)) => {
                let b = t->Int_0;
                if b > 0xFF {
                    Err(LexError::ByteOutOfRange { value: b, pos: k2 as usize })
                } else if k2 <= k || k2 > cs.len() {
                    Ok((acc, k))
                } else {
                    scan_bytes(cs, k2, acc.push(b as u8))
                }
            },
        }
    } else {
        Err(LexError::BadByteSeqChar { pos: k as usize })
    }
}

/// The byte sequence whose `[` is at `p - 1`.
pub open spec fn bytes_tok(cs: Seq<char>, p: int) -> Result<(Tok, int), LexError> {
    match scan_bytes(cs, skip_ws(cs, p), Seq::empty()) {
        Err(e) => Err(e),
        Ok((b, k)) => if char_at(cs, k) == ']' {
            Ok((Tok::Bytes(b), k + 1))
        } else {
            Err(LexError::UnterminatedByteSeq { pos: k as usize })
        },
    }
}

pub open spec fn push_tok(acc: Seq<Tok>, t: Option<Tok>) -> Seq<Tok> {
    match t {
        Some(t) => acc.push(t),
        None => acc,
    }
}

/// One step of lexing at `p`, shared by both modes: the token read (if any)
/// and where lexing goes on before whitespace is skipped. On a directive's
/// line (`line`) operator characters are skipped; elsewhere they are tokens.
pub open spec fn step(cs: Seq<char>, p: int, line: bool) -> Result<(Option<Tok>, int), LexError> {
    let c = char_at(cs, p);
    if c == '/' && char_at(cs, p + 1) == '/' {
        Ok((None, comment_end(cs, p)))
    } else if c == ' ' || c == '\t' || (!line && (c == '\r' || c == '\n')) {
        Ok((None, p + 1))
    } else if !line && (c == '+' || c == '-' || c == '*' || c == '/' || c == '(' || c == ')' || c == ',') {
        Ok((Some(if c == '+' {
            Tok::Plus
        } else if c == '-' {
            Tok::Minus
        } else if c == '*' {
            Tok::Star
        } else if c == '/' {
            Tok::Slash
        } else if c == '(' {
            Tok::LParen
        } else if c == ')' {
            Tok::RParen
        } else {
            Tok::Comma
        }), p + 1))
    } else if c == '[' {
        match bytes_tok(cs, p + 1) {
            Err(e) => Err(e),
            Ok((t, q)) => Ok((Some(t), q)),
        }
    } else if '0' <= c <= '9' {
        match number_tok(cs, p + 1) {
            Err(e) => Err(e),
            Ok((t, q)) => Ok((Some(t), q)),
        }
    } else if c == '"' || c == '\'' {
        match string_tok(cs, p + 1) {
            Err(e) => Err(e),
            Ok((t, q)) => Ok((Some(t), q)),
        }
    } else if line && c == '%' {
        Ok((Some(dir_tok(cs, p).0), dir_tok(cs, p).1))
    } else if alphabetic(c) || c == '_' {
        Ok((Some(word_tok(cs, p).0), word_tok(cs, p).1))
    } else {
        Ok((None, p + 1))
    }
}

/// Lexing the rest of a directive's line from `p`, after the tokens `acc`:
/// the tokens, and where the line ends.
pub open spec fn lex_line(cs: Seq<char>, p: int, acc: Seq<Tok>) -> Result<(Seq<Tok>, int), LexError>
    decreases cs.len() - p,
{
    let c = char_at(cs, p);
    if p < 0 || p > cs.len() || c == '\0' || c == '\r' || c == '\n' {
        Ok((acc, p))
    } else {
        match step(cs, p, true) {
            Err(e) => Err(e),
            Ok((t, q)) => {
                let q2 = skip_ws(cs, q);
                if q2 <= p || q2 > cs.len() {
                    Ok((acc, p))
                } else {
                    lex_line(cs, q2, push_tok(acc, t))
                }
            },
        }
    }
}

/// Lexing the text from `p`, after the tokens `acc`. A directive's name
/// switches to line mode up to the end of its line.
pub open spec fn lex_from(cs: Seq<char>, p: int, acc: Seq<Tok>) -> Result<Seq<Tok>, LexError>
    decreases cs.len() - p,
{
    let c = char_at(cs, p);
    if p < 0 || p > cs.len() || c == '\0' {
        Ok(acc)
    } else if c == '%' {
        let (d, e) = dir_tok(cs, p);
        match lex_line(cs, skip_ws(cs, e), acc.push(d)) {
            Err(err) => Err(err),
            Ok((acc2, q)) => {
                let q2 = skip_ws(cs, q);
                if q2 <= p || q2 > cs.len() {
                    Ok(acc2)
                } else {
                    lex_from(cs, q2, acc2)
                }
            },
        }
    } else {
        match step(cs, p, false) {
            Err(e) => Err(e),
            Ok((t, q)) => {
                let q2 = skip_ws(cs, q);
                if q2 <= p || q2 > cs.len() {
                    Ok(acc)
                } else {
                    lex_from(cs, q2, push_tok(acc, t))
                }
            },
        }
    }
}

proof fn lemma_word_end_from(cs: Seq<char>, p: int)
    requires
        0 <= p <= cs.len(),
    ensures
        p <= word_end(cs, p) <= cs.len(),
    decreases cs.len() - p,
{
    if p < cs.len() && word_char(cs[p]) {
        lemma_word_end_from(cs, p + 1);
    }
}

pub open spec fn opt_tok(t: Option<Token>) -> Option<Tok> {
    match t {
        Some(t) => Some(tok_of(t)),
        None => None,
    }
}

proof fn lemma_toks_push(ts: Seq<Token>, t: Token)
    ensures
        toks_of(ts.push(t)) == toks_of(ts).push(tok_of(t)),
{
    assert(toks_of(ts.push(t)) =~= toks_of(ts).push(tok_of(t)));
}

impl<'l> Lexer<'l> {
    /// Lexes a number whose first digit, `start`, was just consumed.
    fn lex_number(&mut self, start: char) -> (r: Result<Token, LexError>)
        requires
            1 <= old(self).pos <= old(self).text().len(),
            old(self).text()[old(self).pos - 1] == start,
            '0' <= start <= '9',
        ensures
            final(self).text() == old(self).text(),
            final(self).src == old(self).src,
            old(self).pos <= final(self).pos <= final(self).text().len(),
            match number_tok(old(self).text(), old(self).pos as int) {
                Ok((t, q)) => r is Ok && tok_of(r->Ok_0) == t && final(self).pos == q,
                Err(e) => r == Err::<Token, LexError>(e),
            },
    {
        let ghost cs = self.text();
        let p0 = self.pos;
        let mut base: u32 = 10;
        if start == '0' {
            let c = self.peek();
            if c == 'x' || c == 'X' {
                base = 16;
            } else if c == 'b' || c == 'B' {
                base = 2;
            } else if c == 'o' || c == 'O' {
                base = 8;
            }
            if base != 10 {
                self.advance();
            }
        }
        assert(base as nat == number_base(cs, p0 as int));
        let ds: usize = if base == 10 { p0 - 1 } else { self.pos };
        let mut v: u32 = if base == 10 { start as u32 - '0' as u32 } else { 0 };
        let ghost q0 = self.pos as int;
        let ghost acc0 = v as nat;
        while self.pos < self.chars.len() && digit_of(self.chars[self.pos], base).is_some()
            invariant
                self.text() == cs,
                cs == old(self).text(),
                self.src == old(self).src,
                p0 <= self.pos <= cs.len(),
                old(self).pos == p0,
                base == 2 || base == 8 || base == 10 || base == 16,
                base as nat == number_base(cs, p0 as int),
                ds == digits_start(cs, p0 as int),
                ds <= self.pos,
                q0 == (if base == 10 { p0 as int } else { p0 + 1 }),
                acc0 == (if base == 10 { digit_value(cs[p0 - 1]) } else { 0 }),
                scan_digits(cs, self.pos as int, base as nat, v as nat) == scan_digits(cs, q0, base as nat, acc0),
            decreases cs.len() - self.pos,
        {
            let d = match digit_of(self.chars[self.pos], base) {
                None => 0,
                Some(d) => d,
            };
            assert((v as u64) * (base as u64) <= 0xFFFF_FFFFu64 * 16) by (nonlinear_arith)
                requires
                    v <= 0xFFFF_FFFFu32,
                    base <= 16,
            ;
            let nv: u64 = v as u64 * base as u64 + d as u64;
            if nv > 0xFFFF_FFFF {
                return Err(LexError::IntOverflow { pos: self.pos });
            }
            v = nv as u32;
            self.pos = self.pos + 1;
        }
        if self.pos == ds {
            return Err(LexError::MissingDigits { pos: self.pos });
        }
        let literal = self.lexeme(p0 - 1);
        Ok(Token { kind: TokenKind::Int(v), literal })
    }

    /// Lexes a `[b0 b1 ...]` byte sequence whose `[` was just consumed.
    fn lex_byte_seq(&mut self) -> (r: Result<Token, LexError>)
        requires
            old(self).pos <= old(self).text().len(),
        ensures
            final(self).text() == old(self).text(),
            final(self).src == old(self).src,
            old(self).pos <= final(self).pos <= final(self).text().len(),
            match bytes_tok(old(self).text(), old(self).pos as int) {
                Ok((t, q)) => r is Ok && tok_of(r->Ok_0) == t && final(self).pos == q,
                Err(e) => r == Err::<Token, LexError>(e),
            },
    {
        let ghost cs = self.text();
        let p0 = self.pos;
        let mut bytes: Vec<u8> = Vec::new();
        self.eat_whitespace();
        let ghost p1 = self.pos as int;
        while self.peek() != ']' && self.peek() != '\0'
            invariant
                self.text() == cs,
                cs == old(self).text(),
                self.src == old(self).src,
                p0 == old(self).pos,
                p0 <= self.pos <= cs.len(),
                p1 == skip_ws(cs, p0 as int),
                scan_bytes(cs, self.pos as int, bytes@) == scan_bytes(cs, p1, Seq::empty()),
            decreases cs.len() - self.pos,
        {
            let c = self.peek();
            if c == ' ' || c == '\t' {
                self.advance();
            } else if '0' <= c && c <= '9' {
                let digit = self.advance();
                let t = match self.lex_number(digit) {
                    Err(e) => {
                        return Err(e);
                    },
                    Ok(t) => t,
                };
                let b = match t.kind {
                    TokenKind::Int(b) => b,
                    _ => 0,
                };
                if b > 0xFF {
                    return Err(LexError::ByteOutOfRange { value: b, pos: self.pos });
                }
                bytes.push(b as u8);
            } else {
                return Err(LexError::BadByteSeqChar { pos: self.pos });
            }
        }
        if self.peek() != ']' {
            return Err(LexError::UnterminatedByteSeq { pos: self.pos });
        }
        self.advance();
        let literal = self.lexeme(p0);
        Ok(Token { kind: TokenKind::ByteSeq(bytes), literal })
    }

    /// Lexes a string whose opening quote was just consumed; either quote
    /// closes it.
    fn lex_string(&mut self) -> (r: Result<Token, LexError>)
        requires
            old(self).pos <= old(self).text().len(),
        ensures
            final(self).text() == old(self).text(),
            final(self).src == old(self).src,
            old(self).pos <= final(self).pos <= final(self).text().len(),
            match string_tok(old(self).text(), old(self).pos as int) {
                Ok((t, q)) => r is Ok && tok_of(r->Ok_0) == t && final(self).pos == q,
                Err(e) => r == Err::<Token, LexError>(e),
            },
    {
        let ghost cs = self.text();
        let ghost p0 = self.pos as int;
        let mut value = String::new();
        while self.peek() != '"' && self.peek() != '\'' && self.peek() != '\0'
            invariant
                self.text() == cs,
                cs == old(self).text(),
                self.src == old(self).src,
                p0 == old(self).pos,
                p0 <= self.pos <= cs.len(),
                value@ + scan_str(cs, self.pos as int).0 == scan_str(cs, p0).0,
                scan_str(cs, self.pos as int).1 == scan_str(cs, p0).1,
            decreases cs.len() - self.pos,
        {
            let ghost p = self.pos as int;
            let ghost before = value@;
            let c = self.advance();
            if c == '\\' {
                let e = self.advance();
                push_char(&mut value, escape(e));
                assert(value@ + scan_str(cs, self.pos as int).0 =~= before + scan_str(cs, p).0);
            } else {
                push_char(&mut value, c);
                assert(value@ + scan_str(cs, self.pos as int).0 =~= before + scan_str(cs, p).0);
            }
        }
        assert(value@ =~= value@ + scan_str(cs, self.pos as int).0);
        if self.peek() == '"' || self.peek() == '\'' {
            self.advance();
            Ok(Token { kind: TokenKind::String, literal: value })
        } else {
            Err(LexError::UnterminatedString { pos: self.pos })
        }
    }

    /// Lexes a word: a mnemonic, a label (`name:`) or an identifier.
    fn lex_ident_like(&mut self) -> (r: Token)
        requires
            old(self).pos <= old(self).text().len(),
        ensures
            final(self).text() == old(self).text(),
            final(self).src == old(self).src,
            old(self).pos <= final(self).pos <= final(self).text().len(),
            tok_of(r) == word_tok(old(self).text(), old(self).pos as int).0,
            final(self).pos == word_tok(old(self).text(), old(self).pos as int).1,
            r.literal@ == old(self).text().subrange(
                old(self).pos as int,
                word_end(old(self).text(), old(self).pos as int),
            ),
    {
        let ghost cs = self.text();
        let p0 = self.pos;
        while self.pos < self.chars.len() && (is_alnum(self.chars[self.pos]) || is_alpha(self.chars[self.pos])
            || self.chars[self.pos] == '_')
            invariant
                self.text() == cs,
                cs == old(self).text(),
                self.src == old(self).src,
                p0 == old(self).pos,
                p0 <= self.pos <= cs.len(),
                word_end(cs, self.pos as int) == word_end(cs, p0 as int),
            decreases cs.len() - self.pos,
        {
            self.pos = self.pos + 1;
        }
        let ident = self.lexeme(p0);
        if is_reserved(&ident) {
            return Token { kind: TokenKind::Instruction, literal: ident };
        }
        if self.peek() == ':' {
            self.advance();
            return Token { kind: TokenKind::Label(ident.clone()), literal: ident };
        }
        Token { kind: TokenKind::Ident(ident.clone()), literal: ident }
    }

    /// Skips a `//` comment up to the end of its line.
    fn skip_comment(&mut self)
        requires
            old(self).pos < old(self).text().len(),
            old(self).text()[old(self).pos as int] == '/',
        ensures
            final(self).text() == old(self).text(),
            final(self).src == old(self).src,
            old(self).pos < final(self).pos <= final(self).text().len(),
            final(self).pos == comment_end(old(self).text(), old(self).pos as int),
    {
        let ghost p0 = self.pos as int;
        while self.peek() != '\n' && self.peek() != '\0'
            invariant
                self.text() == old(self).text(),
                self.src == old(self).src,
                p0 == old(self).pos,
                p0 <= self.pos <= self.text().len(),
                self.pos == p0 ==> char_at(self.text(), self.pos as int) == '/',
                comment_end(self.text(), self.pos as int) == comment_end(self.text(), p0),
            decreases self.text().len() - self.pos,
        {
            self.advance();
        }
    }

    /// Lexes a `%name` directive token; the cursor is on the `%`.
    fn lex_directive(&mut self) -> (r: Token)
        requires
            old(self).pos < old(self).text().len(),
        ensures
            final(self).text() == old(self).text(),
            final(self).src == old(self).src,
            old(self).pos < final(self).pos <= final(self).text().len(),
            tok_of(r) == dir_tok(old(self).text(), old(self).pos as int).0,
            final(self).pos == dir_tok(old(self).text(), old(self).pos as int).1,
    {
        self.advance();
        let name = self.lex_ident_like();
        Token { kind: TokenKind::Directive(name.literal.clone()), literal: name.literal }
    }

    /// One step of lexing at the cursor (see `step`).
    fn lex_step(&mut self, line: bool) -> (r: Result<Option<Token>, LexError>)
        requires
            old(self).pos < old(self).text().len(),
        ensures
            final(self).text() == old(self).text(),
            final(self).src == old(self).src,
            old(self).pos <= final(self).pos <= final(self).text().len(),
            match step(old(self).text(), old(self).pos as int, line) {
                Ok((t, q)) => r is Ok && opt_tok(r->Ok_0) == t && final(self).pos == q && q > old(self).pos,
                Err(e) => r == Err::<Option<Token>, LexError>(e),
            },
    {
        let ghost cs = self.text();
        let c = self.peek();
        if c == '/' && self.peek_ahead(1) == '/' {
            self.skip_comment();
            Ok(None)
        } else if c == ' ' || c == '\t' || (!line && (c == '\r' || c == '\n')) {
            self.advance();
            Ok(None)
        } else if !line && (c == '+' || c == '-' || c == '*' || c == '/' || c == '(' || c == ')' || c == ',') {
            self.advance();
            let t = if c == '+' {
                simple_token(TokenKind::Plus, "Plus")
            } else if c == '-' {
                simple_token(TokenKind::Minus, "Minus")
            } else if c == '*' {
                simple_token(TokenKind::Star, "Star")
            } else if c == '/' {
                simple_token(TokenKind::Slash, "Slash")
            } else if c == '(' {
                simple_token(TokenKind::LParen, "LParen")
            } else if c == ')' {
                simple_token(TokenKind::RParen, "RParen")
            } else {
                simple_token(TokenKind::Comma, "Comma")
            };
            Ok(Some(t))
        } else if c == '[' {
            self.advance();
            let t = self.lex_byte_seq()?;
            Ok(Some(t))
        } else if '0' <= c && c <= '9' {
            let d = self.advance();
            let t = self.lex_number(d)?;
            Ok(Some(t))
        } else if c == '"' || c == '\'' {
            self.advance();
            let t = self.lex_string()?;
            Ok(Some(t))
        } else if line && c == '%' {
            Ok(Some(self.lex_directive()))
        } else if is_alpha(c) || c == '_' {
            proof { lemma_word_end_from(cs, self.pos + 1); }
            Ok(Some(self.lex_ident_like()))
        } else {
            self.advance();
            Ok(None)
        }
    }

    /// Lexes what follows a directive's name up to the end of the line, where
    /// operator characters are skipped.
    fn lex_token(&mut self, tokens: &mut Vec<Token>) -> (r: Result<(), LexError>)
        requires
            old(self).pos <= old(self).text().len(),
        ensures
            final(self).text() == old(self).text(),
            final(self).src == old(self).src,
            old(self).pos <= final(self).pos <= final(self).text().len(),
            match lex_line(old(self).text(), old(self).pos as int, toks_of(old(tokens)@)) {
                Ok((acc, q)) => r is Ok && toks_of(final(tokens)@) == acc && final(self).pos == q,
                Err(e) => r == Err::<(), LexError>(e),
            },
    {
        let ghost cs = self.text();
        loop
            invariant
                self.text() == cs,
                cs == old(self).text(),
                self.src == old(self).src,
                old(self).pos <= self.pos <= cs.len(),
                lex_line(cs, self.pos as int, toks_of(tokens@)) == lex_line(
                    cs,
                    old(self).pos as int,
                    toks_of(old(tokens)@),
                ),
            decreases cs.len() - self.pos,
        {
            let c = self.peek();
            if c == '\0' || c == '\r' || c == '\n' {
                return Ok(());
            }
            let ghost p = self.pos as int;
            let ghost before = tokens@;
            let t = self.lex_step(true)?;
            match t {
                Some(t) => {
                    proof { lemma_toks_push(tokens@, t); }
                    tokens.push(t);
                },
                None => {},
            }
            self.eat_whitespace();
            assert(toks_of(tokens@) == push_tok(toks_of(before), step(cs, p, true)->Ok_0.0));
        }
    }

    /// Tokenizes the whole source from the cursor on. Fails on an
    /// unterminated string or byte sequence, a malformed byte sequence, or a
    /// number that does not fit 32 bits.
    pub fn lex(&mut self) -> (r: Result<Vec<Token>, LexError>)
        ensures
            final(self).text() == old(self).text(),
            final(self).src == old(self).src,
            match lex_from(
                old(self).text(),
                if old(self).pos <= old(self).text().len() { old(self).pos as int } else { old(self).text().len() as int },
                Seq::empty(),
            ) {
                Ok(ts) => r is Ok && toks_of(r->Ok_0@) == ts,
                Err(e) => r == Err::<Vec<Token>, LexError>(e),
            },
    {
        let ghost cs = self.text();
        if self.pos > self.chars.len() {
            self.pos = self.chars.len();
        }
        let ghost start = self.pos as int;
        let mut tokens: Vec<Token> = Vec::new();
        assert(toks_of(tokens@) =~= Seq::<Tok>::empty());
        loop
            invariant
                self.text() == cs,
                cs == old(self).text(),
                self.src == old(self).src,
                self.pos <= cs.len(),
                start == (if old(self).pos <= cs.len() { old(self).pos as int } else { cs.len() as int }),
                lex_from(cs, self.pos as int, toks_of(tokens@)) == lex_from(cs, start, Seq::empty()),
            decreases cs.len() - self.pos,
        {
            let c = self.peek();
            let ghost p = self.pos as int;
            let ghost before = tokens@;
            if c == '\0' {
                return Ok(tokens);
            } else if c == '%' {
                let d = self.lex_directive();
                proof { lemma_toks_push(tokens@, d); }
                tokens.push(d);
                self.eat_whitespace();
                self.lex_token(&mut tokens)?;
                self.eat_whitespace();
            } else {
                let t = self.lex_step(false)?;
                match t {
                    Some(t) => {
                        proof { lemma_toks_push(tokens@, t); }
                        tokens.push(t);
                    },
                    None => {},
                }
                self.eat_whitespace();
                assert(toks_of(tokens@) == push_tok(toks_of(before), step(cs, p, false)->Ok_0.0));
            }
        }
    }
}

} // verus!
