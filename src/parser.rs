//! The syntax tree of the assembly dialect.
use vstd::prelude::*;
use vstd::string::*;
use crate::isa::{Instr, Op, op_named, same_text};
use crate::lexer::{Token, TokenKind, Tok, tok_of, toks_of};

verus! {

/// An assembler directive.
#[derive(Debug)]
pub enum Directive {
    /// `%define NAME VALUE`
    Define(String, Box<Node>),
    /// `%include "file"`
    Include(String),
    /// `%string "text"`
    Stringz(String),
    /// `%bytes b0 b1 ...`
    ByteSeq(Vec<u8>),
    /// `%rep(N) ... %endrep`
    Rep(u32, Vec<Node>),
}

/// A node of the syntax tree.
#[derive(Debug)]
pub enum Node {
    Instruction(Instr, Vec<Node>),
    Directive(Directive),
    Label(String),
    Ident(String),
    Int(u32),
    Str(String),
    ByteSeq(Vec<u8>),
}

/// Why a token stream could not be parsed; `pos` counts tokens.
#[derive(Debug, Clone)]
pub enum ParseError {
    UnexpectedToken { expected: String, found: Option<TokenKind>, pos: usize },
    UnexpectedEof,
    InvalidArity { expected: usize, found: usize, pos: usize },
    InvalidInstruction { name: String, pos: usize },
}

pub type ParseResult<T> = Result<T, ParseError>;

/// Appends the decimal digits of `n`.
fn append_number(s: &mut String, n: usize)
    ensures
        final(s)@.len() > old(s)@.len(),
        final(s)@.subrange(0, old(s)@.len() as int) == old(s)@,
{
    let ghost before = s@;
    let digits = n.to_string();
    if digits.unicode_len() == 0 {
        s.append("0");
        proof { reveal_strlit("0"); }
    } else {
        s.append(digits.as_str());
    }
    assert(s@.subrange(0, before.len() as int) =~= before);
}

impl ParseError {
    /// A one-line description of the error, with its position.
    pub fn message(&self) -> (r: String)
        ensures
            self is UnexpectedEof ==> r@ == "Parse error: unexpected end of file"@,
            !(self is UnexpectedEof) ==> r@.len() > "Parse error at position "@.len() && r@.subrange(
                0,
                "Parse error at position "@.len() as int,
            ) == "Parse error at position "@,
    {
        let head = "Parse error at position ";
        let mut rest = String::new();
        match self {
            ParseError::UnexpectedEof => {
                return "Parse error: unexpected end of file".to_owned();
            },
            ParseError::UnexpectedToken { expected, found, pos } => {
                append_number(&mut rest, *pos);
                rest.append(": expected ");
                rest.append(expected.as_str());
                match found {
                    Some(k) => {
                        rest.append(", found ");
                        rest.append(kind_name(k));
                    },
                    None => {
                        rest.append(", found end of file");
                    },
                }
            },
            ParseError::InvalidArity { expected, found, pos } => {
                append_number(&mut rest, *pos);
                rest.append(": invalid arity, expected ");
                append_number(&mut rest, *expected);
                rest.append(", found ");
                append_number(&mut rest, *found);
            },
            ParseError::InvalidInstruction { name, pos } => {
                append_number(&mut rest, *pos);
                rest.append(": invalid instruction '");
                rest.append(name.as_str());
                rest.append("'");
            },
        }
        let mut s = head.to_owned();
        s.append(rest.as_str());
        proof { assert(s@.subrange(0, head@.len() as int) =~= head@); }
        s
    }
}

/// Whether a repeated body holds neither a label nor a nested `%rep`.
pub open spec fn body_ok(body: Seq<Node>) -> bool {
    forall|j: int| 0 <= j < body.len() ==> !(#[trigger] body[j] is Label) && !(body[j] is Directive && body[j]->Directive_0 is Rep)
}

/// What the parser guarantees of a tree: no literal stands alone at the top,
/// and every repeated body is free of labels and nested `%rep`s.
pub open spec fn tree_ok(ast: Seq<Node>) -> bool {
    forall|i: int| #![trigger ast[i]] 0 <= i < ast.len() ==> {
        &&& !(ast[i] is Int || ast[i] is Str || ast[i] is Ident)
        &&& (ast[i] is Directive && ast[i]->Directive_0 is Rep) ==> body_ok(ast[i]->Directive_0->Rep_1@)
        &&& ast[i] is Instruction ==> all_operands(ast[i]->Instruction_1@)
    }
}

/// The recursive-descent parser. `tokens` holds the tokens still to be read,
/// the next one last.
#[derive(Debug, Clone)]
pub struct Parser<'p> {
    pub tokens: Vec<Token>,
    /// Number of tokens read so far.
    pub pos: usize,
    pub src: &'p str,
}

fn unexpected(expected: &str, found: Option<TokenKind>, pos: usize) -> (r: ParseError)
    ensures
        perr_of(r) == (PErr::Unexpected { expected: expected@, found: opt_kind_tok(found) }),
{
    ParseError::UnexpectedToken { expected: expected.to_owned(), found, pos }
}

impl<'p> Parser<'p> {
    pub fn new(tokens: Vec<Token>, src: &'p str) -> (r: Parser<'p>)
        ensures
            r.pos == 0,
            r.src == src,
            r.tokens@ == tokens@.reverse(),
    {
        let mut rest = tokens;
        let mut rev: Vec<Token> = Vec::new();
        let ghost all = rest@;
        while rest.len() > 0
            invariant
                rest@ == all.subrange(0, rest@.len() as int),
                rev@ == all.subrange(rest@.len() as int, all.len() as int).reverse(),
                rest@.len() <= all.len(),
            decreases rest@.len(),
        {
            let t = rest.pop().unwrap();
            rev.push(t);
            assert(rev@ =~= all.subrange(rest@.len() as int, all.len() as int).reverse());
        }
        assert(all.subrange(0, all.len() as int) =~= all);
        Parser { tokens: rev, pos: 0, src }
    }

    /// The kind of the next token, if any.
    fn peek_kind(&self) -> (r: Option<&TokenKind>)
        ensures
            r is Some <==> self.tokens@.len() > 0,
            r matches Some(k) ==> *k == self.tokens@.last().kind,
    {
        if self.tokens.len() == 0 {
            None
        } else {
            Some(&self.tokens[self.tokens.len() - 1].kind)
        }
    }

    /// Reads the next token.
    fn next(&mut self) -> (r: Option<Token>)
        ensures
            final(self).src == old(self).src,
            old(self).tokens@.len() == 0 ==> r is None && final(self).tokens@ == old(self).tokens@,
            old(self).tokens@.len() > 0 ==> r == Some(old(self).tokens@.last()) && final(self).tokens@
                == old(self).tokens@.drop_last(),
    {
        let t = self.tokens.pop();
        if t.is_some() && self.pos < usize::MAX {
            self.pos = self.pos + 1;
        }
        proof {
            if old(self).tokens@.len() > 0 {
                assert(self.tokens@ =~= old(self).tokens@.drop_last());
            }
        }
        t
    }
}

/// Whether two token kinds are the same, payload included.
pub open spec fn kinds_match(a: TokenKind, b: TokenKind) -> bool {
    match a {
        TokenKind::Directive(x) => b is Directive && x@ == b->Directive_0@,
        TokenKind::Label(x) => b is Label && x@ == b->Label_0@,
        TokenKind::Int(x) => b is Int && x == b->Int_0,
        TokenKind::Ident(x) => b is Ident && x@ == b->Ident_0@,
        TokenKind::ByteSeq(x) => b is ByteSeq && x@ == b->ByteSeq_0@,
        TokenKind::Plus => b is Plus,
        TokenKind::Minus => b is Minus,
        TokenKind::Star => b is Star,
        TokenKind::Slash => b is Slash,
        TokenKind::LParen => b is LParen,
        TokenKind::RParen => b is RParen,
        TokenKind::LSquare => b is LSquare,
        TokenKind::RSquare => b is RSquare,
        TokenKind::Comma => b is Comma,
        TokenKind::Instruction => b is Instruction,
        TokenKind::String => b is String,
    }
}

fn same_bytes(a: &Vec<u8>, b: &Vec<u8>) -> (r: bool)
    ensures
        r == (a@ == b@),
{
    if a.len() != b.len() {
        return false;
    }
    let mut i: usize = 0;
    while i < a.len()
        invariant
            a@.len() == b@.len(),
            0 <= i <= a@.len(),
            forall|j: int| 0 <= j < i ==> a@[j] == b@[j],
        decreases a@.len() - i,
    {
        if a[i] != b[i] {
            return false;
        }
        i = i + 1;
    }
    assert(a@ =~= b@);
    true
}

fn kind_eq(a: &TokenKind, b: &TokenKind) -> (r: bool)
    ensures
        r == kinds_match(*a, *b),
{
    match (a, b) {
        (TokenKind::Directive(x), TokenKind::Directive(y)) => same_text(x.as_str(), y.as_str()),
        (TokenKind::Label(x), TokenKind::Label(y)) => same_text(x.as_str(), y.as_str()),
        (TokenKind::Int(x), TokenKind::Int(y)) => *x == *y,
        (TokenKind::Ident(x), TokenKind::Ident(y)) => same_text(x.as_str(), y.as_str()),
        (TokenKind::ByteSeq(x), TokenKind::ByteSeq(y)) => same_bytes(x, y),
        (TokenKind::Plus, TokenKind::Plus) => true,
        (TokenKind::Minus, TokenKind::Minus) => true,
        (TokenKind::Star, TokenKind::Star) => true,
        (TokenKind::Slash, TokenKind::Slash) => true,
        (TokenKind::LParen, TokenKind::LParen) => true,
        (TokenKind::RParen, TokenKind::RParen) => true,
        (TokenKind::LSquare, TokenKind::LSquare) => true,
        (TokenKind::RSquare, TokenKind::RSquare) => true,
        (TokenKind::Comma, TokenKind::Comma) => true,
        (TokenKind::Instruction, TokenKind::Instruction) => true,
        (TokenKind::String, TokenKind::String) => true,
        _ => false,
    }
}

/// The name of a token kind, for messages.
fn kind_name(k: &TokenKind) -> (r: &'static str)
    ensures
        r@ == kind_name_of(*k),
{
    match k {
        TokenKind::Plus => "Plus",
        TokenKind::Minus => "Minus",
        TokenKind::Star => "Star",
        TokenKind::Slash => "Slash",
        TokenKind::LParen => "LParen",
        TokenKind::RParen => "RParen",
        TokenKind::LSquare => "LSquare",
        TokenKind::RSquare => "RSquare",
        TokenKind::Comma => "Comma",
        TokenKind::Instruction => "Instruction",
        TokenKind::Directive(_) => "Directive",
        TokenKind::Label(_) => "Label",
        TokenKind::Int(_) => "Int",
        TokenKind::Ident(_) => "Ident",
        TokenKind::String => "String",
        TokenKind::ByteSeq(_) => "ByteSeq",
    }
}

/// Whether every node is an operand literal.
pub open spec fn all_operands(args: Seq<Node>) -> bool {
    forall|i: int| 0 <= i < args.len() ==> (#[trigger] args[i] is Ident || args[i] is Int || args[i] is Str)
}

/// An operand literal as a value.
pub enum Lit {
    Ident(Seq<char>),
    Int(u32),
    Str(Seq<char>),
}

/// A node other than `%rep`, as a value.
pub enum Item {
    Instr(Op, Seq<Lit>),
    Define(Seq<char>, Lit),
    Include(Seq<char>),
    Stringz(Seq<char>),
    Bytes(Seq<u8>),
    Label(Seq<char>),
    Raw(Seq<u8>),
    /// A node of a shape that the parser does not produce here.
    Other,
}

/// A top-level node as a value.
pub enum Top {
    Item(Item),
    Rep(u32, Seq<Item>),
}

pub open spec fn lit_of(n: Node) -> Lit {
    match n {
        Node::Ident(s) => Lit::Ident(s@),
        Node::Int(v) => Lit::Int(v),
        Node::Str(s) => Lit::Str(s@),
        _ => Lit::Int(0),
    }
}

pub open spec fn lits_of(ns: Seq<Node>) -> Seq<Lit> {
    ns.map_values(|n: Node| lit_of(n))
}

pub open spec fn dir_item(d: Directive) -> Item {
    match d {
        Directive::Define(name, v) => Item::Define(name@, lit_of(*v)),
        Directive::Include(p) => Item::Include(p@),
        Directive::Stringz(s) => Item::Stringz(s@),
        Directive::ByteSeq(b) => Item::Bytes(b@),
        Directive::Rep(_, _) => Item::Other,
    }
}

pub open spec fn item_of(n: Node) -> Item {
    match n {
        Node::Instruction(op, args) => Item::Instr(op, lits_of(args@)),
        Node::Directive(d) => dir_item(d),
        Node::Label(l) => Item::Label(l@),
        Node::ByteSeq(b) => Item::Raw(b@),
        _ => Item::Other,
    }
}

pub open spec fn items_of(ns: Seq<Node>) -> Seq<Item> {
    ns.map_values(|n: Node| item_of(n))
}

pub open spec fn top_of(n: Node) -> Top {
    match n {
        Node::Directive(Directive::Rep(count, body)) => Top::Rep(count, items_of(body@)),
        _ => Top::Item(item_of(n)),
    }
}

pub open spec fn tops_of(ns: Seq<Node>) -> Seq<Top> {
    ns.map_values(|n: Node| top_of(n))
}

pub open spec fn is_lit(t: Tok) -> bool {
    t is Ident || t is Int || t is Str
}

pub open spec fn lit_tok(t: Tok) -> Lit {
    match t {
        Tok::Ident(s) => Lit::Ident(s),
        Tok::Int(v) => Lit::Int(v),
        Tok::Str(s) => Lit::Str(s),
        _ => Lit::Int(0),
    }
}

// The parser's spec functions read `rest`, the tokens still to be read with
// the next one last, and give what they parsed with the tokens left.

/// The name of a token kind, as messages give it.
pub open spec fn kind_name_of(k: TokenKind) -> Seq<char> {
    match k {
        TokenKind::Plus => "Plus"@,
        TokenKind::Minus => "Minus"@,
        TokenKind::Star => "Star"@,
        TokenKind::Slash => "Slash"@,
        TokenKind::LParen => "LParen"@,
        TokenKind::RParen => "RParen"@,
        TokenKind::LSquare => "LSquare"@,
        TokenKind::RSquare => "RSquare"@,
        TokenKind::Comma => "Comma"@,
        TokenKind::Instruction => "Instruction"@,
        TokenKind::Directive(_) => "Directive"@,
        TokenKind::Label(_) => "Label"@,
        TokenKind::Int(_) => "Int"@,
        TokenKind::Ident(_) => "Ident"@,
        TokenKind::String => "String"@,
        TokenKind::ByteSeq(_) => "ByteSeq"@,
    }
}

/// A parse error as a value, without its position.
pub enum PErr {
    Unexpected { expected: Seq<char>, found: Option<Tok> },
    Arity { expected: nat, found: nat },
    Eof,
    Invalid,
}

/// The kind of a token as a value; an instruction's mnemonic and a string's
/// text, which the kind does not carry, read as empty.
pub open spec fn kind_tok(k: TokenKind) -> Tok {
    match k {
        TokenKind::Plus => Tok::Plus,
        TokenKind::Minus => Tok::Minus,
        TokenKind::Star => Tok::Star,
        TokenKind::Slash => Tok::Slash,
        TokenKind::LParen => Tok::LParen,
        TokenKind::RParen => Tok::RParen,
        TokenKind::LSquare => Tok::LSquare,
        TokenKind::RSquare => Tok::RSquare,
        TokenKind::Comma => Tok::Comma,
        TokenKind::Instruction => Tok::Instruction(Seq::empty()),
        TokenKind::Directive(n) => Tok::Directive(n@),
        TokenKind::Label(n) => Tok::Label(n@),
        TokenKind::Int(v) => Tok::Int(v),
        TokenKind::Ident(n) => Tok::Ident(n@),
        TokenKind::String => Tok::Str(Seq::empty()),
        TokenKind::ByteSeq(b) => Tok::Bytes(b@),
    }
}

/// A token value with an instruction's mnemonic and a string's text erased,
/// as an error reports it.
pub open spec fn erase(t: Tok) -> Tok {
    match t {
        Tok::Instruction(_) => Tok::Instruction(Seq::empty()),
        Tok::Str(_) => Tok::Str(Seq::empty()),
        _ => t,
    }
}

pub open spec fn opt_kind_tok(k: Option<TokenKind>) -> Option<Tok> {
    match k {
        Some(k) => Some(kind_tok(k)),
        None => None,
    }
}

pub open spec fn perr_of(e: ParseError) -> PErr {
    match e {
        ParseError::UnexpectedToken { expected, found, .. } => PErr::Unexpected {
            expected: expected@,
            found: opt_kind_tok(found),
        },
        ParseError::UnexpectedEof => PErr::Eof,
        ParseError::InvalidArity { expected, found, .. } => PErr::Arity { expected: expected as nat, found: found as nat },
        ParseError::InvalidInstruction { .. } => PErr::Invalid,
    }
}

// The parser's spec functions read `rest`, the tokens still to be read with
// the next one last, and give what they parsed with the tokens left.

/// The operand literals at the front.
pub open spec fn p_args(rest: Seq<Tok>) -> (Seq<Lit>, Seq<Tok>)
    decreases rest.len(),
{
    if rest.len() > 0 && is_lit(rest.last()) {
        let r = p_args(rest.drop_last());
        (seq![lit_tok(rest.last())] + r.0, r.1)
    } else {
        (Seq::empty(), rest)
    }
}

/// An instruction: a known mnemonic and its operands.
pub open spec fn p_instr(rest: Seq<Tok>) -> Result<(Item, Seq<Tok>), PErr> {
    if rest.len() == 0 {
        Err(PErr::Eof)
    } else if let Tok::Instruction(w) = rest.last() {
        match op_named(w) {
            Some(op) => Ok((Item::Instr(op, p_args(rest.drop_last()).0), p_args(rest.drop_last()).1)),
            None => Err(PErr::Invalid),
        }
    } else {
        Err(PErr::Invalid)
    }
}

/// A directive's name and its operands, in parentheses or not.
pub open spec fn p_head(rest: Seq<Tok>) -> Result<(Seq<char>, Seq<Lit>, Seq<Tok>), PErr> {
    if rest.len() == 0 {
        Err(PErr::Eof)
    } else if let Tok::Directive(name) = rest.last() {
        let r1 = rest.drop_last();
        let parens = r1.len() > 0 && r1.last() is LParen;
        let r2 = if parens { r1.drop_last() } else { r1 };
        let (a, r3) = p_args(r2);
        if !parens {
            Ok((name, a, r3))
        } else if r3.len() == 0 {
            Err(PErr::Eof)
        } else if r3.last() is RParen {
            Ok((name, a, r3.drop_last()))
        } else {
            Err(PErr::Unexpected { expected: "RParen"@, found: Some(erase(r3.last())) })
        }
    } else {
        Err(PErr::Invalid)
    }
}

/// The bytes that the literals stand for, if each is an integer of 0..=255.
pub open spec fn lits_bytes(a: Seq<Lit>) -> Option<Seq<u8>> {
    if forall|i: int| 0 <= i < a.len() ==> (#[trigger] a[i] is Int && a[i]->Int_0 <= 0xFF) {
        Some(Seq::new(a.len(), |i: int| a[i]->Int_0 as u8))
    } else {
        None
    }
}

/// A directive other than `%rep` from its name and operands. `%rep` here
/// (inside a repeated body) and an unknown name are unexpected tokens.
pub open spec fn p_simple(name: Seq<char>, a: Seq<Lit>) -> Result<Item, PErr> {
    if name == "define"@ {
        if a.len() != 2 {
            Err(PErr::Arity { expected: 2, found: a.len() })
        } else if a[0] is Ident {
            Ok(Item::Define(a[0]->Ident_0, a[1]))
        } else {
            Err(PErr::Unexpected { expected: "identifier for a define"@, found: None })
        }
    } else if name == "include"@ || name == "string"@ {
        if a.len() != 1 {
            Err(PErr::Arity { expected: 1, found: a.len() })
        } else if a[0] is Str {
            Ok(if name == "include"@ { Item::Include(a[0]->Str_0) } else { Item::Stringz(a[0]->Str_0) })
        } else {
            Err(PErr::Unexpected { expected: "string argument"@, found: None })
        }
    } else if name == "bytes"@ {
        if a.len() == 0 {
            Err(PErr::Arity { expected: 1, found: 0 })
        } else if lits_bytes(a) is Some {
            Ok(Item::Bytes(lits_bytes(a)->Some_0))
        } else {
            Err(PErr::Unexpected { expected: "byte (0-255)"@, found: None })
        }
    } else if name == "endrep"@ {
        if a.len() != 0 {
            Err(PErr::Arity { expected: 0, found: a.len() })
        } else {
            Err(PErr::Unexpected { expected: "%rep block"@, found: None })
        }
    } else if name == "rep"@ {
        Err(PErr::Unexpected { expected: "non-nested directive"@, found: Some(Tok::Directive(name)) })
    } else {
        Err(PErr::Unexpected { expected: "a directive"@, found: Some(Tok::Directive(name)) })
    }
}

/// The body of a `%rep` up to and including its `%endrep`, after `acc`. A
/// nested `%rep` or a label is an unexpected token; so is anything else that
/// cannot stand in the body, and the end of input is a fault, since the
/// body must be closed.
pub open spec fn p_body(rest: Seq<Tok>, acc: Seq<Item>) -> Result<(Seq<Item>, Seq<Tok>), PErr>
    decreases rest.len(),
{
    if rest.len() == 0 {
        Err(PErr::Eof)
    } else {
        match rest.last() {
            Tok::Directive(n) => if n == "endrep"@ {
                Ok((acc, rest.drop_last()))
            } else if n == "rep"@ {
                Err(PErr::Unexpected { expected: "non-nested directive"@, found: Some(Tok::Directive(n)) })
            } else {
                match p_head(rest) {
                    Err(e) => Err(e),
                    Ok((name, a, r)) => match p_simple(name, a) {
                        Err(e) => Err(e),
                        Ok(it) => if r.len() < rest.len() {
                            p_body(r, acc.push(it))
                        } else {
                            Err(PErr::Invalid)
                        },
                    },
                }
            },
            Tok::Instruction(_) => match p_instr(rest) {
                Err(e) => Err(e),
                Ok((it, r)) => if r.len() < rest.len() {
                    p_body(r, acc.push(it))
                } else {
                    Err(PErr::Invalid)
                },
            },
            Tok::Label(l) => Err(PErr::Unexpected { expected: "non-label token"@, found: Some(Tok::Label(l)) }),
            t => Err(PErr::Unexpected { expected: "%endrep"@, found: Some(erase(t)) }),
        }
    }
}

/// A directive at the top level; `%rep` takes its body.
pub open spec fn p_directive(rest: Seq<Tok>) -> Result<(Top, Seq<Tok>), PErr> {
    match p_head(rest) {
        Err(e) => Err(e),
        Ok((name, a, r)) => if name == "rep"@ {
            if a.len() != 1 {
                Err(PErr::Arity { expected: 1, found: a.len() })
            } else if a[0] is Int {
                match p_body(r, Seq::empty()) {
                    Err(e) => Err(e),
                    Ok((b, r2)) => Ok((Top::Rep(a[0]->Int_0, b), r2)),
                }
            } else {
                Err(PErr::Unexpected { expected: "integer argument"@, found: None })
            }
        } else {
            match p_simple(name, a) {
                Err(e) => Err(e),
                Ok(it) => Ok((Top::Item(it), r)),
            }
        },
    }
}

/// The whole program after the nodes `acc`, or the first error.
pub open spec fn p_all(rest: Seq<Tok>, acc: Seq<Top>) -> Result<Seq<Top>, PErr>
    decreases rest.len(),
{
    if rest.len() == 0 {
        Ok(acc)
    } else {
        match rest.last() {
            Tok::Instruction(_) => match p_instr(rest) {
                Err(e) => Err(e),
                Ok((it, r)) => if r.len() < rest.len() {
                    p_all(r, acc.push(Top::Item(it)))
                } else {
                    Err(PErr::Invalid)
                },
            },
            Tok::Directive(_) => match p_directive(rest) {
                Err(e) => Err(e),
                Ok((t, r)) => if r.len() < rest.len() {
                    p_all(r, acc.push(t))
                } else {
                    Err(PErr::Invalid)
                },
            },
            Tok::Label(l) => p_all(rest.drop_last(), acc.push(Top::Item(Item::Label(l)))),
            Tok::Bytes(b) => p_all(rest.drop_last(), acc.push(Top::Item(Item::Raw(b)))),
            t => Err(PErr::Unexpected {
                expected: "instruction, directive, label, or byte sequence"@,
                found: Some(erase(t)),
            }),
        }
    }
}

/// The bytes of a `%bytes` directive's operands.
fn bytes_of(args: &Vec<Node>) -> (r: Option<Vec<u8>>)
    requires
        all_operands(args@),
    ensures
        match lits_bytes(lits_of(args@)) {
            Some(b) => r is Some && r->Some_0@ == b,
            None => r is None,
        },
{
    let ghost a = lits_of(args@);
    let n = args.len();
    let mut bytes: Vec<u8> = Vec::new();
    let mut i: usize = 0;
    while i < n
        invariant
            n == args@.len(),
            a == lits_of(args@),
            all_operands(args@),
            0 <= i <= n,
            bytes@.len() == i,
            forall|j: int| 0 <= j < i ==> (#[trigger] a[j] is Int && a[j]->Int_0 <= 0xFF && bytes@[j] == a[j]->Int_0 as u8),
        decreases n - i,
    {
        assert(a[i as int] == lit_of(args@[i as int]));
        match &args[i] {
            Node::Int(b) => {
                if *b > 0xFF {
                    assert(!(a[i as int] is Int && a[i as int]->Int_0 <= 0xFF));
                    return None;
                }
                bytes.push(*b as u8);
            },
            _ => {
                assert(!(a[i as int] is Int && a[i as int]->Int_0 <= 0xFF));
                return None;
            },
        }
        i = i + 1;
    }
    assert(bytes@ =~= Seq::new(a.len(), |i: int| a[i]->Int_0 as u8));
    Some(bytes)
}

proof fn lemma_toks_drop_last(ts: Seq<Token>)
    requires
        ts.len() > 0,
    ensures
        toks_of(ts.drop_last()) == toks_of(ts).drop_last(),
        toks_of(ts).last() == tok_of(ts.last()),
{
    assert(toks_of(ts.drop_last()) =~= toks_of(ts).drop_last());
}

proof fn lemma_p_args_shrinks(rest: Seq<Tok>)
    ensures
        p_args(rest).1.len() <= rest.len(),
    decreases rest.len(),
{
    if rest.len() > 0 && is_lit(rest.last()) {
        lemma_p_args_shrinks(rest.drop_last());
    }
}

impl<'p> Parser<'p> {
    pub open spec fn rest(&self) -> Seq<Tok> {
        toks_of(self.tokens@)
    }

    /// Reads the next token, which must be of kind `expected`.
    pub fn expect(&mut self, expected: TokenKind) -> (r: ParseResult<Token>)
        ensures
            final(self).src == old(self).src,
            old(self).tokens@.len() == 0 ==> (r matches Err(ParseError::UnexpectedEof)),
            old(self).tokens@.len() == 0 ==> final(self).tokens@ == old(self).tokens@,
            old(self).tokens@.len() > 0 ==> final(self).tokens@ == old(self).tokens@.drop_last() && (r is Ok
                <==> kinds_match(old(self).tokens@.last().kind, expected)),
            r matches Ok(t) ==> t == old(self).tokens@.last(),
            old(self).tokens@.len() > 0 && r is Err ==> perr_of(r->Err_0) == (PErr::Unexpected {
                expected: kind_name_of(expected),
                found: Some(erase(tok_of(old(self).tokens@.last()))),
            }),
    {
        match self.next() {
            Some(token) => {
                if kind_eq(&token.kind, &expected) {
                    Ok(token)
                } else {
                    Err(unexpected(kind_name(&expected), Some(token.kind), self.pos))
                }
            },
            None => Err(ParseError::UnexpectedEof),
        }
    }

    /// Looks at the next token without reading it: `Ok` whatever its kind,
    /// `UnexpectedEof` when none is left.
    pub fn maybe_expect(&mut self, expected: TokenKind) -> (r: ParseResult<Token>)
        ensures
            final(self).tokens@ == old(self).tokens@,
            final(self).src == old(self).src,
            r is Ok <==> old(self).tokens@.len() > 0,
            r is Err ==> (r matches Err(ParseError::UnexpectedEof)),
    {
        if self.tokens.len() == 0 {
            Err(ParseError::UnexpectedEof)
        } else {
            Ok(self.tokens[self.tokens.len() - 1].clone())
        }
    }

    /// Reads the operand literals that follow an instruction or directive.
    fn parse_args(&mut self) -> (r: Vec<Node>)
        ensures
            final(self).src == old(self).src,
            all_operands(r@),
            lits_of(r@) == p_args(old(self).rest()).0,
            final(self).rest() == p_args(old(self).rest()).1,
            final(self).tokens@.len() <= old(self).tokens@.len(),
    {
        let mut args: Vec<Node> = Vec::new();
        proof { lemma_p_args_shrinks(old(self).rest()); }
        loop
            invariant
                self.src == old(self).src,
                all_operands(args@),
                lits_of(args@) + p_args(self.rest()).0 == p_args(old(self).rest()).0,
                p_args(self.rest()).1 == p_args(old(self).rest()).1,
                self.tokens@.len() <= old(self).tokens@.len(),
            decreases self.tokens@.len(),
        {
            let take = match self.peek_kind() {
                Some(TokenKind::Ident(_)) | Some(TokenKind::Int(_)) | Some(TokenKind::String) => true,
                _ => false,
            };
            if !take {
                proof {
                    if self.tokens@.len() > 0 {
                        lemma_toks_drop_last(self.tokens@);
                    }
                    assert(lits_of(args@) + Seq::<Lit>::empty() =~= lits_of(args@));
                }
                return args;
            }
            let ghost before = args@;
            let ghost rest0 = self.rest();
            proof { lemma_toks_drop_last(self.tokens@); }
            let t = self.next().unwrap();
            match t.kind {
                TokenKind::Ident(name) => args.push(Node::Ident(name)),
                TokenKind::Int(v) => args.push(Node::Int(v)),
                _ => args.push(Node::Str(t.literal)),
            }
            assert(lits_of(args@) =~= lits_of(before).push(lit_tok(rest0.last())));
            assert(lits_of(args@) + p_args(self.rest()).0 =~= lits_of(before) + p_args(rest0).0);
        }
    }

    /// Parses one instruction and its operands.
    fn parse_instruction(&mut self) -> (r: ParseResult<Node>)
        ensures
            final(self).src == old(self).src,
            final(self).tokens@.len() <= old(self).tokens@.len(),
            match p_instr(old(self).rest()) {
                Ok((it, rest)) => r is Ok && r->Ok_0 is Instruction && all_operands(r->Ok_0->Instruction_1@)
                    && item_of(r->Ok_0) == it && final(self).rest() == rest && final(self).tokens@.len()
                    < old(self).tokens@.len(),
                Err(e) => r is Err && perr_of(r->Err_0) == e,
            },
    {
        if self.tokens.len() > 0 {
            proof { lemma_toks_drop_last(self.tokens@); }
        }
        let token = match self.next() {
            Some(t) => t,
            None => {
                return Err(ParseError::UnexpectedEof);
            },
        };
        match token.kind {
            TokenKind::Instruction => match Op::from_mnemonic(token.literal.as_str()) {
                Some(op) => {
                    let args = self.parse_args();
                    Ok(Node::Instruction(op, args))
                },
                None => Err(ParseError::InvalidInstruction { name: token.literal, pos: self.pos }),
            },
            _ => Err(ParseError::InvalidInstruction { name: token.literal, pos: self.pos }),
        }
    }

    /// Reads a directive's name and its operands, in parentheses or not.
    fn directive_head(&mut self) -> (r: ParseResult<(String, Vec<Node>)>)
        ensures
            final(self).src == old(self).src,
            final(self).tokens@.len() <= old(self).tokens@.len(),
            match p_head(old(self).rest()) {
                Ok((name, a, rest)) => r is Ok && r->Ok_0.0@ == name && lits_of(r->Ok_0.1@) == a
                    && all_operands(r->Ok_0.1@) && final(self).rest() == rest && final(self).tokens@.len()
                    < old(self).tokens@.len(),
                Err(e) => r is Err && perr_of(r->Err_0) == e,
            },
    {
        if self.tokens.len() > 0 {
            proof { lemma_toks_drop_last(self.tokens@); }
        }
        let token = match self.next() {
            Some(t) => t,
            None => {
                return Err(ParseError::UnexpectedEof);
            },
        };
        let name = match token.kind {
            TokenKind::Directive(name) => name,
            _ => {
                return Err(ParseError::InvalidInstruction { name: token.literal, pos: self.pos });
            },
        };
        let has_parens = match self.peek_kind() {
            Some(TokenKind::LParen) => true,
            _ => false,
        };
        if self.tokens.len() > 0 {
            proof { lemma_toks_drop_last(self.tokens@); }
        }
        if has_parens {
            self.next();
        }
        let args = self.parse_args();
        if has_parens {
            if self.tokens.len() > 0 {
                proof { lemma_toks_drop_last(self.tokens@); }
            }
            self.expect(TokenKind::RParen)?;
        }
        Ok((name, args))
    }

    /// A directive other than `%rep`, from its name and operands.
    fn simple_directive(&self, name: &String, args: Vec<Node>) -> (r: ParseResult<Directive>)
        requires
            all_operands(args@),
        ensures
            match p_simple(name@, lits_of(args@)) {
                Ok(it) => r is Ok && !(r->Ok_0 is Rep) && dir_item(r->Ok_0) == it,
                Err(e) => r is Err && perr_of(r->Err_0) == e,
            },
    {
        let mut args = args;
        let n = args.len();
        if same_text(name.as_str(), "define") {
            if n != 2 {
                return Err(ParseError::InvalidArity { expected: 2, found: n, pos: self.pos });
            }
            let value = args.pop().unwrap();
            match args.pop().unwrap() {
                Node::Ident(s) => Ok(Directive::Define(s, Box::new(value))),
                _ => Err(unexpected("identifier for a define", None, self.pos)),
            }
        } else if same_text(name.as_str(), "include") || same_text(name.as_str(), "string") {
            if n != 1 {
                return Err(ParseError::InvalidArity { expected: 1, found: n, pos: self.pos });
            }
            match args.pop().unwrap() {
                Node::Str(s) => if same_text(name.as_str(), "include") {
                    Ok(Directive::Include(s))
                } else {
                    Ok(Directive::Stringz(s))
                },
                _ => Err(unexpected("string argument", None, self.pos)),
            }
        } else if same_text(name.as_str(), "bytes") {
            if n == 0 {
                return Err(ParseError::InvalidArity { expected: 1, found: 0, pos: self.pos });
            }
            match bytes_of(&args) {
                Some(bytes) => Ok(Directive::ByteSeq(bytes)),
                None => Err(unexpected("byte (0-255)", None, self.pos)),
            }
        } else if same_text(name.as_str(), "endrep") {
            if n != 0 {
                return Err(ParseError::InvalidArity { expected: 0, found: n, pos: self.pos });
            }
            Err(unexpected("%rep block", None, self.pos))
        } else if same_text(name.as_str(), "rep") {
            Err(unexpected("non-nested directive", Some(TokenKind::Directive(name.clone())), self.pos))
        } else {
            Err(unexpected("a directive", Some(TokenKind::Directive(name.clone())), self.pos))
        }
    }

    /// Reads the body of a `%rep` up to its `%endrep`.
    fn parse_rep_body(&mut self) -> (r: ParseResult<Vec<Node>>)
        ensures
            final(self).src == old(self).src,
            final(self).tokens@.len() <= old(self).tokens@.len(),
            r matches Ok(b) ==> body_ok(b@),
            match p_body(old(self).rest(), Seq::empty()) {
                Ok((b, rest)) => r is Ok && items_of(r->Ok_0@) == b && final(self).rest() == rest,
                Err(e) => r is Err && perr_of(r->Err_0) == e,
            },
    {
        let mut body: Vec<Node> = Vec::new();
        assert(items_of(body@) =~= Seq::<Item>::empty());
        loop
            invariant
                self.src == old(self).src,
                self.tokens@.len() <= old(self).tokens@.len(),
                body_ok(body@),
                p_body(self.rest(), items_of(body@)) == p_body(old(self).rest(), Seq::empty()),
            decreases self.tokens@.len(),
        {
            if self.tokens.len() > 0 {
                proof { lemma_toks_drop_last(self.tokens@); }
            }
            // 0: end of body, 1: %endrep, 2: nested %rep, 3: other directive,
            // 4: instruction, 5: label
            let what: u8 = match self.peek_kind() {
                Some(TokenKind::Directive(name)) => if same_text(name.as_str(), "endrep") {
                    1
                } else if same_text(name.as_str(), "rep") {
                    2
                } else {
                    3
                },
                Some(TokenKind::Instruction) => 4,
                Some(TokenKind::Label(_)) => 5,
                _ => 0,
            };
            let ghost before = body@;
            if what == 0 {
                return match self.next() {
                    None => Err(ParseError::UnexpectedEof),
                    Some(t) => Err(unexpected("%endrep", Some(t.kind), self.pos)),
                };
            } else if what == 1 {
                self.next();
                return Ok(body);
            } else if what == 2 {
                let t = self.next().unwrap();
                return Err(unexpected("non-nested directive", Some(t.kind), self.pos));
            } else if what == 5 {
                let t = self.next().unwrap();
                return Err(unexpected("non-label token", Some(t.kind), self.pos));
            } else if what == 3 {
                let (name, args) = self.directive_head()?;
                let d = self.simple_directive(&name, args)?;
                body.push(Node::Directive(d));
            } else {
                let n = self.parse_instruction()?;
                body.push(n);
            }
            assert(items_of(body@) =~= items_of(before).push(item_of(body@.last())));
        }
    }

    /// Parses one directive; `%rep` takes its body.
    fn parse_directive(&mut self) -> (r: ParseResult<Node>)
        ensures
            final(self).src == old(self).src,
            final(self).tokens@.len() <= old(self).tokens@.len(),
            r matches Ok(n) ==> n is Directive && (n->Directive_0 is Rep ==> body_ok(n->Directive_0->Rep_1@)),
            match p_directive(old(self).rest()) {
                Ok((t, rest)) => r is Ok && top_of(r->Ok_0) == t && final(self).rest() == rest
                    && final(self).tokens@.len() < old(self).tokens@.len(),
                Err(e) => r is Err && perr_of(r->Err_0) == e,
            },
    {
        let (name, args) = self.directive_head()?;
        if same_text(name.as_str(), "rep") {
            if args.len() != 1 {
                return Err(ParseError::InvalidArity { expected: 1, found: args.len(), pos: self.pos });
            }
            let count = match &args[0] {
                Node::Int(n) => *n,
                _ => {
                    return Err(unexpected("integer argument", None, self.pos));
                },
            };
            let body = self.parse_rep_body()?;
            Ok(Node::Directive(Directive::Rep(count, body)))
        } else {
            Ok(Node::Directive(self.simple_directive(&name, args)?))
        }
    }

    /// Parses the whole token stream into a tree.
    pub fn parse(&mut self) -> (r: ParseResult<Vec<Node>>)
        ensures
            final(self).src == old(self).src,
            r matches Ok(ast) ==> tree_ok(ast@) && final(self).tokens@.len() == 0,
            match p_all(old(self).rest(), Seq::empty()) {
                Ok(ts) => r is Ok && tops_of(r->Ok_0@) == ts,
                Err(e) => r is Err && perr_of(r->Err_0) == e,
            },
    {
        let mut ast: Vec<Node> = Vec::new();
        assert(tops_of(ast@) =~= Seq::<Top>::empty());
        loop
            invariant
                self.src == old(self).src,
                tree_ok(ast@),
                p_all(self.rest(), tops_of(ast@)) == p_all(old(self).rest(), Seq::empty()),
            decreases self.tokens@.len(),
        {
            if self.tokens.len() > 0 {
                proof { lemma_toks_drop_last(self.tokens@); }
            }
            // 0: end, 1: instruction, 2: directive, 3: label, 4: byte sequence, 5: other
            let what: u8 = match self.peek_kind() {
                None => 0,
                Some(TokenKind::Instruction) => 1,
                Some(TokenKind::Directive(_)) => 2,
                Some(TokenKind::Label(_)) => 3,
                Some(TokenKind::ByteSeq(_)) => 4,
                _ => 5,
            };
            let ghost before = ast@;
            if what == 0 {
                return Ok(ast);
            } else if what == 1 {
                let n = self.parse_instruction()?;
                ast.push(n);
            } else if what == 2 {
                let n = self.parse_directive()?;
                ast.push(n);
            } else if what == 3 {
                let t = self.next().unwrap();
                match t.kind {
                    TokenKind::Label(l) => ast.push(Node::Label(l)),
                    _ => {},
                }
            } else if what == 4 {
                let t = self.next().unwrap();
                match t.kind {
                    TokenKind::ByteSeq(b) => ast.push(Node::ByteSeq(b)),
                    _ => {},
                }
            } else {
                let t = self.next().unwrap();
                return Err(unexpected("instruction, directive, label, or byte sequence", Some(t.kind), self.pos));
            }
            assert(tops_of(ast@) =~= tops_of(before).push(top_of(ast@.last())));
            assert forall|i: int| #![trigger ast@[i]] 0 <= i < ast@.len() implies {
                &&& !(ast@[i] is Int || ast@[i] is Str || ast@[i] is Ident)
                &&& (ast@[i] is Directive && ast@[i]->Directive_0 is Rep) ==> body_ok(ast@[i]->Directive_0->Rep_1@)
                &&& ast@[i] is Instruction ==> all_operands(ast@[i]->Instruction_1@)
            } by {
                if i < before.len() {
                    assert(ast@[i] == before[i]);
                }
            }
        }
    }
}

} // verus!
