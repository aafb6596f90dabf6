//! The two-pass assembler. Pass 0 collects the `%define` constants, pass 1
//! binds each label to its offset using the one sizing function, and pass 2
//! emits the bytes.
use vstd::prelude::*;
use crate::isa::{Op, Operand, spec_encoded_len};
use crate::parser::{Directive, Node};
use crate::machine::{le_value, first_nul, spec_decode};
use crate::isa::lemma_byte_round_trip;

verus! {

/// Why assembly failed.
#[derive(Debug)]
pub enum AsmError {
    /// An identifier that is neither a constant nor a label.
    Undefined(String),
    /// An instruction with the wrong number of operands.
    WrongArity { op: Op, expected: usize, found: usize },
    /// An operand of a kind that the opcode's operand policy does not take.
    BadOperand { op: Op },
    /// An immediate that does not fit the opcode's fixed width.
    OutOfRange { op: Op, value: u32 },
    /// A NUL-terminated operand whose content holds a 0x00 byte.
    NulInOperand { op: Op },
    /// A label bound twice.
    DuplicateLabel(String),
    /// A label inside a repeated block.
    LabelInRep(String),
    /// A `%rep` inside a repeated block.
    NestedRep,
    /// An integer, string or identifier standing alone.
    StrayLiteral,
    /// An `%include` that was not expanded before assembly.
    UnresolvedInclude(String),
    /// A program or item beyond the 32-bit address space.
    TooLarge,
}

/// An assembly error and the byte offset of the node where it arose.
#[derive(Debug)]
pub struct AsmFault {
    pub at: u32,
    pub error: AsmError,
}

/// The UTF-8 bytes of a text.
pub open spec fn utf8(s: Seq<char>) -> Seq<u8> {
    vstd::utf8::encode_utf8(s)
}

/// The value of the last entry named `name`, so that a later binding wins.
pub open spec fn lookup<V>(tbl: Seq<(Seq<char>, V)>, name: Seq<char>) -> Option<V>
    decreases tbl.len(),
{
    if tbl.len() == 0 {
        None
    } else if tbl.last().0 == name {
        Some(tbl.last().1)
    } else {
        lookup(tbl.drop_last(), name)
    }
}

/// The constant that a node defines, if it is a `%define`.
pub open spec fn define_of(n: Node) -> Seq<(Seq<char>, Node)> {
    match n {
        Node::Directive(Directive::Define(name, v)) => seq![(name@, *v)],
        _ => Seq::empty(),
    }
}

/// The `%define`s of a repeated body, in order.
pub open spec fn body_defines(b: Seq<Node>) -> Seq<(Seq<char>, Node)>
    decreases b.len(),
{
    if b.len() == 0 {
        Seq::empty()
    } else {
        body_defines(b.drop_last()) + define_of(b.last())
    }
}

/// The `%define`s of the program, top level and repeated bodies, in order.
pub open spec fn all_defines(ast: Seq<Node>) -> Seq<(Seq<char>, Node)>
    decreases ast.len(),
{
    if ast.len() == 0 {
        Seq::empty()
    } else {
        all_defines(ast.drop_last()) + match ast.last() {
            Node::Directive(Directive::Rep(_, body)) => body_defines(body@),
            n => define_of(n),
        }
    }
}

/// An operand once constants are looked up: an integer, verbatim bytes (from
/// a string or a byte sequence), or a reference to a label.
pub enum Arg {
    Int(u32),
    Bytes(Seq<u8>),
    Label(String),
}

/// What an operand node stands for. An identifier that names a constant
/// stands for the constant's literal; one that names no constant refers to a
/// label, which may be bound later in the program.
pub open spec fn classify(op: Op, a: Node, consts: Seq<(Seq<char>, Node)>) -> Result<Arg, AsmError> {
    match a {
        Node::Int(v) => Ok(Arg::Int(v)),
        Node::Str(s) => Ok(Arg::Bytes(utf8(s@))),
        Node::ByteSeq(b) => Ok(Arg::Bytes(b@)),
        Node::Ident(name) => match lookup(consts, name@) {
            None => Ok(Arg::Label(name)),
            Some(v) => match v {
                Node::Int(x) => Ok(Arg::Int(x)),
                Node::Str(s) => Ok(Arg::Bytes(utf8(s@))),
                Node::ByteSeq(b) => Ok(Arg::Bytes(b@)),
                Node::Ident(other) => Ok(Arg::Label(other)),
                _ => Err(AsmError::BadOperand { op }),
            },
        },
        _ => Err(AsmError::BadOperand { op }),
    }
}

pub open spec fn fits(v: u32, w: u8) -> bool {
    w == 4 || (w == 1 && v < 0x100) || (w == 2 && v < 0x1_0000)
}

/// Number of operand bytes that `a` takes under the opcode's policy. This
/// depends on the opcode and, for a NUL-terminated operand, on its content
/// length: never on where labels land.
pub open spec fn operand_size(op: Op, a: Arg) -> Result<nat, AsmError> {
    match op.spec_operand() {
        Operand::Empty => Ok(0),
        Operand::Fixed(w) => match a {
            Arg::Int(v) => if fits(v, w) {
                Ok(w as nat)
            } else {
                Err(AsmError::OutOfRange { op, value: v })
            },
            Arg::Label(_) => if w == 4 {
                Ok(4)
            } else {
                Err(AsmError::BadOperand { op })
            },
            Arg::Bytes(_) => Err(AsmError::BadOperand { op }),
        },
        Operand::Address => match a {
            Arg::Bytes(_) => Err(AsmError::BadOperand { op }),
            _ => Ok(4),
        },
        Operand::NulTerminated => match a {
            Arg::Bytes(b) => if b.contains(0u8) {
                Err(AsmError::NulInOperand { op })
            } else if b.len() + 2 > u32::MAX {
                Err(AsmError::TooLarge)
            } else {
                Ok(b.len() + 1)
            },
            _ => Err(AsmError::BadOperand { op }),
        },
    }
}

/// The bytes `v` is written as in `w` little-endian bytes (`w` is 1, 2 or 4).
pub open spec fn le_bytes(v: u32, w: nat) -> Seq<u8> {
    if w == 1 {
        seq![(v % 0x100) as u8]
    } else if w == 2 {
        seq![(v % 0x100) as u8, ((v / 0x100) % 0x100) as u8]
    } else {
        seq![
            (v % 0x100) as u8,
            ((v / 0x100) % 0x100) as u8,
            ((v / 0x1_0000) % 0x100) as u8,
            ((v / 0x100_0000) % 0x100) as u8,
        ]
    }
}

/// The operand bytes of `a`, with labels looked up in `labels`.
pub open spec fn operand_bytes(op: Op, a: Arg, labels: Seq<(Seq<char>, u32)>) -> Result<Seq<u8>, AsmError> {
    match operand_size(op, a) {
        Err(e) => Err(e),
        Ok(sz) => match a {
            Arg::Int(v) => Ok(if sz == 0 { Seq::empty() } else { le_bytes(v, sz) }),
            Arg::Bytes(b) => Ok(b.push(0u8)),
            Arg::Label(name) => match lookup(labels, name@) {
                Some(addr) => Ok(le_bytes(addr, 4)),
                None => Err(AsmError::Undefined(name)),
            },
        },
    }
}

/// Size of an instruction: its opcode byte and its operand.
pub open spec fn instr_size(op: Op, args: Seq<Node>, consts: Seq<(Seq<char>, Node)>) -> Result<nat, AsmError> {
    if op.spec_operand() is Empty {
        if args.len() == 0 {
            Ok(1)
        } else {
            Err(AsmError::WrongArity { op, expected: 0, found: args.len() as usize })
        }
    } else if args.len() != 1 {
        Err(AsmError::WrongArity { op, expected: 1, found: args.len() as usize })
    } else {
        match classify(op, args[0], consts) {
            Err(e) => Err(e),
            Ok(a) => match operand_size(op, a) {
                Err(e) => Err(e),
                Ok(n) => Ok(n + 1),
            },
        }
    }
}

/// Bytes of an instruction: its opcode byte and its operand.
pub open spec fn instr_bytes(
    op: Op,
    args: Seq<Node>,
    consts: Seq<(Seq<char>, Node)>,
    labels: Seq<(Seq<char>, u32)>,
) -> Result<Seq<u8>, AsmError> {
    if op.spec_operand() is Empty {
        if args.len() == 0 {
            Ok(seq![op.spec_byte()])
        } else {
            Err(AsmError::WrongArity { op, expected: 0, found: args.len() as usize })
        }
    } else if args.len() != 1 {
        Err(AsmError::WrongArity { op, expected: 1, found: args.len() as usize })
    } else {
        match classify(op, args[0], consts) {
            Err(e) => Err(e),
            Ok(a) => match operand_bytes(op, a, labels) {
                Err(e) => Err(e),
                Ok(b) => Ok(seq![op.spec_byte()] + b),
            },
        }
    }
}

/// Size of a node that is not a `%rep`.
pub open spec fn item_size(n: Node, consts: Seq<(Seq<char>, Node)>) -> Result<nat, AsmError> {
    match n {
        Node::Instruction(op, args) => instr_size(op, args@, consts),
        Node::Directive(d) => match d {
            Directive::Define(_, _) => Ok(0),
            Directive::Include(p) => Err(AsmError::UnresolvedInclude(p)),
            Directive::Stringz(s) => if utf8(s@).len() + 1 > u32::MAX {
                Err(AsmError::TooLarge)
            } else {
                Ok(utf8(s@).len() + 1)
            },
            Directive::ByteSeq(b) => if b@.len() > u32::MAX {
                Err(AsmError::TooLarge)
            } else {
                Ok(b@.len())
            },
            Directive::Rep(_, _) => Err(AsmError::NestedRep),
        },
        Node::Label(_) => Ok(0),
        Node::ByteSeq(b) => if b@.len() > u32::MAX {
            Err(AsmError::TooLarge)
        } else {
            Ok(b@.len())
        },
        _ => Err(AsmError::StrayLiteral),
    }
}

/// Bytes of a node that is not a `%rep`.
pub open spec fn item_bytes(
    n: Node,
    consts: Seq<(Seq<char>, Node)>,
    labels: Seq<(Seq<char>, u32)>,
) -> Result<Seq<u8>, AsmError> {
    match n {
        Node::Instruction(op, args) => instr_bytes(op, args@, consts, labels),
        Node::Directive(d) => match d {
            Directive::Define(_, _) => Ok(Seq::empty()),
            Directive::Include(p) => Err(AsmError::UnresolvedInclude(p)),
            Directive::Stringz(s) => if utf8(s@).len() + 1 > u32::MAX {
                Err(AsmError::TooLarge)
            } else {
                Ok(utf8(s@).push(0u8))
            },
            Directive::ByteSeq(b) => if b@.len() > u32::MAX {
                Err(AsmError::TooLarge)
            } else {
                Ok(b@)
            },
            Directive::Rep(_, _) => Err(AsmError::NestedRep),
        },
        Node::Label(_) => Ok(Seq::empty()),
        Node::ByteSeq(b) => if b@.len() > u32::MAX {
            Err(AsmError::TooLarge)
        } else {
            Ok(b@)
        },
        _ => Err(AsmError::StrayLiteral),
    }
}

/// Size of a repeated body: no labels, no nested `%rep`.
pub open spec fn body_size(b: Seq<Node>, consts: Seq<(Seq<char>, Node)>) -> Result<nat, AsmError>
    decreases b.len(),
{
    if b.len() == 0 {
        Ok(0)
    } else {
        match body_size(b.drop_last(), consts) {
            Err(e) => Err(e),
            Ok(s) => match b.last() {
                Node::Label(name) => Err(AsmError::LabelInRep(name)),
                n => match item_size(n, consts) {
                    Err(e) => Err(e),
                    Ok(t) => if s + t > u32::MAX {
                        Err(AsmError::TooLarge)
                    } else {
                        Ok(s + t)
                    },
                },
            },
        }
    }
}

/// Bytes of a repeated body.
pub open spec fn body_bytes(
    b: Seq<Node>,
    consts: Seq<(Seq<char>, Node)>,
    labels: Seq<(Seq<char>, u32)>,
) -> Result<Seq<u8>, AsmError>
    decreases b.len(),
{
    if b.len() == 0 {
        Ok(Seq::empty())
    } else {
        match body_bytes(b.drop_last(), consts, labels) {
            Err(e) => Err(e),
            Ok(s) => match b.last() {
                Node::Label(name) => Err(AsmError::LabelInRep(name)),
                n => match item_bytes(n, consts, labels) {
                    Err(e) => Err(e),
                    Ok(t) => if s.len() + t.len() > u32::MAX {
                        Err(AsmError::TooLarge)
                    } else {
                        Ok(s + t)
                    },
                },
            },
        }
    }
}

/// `n` copies of `s`, one after the other.
pub open spec fn repeat(s: Seq<u8>, n: nat) -> Seq<u8>
    decreases n,
{
    if n == 0 {
        Seq::empty()
    } else {
        repeat(s, (n - 1) as nat) + s
    }
}

/// The one sizing function of both passes.
pub open spec fn node_size(n: Node, consts: Seq<(Seq<char>, Node)>) -> Result<nat, AsmError> {
    match n {
        Node::Directive(Directive::Rep(count, body)) => match body_size(body@, consts) {
            Err(e) => Err(e),
            Ok(s) => if s * count as nat > u32::MAX {
                Err(AsmError::TooLarge)
            } else {
                Ok(s * count as nat)
            },
        },
        _ => item_size(n, consts),
    }
}

/// Bytes of a node.
pub open spec fn node_bytes(
    n: Node,
    consts: Seq<(Seq<char>, Node)>,
    labels: Seq<(Seq<char>, u32)>,
) -> Result<Seq<u8>, AsmError> {
    match n {
        Node::Directive(Directive::Rep(count, body)) => match body_bytes(body@, consts, labels) {
            Err(e) => Err(e),
            Ok(s) => if s.len() * count > u32::MAX {
                Err(AsmError::TooLarge)
            } else {
                Ok(repeat(s, count as nat))
            },
        },
        _ => item_bytes(n, consts, labels),
    }
}

/// Pass 1: the label table and the program size, or the first error with the
/// byte offset of the node where it arose.
pub open spec fn layout(ast: Seq<Node>, consts: Seq<(Seq<char>, Node)>) -> Result<(Seq<(Seq<char>, u32)>, nat), (u32, AsmError)>
    decreases ast.len(),
{
    if ast.len() == 0 {
        Ok((Seq::empty(), 0))
    } else {
        match layout(ast.drop_last(), consts) {
            Err(e) => Err(e),
            Ok((labels, off)) => match ast.last() {
                Node::Label(name) => if lookup(labels, name@) is Some {
                    Err((off as u32, AsmError::DuplicateLabel(name)))
                } else {
                    Ok((labels.push((name@, off as u32)), off))
                },
                n => match node_size(n, consts) {
                    Err(e) => Err((off as u32, e)),
                    Ok(s) => if off + s > u32::MAX {
                        Err((off as u32, AsmError::TooLarge))
                    } else {
                        Ok((labels, off + s))
                    },
                },
            },
        }
    }
}

/// Pass 2: the bytes of the program, or the first error with the byte offset
/// of the node where it arose.
pub open spec fn emit(
    ast: Seq<Node>,
    consts: Seq<(Seq<char>, Node)>,
    labels: Seq<(Seq<char>, u32)>,
) -> Result<Seq<u8>, (u32, AsmError)>
    decreases ast.len(),
{
    if ast.len() == 0 {
        Ok(Seq::empty())
    } else {
        match emit(ast.drop_last(), consts, labels) {
            Err(e) => Err(e),
            Ok(s) => match node_bytes(ast.last(), consts, labels) {
                Err(e) => Err((s.len() as u32, e)),
                Ok(t) => Ok(s + t),
            },
        }
    }
}

/// The assembled program, or the first error and where it arose.
pub open spec fn assembled(ast: Seq<Node>) -> Result<Seq<u8>, (u32, AsmError)> {
    let consts = all_defines(ast);
    match layout(ast, consts) {
        Err(e) => Err(e),
        Ok((labels, _)) => emit(ast, consts, labels),
    }
}

/// The constants table: each `%define`'s name and literal, in order.
pub type ConstTable<'a> = Vec<(&'a String, &'a Node)>;

/// The label table: each label's name and offset, in order.
pub type LabelTable<'a> = Vec<(&'a String, u32)>;

pub open spec fn consts_view(t: Seq<(&String, &Node)>) -> Seq<(Seq<char>, Node)> {
    t.map_values(|p: (&String, &Node)| (p.0@, *p.1))
}

pub open spec fn labels_view(t: Seq<(&String, u32)>) -> Seq<(Seq<char>, u32)> {
    t.map_values(|p: (&String, u32)| (p.0@, p.1))
}

/// An operand once constants are looked up, borrowing from the tree.
pub enum ArgRef<'a> {
    Int(u32),
    Bytes(&'a [u8]),
    Label(&'a String),
}

impl<'a> View for ArgRef<'a> {
    type V = Arg;

    open spec fn view(&self) -> Arg {
        match self {
            ArgRef::Int(v) => Arg::Int(*v),
            ArgRef::Bytes(b) => Arg::Bytes(b@),
            ArgRef::Label(s) => Arg::Label(**s),
        }
    }
}

/// Appends the bytes of `b` to `out`.
fn push_all(out: &mut Vec<u8>, b: &[u8])
    ensures
        final(out)@ == old(out)@ + b@,
{
    let mut i: usize = 0;
    while i < b.len()
        invariant
            0 <= i <= b@.len(),
            out@ == old(out)@ + b@.subrange(0, i as int),
        decreases b@.len() - i,
    {
        out.push(b[i]);
        i = i + 1;
        assert(out@ =~= old(out)@ + b@.subrange(0, i as int));
    }
    assert(b@.subrange(0, b@.len() as int) =~= b@);
}

/// The UTF-8 bytes of `s`.
fn text_bytes(s: &String) -> (r: &[u8])
    ensures
        r@ == utf8(s@),
{
    s.as_str().as_bytes()
}

/// Pass 0: the `%define`s of the program, top level and repeated bodies.
fn collect_consts<'a>(ast: &'a Vec<Node>) -> (r: ConstTable<'a>)
    ensures
        consts_view(r@) == all_defines(ast@),
{
    let mut t: ConstTable<'a> = Vec::new();
    let mut i: usize = 0;
    while i < ast.len()
        invariant
            0 <= i <= ast@.len(),
            consts_view(t@) == all_defines(ast@.subrange(0, i as int)),
        decreases ast@.len() - i,
    {
        let ghost before = t@;
        assert(ast@.subrange(0, i + 1).drop_last() =~= ast@.subrange(0, i as int));
        match &ast[i] {
            Node::Directive(Directive::Define(name, v)) => {
                t.push((name, &**v));
                assert(consts_view(t@) =~= consts_view(before) + define_of(ast@[i as int]));
            },
            Node::Directive(Directive::Rep(_, body)) => {
                let mut j: usize = 0;
                while j < body.len()
                    invariant
                        0 <= j <= body@.len(),
                        consts_view(t@) == consts_view(before) + body_defines(body@.subrange(0, j as int)),
                    decreases body@.len() - j,
                {
                    let ghost mid = t@;
                    assert(body@.subrange(0, j + 1).drop_last() =~= body@.subrange(0, j as int));
                    if let Node::Directive(Directive::Define(name, v)) = &body[j] {
                        t.push((name, &**v));
                        assert(consts_view(t@) =~= consts_view(mid) + define_of(body@[j as int]));
                    } else {
                        assert(define_of(body@[j as int]) =~= Seq::<(Seq<char>, Node)>::empty());
                    }
                    assert(consts_view(t@) =~= consts_view(before) + body_defines(body@.subrange(0, j + 1)));
                    j = j + 1;
                }
                assert(body@.subrange(0, body@.len() as int) =~= body@);
            },
            _ => {
                assert(define_of(ast@[i as int]) =~= Seq::<(Seq<char>, Node)>::empty());
                assert(consts_view(t@) =~= consts_view(before) + define_of(ast@[i as int]));
            },
        }
        i = i + 1;
    }
    assert(ast@.subrange(0, ast@.len() as int) =~= ast@);
    t
}

/// The constant named `name`; the last definition wins.
fn find_const<'a>(t: &ConstTable<'a>, name: &String) -> (r: Option<&'a Node>)
    ensures
        match r {
            Some(n) => lookup(consts_view(t@), name@) == Some(*n),
            None => lookup(consts_view(t@), name@) is None,
        },
{
    let mut i: usize = t.len();
    assert(t@.subrange(0, i as int) =~= t@);
    while i > 0
        invariant
            0 <= i <= t@.len(),
            lookup(consts_view(t@), name@) == lookup(consts_view(t@.subrange(0, i as int)), name@),
        decreases i,
    {
        assert(consts_view(t@.subrange(0, i as int)).drop_last() =~= consts_view(t@.subrange(0, i - 1)));
        if *t[i - 1].0 == *name {
            return Some(t[i - 1].1);
        }
        i = i - 1;
    }
    None
}

/// The offset bound to label `name`.
fn find_label(t: &LabelTable, name: &String) -> (r: Option<u32>)
    ensures
        r == lookup(labels_view(t@), name@),
{
    let mut i: usize = t.len();
    assert(t@.subrange(0, i as int) =~= t@);
    while i > 0
        invariant
            0 <= i <= t@.len(),
            lookup(labels_view(t@), name@) == lookup(labels_view(t@.subrange(0, i as int)), name@),
        decreases i,
    {
        assert(labels_view(t@.subrange(0, i as int)).drop_last() =~= labels_view(t@.subrange(0, i - 1)));
        if *t[i - 1].0 == *name {
            return Some(t[i - 1].1);
        }
        i = i - 1;
    }
    None
}

/// What the operand node `a` of `op` stands for.
fn classify_arg<'a>(op: Op, a: &'a Node, consts: &ConstTable<'a>) -> (r: Result<ArgRef<'a>, AsmError>)
    ensures
        match classify(op, *a, consts_view(consts@)) {
            Ok(x) => r is Ok && r->Ok_0@ == x,
            Err(e) => r == Err::<ArgRef, AsmError>(e),
        },
{
    match a {
        Node::Int(v) => Ok(ArgRef::Int(*v)),
        Node::Str(s) => Ok(ArgRef::Bytes(text_bytes(s))),
        Node::ByteSeq(b) => Ok(ArgRef::Bytes(b.as_slice())),
        Node::Ident(name) => match find_const(consts, name) {
            None => Ok(ArgRef::Label(name)),
            Some(v) => match v {
                Node::Int(x) => Ok(ArgRef::Int(*x)),
                Node::Str(s) => Ok(ArgRef::Bytes(text_bytes(s))),
                Node::ByteSeq(b) => Ok(ArgRef::Bytes(b.as_slice())),
                Node::Ident(other) => Ok(ArgRef::Label(other)),
                _ => Err(AsmError::BadOperand { op }),
            },
        },
        _ => Err(AsmError::BadOperand { op }),
    }
}

/// Number of operand bytes that `a` takes under the policy of `op`.
fn arg_size(op: Op, a: &ArgRef) -> (r: Result<u32, AsmError>)
    ensures
        match operand_size(op, a@) {
            Ok(n) => r == Ok::<u32, AsmError>(n as u32) && n < u32::MAX,
            Err(e) => r == Err::<u32, AsmError>(e),
        },
{
    match op.operand() {
        Operand::Empty => Ok(0),
        Operand::Fixed(w) => match a {
            ArgRef::Int(v) => {
                if w == 4 || (w == 1 && *v < 0x100) || (w == 2 && *v < 0x1_0000) {
                    Ok(w as u32)
                } else {
                    Err(AsmError::OutOfRange { op, value: *v })
                }
            },
            ArgRef::Label(_) => {
                if w == 4 {
                    Ok(4)
                } else {
                    Err(AsmError::BadOperand { op })
                }
            },
            ArgRef::Bytes(_) => Err(AsmError::BadOperand { op }),
        },
        Operand::Address => match a {
            ArgRef::Bytes(_) => Err(AsmError::BadOperand { op }),
            _ => Ok(4),
        },
        Operand::NulTerminated => match a {
            ArgRef::Bytes(b) => {
                let mut i: usize = 0;
                while i < b.len()
                    invariant
                        a@ == Arg::Bytes(b@),
                        op.spec_operand() == Operand::NulTerminated,
                        0 <= i <= b@.len(),
                        forall|j: int| 0 <= j < i ==> b@[j] != 0u8,
                    decreases b@.len() - i,
                {
                    if b[i] == 0 {
                        assert(b@.contains(0u8)) by {
                            assert(b@[i as int] == 0u8);
                        }
                        return Err(AsmError::NulInOperand { op });
                    }
                    i = i + 1;
                }
                if b.len() >= 0xFFFF_FFFE {
                    return Err(AsmError::TooLarge);
                }
                Ok(b.len() as u32 + 1)
            },
            _ => Err(AsmError::BadOperand { op }),
        },
    }
}

proof fn lemma_body_size_err(b: Seq<Node>, k: int, c: Seq<(Seq<char>, Node)>)
    requires
        0 <= k <= b.len(),
        body_size(b.subrange(0, k), c) is Err,
    ensures
        body_size(b, c) == body_size(b.subrange(0, k), c),
    decreases b.len() - k,
{
    if k < b.len() {
        assert(b.subrange(0, k + 1).drop_last() =~= b.subrange(0, k));
        lemma_body_size_err(b, k + 1, c);
    } else {
        assert(b.subrange(0, k) =~= b);
    }
}

proof fn lemma_body_bytes_err(b: Seq<Node>, k: int, c: Seq<(Seq<char>, Node)>, l: Seq<(Seq<char>, u32)>)
    requires
        0 <= k <= b.len(),
        body_bytes(b.subrange(0, k), c, l) is Err,
    ensures
        body_bytes(b, c, l) == body_bytes(b.subrange(0, k), c, l),
    decreases b.len() - k,
{
    if k < b.len() {
        assert(b.subrange(0, k + 1).drop_last() =~= b.subrange(0, k));
        lemma_body_bytes_err(b, k + 1, c, l);
    } else {
        assert(b.subrange(0, k) =~= b);
    }
}

proof fn lemma_layout_err(a: Seq<Node>, k: int, c: Seq<(Seq<char>, Node)>)
    requires
        0 <= k <= a.len(),
        layout(a.subrange(0, k), c) is Err,
    ensures
        layout(a, c) == layout(a.subrange(0, k), c),
    decreases a.len() - k,
{
    if k < a.len() {
        assert(a.subrange(0, k + 1).drop_last() =~= a.subrange(0, k));
        lemma_layout_err(a, k + 1, c);
    } else {
        assert(a.subrange(0, k) =~= a);
    }
}

proof fn lemma_emit_err(a: Seq<Node>, k: int, c: Seq<(Seq<char>, Node)>, l: Seq<(Seq<char>, u32)>)
    requires
        0 <= k <= a.len(),
        emit(a.subrange(0, k), c, l) is Err,
    ensures
        emit(a, c, l) == emit(a.subrange(0, k), c, l),
    decreases a.len() - k,
{
    if k < a.len() {
        assert(a.subrange(0, k + 1).drop_last() =~= a.subrange(0, k));
        lemma_emit_err(a, k + 1, c, l);
    } else {
        assert(a.subrange(0, k) =~= a);
    }
}

/// Size of an instruction, by the one sizing rule of both passes.
fn instr_len<'a>(op: Op, args: &'a Vec<Node>, consts: &ConstTable<'a>) -> (r: Result<u32, AsmError>)
    ensures
        match instr_size(op, args@, consts_view(consts@)) {
            Ok(n) => r == Ok::<u32, AsmError>(n as u32) && n <= u32::MAX,
            Err(e) => r == Err::<u32, AsmError>(e),
        },
{
    if op.arity() == 0 {
        if args.len() == 0 {
            Ok(1)
        } else {
            Err(AsmError::WrongArity { op, expected: 0, found: args.len() })
        }
    } else if args.len() != 1 {
        Err(AsmError::WrongArity { op, expected: 1, found: args.len() })
    } else {
        match classify_arg(op, &args[0], consts) {
            Err(e) => Err(e),
            Ok(a) => match arg_size(op, &a) {
                Err(e) => Err(e),
                Ok(n) => Ok(n + 1),
            },
        }
    }
}

/// Size of a node that is not a `%rep`.
fn item_len<'a>(n: &'a Node, consts: &ConstTable<'a>) -> (r: Result<u32, AsmError>)
    ensures
        match item_size(*n, consts_view(consts@)) {
            Ok(k) => r == Ok::<u32, AsmError>(k as u32) && k <= u32::MAX,
            Err(e) => r == Err::<u32, AsmError>(e),
        },
{
    match n {
        Node::Instruction(op, args) => instr_len(*op, args, consts),
        Node::Directive(d) => match d {
            Directive::Define(_, _) => Ok(0),
            Directive::Include(p) => Err(AsmError::UnresolvedInclude(p.clone())),
            Directive::Stringz(s) => {
                let b = text_bytes(s);
                if b.len() >= 0xFFFF_FFFF {
                    Err(AsmError::TooLarge)
                } else {
                    Ok(b.len() as u32 + 1)
                }
            },
            Directive::ByteSeq(b) => {
                if b.len() > 0xFFFF_FFFF {
                    Err(AsmError::TooLarge)
                } else {
                    Ok(b.len() as u32)
                }
            },
            Directive::Rep(_, _) => Err(AsmError::NestedRep),
        },
        Node::Label(_) => Ok(0),
        Node::ByteSeq(b) => {
            if b.len() > 0xFFFF_FFFF {
                Err(AsmError::TooLarge)
            } else {
                Ok(b.len() as u32)
            }
        },
        _ => Err(AsmError::StrayLiteral),
    }
}

/// Size of a repeated body.
fn body_len<'a>(body: &'a Vec<Node>, consts: &ConstTable<'a>) -> (r: Result<u32, AsmError>)
    ensures
        match body_size(body@, consts_view(consts@)) {
            Ok(k) => r == Ok::<u32, AsmError>(k as u32) && k <= u32::MAX,
            Err(e) => r == Err::<u32, AsmError>(e),
        },
{
    let ghost c = consts_view(consts@);
    let mut total: u32 = 0;
    let mut j: usize = 0;
    while j < body.len()
        invariant
            0 <= j <= body@.len(),
            c == consts_view(consts@),
            body_size(body@.subrange(0, j as int), c) == Ok::<nat, AsmError>(total as nat),
        decreases body@.len() - j,
    {
        assert(body@.subrange(0, j + 1).drop_last() =~= body@.subrange(0, j as int));
        let t = match &body[j] {
            Node::Label(name) => {
                proof { lemma_body_size_err(body@, j + 1, c); }
                return Err(AsmError::LabelInRep(name.clone()));
            },
            n => match item_len(n, consts) {
                Err(e) => {
                    proof { lemma_body_size_err(body@, j + 1, c); }
                    return Err(e);
                },
                Ok(t) => t,
            },
        };
        if t > 0xFFFF_FFFF - total {
            proof { lemma_body_size_err(body@, j + 1, c); }
            return Err(AsmError::TooLarge);
        }
        total = total + t;
        j = j + 1;
    }
    assert(body@.subrange(0, body@.len() as int) =~= body@);
    Ok(total)
}

/// The one sizing function of both passes.
fn node_len<'a>(n: &'a Node, consts: &ConstTable<'a>) -> (r: Result<u32, AsmError>)
    ensures
        match node_size(*n, consts_view(consts@)) {
            Ok(k) => r == Ok::<u32, AsmError>(k as u32) && k <= u32::MAX,
            Err(e) => r == Err::<u32, AsmError>(e),
        },
{
    match n {
        Node::Directive(Directive::Rep(count, body)) => {
            let s = match body_len(body, consts) {
                Err(e) => {
                    return Err(e);
                },
                Ok(s) => s,
            };
            assert((s as u64) * (*count as u64) <= 0xFFFF_FFFFu64 * 0xFFFF_FFFFu64) by (nonlinear_arith)
                requires
                    s <= 0xFFFF_FFFFu32,
                    *count <= 0xFFFF_FFFFu32,
            ;
            let total: u64 = (s as u64) * (*count as u64);
            if total > 0xFFFF_FFFF {
                Err(AsmError::TooLarge)
            } else {
                Ok(total as u32)
            }
        },
        _ => item_len(n, consts),
    }
}

/// Pass 1: binds each label to its offset and measures the program.
fn resolve_labels<'a>(ast: &'a Vec<Node>, consts: &ConstTable<'a>) -> (r: Result<(LabelTable<'a>, u32), (u32, AsmError)>)
    ensures
        match layout(ast@, consts_view(consts@)) {
            Ok((l, off)) => r is Ok && labels_view(r->Ok_0.0@) == l && r->Ok_0.1 as nat == off,
            Err(e) => r == Err::<(LabelTable<'a>, u32), (u32, AsmError)>(e),
        },
{
    let ghost c = consts_view(consts@);
    let mut labels: LabelTable<'a> = Vec::new();
    let mut off: u32 = 0;
    let mut i: usize = 0;
    assert(labels_view(labels@) =~= Seq::<(Seq<char>, u32)>::empty());
    while i < ast.len()
        invariant
            0 <= i <= ast@.len(),
            c == consts_view(consts@),
            layout(ast@.subrange(0, i as int), c) == Ok::<(Seq<(Seq<char>, u32)>, nat), (u32, AsmError)>(
                (labels_view(labels@), off as nat),
            ),
        decreases ast@.len() - i,
    {
        assert(ast@.subrange(0, i + 1).drop_last() =~= ast@.subrange(0, i as int));
        match &ast[i] {
            Node::Label(name) => {
                if find_label(&labels, name).is_some() {
                    proof { lemma_layout_err(ast@, i + 1, c); }
                    return Err((off, AsmError::DuplicateLabel(name.clone())));
                }
                let ghost before = labels@;
                labels.push((name, off));
                assert(labels_view(labels@) =~= labels_view(before).push((name@, off)));
            },
            n => {
                let t = match node_len(n, consts) {
                    Err(e) => {
                        proof { lemma_layout_err(ast@, i + 1, c); }
                        return Err((off, e));
                    },
                    Ok(t) => t,
                };
                if t > 0xFFFF_FFFF - off {
                    proof { lemma_layout_err(ast@, i + 1, c); }
                    return Err((off, AsmError::TooLarge));
                }
                off = off + t;
            },
        }
        i = i + 1;
    }
    assert(ast@.subrange(0, ast@.len() as int) =~= ast@);
    Ok((labels, off))
}

/// Appends `v` as `w` little-endian bytes (`w` is 1, 2 or 4).
fn push_le(out: &mut Vec<u8>, v: u32, w: u32)
    requires
        w == 1 || w == 2 || w == 4,
    ensures
        final(out)@ == old(out)@ + le_bytes(v, w as nat),
{
    out.push((v % 0x100) as u8);
    if w >= 2 {
        out.push(((v / 0x100) % 0x100) as u8);
    }
    if w == 4 {
        out.push(((v / 0x1_0000) % 0x100) as u8);
        out.push(((v / 0x100_0000) % 0x100) as u8);
    }
    assert(out@ =~= old(out)@ + le_bytes(v, w as nat));
}

/// Appends the operand bytes of `a`.
fn emit_operand(op: Op, a: &ArgRef, labels: &LabelTable, out: &mut Vec<u8>) -> (r: Result<(), AsmError>)
    ensures
        match operand_bytes(op, a@, labels_view(labels@)) {
            Ok(b) => r is Ok && final(out)@ == old(out)@ + b,
            Err(e) => r == Err::<(), AsmError>(e),
        },
{
    let size = match arg_size(op, a) {
        Err(e) => {
            return Err(e);
        },
        Ok(n) => n,
    };
    match a {
        ArgRef::Int(v) => {
            if size != 0 {
                push_le(out, *v, size);
            } else {
                assert(out@ =~= old(out)@ + Seq::<u8>::empty());
            }
            Ok(())
        },
        ArgRef::Bytes(b) => {
            push_all(out, b);
            out.push(0);
            assert(out@ =~= old(out)@ + b@.push(0u8));
            Ok(())
        },
        ArgRef::Label(name) => match find_label(labels, name) {
            Some(addr) => {
                push_le(out, addr, 4);
                Ok(())
            },
            None => Err(AsmError::Undefined((*name).clone())),
        },
    }
}

/// Appends the bytes of an instruction.
fn emit_instr<'a>(op: Op, args: &'a Vec<Node>, consts: &ConstTable<'a>, labels: &LabelTable, out: &mut Vec<u8>) -> (r:
    Result<(), AsmError>)
    ensures
        match instr_bytes(op, args@, consts_view(consts@), labels_view(labels@)) {
            Ok(b) => r is Ok && final(out)@ == old(out)@ + b,
            Err(e) => r == Err::<(), AsmError>(e),
        },
{
    if op.arity() == 0 {
        if args.len() == 0 {
            out.push(op.byte());
            assert(out@ =~= old(out)@ + seq![op.spec_byte()]);
            Ok(())
        } else {
            Err(AsmError::WrongArity { op, expected: 0, found: args.len() })
        }
    } else if args.len() != 1 {
        Err(AsmError::WrongArity { op, expected: 1, found: args.len() })
    } else {
        match classify_arg(op, &args[0], consts) {
            Err(e) => Err(e),
            Ok(a) => {
                let ghost start = out@;
                out.push(op.byte());
                let r = emit_operand(op, &a, labels, out);
                proof {
                    if let Ok(b) = operand_bytes(op, a@, labels_view(labels@)) {
                        assert(out@ =~= start + (seq![op.spec_byte()] + b));
                    }
                }
                r
            },
        }
    }
}

/// Appends the bytes of a node that is not a `%rep`.
fn emit_item<'a>(n: &'a Node, consts: &ConstTable<'a>, labels: &LabelTable, out: &mut Vec<u8>) -> (r: Result<(), AsmError>)
    ensures
        match item_bytes(*n, consts_view(consts@), labels_view(labels@)) {
            Ok(b) => r is Ok && final(out)@ == old(out)@ + b,
            Err(e) => r == Err::<(), AsmError>(e),
        },
{
    match n {
        Node::Instruction(op, args) => emit_instr(*op, args, consts, labels, out),
        Node::Directive(d) => match d {
            Directive::Define(_, _) => {
                assert(out@ =~= old(out)@ + Seq::<u8>::empty());
                Ok(())
            },
            Directive::Include(p) => Err(AsmError::UnresolvedInclude(p.clone())),
            Directive::Stringz(s) => {
                let b = text_bytes(s);
                if b.len() >= 0xFFFF_FFFF {
                    return Err(AsmError::TooLarge);
                }
                push_all(out, b);
                out.push(0);
                assert(out@ =~= old(out)@ + utf8(s@).push(0u8));
                Ok(())
            },
            Directive::ByteSeq(b) => {
                if b.len() > 0xFFFF_FFFF {
                    return Err(AsmError::TooLarge);
                }
                push_all(out, b.as_slice());
                Ok(())
            },
            Directive::Rep(_, _) => Err(AsmError::NestedRep),
        },
        Node::Label(_) => {
            assert(out@ =~= old(out)@ + Seq::<u8>::empty());
            Ok(())
        },
        Node::ByteSeq(b) => {
            if b.len() > 0xFFFF_FFFF {
                return Err(AsmError::TooLarge);
            }
            push_all(out, b.as_slice());
            Ok(())
        },
        _ => Err(AsmError::StrayLiteral),
    }
}

/// Appends the bytes of a repeated body.
fn emit_body<'a>(body: &'a Vec<Node>, consts: &ConstTable<'a>, labels: &LabelTable, out: &mut Vec<u8>) -> (r: Result<
    (),
    AsmError,
>)
    ensures
        match body_bytes(body@, consts_view(consts@), labels_view(labels@)) {
            Ok(b) => r is Ok && final(out)@ == old(out)@ + b,
            Err(e) => r == Err::<(), AsmError>(e),
        },
{
    let ghost c = consts_view(consts@);
    let ghost l = labels_view(labels@);
    let ghost start = out@;
    let start_len = out.len();
    let mut written: usize = 0;
    let mut j: usize = 0;
    assert(start + Seq::<u8>::empty() =~= start);
    while j < body.len()
        invariant
            0 <= j <= body@.len(),
            c == consts_view(consts@),
            l == labels_view(labels@),
            body_bytes(body@.subrange(0, j as int), c, l) is Ok,
            out@ == start + body_bytes(body@.subrange(0, j as int), c, l)->Ok_0,
            written == body_bytes(body@.subrange(0, j as int), c, l)->Ok_0.len(),
            written <= u32::MAX,
            start_len == start.len(),
        decreases body@.len() - j,
    {
        assert(body@.subrange(0, j + 1).drop_last() =~= body@.subrange(0, j as int));
        let ghost acc = body_bytes(body@.subrange(0, j as int), c, l)->Ok_0;
        let ghost mid = out@;
        match &body[j] {
            Node::Label(name) => {
                proof { lemma_body_bytes_err(body@, j + 1, c, l); }
                return Err(AsmError::LabelInRep(name.clone()));
            },
            n => {
                match emit_item(n, consts, labels, out) {
                    Err(e) => {
                        proof { lemma_body_bytes_err(body@, j + 1, c, l); }
                        return Err(e);
                    },
                    Ok(()) => {},
                }
            },
        }
        let t = out.len() - (start_len + written);
        assert(out@ =~= start + (acc + out@.subrange(mid.len() as int, out@.len() as int)));
        if t > 0xFFFF_FFFF - written {
            proof { lemma_body_bytes_err(body@, j + 1, c, l); }
            return Err(AsmError::TooLarge);
        }
        written = written + t;
        j = j + 1;
    }
    assert(body@.subrange(0, body@.len() as int) =~= body@);
    Ok(())
}

/// Appends the bytes of a node; a `%rep` writes its body's bytes `N` times.
fn emit_node<'a>(n: &'a Node, consts: &ConstTable<'a>, labels: &LabelTable, out: &mut Vec<u8>) -> (r: Result<(), AsmError>)
    ensures
        match node_bytes(*n, consts_view(consts@), labels_view(labels@)) {
            Ok(b) => r is Ok && final(out)@ == old(out)@ + b,
            Err(e) => r == Err::<(), AsmError>(e),
        },
{
    match n {
        Node::Directive(Directive::Rep(count, body)) => {
            let mut once: Vec<u8> = Vec::new();
            match emit_body(body, consts, labels, &mut once) {
                Err(e) => {
                    return Err(e);
                },
                Ok(()) => {},
            }
            assert(once@ =~= Seq::<u8>::empty() + once@);
            let ghost b = once@;
            assert(once@.len() <= u32::MAX);
            assert((once.len() as u64) * (*count as u64) <= 0xFFFF_FFFFu64 * 0xFFFF_FFFFu64) by (nonlinear_arith)
                requires
                    once.len() <= 0xFFFF_FFFFusize,
                    *count <= 0xFFFF_FFFFu32,
            ;
            if (once.len() as u64) * (*count as u64) > 0xFFFF_FFFF {
                return Err(AsmError::TooLarge);
            }
            let ghost start = out@;
            let mut k: u32 = 0;
            assert(start + repeat(b, 0) =~= start);
            while k < *count
                invariant
                    0 <= k <= *count,
                    once@ == b,
                    out@ == start + repeat(b, k as nat),
                decreases *count - k,
            {
                push_all(out, once.as_slice());
                assert(repeat(b, (k + 1) as nat) == repeat(b, k as nat) + b);
                assert(out@ =~= start + repeat(b, (k + 1) as nat));
                k = k + 1;
            }
            Ok(())
        },
        _ => emit_item(n, consts, labels, out),
    }
}

/// Pass 2: the bytes of the whole program.
fn emit_all<'a>(ast: &'a Vec<Node>, consts: &ConstTable<'a>, labels: &LabelTable) -> (r: Result<Vec<u8>, (u32, AsmError)>)
    ensures
        match emit(ast@, consts_view(consts@), labels_view(labels@)) {
            Ok(b) => r is Ok && r->Ok_0@ == b,
            Err(e) => r == Err::<Vec<u8>, (u32, AsmError)>(e),
        },
{
    let ghost c = consts_view(consts@);
    let ghost l = labels_view(labels@);
    let mut out: Vec<u8> = Vec::new();
    let mut i: usize = 0;
    while i < ast.len()
        invariant
            0 <= i <= ast@.len(),
            c == consts_view(consts@),
            l == labels_view(labels@),
            emit(ast@.subrange(0, i as int), c, l) == Ok::<Seq<u8>, (u32, AsmError)>(out@),
        decreases ast@.len() - i,
    {
        assert(ast@.subrange(0, i + 1).drop_last() =~= ast@.subrange(0, i as int));
        let at = #[verifier::truncate] (out.len() as u32);
        match emit_node(&ast[i], consts, labels, &mut out) {
            Err(e) => {
                proof { lemma_emit_err(ast@, i + 1, c, l); }
                return Err((at, e));
            },
            Ok(()) => {},
        }
        i = i + 1;
    }
    assert(ast@.subrange(0, ast@.len() as int) =~= ast@);
    Ok(out)
}

/// The assembler.
#[derive(Debug, Clone)]
pub struct Assembler {
    /// Size in bytes of the last program assembled.
    pub ptr: usize,
    /// Directory that `%include` paths are relative to.
    pub root_path: String,
}

impl Assembler {
    pub fn new(root_path: &str) -> (r: Assembler)
        ensures
            r.ptr == 0,
            r.root_path@ == root_path@,
    {
        Assembler { ptr: 0, root_path: root_path.to_owned() }
    }

    /// Assembles a program whose `%include`s are already expanded: collects
    /// the constants, binds the labels, then emits the bytes. No partial
    /// output is kept on failure.
    pub fn assemble(&mut self, ast: &Vec<Node>) -> (r: Result<Vec<u8>, AsmFault>)
        ensures
            final(self).root_path == old(self).root_path,
            match assembled(ast@) {
                Ok(b) => r is Ok && r->Ok_0@ == b && final(self).ptr == b.len(),
                Err((at, e)) => r == Err::<Vec<u8>, AsmFault>(AsmFault { at, error: e }) && final(self).ptr == 0,
            },
    {
        self.ptr = 0;
        let consts = collect_consts(ast);
        let (labels, _size) = match resolve_labels(ast, &consts) {
            Err((at, error)) => {
                return Err(AsmFault { at, error });
            },
            Ok(x) => x,
        };
        match emit_all(ast, &consts, &labels) {
            Err((at, error)) => Err(AsmFault { at, error }),
            Ok(bytes) => {
                self.ptr = bytes.len();
                Ok(bytes)
            },
        }
    }
}

#[verifier::spinoff_prover]
proof fn lemma_operand_len(op: Op, a: Arg, l: Seq<(Seq<char>, u32)>)
    requires
        !(op.spec_operand() is Empty),
        operand_bytes(op, a, l) is Ok,
    ensures
        operand_size(op, a) is Ok,
        operand_bytes(op, a, l)->Ok_0.len() == operand_size(op, a)->Ok_0,
{
    let sz = operand_size(op, a)->Ok_0;
    let out = operand_bytes(op, a, l)->Ok_0;
    if let Arg::Int(v) = a {
        assert(sz == 0 || sz == 1 || sz == 2 || sz == 4);
        assert(out == le_bytes(v, sz));
        if sz == 1 {
            assert(le_bytes(v, 1).len() == 1);
        } else if sz == 2 {
            assert(le_bytes(v, 2).len() == 2);
        } else {
            assert(le_bytes(v, 4).len() == 4);
        }
        assert(out.len() == sz);
    } else if let Arg::Bytes(b) = a {
        assert(out.len() == sz);
    } else {
        assert(out.len() == sz);
    }
}

/// Within one node that is not a `%rep`, the size of pass 1 is the length
/// of what pass 2 writes.
pub proof fn lemma_item_len(n: Node, c: Seq<(Seq<char>, Node)>, l: Seq<(Seq<char>, u32)>)
    requires
        item_bytes(n, c, l) is Ok,
    ensures
        item_size(n, c) == Ok::<nat, AsmError>(item_bytes(n, c, l)->Ok_0.len()),
{
    if let Node::Instruction(op, args) = n {
        if !(op.spec_operand() is Empty) {
            let a = classify(op, args@[0], c)->Ok_0;
            lemma_operand_len(op, a, l);
        }
    }
}

proof fn lemma_body_len(b: Seq<Node>, c: Seq<(Seq<char>, Node)>, l: Seq<(Seq<char>, u32)>)
    requires
        body_bytes(b, c, l) is Ok,
    ensures
        body_size(b, c) == Ok::<nat, AsmError>(body_bytes(b, c, l)->Ok_0.len()),
    decreases b.len(),
{
    if b.len() > 0 {
        lemma_body_len(b.drop_last(), c, l);
        if !(b.last() is Label) {
            lemma_item_len(b.last(), c, l);
        }
    }
}

/// The length of `n` copies of `s`.
pub proof fn lemma_repeat_len(s: Seq<u8>, n: nat)
    ensures
        repeat(s, n).len() == s.len() * n,
    decreases n,
{
    if n > 0 {
        let m = (n - 1) as nat;
        lemma_repeat_len(s, m);
        assert(repeat(s, n) == repeat(s, m) + s);
        let k = s.len();
        assert(k * m + k == k * n) by (nonlinear_arith)
            requires
                n == m + 1,
        ;
    } else {
        assert(s.len() * n == 0) by (nonlinear_arith)
            requires
                n == 0,
        ;
    }
}

/// The one sizing function agrees with emission on every node: where pass 2
/// writes the bytes of `n`, pass 1 counted exactly that many.
pub proof fn lemma_node_len(n: Node, c: Seq<(Seq<char>, Node)>, l: Seq<(Seq<char>, u32)>)
    requires
        node_bytes(n, c, l) is Ok,
    ensures
        node_size(n, c) == Ok::<nat, AsmError>(node_bytes(n, c, l)->Ok_0.len()),
{
    if let Node::Directive(Directive::Rep(count, body)) = n {
        lemma_body_len(body@, c, l);
        lemma_repeat_len(body_bytes(body@, c, l)->Ok_0, count as nat);
    } else {
        lemma_item_len(n, c, l);
    }
}

/// Across the whole program, the offset that pass 1 reaches is the length of
/// the bytes that pass 2 writes, with the same constants and any labels.
pub proof fn lemma_passes_agree(ast: Seq<Node>, c: Seq<(Seq<char>, Node)>, l: Seq<(Seq<char>, u32)>)
    requires
        layout(ast, c) is Ok,
        emit(ast, c, l) is Ok,
    ensures
        emit(ast, c, l)->Ok_0.len() == layout(ast, c)->Ok_0.1,
    decreases ast.len(),
{
    if ast.len() > 0 {
        lemma_passes_agree(ast.drop_last(), c, l);
        lemma_node_len(ast.last(), c, l);
    }
}

/// An assembled program is exactly as long as pass 1 measured it.
pub proof fn lemma_assembled_len(ast: Seq<Node>)
    requires
        assembled(ast) is Ok,
    ensures
        layout(ast, all_defines(ast)) is Ok,
        assembled(ast)->Ok_0.len() == layout(ast, all_defines(ast))->Ok_0.1,
{
    let c = all_defines(ast);
    lemma_passes_agree(ast, c, layout(ast, c)->Ok_0.0);
}

/// `%rep(N) BODY %endrep` writes `N` copies of the bytes of `BODY`, one after
/// the other, for every `N` (none for `N == 0`).
pub proof fn lemma_rep_repeats(count: u32, body: Vec<Node>, c: Seq<(Seq<char>, Node)>, l: Seq<(Seq<char>, u32)>)
    requires
        body_bytes(body@, c, l) is Ok,
        body_bytes(body@, c, l)->Ok_0.len() * count <= u32::MAX,
    ensures
        node_bytes(Node::Directive(Directive::Rep(count, body)), c, l) == Ok::<Seq<u8>, AsmError>(
            repeat(body_bytes(body@, c, l)->Ok_0, count as nat),
        ),
        count == 0 ==> repeat(body_bytes(body@, c, l)->Ok_0, count as nat).len() == 0,
        forall|k: nat| #![trigger repeat(body_bytes(body@, c, l)->Ok_0, k + 1)]
            k < count ==> repeat(body_bytes(body@, c, l)->Ok_0, k + 1) == repeat(
                body_bytes(body@, c, l)->Ok_0,
                k,
            ) + body_bytes(body@, c, l)->Ok_0,
{
}

/// After `%define NAME V`, with `V` an integer, a string or a byte sequence
/// and no later `%define` of `NAME`, an instruction whose operand is `NAME`
/// has the same size and the same bytes as with the literal `V` itself.
pub proof fn lemma_define_inlines(
    op: Op,
    name: String,
    v: Node,
    c: Seq<(Seq<char>, Node)>,
    l: Seq<(Seq<char>, u32)>,
)
    requires
        lookup(c, name@) == Some(v),
        v is Int || v is Str || v is ByteSeq,
    ensures
        instr_size(op, seq![Node::Ident(name)], c) == instr_size(op, seq![v], c),
        instr_bytes(op, seq![Node::Ident(name)], c, l) == instr_bytes(op, seq![v], c, l),
{
    assert(classify(op, Node::Ident(name), c) == classify(op, v, c));
}

pub open spec fn is_include(n: Node) -> bool {
    n is Directive && n->Directive_0 is Include
}

pub open spec fn is_rep(n: Node) -> bool {
    n is Directive && n->Directive_0 is Rep
}

pub open spec fn rep_body(n: Node) -> Seq<Node> {
    n->Directive_0->Rep_1@
}

/// Whether a node is an `%include` or a `%rep` whose body holds one.
pub open spec fn holds_include(n: Node) -> bool {
    is_include(n) || (is_rep(n) && exists|j: int| 0 <= j < rep_body(n).len() && is_include(#[trigger] rep_body(n)[j]))
}

/// The first `%include` of the program and its path: at the top level
/// (`(i, None, path)`) or in the body of the `%rep` at `i` (`(i, Some(j),
/// path)`). The caller reads and parses that file and splices its tree in
/// with `splice_include` or `splice_into_rep`, before assembly.
pub fn first_include(ast: &Vec<Node>) -> (r: Option<(usize, Option<usize>, String)>)
    ensures
        match r {
            Some((i, None, p)) => i < ast@.len() && is_include(ast@[i as int]) && ast@[i as int]->Directive_0->Include_0
                == p && forall|k: int| 0 <= k < i ==> !holds_include(#[trigger] ast@[k]),
            Some((i, Some(j), p)) => i < ast@.len() && is_rep(ast@[i as int]) && j < rep_body(ast@[i as int]).len()
                && is_include(rep_body(ast@[i as int])[j as int]) && rep_body(ast@[i as int])[j as int]->Directive_0->Include_0
                == p && (forall|k: int| 0 <= k < j ==> !is_include(#[trigger] rep_body(ast@[i as int])[k])) && forall|
                k: int,
            | 0 <= k < i ==> !holds_include(#[trigger] ast@[k]),
            None => forall|k: int| 0 <= k < ast@.len() ==> !holds_include(#[trigger] ast@[k]),
        },
{
    let mut i: usize = 0;
    while i < ast.len()
        invariant
            0 <= i <= ast@.len(),
            forall|k: int| 0 <= k < i ==> !holds_include(#[trigger] ast@[k]),
        decreases ast@.len() - i,
    {
        match &ast[i] {
            Node::Directive(Directive::Include(p)) => {
                return Some((i, None, p.clone()));
            },
            Node::Directive(Directive::Rep(_, body)) => {
                let mut j: usize = 0;
                while j < body.len()
                    invariant
                        0 <= j <= body@.len(),
                        i < ast@.len(),
                        body@ == rep_body(ast@[i as int]),
                        is_rep(ast@[i as int]),
                        forall|k: int| 0 <= k < i ==> !holds_include(#[trigger] ast@[k]),
                        forall|k: int| 0 <= k < j ==> !is_include(#[trigger] body@[k]),
                    decreases body@.len() - j,
                {
                    if let Node::Directive(Directive::Include(p)) = &body[j] {
                        return Some((i, Some(j), p.clone()));
                    }
                    j = j + 1;
                }
                assert(!holds_include(ast@[i as int]));
            },
            _ => {},
        }
        i = i + 1;
    }
    None
}

/// Replaces the `%include` at `j` in the body of the `%rep` at `at` by the
/// nodes of the included file; the rest of the program stays as it is.
pub fn splice_into_rep(ast: Vec<Node>, at: usize, j: usize, nodes: Vec<Node>) -> (r: Vec<Node>)
    requires
        at < ast@.len(),
        is_rep(ast@[at as int]),
        j < rep_body(ast@[at as int]).len(),
    ensures
        r@.len() == ast@.len(),
        forall|k: int| 0 <= k < ast@.len() && k != at ==> r@[k] == ast@[k],
        is_rep(r@[at as int]),
        r@[at as int]->Directive_0->Rep_0 == ast@[at as int]->Directive_0->Rep_0,
        rep_body(r@[at as int]) == rep_body(ast@[at as int]).subrange(0, j as int) + nodes@ + rep_body(
            ast@[at as int],
        ).subrange(j + 1, rep_body(ast@[at as int]).len() as int),
{
    let ghost all = ast@;
    let mut ast = ast;
    let node = ast.remove(at);
    match node {
        Node::Directive(Directive::Rep(count, body)) => {
            let spliced = splice_include(body, j, nodes);
            ast.insert(at, Node::Directive(Directive::Rep(count, spliced)));
        },
        other => {
            ast.insert(at, other);
        },
    }
    proof {
        assert forall|k: int| 0 <= k < all.len() && k != at implies ast@[k] == all[k] by {
            if k < at {
                assert(ast@[k] == all[k]);
            } else {
                assert(ast@[k] == all.remove(at as int)[k - 1]);
            }
        }
    }
    ast
}

/// Replaces the node at `at` (an `%include`) by the nodes of the included
/// file, so that pass 1 sees labels of included files where they land.
pub fn splice_include(ast: Vec<Node>, at: usize, nodes: Vec<Node>) -> (r: Vec<Node>)
    requires
        at < ast@.len(),
    ensures
        r@ == ast@.subrange(0, at as int) + nodes@ + ast@.subrange(at + 1, ast@.len() as int),
{
    let ghost all = ast@;
    let mut head = ast;
    let mut tail: Vec<Node> = Vec::new();
    while head.len() > at + 1
        invariant
            at + 1 <= head@.len() <= all.len(),
            head@ == all.subrange(0, head@.len() as int),
            tail@ == all.subrange(head@.len() as int, all.len() as int).reverse(),
        decreases head@.len(),
    {
        let n = head.pop().unwrap();
        tail.push(n);
        assert(tail@ =~= all.subrange(head@.len() as int, all.len() as int).reverse());
    }
    head.pop();
    assert(head@ =~= all.subrange(0, at as int));
    let mut nodes = nodes;
    let ghost inserted = nodes@;
    head.append(&mut nodes);
    let ghost mid = head@;
    while tail.len() > 0
        invariant
            head@ == mid + all.subrange(at + 1, all.len() - tail@.len()),
            tail@ == all.subrange(all.len() - tail@.len(), all.len() as int).reverse(),
            tail@.len() <= all.len() - (at + 1),
        decreases tail@.len(),
    {
        let n = tail.pop().unwrap();
        head.push(n);
        assert(head@ =~= mid + all.subrange(at + 1, all.len() - tail@.len()));
    }
    assert(mid == all.subrange(0, at as int) + inserted);
    assert(head@ =~= all.subrange(0, at as int) + inserted + all.subrange(at + 1, all.len() as int));
    head
}

/// Reading back `w` little-endian bytes gives the number written, when it fits.
pub proof fn lemma_le_round_trip(v: u32, w: nat)
    requires
        w == 1 || w == 2 || w == 4,
        w == 1 ==> v < 0x100,
        w == 2 ==> v < 0x1_0000,
    ensures
        le_value(le_bytes(v, w)) == v,
{
    reveal_with_fuel(le_value, 5);
    let b = le_bytes(v, w);
    if w == 1 {
        assert(b.drop_first() =~= Seq::<u8>::empty());
    } else if w == 2 {
        assert(b.drop_first().drop_first() =~= Seq::<u8>::empty());
        assert(v % 0x100 + 0x100 * ((v / 0x100) % 0x100) == v) by (bit_vector)
            requires
                v < 0x1_0000u32,
        ;
    } else {
        assert(b.drop_first().drop_first().drop_first().drop_first() =~= Seq::<u8>::empty());
        let b0 = (v % 0x100) as nat;
        let b1 = ((v / 0x100) % 0x100) as nat;
        let b2 = ((v / 0x1_0000) % 0x100) as nat;
        let b3 = ((v / 0x100_0000) % 0x100) as nat;
        assert(v % 0x100 + 0x100 * ((v / 0x100) % 0x100) + 0x1_0000 * ((v / 0x1_0000) % 0x100) == v % 0x100_0000)
            by (bit_vector);
        assert((v / 0x100_0000) % 0x100 == v / 0x100_0000) by (bit_vector);
        assert(v == v % 0x100_0000 + 0x100_0000 * (v / 0x100_0000)) by (bit_vector);
        assert(b0 + 256 * (b1 + 256 * (b2 + 256 * b3)) == v);
    }
}

/// The first 0x00 at or after `i` is at `k` when none lies between them.
pub proof fn lemma_first_nul_at(p: Seq<u8>, i: int, k: int)
    requires
        0 <= i <= k < p.len(),
        forall|j: int| i <= j < k ==> p[j] != 0u8,
        p[k] == 0u8,
    ensures
        first_nul(p, i) == Some(k),
    decreases k - i,
{
    if i < k {
        lemma_first_nul_at(p, i + 1, k);
    }
}

/// The interpreter reads back exactly what the assembler wrote: decoding the
/// bytes of an instruction, wherever they stand in a program, gives its
/// opcode, its length, and its operand (the integer, the label's address, or
/// the NUL-terminated bytes).
pub proof fn lemma_decode_emitted(
    op: Op,
    args: Seq<Node>,
    c: Seq<(Seq<char>, Node)>,
    l: Seq<(Seq<char>, u32)>,
    pre: Seq<u8>,
    post: Seq<u8>,
)
    requires
        instr_bytes(op, args, c, l) is Ok,
    ensures
        ({
            let b = instr_bytes(op, args, c, l)->Ok_0;
            let d = spec_decode(pre + b + post, pre.len() as int);
            &&& d is Ok
            &&& d->Ok_0.op == op
            &&& d->Ok_0.size == b.len()
            &&& !(op.spec_operand() is Empty) ==> match classify(op, args[0], c)->Ok_0 {
                Arg::Int(v) => d->Ok_0.operand == v,
                Arg::Label(name) => d->Ok_0.operand == lookup(l, name@)->Some_0,
                Arg::Bytes(t) => d->Ok_0.text == t,
            }
        }),
{
    let b = instr_bytes(op, args, c, l)->Ok_0;
    let p = pre + b + post;
    let at = pre.len() as int;
    lemma_byte_round_trip(op);
    assert(p[at] == op.spec_byte());
    if !(op.spec_operand() is Empty) {
        let a = classify(op, args[0], c)->Ok_0;
        let ob = operand_bytes(op, a, l)->Ok_0;
        assert(b == seq![op.spec_byte()] + ob);
        let sz = operand_size(op, a)->Ok_0;
        match a {
            Arg::Int(v) => {
                assert(ob == le_bytes(v, sz));
                assert(p.subrange(at + 1, at + 1 + sz) =~= ob);
                lemma_le_round_trip(v, sz);
            },
            Arg::Label(name) => {
                let addr = lookup(l, name@)->Some_0;
                assert(ob == le_bytes(addr, 4));
                assert(p.subrange(at + 1, at + 5) =~= ob);
                lemma_le_round_trip(addr, 4);
            },
            Arg::Bytes(t) => {
                assert(ob == t.push(0u8));
                let k = at + 1 + t.len();
                assert forall|j: int| at + 1 <= j < k implies p[j] != 0u8 by {
                    assert(p[j] == t[j - at - 1]);
                    if t[j - at - 1] == 0u8 {
                        assert(t.contains(0u8));
                    }
                }
                assert(p[k] == 0u8);
                lemma_first_nul_at(p, at + 1, k);
                assert(p.subrange(at + 1, k) =~= t);
            },
        }
    }
}

proof fn lemma_emit_prefix_ok(ast: Seq<Node>, k: int, c: Seq<(Seq<char>, Node)>, l: Seq<(Seq<char>, u32)>)
    requires
        0 <= k <= ast.len(),
        emit(ast, c, l) is Ok,
    ensures
        emit(ast.subrange(0, k), c, l) is Ok,
    decreases ast.len() - k,
{
    if k < ast.len() {
        lemma_emit_prefix_ok(ast, k + 1, c, l);
        assert(ast.subrange(0, k + 1).drop_last() =~= ast.subrange(0, k));
    } else {
        assert(ast.subrange(0, k) =~= ast);
    }
}

/// Every label is bound to the offset at which the bytes that follow it
/// begin: the length of what the nodes before it emit. Forward and backward
/// references alike resolve to that offset.
pub proof fn lemma_label_offsets(ast: Seq<Node>, c: Seq<(Seq<char>, Node)>, l: Seq<(Seq<char>, u32)>)
    requires
        layout(ast, c) is Ok,
        emit(ast, c, l) is Ok,
    ensures
        forall|i: int| #![trigger ast[i]] 0 <= i < ast.len() && ast[i] is Label ==> {
            &&& emit(ast.subrange(0, i), c, l) is Ok
            &&& lookup(layout(ast, c)->Ok_0.0, ast[i]->Label_0@) == Some(
                emit(ast.subrange(0, i), c, l)->Ok_0.len() as u32,
            )
        },
    decreases ast.len(),
{
    if ast.len() > 0 {
        let init = ast.drop_last();
        lemma_label_offsets(init, c, l);
        let labels0 = layout(init, c)->Ok_0.0;
        let off = layout(init, c)->Ok_0.1;
        lemma_passes_agree(init, c, l);
        assert forall|i: int| #![trigger ast[i]] 0 <= i < ast.len() && ast[i] is Label implies {
            &&& emit(ast.subrange(0, i), c, l) is Ok
            &&& lookup(layout(ast, c)->Ok_0.0, ast[i]->Label_0@) == Some(
                emit(ast.subrange(0, i), c, l)->Ok_0.len() as u32,
            )
        } by {
            lemma_emit_prefix_ok(ast, i, c, l);
            if i < ast.len() - 1 {
                assert(init[i] == ast[i]);
                assert(init.subrange(0, i) =~= ast.subrange(0, i));
                if let Node::Label(name2) = ast.last() {
                    let name = ast[i]->Label_0;
                    assert(lookup(labels0, name@) is Some);
                    assert(lookup(labels0, name2@) is None);
                    assert(name2@ != name@);
                    assert(labels0.push((name2@, off as u32)).drop_last() =~= labels0);
                }
            } else {
                assert(ast.subrange(0, i) =~= init);
                assert(labels0.push((ast[i]->Label_0@, off as u32)).last() == (ast[i]->Label_0@, off as u32));
            }
        }
    }
}

/// What the nodes before `k` emit is the start of what the whole program
/// emits.
proof fn lemma_emit_prefix(ast: Seq<Node>, k: int, c: Seq<(Seq<char>, Node)>, l: Seq<(Seq<char>, u32)>)
    requires
        0 <= k <= ast.len(),
        emit(ast, c, l) is Ok,
    ensures
        emit(ast.subrange(0, k), c, l) is Ok,
        emit(ast.subrange(0, k), c, l)->Ok_0.len() <= emit(ast, c, l)->Ok_0.len(),
        emit(ast, c, l)->Ok_0.subrange(0, emit(ast.subrange(0, k), c, l)->Ok_0.len() as int) == emit(
            ast.subrange(0, k),
            c,
            l,
        )->Ok_0,
    decreases ast.len() - k,
{
    if k < ast.len() {
        lemma_emit_prefix(ast, k + 1, c, l);
        assert(ast.subrange(0, k + 1).drop_last() =~= ast.subrange(0, k));
        let whole = emit(ast, c, l)->Ok_0;
        let longer = emit(ast.subrange(0, k + 1), c, l)->Ok_0;
        let shorter = emit(ast.subrange(0, k), c, l)->Ok_0;
        assert(longer.subrange(0, shorter.len() as int) =~= shorter);
        assert(whole.subrange(0, shorter.len() as int) =~= longer.subrange(0, shorter.len() as int));
    } else {
        assert(ast.subrange(0, k) =~= ast);
        assert(emit(ast, c, l)->Ok_0.subrange(0, emit(ast, c, l)->Ok_0.len() as int) =~= emit(ast, c, l)->Ok_0);
    }
}

/// Pass 1 never measures past the 32-bit address space.
proof fn lemma_layout_bound(ast: Seq<Node>, c: Seq<(Seq<char>, Node)>)
    requires
        layout(ast, c) is Ok,
    ensures
        layout(ast, c)->Ok_0.1 <= u32::MAX,
    decreases ast.len(),
{
    if ast.len() > 0 {
        lemma_layout_bound(ast.drop_last(), c);
    }
}

/// The label at `j` is bound to the length of what precedes it, which fits
/// 32 bits.
proof fn lemma_label_target(ast: Seq<Node>, j: int, c: Seq<(Seq<char>, Node)>, l: Seq<(Seq<char>, u32)>)
    requires
        layout(ast, c) is Ok,
        l == layout(ast, c)->Ok_0.0,
        emit(ast, c, l) is Ok,
        0 <= j < ast.len(),
        ast[j] is Label,
    ensures
        emit(ast.subrange(0, j), c, l) is Ok,
        emit(ast.subrange(0, j), c, l)->Ok_0.len() <= u32::MAX,
        lookup(l, ast[j]->Label_0@) == Some(emit(ast.subrange(0, j), c, l)->Ok_0.len() as u32),
{
    lemma_emit_prefix(ast, j, c, l);
    lemma_passes_agree(ast, c, l);
    lemma_layout_bound(ast, c);
    lemma_label_offsets(ast, c, l);
    assert(ast[j] is Label);
}

/// The bytes of the node at `i` stand right after those of the nodes before it.
proof fn lemma_node_at(ast: Seq<Node>, i: int, c: Seq<(Seq<char>, Node)>, l: Seq<(Seq<char>, u32)>)
    requires
        emit(ast, c, l) is Ok,
        0 <= i < ast.len(),
    ensures
        emit(ast.subrange(0, i), c, l) is Ok,
        node_bytes(ast[i], c, l) is Ok,
        emit(ast, c, l)->Ok_0 == emit(ast.subrange(0, i), c, l)->Ok_0 + node_bytes(ast[i], c, l)->Ok_0
            + emit(ast, c, l)->Ok_0.subrange(
            (emit(ast.subrange(0, i), c, l)->Ok_0.len() + node_bytes(ast[i], c, l)->Ok_0.len()) as int,
            emit(ast, c, l)->Ok_0.len() as int,
        ),
{
    lemma_emit_prefix(ast, i, c, l);
    lemma_emit_prefix(ast, i + 1, c, l);
    assert(ast.subrange(0, i + 1).drop_last() =~= ast.subrange(0, i));
    assert(ast.subrange(0, i + 1).last() == ast[i]);
    let bytes = emit(ast, c, l)->Ok_0;
    let pre = emit(ast.subrange(0, i), c, l)->Ok_0;
    let b = node_bytes(ast[i], c, l)->Ok_0;
    assert(emit(ast.subrange(0, i + 1), c, l)->Ok_0 == pre + b);
    assert(bytes =~= pre + b + bytes.subrange((pre.len() + b.len()) as int, bytes.len() as int));
}

/// A jump to a label lands on it. In an assembled program, take an
/// instruction with an address operand naming a label (and no constant):
/// decoding the program at the instruction's offset gives that opcode, and
/// as operand the offset of the label, forward or backward alike.
pub proof fn lemma_jump_lands_on_label(ast: Seq<Node>, i: int, j: int, op: Op, args: Vec<Node>, name: String)
    requires
        assembled(ast) is Ok,
        0 <= i < ast.len(),
        0 <= j < ast.len(),
        ast[i] == Node::Instruction(op, args),
        op.spec_operand() is Address,
        args@ == seq![Node::Ident(name)],
        lookup(all_defines(ast), name@) is None,
        ast[j] is Label && ast[j]->Label_0@ == name@,
    ensures
        ({
            let c = all_defines(ast);
            let l = layout(ast, c)->Ok_0.0;
            let bytes = assembled(ast)->Ok_0;
            let at = emit(ast.subrange(0, i), c, l)->Ok_0.len();
            let target = emit(ast.subrange(0, j), c, l)->Ok_0.len();
            &&& spec_decode(bytes, at as int) is Ok
            &&& spec_decode(bytes, at as int)->Ok_0.op == op
            &&& spec_decode(bytes, at as int)->Ok_0.operand as nat == target
        }),
{
    let c = all_defines(ast);
    let l = layout(ast, c)->Ok_0.0;
    let bytes = emit(ast, c, l)->Ok_0;
    lemma_node_at(ast, i, c, l);
    lemma_label_target(ast, j, c, l);
    let pre = emit(ast.subrange(0, i), c, l)->Ok_0;
    let b = node_bytes(ast[i], c, l)->Ok_0;
    let post = bytes.subrange((pre.len() + b.len()) as int, bytes.len() as int);
    assert(b == instr_bytes(op, args@, c, l)->Ok_0);
    lemma_decode_emitted(op, args@, c, l, pre, post);
    assert(classify(op, args@[0], c) == Ok::<Arg, AsmError>(Arg::Label(name)));
}

/// The size that both passes give an instruction is the instruction set's
/// length for its opcode and, for a NUL-terminated operand, the operand's
/// content: it never depends on where labels land.
pub proof fn lemma_instr_size_encoded(op: Op, args: Seq<Node>, c: Seq<(Seq<char>, Node)>)
    requires
        instr_size(op, args, c) is Ok,
    ensures
        instr_size(op, args, c)->Ok_0 == spec_encoded_len(
            op,
            if op.spec_operand() is NulTerminated { classify(op, args[0], c)->Ok_0->Bytes_0.len() } else { 0 },
        ),
{
}

/// Operand `a2` is operand `a1`, or `a1` names the constant `name` and `a2`
/// is its literal `v`.
pub open spec fn uses_as(a1: Node, a2: Node, name: Seq<char>, v: Node) -> bool {
    a1 == a2 || (a1 is Ident && a1->Ident_0@ == name && a2 == v)
}

/// Node `n2` is node `n1` with some operand uses of the constant `name`
/// replaced by its literal `v`.
pub open spec fn inlined(n1: Node, n2: Node, name: Seq<char>, v: Node) -> bool {
    n1 == n2 || (n1 is Instruction && n2 is Instruction && n1->Instruction_0 == n2->Instruction_0
        && n1->Instruction_1@.len() == n2->Instruction_1@.len() && forall|k: int|
        0 <= k < n1->Instruction_1@.len() ==> uses_as(
            #[trigger] n1->Instruction_1@[k],
            n2->Instruction_1@[k],
            name,
            v,
        ))
}

proof fn lemma_inlined_node(
    n1: Node,
    n2: Node,
    name: Seq<char>,
    v: Node,
    c: Seq<(Seq<char>, Node)>,
    l: Seq<(Seq<char>, u32)>,
)
    requires
        inlined(n1, n2, name, v),
        lookup(c, name) == Some(v),
        v is Int || v is Str || v is ByteSeq,
    ensures
        node_size(n1, c) == node_size(n2, c),
        node_bytes(n1, c, l) == node_bytes(n2, c, l),
        all_defines(seq![n1]) == all_defines(seq![n2]),
{
    if n1 != n2 {
        let op = n1->Instruction_0;
        let a1 = n1->Instruction_1@;
        let a2 = n2->Instruction_1@;
        if a1.len() == 1 {
            assert(uses_as(a1[0], a2[0], name, v));
            assert(classify(op, a1[0], c) == classify(op, a2[0], c));
        }
        assert(seq![n1].drop_last() =~= Seq::<Node>::empty());
        assert(seq![n2].drop_last() =~= Seq::<Node>::empty());
    }
}

proof fn lemma_inlined_seq(
    a1: Seq<Node>,
    a2: Seq<Node>,
    name: Seq<char>,
    v: Node,
    c: Seq<(Seq<char>, Node)>,
    l: Seq<(Seq<char>, u32)>,
)
    requires
        a1.len() == a2.len(),
        forall|i: int| 0 <= i < a1.len() ==> inlined(#[trigger] a1[i], a2[i], name, v),
        lookup(c, name) == Some(v),
        v is Int || v is Str || v is ByteSeq,
    ensures
        all_defines(a1) == all_defines(a2),
        layout(a1, c) == layout(a2, c),
        emit(a1, c, l) == emit(a2, c, l),
    decreases a1.len(),
{
    if a1.len() > 0 {
        let n = a1.len() - 1;
        lemma_inlined_seq(a1.drop_last(), a2.drop_last(), name, v, c, l);
        lemma_inlined_node(a1[n], a2[n], name, v, c, l);
        assert(seq![a1.last()].drop_last() =~= Seq::<Node>::empty());
        assert(seq![a2.last()].drop_last() =~= Seq::<Node>::empty());
        assert(seq![a1.last()].last() == a1.last());
        assert(seq![a2.last()].last() == a2.last());
    }
}

/// `%define NAME V` (V an integer, a string or a byte sequence, and the last
/// definition of NAME) inlines: a program in which operand uses of NAME are
/// replaced by the literal V assembles to exactly the same bytes, or fails
/// with the same error.
pub proof fn lemma_define_inlined_program(a1: Seq<Node>, a2: Seq<Node>, name: Seq<char>, v: Node)
    requires
        a1.len() == a2.len(),
        forall|i: int| 0 <= i < a1.len() ==> inlined(#[trigger] a1[i], a2[i], name, v),
        lookup(all_defines(a1), name) == Some(v),
        v is Int || v is Str || v is ByteSeq,
    ensures
        assembled(a1) == assembled(a2),
{
    let c = all_defines(a1);
    lemma_inlined_seq(a1, a2, name, v, c, Seq::empty());
    if layout(a1, c) is Ok {
        lemma_inlined_seq(a1, a2, name, v, c, layout(a1, c)->Ok_0.0);
    }
}

} // verus!
