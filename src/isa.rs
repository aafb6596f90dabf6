//! The instruction set: the one table that both the assembler and the
//! interpreter read. Each opcode has a byte, a mnemonic and an operand policy.
use vstd::prelude::*;
use vstd::string::*;

verus! {

/// One operation of the virtual machine.
#[allow(non_camel_case_types)]
#[derive(Debug, Clone, Copy, PartialEq, Eq, Structural)]
pub enum Op {
    NOP,
    PUSH8,
    PUSH16,
    PUSH32,
    PUSHSZ,
    PUSHAC,
    POP8,
    POP16,
    POP32,
    POPSZ,
    CMP,
    JABS,
    JREL,
    JEQ,
    JNE,
    ADD,
    SUB,
    MUL,
    DIV,
    CALL,
    CALL_NAT,
    RET,
    HALT,
}

/// The assembler's name for the same table.
pub type Instr = Op;

/// How the operand of an opcode is laid out after the opcode byte.
#[derive(Debug, Clone, Copy, PartialEq, Eq, Structural)]
pub enum Operand {
    /// No operand bytes.
    Empty,
    /// A little-endian immediate of exactly 1, 2 or 4 bytes.
    Fixed(u8),
    /// A little-endian address, always 4 bytes.
    Address,
    /// Raw bytes up to and including one 0x00 terminator.
    NulTerminated,
}

impl Op {
    pub open spec fn spec_byte(self) -> u8 {
        match self {
            Op::NOP => 0x00,
            Op::PUSH8 => 0x01,
            Op::PUSH16 => 0x02,
            Op::PUSH32 => 0x03,
            Op::PUSHSZ => 0x04,
            Op::PUSHAC => 0x05,
            Op::POP8 => 0x06,
            Op::POP16 => 0x07,
            Op::POP32 => 0x08,
            Op::POPSZ => 0x09,
            Op::CMP => 0x0C,
            Op::JABS => 0x0D,
            Op::JREL => 0x0E,
            Op::JEQ => 0x0F,
            Op::JNE => 0x10,
            Op::ADD => 0x11,
            Op::SUB => 0x12,
            Op::MUL => 0x13,
            Op::DIV => 0x14,
            Op::CALL => 0x15,
            Op::CALL_NAT => 0x16,
            Op::RET => 0x17,
            Op::HALT => 0xFF,
        }
    }

    pub open spec fn spec_from_byte(b: u8) -> Option<Op> {
        if b == 0x00 { Some(Op::NOP) }
        else if b == 0x01 { Some(Op::PUSH8) }
        else if b == 0x02 { Some(Op::PUSH16) }
        else if b == 0x03 { Some(Op::PUSH32) }
        else if b == 0x04 { Some(Op::PUSHSZ) }
        else if b == 0x05 { Some(Op::PUSHAC) }
        else if b == 0x06 { Some(Op::POP8) }
        else if b == 0x07 { Some(Op::POP16) }
        else if b == 0x08 { Some(Op::POP32) }
        else if b == 0x09 { Some(Op::POPSZ) }
        else if b == 0x0C { Some(Op::CMP) }
        else if b == 0x0D { Some(Op::JABS) }
        else if b == 0x0E { Some(Op::JREL) }
        else if b == 0x0F { Some(Op::JEQ) }
        else if b == 0x10 { Some(Op::JNE) }
        else if b == 0x11 { Some(Op::ADD) }
        else if b == 0x12 { Some(Op::SUB) }
        else if b == 0x13 { Some(Op::MUL) }
        else if b == 0x14 { Some(Op::DIV) }
        else if b == 0x15 { Some(Op::CALL) }
        else if b == 0x16 { Some(Op::CALL_NAT) }
        else if b == 0x17 { Some(Op::RET) }
        else if b == 0xFF { Some(Op::HALT) }
        else { None }
    }

    pub open spec fn spec_operand(self) -> Operand {
        match self {
            Op::PUSH8 => Operand::Fixed(1),
            Op::PUSH16 => Operand::Fixed(2),
            Op::PUSH32 => Operand::Fixed(4),
            Op::PUSHSZ => Operand::NulTerminated,
            Op::JABS | Op::JREL | Op::JEQ | Op::JNE | Op::CALL | Op::CALL_NAT => Operand::Address,
            _ => Operand::Empty,
        }
    }

    /// Whether the opcode sets the instruction pointer itself.
    pub open spec fn spec_sets_ip(self) -> bool {
        match self {
            Op::JABS | Op::JREL | Op::JEQ | Op::JNE | Op::CALL | Op::RET => true,
            _ => false,
        }
    }

    /// The opcode byte.
    #[verifier::when_used_as_spec(spec_byte)]
    pub fn byte(self) -> (r: u8)
        ensures
            r == self.spec_byte(),
    {
        match self {
            Op::NOP => 0x00,
            Op::PUSH8 => 0x01,
            Op::PUSH16 => 0x02,
            Op::PUSH32 => 0x03,
            Op::PUSHSZ => 0x04,
            Op::PUSHAC => 0x05,
            Op::POP8 => 0x06,
            Op::POP16 => 0x07,
            Op::POP32 => 0x08,
            Op::POPSZ => 0x09,
            Op::CMP => 0x0C,
            Op::JABS => 0x0D,
            Op::JREL => 0x0E,
            Op::JEQ => 0x0F,
            Op::JNE => 0x10,
            Op::ADD => 0x11,
            Op::SUB => 0x12,
            Op::MUL => 0x13,
            Op::DIV => 0x14,
            Op::CALL => 0x15,
            Op::CALL_NAT => 0x16,
            Op::RET => 0x17,
            Op::HALT => 0xFF,
        }
    }

    /// Decodes an opcode byte; `None` for a byte that names no opcode.
    pub fn from_byte(b: u8) -> (r: Option<Op>)
        ensures
            r == Op::spec_from_byte(b),
    {
        if b == 0x00 { Some(Op::NOP) }
        else if b == 0x01 { Some(Op::PUSH8) }
        else if b == 0x02 { Some(Op::PUSH16) }
        else if b == 0x03 { Some(Op::PUSH32) }
        else if b == 0x04 { Some(Op::PUSHSZ) }
        else if b == 0x05 { Some(Op::PUSHAC) }
        else if b == 0x06 { Some(Op::POP8) }
        else if b == 0x07 { Some(Op::POP16) }
        else if b == 0x08 { Some(Op::POP32) }
        else if b == 0x09 { Some(Op::POPSZ) }
        else if b == 0x0C { Some(Op::CMP) }
        else if b == 0x0D { Some(Op::JABS) }
        else if b == 0x0E { Some(Op::JREL) }
        else if b == 0x0F { Some(Op::JEQ) }
        else if b == 0x10 { Some(Op::JNE) }
        else if b == 0x11 { Some(Op::ADD) }
        else if b == 0x12 { Some(Op::SUB) }
        else if b == 0x13 { Some(Op::MUL) }
        else if b == 0x14 { Some(Op::DIV) }
        else if b == 0x15 { Some(Op::CALL) }
        else if b == 0x16 { Some(Op::CALL_NAT) }
        else if b == 0x17 { Some(Op::RET) }
        else if b == 0xFF { Some(Op::HALT) }
        else { None }
    }

    /// The operand policy of the opcode.
    #[verifier::when_used_as_spec(spec_operand)]
    pub fn operand(self) -> (r: Operand)
        ensures
            r == self.spec_operand(),
    {
        match self {
            Op::PUSH8 => Operand::Fixed(1),
            Op::PUSH16 => Operand::Fixed(2),
            Op::PUSH32 => Operand::Fixed(4),
            Op::PUSHSZ => Operand::NulTerminated,
            Op::JABS | Op::JREL | Op::JEQ | Op::JNE | Op::CALL | Op::CALL_NAT => Operand::Address,
            _ => Operand::Empty,
        }
    }

    /// Whether the opcode sets the instruction pointer itself, so that the
    /// interpreter does not step past it afterwards.
    #[verifier::when_used_as_spec(spec_sets_ip)]
    pub fn sets_ip(self) -> (r: bool)
        ensures
            r == self.spec_sets_ip(),
    {
        match self {
            Op::JABS | Op::JREL | Op::JEQ | Op::JNE | Op::CALL | Op::RET => true,
            _ => false,
        }
    }

    /// The number of operands the instruction takes in assembly source.
    pub fn arity(self) -> (r: usize)
        ensures
            r == (if self.spec_operand() is Empty { 0usize } else { 1usize }),
    {
        match self.operand() {
            Operand::Empty => 0,
            _ => 1,
        }
    }

    pub open spec fn spec_mnemonic(self) -> Seq<char> {
        match self {
            Op::NOP => "nop"@,
            Op::PUSH8 => "push8"@,
            Op::PUSH16 => "push16"@,
            Op::PUSH32 => "push32"@,
            Op::PUSHSZ => "pushsz"@,
            Op::PUSHAC => "pushac"@,
            Op::POP8 => "pop8"@,
            Op::POP16 => "pop16"@,
            Op::POP32 => "pop32"@,
            Op::POPSZ => "popsz"@,
            Op::CMP => "cmp"@,
            Op::JABS => "jabs"@,
            Op::JREL => "jrel"@,
            Op::JEQ => "jeq"@,
            Op::JNE => "jne"@,
            Op::ADD => "add"@,
            Op::SUB => "sub"@,
            Op::MUL => "mul"@,
            Op::DIV => "div"@,
            Op::CALL => "call"@,
            Op::CALL_NAT => "callnat"@,
            Op::RET => "ret"@,
            Op::HALT => "halt"@,
        }
    }

    /// The mnemonic of the opcode in assembly source.
    pub fn mnemonic(self) -> (r: &'static str)
        ensures
            r@ == self.spec_mnemonic(),
    {
        match self {
            Op::NOP => "nop",
            Op::PUSH8 => "push8",
            Op::PUSH16 => "push16",
            Op::PUSH32 => "push32",
            Op::PUSHSZ => "pushsz",
            Op::PUSHAC => "pushac",
            Op::POP8 => "pop8",
            Op::POP16 => "pop16",
            Op::POP32 => "pop32",
            Op::POPSZ => "popsz",
            Op::CMP => "cmp",
            Op::JABS => "jabs",
            Op::JREL => "jrel",
            Op::JEQ => "jeq",
            Op::JNE => "jne",
            Op::ADD => "add",
            Op::SUB => "sub",
            Op::MUL => "mul",
            Op::DIV => "div",
            Op::CALL => "call",
            Op::CALL_NAT => "callnat",
            Op::RET => "ret",
            Op::HALT => "halt",
        }
    }
}

/// Older spellings of three mnemonics: `j` for `jabs`, `pushi` for `push32`,
/// `popi` for `pop32`.
pub open spec fn older_spelling(w: Seq<char>) -> Option<Op> {
    if w == "j"@ {
        Some(Op::JABS)
    } else if w == "pushi"@ {
        Some(Op::PUSH32)
    } else if w == "popi"@ {
        Some(Op::POP32)
    } else {
        None
    }
}

/// Whether two texts are equal, character by character.
pub fn same_text(a: &str, b: &str) -> (r: bool)
    ensures
        r == (a@ == b@),
{
    let n = a.unicode_len();
    if n != b.unicode_len() {
        return false;
    }
    let mut i: usize = 0;
    while i < n
        invariant
            n == a@.len(),
            n == b@.len(),
            0 <= i <= n,
            forall|j: int| 0 <= j < i ==> a@[j] == b@[j],
        decreases n - i,
    {
        if a.get_char(i) != b.get_char(i) {
            return false;
        }
        i = i + 1;
    }
    assert(a@ =~= b@);
    true
}

/// The opcode that a mnemonic names, by the table of `spec_mnemonic`, or
/// by an older spelling.
pub open spec fn op_named(w: Seq<char>) -> Option<Op> {
    if w == Op::NOP.spec_mnemonic() {
        Some(Op::NOP)
    } else if w == Op::PUSH8.spec_mnemonic() {
        Some(Op::PUSH8)
    } else if w == Op::PUSH16.spec_mnemonic() {
        Some(Op::PUSH16)
    } else if w == Op::PUSH32.spec_mnemonic() {
        Some(Op::PUSH32)
    } else if w == Op::PUSHSZ.spec_mnemonic() {
        Some(Op::PUSHSZ)
    } else if w == Op::PUSHAC.spec_mnemonic() {
        Some(Op::PUSHAC)
    } else if w == Op::POP8.spec_mnemonic() {
        Some(Op::POP8)
    } else if w == Op::POP16.spec_mnemonic() {
        Some(Op::POP16)
    } else if w == Op::POP32.spec_mnemonic() {
        Some(Op::POP32)
    } else if w == Op::POPSZ.spec_mnemonic() {
        Some(Op::POPSZ)
    } else if w == Op::CMP.spec_mnemonic() {
        Some(Op::CMP)
    } else if w == Op::JABS.spec_mnemonic() {
        Some(Op::JABS)
    } else if w == Op::JREL.spec_mnemonic() {
        Some(Op::JREL)
    } else if w == Op::JEQ.spec_mnemonic() {
        Some(Op::JEQ)
    } else if w == Op::JNE.spec_mnemonic() {
        Some(Op::JNE)
    } else if w == Op::ADD.spec_mnemonic() {
        Some(Op::ADD)
    } else if w == Op::SUB.spec_mnemonic() {
        Some(Op::SUB)
    } else if w == Op::MUL.spec_mnemonic() {
        Some(Op::MUL)
    } else if w == Op::DIV.spec_mnemonic() {
        Some(Op::DIV)
    } else if w == Op::CALL.spec_mnemonic() {
        Some(Op::CALL)
    } else if w == Op::CALL_NAT.spec_mnemonic() {
        Some(Op::CALL_NAT)
    } else if w == Op::RET.spec_mnemonic() {
        Some(Op::RET)
    } else if w == Op::HALT.spec_mnemonic() {
        Some(Op::HALT)
    } else {
        older_spelling(w)
    }
}

impl Op {
    /// The opcode that a mnemonic (or an older spelling) names.
    pub fn from_mnemonic(w: &str) -> (r: Option<Op>)
        ensures
            r == op_named(w@),
    {
        if same_text(w, Op::NOP.mnemonic()) {
            Some(Op::NOP)
        } else if same_text(w, Op::PUSH8.mnemonic()) {
            Some(Op::PUSH8)
        } else if same_text(w, Op::PUSH16.mnemonic()) {
            Some(Op::PUSH16)
        } else if same_text(w, Op::PUSH32.mnemonic()) {
            Some(Op::PUSH32)
        } else if same_text(w, Op::PUSHSZ.mnemonic()) {
            Some(Op::PUSHSZ)
        } else if same_text(w, Op::PUSHAC.mnemonic()) {
            Some(Op::PUSHAC)
        } else if same_text(w, Op::POP8.mnemonic()) {
            Some(Op::POP8)
        } else if same_text(w, Op::POP16.mnemonic()) {
            Some(Op::POP16)
        } else if same_text(w, Op::POP32.mnemonic()) {
            Some(Op::POP32)
        } else if same_text(w, Op::POPSZ.mnemonic()) {
            Some(Op::POPSZ)
        } else if same_text(w, Op::CMP.mnemonic()) {
            Some(Op::CMP)
        } else if same_text(w, Op::JABS.mnemonic()) {
            Some(Op::JABS)
        } else if same_text(w, Op::JREL.mnemonic()) {
            Some(Op::JREL)
        } else if same_text(w, Op::JEQ.mnemonic()) {
            Some(Op::JEQ)
        } else if same_text(w, Op::JNE.mnemonic()) {
            Some(Op::JNE)
        } else if same_text(w, Op::ADD.mnemonic()) {
            Some(Op::ADD)
        } else if same_text(w, Op::SUB.mnemonic()) {
            Some(Op::SUB)
        } else if same_text(w, Op::MUL.mnemonic()) {
            Some(Op::MUL)
        } else if same_text(w, Op::DIV.mnemonic()) {
            Some(Op::DIV)
        } else if same_text(w, Op::CALL.mnemonic()) {
            Some(Op::CALL)
        } else if same_text(w, Op::CALL_NAT.mnemonic()) {
            Some(Op::CALL_NAT)
        } else if same_text(w, Op::RET.mnemonic()) {
            Some(Op::RET)
        } else if same_text(w, Op::HALT.mnemonic()) {
            Some(Op::HALT)
        } else if same_text(w, "j") {
            Some(Op::JABS)
        } else if same_text(w, "pushi") {
            Some(Op::PUSH32)
        } else if same_text(w, "popi") {
            Some(Op::POP32)
        } else {
            None
        }
    }
}

/// Decoding an opcode's byte gives the opcode back, so the table has no two
/// opcodes on one byte.
pub proof fn lemma_byte_round_trip(op: Op)
    ensures
        Op::spec_from_byte(op.spec_byte()) == Some(op),
{
}

/// Total encoded length of an instruction whose operand carries `payload`
/// content bytes (only a NUL-terminated operand has a variable payload).
pub open spec fn spec_encoded_len(op: Op, payload: nat) -> nat {
    match op.spec_operand() {
        Operand::Empty => 1,
        Operand::Fixed(w) => 1 + w as nat,
        Operand::Address => 5,
        Operand::NulTerminated => 1 + payload + 1,
    }
}

} // verus!
