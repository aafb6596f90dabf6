//! The stack-machine interpreter: fetch, decode and execute over a flat
//! byte image, with a data stack, a call-frame stack and a string table.
use vstd::prelude::*;
use crate::isa::{Op, Operand, spec_encoded_len};

verus! {

/// A managed value on the data stack; equal values hold equal contents.
#[derive(Debug, Clone, PartialEq, Eq, Hash)]
pub enum VMValue {
    Int(u32),
    String(Vec<u8>),
    Data(Vec<u8>),
}

/// What a `VMValue` holds, with its bytes as a sequence.
pub enum Value {
    Int(u32),
    Str(Seq<u8>),
    Data(Seq<u8>),
}

impl View for VMValue {
    type V = Value;

    open spec fn view(&self) -> Value {
        match self {
            VMValue::Int(v) => Value::Int(*v),
            VMValue::String(b) => Value::Str(b@),
            VMValue::Data(b) => Value::Data(b@),
        }
    }
}

/// An entry of the function table.
#[derive(Debug, Clone, Copy, PartialEq, Eq, Structural)]
pub struct Function {
    pub address: u32,
    pub arity: u8,
    /// Slots of locals that the function keeps above the base pointer; RET
    /// drops them with the rest of the frame.
    pub local_count: u8,
}

/// Saved context of an unreturned call.
#[derive(Debug, Clone, Copy, PartialEq, Eq, Hash, Structural)]
pub struct CallFrame {
    pub function_id: u32,
    pub return_address: u32,
    pub base_ptr: usize,
}

/// A fault that stops execution. `at` is the offset of the instruction.
#[derive(Debug, Clone, Copy, PartialEq, Eq, Structural)]
pub enum VmFault {
    UnknownOpcode { byte: u8, at: u32 },
    DecodePastEnd { op: Op, at: u32 },
    StackUnderflow { op: Op, at: u32 },
    TypeMismatch { op: Op, at: u32 },
    DivisionByZero { at: u32 },
    NoCallFrame { at: u32 },
    UnknownFunction { address: u32, at: u32 },
    NativeCall { address: u32, at: u32 },
    Runaway { cycles: u64 },
}

/// One decoded instruction.
#[derive(Debug, Clone)]
pub struct VMOp {
    pub opcode: Op,
    /// The immediate or address operand; 0 where there is none.
    pub operand: u32,
    /// The bytes of a NUL-terminated operand, without the terminator.
    pub text: Vec<u8>,
    /// Total encoded length of the instruction.
    pub size: usize,
}

/// What a decoded instruction holds.
pub struct Decoded {
    pub op: Op,
    pub operand: u32,
    pub text: Seq<u8>,
    pub size: nat,
}

impl View for VMOp {
    type V = Decoded;

    open spec fn view(&self) -> Decoded {
        Decoded { op: self.opcode, operand: self.operand, text: self.text@, size: self.size as nat }
    }
}

/// The machine's whole state as values.
pub struct VmState {
    pub ip: u32,
    pub ac: u32,
    pub bp: usize,
    pub program: Seq<u8>,
    pub functions: Seq<Function>,
    pub frames: Seq<CallFrame>,
    pub stack: Seq<Value>,
    pub strings: Set<(u32, Seq<u8>)>,
}

/// Observes the machine after each cycle of `run_traced`; it cannot change
/// the machine.
pub trait TraceSink {
    fn on_cycle(&mut self, vm: &VM);
}

/// A sink that ignores every cycle.
pub struct NoTrace;

impl TraceSink for NoTrace {
    fn on_cycle(&mut self, vm: &VM) {
    }
}

/// The interpreter.
#[derive(Debug)]
pub struct VM {
    /// Instruction pointer: offset of the next opcode byte.
    pub ip: u32,
    /// Accumulator.
    pub ac: u32,
    /// Base pointer: stack height at the most recent unreturned call.
    pub bp: usize,
    pub program: Vec<u8>,
    pub function_table: Vec<Function>,
    pub call_stack: Vec<CallFrame>,
    /// The string table, as a set of (key, bytes) pairs.
    pub strings: Vec<(u32, Vec<u8>)>,
    pub stack: Vec<VMValue>,
    /// Ceiling on the number of cycles that `run` executes.
    pub max_cycles: u64,
}

pub open spec fn stack_view(s: Seq<VMValue>) -> Seq<Value> {
    s.map_values(|v: VMValue| v@)
}

pub open spec fn strings_view(s: Seq<(u32, Vec<u8>)>) -> Set<(u32, Seq<u8>)> {
    Set::new(|p: (u32, Seq<u8>)| exists|i: int| 0 <= i < s.len() && s[i].0 == p.0 && s[i].1@ == p.1)
}

impl View for VM {
    type V = VmState;

    open spec fn view(&self) -> VmState {
        VmState {
            ip: self.ip,
            ac: self.ac,
            bp: self.bp,
            program: self.program@,
            functions: self.function_table@,
            frames: self.call_stack@,
            stack: stack_view(self.stack@),
            strings: strings_view(self.strings@),
        }
    }
}

/// The number that the bytes of `s` stand for, least significant first.
pub open spec fn le_value(s: Seq<u8>) -> nat
    decreases s.len(),
{
    if s.len() == 0 {
        0
    } else {
        s[0] as nat + 256 * le_value(s.drop_first())
    }
}

/// Index of the first 0x00 byte of `p` at or after `i`.
pub open spec fn first_nul(p: Seq<u8>, i: int) -> Option<int>
    decreases p.len() - i,
{
    if i < 0 || i >= p.len() {
        None
    } else if p[i] == 0 {
        Some(i)
    } else {
        first_nul(p, i + 1)
    }
}

/// Decoding of the instruction at `ip`, strictly by the operand policy.
pub open spec fn spec_decode(p: Seq<u8>, ip: int) -> Result<Decoded, VmFault>
    recommends
        0 <= ip < p.len(),
{
    match Op::spec_from_byte(p[ip]) {
        None => Err(VmFault::UnknownOpcode { byte: p[ip], at: ip as u32 }),
        Some(op) => match op.spec_operand() {
            Operand::Empty => Ok(Decoded { op, operand: 0, text: Seq::empty(), size: 1 }),
            Operand::Fixed(w) => if ip + 1 + w <= p.len() {
                Ok(Decoded {
                    op,
                    operand: le_value(p.subrange(ip + 1, ip + 1 + w)) as u32,
                    text: Seq::empty(),
                    size: 1 + w as nat,
                })
            } else {
                Err(VmFault::DecodePastEnd { op, at: ip as u32 })
            },
            Operand::Address => if ip + 5 <= p.len() {
                Ok(Decoded {
                    op,
                    operand: le_value(p.subrange(ip + 1, ip + 5)) as u32,
                    text: Seq::empty(),
                    size: 5,
                })
            } else {
                Err(VmFault::DecodePastEnd { op, at: ip as u32 })
            },
            Operand::NulTerminated => match first_nul(p, ip + 1) {
                Some(k) => Ok(Decoded {
                    op,
                    operand: 0,
                    text: p.subrange(ip + 1, k),
                    size: (k - ip + 1) as nat,
                }),
                None => Err(VmFault::DecodePastEnd { op, at: ip as u32 }),
            },
        },
    }
}

/// Index of the first function-table entry whose address is `addr`.
pub open spec fn function_at(fs: Seq<Function>, addr: u32) -> Option<int> {
    if exists|i: int| 0 <= i < fs.len() && fs[i].address == addr {
        Some(choose|i: int|
            0 <= i < fs.len() && fs[i].address == addr && forall|j: int|
                0 <= j < i ==> fs[j].address != addr)
    } else {
        None
    }
}

pub open spec fn compare(a: u32, b: u32) -> u32 {
    if a < b {
        0
    } else if a == b {
        1
    } else {
        2
    }
}

/// The result of an arithmetic opcode, with wrapping, where `lhs` was pushed
/// first and `rhs` sits on top (`push a, push b, sub` gives `a - b`); `None`
/// for a division by zero.
pub open spec fn arith(op: Op, lhs: u32, rhs: u32) -> Option<u32> {
    match op {
        Op::ADD => Some(((lhs + rhs) % 0x1_0000_0000) as u32),
        Op::SUB => Some(((lhs - rhs) % 0x1_0000_0000) as u32),
        Op::MUL => Some(((lhs * rhs) % 0x1_0000_0000) as u32),
        _ => if rhs == 0 { None } else { Some((lhs / rhs) as u32) },
    }
}

pub open spec fn is_arith(op: Op) -> bool {
    op == Op::ADD || op == Op::SUB || op == Op::MUL || op == Op::DIV
}

/// The stack after a return. The frame's part of the stack starts at the
/// base pointer: its locals and whatever else it left lie between `bp` and
/// the return value on top. All of that goes, the return value stays on the
/// caller's stack. A frame that left nothing above `bp` returns no value and
/// the stack stays as it is. RET never cuts below `bp`.
pub open spec fn stack_after_ret(stack: Seq<Value>, bp: nat) -> Seq<Value> {
    if stack.len() > bp {
        stack.subrange(0, bp as int).push(stack.last())
    } else {
        stack
    }
}

/// RET: pops the call frame, keeps the return value on the stack as it was
/// at the call, and resumes at the frame's return address with the caller's
/// base pointer. Without a call frame it is a fault.
pub open spec fn spec_ret(s: VmState) -> Result<VmState, VmFault> {
    if s.frames.len() == 0 {
        Err(VmFault::NoCallFrame { at: s.ip })
    } else {
        let f = s.frames.last();
        Ok(VmState {
            ip: f.return_address,
            bp: f.base_ptr,
            frames: s.frames.drop_last(),
            stack: stack_after_ret(s.stack, s.bp as nat),
            ..s
        })
    }
}

/// Executes the decoded instruction `d` at `s.ip`; `next` is the offset just
/// past it.
pub open spec fn spec_execute(s: VmState, d: Decoded) -> Result<VmState, VmFault> {
    let at = s.ip;
    let next = (s.ip + d.size) as u32;
    let n = s.stack.len();
    let op = d.op;
    if op == Op::NOP {
        Ok(VmState { ip: next, ..s })
    } else if op == Op::PUSH8 || op == Op::PUSH16 || op == Op::PUSH32 {
        Ok(VmState { ip: next, stack: s.stack.push(Value::Int(d.operand)), ..s })
    } else if op == Op::PUSHSZ {
        Ok(VmState { ip: next, stack: s.stack.push(Value::Str(d.text)), ..s })
    } else if op == Op::PUSHAC {
        Ok(VmState { ip: next, stack: s.stack.push(Value::Int(s.ac)), ..s })
    } else if op == Op::POP8 || op == Op::POP16 || op == Op::POP32 {
        if n == 0 {
            Err(VmFault::StackUnderflow { op, at })
        } else if let Value::Int(v) = s.stack.last() {
            let ac = if op == Op::POP8 {
                v % 0x100
            } else if op == Op::POP16 {
                v % 0x1_0000
            } else {
                v
            };
            Ok(VmState { ip: next, ac: ac as u32, stack: s.stack.drop_last(), ..s })
        } else {
            Err(VmFault::TypeMismatch { op, at })
        }
    } else if op == Op::POPSZ {
        if n == 0 {
            Err(VmFault::StackUnderflow { op, at })
        } else if let Value::Str(b) = s.stack.last() {
            Ok(VmState { ip: next, stack: s.stack.drop_last(), strings: s.strings.insert((s.ac, b)), ..s })
        } else {
            Err(VmFault::TypeMismatch { op, at })
        }
    } else if op == Op::CMP || is_arith(op) {
        if n < 2 {
            Err(VmFault::StackUnderflow { op, at })
        } else if let (Value::Int(a), Value::Int(b)) = (s.stack[n - 1], s.stack[n - 2]) {
            let rest = s.stack.subrange(0, n - 2);
            if op == Op::CMP {
                Ok(VmState { ip: next, stack: rest.push(Value::Int(compare(a, b))), ..s })
            } else {
                match arith(op, b, a) {
                    Some(r) => Ok(VmState { ip: next, ac: r, stack: rest.push(Value::Int(r)), ..s }),
                    None => Err(VmFault::DivisionByZero { at }),
                }
            }
        } else {
            Err(VmFault::TypeMismatch { op, at })
        }
    } else if op == Op::JABS {
        Ok(VmState { ip: d.operand, ..s })
    } else if op == Op::JREL {
        Ok(VmState { ip: ((s.ip + d.operand) % 0x1_0000_0000) as u32, ..s })
    } else if op == Op::JEQ || op == Op::JNE {
        if n == 0 {
            Err(VmFault::StackUnderflow { op, at })
        } else {
            let is_one = s.stack.last() == Value::Int(1);
            let jump = if op == Op::JEQ { is_one } else { !is_one };
            Ok(VmState { ip: if jump { d.operand } else { next }, stack: s.stack.drop_last(), ..s })
        }
    } else if op == Op::CALL {
        match function_at(s.functions, d.operand) {
            None => Err(VmFault::UnknownFunction { address: d.operand, at }),
            Some(id) => Ok(VmState {
                ip: s.functions[id].address,
                bp: n as usize,
                frames: s.frames.push(CallFrame { function_id: id as u32, return_address: next, base_ptr: s.bp }),
                ..s
            }),
        }
    } else if op == Op::CALL_NAT {
        Err(VmFault::NativeCall { address: d.operand, at })
    } else if op == Op::RET {
        spec_ret(s)
    } else {
        // HALT: the state stays as it is.
        Ok(s)
    }
}

/// One fetch-decode-execute cycle; the flag says whether the machine runs on
/// (false once HALT is reached).
pub open spec fn spec_cycle(s: VmState) -> Result<(VmState, bool), VmFault>
    recommends
        s.ip < s.program.len(),
{
    match spec_decode(s.program, s.ip as int) {
        Err(f) => Err(f),
        Ok(d) => match spec_execute(s, d) {
            Err(f) => Err(f),
            Ok(t) => Ok((t, d.op != Op::HALT)),
        },
    }
}

/// Whether the run loop stops before executing anything at `s.ip`.
pub open spec fn stopped(s: VmState) -> bool {
    s.ip >= s.program.len() || s.program[s.ip as int] == 0xFF
}

/// Running with at most `fuel` more cycles: the state where the run ends,
/// and how it ends. A fault leaves the state of the cycle that faulted; the
/// ceiling leaves the state after `limit` cycles.
pub open spec fn spec_run(s: VmState, fuel: nat, limit: u64) -> (VmState, Result<(), VmFault>)
    decreases fuel,
{
    if stopped(s) {
        (s, Ok(()))
    } else if fuel == 0 {
        (s, Err(VmFault::Runaway { cycles: limit }))
    } else {
        match spec_cycle(s) {
            Err(f) => (s, Err(f)),
            Ok((t, _)) => spec_run(t, (fuel - 1) as nat, limit),
        }
    }
}

/// Reads the `w`-byte little-endian number at `start`.
pub(crate) fn read_le(p: &Vec<u8>, start: usize, w: usize) -> (r: u32)
    requires
        w == 1 || w == 2 || w == 4,
        start + w <= p@.len(),
    ensures
        r as nat == le_value(p@.subrange(start as int, start + w)),
{
    let s = Ghost(p@.subrange(start as int, start + w));
    reveal_with_fuel(le_value, 5);
    assert(s@.drop_first() =~= p@.subrange(start + 1, start + w));
    let _n = p.len();
    if w == 1 {
        assert(s@.drop_first() =~= Seq::<u8>::empty());
        p[start] as u32
    } else if w == 2 {
        assert(s@.drop_first().drop_first() =~= Seq::<u8>::empty());
        p[start] as u32 + 256 * p[start + 1] as u32
    } else {
        assert(s@.drop_first().drop_first() =~= p@.subrange(start + 2, start + w));
        assert(s@.drop_first().drop_first().drop_first() =~= p@.subrange(start + 3, start + w));
        assert(s@.drop_first().drop_first().drop_first().drop_first() =~= Seq::<u8>::empty());
        p[start] as u32 + 256 * p[start + 1] as u32 + 65536 * p[start + 2] as u32 + 16777216
            * p[start + 3] as u32
    }
}

/// Whether two byte vectors hold the same bytes.
fn bytes_eq(a: &Vec<u8>, b: &Vec<u8>) -> (r: bool)
    ensures
        r == (a@ == b@),
{
    if a.len() != b.len() {
        return false;
    }
    let mut i: usize = 0;
    while i < a.len()
        invariant
            a@.len() == b@.len(),
            0 <= i <= a@.len(),
            forall|j: int| 0 <= j < i ==> a@[j] == b@[j],
        decreases a@.len() - i,
    {
        if a[i] != b[i] {
            return false;
        }
        i = i + 1;
    }
    assert(a@ =~= b@);
    true
}

impl VM {
    /// A machine with an empty program, empty stacks and tables, and a
    /// ceiling of `u64::MAX` cycles.
    pub fn new() -> (r: VM)
        ensures
            r@.ip == 0 && r@.ac == 0 && r@.bp == 0,
            r@.program.len() == 0,
            r@.functions.len() == 0,
            r@.frames.len() == 0,
            r@.stack.len() == 0,
            r@.strings.is_empty(),
            r.max_cycles == u64::MAX,
    {
        let r = VM {
            ip: 0,
            ac: 0,
            bp: 0,
            program: Vec::new(),
            function_table: Vec::new(),
            call_stack: Vec::new(),
            strings: Vec::new(),
            stack: Vec::new(),
            max_cycles: u64::MAX,
        };
        assert(r@.stack =~= Seq::<Value>::empty());
        assert(r@.strings =~= Set::<(u32, Seq<u8>)>::empty());
        r
    }

    /// The stack pointer: the height of the data stack.
    pub fn sp(&self) -> (r: usize)
        ensures
            r == self@.stack.len(),
    {
        self.stack.len()
    }

    /// Moves the instruction pointer past an opcode and `size` operand bytes.
    pub fn step(&mut self, size: u32)
        requires
            old(self).ip + 1 + size <= u32::MAX,
        ensures
            final(self)@ == (VmState { ip: (old(self).ip + 1 + size) as u32, ..old(self)@ }),
    {
        self.ip = self.ip + 1 + size;
    }

    /// Decodes the instruction at the instruction pointer.
    pub fn fetch_decode(&self) -> (r: Result<VMOp, VmFault>)
        requires
            self.ip < self.program@.len(),
        ensures
            match spec_decode(self.program@, self.ip as int) {
                Ok(d) => r is Ok && r->Ok_0@ == d,
                Err(f) => r == Err::<VMOp, VmFault>(f),
            },
            r is Ok ==> self.ip + r->Ok_0.size <= self.program@.len(),
    {
        let ip = self.ip as usize;
        let _n = self.program.len();
        let byte = self.program[ip];
        let op = match Op::from_byte(byte) {
            Some(op) => op,
            None => {
                return Err(VmFault::UnknownOpcode { byte, at: self.ip });
            },
        };
        match op.operand() {
            Operand::Empty => Ok(VMOp { opcode: op, operand: 0, text: Vec::new(), size: 1 }),
            Operand::Fixed(w) => {
                if (w as usize) > self.program.len() - ip - 1 {
                    return Err(VmFault::DecodePastEnd { op, at: self.ip });
                }
                let v = read_le(&self.program, ip + 1, w as usize);
                Ok(VMOp { opcode: op, operand: v, text: Vec::new(), size: 1 + w as usize })
            },
            Operand::Address => {
                if 4 > self.program.len() - ip - 1 {
                    return Err(VmFault::DecodePastEnd { op, at: self.ip });
                }
                let v = read_le(&self.program, ip + 1, 4);
                Ok(VMOp { opcode: op, operand: v, text: Vec::new(), size: 5 })
            },
            Operand::NulTerminated => {
                let mut k = ip + 1;
                let mut text: Vec<u8> = Vec::new();
                while k < self.program.len() && self.program[k] != 0
                    invariant
                        ip < k <= self.program@.len(),
                        first_nul(self.program@, ip + 1) == first_nul(self.program@, k as int),
                        text@ =~= self.program@.subrange(ip + 1, k as int),
                    decreases self.program@.len() - k,
                {
                    text.push(self.program[k]);
                    k = k + 1;
                }
                if k == self.program.len() {
                    return Err(VmFault::DecodePastEnd { op, at: self.ip });
                }
                Ok(VMOp { opcode: op, operand: 0, text, size: k - ip + 1 })
            },
        }
    }
}

proof fn lemma_stack_view_push(s: Seq<VMValue>, v: VMValue)
    ensures
        stack_view(s.push(v)) == stack_view(s).push(v@),
{
    assert(stack_view(s.push(v)) =~= stack_view(s).push(v@));
}

proof fn lemma_stack_view_prefix(s: Seq<VMValue>, k: int)
    requires
        0 <= k <= s.len(),
    ensures
        stack_view(s.subrange(0, k)) == stack_view(s).subrange(0, k),
{
    assert(stack_view(s.subrange(0, k)) =~= stack_view(s).subrange(0, k));
}

/// Adds the pair to the string table unless it is there already.
fn insert_string(strings: &mut Vec<(u32, Vec<u8>)>, key: u32, bytes: Vec<u8>)
    ensures
        strings_view(final(strings)@) == strings_view(old(strings)@).insert((key, bytes@)),
{
    let mut i: usize = 0;
    while i < strings.len()
        invariant
            0 <= i <= strings@.len(),
            forall|j: int| 0 <= j < i ==> !(strings@[j].0 == key && strings@[j].1@ == bytes@),
        decreases strings@.len() - i,
    {
        if strings[i].0 == key && bytes_eq(&strings[i].1, &bytes) {
            assert(strings_view(strings@).contains((key, bytes@)));
            assert(strings_view(strings@).insert((key, bytes@)) =~= strings_view(strings@));
            return;
        }
        i = i + 1;
    }
    let ghost before = strings@;
    let ghost b = bytes@;
    strings.push((key, bytes));
    assert forall|p: (u32, Seq<u8>)| #[trigger] strings_view(strings@).contains(p)
        <==> strings_view(before).insert((key, b)).contains(p) by {
        if strings_view(before).contains(p) {
            let j = choose|j: int| 0 <= j < before.len() && before[j].0 == p.0 && before[j].1@ == p.1;
            assert(strings@[j] == before[j]);
        }
        if p == (key, b) {
            assert(strings@[before.len() as int].1@ == b);
        }
        if strings_view(strings@).contains(p) {
            let j = choose|j: int| 0 <= j < strings@.len() && strings@[j].0 == p.0 && strings@[j].1@ == p.1;
            if j < before.len() {
                assert(before[j] == strings@[j]);
            }
        }
    }
    assert(strings_view(strings@) =~= strings_view(before).insert((key, b)));
}

/// Index of the first function-table entry whose address is `addr`.
fn find_function(fs: &Vec<Function>, addr: u32) -> (r: Option<usize>)
    ensures
        match r {
            Some(i) => i < fs@.len() && function_at(fs@, addr) == Some(i as int),
            None => function_at(fs@, addr) is None,
        },
{
    let mut i: usize = 0;
    while i < fs.len()
        invariant
            0 <= i <= fs@.len(),
            forall|j: int| 0 <= j < i ==> fs@[j].address != addr,
        decreases fs@.len() - i,
    {
        if fs[i].address == addr {
            assert(exists|k: int| 0 <= k < fs@.len() && fs@[k].address == addr);
            let ghost c = choose|k: int|
                0 <= k < fs@.len() && fs@[k].address == addr && forall|j: int|
                    0 <= j < k ==> fs@[j].address != addr;
            assert(0 <= c < fs@.len() && fs@[c].address == addr && forall|j: int|
                0 <= j < c ==> fs@[j].address != addr);
            assert(c == i as int);
            return Some(i);
        }
        i = i + 1;
    }
    None
}

impl VM {
    /// Executes one decoded instruction found at the instruction pointer.
    #[verifier::spinoff_prover]
    #[verifier::rlimit(60)]
    fn execute(&mut self, d: VMOp) -> (r: Result<(), VmFault>)
        requires
            old(self).ip + d.size <= u32::MAX,
        ensures
            final(self).max_cycles == old(self).max_cycles,
            match spec_execute(old(self)@, d@) {
                Ok(s) => r is Ok && final(self)@ == s,
                Err(f) => r == Err::<(), VmFault>(f) && final(self)@ == old(self)@,
            },
    {
        let at = self.ip;
        let next = self.ip + d.size as u32;
        let n = self.stack.len();
        let op = d.opcode;
        let ghost st0 = self.stack@;
        match op {
            Op::NOP => {
                self.ip = next;
            },
            Op::PUSH8 | Op::PUSH16 | Op::PUSH32 => {
                proof { lemma_stack_view_push(self.stack@, VMValue::Int(d.operand)); }
                self.stack.push(VMValue::Int(d.operand));
                self.ip = next;
            },
            Op::PUSHSZ => {
                proof { lemma_stack_view_push(self.stack@, VMValue::String(d.text)); }
                self.stack.push(VMValue::String(d.text));
                self.ip = next;
            },
            Op::PUSHAC => {
                proof { lemma_stack_view_push(self.stack@, VMValue::Int(self.ac)); }
                self.stack.push(VMValue::Int(self.ac));
                self.ip = next;
            },
            Op::POP8 | Op::POP16 | Op::POP32 => {
                if n == 0 {
                    return Err(VmFault::StackUnderflow { op, at });
                }
                let v = match &self.stack[n - 1] {
                    VMValue::Int(v) => *v,
                    _ => {
                        return Err(VmFault::TypeMismatch { op, at });
                    },
                };
                proof { lemma_stack_view_prefix(self.stack@, n - 1); }
                self.stack.pop();
                self.ac = match op {
                    Op::POP8 => v % 0x100,
                    Op::POP16 => v % 0x1_0000,
                    _ => v,
                };
                self.ip = next;
            },
            Op::POPSZ => {
                if n == 0 {
                    return Err(VmFault::StackUnderflow { op, at });
                }
                match &self.stack[n - 1] {
                    VMValue::String(_) => {},
                    _ => {
                        return Err(VmFault::TypeMismatch { op, at });
                    },
                }
                proof { lemma_stack_view_prefix(self.stack@, n - 1); }
                match self.stack.pop() {
                    Some(VMValue::String(b)) => {
                        insert_string(&mut self.strings, self.ac, b);
                    },
                    _ => {},
                }
                self.ip = next;
            },
            Op::CMP | Op::ADD | Op::SUB | Op::MUL | Op::DIV => {
                if n < 2 {
                    return Err(VmFault::StackUnderflow { op, at });
                }
                let a = match &self.stack[n - 1] {
                    VMValue::Int(v) => *v,
                    _ => {
                        return Err(VmFault::TypeMismatch { op, at });
                    },
                };
                let b = match &self.stack[n - 2] {
                    VMValue::Int(v) => *v,
                    _ => {
                        return Err(VmFault::TypeMismatch { op, at });
                    },
                };
                let res = match op {
                    Op::CMP => if a < b {
                        0
                    } else if a == b {
                        1
                    } else {
                        2
                    },
                    Op::ADD => b.wrapping_add(a),
                    Op::SUB => b.wrapping_sub(a),
                    Op::MUL => b.wrapping_mul(a),
                    _ => {
                        if a == 0 {
                            return Err(VmFault::DivisionByZero { at });
                        }
                        b / a
                    },
                };
                self.stack.truncate(n - 2);
                proof {
                    lemma_stack_view_prefix(st0, n - 2);
                    lemma_stack_view_push(self.stack@, VMValue::Int(res));
                }
                self.stack.push(VMValue::Int(res));
                if op != Op::CMP {
                    self.ac = res;
                }
                self.ip = next;
            },
            Op::JABS => {
                self.ip = d.operand;
            },
            Op::JREL => {
                self.ip = self.ip.wrapping_add(d.operand);
            },
            Op::JEQ | Op::JNE => {
                if n == 0 {
                    return Err(VmFault::StackUnderflow { op, at });
                }
                proof { lemma_stack_view_prefix(self.stack@, n - 1); }
                let is_one = match self.stack.pop() {
                    Some(VMValue::Int(v)) => v == 1,
                    _ => false,
                };
                let jump = if op == Op::JEQ { is_one } else { !is_one };
                self.ip = if jump { d.operand } else { next };
            },
            Op::CALL => {
                match find_function(&self.function_table, d.operand) {
                    None => {
                        return Err(VmFault::UnknownFunction { address: d.operand, at });
                    },
                    Some(id) => {
                        let frame = CallFrame { function_id: #[verifier::truncate] (id as u32), return_address: next, base_ptr: self.bp };
                        self.call_stack.push(frame);
                        self.bp = n;
                        self.ip = self.function_table[id].address;
                    },
                }
            },
            Op::CALL_NAT => {
                return Err(VmFault::NativeCall { address: d.operand, at });
            },
            Op::RET => {
                return self.return_from_function();
            },
            Op::HALT => {},
        }
        Ok(())
    }

    /// Pops the current call frame, keeps the return value and drops the
    /// frame's part of the stack.
    fn return_from_function(&mut self) -> (r: Result<(), VmFault>)
        ensures
            final(self).max_cycles == old(self).max_cycles,
            match spec_ret(old(self)@) {
                Ok(s) => r is Ok && final(self)@ == s,
                Err(f) => r == Err::<(), VmFault>(f) && final(self)@ == old(self)@,
            },
    {
        let ghost s0 = self@;
        let nf = self.call_stack.len();
        if nf == 0 {
            return Err(VmFault::NoCallFrame { at: self.ip });
        }
        let f = self.call_stack[nf - 1];
        let ghost st0 = self.stack@;
        let ghost frames0 = self.call_stack@;
        self.call_stack.pop();
        assert(self.call_stack@ =~= frames0.drop_last());
        let n = self.stack.len();
        if n > self.bp {
            match self.stack.pop() {
                Some(rv) => {
                    self.stack.truncate(self.bp);
                    proof {
                        lemma_stack_view_prefix(st0, self.bp as int);
                        lemma_stack_view_push(self.stack@, rv);
                    }
                    self.stack.push(rv);
                    assert(stack_view(st0).last() == rv@);
                },
                None => {},
            }
        }
        self.ip = f.return_address;
        self.bp = f.base_ptr;
        proof {
            assert(self@.stack == stack_after_ret(s0.stack, s0.bp as nat));
            assert(f == s0.frames.last());
        }
        Ok(())
    }
}

impl VM {
    /// One fetch-decode-execute cycle. `Ok(false)` when the instruction is
    /// HALT, which leaves the state as it is; `Ok(true)` otherwise.
    pub fn cycle(&mut self) -> (r: Result<bool, VmFault>)
        requires
            old(self).ip < old(self).program@.len(),
            old(self).program@.len() <= u32::MAX,
        ensures
            final(self).max_cycles == old(self).max_cycles,
            match spec_cycle(old(self)@) {
                Ok((s, running)) => r == Ok::<bool, VmFault>(running) && final(self)@ == s,
                Err(f) => r == Err::<bool, VmFault>(f) && final(self)@ == old(self)@,
            },
    {
        let d = match self.fetch_decode() {
            Ok(d) => d,
            Err(f) => {
                return Err(f);
            },
        };
        let running = d.opcode != Op::HALT;
        match self.execute(d) {
            Ok(()) => Ok(running),
            Err(f) => Err(f),
        }
    }

    /// Runs until HALT is reached or the instruction pointer leaves the
    /// program; a fault, or more than `max_cycles` cycles, ends the run
    /// with an error. Runs silently.
    pub fn run(&mut self) -> (r: Result<(), VmFault>)
        requires
            old(self).program@.len() <= u32::MAX,
        ensures
            final(self).max_cycles == old(self).max_cycles,
            final(self)@ == spec_run(old(self)@, old(self).max_cycles as nat, old(self).max_cycles).0,
            r == spec_run(old(self)@, old(self).max_cycles as nat, old(self).max_cycles).1,
    {
        self.run_traced(&mut NoTrace)
    }

    /// `run`, handing the machine to `sink` after every cycle.
    pub fn run_traced<S: TraceSink>(&mut self, sink: &mut S) -> (r: Result<(), VmFault>)
        requires
            old(self).program@.len() <= u32::MAX,
        ensures
            final(self).max_cycles == old(self).max_cycles,
            final(self)@ == spec_run(old(self)@, old(self).max_cycles as nat, old(self).max_cycles).0,
            r == spec_run(old(self)@, old(self).max_cycles as nat, old(self).max_cycles).1,
    {
        let limit = self.max_cycles;
        let mut cycles: u64 = 0;
        loop
            invariant
                limit == old(self).max_cycles,
                self.max_cycles == limit,
                self.program@ == old(self).program@,
                self.program@.len() <= u32::MAX,
                cycles <= limit,
                spec_run(self@, (limit - cycles) as nat, limit) == spec_run(
                    old(self)@,
                    limit as nat,
                    limit,
                ),
            decreases limit - cycles,
        {
            if self.ip as usize >= self.program.len() || self.program[self.ip as usize] == 0xFF {
                return Ok(());
            }
            if cycles == limit {
                return Err(VmFault::Runaway { cycles: limit });
            }
            match self.cycle() {
                Ok(_) => {},
                Err(f) => {
                    return Err(f);
                },
            }
            sink.on_cycle(self);
            cycles = cycles + 1;
        }
    }

    /// Appends `code` to the program and runs it.
    pub fn run_with(&mut self, code: &[u8]) -> (r: Result<(), VmFault>)
        requires
            old(self).program@.len() + code@.len() <= u32::MAX,
        ensures
            final(self).max_cycles == old(self).max_cycles,
            final(self)@ == spec_run(
                VmState { program: old(self)@.program + code@, ..old(self)@ },
                old(self).max_cycles as nat,
                old(self).max_cycles,
            ).0,
            r == spec_run(
                VmState { program: old(self)@.program + code@, ..old(self)@ },
                old(self).max_cycles as nat,
                old(self).max_cycles,
            ).1,
    {
        let mut i: usize = 0;
        let ghost p0 = self.program@;
        while i < code.len()
            invariant
                0 <= i <= code@.len(),
                self.program@ == p0 + code@.subrange(0, i as int),
                self.ip == old(self).ip && self.ac == old(self).ac && self.bp == old(self).bp,
                self.function_table == old(self).function_table,
                self.call_stack == old(self).call_stack,
                self.strings == old(self).strings,
                self.stack == old(self).stack,
                self.max_cycles == old(self).max_cycles,
            decreases code@.len() - i,
        {
            self.program.push(code[i]);
            assert(self.program@ =~= p0 + code@.subrange(0, i + 1));
            i = i + 1;
        }
        assert(code@.subrange(0, code@.len() as int) =~= code@);
        self.run()
    }
}

/// Call/return balance. Take a CALL executed in state `s0` (into a function
/// of any arity and any number of locals), and any later state `s2` of its
/// body that still has the frame that the call pushed, the call's base
/// pointer, the caller's stack below it, and at least the return value above
/// it. RET in `s2` leaves the stack exactly one item taller than before the
/// call (the return value on top of the caller's stack), and restores the
/// base pointer, the frames and the return address.
pub proof fn lemma_call_ret_balance(s0: VmState, d: Decoded, s2: VmState)
    requires
        d.op == Op::CALL,
        spec_execute(s0, d) is Ok,
        s2.frames == spec_execute(s0, d)->Ok_0.frames,
        s2.bp == s0.stack.len(),
        s2.stack.len() >= s0.stack.len() + 1,
        s2.stack.subrange(0, s0.stack.len() as int) == s0.stack,
    ensures
        spec_ret(s2) is Ok,
        spec_ret(s2)->Ok_0.stack == s0.stack.push(s2.stack.last()),
        spec_ret(s2)->Ok_0.stack.len() == s0.stack.len() + 1,
        spec_ret(s2)->Ok_0.bp == s0.bp,
        spec_ret(s2)->Ok_0.frames == s0.frames,
        spec_ret(s2)->Ok_0.ip == (s0.ip + d.size) as u32,
{
    assert(s2.frames.drop_last() =~= s0.frames);
}

/// After any opcode that does not set the instruction pointer itself (and
/// is not HALT), a cycle that succeeds moves it just past the instruction.
pub proof fn lemma_ip_advances(s: VmState)
    requires
        s.ip < s.program.len(),
        s.program.len() <= u32::MAX,
        spec_cycle(s) is Ok,
        !spec_decode(s.program, s.ip as int)->Ok_0.op.spec_sets_ip(),
        spec_decode(s.program, s.ip as int)->Ok_0.op != Op::HALT,
    ensures
        spec_cycle(s)->Ok_0.0.ip == s.ip + spec_decode(s.program, s.ip as int)->Ok_0.size,
        spec_cycle(s)->Ok_0.0.program == s.program,
{
    lemma_decoded_fits(s.program, s.ip as int);
}

/// A decoded instruction lies within the program.
pub proof fn lemma_decoded_fits(p: Seq<u8>, ip: int)
    requires
        0 <= ip < p.len(),
        spec_decode(p, ip) is Ok,
    ensures
        ip + spec_decode(p, ip)->Ok_0.size <= p.len(),
{
    if let Some(op) = Op::spec_from_byte(p[ip]) {
        if op.spec_operand() is NulTerminated {
            lemma_first_nul_bound(p, ip + 1);
        }
    }
}

proof fn lemma_first_nul_bound(p: Seq<u8>, i: int)
    requires
        0 <= i,
    ensures
        first_nul(p, i) matches Some(k) ==> i <= k < p.len() && p[k] == 0u8,
    decreases p.len() - i,
{
    if 0 <= i < p.len() && p[i] != 0 {
        lemma_first_nul_bound(p, i + 1);
    }
}

/// The length that the interpreter decodes is the instruction set's length
/// for the opcode and, for a NUL-terminated operand, its content.
pub proof fn lemma_decoded_len(p: Seq<u8>, ip: int)
    requires
        0 <= ip < p.len(),
        spec_decode(p, ip) is Ok,
    ensures
        spec_decode(p, ip)->Ok_0.size == spec_encoded_len(
            spec_decode(p, ip)->Ok_0.op,
            spec_decode(p, ip)->Ok_0.text.len(),
        ),
{
    lemma_first_nul_bound(p, ip + 1);
}

/// Arithmetic wraps rather than traps: ADD, SUB and MUL on two integers
/// always succeed, replace them by the result modulo 2^32 (the value pushed
/// first on the left), and leave it in the accumulator.
pub proof fn lemma_arith_wraps(s: VmState, d: Decoded, lhs: u32, rhs: u32)
    requires
        d.op == Op::ADD || d.op == Op::SUB || d.op == Op::MUL,
        s.stack.len() >= 2,
        s.stack.last() == Value::Int(rhs),
        s.stack[s.stack.len() - 2] == Value::Int(lhs),
    ensures
        spec_execute(s, d) is Ok,
        ({
            let r = if d.op == Op::ADD {
                (lhs + rhs) % 0x1_0000_0000
            } else if d.op == Op::SUB {
                (lhs - rhs) % 0x1_0000_0000
            } else {
                (lhs * rhs) % 0x1_0000_0000
            };
            &&& spec_execute(s, d)->Ok_0.ac == r
            &&& spec_execute(s, d)->Ok_0.stack == s.stack.subrange(0, s.stack.len() - 2).push(Value::Int(r as u32))
        }),
{
}

/// Division by zero is a reported fault: DIV with an integer 0 on top of an
/// integer faults with `DivisionByZero` at the instruction, and a cycle that
/// meets it leaves the machine as it was.
pub proof fn lemma_div_by_zero(s: VmState, d: Decoded, lhs: u32)
    requires
        d.op == Op::DIV,
        s.stack.len() >= 2,
        s.stack.last() == Value::Int(0),
        s.stack[s.stack.len() - 2] == Value::Int(lhs),
    ensures
        spec_execute(s, d) == Err::<VmState, VmFault>(VmFault::DivisionByZero { at: s.ip }),
{
}

} // verus!
