//! Renders bytes of a program image back to assembly text, for debugging.
use vstd::prelude::*;
use vstd::string::*;
use crate::isa::{Op, Operand};
use crate::lexer::push_char;
use crate::machine::{VM, VMValue, le_value, first_nul, read_le};

verus! {

pub open spec fn hex_digits() -> Seq<char> {
    seq!['0', '1', '2', '3', '4', '5', '6', '7', '8', '9', 'A', 'B', 'C', 'D', 'E', 'F']
}

pub open spec fn nibble_weights() -> Seq<nat> {
    seq![0x1000_0000, 0x100_0000, 0x10_0000, 0x1_0000, 0x1000, 0x100, 0x10, 1]
}

/// `v` as eight upper-case hexadecimal digits.
pub open spec fn hex8(v: u32) -> Seq<char> {
    Seq::new(8, |i: int| hex_digits()[((v as nat / nibble_weights()[i]) % 16) as int])
}

/// The hexadecimal digit of `n` (below 16).
fn hex_digit(n: u32) -> (r: char)
    requires
        n < 16,
    ensures
        r == hex_digits()[n as int],
{
    if n < 10 {
        if n == 0 { '0' } else if n == 1 { '1' } else if n == 2 { '2' } else if n == 3 { '3' } else if n == 4 {
            '4'
        } else if n == 5 { '5' } else if n == 6 { '6' } else if n == 7 { '7' } else if n == 8 { '8' } else { '9' }
    } else if n == 10 { 'A' } else if n == 11 { 'B' } else if n == 12 { 'C' } else if n == 13 { 'D' } else if n
        == 14 { 'E' } else { 'F' }
}

/// `v` as eight upper-case hexadecimal digits.
fn hex_u32(v: u32) -> (r: String)
    ensures
        r@ == hex8(v),
{
    let weights: [u32; 8] = [0x1000_0000, 0x100_0000, 0x10_0000, 0x1_0000, 0x1000, 0x100, 0x10, 1];
    let mut s = String::new();
    let mut i: usize = 0;
    while i < 8
        invariant
            0 <= i <= 8,
            weights@ == seq![0x1000_0000u32, 0x100_0000, 0x10_0000, 0x1_0000, 0x1000, 0x100, 0x10, 1],
            s@ == hex8(v).subrange(0, i as int),
        decreases 8 - i,
    {
        let d = hex_digit((v / weights[i]) % 16);
        push_char(&mut s, d);
        assert(weights@[i as int] as nat == nibble_weights()[i as int]);
        assert(s@ =~= hex8(v).subrange(0, i + 1));
        i = i + 1;
    }
    s
}

/// A name for `String::from_utf8_lossy`: the text of `b`, where each invalid
/// UTF-8 sequence reads as U+FFFD.
pub uninterp spec fn lossy_text(b: Seq<u8>) -> Seq<char>;

/// Relies on `String::from_utf8_lossy`, which depends on the bytes alone and
/// gives the text itself for valid UTF-8.
#[verifier::external_body]
fn lossy(b: &[u8]) -> (r: String)
    ensures
        r@ == lossy_text(b@),
        vstd::utf8::valid_utf8(b@) ==> r@ == vstd::utf8::decode_utf8(b@),
{
    String::from_utf8_lossy(b).into_owned()
}

/// A name for the `Debug` rendering of a byte vector (`[1, 2, 3]`).
pub uninterp spec fn debug_bytes(b: Seq<u8>) -> Seq<char>;

/// Relies on `format!("{:?}", b)` for a `Vec<u8>`: depends on the bytes alone.
#[verifier::external_body]
fn debug_vec(b: &Vec<u8>) -> (r: String)
    ensures
        r@ == debug_bytes(b@),
{
    format!("{:?}", b)
}

/// Number of bytes from `start` up to (not including) the first 0x00, or to
/// the end of `bytes`.
pub fn read_variable_length(start_addr: usize, bytes: &[u8]) -> (r: usize)
    ensures
        start_addr <= bytes@.len() ==> start_addr + r <= bytes@.len(),
        start_addr <= bytes@.len() ==> forall|j: int| start_addr <= j < start_addr + r ==> bytes@[j] != 0u8,
        start_addr + r < bytes@.len() ==> bytes@[start_addr + r] == 0u8,
        start_addr >= bytes@.len() ==> r == 0,
{
    let mut i: usize = 0;
    if start_addr >= bytes.len() {
        return 0;
    }
    while i < bytes.len() - start_addr && bytes[start_addr + i] != 0
        invariant
            start_addr < bytes@.len(),
            start_addr + i <= bytes@.len(),
            forall|j: int| start_addr <= j < start_addr + i ==> bytes@[j] != 0u8,
        decreases bytes@.len() - start_addr - i,
    {
        i = i + 1;
    }
    i
}

/// The number that four bytes stand for, least significant first.
pub fn format_address(bytes: &[u8]) -> (r: u32)
    requires
        bytes@.len() == 4,
    ensures
        r as nat == le_value(bytes@),
{
    reveal_with_fuel(le_value, 5);
    assert(bytes@.drop_first().drop_first().drop_first().drop_first() =~= Seq::<u8>::empty());
    bytes[0] as u32 + 256 * bytes[1] as u32 + 65536 * bytes[2] as u32 + 16777216 * bytes[3] as u32
}

/// The encoded length of the instruction at `addr`: its operand policy's
/// length where the program holds the whole instruction, else the bytes that
/// are left; 1 for a byte that is no opcode.
pub open spec fn disasm_len(p: Seq<u8>, addr: int) -> nat {
    match Op::spec_from_byte(p[addr]) {
        None => 1,
        Some(op) => match op.spec_operand() {
            Operand::Empty => 1,
            Operand::Fixed(w) => if addr + 1 + w <= p.len() { 1 + w as nat } else { (p.len() - addr) as nat },
            Operand::Address => if addr + 5 <= p.len() { 5 } else { (p.len() - addr) as nat },
            Operand::NulTerminated => match first_nul(p, addr + 1) {
                Some(k) => (k - addr + 1) as nat,
                None => (p.len() - addr) as nat,
            },
        },
    }
}

/// Where a NUL-terminated run that starts at `i` ends: its 0x00, or the end
/// of the program.
pub open spec fn text_end(p: Seq<u8>, i: int) -> int {
    match first_nul(p, i) {
        Some(k) => k,
        None => p.len() as int,
    }
}

/// Renders the instruction at `addr` and gives its length in bytes. An
/// instruction without an operand renders as its mnemonic; a byte that is
/// no opcode as `$` and two hex digits.
pub fn disasm_instruction(vm: &VM, addr: usize) -> (r: (String, usize))
    requires
        addr < vm.program@.len(),
    ensures
        r.1 == disasm_len(vm.program@, addr as int),
        addr + r.1 <= vm.program@.len(),
        match Op::spec_from_byte(vm.program@[addr as int]) {
            Some(op) => match op.spec_operand() {
                Operand::Empty => r.0@ == op.spec_mnemonic(),
                Operand::Address => addr + 5 <= vm.program@.len() ==> r.0@ == op.spec_mnemonic() + " $"@ + hex8(
                    le_value(vm.program@.subrange(addr + 1, addr + 5)) as u32,
                ),
                Operand::NulTerminated => r.0@ == op.spec_mnemonic() + " \""@ + lossy_text(
                    vm.program@.subrange(addr + 1, text_end(vm.program@, addr + 1)),
                ) + "\""@,
                Operand::Fixed(w) => addr + 1 + w <= vm.program@.len() ==> exists|digits: String|
                    to_string_from_display_ensures::<u32>(
                        &(le_value(vm.program@.subrange(addr + 1, addr + 1 + w)) as u32),
                        digits,
                    ) && r.0@ == op.spec_mnemonic() + " "@ + digits@,
            },
            None => r.0@ == seq!['$'] + hex8(vm.program@[addr as int] as u32).subrange(6, 8),
        },
{
    let p = &vm.program;
    let _n = p.len();
    let byte = p[addr];
    let op = match Op::from_byte(byte) {
        None => {
            let mut s = "$".to_owned();
            proof { reveal_strlit("$"); }
            let h = hex_u32(byte as u32);
            s.append(h.as_str().substring_char(6, 8));
            proof { assert(s@ =~= seq!['$'] + hex8(byte as u32).subrange(6, 8)); }
            return (s, 1);
        },
        Some(op) => op,
    };
    let mut text = op.mnemonic().to_owned();
    match op.operand() {
        Operand::Empty => (text, 1),
        Operand::Fixed(w) => {
            let w = w as usize;
            if w > p.len() - addr - 1 {
                return (text, p.len() - addr);
            }
            let v = read_le(p, addr + 1, w);
            let digits = v.to_string();
            text.append(" ");
            text.append(digits.as_str());
            (text, 1 + w)
        },
        Operand::Address => {
            if 4 > p.len() - addr - 1 {
                return (text, p.len() - addr);
            }
            let v = format_address(&p.as_slice()[addr + 1..addr + 5]);
            text.append(" $");
            text.append(hex_u32(v).as_str());
            (text, 5)
        },
        Operand::NulTerminated => {
            let len = read_variable_length(addr + 1, p.as_slice());
            proof {
                lemma_first_nul_at(p@, addr + 1, (addr + 1 + len) as int);
            }
            text.append(" \"");
            let body = &p.as_slice()[addr + 1..addr + 1 + len];
            assert(body@ =~= p@.subrange(addr + 1, text_end(p@, addr + 1)));
            text.append(lossy(body).as_str());
            text.append("\"");
            if addr + 1 + len < p.len() {
                (text, len + 2)
            } else {
                (text, p.len() - addr)
            }
        },
    }
}

/// The first 0x00 at or after `i` is at `k` when none lies between them.
proof fn lemma_first_nul_at(p: Seq<u8>, i: int, k: int)
    requires
        0 <= i <= k <= p.len(),
        forall|j: int| i <= j < k ==> p[j] != 0u8,
        k < p.len() ==> p[k] == 0u8,
    ensures
        first_nul(p, i) == (if k < p.len() { Some(k) } else { None::<int> }),
    decreases k - i,
{
    if i < k {
        lemma_first_nul_at(p, i + 1, k);
    }
}

/// Renders one stack value: an integer in decimal, a string between single
/// quotes, data as `<data: [..]>`.
pub fn dump_stack_val(vm_value: &VMValue) -> (r: String)
    ensures
        match vm_value {
            VMValue::Int(i) => to_string_from_display_ensures::<u32>(&i, r),
            VMValue::String(b) => r@ == seq!['\''] + lossy_text(b@) + seq!['\''] && (vstd::utf8::valid_utf8(b@) ==> r@
                == seq!['\''] + vstd::utf8::decode_utf8(b@) + seq!['\'']),
            VMValue::Data(d) => r@ == "<data: "@ + debug_bytes(d@) + ">"@,
        },
{
    match vm_value {
        VMValue::Int(i) => i.to_string(),
        VMValue::String(s) => {
            let mut r = "'".to_owned();
            r.append(lossy(s.as_slice()).as_str());
            r.append("'");
            proof { reveal_strlit("'"); }
            r
        },
        VMValue::Data(d) => {
            let mut r = "<data: ".to_owned();
            r.append(debug_vec(d).as_str());
            r.append(">");
            r
        },
    }
}

} // verus!
