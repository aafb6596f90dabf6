use cupid::disasm::{disasm_instruction, dump_stack_val, format_address, read_variable_length};
use cupid::isa::Op;
use cupid::machine::{CallFrame, Function, VMValue, VmFault, VM};

fn run(code: &[u8]) -> (VM, Result<(), VmFault>) {
    let mut vm = VM::new();
    let r = vm.run_with(code);
    (vm, r)
}

fn top_int(vm: &VM) -> u32 {
    match vm.stack.last() {
        Some(VMValue::Int(v)) => *v,
        other => panic!("unexpected {:?}", other),
    }
}

#[test]
fn arithmetic_wraps_on_overflow() {
    // push32 4294967295 / push32 1 / add / halt
    let (vm, r) = run(&[3, 0xFF, 0xFF, 0xFF, 0xFF, 3, 1, 0, 0, 0, 0x11, 0xFF]);
    assert!(r.is_ok());
    assert_eq!(vm.ac, 0);
    assert_eq!(top_int(&vm), 0);
}

#[test]
fn division_by_zero_is_a_fault() {
    // push8 1 / push8 0 / div / halt
    let (_, r) = run(&[1, 1, 1, 0, 0x14, 0xFF]);
    assert_eq!(r, Err(VmFault::DivisionByZero { at: 4 }));
}

#[test]
fn subtraction_and_division_take_the_top_as_right_operand() {
    let (vm, r) = run(&[1, 5, 1, 3, 0x12, 0xFF]);
    assert!(r.is_ok());
    assert_eq!(vm.ac, 2);
    let (vm, r) = run(&[1, 7, 1, 2, 0x14, 0xFF]);
    assert!(r.is_ok());
    assert_eq!(vm.ac, 3);
    let (vm, r) = run(&[1, 0, 1, 1, 0x12, 0xFF]);
    assert!(r.is_ok());
    assert_eq!(vm.ac, u32::MAX);
    let (vm, _) = run(&[3, 0, 0, 1, 0, 3, 0, 0, 1, 0, 0x13, 0xFF]);
    assert_eq!(vm.ac, 0);
}

#[test]
fn cmp_compares_first_popped_against_second() {
    // push8 1 / push8 2 / cmp: a = 2, b = 1, a > b
    let (vm, _) = run(&[1, 1, 1, 2, 0x0C, 0xFF]);
    assert_eq!(top_int(&vm), 2);
    let (vm, _) = run(&[1, 2, 1, 1, 0x0C, 0xFF]);
    assert_eq!(top_int(&vm), 0);
    let (vm, _) = run(&[1, 4, 1, 4, 0x0C, 0xFF]);
    assert_eq!(top_int(&vm), 1);
    assert_eq!(vm.stack.len(), 1);
}

#[test]
fn pops_mask_into_accumulator() {
    let (vm, _) = run(&[3, 0x78, 0x56, 0x34, 0x12, 6, 0xFF]);
    assert_eq!(vm.ac, 0x78);
    let (vm, _) = run(&[3, 0x78, 0x56, 0x34, 0x12, 7, 0xFF]);
    assert_eq!(vm.ac, 0x5678);
    let (vm, _) = run(&[3, 0x78, 0x56, 0x34, 0x12, 8, 5, 0xFF]);
    assert_eq!(vm.ac, 0x1234_5678);
    assert_eq!(top_int(&vm), 0x1234_5678);
}

#[test]
fn popping_an_empty_stack_is_a_fault() {
    let (_, r) = run(&[6]);
    assert_eq!(r, Err(VmFault::StackUnderflow { op: Op::POP8, at: 0 }));
}

#[test]
fn popping_a_string_as_integer_is_a_fault() {
    let (_, r) = run(&[4, b'a', 0, 8]);
    assert_eq!(r, Err(VmFault::TypeMismatch { op: Op::POP32, at: 3 }));
}

#[test]
fn popsz_fills_the_string_table_as_a_set() {
    // push8 7 / pop8 / pushsz "ab" / popsz / pushsz "ab" / popsz
    let (vm, r) = run(&[1, 7, 6, 4, b'a', b'b', 0, 9, 4, b'a', b'b', 0, 9, 0xFF]);
    assert!(r.is_ok());
    assert_eq!(vm.strings, vec![(7, vec![b'a', b'b'])]);
    assert_eq!(vm.stack.len(), 0);
}

#[test]
fn unterminated_string_operand_is_a_fault() {
    let (_, r) = run(&[4, b'a']);
    assert_eq!(r, Err(VmFault::DecodePastEnd { op: Op::PUSHSZ, at: 0 }));
}

#[test]
fn truncated_address_is_a_fault() {
    let (_, r) = run(&[0x0D, 1, 0]);
    assert_eq!(r, Err(VmFault::DecodePastEnd { op: Op::JABS, at: 0 }));
}

#[test]
fn unknown_opcode_is_a_fault() {
    let (_, r) = run(&[0, 0x0A]);
    assert_eq!(r, Err(VmFault::UnknownOpcode { byte: 0x0A, at: 1 }));
}

#[test]
fn jeq_jumps_on_one_and_jne_otherwise() {
    // push8 1 / jeq 8 / push8 9 / halt   (offset 8 is the halt)
    let (vm, _) = run(&[1, 1, 0x0F, 9, 0, 0, 0, 1, 9, 0xFF]);
    assert_eq!(vm.stack.len(), 0);
    assert_eq!(vm.ip, 9);
    // push8 0 / jeq 9 / push8 9 / halt: falls through
    let (vm, _) = run(&[1, 0, 0x0F, 9, 0, 0, 0, 1, 9, 0xFF]);
    assert_eq!(top_int(&vm), 9);
    // push8 0 / jne 9 / push8 9 / halt: jumps
    let (vm, _) = run(&[1, 0, 0x10, 9, 0, 0, 0, 1, 9, 0xFF]);
    assert_eq!(vm.stack.len(), 0);
}

#[test]
fn jrel_adds_to_its_own_offset() {
    // nop / jrel 6 / push8 1 / halt : 1 + 6 = 7, the halt
    let (vm, _) = run(&[0, 0x0E, 6, 0, 0, 0, 1, 0xFF]);
    assert_eq!(vm.ip, 7);
    assert_eq!(vm.stack.len(), 0);
}

#[test]
fn call_then_ret_leaves_one_more_item() {
    // 0: push8 9 / 2: call 8 / 7: halt / 8: push8 5 / 10: push8 42 / 12: ret
    let code = [1, 9, 0x15, 8, 0, 0, 0, 0xFF, 1, 5, 1, 42, 0x17];
    let mut vm = VM::new();
    vm.function_table.push(Function { address: 8, arity: 1, local_count: 1 });
    let r = vm.run_with(&code);
    assert!(r.is_ok());
    assert_eq!(vm.ip, 7);
    assert_eq!(vm.bp, 0);
    assert_eq!(vm.call_stack.len(), 0);
    assert_eq!(vm.stack.len(), 2);
    assert_eq!(top_int(&vm), 42);
}

#[test]
fn call_pushes_a_frame() {
    let code = [0x15, 5, 0, 0, 0, 0];
    let mut vm = VM::new();
    vm.program = code.to_vec();
    vm.function_table.push(Function { address: 5, arity: 0, local_count: 0 });
    vm.stack.push(VMValue::Int(1));
    assert_eq!(vm.cycle(), Ok(true));
    assert_eq!(vm.call_stack, vec![CallFrame { function_id: 0, return_address: 5, base_ptr: 0 }]);
    assert_eq!(vm.bp, 1);
    assert_eq!(vm.ip, 5);
}

#[test]
fn call_to_unknown_function_is_a_fault() {
    let (_, r) = run(&[0x15, 5, 0, 0, 0]);
    assert_eq!(r, Err(VmFault::UnknownFunction { address: 5, at: 0 }));
}

#[test]
fn ret_without_frame_is_a_fault() {
    let (_, r) = run(&[0x17]);
    assert_eq!(r, Err(VmFault::NoCallFrame { at: 0 }));
}

#[test]
fn native_call_is_reported() {
    let (_, r) = run(&[0x16, 1, 0, 0, 0]);
    assert_eq!(r, Err(VmFault::NativeCall { address: 1, at: 0 }));
}

#[test]
fn runaway_loop_hits_the_ceiling() {
    let mut vm = VM::new();
    vm.max_cycles = 10;
    let r = vm.run_with(&[0x0D, 0, 0, 0, 0]);
    assert_eq!(r, Err(VmFault::Runaway { cycles: 10 }));
}

#[test]
fn halt_stops_without_moving() {
    let mut vm = VM::new();
    vm.program = vec![0xFF];
    assert_eq!(vm.cycle(), Ok(false));
    assert_eq!(vm.ip, 0);
    let (vm, r) = run(&[0, 0xFF, 1, 1]);
    assert!(r.is_ok());
    assert_eq!(vm.ip, 1);
}

#[test]
fn running_off_the_end_stops() {
    let (vm, r) = run(&[0, 0]);
    assert!(r.is_ok());
    assert_eq!(vm.ip, 2);
}

#[test]
fn step_moves_past_operands() {
    let mut vm = VM::new();
    vm.step(4);
    assert_eq!(vm.ip, 5);
    assert_eq!(vm.sp(), 0);
}

#[test]
fn fetch_decode_reads_operands() {
    let mut vm = VM::new();
    vm.program = vec![2, 0x34, 0x12];
    let d = vm.fetch_decode().unwrap();
    assert_eq!(d.opcode, Op::PUSH16);
    assert_eq!(d.operand, 0x1234);
    assert_eq!(d.size, 3);
}

#[test]
fn disassembles_instructions() {
    let mut vm = VM::new();
    vm.program = vec![0, 2, 0x34, 0x12, 0x0D, 0x10, 0, 0, 0, 4, b'h', b'i', 0, 0x42];
    assert_eq!(disasm_instruction(&vm, 0), ("nop".to_string(), 1));
    assert_eq!(disasm_instruction(&vm, 1), ("push16 4660".to_string(), 3));
    assert_eq!(disasm_instruction(&vm, 4), ("jabs $00000010".to_string(), 5));
    assert_eq!(disasm_instruction(&vm, 9), ("pushsz \"hi\"".to_string(), 4));
    assert_eq!(disasm_instruction(&vm, 13), ("$42".to_string(), 1));
}

#[test]
fn renders_stack_values() {
    assert_eq!(dump_stack_val(&VMValue::Int(17)), "17");
    assert_eq!(dump_stack_val(&VMValue::String(vec![b'o', b'k'])), "'ok'");
    assert_eq!(dump_stack_val(&VMValue::Data(vec![1, 2])), "<data: [1, 2]>");
}

#[test]
fn reads_lengths_and_addresses() {
    assert_eq!(read_variable_length(1, &[9, 1, 2, 0, 5]), 2);
    assert_eq!(read_variable_length(0, &[1, 2]), 2);
    assert_eq!(format_address(&[0x78, 0x56, 0x34, 0x12]), 0x1234_5678);
}

struct Counter(usize);

impl cupid::machine::TraceSink for Counter {
    fn on_cycle(&mut self, _vm: &VM) {
        self.0 += 1;
    }
}

#[test]
fn trace_sink_sees_every_cycle() {
    let mut vm = VM::new();
    vm.program = vec![1, 2, 1, 3, 0x11, 0xFF];
    let mut counter = Counter(0);
    assert!(vm.run_traced(&mut counter).is_ok());
    assert_eq!(counter.0, 3);
    assert_eq!(vm.ac, 5);
}

#[test]
fn ret_never_cuts_below_the_frame() {
    // The caller holds 10, 11, 12; the callee (two local slots declared) only
    // pushed its return value 9. RET keeps all of the caller's values.
    let mut vm = VM::new();
    vm.program = vec![0x17];
    vm.function_table.push(Function { address: 0, arity: 0, local_count: 2 });
    vm.call_stack.push(CallFrame { function_id: 0, return_address: 5, base_ptr: 0 });
    vm.bp = 3;
    for v in [10u32, 11, 12, 9] {
        vm.stack.push(VMValue::Int(v));
    }
    assert_eq!(vm.cycle(), Ok(true));
    assert_eq!(
        vm.stack,
        vec![VMValue::Int(10), VMValue::Int(11), VMValue::Int(12), VMValue::Int(9)]
    );
    assert_eq!(vm.bp, 0);
    assert_eq!(vm.ip, 5);
    assert!(vm.call_stack.is_empty());
}

#[test]
fn ret_drops_the_frame_above_the_base_pointer() {
    let mut vm = VM::new();
    vm.program = vec![0x17];
    vm.function_table.push(Function { address: 0, arity: 1, local_count: 1 });
    vm.call_stack.push(CallFrame { function_id: 0, return_address: 3, base_ptr: 0 });
    vm.bp = 1;
    for v in [7u32, 1, 2, 3] {
        vm.stack.push(VMValue::Int(v));
    }
    assert_eq!(vm.cycle(), Ok(true));
    assert_eq!(vm.stack, vec![VMValue::Int(7), VMValue::Int(3)]);
}

#[test]
fn a_fault_leaves_the_machine_as_it_was() {
    let mut vm = VM::new();
    vm.program = vec![6];
    vm.stack.push(VMValue::String(vec![b'x']));
    vm.ac = 4;
    assert_eq!(vm.cycle(), Err(VmFault::TypeMismatch { op: Op::POP8, at: 0 }));
    assert_eq!(vm.stack, vec![VMValue::String(vec![b'x'])]);
    assert_eq!(vm.ac, 4);
    assert_eq!(vm.ip, 0);
    let (vm, r) = run(&[1, 1, 1, 0, 0x14, 0xFF]);
    assert_eq!(r, Err(VmFault::DivisionByZero { at: 4 }));
    assert_eq!(vm.ip, 4);
    assert_eq!(vm.stack, vec![VMValue::Int(1), VMValue::Int(0)]);
}
