use cupid::assembler::{AsmError, AsmFault, Assembler};
use cupid::isa::Op;
use cupid::machine::VM;
use cupid::parser::{Directive, Node};

fn ins(op: Op, args: Vec<Node>) -> Node {
    Node::Instruction(op, args)
}

fn ident(s: &str) -> Node {
    Node::Ident(s.to_string())
}

fn build(ast: Vec<Node>) -> Result<Vec<u8>, AsmError> {
    let mut a = Assembler::new(".");
    a.assemble(&ast).map_err(|f| f.error)
}

#[test]
fn forward_label_resolves_past_push() {
    let ast = vec![
        ins(Op::JABS, vec![ident("skip")]),
        ins(Op::PUSH8, vec![Node::Int(1)]),
        Node::Label("skip".to_string()),
        ins(Op::HALT, vec![]),
    ];
    let bc = build(ast).unwrap();
    // jabs is 5 bytes, push8 is 2: `skip` is the offset just past the push.
    assert_eq!(bc, vec![0x0D, 7, 0, 0, 0, 0x01, 1, 0xFF]);
    let mut vm = VM::new();
    vm.run_with(&bc).unwrap();
    assert_eq!(vm.ip, 7);
    assert_eq!(vm.stack.len(), 0);
    assert_eq!(vm.ac, 0);
}

#[test]
fn undefined_label_fails() {
    let mut a = Assembler::new(".");
    let r = a.assemble(&vec![ins(Op::JABS, vec![ident("nowhere")])]);
    match r {
        Err(AsmFault { at, error: AsmError::Undefined(name) }) => {
            assert_eq!(name, "nowhere");
            assert_eq!(at, 0);
        }
        other => panic!("unexpected {:?}", other),
    }
    assert_eq!(a.ptr, 0);
}

#[test]
fn rep_emits_n_copies() {
    let body = vec![ins(Op::PUSH8, vec![Node::Int(1)]), ins(Op::NOP, vec![])];
    let ast = vec![Node::Directive(Directive::Rep(3, body))];
    assert_eq!(build(ast).unwrap(), vec![1, 1, 0, 1, 1, 0, 1, 1, 0]);
}

#[test]
fn rep_zero_emits_nothing() {
    let ast = vec![
        Node::Directive(Directive::Rep(0, vec![ins(Op::NOP, vec![])])),
        ins(Op::HALT, vec![]),
    ];
    assert_eq!(build(ast).unwrap(), vec![0xFF]);
}

#[test]
fn rep_advances_label_offsets() {
    let ast = vec![
        Node::Directive(Directive::Rep(4, vec![ins(Op::PUSH16, vec![Node::Int(2)])])),
        Node::Label("end".to_string()),
        ins(Op::JABS, vec![ident("end")]),
    ];
    let bc = build(ast).unwrap();
    assert_eq!(bc.len(), 17);
    assert_eq!(&bc[12..], &[0x0D, 12, 0, 0, 0]);
}

#[test]
fn define_inlines_integer() {
    let with_const = vec![
        Node::Directive(Directive::Define("N".to_string(), Box::new(Node::Int(300)))),
        ins(Op::PUSH16, vec![ident("N")]),
    ];
    let literal = vec![ins(Op::PUSH16, vec![Node::Int(300)])];
    assert_eq!(build(with_const).unwrap(), build(literal).unwrap());
    assert_eq!(build(vec![ins(Op::PUSH16, vec![Node::Int(300)])]).unwrap(), vec![2, 0x2C, 0x01]);
}

#[test]
fn define_inlines_string() {
    let with_const = vec![
        Node::Directive(Directive::Define("S".to_string(), Box::new(Node::Str("hi".to_string())))),
        ins(Op::PUSHSZ, vec![ident("S")]),
    ];
    let literal = vec![ins(Op::PUSHSZ, vec![Node::Str("hi".to_string())])];
    assert_eq!(build(with_const).unwrap(), build(literal).unwrap());
    assert_eq!(build(vec![ins(Op::PUSHSZ, vec![Node::Str("hi".to_string())])]).unwrap(), vec![4, b'h', b'i', 0]);
}

#[test]
fn define_inlines_byte_sequence() {
    let with_const = vec![
        Node::Directive(Directive::Define("B".to_string(), Box::new(Node::ByteSeq(vec![7, 8])))),
        ins(Op::PUSHSZ, vec![ident("B")]),
    ];
    let literal = vec![ins(Op::PUSHSZ, vec![Node::ByteSeq(vec![7, 8])])];
    assert_eq!(build(with_const).unwrap(), build(literal).unwrap());
    assert_eq!(build(vec![ins(Op::PUSHSZ, vec![Node::ByteSeq(vec![7, 8])])]).unwrap(), vec![4, 7, 8, 0]);
}

#[test]
fn later_define_wins() {
    let ast = vec![
        Node::Directive(Directive::Define("N".to_string(), Box::new(Node::Int(1)))),
        Node::Directive(Directive::Define("N".to_string(), Box::new(Node::Int(2)))),
        ins(Op::PUSH8, vec![ident("N")]),
    ];
    assert_eq!(build(ast).unwrap(), vec![1, 2]);
}

#[test]
fn string_operand_sizes_agree_across_passes() {
    let ast = vec![
        ins(Op::PUSHSZ, vec![Node::Str("abc".to_string())]),
        Node::Label("after".to_string()),
        ins(Op::CALL, vec![ident("after")]),
    ];
    let bc = build(ast).unwrap();
    assert_eq!(bc, vec![4, b'a', b'b', b'c', 0, 0x15, 5, 0, 0, 0]);
}

#[test]
fn fixed_width_immediates_are_little_endian() {
    let ast = vec![
        ins(Op::PUSH8, vec![Node::Int(0xAB)]),
        ins(Op::PUSH16, vec![Node::Int(0x1234)]),
        ins(Op::PUSH32, vec![Node::Int(0x0102_0304)]),
        ins(Op::PUSH32, vec![Node::Int(1)]),
    ];
    assert_eq!(build(ast).unwrap(), vec![1, 0xAB, 2, 0x34, 0x12, 3, 4, 3, 2, 1, 3, 1, 0, 0, 0]);
}

#[test]
fn directives_emit_their_bytes() {
    let ast = vec![
        Node::Directive(Directive::Stringz("ok".to_string())),
        Node::Directive(Directive::ByteSeq(vec![9, 8])),
        Node::ByteSeq(vec![1]),
        Node::Label("x".to_string()),
    ];
    assert_eq!(build(ast).unwrap(), vec![b'o', b'k', 0, 9, 8, 1]);
}

#[test]
fn push8_out_of_range_is_rejected() {
    match build(vec![ins(Op::PUSH8, vec![Node::Int(256)])]) {
        Err(AsmError::OutOfRange { op, value }) => {
            assert_eq!(op, Op::PUSH8);
            assert_eq!(value, 256);
        }
        other => panic!("unexpected {:?}", other),
    }
}

#[test]
fn label_under_narrow_push_is_rejected() {
    let ast = vec![Node::Label("l".to_string()), ins(Op::PUSH16, vec![ident("l")])];
    assert!(matches!(build(ast), Err(AsmError::BadOperand { op: Op::PUSH16 })));
}

#[test]
fn label_under_push32_is_its_address() {
    let ast = vec![ins(Op::NOP, vec![]), Node::Label("l".to_string()), ins(Op::PUSH32, vec![ident("l")])];
    assert_eq!(build(ast).unwrap(), vec![0, 3, 1, 0, 0, 0]);
}

#[test]
fn wrong_arity_is_rejected() {
    assert!(matches!(
        build(vec![ins(Op::ADD, vec![Node::Int(1)])]),
        Err(AsmError::WrongArity { op: Op::ADD, expected: 0, found: 1 })
    ));
    assert!(matches!(
        build(vec![ins(Op::JABS, vec![])]),
        Err(AsmError::WrongArity { op: Op::JABS, expected: 1, found: 0 })
    ));
}

#[test]
fn string_under_jump_is_rejected() {
    let ast = vec![ins(Op::JABS, vec![Node::Str("x".to_string())])];
    assert!(matches!(build(ast), Err(AsmError::BadOperand { op: Op::JABS })));
}

#[test]
fn nul_inside_pushsz_is_rejected() {
    let ast = vec![ins(Op::PUSHSZ, vec![Node::ByteSeq(vec![1, 0, 2])])];
    assert!(matches!(build(ast), Err(AsmError::NulInOperand { op: Op::PUSHSZ })));
}

#[test]
fn duplicate_label_is_rejected() {
    let ast = vec![Node::Label("a".to_string()), Node::Label("a".to_string())];
    match build(ast) {
        Err(AsmError::DuplicateLabel(n)) => assert_eq!(n, "a"),
        other => panic!("unexpected {:?}", other),
    }
}

#[test]
fn label_inside_rep_is_rejected() {
    let ast = vec![Node::Directive(Directive::Rep(2, vec![Node::Label("in".to_string())]))];
    assert!(matches!(build(ast), Err(AsmError::LabelInRep(_))));
}

#[test]
fn nested_rep_is_rejected() {
    let inner = Node::Directive(Directive::Rep(2, vec![ins(Op::NOP, vec![])]));
    let ast = vec![Node::Directive(Directive::Rep(2, vec![inner]))];
    assert!(matches!(build(ast), Err(AsmError::NestedRep)));
}

#[test]
fn unexpanded_include_is_rejected() {
    let ast = vec![Node::Directive(Directive::Include("lib.as".to_string()))];
    match build(ast) {
        Err(AsmError::UnresolvedInclude(p)) => assert_eq!(p, "lib.as"),
        other => panic!("unexpected {:?}", other),
    }
}

#[test]
fn stray_literal_is_rejected() {
    assert!(matches!(build(vec![Node::Int(3)]), Err(AsmError::StrayLiteral)));
}

#[test]
fn assembler_records_output_size() {
    let mut a = Assembler::new("dir");
    let bc = a.assemble(&vec![ins(Op::PUSH8, vec![Node::Int(5)]), ins(Op::HALT, vec![])]).unwrap();
    assert_eq!(bc.len(), 3);
    assert_eq!(a.ptr, 3);
    assert_eq!(a.root_path, "dir");
}

#[test]
fn program_beyond_address_space_is_rejected() {
    let ast = vec![Node::Directive(Directive::Rep(u32::MAX, vec![ins(Op::PUSH8, vec![Node::Int(1)])]))];
    assert!(matches!(build(ast), Err(AsmError::TooLarge)));
}

#[test]
fn errors_report_the_offset_of_their_node() {
    let mut a = Assembler::new(".");
    let ast = vec![ins(Op::NOP, vec![]), ins(Op::PUSH8, vec![Node::Int(1)]), ins(Op::JABS, vec![ident("gone")])];
    match a.assemble(&ast) {
        Err(AsmFault { at, error: AsmError::Undefined(n) }) => {
            assert_eq!(at, 3);
            assert_eq!(n, "gone");
        }
        other => panic!("unexpected {:?}", other),
    }
    let ast = vec![ins(Op::NOP, vec![]), Node::Label("x".to_string()), Node::Label("x".to_string())];
    assert!(matches!(a.assemble(&ast), Err(AsmFault { at: 1, error: AsmError::DuplicateLabel(_) })));
    let ast = vec![ins(Op::HALT, vec![]), Node::Int(4)];
    assert!(matches!(a.assemble(&ast), Err(AsmFault { at: 1, error: AsmError::StrayLiteral })));
}
