use cupid::assembler::{first_include, splice_include, splice_into_rep, Assembler};
use cupid::isa::Op;
use cupid::lexer::{LexError, Lexer, Token, TokenKind};
use cupid::machine::VM;
use cupid::parser::{Directive, Node, ParseError, Parser};

fn make_lexer<'a>(input: &'a str) -> Lexer<'a> {
    Lexer::new(input)
}

fn parse(src: &str) -> Result<Vec<Node>, ParseError> {
    let mut lex = Lexer::new(src);
    let tokens: Vec<Token> = lex.lex().unwrap();
    let mut parser = Parser::new(tokens, src);
    parser.parse()
}

#[test]
fn lex_skips_comments() {
    let mut lex = make_lexer("// this is a comment\n123");
    let tokens = lex.lex().unwrap();
    assert_eq!(tokens[0].kind, TokenKind::Int(123));
}

#[test]
fn lex_number() {
    let mut lex = make_lexer("123 0xff 0b0010");
    let tokens = lex.lex().unwrap();
    let decimal = &tokens[0];
    let hex = &tokens[1];
    let binary = &tokens[2];
    assert_eq!(decimal.kind, TokenKind::Int(123));
    assert_eq!(hex.kind, TokenKind::Int(0xFF));
    assert_eq!(binary.kind, TokenKind::Int(0b0010));
}

#[test]
fn lex_byte_sequence() {
    let mut lex = make_lexer("[0x01 0x02 0x03]");
    let tokens = lex.lex().unwrap();
    let byte_seq = &tokens[0];
    assert!(matches!(byte_seq.kind, TokenKind::ByteSeq(_)));
    assert_eq!(byte_seq.kind, TokenKind::ByteSeq(vec![1, 2, 3]));
}

#[test]
fn lex_string() {
    let mut lex = make_lexer("\"hello\" 'world'");
    let tokens = lex.lex().unwrap();
    let double_quoted = &tokens[0];
    let single_quoted = &tokens[1];
    assert_eq!(double_quoted.kind, TokenKind::String);
    assert_eq!(double_quoted.literal, "hello");
    assert_eq!(single_quoted.kind, TokenKind::String);
    assert_eq!(single_quoted.literal, "world");
}

#[test]
fn lex_directive() {
    let mut lex = make_lexer("%include 'foobar'");
    let tokens = lex.lex().unwrap();
    assert!(matches!(tokens[0].kind, TokenKind::Directive(_)));
}

#[test]
fn lex_reserved_word() {
    let mut lex = make_lexer("nop pushi pushsz pushac popi foobar:");
    let tokens = lex.lex().unwrap();
    assert!(tokens.iter().any(|t| t.kind == TokenKind::Instruction));
}

#[test]
fn parses_instruction() {
    let result = parse("pushi 42");
    assert!(result.is_ok());
}

#[test]
fn parses_byte_sequence() {
    let result = parse("%bytes 0x01, 0x02, 0x03");
    assert!(result.is_ok());
}

#[test]
fn parses_directive() {
    let result = parse("%include \"file.as\"");
    assert!(result.is_ok());
}

#[test]
fn parses_label() {
    let result = parse("my_label:\n  nop");
    assert!(result.is_ok());
}

#[test]
fn parse_file() {
    let src = "
%include 'file.as'
%define VERY_IMPORTANT 42

lottery_numbers: %bytes(12 14 34 52 37)

pick_winning_numbers: 
  %rep(5)
   nop
  %endrep
  j done

start:
  j pick_winning_numbers

done:
";
    let result = parse(src);
    assert!(result.is_ok());
}

#[test]
fn test_machine_initialization() {
    let mach = VM::new();
    assert_eq!(mach.ip, 0);
    assert_eq!(mach.sp(), 0);
    assert_eq!(mach.bp, 0);
    assert_eq!(mach.ac, 0);
}

#[test]
fn lexes_labels_idents_and_escapes() {
    let mut lex = make_lexer("start: jabs start\npushsz \"a\\tb\\n\"");
    let tokens = lex.lex().unwrap();
    assert_eq!(tokens[0].kind, TokenKind::Label("start".to_string()));
    assert_eq!(tokens[1].kind, TokenKind::Instruction);
    assert_eq!(tokens[1].literal, "jabs");
    assert_eq!(tokens[2].kind, TokenKind::Ident("start".to_string()));
    assert_eq!(tokens[4].literal, "a\tb\n");
}

#[test]
fn lexes_octal_and_operators() {
    let mut lex = make_lexer("0o17 ( ) + ,");
    let tokens = lex.lex().unwrap();
    assert_eq!(tokens[0].kind, TokenKind::Int(15));
    assert_eq!(tokens[1].kind, TokenKind::LParen);
    assert_eq!(tokens[2].kind, TokenKind::RParen);
    assert_eq!(tokens[3].kind, TokenKind::Plus);
    assert_eq!(tokens[4].kind, TokenKind::Comma);
}

#[test]
fn lex_errors_are_reported() {
    assert!(matches!(make_lexer("\"open").lex(), Err(LexError::UnterminatedString { .. })));
    assert!(matches!(make_lexer("[1 2").lex(), Err(LexError::UnterminatedByteSeq { .. })));
    assert!(matches!(make_lexer("[300]").lex(), Err(LexError::ByteOutOfRange { value: 300, .. })));
    assert!(matches!(make_lexer("[a]").lex(), Err(LexError::BadByteSeqChar { .. })));
    assert!(matches!(make_lexer("4294967296").lex(), Err(LexError::IntOverflow { .. })));
    assert!(matches!(make_lexer("0x").lex(), Err(LexError::MissingDigits { .. })));
    assert_eq!(make_lexer("4294967295").lex().unwrap()[0].kind, TokenKind::Int(u32::MAX));
}

#[test]
fn parser_rejects_misused_rep() {
    assert!(parse("%rep(2)\n nop\n %rep(2)\n %endrep\n%endrep").is_err());
    assert!(parse("%rep(2)\n inner:\n nop\n%endrep").is_err());
    assert!(parse("%endrep").is_err());
    assert!(matches!(parse("%define 1 2"), Err(ParseError::UnexpectedToken { .. })));
    assert!(matches!(parse("%define X"), Err(ParseError::InvalidArity { expected: 2, found: 1, .. })));
    assert!(matches!(parse("%bytes 256"), Err(ParseError::UnexpectedToken { .. })));
    assert!(matches!(parse("foo"), Err(ParseError::UnexpectedToken { .. })));
}

#[test]
fn parser_builds_the_tree() {
    let ast = parse("%define N 3\nloop: push8 N\n%rep(2)\n nop\n%endrep\n[1 2]").unwrap();
    assert_eq!(ast.len(), 5);
    assert!(matches!(&ast[0], Node::Directive(Directive::Define(n, _)) if n == "N"));
    assert!(matches!(&ast[1], Node::Label(l) if l == "loop"));
    assert!(matches!(&ast[2], Node::Instruction(Op::PUSH8, args) if args.len() == 1));
    assert!(matches!(&ast[3], Node::Directive(Directive::Rep(2, body)) if body.len() == 1));
    assert!(matches!(&ast[4], Node::ByteSeq(b) if b == &vec![1, 2]));
}

#[test]
fn expect_and_maybe_expect() {
    let mut lex = make_lexer("( nop");
    let tokens = lex.lex().unwrap();
    let mut p = Parser::new(tokens, "( nop");
    assert!(p.maybe_expect(TokenKind::RParen).is_ok());
    assert!(p.expect(TokenKind::LParen).is_ok());
    assert!(matches!(p.expect(TokenKind::RParen), Err(ParseError::UnexpectedToken { .. })));
    assert!(matches!(p.expect(TokenKind::RParen), Err(ParseError::UnexpectedEof)));
    assert!(matches!(p.maybe_expect(TokenKind::RParen), Err(ParseError::UnexpectedEof)));
}

#[test]
fn source_to_execution_skips_the_push() {
    let src = "jabs skip\npush8 1\nskip:\nhalt\n";
    let ast = parse(src).unwrap();
    let mut a = Assembler::new(".");
    let bc = a.assemble(&ast).unwrap();
    assert_eq!(bc, vec![0x0D, 7, 0, 0, 0, 0x01, 1, 0xFF]);
    let mut vm = VM::new();
    assert!(vm.run_with(&bc).is_ok());
    assert_eq!(vm.stack.len(), 0);
}

#[test]
fn includes_are_spliced_before_assembly() {
    let ast = parse("jabs there\n%include \"lib.as\"\nhalt").unwrap();
    let (i, inner, path) = first_include(&ast).unwrap();
    assert_eq!(i, 1);
    assert_eq!(inner, None);
    assert_eq!(path, "lib.as");
    let included = parse("nop\nthere:\nnop").unwrap();
    let ast = splice_include(ast, i, included);
    assert_eq!(ast.len(), 5);
    assert!(first_include(&ast).is_none());
    let mut a = Assembler::new(".");
    assert_eq!(a.assemble(&ast).unwrap(), vec![0x0D, 6, 0, 0, 0, 0, 0, 0xFF]);
}

#[test]
fn parse_errors_describe_themselves() {
    assert_eq!(ParseError::UnexpectedEof.message(), "Parse error: unexpected end of file");
    let e = ParseError::InvalidArity { expected: 2, found: 1, pos: 7 };
    assert_eq!(e.message(), "Parse error at position 7: invalid arity, expected 2, found 1");
    let e = ParseError::InvalidInstruction { name: "bogus".to_string(), pos: 0 };
    assert_eq!(e.message(), "Parse error at position 0: invalid instruction 'bogus'");
    let e = ParseError::UnexpectedToken { expected: "a directive".to_string(), found: Some(TokenKind::Comma), pos: 3 };
    assert_eq!(e.message(), "Parse error at position 3: expected a directive, found Comma");
}

#[test]
fn parse_errors_name_the_offending_token() {
    match parse("%rep(2)\n nop\n %rep(3)\n %endrep\n%endrep") {
        Err(ParseError::UnexpectedToken { expected, found, .. }) => {
            assert_eq!(expected, "non-nested directive");
            assert_eq!(found, Some(TokenKind::Directive("rep".to_string())));
        }
        other => panic!("unexpected {:?}", other),
    }
    match parse("%rep(2)\n inner:\n nop\n%endrep") {
        Err(ParseError::UnexpectedToken { expected, found, .. }) => {
            assert_eq!(expected, "non-label token");
            assert_eq!(found, Some(TokenKind::Label("inner".to_string())));
        }
        other => panic!("unexpected {:?}", other),
    }
    match parse("%frobnicate 1") {
        Err(ParseError::UnexpectedToken { expected, found, .. }) => {
            assert_eq!(expected, "a directive");
            assert_eq!(found, Some(TokenKind::Directive("frobnicate".to_string())));
        }
        other => panic!("unexpected {:?}", other),
    }
}

#[test]
fn rep_without_endrep_is_rejected() {
    assert!(matches!(parse("%rep(2)\n nop\n"), Err(ParseError::UnexpectedEof)));
    match parse("%rep(2)\n nop\n [1 2]") {
        Err(ParseError::UnexpectedToken { expected, .. }) => assert_eq!(expected, "%endrep"),
        other => panic!("unexpected {:?}", other),
    }
}

#[test]
fn parenthesised_and_bare_operands_parse_alike() {
    let a = parse("%bytes(1 2)").unwrap();
    let b = parse("%bytes 1 2").unwrap();
    assert!(matches!(&a[0], Node::Directive(Directive::ByteSeq(x)) if x == &vec![1, 2]));
    assert!(matches!(&b[0], Node::Directive(Directive::ByteSeq(x)) if x == &vec![1, 2]));
}

#[test]
fn includes_inside_rep_are_spliced() {
    let ast = parse("%rep(2)\n nop\n %include \"body.as\"\n%endrep\nhalt").unwrap();
    let (i, inner, path) = first_include(&ast).unwrap();
    assert_eq!((i, inner), (0, Some(1)));
    assert_eq!(path, "body.as");
    let included = parse("pushac").unwrap();
    let ast = splice_into_rep(ast, i, 1, included);
    assert!(first_include(&ast).is_none());
    let mut a = Assembler::new(".");
    assert_eq!(a.assemble(&ast).unwrap(), vec![0, 5, 0, 5, 0xFF]);
}
