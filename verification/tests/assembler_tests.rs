use vm_project::assembler::{classify, split_statements, AssemblerError};
use vm_project::vm::{Opcode, VMError};
use vm_project::{Assembler, VM};

fn assemble(source: &str) -> Result<Vec<u8>, AssemblerError> {
    Assembler::new().compile(source)
}

fn padded(code: &[u8]) -> Vec<u8> {
    let mut v = code.to_vec();
    while v.len() < 32 {
        v.push(0);
    }
    v
}

fn syntax_error(r: Result<Vec<u8>, AssemblerError>) -> String {
    match r {
        Err(AssemblerError::SyntaxError(text)) => text,
        other => panic!("not a syntax error: {:?}", other),
    }
}

fn unknown_instruction(r: Result<Vec<u8>, AssemblerError>) -> String {
    match r {
        Err(AssemblerError::UnknownInstruction(text)) => text,
        other => panic!("not an unknown instruction: {:?}", other),
    }
}

fn unknown_register(r: Result<Vec<u8>, AssemblerError>) -> String {
    match r {
        Err(AssemblerError::UnknownRegister(text)) => text,
        other => panic!("not an unknown register: {:?}", other),
    }
}

#[test]
fn empty_source_is_32_zero_bytes() {
    assert_eq!(assemble("").unwrap(), vec![0u8; 32]);
    assert_eq!(assemble("\n\n  \n; nothing\n").unwrap(), vec![0u8; 32]);
}

#[test]
fn load_is_encoded_high_byte_first() {
    assert_eq!(assemble("LOAD r0 500").unwrap(), padded(&[1, 0, 1, 244]));
    assert_eq!(assemble("LOAD r31 65535").unwrap(), padded(&[1, 31, 255, 255]));
    assert_eq!(assemble("LOAD r7 0").unwrap(), padded(&[1, 7, 0, 0]));
    assert_eq!(assemble("LOAD r7 256").unwrap(), padded(&[1, 7, 1, 0]));
}

#[test]
fn every_mnemonic_has_its_opcode() {
    assert_eq!(assemble("HLT").unwrap(), padded(&[0]));
    assert_eq!(assemble("ADD r1 r2 r3").unwrap(), padded(&[2, 1, 2, 3]));
    assert_eq!(assemble("SUB r1 r2 r3").unwrap(), padded(&[3, 1, 2, 3]));
    assert_eq!(assemble("MUL r1 r2 r3").unwrap(), padded(&[4, 1, 2, 3]));
    assert_eq!(assemble("DIV r1 r2 r3").unwrap(), padded(&[5, 1, 2, 3]));
    assert_eq!(assemble("JMP r4").unwrap(), padded(&[6, 4]));
    assert_eq!(assemble("JMPF r5").unwrap(), padded(&[7, 5]));
}

#[test]
fn mnemonics_are_read_in_any_case() {
    assert_eq!(assemble("load r0 1\nLoad r1 2\nhlt").unwrap(), padded(&[1, 0, 0, 1, 1, 1, 0, 2, 0]));
    assert_eq!(assemble("aDd r1 r2 r3").unwrap(), padded(&[2, 1, 2, 3]));
    assert_eq!(assemble("jmpf r1").unwrap(), padded(&[7, 1]));
}

#[test]
fn mnemonics_are_compared_in_upper_case_as_unicode_has_it() {
    assert_eq!(assemble("\u{17f}ub r1 r2 r3").unwrap(), padded(&[3, 1, 2, 3]));
    assert_eq!(assemble("d\u{131}v r1 r2 r3").unwrap(), padded(&[5, 1, 2, 3]));
    assert_eq!("\u{17f}ub".to_uppercase(), "SUB");
}

#[test]
fn register_tokens_are_lower_case_only() {
    assert_eq!(unknown_register(assemble("LOAD R0 1")), "R0");
}

#[test]
fn all_registers_up_to_31_are_accepted() {
    let a = Assembler::new();
    for n in 0..32u8 {
        let token = format!("r{}", n);
        assert!(matches!(a.parse_register(&token), Ok(r) if r == n));
        assert_eq!(assemble(&format!("JMP {}", token)).unwrap(), padded(&[6, n]));
    }
}

#[test]
fn registers_from_32_on_are_unknown() {
    let a = Assembler::new();
    for n in [32u64, 33, 99, 255, 256, 65536, u64::MAX] {
        let token = format!("r{}", n);
        assert!(matches!(a.parse_register(&token), Err(AssemblerError::UnknownRegister(t)) if t == token));
        assert_eq!(unknown_register(assemble(&format!("ADD r0 {} r1", token))), token);
    }
    let huge = "r99999999999999999999999999999999999999";
    assert!(matches!(a.parse_register(huge), Err(AssemblerError::UnknownRegister(t)) if t == huge));
}

#[test]
fn tokens_that_do_not_start_with_r_are_unknown_registers() {
    let a = Assembler::new();
    for token in ["", "0", "x1", "R1", "1r", " r1", "+r1", "\u{440}1"] {
        assert!(matches!(a.parse_register(token), Err(AssemblerError::UnknownRegister(t)) if t == token));
    }
}

#[test]
fn register_numbers_are_read_as_unsigned_literals() {
    let a = Assembler::new();
    assert!(matches!(a.parse_register("r+5"), Ok(5)));
    assert!(matches!(a.parse_register("r007"), Ok(7)));
    assert!(matches!(a.parse_register("r0000000000000000000000000000031"), Ok(31)));
    for token in ["r", "r+", "r-1", "r-0", "r++1", "r1 ", "r 1", "r1a", "r0x1", "r\u{661}", "r1_0"] {
        assert!(matches!(a.parse_register(token), Err(AssemblerError::UnknownRegister(t)) if t == token));
    }
}

#[test]
fn parse_register_agrees_with_the_standard_parser() {
    let a = Assembler::new();
    let samples = [
        "r0", "r9", "r10", "r31", "r32", "r+0", "r+31", "r+32", "r-", "r+", "r", "r00", "r031",
        "r0032", "r4294967296", "r18446744073709551616", "r18446744073709551615", "rr1", "r1r",
        "r1.0", "r1e1", "r\u{ff11}",
    ];
    for token in samples {
        let expected = token[1..].parse::<usize>().ok().filter(|n| *n < 32).map(|n| n as u8);
        assert_eq!(a.parse_register(token).ok(), expected);
    }
}

#[test]
fn values_are_read_as_unsigned_16_bit_literals() {
    let a = Assembler::new();
    assert!(matches!(a.parse_value("0"), Ok(0)));
    assert!(matches!(a.parse_value("65535"), Ok(65535)));
    assert!(matches!(a.parse_value("+12"), Ok(12)));
    assert!(matches!(a.parse_value("00000000000000000000000000000000065535"), Ok(65535)));
    for token in ["65536", "-1", "", "+", "1 ", "0x10", "12a", "99999999999999999999", "\u{663}"] {
        assert!(matches!(a.parse_value(token), Err(AssemblerError::SyntaxError(t)) if t == format!("Invalid value: {}", token)));
    }
}

#[test]
fn parse_value_agrees_with_the_standard_parser() {
    let a = Assembler::new();
    let samples = [
        "0", "1", "9", "10", "65535", "65536", "65534", "655350", "+0", "+65535", "+65536", "-0",
        "--1", "++1", "+-1", "1+", "4294967295", "4294967296", "18446744073709551616", "000",
        "0001", "1_000", " 1", "1\n", "\u{0969}",
    ];
    for token in samples {
        assert_eq!(a.parse_value(token).ok(), token.parse::<u16>().ok());
    }
    for n in 0..=65535u32 {
        if n % 257 == 0 || n < 300 || n > 65500 {
            assert_eq!(a.parse_value(&n.to_string()).ok(), Some(n as u16));
        }
    }
}

#[test]
fn too_few_operands_are_a_syntax_error() {
    assert_eq!(syntax_error(assemble("LOAD")), "Invalid LOAD instruction: LOAD");
    assert_eq!(syntax_error(assemble("  LOAD r1  ; what?")), "Invalid LOAD instruction: LOAD r1");
    assert_eq!(syntax_error(assemble("ADD r1 r2")), "Invalid arithmetic instruction: ADD r1 r2");
    assert_eq!(syntax_error(assemble("sub")), "Invalid arithmetic instruction: sub");
    assert_eq!(syntax_error(assemble("MUL r1")), "Invalid arithmetic instruction: MUL r1");
    assert_eq!(syntax_error(assemble("DIV\tr1\tr2")), "Invalid arithmetic instruction: DIV\tr1\tr2");
    assert_eq!(syntax_error(assemble("JMP")), "Invalid jump instruction: JMP");
    assert_eq!(syntax_error(assemble("jmpf")), "Invalid jump instruction: jmpf");
}

#[test]
fn the_number_of_operands_is_checked_before_the_operands() {
    assert_eq!(syntax_error(assemble("LOAD x9")), "Invalid LOAD instruction: LOAD x9");
    assert_eq!(syntax_error(assemble("ADD x9 y9")), "Invalid arithmetic instruction: ADD x9 y9");
}

#[test]
fn operands_are_checked_from_left_to_right() {
    assert_eq!(unknown_register(assemble("LOAD x9 zz")), "x9");
    assert_eq!(syntax_error(assemble("LOAD r9 zz")), "Invalid value: zz");
    assert_eq!(unknown_register(assemble("ADD r1 b c")), "b");
    assert_eq!(unknown_register(assemble("ADD a b c")), "a");
    assert_eq!(unknown_register(assemble("ADD r1 r2 c")), "c");
}

#[test]
fn words_behind_the_operands_are_ignored() {
    assert_eq!(assemble("HLT now").unwrap(), padded(&[0]));
    assert_eq!(assemble("LOAD r1 2 3 4").unwrap(), padded(&[1, 1, 0, 2]));
    assert_eq!(assemble("ADD r1 r2 r3 r99").unwrap(), padded(&[2, 1, 2, 3]));
    assert_eq!(assemble("JMP r1 r99").unwrap(), padded(&[6, 1]));
}

#[test]
fn an_unknown_mnemonic_is_quoted_as_written() {
    assert_eq!(unknown_instruction(assemble("PRINT r0")), "PRINT");
    assert_eq!(unknown_instruction(assemble("  nop  ")), "nop");
    assert_eq!(unknown_instruction(assemble("HLT\nload: r0 1")), "load:");
    assert_eq!(unknown_instruction(assemble("LOADS r0 1")), "LOADS");
    assert_eq!(unknown_instruction(assemble("IGL")), "IGL");
    assert_eq!(unknown_instruction(assemble("HL")), "HL");
    assert_eq!(unknown_instruction(assemble("JMPFF r1")), "JMPFF");
}

#[test]
fn an_unknown_mnemonic_is_met_before_any_other_error() {
    assert_eq!(unknown_instruction(assemble("LOAD r99 1\nADD\nFOO\nBAR")), "FOO");
}

#[test]
fn the_first_bad_statement_is_reported() {
    assert_eq!(unknown_register(assemble("LOAD r1 1\nADD r1 r40 r2\nLOAD r1 x")), "r40");
    assert_eq!(syntax_error(assemble("LOAD r1 x\nADD r1 r40 r2")), "Invalid value: x");
}

#[test]
fn comments_and_blank_lines_are_skipped() {
    let source = "\n ; a comment\nLOAD r0 1 ; one\n\n\t\n;\nHLT;done\n";
    assert_eq!(assemble(source).unwrap(), padded(&[1, 0, 0, 1, 0]));
}

#[test]
fn a_comment_can_hold_anything() {
    assert_eq!(assemble("HLT ; FOO: r99 ; ;; \u{1f600}").unwrap(), padded(&[0]));
    assert_eq!(assemble(";LOAD").unwrap(), vec![0u8; 32]);
}

#[test]
fn lines_can_end_in_carriage_return_and_line_feed() {
    assert_eq!(assemble("LOAD r0 1\r\nHLT\r\n").unwrap(), padded(&[1, 0, 0, 1, 0]));
    assert_eq!(assemble("end:\r\nLOAD r0 end\r").unwrap(), padded(&[1, 0, 0, 0]));
}

#[test]
fn any_unicode_white_space_separates_words() {
    assert_eq!(assemble("\u{a0}LOAD\u{2003}r1\u{3000}7\u{85}").unwrap(), padded(&[1, 1, 0, 7]));
    assert_eq!(assemble("ADD\tr1\u{b}r2\u{c}r3").unwrap(), padded(&[2, 1, 2, 3]));
}

#[test]
fn a_zero_width_space_is_no_white_space() {
    assert_eq!(unknown_instruction(assemble("HLT\u{200b}")), "HLT\u{200b}");
}

#[test]
fn the_padding_is_not_cut_and_not_added_past_32() {
    let mut source = String::new();
    let mut expected = Vec::new();
    for i in 0..8u8 {
        source.push_str(&format!("LOAD r{} {}\n", i, i));
        expected.extend_from_slice(&[1, i, 0, i]);
    }
    assert_eq!(assemble(&source).unwrap(), expected);
    source.push_str("HLT");
    expected.push(0);
    assert_eq!(assemble(&source).unwrap(), expected);
    assert_eq!(expected.len(), 33);
    let seven = "LOAD r1 1\n".repeat(7) + "JMP r1\nHLT";
    assert_eq!(assemble(&seven).unwrap().len(), 32);
    assert_eq!(assemble(&seven).unwrap()[28..], [6, 1, 0, 0]);
}

#[test]
fn a_label_is_bound_to_the_offset_of_the_next_instruction() {
    let source = "start:\nLOAD r0 start\nmiddle:\nHLT\nJMP r0\nend:\nLOAD r1 middle\nLOAD r2 end";
    assert_eq!(
        assemble(source).unwrap(),
        padded(&[1, 0, 0, 0, 0, 6, 0, 1, 1, 0, 4, 1, 2, 0, 7])
    );
}

#[test]
fn a_label_can_be_used_before_it_is_defined() {
    let source = "LOAD r0 end\nLOAD r1 1\nADD r0 r1 r2\nend:\nHLT";
    let code = assemble(source).unwrap();
    assert_eq!(code, padded(&[1, 0, 0, 12, 1, 1, 0, 1, 2, 0, 1, 2, 0]));
    assert_eq!(code[12], 0);
    let mut vm = VM::new();
    vm.add_program(code);
    assert_eq!(vm.run(), Ok(()));
    assert_eq!(vm.get_register(0), Ok(12));
    assert_eq!(vm.pc(), 13);
}

#[test]
fn a_forward_jump_lands_on_its_label() {
    let source = "LOAD r0 skip\nJMP r0\nLOAD r1 111\nskip:\nLOAD r2 222\nHLT";
    let mut vm = VM::new();
    vm.add_program(assemble(source).unwrap());
    assert_eq!(vm.run(), Ok(()));
    assert_eq!(vm.get_register(0), Ok(10));
    assert_eq!(vm.get_register(1), Ok(0));
    assert_eq!(vm.get_register(2), Ok(222));
}

#[test]
fn the_last_binding_of_a_label_counts() {
    let source = "x:\nLOAD r0 x\nx:\nLOAD r1 x";
    assert_eq!(assemble(source).unwrap(), padded(&[1, 0, 0, 4, 1, 1, 0, 4]));
}

#[test]
fn a_label_goes_before_a_number_of_the_same_spelling() {
    let source = "HLT\n7:\nLOAD r0 7";
    assert_eq!(assemble(source).unwrap(), padded(&[0, 1, 0, 0, 1]));
}

#[test]
fn label_names_are_trimmed_and_may_hold_anything() {
    assert_eq!(assemble("HLT\nmy label :\nLOAD r0 x").is_err(), true);
    assert_eq!(assemble("HLT\na:b :\nLOAD r0 a:b").unwrap(), padded(&[0, 1, 0, 0, 1]));
    assert_eq!(assemble("HLT\nLOAD r0 1 :\nHLT").unwrap(), padded(&[0, 0]));
}

#[test]
fn an_unbound_label_is_a_syntax_error() {
    assert_eq!(syntax_error(assemble("LOAD r0 nowhere")), "Invalid value: nowhere");
}

#[test]
fn labels_stay_bound_for_the_next_source() {
    let mut a = Assembler::new();
    assert!(matches!(a.parse_value("end"), Err(AssemblerError::SyntaxError(_))));
    assert_eq!(a.compile("HLT\nHLT\nend:").unwrap(), padded(&[0, 0]));
    assert!(matches!(a.parse_value("end"), Ok(2)));
    assert_eq!(a.compile("LOAD r0 end").unwrap(), padded(&[1, 0, 0, 2]));
    assert_eq!(a.compile("LOAD r0 end\nend:").unwrap(), padded(&[1, 0, 0, 4]));
    assert!(matches!(a.parse_value("end"), Ok(4)));
}

#[test]
fn a_failed_first_pass_keeps_the_labels_it_got_to() {
    let mut a = Assembler::new();
    assert_eq!(unknown_instruction(a.compile("HLT\nbefore:\nFOO\nafter:")), "FOO");
    assert!(matches!(a.parse_value("before"), Ok(1)));
    assert!(matches!(a.parse_value("after"), Err(AssemblerError::SyntaxError(_))));
}

#[test]
fn a_failed_second_pass_keeps_all_labels() {
    let mut a = Assembler::new();
    assert_eq!(unknown_register(a.compile("ADD x y z\nafter:")), "x");
    assert!(matches!(a.parse_value("after"), Ok(4)));
}

#[test]
fn label_offsets_wrap_at_16_bits() {
    let mut source = "ADD r0 r0 r0\n".repeat(16384);
    source.push_str("far:\nHLT\nnear:\nLOAD r0 far\nLOAD r1 near");
    let code = assemble(&source).unwrap();
    assert_eq!(code.len(), 65536 + 1 + 8);
    assert_eq!(code[65537..], [1, 0, 0, 0, 1, 1, 0, 1]);
}

#[test]
fn messages_name_the_kind_and_quote_the_text() {
    assert_eq!(assemble("LOAD r1").unwrap_err().to_string(), "Syntax Error: Invalid LOAD instruction: LOAD r1");
    assert_eq!(assemble("LOAD r1 x").unwrap_err().to_string(), "Syntax Error: Invalid value: x");
    assert_eq!(assemble("FOO").unwrap_err().to_string(), "Unknown Instruction: FOO");
    assert_eq!(assemble("JMP r32").unwrap_err().to_string(), "Unknown Register: r32");
    assert_eq!(AssemblerError::LabelNotFound("x".to_string()).to_string(), "Label Not Found: x");
}

#[test]
fn classify_knows_the_eight_mnemonics_in_upper_case() {
    assert_eq!(classify("HLT"), Some(Opcode::HLT));
    assert_eq!(classify("LOAD"), Some(Opcode::LOAD));
    assert_eq!(classify("ADD"), Some(Opcode::ADD));
    assert_eq!(classify("SUB"), Some(Opcode::SUB));
    assert_eq!(classify("MUL"), Some(Opcode::MUL));
    assert_eq!(classify("DIV"), Some(Opcode::DIV));
    assert_eq!(classify("JMP"), Some(Opcode::JMP));
    assert_eq!(classify("JMPF"), Some(Opcode::JMPF));
    for other in ["", "hlt", "Load", "IGL", "HLTX", "JMPFF", "AD", "LOAD ", "\u{17f}UB"] {
        assert_eq!(classify(other), None);
    }
}

#[test]
fn statements_are_the_trimmed_lines_without_comments() {
    let source: Vec<char> = "  a b ; c\n\n;\nd:\r\n \u{a0} \ne;;\n f".chars().collect();
    assert_eq!(split_statements(&source), vec!["a b", "d:", "e", "f"]);
    assert_eq!(split_statements(&[]), Vec::<String>::new());
    assert_eq!(split_statements(&['\n']), Vec::<String>::new());
    assert_eq!(split_statements(&['x']), vec!["x"]);
}

#[test]
fn statements_agree_with_the_standard_line_functions() {
    let sources = [
        "LOAD r0 1\nHLT",
        "a\r\nb\r\n",
        "a\rb\nc\r",
        "\n\n\n",
        " x ;y\n;z\n  \nw:  ;\n",
        "one;two;three\nfour\n\nfive\u{2028}six\n\u{3000}seven\u{3000}",
        "tail\n",
        "tail",
        "",
    ];
    for source in sources {
        let expected: Vec<String> = source
            .lines()
            .map(|line| line.split(';').next().unwrap_or("").trim())
            .filter(|line| !line.is_empty())
            .map(|line| line.to_string())
            .collect();
        let chars: Vec<char> = source.chars().collect();
        assert_eq!(split_statements(&chars), expected);
    }
}

#[test]
fn assembling_and_running_a_load() {
    let code = assemble("LOAD r0 500").unwrap();
    let mut vm = VM::new();
    vm.add_program(code);
    assert_eq!(vm.run(), Ok(()));
    assert_eq!(vm.get_register(0), Ok(500));
}

#[test]
fn the_example_program_runs_to_its_results() {
    let source = "LOAD r0 10\nLOAD r1 5\nLOAD r2 3\nMUL r0 r1 r3\nADD r3 r2 r4\nSUB r4 r1 r5\nDIV r4 r2 r6\nHLT\n";
    let code = assemble(source).unwrap();
    assert_eq!(
        code,
        padded(&[
            1, 0, 0, 10, 1, 1, 0, 5, 1, 2, 0, 3, 4, 0, 1, 3, 2, 3, 2, 4, 3, 4, 1, 5, 5, 4, 2, 6, 0
        ])
    );
    let mut vm = VM::new();
    vm.add_program(code);
    assert_eq!(vm.run(), Ok(()));
    let expected = [10, 5, 3, 50, 53, 48, 17];
    for (i, value) in expected.iter().enumerate() {
        assert_eq!(vm.get_register(i), Ok(*value));
    }
    for i in 7..32 {
        assert_eq!(vm.get_register(i), Ok(0));
    }
    assert_eq!(vm.remainder(), 2);
    assert_eq!(vm.pc(), 29);
}

#[test]
fn the_commented_example_program_runs_to_its_results() {
    let source = r#"
    ; Complex program demonstrating multiple operations
    LOAD r0 10    ; Load initial value
    LOAD r1 5     ; Load second value
    LOAD r2 3     ; Load third value
    
    ; Multiply first two values
    MUL r0 r1 r3  ; r3 = r0 * r1
    
    ; Add the result to third value
    ADD r3 r2 r4  ; r4 = r3 + r2
    
    ; Subtract to verify
    SUB r4 r1 r5  ; r5 = r4 - r1
    
    ; Divide to finalize
    DIV r4 r2 r6  ; r6 = r4 / r2
    
    HLT           ; Halt the program
    "#;
    let mut vm = VM::new();
    vm.add_program(assemble(source).unwrap());
    assert_eq!(vm.run(), Ok(()));
    assert_eq!(vm.get_registers()[..7], [10, 5, 3, 50, 53, 48, 17]);
}

#[test]
fn assembled_division_by_zero_is_reported_by_the_machine() {
    let mut vm = VM::new();
    vm.add_program(assemble("LOAD r0 7\nLOAD r3 9\nDIV r0 r1 r3\nHLT").unwrap());
    assert_eq!(vm.run(), Err(VMError::DivisionByZero));
    assert_eq!(vm.get_register(3), Ok(9));
}
