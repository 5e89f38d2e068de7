use vm_project::vm::{Opcode, VMError};
use vm_project::VM;

fn machine(program: Vec<u8>) -> VM {
    let mut vm = VM::new();
    vm.add_program(program);
    vm
}

#[test]
fn new_machine_is_blank() {
    let vm = VM::new();
    assert_eq!(vm.get_registers(), &[0i32; 32]);
    assert_eq!(vm.pc(), 0);
    assert_eq!(vm.remainder(), 0);
}

#[test]
fn run_on_empty_program_is_ok() {
    let mut vm = VM::new();
    assert_eq!(vm.run(), Ok(()));
    assert_eq!(vm.pc(), 0);
}

#[test]
fn run_once_on_empty_program_is_out_of_bounds() {
    let mut vm = VM::new();
    assert_eq!(vm.run_once(), Err(VMError::ProgramCounterOutOfBounds));
    assert_eq!(vm.pc(), 0);
}

#[test]
fn halt_leaves_registers_zero_and_counter_at_one() {
    let mut vm = machine(vec![0]);
    assert_eq!(vm.run(), Ok(()));
    assert_eq!(vm.get_registers(), &[0i32; 32]);
    assert_eq!(vm.pc(), 1);
}

#[test]
fn run_stops_after_the_first_halt() {
    let mut vm = machine(vec![0, 1, 0, 0, 9]);
    assert_eq!(vm.run(), Ok(()));
    assert_eq!(vm.pc(), 1);
    assert_eq!(vm.get_register(0), Ok(0));
}

#[test]
fn run_once_says_false_on_halt_and_true_otherwise() {
    let mut vm = machine(vec![1, 2, 0, 7, 0]);
    assert_eq!(vm.run_once(), Ok(true));
    assert_eq!(vm.pc(), 4);
    assert_eq!(vm.get_register(2), Ok(7));
    assert_eq!(vm.run_once(), Ok(false));
    assert_eq!(vm.pc(), 5);
    assert_eq!(vm.run_once(), Err(VMError::ProgramCounterOutOfBounds));
    assert_eq!(vm.pc(), 5);
}

#[test]
fn invalid_opcode_fails_after_consuming_the_byte() {
    let mut vm = machine(vec![200]);
    assert_eq!(vm.run(), Err(VMError::InvalidOpcode));
    assert_eq!(vm.pc(), 1);
}

#[test]
fn eight_is_an_invalid_opcode() {
    let mut vm = machine(vec![8]);
    assert_eq!(vm.run_once(), Err(VMError::InvalidOpcode));
    assert_eq!(vm.pc(), 1);
}

#[test]
fn load_reads_the_value_high_byte_first() {
    let mut vm = machine(vec![1, 0, 1, 244, 0]);
    assert_eq!(vm.run(), Ok(()));
    assert_eq!(vm.get_register(0), Ok(500));
    assert_eq!(vm.pc(), 5);
}

#[test]
fn load_takes_the_largest_value_as_positive() {
    let mut vm = machine(vec![1, 31, 255, 255]);
    assert_eq!(vm.run(), Ok(()));
    assert_eq!(vm.get_register(31), Ok(65535));
}

#[test]
fn load_into_register_32_is_out_of_bounds() {
    let mut vm = machine(vec![1, 32, 0, 5]);
    assert_eq!(vm.run(), Err(VMError::RegisterOutOfBounds));
    assert_eq!(vm.pc(), 4);
    assert_eq!(vm.get_registers(), &[0i32; 32]);
}

#[test]
fn load_without_its_register_is_out_of_bounds() {
    let mut vm = machine(vec![1]);
    assert_eq!(vm.run(), Err(VMError::ProgramCounterOutOfBounds));
    assert_eq!(vm.pc(), 1);
}

#[test]
fn load_without_its_value_is_out_of_bounds() {
    let mut vm = machine(vec![1, 0]);
    assert_eq!(vm.run(), Err(VMError::ProgramCounterOutOfBounds));
    assert_eq!(vm.pc(), 2);
    let mut vm = machine(vec![1, 0, 1]);
    assert_eq!(vm.run(), Err(VMError::ProgramCounterOutOfBounds));
    assert_eq!(vm.pc(), 2);
}

#[test]
fn missing_value_is_reported_before_a_bad_register() {
    let mut vm = machine(vec![1, 99, 1]);
    assert_eq!(vm.run(), Err(VMError::ProgramCounterOutOfBounds));
}

#[test]
fn arithmetic_without_all_registers_is_out_of_bounds() {
    for len in 1..4usize {
        let mut vm = machine(vec![2, 0, 1, 2][..len].to_vec());
        assert_eq!(vm.run(), Err(VMError::ProgramCounterOutOfBounds));
        assert_eq!(vm.pc(), len);
    }
}

#[test]
fn arithmetic_with_a_bad_register_is_out_of_bounds() {
    for program in [vec![2, 32, 0, 0], vec![3, 0, 32, 0], vec![4, 0, 0, 32], vec![5, 0, 0, 255]] {
        let mut vm = machine(program);
        assert_eq!(vm.run(), Err(VMError::RegisterOutOfBounds));
        assert_eq!(vm.pc(), 4);
    }
}

#[test]
fn add_sub_mul_compute() {
    let mut vm = machine(vec![
        1, 0, 0, 10, 1, 1, 0, 3, 2, 0, 1, 2, 3, 0, 1, 3, 4, 0, 1, 4, 3, 1, 0, 5, 0,
    ]);
    assert_eq!(vm.run(), Ok(()));
    assert_eq!(vm.get_register(2), Ok(13));
    assert_eq!(vm.get_register(3), Ok(7));
    assert_eq!(vm.get_register(4), Ok(30));
    assert_eq!(vm.get_register(5), Ok(-7));
    assert_eq!(vm.remainder(), 0);
}

#[test]
fn mul_overflow_stores_zero() {
    // r0 = 65535, r1 = r0 * r0 (fits), r2 = 9, r2 = r1 * r0 (does not fit)
    let mut vm = machine(vec![1, 0, 255, 255, 1, 2, 0, 9, 4, 0, 0, 1, 4, 1, 0, 2, 0]);
    assert_eq!(vm.run(), Ok(()));
    assert_eq!(vm.get_register(0), Ok(65535));
    assert_eq!(vm.get_register(1), Ok(0));
    assert_eq!(vm.get_register(2), Ok(0));
}

#[test]
fn mul_just_below_overflow_is_exact() {
    // 65535 * 32767 = 2147385345 <= i32::MAX
    let mut vm = machine(vec![1, 0, 255, 255, 1, 1, 127, 255, 4, 0, 1, 2, 0]);
    assert_eq!(vm.run(), Ok(()));
    assert_eq!(vm.get_register(2), Ok(2147385345));
}

#[test]
fn add_overflow_stores_zero() {
    // r2 = 65535 * 32767 = 2147385345; r3 = 2 * 65535 = 131070; r4 = 7; r4 = r2 + r3 overflows
    let mut vm = machine(vec![
        1, 0, 255, 255, 1, 1, 127, 255, 4, 0, 1, 2, 2, 0, 0, 3, 1, 4, 0, 7, 2, 2, 3, 4, 0,
    ]);
    assert_eq!(vm.run(), Ok(()));
    assert_eq!(vm.get_register(3), Ok(131070));
    assert_eq!(vm.get_register(4), Ok(0));
}

#[test]
fn add_up_to_the_largest_value_is_exact() {
    // r2 = 2147385345, r3 = 65535, r5 = 32767: r2 + r3 + r5 = 2147483647
    let mut vm = machine(vec![
        1, 0, 255, 255, 1, 1, 127, 255, 4, 0, 1, 2, 2, 2, 0, 6, 2, 6, 1, 7, 0,
    ]);
    assert_eq!(vm.run(), Ok(()));
    assert_eq!(vm.get_register(7), Ok(i32::MAX));
}

#[test]
fn sub_underflow_stores_zero() {
    // r2 = 2147385345; r3 = 0 - r2; r4 = 5; r4 = r3 - r2 underflows
    let mut vm = machine(vec![
        1, 0, 255, 255, 1, 1, 127, 255, 4, 0, 1, 2, 3, 9, 2, 3, 1, 4, 0, 5, 3, 3, 2, 4, 0,
    ]);
    assert_eq!(vm.run(), Ok(()));
    assert_eq!(vm.get_register(3), Ok(-2147385345));
    assert_eq!(vm.get_register(4), Ok(0));
}

#[test]
fn div_stores_quotient_and_records_remainder() {
    let mut vm = machine(vec![1, 4, 0, 53, 1, 2, 0, 3, 5, 4, 2, 6, 0]);
    assert_eq!(vm.run(), Ok(()));
    assert_eq!(vm.get_register(6), Ok(17));
    assert_eq!(vm.remainder(), 2);
}

#[test]
fn div_rounds_towards_zero_and_the_remainder_keeps_the_sign() {
    // r0 = 7, r1 = 2, r2 = 0 - r0 = -7, r3 = r2 / r1 = -3, remainder -1 as 32 bits
    let mut vm = machine(vec![1, 0, 0, 7, 1, 1, 0, 2, 3, 9, 0, 2, 5, 2, 1, 3, 0]);
    assert_eq!(vm.run(), Ok(()));
    assert_eq!(vm.get_register(2), Ok(-7));
    assert_eq!(vm.get_register(3), Ok(-3));
    assert_eq!(vm.remainder(), u32::MAX);
    assert_eq!(vm.remainder(), (-7i32 % 2) as u32);
}

#[test]
fn div_by_a_negative_divisor() {
    // r0 = 7, r1 = 2, r2 = -2, r3 = 7 / -2 = -3 remainder 1; r4 = -7, r5 = -7 / -2 = 3 remainder -1
    let mut vm = machine(vec![
        1, 0, 0, 7, 1, 1, 0, 2, 3, 9, 1, 2, 5, 0, 2, 3, 0, 3, 9, 0, 4, 5, 4, 2, 5, 0,
    ]);
    assert_eq!(vm.run(), Ok(()));
    assert_eq!(vm.get_register(3), Ok(-3));
    assert_eq!(vm.remainder(), 1);
    assert_eq!(vm.pc(), 17);
    assert_eq!(vm.run(), Ok(()));
    assert_eq!(vm.get_register(5), Ok(3));
    assert_eq!(vm.remainder(), (-7i32 % -2) as u32);
}

#[test]
fn div_by_zero_fails_and_leaves_the_destination() {
    let mut vm = machine(vec![1, 0, 0, 7, 1, 3, 0, 9, 5, 0, 1, 3, 0]);
    assert_eq!(vm.run(), Err(VMError::DivisionByZero));
    assert_eq!(vm.get_register(3), Ok(9));
    assert_eq!(vm.get_register(0), Ok(7));
    assert_eq!(vm.remainder(), 0);
    assert_eq!(vm.pc(), 12);
}

#[test]
fn div_by_zero_keeps_an_earlier_remainder() {
    let mut vm = machine(vec![1, 0, 0, 7, 1, 1, 0, 2, 5, 0, 1, 3, 5, 0, 4, 3, 0]);
    assert_eq!(vm.run(), Err(VMError::DivisionByZero));
    assert_eq!(vm.get_register(3), Ok(3));
    assert_eq!(vm.remainder(), 1);
}

#[test]
fn div_of_the_smallest_value_by_minus_one_stores_zero() {
    // r0 = 32768, r1 = 256, r2 = r1 * r1 = 65536, r3 = 0 - r0, r4 = r3 * r2 = i32::MIN,
    // r5 = 1, r6 = 0 - r5 = -1, r7 = 5, r7 = r4 / r6
    let mut vm = machine(vec![
        1, 0, 128, 0, 1, 1, 1, 0, 4, 1, 1, 2, 3, 9, 0, 3, 4, 3, 2, 4, 1, 5, 0, 1, 3, 9, 5, 6, 1, 7,
        0, 5, 5, 4, 6, 7, 0,
    ]);
    assert_eq!(vm.run(), Ok(()));
    assert_eq!(vm.get_register(4), Ok(i32::MIN));
    assert_eq!(vm.get_register(6), Ok(-1));
    assert_eq!(vm.get_register(7), Ok(0));
    assert_eq!(vm.remainder(), 0);
}

#[test]
fn jmp_moves_to_the_position_in_the_register() {
    // 0: LOAD r0 9; 4: JMP r0; 6: IGL; 9: LOAD r1 1; 13: HLT
    let mut vm = machine(vec![1, 0, 0, 9, 6, 0, 99, 99, 99, 1, 1, 0, 1, 0]);
    assert_eq!(vm.run(), Ok(()));
    assert_eq!(vm.get_register(1), Ok(1));
    assert_eq!(vm.pc(), 14);
}

#[test]
fn jmp_beyond_the_program_shows_at_the_next_fetch() {
    let mut vm = machine(vec![1, 0, 0, 200, 6, 0, 0]);
    assert_eq!(vm.run_once(), Ok(true));
    assert_eq!(vm.run_once(), Ok(true));
    assert_eq!(vm.pc(), 200);
    assert_eq!(vm.run_once(), Err(VMError::ProgramCounterOutOfBounds));
    assert_eq!(vm.pc(), 200);
    assert_eq!(vm.run(), Ok(()));
}

#[test]
fn jmp_to_a_negative_value_leaves_the_program() {
    // r0 = 1, r1 = 0 - r0 = -1, JMP r1
    let mut vm = machine(vec![1, 0, 0, 1, 3, 9, 0, 1, 6, 1, 0]);
    assert_eq!(vm.run(), Ok(()));
    assert_eq!(vm.pc(), usize::MAX);
    assert_eq!(vm.pc(), -1i32 as usize);
}

#[test]
fn jmp_without_its_register_is_out_of_bounds() {
    let mut vm = machine(vec![6]);
    assert_eq!(vm.run(), Err(VMError::ProgramCounterOutOfBounds));
    assert_eq!(vm.pc(), 1);
}

#[test]
fn jmp_with_a_bad_register_is_out_of_bounds() {
    let mut vm = machine(vec![6, 32, 0]);
    assert_eq!(vm.run(), Err(VMError::RegisterOutOfBounds));
    assert_eq!(vm.pc(), 2);
    let mut vm = machine(vec![7, 40, 0]);
    assert_eq!(vm.run(), Err(VMError::RegisterOutOfBounds));
    assert_eq!(vm.pc(), 2);
}

#[test]
fn jmpf_moves_forward_by_the_register() {
    // 0: LOAD r0 3; 4: JMPF r0; 6..8: IGL; 9: LOAD r1 1; 13: HLT
    let mut vm = machine(vec![1, 0, 0, 3, 7, 0, 99, 99, 99, 1, 1, 0, 1, 0]);
    assert_eq!(vm.run(), Ok(()));
    assert_eq!(vm.get_register(1), Ok(1));
    assert_eq!(vm.pc(), 14);
}

#[test]
fn jmpf_by_zero_goes_on_with_the_next_instruction() {
    let mut vm = machine(vec![7, 0, 1, 1, 0, 4, 0]);
    assert_eq!(vm.run(), Ok(()));
    assert_eq!(vm.get_register(1), Ok(4));
}

#[test]
fn jmpf_by_a_negative_value_goes_no_further_than_the_last_position() {
    let mut vm = machine(vec![1, 0, 0, 1, 3, 9, 0, 1, 7, 1, 0]);
    assert_eq!(vm.run(), Ok(()));
    assert_eq!(vm.pc(), usize::MAX);
}

#[test]
fn a_program_that_loops_can_be_stepped() {
    // 0: LOAD r0 0; 4: JMP r0
    let mut vm = machine(vec![1, 0, 0, 0, 6, 0]);
    for _ in 0..100 {
        assert_eq!(vm.run_once(), Ok(true));
    }
    assert!(vm.pc() == 0 || vm.pc() == 4);
}

#[test]
fn get_register_checks_the_index() {
    let vm = machine(vec![0]);
    assert_eq!(vm.get_register(31), Ok(0));
    assert_eq!(vm.get_register(32), Err(VMError::RegisterOutOfBounds));
    assert_eq!(vm.get_register(usize::MAX), Err(VMError::RegisterOutOfBounds));
}

#[test]
fn add_program_resets_everything() {
    let mut vm = machine(vec![1, 0, 0, 7, 1, 1, 0, 2, 5, 0, 1, 3, 0]);
    assert_eq!(vm.run(), Ok(()));
    assert_eq!(vm.remainder(), 1);
    vm.add_program(vec![0]);
    assert_eq!(vm.get_registers(), &[0i32; 32]);
    assert_eq!(vm.pc(), 0);
    assert_eq!(vm.remainder(), 0);
    assert_eq!(vm.run(), Ok(()));
    assert_eq!(vm.pc(), 1);
}

#[test]
fn reset_keeps_the_program() {
    let mut vm = machine(vec![1, 0, 0, 7, 1, 1, 0, 2, 5, 0, 1, 3, 0]);
    assert_eq!(vm.run(), Ok(()));
    vm.reset();
    assert_eq!(vm.get_registers(), &[0i32; 32]);
    assert_eq!(vm.pc(), 0);
    assert_eq!(vm.remainder(), 0);
    assert_eq!(vm.run(), Ok(()));
    assert_eq!(vm.get_register(3), Ok(3));
}

#[test]
fn a_fault_keeps_what_was_written_before() {
    let mut vm = machine(vec![1, 0, 0, 7, 1, 1, 0, 2, 200]);
    assert_eq!(vm.run(), Err(VMError::InvalidOpcode));
    assert_eq!(vm.get_register(0), Ok(7));
    assert_eq!(vm.get_register(1), Ok(2));
    assert_eq!(vm.pc(), 9);
}

#[test]
fn stepping_and_running_agree() {
    let program = vec![1, 0, 0, 10, 1, 1, 0, 5, 4, 0, 1, 3, 5, 3, 1, 4, 2, 4, 40, 0, 0];
    let mut run = machine(program.clone());
    let verdict = run.run();
    let mut step = machine(program);
    let stepped = loop {
        if step.pc() >= 21 {
            break Ok(());
        }
        match step.run_once() {
            Ok(true) => {}
            Ok(false) => break Ok(()),
            Err(e) => break Err(e),
        }
    };
    assert_eq!(verdict, Err(VMError::RegisterOutOfBounds));
    assert_eq!(stepped, verdict);
    assert_eq!(step.get_registers(), run.get_registers());
    assert_eq!(step.pc(), run.pc());
    assert_eq!(step.remainder(), run.remainder());
}

#[test]
fn opcode_from_every_byte() {
    let named = [
        Opcode::HLT,
        Opcode::LOAD,
        Opcode::ADD,
        Opcode::SUB,
        Opcode::MUL,
        Opcode::DIV,
        Opcode::JMP,
        Opcode::JMPF,
    ];
    for byte in 0..=255u8 {
        let op = Opcode::from(byte);
        if byte < 8 {
            assert_eq!(op, named[byte as usize]);
            assert_eq!(op.byte(), byte);
        } else {
            assert_eq!(op, Opcode::IGL);
        }
    }
    assert_eq!(Opcode::from(Opcode::IGL.byte()), Opcode::IGL);
}

#[test]
fn opcode_sizes() {
    assert_eq!(Opcode::HLT.size(), 1);
    assert_eq!(Opcode::LOAD.size(), 4);
    assert_eq!(Opcode::ADD.size(), 4);
    assert_eq!(Opcode::SUB.size(), 4);
    assert_eq!(Opcode::MUL.size(), 4);
    assert_eq!(Opcode::DIV.size(), 4);
    assert_eq!(Opcode::JMP.size(), 2);
    assert_eq!(Opcode::JMPF.size(), 2);
}

#[test]
fn vm_error_messages() {
    assert_eq!(VMError::ProgramCounterOutOfBounds.to_string(), "Program counter out of bounds");
    assert_eq!(VMError::DivisionByZero.to_string(), "Division by zero");
    assert_eq!(VMError::RegisterOutOfBounds.to_string(), "Register index out of bounds");
    assert_eq!(VMError::InvalidOpcode.to_string(), "Encountered invalid opcode");
}

#[test]
fn run_for_stops_where_run_stops() {
    let program = vec![1, 0, 0, 10, 1, 1, 0, 5, 4, 0, 1, 3, 0, 9];
    let mut run = machine(program.clone());
    assert_eq!(run.run(), Ok(()));
    for limit in 4..10 {
        let mut bounded = machine(program.clone());
        assert_eq!(bounded.run_for(limit), Some(Ok(())));
        assert_eq!(bounded.pc(), run.pc());
        assert_eq!(bounded.get_registers(), run.get_registers());
    }
}

#[test]
fn run_for_says_none_when_the_steps_run_out() {
    let program = vec![1, 0, 0, 10, 1, 1, 0, 5, 4, 0, 1, 3, 0];
    let mut vm = machine(program);
    assert_eq!(vm.run_for(0), None);
    assert_eq!(vm.pc(), 0);
    assert_eq!(vm.run_for(2), None);
    assert_eq!(vm.pc(), 8);
    assert_eq!(vm.get_register(1), Ok(5));
    assert_eq!(vm.run_for(1), None);
    assert_eq!(vm.pc(), 12);
    assert_eq!(vm.run_for(1), Some(Ok(())));
    assert_eq!(vm.pc(), 13);
    assert_eq!(vm.run_for(0), Some(Ok(())));
}

#[test]
fn run_for_reports_the_first_error() {
    let mut vm = machine(vec![1, 0, 0, 10, 5, 0, 1, 2, 0]);
    assert_eq!(vm.run_for(1), None);
    assert_eq!(vm.run_for(1), Some(Err(VMError::DivisionByZero)));
    assert_eq!(vm.pc(), 8);
}

#[test]
fn run_for_ends_a_loop() {
    let mut vm = machine(vec![1, 0, 0, 0, 6, 0]);
    assert_eq!(vm.run_for(1001), None);
    assert_eq!(vm.pc(), 4);
    assert_eq!(vm.run_for(1000), None);
    assert_eq!(vm.pc(), 4);
}

#[test]
fn run_for_on_an_empty_program_is_done_at_once() {
    let mut vm = VM::new();
    assert_eq!(vm.run_for(0), Some(Ok(())));
    assert_eq!(vm.run_for(7), Some(Ok(())));
}
