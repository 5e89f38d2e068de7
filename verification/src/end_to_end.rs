//! The assembler and the machine together: what the one writes, the other
//! reads.

use vstd::prelude::*;
use crate::grammar::{
    assembled, bound, emitted, encode, first_rejected, is_label, label_name, lemma_encode_size,
    lemma_first_rejected, lemma_first_unknown, lemma_label_resolves, lemma_offset_is_position,
    lemma_padded, operation, padded, register, registers, statements, value,
};
use crate::text::words;
use crate::vm::{
    fit_or_zero, lemma_decode_byte, lemma_straight_halts, straight, Machine, Opcode, VMError,
};

verus! {

/// A source in which no instruction is a jump.
pub open spec fn without_jumps(src: Seq<char>) -> bool {
    forall|i: int|
        0 <= i < statements(src).len() ==> is_label(#[trigger] statements(src)[i]) || (operation(
            statements(src)[i],
        ) != Some(Opcode::JMP) && operation(statements(src)[i]) != Some(Opcode::JMPF))
}

/// What was emitted for the first `k` statements stays in front of what is
/// emitted for more.
pub proof fn lemma_emitted_grows(
    symbols: Map<Seq<char>, u16>,
    lines: Seq<Seq<char>>,
    k: int,
    n: int,
)
    requires
        0 <= k <= n <= lines.len(),
    ensures
        emitted(symbols, lines, k).len() <= emitted(symbols, lines, n).len(),
        emitted(symbols, lines, n).take(emitted(symbols, lines, k).len() as int) == emitted(
            symbols,
            lines,
            k,
        ),
    decreases n - k,
{
    if k < n {
        lemma_emitted_grows(symbols, lines, k, n - 1);
    }
}

/// Zero bytes to the end are HLT after HLT: no jump among them.
pub proof fn lemma_zeros_are_straight(program: Seq<u8>, pc: int)
    requires
        forall|i: int| pc <= i < program.len() && 0 <= i ==> program[i] == 0,
    ensures
        straight(program, pc),
    decreases program.len() - pc,
{
    if 0 <= pc < program.len() {
        lemma_zeros_are_straight(program, pc + 1);
    }
}

/// The bytecode of a source without jumps holds no jump, read from the
/// bytecode of any of its statements on.
proof fn lemma_emitted_is_straight(
    symbols: Map<Seq<char>, u16>,
    lines: Seq<Seq<char>>,
    k: int,
)
    requires
        0 <= k <= lines.len(),
        first_rejected(symbols, lines, 0) == lines.len(),
        forall|i: int|
            0 <= i < lines.len() ==> is_label(#[trigger] lines[i]) || (operation(lines[i]) != Some(
                Opcode::JMP,
            ) && operation(lines[i]) != Some(Opcode::JMPF)),
    ensures
        straight(
            padded(emitted(symbols, lines, lines.len() as int)),
            emitted(symbols, lines, k).len() as int,
        ),
    decreases lines.len() - k,
{
    let n = lines.len() as int;
    let whole = emitted(symbols, lines, n);
    let code = padded(whole);
    let here = emitted(symbols, lines, k);
    if k == n {
        lemma_zeros_are_straight(code, here.len() as int);
    } else {
        lemma_emitted_is_straight(symbols, lines, k + 1);
        lemma_first_rejected(symbols, lines, 0);
        if !is_label(lines[k]) {
            let bytes = encode(symbols, lines[k])->Ok_0;
            let op = operation(lines[k])->Some_0;
            lemma_encode_size(symbols, lines[k]);
            lemma_decode_byte(op);
            lemma_emitted_grows(symbols, lines, k + 1, n);
            let next = emitted(symbols, lines, k + 1);
            assert(next[here.len() as int] == bytes[0]);
        }
    }
}

/// The bytecode of a source without jumps is a program that stops: run from
/// its start, the machine reaches HLT, the end, or an error.
pub proof fn lemma_assembled_without_jumps_halts(symbols: Map<Seq<char>, u16>, src: Seq<char>)
    requires
        assembled(symbols, src) is Ok,
        without_jumps(src),
    ensures
        straight(assembled(symbols, src)->Ok_0, 0),
        Machine::loaded(assembled(symbols, src)->Ok_0).halts(),
{
    let lines = statements(src);
    let table = bound(symbols, lines, lines.len() as int);
    lemma_first_unknown(lines, 0);
    lemma_first_rejected(table, lines, 0);
    lemma_emitted_is_straight(table, lines, 0);
    lemma_straight_halts(Machine::loaded(assembled(symbols, src)->Ok_0));
}

/// What the assembler writes for LOAD, the machine reads as LOAD: a step in
/// front of the bytecode of a LOAD statement puts the value of the second
/// operand into the register of the first, and moves behind the instruction.
pub proof fn lemma_load_round_trip(symbols: Map<Seq<char>, u16>, statement: Seq<char>, m: Machine)
    requires
        operation(statement) == Some(Opcode::LOAD),
        encode(symbols, statement) is Ok,
        m.wf(),
        m.pc + 4 <= m.program.len(),
        m.program.subrange(m.pc, m.pc + 4) == encode(symbols, statement)->Ok_0,
    ensures
        register(words(statement)[1]) is Some,
        value(symbols, words(statement)[2]) is Some,
        m.step() == (
            m.at(m.pc + 4).with_register(
                register(words(statement)[1])->Some_0 as int,
                value(symbols, words(statement)[2])->Some_0 as i32,
            ),
            Ok::<bool, VMError>(true),
        ),
{
    let bytes = encode(symbols, statement)->Ok_0;
    assert forall|i: int| 0 <= i < 4 implies m.program[m.pc + i] == bytes[i] by {}
}

/// A label can be used before it is bound: a LOAD whose second operand is a
/// label that a later statement binds, and none after that, loads the
/// position of that statement's bytecode in the bytecode of the source, as
/// far as 16 bits hold it.
pub proof fn lemma_forward_label_is_loaded(
    symbols: Map<Seq<char>, u16>,
    src: Seq<char>,
    user: int,
    binder: int,
    m: Machine,
)
    requires
        assembled(symbols, src) is Ok,
        0 <= user < binder < statements(src).len(),
        operation(statements(src)[user]) == Some(Opcode::LOAD),
        !is_label(statements(src)[user]),
        is_label(statements(src)[binder]),
        words(statements(src)[user]).len() >= 3,
        words(statements(src)[user])[2] == label_name(statements(src)[binder]),
        forall|j: int|
            binder < j < statements(src).len() && is_label(#[trigger] statements(src)[j])
                ==> label_name(statements(src)[j]) != label_name(statements(src)[binder]),
        m.wf(),
        m.program == assembled(symbols, src)->Ok_0,
        m.pc == emitted(
            bound(symbols, statements(src), statements(src).len() as int),
            statements(src),
            user,
        ).len(),
    ensures
        register(words(statements(src)[user])[1]) is Some,
        m.step() == (
            m.at(m.pc + 4).with_register(
                register(words(statements(src)[user])[1])->Some_0 as int,
                (emitted(
                    bound(symbols, statements(src), statements(src).len() as int),
                    statements(src),
                    binder,
                ).len() % 0x1_0000) as i32,
            ),
            Ok::<bool, VMError>(true),
        ),
{
    let lines = statements(src);
    let n = lines.len() as int;
    let table = bound(symbols, lines, n);
    let whole = emitted(table, lines, n);
    let here = emitted(table, lines, user);
    let next = emitted(table, lines, user + 1);
    lemma_first_unknown(lines, 0);
    lemma_first_rejected(table, lines, 0);
    lemma_label_resolves(symbols, lines, binder);
    lemma_offset_is_position(table, lines, binder);
    lemma_encode_size(table, lines[user]);
    lemma_emitted_grows(table, lines, user + 1, n);
    lemma_padded(whole);
    let bytes = encode(table, lines[user])->Ok_0;
    assert(m.program.subrange(m.pc, m.pc + 4) =~= bytes) by {
        assert forall|i: int| 0 <= i < 4 implies m.program[m.pc + i] == bytes[i] by {
            assert(m.program[m.pc + i] == whole[m.pc + i]);
            assert(whole.take(next.len() as int)[m.pc + i] == next[m.pc + i]);
        }
    }
    lemma_load_round_trip(table, lines[user], m);
}

/// What the assembler writes for ADD, SUB and MUL, the machine reads as
/// such: a step in front of the bytecode of such a statement stores the sum,
/// the difference or the product of the first two registers in the third,
/// zero where it does not fit, and moves behind the instruction.
pub proof fn lemma_arithmetic_round_trip(
    symbols: Map<Seq<char>, u16>,
    statement: Seq<char>,
    m: Machine,
)
    requires
        operation(statement) matches Some(op) && (op == Opcode::ADD || op == Opcode::SUB || op
            == Opcode::MUL),
        encode(symbols, statement) is Ok,
        m.wf(),
        m.pc + 4 <= m.program.len(),
        m.program.subrange(m.pc, m.pc + 4) == encode(symbols, statement)->Ok_0,
    ensures
        register(words(statement)[1]) is Some,
        register(words(statement)[2]) is Some,
        register(words(statement)[3]) is Some,
        ({
            let x = m.registers[register(words(statement)[1])->Some_0 as int] as int;
            let y = m.registers[register(words(statement)[2])->Some_0 as int] as int;
            let target = register(words(statement)[3])->Some_0 as int;
            let result = match operation(statement)->Some_0 {
                Opcode::ADD => x + y,
                Opcode::SUB => x - y,
                _ => x * y,
            };
            m.step() == (
                m.at(m.pc + 4).with_register(target, fit_or_zero(result)),
                Ok::<bool, VMError>(true),
            )
        }),
{
    reveal_with_fuel(registers, 4);
    let bytes = encode(symbols, statement)->Ok_0;
    let op = operation(statement)->Some_0;
    let tokens = words(statement);
    lemma_decode_byte(op);
    assert(bytes =~= seq![
        op.byte(),
        register(tokens[1])->Some_0,
        register(tokens[2])->Some_0,
        register(tokens[3])->Some_0,
    ]);
    assert forall|i: int| 0 <= i < 4 implies m.program[m.pc + i] == bytes[i] by {}
}

} // verus!
