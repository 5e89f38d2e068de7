//! A register machine that executes fixed-width bytecode.
//!
//! The machine is described twice: as a mathematical value, [`Machine`], with
//! a transition function [`Machine::step`], and as the executable [`VM`],
//! whose methods are proved to follow that function exactly.

use vstd::prelude::*;
use vstd::string::*;

verus! {

/// The operations of the machine. `IGL` stands for every byte that names none.
#[derive(Debug, PartialEq, Eq, Clone, Copy, Structural)]
pub enum Opcode {
    HLT,
    IGL,
    LOAD,
    ADD,
    SUB,
    MUL,
    DIV,
    JMP,
    JMPF,
}

/// The ways in which a step of the machine can fail.
#[derive(Debug, PartialEq, Eq, Clone, Copy, Structural)]
pub enum VMError {
    ProgramCounterOutOfBounds,
    DivisionByZero,
    RegisterOutOfBounds,
    InvalidOpcode,
}

impl VMError {
    /// The message that describes the error.
    pub open spec fn message(self) -> Seq<char> {
        match self {
            VMError::ProgramCounterOutOfBounds => "Program counter out of bounds"@,
            VMError::DivisionByZero => "Division by zero"@,
            VMError::RegisterOutOfBounds => "Register index out of bounds"@,
            VMError::InvalidOpcode => "Encountered invalid opcode"@,
        }
    }

    /// The message that describes the error.
    pub fn to_string(&self) -> (r: String)
        ensures
            r@ == self.message(),
    {
        match self {
            VMError::ProgramCounterOutOfBounds => String::from_str("Program counter out of bounds"),
            VMError::DivisionByZero => String::from_str("Division by zero"),
            VMError::RegisterOutOfBounds => String::from_str("Register index out of bounds"),
            VMError::InvalidOpcode => String::from_str("Encountered invalid opcode"),
        }
    }
}

/// The operation that an opcode byte names.
pub open spec fn decode(byte: u8) -> Opcode {
    if byte == 0 {
        Opcode::HLT
    } else if byte == 1 {
        Opcode::LOAD
    } else if byte == 2 {
        Opcode::ADD
    } else if byte == 3 {
        Opcode::SUB
    } else if byte == 4 {
        Opcode::MUL
    } else if byte == 5 {
        Opcode::DIV
    } else if byte == 6 {
        Opcode::JMP
    } else if byte == 7 {
        Opcode::JMPF
    } else {
        Opcode::IGL
    }
}

impl From<u8> for Opcode {
    fn from(v: u8) -> (op: Opcode) {
        match v {
            0 => Opcode::HLT,
            1 => Opcode::LOAD,
            2 => Opcode::ADD,
            3 => Opcode::SUB,
            4 => Opcode::MUL,
            5 => Opcode::DIV,
            6 => Opcode::JMP,
            7 => Opcode::JMPF,
            _ => Opcode::IGL,
        }
    }
}

impl Opcode {
    /// The byte that names this operation in bytecode. `IGL` names no
    /// operation; the byte given for it is one of those that decode to it.
    pub open spec fn spec_byte(self) -> u8 {
        match self {
            Opcode::HLT => 0,
            Opcode::LOAD => 1,
            Opcode::ADD => 2,
            Opcode::SUB => 3,
            Opcode::MUL => 4,
            Opcode::DIV => 5,
            Opcode::JMP => 6,
            Opcode::JMPF => 7,
            Opcode::IGL => 255,
        }
    }

    /// The byte that names this operation in bytecode.
    #[verifier::when_used_as_spec(spec_byte)]
    pub fn byte(self) -> (r: u8)
        ensures
            r == self.spec_byte(),
    {
        match self {
            Opcode::HLT => 0,
            Opcode::LOAD => 1,
            Opcode::ADD => 2,
            Opcode::SUB => 3,
            Opcode::MUL => 4,
            Opcode::DIV => 5,
            Opcode::JMP => 6,
            Opcode::JMPF => 7,
            Opcode::IGL => 255,
        }
    }

    /// How many bytes an instruction with this operation takes: the opcode
    /// byte and its operands.
    pub open spec fn spec_size(self) -> usize {
        match self {
            Opcode::HLT | Opcode::IGL => 1,
            Opcode::JMP | Opcode::JMPF => 2,
            _ => 4,
        }
    }

    /// How many bytes an instruction with this operation takes.
    #[verifier::when_used_as_spec(spec_size)]
    pub fn size(self) -> (r: usize)
        ensures
            r == self.spec_size(),
    {
        match self {
            Opcode::HLT | Opcode::IGL => 1,
            Opcode::JMP | Opcode::JMPF => 2,
            _ => 4,
        }
    }
}

/// Every operation is what its own byte decodes to.
pub proof fn lemma_decode_byte(op: Opcode)
    ensures
        decode(op.byte()) == op,
{
}

impl vstd::std_specs::convert::FromSpecImpl<u8> for Opcode {
    open spec fn obeys_from_spec() -> bool {
        true
    }

    open spec fn from_spec(v: u8) -> Opcode {
        decode(v)
    }
}

/// `value` where it fits a register, zero where it does not.
pub open spec fn fit_or_zero(value: int) -> i32 {
    if i32::MIN <= value <= i32::MAX {
        value as i32
    } else {
        0
    }
}

/// The quotient of `a` by `b` rounded towards zero, for `b != 0`.
pub open spec fn quotient(a: int, b: int) -> int {
    let magnitude = (if a < 0 { -a } else { a }) / (if b < 0 { -b } else { b });
    if (a < 0) == (b < 0) {
        magnitude
    } else {
        -magnitude
    }
}

/// What is left of `a` after the division by `b` that [`quotient`] makes: it
/// has the sign of `a`.
pub open spec fn leftover(a: int, b: int) -> int {
    let magnitude = (if a < 0 { -a } else { a }) % (if b < 0 { -b } else { b });
    if a < 0 {
        -magnitude
    } else {
        magnitude
    }
}

/// The 32 bits of a signed value read as an unsigned one.
pub open spec fn unsigned_bits(value: i32) -> u32 {
    if value >= 0 {
        value as u32
    } else {
        (value + 0x1_0000_0000) as u32
    }
}

/// A register's value read as a program position: the value itself where it
/// is not negative, and otherwise the position that the sign-extended bits
/// spell, which lies beyond any program.
pub open spec fn position_of(value: i32) -> int {
    if value >= 0 {
        value as int
    } else {
        value + usize::MAX + 1
    }
}

/// The machine as a mathematical value.
pub struct Machine {
    pub registers: Seq<i32>,
    pub pc: int,
    pub program: Seq<u8>,
    pub remainder: u32,
}

impl Machine {
    /// What every machine that a [`VM`] stands for satisfies.
    pub open spec fn wf(self) -> bool {
        &&& self.registers.len() == 32
        &&& 0 <= self.pc <= usize::MAX
        &&& self.program.len() <= usize::MAX
    }

    /// The machine right after `program` was loaded.
    pub open spec fn loaded(program: Seq<u8>) -> Machine {
        Machine { registers: Seq::new(32, |i: int| 0i32), pc: 0, program, remainder: 0 }
    }

    /// This machine with the program counter moved to `pc`.
    pub open spec fn at(self, pc: int) -> Machine {
        Machine { pc, ..self }
    }

    /// This machine with `value` stored in register `index`.
    pub open spec fn with_register(self, index: int, value: i32) -> Machine {
        Machine { registers: self.registers.update(index, value), ..self }
    }

    /// LOAD, with its operands at `at`: a register byte and a 16-bit value,
    /// high byte first. Missing operand bytes are reported before a register
    /// out of range.
    pub open spec fn load(self, at: int) -> (Machine, Result<bool, VMError>) {
        if at >= self.program.len() {
            (self.at(at), Err(VMError::ProgramCounterOutOfBounds))
        } else if at + 2 >= self.program.len() {
            (self.at(at + 1), Err(VMError::ProgramCounterOutOfBounds))
        } else if self.program[at] >= 32 {
            (self.at(at + 3), Err(VMError::RegisterOutOfBounds))
        } else {
            let value = self.program[at + 1] * 256 + self.program[at + 2];
            (self.at(at + 3).with_register(self.program[at] as int, value as i32), Ok(true))
        }
    }

    /// ADD, SUB, MUL or DIV, with three register bytes at `at`: two sources
    /// and the destination. A result that does not fit a register is stored
    /// as zero. DIV with a zero divisor changes no register; otherwise it
    /// also records what the division left over.
    pub open spec fn arithmetic(self, op: Opcode, at: int) -> (Machine, Result<bool, VMError>) {
        if at + 3 > self.program.len() {
            (self.at(self.program.len() as int), Err(VMError::ProgramCounterOutOfBounds))
        } else if self.program[at] >= 32 || self.program[at + 1] >= 32 || self.program[at + 2]
            >= 32 {
            (self.at(at + 3), Err(VMError::RegisterOutOfBounds))
        } else {
            let x = self.registers[self.program[at] as int];
            let y = self.registers[self.program[at + 1] as int];
            let target = self.program[at + 2] as int;
            let next = self.at(at + 3);
            match op {
                Opcode::ADD => (next.with_register(target, fit_or_zero(x + y)), Ok(true)),
                Opcode::SUB => (next.with_register(target, fit_or_zero(x - y)), Ok(true)),
                Opcode::MUL => (next.with_register(target, fit_or_zero(x * y)), Ok(true)),
                _ => if y == 0 {
                    (next, Err(VMError::DivisionByZero))
                } else {
                    (
                        Machine {
                            remainder: unsigned_bits(leftover(x as int, y as int) as i32),
                            ..next.with_register(target, fit_or_zero(quotient(x as int, y as int)))
                        },
                        Ok(true),
                    )
                },
            }
        }
    }

    /// JMP or JMPF, with one register byte at `at`. JMP moves to the position
    /// that the register holds. JMPF moves forward by it, and no further than
    /// the largest position there is.
    pub open spec fn jump(self, op: Opcode, at: int) -> (Machine, Result<bool, VMError>) {
        if at >= self.program.len() {
            (self.at(at), Err(VMError::ProgramCounterOutOfBounds))
        } else if self.program[at] >= 32 {
            (self.at(at + 1), Err(VMError::RegisterOutOfBounds))
        } else {
            let distance = position_of(self.registers[self.program[at] as int]);
            if op == Opcode::JMP {
                (self.at(distance), Ok(true))
            } else if at + 1 + distance > usize::MAX {
                (self.at(usize::MAX as int), Ok(true))
            } else {
                (self.at(at + 1 + distance), Ok(true))
            }
        }
    }

    /// One fetch, decode and execute. The flag is `false` where the machine
    /// has halted, and the machine that is returned with an error is the one
    /// in which the error was met: what was read stays read, what was
    /// written stays written.
    pub open spec fn step(self) -> (Machine, Result<bool, VMError>) {
        if self.pc >= self.program.len() {
            (self, Err(VMError::ProgramCounterOutOfBounds))
        } else {
            let op = decode(self.program[self.pc]);
            let at = self.pc + 1;
            match op {
                Opcode::HLT => (self.at(at), Ok(false)),
                Opcode::IGL => (self.at(at), Err(VMError::InvalidOpcode)),
                Opcode::LOAD => self.load(at),
                Opcode::JMP | Opcode::JMPF => self.jump(op, at),
                _ => self.arithmetic(op, at),
            }
        }
    }

    /// At most `limit` steps, as [`VM::run`] takes them: it stops in front of
    /// the end of the program, after HLT and at the first error. The second
    /// component is `None` where `limit` steps did not bring the machine to a
    /// stop.
    pub open spec fn run(self, limit: nat) -> (Machine, Option<Result<(), VMError>>)
        decreases limit,
    {
        if self.pc >= self.program.len() {
            (self, Some(Ok(())))
        } else if limit == 0 {
            (self, None)
        } else {
            match self.step().1 {
                Ok(true) => self.step().0.run((limit - 1) as nat),
                Ok(false) => (self.step().0, Some(Ok(()))),
                Err(e) => (self.step().0, Some(Err(e))),
            }
        }
    }

    /// Some number of steps brings the machine to a stop.
    pub open spec fn halts(self) -> bool {
        exists|limit: nat| (#[trigger] self.run(limit)).1 is Some
    }
}

/// No instruction of `program`, read one after the other from `pc` on, is a
/// jump.
pub open spec fn straight(program: Seq<u8>, pc: int) -> bool
    decreases program.len() - pc,
{
    pc < 0 || pc >= program.len() || {
        let op = decode(program[pc]);
        &&& op != Opcode::JMP
        &&& op != Opcode::JMPF
        &&& (pc + op.size() >= program.len() || straight(program, pc + op.size()))
    }
}

/// A step keeps a machine well formed, and never touches the program.
pub proof fn lemma_step_wf(m: Machine)
    requires
        m.wf(),
    ensures
        m.step().0.wf(),
        m.step().0.program == m.program,
{
}

/// DIV with a divisor register that holds zero fails with `DivisionByZero`,
/// and leaves every register and the remainder as they were.
pub proof fn lemma_division_by_zero(m: Machine)
    requires
        m.wf(),
        m.pc + 4 <= m.program.len(),
        decode(m.program[m.pc]) == Opcode::DIV,
        m.program[m.pc + 1] < 32,
        m.program[m.pc + 2] < 32,
        m.program[m.pc + 3] < 32,
        m.registers[m.program[m.pc + 2] as int] == 0,
    ensures
        m.step().1 == Err::<bool, VMError>(VMError::DivisionByZero),
        m.step().0.registers == m.registers,
        m.step().0.remainder == m.remainder,
{
}

/// A step that fails changes nothing but the program counter, and that only
/// forwards, by the bytes that were read.
pub proof fn lemma_failure_keeps_state(m: Machine)
    requires
        m.wf(),
        m.step().1 is Err,
    ensures
        m.step().0.registers == m.registers,
        m.step().0.remainder == m.remainder,
        m.step().0.program == m.program,
        m.pc <= m.step().0.pc <= m.pc + 4,
{
}

/// A step that goes on and is no jump moves behind its instruction: by as
/// many bytes as the operation takes.
pub proof fn lemma_step_advances(m: Machine)
    requires
        m.wf(),
        m.step().1 == Ok::<bool, VMError>(true),
        decode(m.program[m.pc]) != Opcode::JMP,
        decode(m.program[m.pc]) != Opcode::JMPF,
    ensures
        m.step().0.pc == m.pc + decode(m.program[m.pc]).size(),
{
}

/// Only a DIV that succeeds changes the remainder.
pub proof fn lemma_remainder_changes_by_division_only(m: Machine)
    requires
        m.wf(),
        m.step().0.remainder != m.remainder,
    ensures
        m.pc < m.program.len(),
        decode(m.program[m.pc]) == Opcode::DIV,
        m.step().1 == Ok::<bool, VMError>(true),
{
}

/// [`VM::run_once`] and [`VM::run`] agree: a machine that stops after one
/// step is left by `run` as that step leaves it, and with the same verdict.
pub proof fn lemma_run_of_one_step(m: Machine)
    requires
        m.pc < m.program.len(),
        m.step().1 != Ok::<bool, VMError>(true),
    ensures
        m.run(1).0 == m.step().0,
        m.step().1 matches Err(e) ==> m.run(1).1 == Some(Err::<(), VMError>(e)),
        m.step().1 is Ok ==> m.run(1).1 == Some(Ok::<(), VMError>(())),
{
}

/// Running is stepping: where the first step says to go on, the run is the
/// run of what that step leaves.
pub proof fn lemma_run_unfolds(m: Machine, limit: nat)
    requires
        m.pc < m.program.len(),
        m.step().1 == Ok::<bool, VMError>(true),
    ensures
        m.run(limit + 1) == m.step().0.run(limit),
{
}

/// A machine in front of a program without jumps stops within as many steps
/// as bytes are left.
pub proof fn lemma_straight_stops_within(m: Machine, limit: nat)
    requires
        0 <= m.pc,
        straight(m.program, m.pc),
        m.pc + limit >= m.program.len(),
    ensures
        m.run(limit).1 is Some,
    decreases limit,
{
    if m.pc < m.program.len() {
        if m.step().1 == Ok::<bool, VMError>(true) {
            lemma_straight_stops_within(m.step().0, (limit - 1) as nat);
        }
    }
}

/// A program without jumps stops, wherever in it the machine stands and
/// whatever the registers hold.
pub proof fn lemma_straight_halts(m: Machine)
    requires
        0 <= m.pc,
        straight(m.program, m.pc),
    ensures
        m.halts(),
        m.run(m.program.len()).1 is Some,
{
    lemma_straight_stops_within(m, m.program.len());
}

/// Once a machine has stopped within `limit` steps, more steps change nothing.
pub proof fn lemma_run_stable(m: Machine, limit: nat, more: nat)
    requires
        m.run(limit).1 is Some,
        limit <= more,
    ensures
        m.run(more) == m.run(limit),
    decreases limit,
{
    if m.pc < m.program.len() && limit > 0 {
        if m.step().1 == Ok::<bool, VMError>(true) {
            lemma_run_stable(m.step().0, (limit - 1) as nat, (more - 1) as nat);
        }
    }
}

/// The register machine: 32 signed registers, a program counter, the loaded
/// program, and what the last division left over.
#[derive(Debug)]
pub struct VM {
    registers: [i32; 32],
    pc: usize,
    program: Vec<u8>,
    remainder: u32,
}

impl View for VM {
    type V = Machine;

    closed spec fn view(&self) -> Machine {
        Machine {
            registers: self.registers@,
            pc: self.pc as int,
            program: self.program@,
            remainder: self.remainder,
        }
    }
}

impl VM {
    /// Every `VM` stands for a well-formed machine.
    pub proof fn lemma_wf(&self)
        ensures
            self@.wf(),
    {
        assert(self.program.len() == self.program@.len());
    }

    /// A machine with no program, all registers zero.
    pub fn new() -> (vm: Self)
        ensures
            vm@ == Machine::loaded(Seq::empty()),
    {
        let vm = Self { registers: [0; 32], pc: 0, program: Vec::new(), remainder: 0 };
        assert(vm@.registers =~= Seq::new(32, |i: int| 0i32));
        vm
    }

    /// The value of register `index`, for `index < 32`.
    pub fn get_register(&self, index: usize) -> (r: Result<i32, VMError>)
        ensures
            index < 32 ==> r == Ok::<i32, VMError>(self@.registers[index as int]),
            index >= 32 ==> r == Err::<i32, VMError>(VMError::RegisterOutOfBounds),
    {
        if index >= 32 {
            Err(VMError::RegisterOutOfBounds)
        } else {
            Ok(self.registers[index])
        }
    }

    /// All registers.
    pub fn get_registers(&self) -> (r: &[i32; 32])
        ensures
            r@ == self@.registers,
    {
        &self.registers
    }

    /// The position of the next byte to fetch.
    pub fn pc(&self) -> (r: usize)
        ensures
            r == self@.pc,
    {
        self.pc
    }

    /// What the last DIV left over.
    pub fn remainder(&self) -> (r: u32)
        ensures
            r == self@.remainder,
    {
        self.remainder
    }

    /// Loads `program` in place of the current one and resets the machine.
    pub fn add_program(&mut self, program: Vec<u8>)
        ensures
            final(self)@ == Machine::loaded(program@),
    {
        self.program = program;
        self.reset();
    }

    /// Zeroes the registers, the program counter and the remainder. The
    /// program stays.
    pub fn reset(&mut self)
        ensures
            final(self)@ == Machine::loaded(old(self)@.program),
    {
        self.pc = 0;
        self.registers = [0; 32];
        self.remainder = 0;
        assert(self@.registers =~= Seq::new(32, |i: int| 0i32));
    }

    /// Steps until the machine stops: in front of the end of the program
    /// (`Ok`), after HLT (`Ok`), or at the first error. The machine must be
    /// one that stops; what is returned is then what [`Machine::run`] gives
    /// for any number of steps that is enough.
    pub fn run(&mut self) -> (r: Result<(), VMError>)
        requires
            old(self)@.halts(),
        ensures
            forall|limit: nat| (#[trigger] old(self)@.run(limit)).1 is Some ==> old(self)@.run(limit)
                == (final(self)@, Some(r)),
    {
        let ghost start = self@;
        let ghost enough: nat = choose|limit: nat| (#[trigger] start.run(limit)).1 is Some;
        let ghost left: nat = enough;
        let mut outcome: Result<(), VMError> = Ok(());
        while self.pc < self.program.len()
            invariant_except_break
                self@.run(left).1 is Some,
                self@.run(left) == start.run(enough),
                outcome == Ok::<(), VMError>(()),
            ensures
                start.run(enough) == (self@, Some(outcome)),
            decreases left,
        {
            match self.execute_instruction() {
                Ok(true) => {
                    proof {
                        left = (left - 1) as nat;
                    }
                },
                Ok(false) => {
                    break ;
                },
                Err(e) => {
                    outcome = Err(e);
                    break ;
                },
            }
        }
        proof {
            assert forall|limit: nat| (#[trigger] start.run(limit)).1 is Some implies start.run(
                limit,
            ) == (self@, Some(outcome)) by {
                if limit <= enough {
                    lemma_run_stable(start, limit, enough);
                } else {
                    lemma_run_stable(start, enough, limit);
                }
            }
        }
        outcome
    }

    /// At most `limit` steps, as [`VM::run`] takes them. `None` says that the
    /// machine has not stopped yet.
    pub fn run_for(&mut self, limit: usize) -> (r: Option<Result<(), VMError>>)
        ensures
            (final(self)@, r) == old(self)@.run(limit as nat),
    {
        let mut left = limit;
        while self.pc < self.program.len() && left > 0
            invariant
                old(self)@.run(limit as nat) == self@.run(left as nat),
            decreases left,
        {
            match self.execute_instruction() {
                Ok(true) => {
                    left -= 1;
                },
                Ok(false) => {
                    return Some(Ok(()));
                },
                Err(e) => {
                    return Some(Err(e));
                },
            }
        }
        if self.pc >= self.program.len() {
            Some(Ok(()))
        } else {
            None
        }
    }

    /// One step: see [`Machine::step`].
    pub fn run_once(&mut self) -> (r: Result<bool, VMError>)
        ensures
            (final(self)@, r) == old(self)@.step(),
    {
        self.execute_instruction()
    }

    fn execute_instruction(&mut self) -> (r: Result<bool, VMError>)
        ensures
            (final(self)@, r) == old(self)@.step(),
    {
        if self.pc >= self.program.len() {
            return Err(VMError::ProgramCounterOutOfBounds);
        }
        match self.decode_opcode() {
            Opcode::HLT => {
                return Ok(false);
            },
            Opcode::LOAD => {
                let register = self.next_8_bits()? as usize;
                let number = self.next_16_bits()?;
                if register >= 32 {
                    return Err(VMError::RegisterOutOfBounds);
                }
                self.registers[register] = number as i32;
            },
            Opcode::ADD => {
                let (reg1, reg2, reg3) = self.get_three_registers()?;
                self.registers[reg3] = match self.registers[reg1].checked_add(
                    self.registers[reg2],
                ) {
                    Some(sum) => sum,
                    None => 0,
                };
            },
            Opcode::SUB => {
                let (reg1, reg2, reg3) = self.get_three_registers()?;
                self.registers[reg3] = match self.registers[reg1].checked_sub(
                    self.registers[reg2],
                ) {
                    Some(difference) => difference,
                    None => 0,
                };
            },
            Opcode::MUL => {
                let (reg1, reg2, reg3) = self.get_three_registers()?;
                self.registers[reg3] = match self.registers[reg1].checked_mul(
                    self.registers[reg2],
                ) {
                    Some(product) => product,
                    None => 0,
                };
            },
            Opcode::DIV => {
                let (reg1, reg2, reg3) = self.get_three_registers()?;
                let dividend = self.registers[reg1];
                let divisor = self.registers[reg2];
                if divisor == 0 {
                    return Err(VMError::DivisionByZero);
                }
                let (q, r) = divide(dividend, divisor);
                self.registers[reg3] = q;
                self.remainder = r;
            },
            Opcode::IGL => {
                return Err(VMError::InvalidOpcode);
            },
            Opcode::JMP => {
                let register = self.next_8_bits()? as usize;
                if register >= 32 {
                    return Err(VMError::RegisterOutOfBounds);
                }
                self.pc = position(self.registers[register]);
            },
            Opcode::JMPF => {
                let register = self.next_8_bits()? as usize;
                if register >= 32 {
                    return Err(VMError::RegisterOutOfBounds);
                }
                let distance = position(self.registers[register]);
                self.pc = if distance > usize::MAX - self.pc {
                    usize::MAX
                } else {
                    self.pc + distance
                };
            },
        }
        Ok(true)
    }

    fn get_three_registers(&mut self) -> (r: Result<(usize, usize, usize), VMError>)
        requires
            old(self).pc <= old(self).program.len(),
        ensures
            final(self).registers == old(self).registers,
            final(self).program == old(self).program,
            final(self).remainder == old(self).remainder,
            old(self).pc + 3 > old(self).program.len() ==> final(self).pc == old(
                self,
            ).program.len() && r == Err::<(usize, usize, usize), VMError>(
                VMError::ProgramCounterOutOfBounds,
            ),
            old(self).pc + 3 <= old(self).program.len() ==> final(self).pc == old(self).pc + 3 && ({
                let a = old(self).program[old(self).pc as int];
                let b = old(self).program[old(self).pc + 1];
                let c = old(self).program[old(self).pc + 2];
                if a >= 32 || b >= 32 || c >= 32 {
                    r == Err::<(usize, usize, usize), VMError>(VMError::RegisterOutOfBounds)
                } else {
                    r == Ok::<(usize, usize, usize), VMError>((a as usize, b as usize, c as usize))
                }
            }),
    {
        let reg1 = self.next_8_bits()? as usize;
        let reg2 = self.next_8_bits()? as usize;
        let reg3 = self.next_8_bits()? as usize;
        if reg1 >= 32 || reg2 >= 32 || reg3 >= 32 {
            return Err(VMError::RegisterOutOfBounds);
        }
        Ok((reg1, reg2, reg3))
    }

    fn decode_opcode(&mut self) -> (op: Opcode)
        requires
            old(self).pc < old(self).program.len(),
        ensures
            op == decode(old(self).program[old(self).pc as int]),
            final(self).pc == old(self).pc + 1,
            final(self).registers == old(self).registers,
            final(self).program == old(self).program,
            final(self).remainder == old(self).remainder,
    {
        let opcode = Opcode::from(self.program[self.pc]);
        self.pc += 1;
        opcode
    }

    fn next_8_bits(&mut self) -> (r: Result<u8, VMError>)
        ensures
            final(self).registers == old(self).registers,
            final(self).program == old(self).program,
            final(self).remainder == old(self).remainder,
            old(self).pc >= old(self).program.len() ==> final(self).pc == old(self).pc && r
                == Err::<u8, VMError>(VMError::ProgramCounterOutOfBounds),
            old(self).pc < old(self).program.len() ==> final(self).pc == old(self).pc + 1 && r
                == Ok::<u8, VMError>(old(self).program[old(self).pc as int]),
    {
        if self.pc >= self.program.len() {
            return Err(VMError::ProgramCounterOutOfBounds);
        }
        let result = self.program[self.pc];
        self.pc += 1;
        Ok(result)
    }

    fn next_16_bits(&mut self) -> (r: Result<u16, VMError>)
        requires
            old(self).pc <= old(self).program.len(),
        ensures
            final(self).registers == old(self).registers,
            final(self).program == old(self).program,
            final(self).remainder == old(self).remainder,
            old(self).pc + 1 >= old(self).program.len() ==> final(self).pc == old(self).pc && r
                == Err::<u16, VMError>(VMError::ProgramCounterOutOfBounds),
            old(self).pc + 1 < old(self).program.len() ==> final(self).pc == old(self).pc + 2 && r
                == Ok::<u16, VMError>(
                (old(self).program[old(self).pc as int] * 256 + old(self).program[old(self).pc
                    + 1]) as u16,
            ),
    {
        if self.program.len() - self.pc < 2 {
            return Err(VMError::ProgramCounterOutOfBounds);
        }
        let high = self.program[self.pc] as u16;
        let low = self.program[self.pc + 1] as u16;
        self.pc += 2;
        Ok(high * 256 + low)
    }
}

/// The quotient that DIV stores and the remainder that it records, for a
/// divisor that is not zero.
fn divide(dividend: i32, divisor: i32) -> (r: (i32, u32))
    requires
        divisor != 0,
    ensures
        r.0 == fit_or_zero(quotient(dividend as int, divisor as int)),
        r.1 == unsigned_bits(leftover(dividend as int, divisor as int) as i32),
{
    proof {
        lemma_zero_divided(dividend as int, divisor as int);
    }
    let q: i32 = match dividend.checked_div(divisor) {
        Some(q) => q,
        None => 0,
    };
    let r: i32 = match dividend.checked_rem(divisor) {
        Some(r) => r,
        None => 0,
    };
    let bits: u32 = if r >= 0 {
        r as u32
    } else {
        u32::MAX - ((-(r + 1)) as u32)
    };
    (q, bits)
}

/// Zero divided by anything but zero is zero, and leaves nothing; and the
/// smallest value divided by minus one leaves nothing either.
proof fn lemma_zero_divided(a: int, b: int)
    requires
        b != 0,
    ensures
        a == 0 ==> quotient(a, b) == 0 && leftover(a, b) == 0,
        b == -1 ==> quotient(a, b) == -a && leftover(a, b) == 0,
        i32::MIN <= a <= i32::MAX ==> i32::MIN <= leftover(a, b) <= i32::MAX,
{
    let d = if b < 0 { -b } else { b };
    let n = if a < 0 { -a } else { a };
    assert(0int / d == 0 && 0int % d == 0) by (nonlinear_arith)
        requires
            d > 0,
    ;
    assert(n / 1 == n && n % 1 == 0) by (nonlinear_arith);
    assert(0 <= n % d <= n) by (nonlinear_arith)
        requires
            d > 0,
            n >= 0,
    ;
}

/// A register's value as a program position.
fn position(value: i32) -> (r: usize)
    ensures
        r == position_of(value),
{
    if value >= 0 {
        value as usize
    } else {
        usize::MAX - ((-(value + 1)) as usize)
    }
}

} // verus!
