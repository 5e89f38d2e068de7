//! The two-pass assembler: assembly text in, bytecode out.
//!
//! What a source means is laid down in [`crate::grammar`]; the functions
//! here are proved to compute exactly that.

use vstd::prelude::*;
use vstd::hash_map::StringHashMap;
use vstd::slice::slice_subrange;
use vstd::string::*;
use crate::grammar::{
    assembled, bound, emitted, encode, first_rejected, first_unknown, is_statement,
    lemma_statement_has_mnemonic, mnemonic, offset, operand_of, operation, register_outcome,
    registers, statements, statements_from, symbols_left, value_outcome, Diagnostic,
};
use crate::text::{
    find, lemma_trimmed, parse_unsigned, split_words, string_of, texts, to_chars, trim, words,
};
use crate::vm::Opcode;

verus! {

/// Why the assembler turned a source down. Each kind carries the text that
/// its message quotes. A label that is not bound is reported as a value that
/// cannot be read, a `SyntaxError`; `LabelNotFound` is never returned.
#[derive(Debug)]
pub enum AssemblerError {
    SyntaxError(String),
    UnknownInstruction(String),
    UnknownRegister(String),
    LabelNotFound(String),
}

impl View for AssemblerError {
    type V = Diagnostic;

    open spec fn view(&self) -> Diagnostic {
        match self {
            AssemblerError::SyntaxError(text) => Diagnostic::SyntaxError(text@),
            AssemblerError::UnknownInstruction(text) => Diagnostic::UnknownInstruction(text@),
            AssemblerError::UnknownRegister(text) => Diagnostic::UnknownRegister(text@),
            AssemblerError::LabelNotFound(text) => Diagnostic::LabelNotFound(text@),
        }
    }
}

impl AssemblerError {
    /// The message in full.
    pub fn to_string(&self) -> (r: String)
        ensures
            r@ == self@.message(),
    {
        match self {
            AssemblerError::SyntaxError(text) => sentence("Syntax Error: ", text.as_str()),
            AssemblerError::UnknownInstruction(text) => sentence(
                "Unknown Instruction: ",
                text.as_str(),
            ),
            AssemblerError::UnknownRegister(text) => sentence("Unknown Register: ", text.as_str()),
            AssemblerError::LabelNotFound(text) => sentence("Label Not Found: ", text.as_str()),
        }
    }
}

/// What a result is in the terms of the grammar.
pub open spec fn outcome<T>(r: Result<T, AssemblerError>) -> Result<T, Diagnostic> {
    match r {
        Ok(v) => Ok(v),
        Err(e) => Err(e@),
    }
}

/// What the result of [`Assembler::compile`] is in the terms of the grammar.
pub open spec fn code_outcome(r: Result<Vec<u8>, AssemblerError>) -> Result<Seq<u8>, Diagnostic> {
    match r {
        Ok(code) => Ok(code@),
        Err(e) => Err(e@),
    }
}

/// `head` with `tail` behind it.
fn sentence(head: &str, tail: &str) -> (r: String)
    ensures
        r@ == head@ + tail@,
{
    let mut r = String::from_str(head);
    r.append(tail);
    r
}

/// The operation that a mnemonic names, the mnemonic given in upper case.
pub fn classify(upper: &str) -> (r: Option<Opcode>)
    ensures
        r == mnemonic(upper@),
{
    let u = to_chars(upper);
    if u.len() == 3 {
        if u[0] == 'H' && u[1] == 'L' && u[2] == 'T' {
            assert(u@ =~= seq!['H', 'L', 'T']);
            Some(Opcode::HLT)
        } else if u[0] == 'A' && u[1] == 'D' && u[2] == 'D' {
            assert(u@ =~= seq!['A', 'D', 'D']);
            Some(Opcode::ADD)
        } else if u[0] == 'S' && u[1] == 'U' && u[2] == 'B' {
            assert(u@ =~= seq!['S', 'U', 'B']);
            Some(Opcode::SUB)
        } else if u[0] == 'M' && u[1] == 'U' && u[2] == 'L' {
            assert(u@ =~= seq!['M', 'U', 'L']);
            Some(Opcode::MUL)
        } else if u[0] == 'D' && u[1] == 'I' && u[2] == 'V' {
            assert(u@ =~= seq!['D', 'I', 'V']);
            Some(Opcode::DIV)
        } else if u[0] == 'J' && u[1] == 'M' && u[2] == 'P' {
            assert(u@ =~= seq!['J', 'M', 'P']);
            Some(Opcode::JMP)
        } else {
            None
        }
    } else if u.len() == 4 {
        if u[0] == 'L' && u[1] == 'O' && u[2] == 'A' && u[3] == 'D' {
            assert(u@ =~= seq!['L', 'O', 'A', 'D']);
            Some(Opcode::LOAD)
        } else if u[0] == 'J' && u[1] == 'M' && u[2] == 'P' && u[3] == 'F' {
            assert(u@ =~= seq!['J', 'M', 'P', 'F']);
            Some(Opcode::JMPF)
        } else {
            None
        }
    } else {
        None
    }
}

/// The statements of a source, each as a string.
pub fn split_statements(src: &[char]) -> (out: Vec<String>)
    ensures
        texts(out@) == statements(src@),
        forall|i: int| 0 <= i < out.len() ==> is_statement(#[trigger] out[i]@),
{
    let mut out: Vec<String> = Vec::new();
    let mut from: usize = 0;
    loop
        invariant_except_break
            from <= src.len(),
            statements(src@) == texts(out@) + statements_from(src@, from as int),
        invariant
            forall|i: int| 0 <= i < out.len() ==> is_statement(#[trigger] out[i]@),
        ensures
            texts(out@) == statements(src@),
        decreases src.len() - from,
    {
        if from >= src.len() {
            break ;
        }
        let end = find(src, '\n', from);
        let line = slice_subrange(src, from, end);
        let cut = find(line, ';', 0);
        let code = slice_subrange(line, 0, cut);
        let statement = trim(code);
        if statement.len() > 0 {
            proof {
                lemma_trimmed(code@);
            }
            out.push(string_of(statement));
        }
        if end >= src.len() {
            break ;
        }
        from = end + 1;
    }
    out
}

/// The assembler, with the labels that it has bound so far. The labels stay
/// bound from one source to the next.
pub struct Assembler {
    symbols: StringHashMap<u16>,
}

impl View for Assembler {
    type V = Map<Seq<char>, u16>;

    closed spec fn view(&self) -> Map<Seq<char>, u16> {
        self.symbols@
    }
}

impl Assembler {
    /// An assembler with no label bound.
    pub fn new() -> (a: Self)
        ensures
            a@ == Map::<Seq<char>, u16>::empty(),
    {
        Self { symbols: StringHashMap::new() }
    }

    /// Assembles `source`: the bytecode that [`assembled`] lays down for it,
    /// or the error that it lays down. Either way the labels that the first
    /// pass got to are bound afterwards.
    pub fn compile(&mut self, source: &str) -> (r: Result<Vec<u8>, AssemblerError>)
        ensures
            code_outcome(r) == assembled(old(self)@, source@),
            final(self)@ == symbols_left(old(self)@, source@),
            r matches Ok(code) ==> code.len() >= 32,
    {
        let chars = to_chars(source);
        let lines = split_statements(chars.as_slice());
        let ghost before = self@;
        let ghost all = texts(lines@);

        let mut address: u16 = 0;
        let mut k: usize = 0;
        while k < lines.len()
            invariant
                k <= lines.len(),
                all == texts(lines@),
                forall|i: int| 0 <= i < lines.len() ==> is_statement(#[trigger] lines[i]@),
                all == statements(source@),
                before == old(self)@,
                self@ == bound(before, all, k as int),
                address == operand_of(offset(all, k as int)),
                first_unknown(all, 0) == first_unknown(all, k as int),
            decreases lines.len() - k,
        {
            let line = lines[k].as_str();
            let cs = to_chars(line);
            if cs[cs.len() - 1] == ':' {
                let name = string_of(trim(slice_subrange(cs.as_slice(), 0, cs.len() - 1)));
                self.symbols.insert(name, address);
            } else {
                proof {
                    lemma_statement_has_mnemonic(line@);
                }
                match self.estimate_instruction_size(line) {
                    Ok(size) => {
                        address = ((address as u32 + size as u32) % 0x1_0000) as u16;
                    },
                    Err(e) => {
                        return Err(e);
                    },
                }
            }
            k += 1;
        }

        let mut bytecode: Vec<u8> = Vec::new();
        let ghost table = self@;
        k = 0;
        while k < lines.len()
            invariant
                k <= lines.len(),
                all == texts(lines@),
                forall|i: int| 0 <= i < lines.len() ==> is_statement(#[trigger] lines[i]@),
                all == statements(source@),
                before == old(self)@,
                first_unknown(all, 0) == all.len(),
                table == bound(before, all, all.len() as int),
                self@ == table,
                bytecode@ == emitted(table, all, k as int),
                first_rejected(table, all, 0) == first_rejected(table, all, k as int),
            decreases lines.len() - k,
        {
            let line = lines[k].as_str();
            let cs = to_chars(line);
            if cs[cs.len() - 1] != ':' {
                proof {
                    lemma_statement_has_mnemonic(line@);
                }
                match self.emit(line, &mut bytecode) {
                    Ok(()) => {},
                    Err(e) => {
                        return Err(e);
                    },
                }
            }
            k += 1;
        }

        let ghost code = bytecode@;
        while bytecode.len() < 32
            invariant
                code.len() <= bytecode.len() <= 32 || bytecode@ == code,
                bytecode@ == code + Seq::new((bytecode.len() - code.len()) as nat, |i: int| 0u8),
            decreases 32 - bytecode.len(),
        {
            bytecode.push(0);
        }
        Ok(bytecode)
    }

    /// The register that `token` names: `r` and a number below 32.
    pub fn parse_register(&self, token: &str) -> (r: Result<u8, AssemblerError>)
        ensures
            outcome(r) == register_outcome(token@),
    {
        let cs = to_chars(token);
        if cs.len() == 0 || cs[0] != 'r' {
            return Err(AssemblerError::UnknownRegister(String::from_str(token)));
        }
        let rest = slice_subrange(cs.as_slice(), 1, cs.len());
        match parse_unsigned(rest, 31) {
            Some(n) => Ok(n as u8),
            None => Err(AssemblerError::UnknownRegister(String::from_str(token))),
        }
    }

    /// The value that `token` stands for: that of the label of this name,
    /// and otherwise the 16-bit number that the token spells.
    pub fn parse_value(&self, token: &str) -> (r: Result<u16, AssemblerError>)
        ensures
            outcome(r) == value_outcome(self@, token@),
    {
        match self.symbols.get(token) {
            Some(bound_to) => {
                return Ok(*bound_to);
            },
            None => {},
        }
        let cs = to_chars(token);
        match parse_unsigned(cs.as_slice(), 0xffff) {
            Some(n) => Ok(n as u16),
            None => Err(AssemblerError::SyntaxError(sentence("Invalid value: ", token))),
        }
    }

    /// The number of bytes that the instruction on `line` will take.
    fn estimate_instruction_size(&self, line: &str) -> (r: Result<usize, AssemblerError>)
        requires
            words(line@).len() > 0,
        ensures
            outcome(r) == (match operation(line@) {
                Some(op) => Ok::<usize, Diagnostic>(op.size()),
                None => Err::<usize, Diagnostic>(Diagnostic::UnknownInstruction(words(line@)[0])),
            }),
    {
        let cs = to_chars(line);
        let tokens = split_words(cs.as_slice());
        let upper = tokens[0].as_str().to_uppercase();
        match classify(upper.as_str()) {
            Some(op) => Ok(op.size()),
            None => Err(AssemblerError::UnknownInstruction(tokens[0].clone())),
        }
    }

    /// Appends the bytecode of the instruction on `line` to `bytecode`, or
    /// leaves `bytecode` as it is and says why.
    fn emit(&self, line: &str, bytecode: &mut Vec<u8>) -> (r: Result<(), AssemblerError>)
        requires
            words(line@).len() > 0,
        ensures
            match encode(self@, line@) {
                Ok(bytes) => r is Ok && final(bytecode)@ == old(bytecode)@ + bytes,
                Err(d) => outcome(r) == Err::<(), Diagnostic>(d) && final(bytecode)@ == old(
                    bytecode,
                )@,
            },
    {
        let cs = to_chars(line);
        let tokens = split_words(cs.as_slice());
        let upper = tokens[0].as_str().to_uppercase();
        let op = match classify(upper.as_str()) {
            Some(op) => op,
            None => {
                return Err(AssemblerError::UnknownInstruction(tokens[0].clone()));
            },
        };
        proof {
            reveal_with_fuel(registers, 4);
        }
        match op {
            Opcode::HLT => {
                bytecode.push(op.byte());
            },
            Opcode::LOAD => {
                if tokens.len() < 3 {
                    return Err(
                        AssemblerError::SyntaxError(sentence("Invalid LOAD instruction: ", line)),
                    );
                }
                let register = match self.parse_register(tokens[1].as_str()) {
                    Ok(register) => register,
                    Err(e) => {
                        return Err(e);
                    },
                };
                let value = match self.parse_value(tokens[2].as_str()) {
                    Ok(value) => value,
                    Err(e) => {
                        return Err(e);
                    },
                };
                bytecode.push(op.byte());
                bytecode.push(register);
                bytecode.push((value / 256) as u8);
                bytecode.push((value % 256) as u8);
            },
            Opcode::JMP | Opcode::JMPF => {
                if tokens.len() < 2 {
                    return Err(
                        AssemblerError::SyntaxError(sentence("Invalid jump instruction: ", line)),
                    );
                }
                let register = match self.parse_register(tokens[1].as_str()) {
                    Ok(register) => register,
                    Err(e) => {
                        return Err(e);
                    },
                };
                bytecode.push(op.byte());
                bytecode.push(register);
            },
            _ => {
                if tokens.len() < 4 {
                    return Err(
                        AssemblerError::SyntaxError(
                            sentence("Invalid arithmetic instruction: ", line),
                        ),
                    );
                }
                let reg1 = match self.parse_register(tokens[1].as_str()) {
                    Ok(register) => register,
                    Err(e) => {
                        return Err(e);
                    },
                };
                let reg2 = match self.parse_register(tokens[2].as_str()) {
                    Ok(register) => register,
                    Err(e) => {
                        return Err(e);
                    },
                };
                let reg3 = match self.parse_register(tokens[3].as_str()) {
                    Ok(register) => register,
                    Err(e) => {
                        return Err(e);
                    },
                };
                bytecode.push(op.byte());
                bytecode.push(reg1);
                bytecode.push(reg2);
                bytecode.push(reg3);
            },
        }
        Ok(())
    }
}

} // verus!
