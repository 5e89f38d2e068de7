//! The assembly language as mathematics: what a source text means, line by
//! line, and what the assembler makes of it in its two passes.
//!
//! A source is a sequence of lines. What follows a `;` on a line is comment.
//! A line that ends in `:` binds a label to the offset of the next
//! instruction; any other line that is not blank is one instruction, a
//! mnemonic followed by its operands, separated by white space.

use vstd::prelude::*;
use crate::text::{
    before, digits_of, index_of, is_whitespace, lemma_digits_of, lemma_first_word,
    lemma_index_of, lemma_trimmed, trimmed, unsigned, uppercase, words,
};
use crate::vm::Opcode;

verus! {

/// Why a source was turned down, with the text that the message quotes.
pub enum Diagnostic {
    SyntaxError(Seq<char>),
    UnknownInstruction(Seq<char>),
    UnknownRegister(Seq<char>),
    LabelNotFound(Seq<char>),
}

impl Diagnostic {
    /// The message in full: what went wrong, and the text it went wrong on.
    pub open spec fn message(self) -> Seq<char> {
        match self {
            Diagnostic::SyntaxError(text) => "Syntax Error: "@ + text,
            Diagnostic::UnknownInstruction(text) => "Unknown Instruction: "@ + text,
            Diagnostic::UnknownRegister(text) => "Unknown Register: "@ + text,
            Diagnostic::LabelNotFound(text) => "Label Not Found: "@ + text,
        }
    }
}

/// The statements of `src` from position `from` on, `from` being the start
/// of a line: each line without its comment and without the white space
/// around it, blank lines left out.
pub open spec fn statements_from(src: Seq<char>, from: int) -> Seq<Seq<char>>
    decreases src.len() - from,
{
    if from < 0 || from >= src.len() {
        Seq::empty()
    } else {
        let end = index_of(src, '\n', from);
        proof {
            lemma_index_of(src, '\n', from);
        }
        let statement = trimmed(before(src.subrange(from, end), ';'));
        let rest = if end < src.len() {
            statements_from(src, end + 1)
        } else {
            Seq::empty()
        };
        if statement.len() == 0 {
            rest
        } else {
            seq![statement] + rest
        }
    }
}

/// The statements of `src`.
pub open spec fn statements(src: Seq<char>) -> Seq<Seq<char>> {
    statements_from(src, 0)
}

/// What every statement is: not empty, with no white space at either end.
pub open spec fn is_statement(s: Seq<char>) -> bool {
    s.len() > 0 && !is_whitespace(s.first()) && !is_whitespace(s.last())
}

/// A statement that binds a label.
pub open spec fn is_label(statement: Seq<char>) -> bool {
    statement.len() > 0 && statement.last() == ':'
}

/// The name that a label statement binds.
pub open spec fn label_name(statement: Seq<char>) -> Seq<char> {
    trimmed(statement.drop_last())
}

/// The operation that a mnemonic names, the mnemonic given in upper case.
pub open spec fn mnemonic(upper: Seq<char>) -> Option<Opcode> {
    if upper == seq!['H', 'L', 'T'] {
        Some(Opcode::HLT)
    } else if upper == seq!['L', 'O', 'A', 'D'] {
        Some(Opcode::LOAD)
    } else if upper == seq!['A', 'D', 'D'] {
        Some(Opcode::ADD)
    } else if upper == seq!['S', 'U', 'B'] {
        Some(Opcode::SUB)
    } else if upper == seq!['M', 'U', 'L'] {
        Some(Opcode::MUL)
    } else if upper == seq!['D', 'I', 'V'] {
        Some(Opcode::DIV)
    } else if upper == seq!['J', 'M', 'P'] {
        Some(Opcode::JMP)
    } else if upper == seq!['J', 'M', 'P', 'F'] {
        Some(Opcode::JMPF)
    } else {
        None
    }
}

/// The operation of an instruction statement: that which its first word
/// names, in whatever case the word is written.
pub open spec fn operation(statement: Seq<char>) -> Option<Opcode> {
    mnemonic(uppercase(words(statement)[0]))
}

/// The register that a token names: `r` and an unsigned literal below 32.
pub open spec fn register(token: Seq<char>) -> Option<u8> {
    if token.len() > 0 && token[0] == 'r' {
        match unsigned(token.skip(1)) {
            Some(n) if n < 32 => Some(n as u8),
            _ => None,
        }
    } else {
        None
    }
}

/// The 16-bit value that a token stands for: what the label of that name is
/// bound to, and otherwise the number that the token spells.
pub open spec fn value(symbols: Map<Seq<char>, u16>, token: Seq<char>) -> Option<u16> {
    if symbols.contains_key(token) {
        Some(symbols[token])
    } else {
        match unsigned(token) {
            Some(n) if n <= 0xffff => Some(n as u16),
            _ => None,
        }
    }
}

/// What reading a token as a register gives: its number, or the token as an
/// unknown register.
pub open spec fn register_outcome(token: Seq<char>) -> Result<u8, Diagnostic> {
    match register(token) {
        Some(n) => Ok(n),
        None => Err(Diagnostic::UnknownRegister(token)),
    }
}

/// What reading a token as a value gives: the value, or the token as a value
/// that cannot be read.
pub open spec fn value_outcome(symbols: Map<Seq<char>, u16>, token: Seq<char>) -> Result<
    u16,
    Diagnostic,
> {
    match value(symbols, token) {
        Some(v) => Ok(v),
        None => Err(Diagnostic::SyntaxError("Invalid value: "@ + token)),
    }
}

/// How many operands an operation takes.
pub open spec fn operand_count(op: Opcode) -> nat {
    match op {
        Opcode::HLT => 0,
        Opcode::JMP | Opcode::JMPF => 1,
        Opcode::LOAD => 2,
        _ => 3,
    }
}

/// How the message for a statement with too few operands begins.
pub open spec fn arity_message(op: Opcode) -> Seq<char> {
    match op {
        Opcode::LOAD => "Invalid LOAD instruction: "@,
        Opcode::JMP | Opcode::JMPF => "Invalid jump instruction: "@,
        _ => "Invalid arithmetic instruction: "@,
    }
}

/// The bytes of a statement's register operands, `count` of them from the
/// second word on, or the first of them that names no register.
pub open spec fn registers(tokens: Seq<Seq<char>>, count: int) -> Result<Seq<u8>, Diagnostic>
    decreases count,
{
    if count <= 0 {
        Ok(Seq::empty())
    } else {
        match registers(tokens, count - 1) {
            Err(d) => Err(d),
            Ok(bytes) => match register_outcome(tokens[count]) {
                Ok(r) => Ok(bytes.push(r)),
                Err(d) => Err(d),
            },
        }
    }
}

/// The bytecode of one instruction statement, or why there is none. The
/// number of operands is looked at first, then the operands from left to
/// right; words after the last operand are ignored.
pub open spec fn encode(symbols: Map<Seq<char>, u16>, statement: Seq<char>) -> Result<
    Seq<u8>,
    Diagnostic,
> {
    let tokens = words(statement);
    match operation(statement) {
        None => Err(Diagnostic::UnknownInstruction(tokens[0])),
        Some(op) => if tokens.len() < 1 + operand_count(op) {
            Err(Diagnostic::SyntaxError(arity_message(op) + statement))
        } else if op == Opcode::LOAD {
            match register_outcome(tokens[1]) {
                Err(d) => Err(d),
                Ok(r) => match value_outcome(symbols, tokens[2]) {
                    Err(d) => Err(d),
                    Ok(v) => Ok(seq![op.byte(), r, (v / 256) as u8, (v % 256) as u8]),
                },
            }
        } else {
            match registers(tokens, operand_count(op) as int) {
                Err(d) => Err(d),
                Ok(bytes) => Ok(seq![op.byte()] + bytes),
            }
        },
    }
}

/// The bytes that the instructions among the first `k` statements take.
pub open spec fn offset(statements: Seq<Seq<char>>, k: int) -> nat
    decreases k,
{
    if k <= 0 {
        0
    } else if is_label(statements[k - 1]) {
        offset(statements, k - 1)
    } else {
        offset(statements, k - 1) + match operation(statements[k - 1]) {
            Some(op) => op.size() as nat,
            None => 0,
        }
    }
}

/// An offset as an operand can hold it: its low 16 bits.
pub open spec fn operand_of(offset: nat) -> u16 {
    (offset % 0x1_0000) as u16
}

/// The symbol table after the first `k` statements: each label among them
/// is bound to the offset at which it stands, a later binding of a name
/// replacing an earlier one.
pub open spec fn bound(symbols: Map<Seq<char>, u16>, statements: Seq<Seq<char>>, k: int) -> Map<
    Seq<char>,
    u16,
>
    decreases k,
{
    if k <= 0 {
        symbols
    } else if is_label(statements[k - 1]) {
        bound(symbols, statements, k - 1).insert(
            label_name(statements[k - 1]),
            operand_of(offset(statements, k - 1)),
        )
    } else {
        bound(symbols, statements, k - 1)
    }
}

/// The first statement from `from` on that is an instruction with a mnemonic
/// that names no operation; the number of statements where there is none.
pub open spec fn first_unknown(statements: Seq<Seq<char>>, from: int) -> int
    decreases statements.len() - from,
{
    if from >= statements.len() {
        statements.len() as int
    } else if !is_label(statements[from]) && operation(statements[from]) is None {
        from
    } else {
        first_unknown(statements, from + 1)
    }
}

/// The first statement from `from` on that is an instruction without
/// bytecode; the number of statements where there is none.
pub open spec fn first_rejected(
    symbols: Map<Seq<char>, u16>,
    statements: Seq<Seq<char>>,
    from: int,
) -> int
    decreases statements.len() - from,
{
    if from >= statements.len() {
        statements.len() as int
    } else if !is_label(statements[from]) && encode(symbols, statements[from]) is Err {
        from
    } else {
        first_rejected(symbols, statements, from + 1)
    }
}

/// The bytecode of the instructions among the first `k` statements, one
/// after the other.
pub open spec fn emitted(symbols: Map<Seq<char>, u16>, statements: Seq<Seq<char>>, k: int) -> Seq<
    u8,
>
    decreases k,
{
    if k <= 0 {
        Seq::empty()
    } else if is_label(statements[k - 1]) {
        emitted(symbols, statements, k - 1)
    } else {
        emitted(symbols, statements, k - 1) + match encode(symbols, statements[k - 1]) {
            Ok(bytes) => bytes,
            Err(_) => Seq::empty(),
        }
    }
}

/// `code`, with zero bytes behind it where it is shorter than 32 bytes.
pub open spec fn padded(code: Seq<u8>) -> Seq<u8> {
    if code.len() >= 32 {
        code
    } else {
        code + Seq::new((32 - code.len()) as nat, |i: int| 0u8)
    }
}

/// What assembling `src` gives, with `symbols` bound beforehand.
///
/// The first pass binds the labels and meets the first unknown mnemonic, if
/// there is one. The second pass encodes every instruction with all labels
/// of the source bound, those further down too, and meets the first
/// statement that has no bytecode. The bytecode of a source without either
/// is padded to 32 bytes.
pub open spec fn assembled(symbols: Map<Seq<char>, u16>, src: Seq<char>) -> Result<
    Seq<u8>,
    Diagnostic,
> {
    let lines = statements(src);
    let unknown = first_unknown(lines, 0);
    let table = bound(symbols, lines, lines.len() as int);
    let rejected = first_rejected(table, lines, 0);
    if unknown < lines.len() {
        Err(Diagnostic::UnknownInstruction(words(lines[unknown])[0]))
    } else if rejected < lines.len() {
        encode(table, lines[rejected])
    } else {
        Ok(padded(emitted(table, lines, lines.len() as int)))
    }
}

/// The symbol table that assembling `src` leaves behind: `symbols` and the
/// labels of `src`, those in front of the first unknown mnemonic where there
/// is one.
pub open spec fn symbols_left(symbols: Map<Seq<char>, u16>, src: Seq<char>) -> Map<
    Seq<char>,
    u16,
> {
    let lines = statements(src);
    bound(symbols, lines, first_unknown(lines, 0))
}

/// Every statement of a source is a statement: it has a first word.
pub proof fn lemma_statements(src: Seq<char>, from: int)
    ensures
        forall|i: int|
            0 <= i < statements_from(src, from).len() ==> is_statement(
                #[trigger] statements_from(src, from)[i],
            ),
    decreases src.len() - from,
{
    if 0 <= from < src.len() {
        let end = index_of(src, '\n', from);
        lemma_index_of(src, '\n', from);
        if end < src.len() {
            lemma_statements(src, end + 1);
        }
        lemma_trimmed(before(src.subrange(from, end), ';'));
        let first = trimmed(before(src.subrange(from, end), ';'));
        assert forall|i: int| 0 <= i < statements_from(src, from).len() implies is_statement(
            #[trigger] statements_from(src, from)[i],
        ) by {
            if first.len() > 0 && i > 0 {
                assert(statements_from(src, from)[i] == statements_from(src, end + 1)[i - 1]);
            }
        }
    }
}

/// `r0` to `r31`, the number written in the ordinary way, are read as the
/// registers 0 to 31; `r32` and above are unknown registers.
pub proof fn lemma_register_tokens(n: nat)
    ensures
        n < 32 ==> register_outcome(seq!['r'] + digits_of(n)) == Ok::<u8, Diagnostic>(n as u8),
        n >= 32 ==> register_outcome(seq!['r'] + digits_of(n)) == Err::<u8, Diagnostic>(
            Diagnostic::UnknownRegister(seq!['r'] + digits_of(n)),
        ),
{
    let token = seq!['r'] + digits_of(n);
    lemma_digits_of(n);
    assert(token.skip(1) =~= digits_of(n));
}

/// A token that does not start with `r` is an unknown register.
pub proof fn lemma_register_starts_with_r(token: Seq<char>)
    requires
        token.len() == 0 || token[0] != 'r',
    ensures
        register_outcome(token) == Err::<u8, Diagnostic>(Diagnostic::UnknownRegister(token)),
{
}

/// The first unknown mnemonic is unknown, and nothing in front of it is.
pub proof fn lemma_first_unknown(statements: Seq<Seq<char>>, from: int)
    requires
        0 <= from <= statements.len(),
    ensures
        from <= first_unknown(statements, from) <= statements.len(),
        first_unknown(statements, from) < statements.len() ==> !is_label(
            statements[first_unknown(statements, from)],
        ) && operation(statements[first_unknown(statements, from)]) is None,
        forall|i: int|
            from <= i < first_unknown(statements, from) ==> is_label(#[trigger] statements[i])
                || operation(statements[i]) is Some,
    decreases statements.len() - from,
{
    if from < statements.len() && !(!is_label(statements[from]) && operation(statements[from])
        is None) {
        lemma_first_unknown(statements, from + 1);
    }
}

/// The first statement without bytecode has none, and everything in front
/// of it has.
pub proof fn lemma_first_rejected(
    symbols: Map<Seq<char>, u16>,
    statements: Seq<Seq<char>>,
    from: int,
)
    requires
        0 <= from <= statements.len(),
    ensures
        from <= first_rejected(symbols, statements, from) <= statements.len(),
        first_rejected(symbols, statements, from) < statements.len() ==> !is_label(
            statements[first_rejected(symbols, statements, from)],
        ) && encode(symbols, statements[first_rejected(symbols, statements, from)]) is Err,
        forall|i: int|
            from <= i < first_rejected(symbols, statements, from) ==> is_label(
                #[trigger] statements[i],
            ) || encode(symbols, statements[i]) is Ok,
    decreases statements.len() - from,
{
    if from < statements.len() && !(!is_label(statements[from]) && encode(
        symbols,
        statements[from],
    ) is Err) {
        lemma_first_rejected(symbols, statements, from + 1);
    }
}

/// `count` register operands take `count` bytes.
pub proof fn lemma_registers_len(tokens: Seq<Seq<char>>, count: int)
    requires
        0 <= count,
    ensures
        registers(tokens, count) matches Ok(bytes) ==> bytes.len() == count,
    decreases count,
{
    if count > 0 {
        lemma_registers_len(tokens, count - 1);
    }
}

/// The bytecode of an instruction starts with the byte of its operation and
/// is as long as the first pass took it to be.
pub proof fn lemma_encode_size(symbols: Map<Seq<char>, u16>, statement: Seq<char>)
    ensures
        encode(symbols, statement) matches Ok(bytes) ==> operation(statement) matches Some(op)
            && bytes.len() == op.size() && bytes[0] == op.byte(),
{
    if let Some(op) = operation(statement) {
        lemma_registers_len(words(statement), operand_count(op) as int);
    }
}

/// In a source that assembles, the offset that the first pass counts for a
/// statement is the position at which the second pass puts its bytecode.
pub proof fn lemma_offset_is_position(
    symbols: Map<Seq<char>, u16>,
    statements: Seq<Seq<char>>,
    k: int,
)
    requires
        0 <= k <= statements.len(),
        first_rejected(symbols, statements, 0) >= k,
    ensures
        emitted(symbols, statements, k).len() == offset(statements, k),
    decreases k,
{
    if k > 0 {
        lemma_first_rejected(symbols, statements, 0);
        lemma_offset_is_position(symbols, statements, k - 1);
        lemma_encode_size(symbols, statements[k - 1]);
    }
}

/// Binding the labels of further statements leaves a name alone that none of
/// them binds.
pub proof fn lemma_bound_keeps(
    symbols: Map<Seq<char>, u16>,
    statements: Seq<Seq<char>>,
    from: int,
    to: int,
    name: Seq<char>,
)
    requires
        0 <= from <= to <= statements.len(),
        forall|j: int|
            from <= j < to && is_label(#[trigger] statements[j]) ==> label_name(statements[j])
                != name,
    ensures
        bound(symbols, statements, to).contains_key(name) == bound(
            symbols,
            statements,
            from,
        ).contains_key(name),
        bound(symbols, statements, to)[name] == bound(symbols, statements, from)[name],
    decreases to - from,
{
    if from < to {
        lemma_bound_keeps(symbols, statements, from, to - 1, name);
    }
}

/// A label stands for the offset of the last statement that binds it,
/// wherever in the source it is used: in front of that statement as well as
/// behind it.
pub proof fn lemma_label_resolves(
    symbols: Map<Seq<char>, u16>,
    statements: Seq<Seq<char>>,
    k: int,
)
    requires
        0 <= k < statements.len(),
        is_label(statements[k]),
        forall|j: int|
            k < j < statements.len() && is_label(#[trigger] statements[j]) ==> label_name(
                statements[j],
            ) != label_name(statements[k]),
    ensures
        value(bound(symbols, statements, statements.len() as int), label_name(statements[k]))
            == Some(operand_of(offset(statements, k))),
{
    let name = label_name(statements[k]);
    lemma_bound_keeps(symbols, statements, k + 1, statements.len() as int, name);
}

/// Assembled bytecode is at least 32 bytes long, and starts with what the
/// instructions encode to.
pub proof fn lemma_padded(code: Seq<u8>)
    ensures
        padded(code).len() >= 32,
        padded(code).len() >= code.len(),
        padded(code).take(code.len() as int) == code,
        forall|i: int| code.len() <= i < padded(code).len() ==> padded(code)[i] == 0,
        code.len() >= 32 ==> padded(code) == code,
{
}

/// A statement starts with its first word.
pub proof fn lemma_statement_has_mnemonic(statement: Seq<char>)
    requires
        is_statement(statement),
    ensures
        words(statement).len() > 0,
{
    lemma_first_word(statement);
}

} // verus!
