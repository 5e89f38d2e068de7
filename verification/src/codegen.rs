//! The code generator: a program of the source language to assembly text,
//! one line per entry.
//!
//! Every variable, literal and sum gets a register of its own, numbered in
//! the order in which the generator meets them.

use vstd::prelude::*;
use vstd::string::*;
use crate::parser::{Expr, Program, Statement};
use crate::syntax::{value_of, ExprView, StatementView};
use crate::text::{digits_of, texts};

verus! {

/// A whole number as text: its digits, with `-` in front where it is
/// negative.
pub open spec fn number_text(v: int) -> Seq<char> {
    if v < 0 {
        seq!['-'] + digits_of((-v) as nat)
    } else {
        digits_of(v as nat)
    }
}

/// How many variables, literals and sums an expression holds.
pub open spec fn nodes(e: ExprView) -> nat
    decreases e,
{
    match e {
        ExprView::BinOp(left, _, right) => nodes(*left) + nodes(*right) + 1,
        _ => 1,
    }
}

/// The register that holds the value of `e`, where `first` is the first
/// register that is free: the last of those that `e` takes.
pub open spec fn result_register(e: ExprView, first: nat) -> nat {
    (first + nodes(e) - 1) as nat
}

/// The lines that compute `e`, with `first` the first register that is
/// free. A variable is only noted, a literal is loaded, and a sum adds the
/// registers of its two sides, the left side computed first.
pub open spec fn lowered(e: ExprView, first: nat) -> Seq<Seq<char>>
    decreases e,
{
    match e {
        ExprView::Variable(name) => seq![
            "; assuming "@ + name + " is in r"@ + digits_of(first),
        ],
        ExprView::Literal(n) => seq!["LOAD r"@ + digits_of(first) + " "@ + number_text(n as int)],
        ExprView::BinOp(left, _, right) => {
            let middle = first + nodes(*left);
            lowered(*left, first) + lowered(*right, middle) + seq![
                "ADD r"@ + digits_of(result_register(*left, first)) + " r"@ + digits_of(
                    result_register(*right, middle),
                ) + " r"@ + digits_of(result_register(e, first)),
            ]
        },
    }
}

/// The lines of one statement: those of its expression, and a line that
/// names the register of the result.
pub open spec fn statement_lines(s: StatementView, first: nat) -> Seq<Seq<char>> {
    match s {
        StatementView::Declare(name, value) => lowered(value, first).push(
            "; "@ + name + " is in r"@ + digits_of(result_register(value, first)),
        ),
        StatementView::Print(value) => lowered(value, first).push(
            "PRINT r"@ + digits_of(result_register(value, first)),
        ),
    }
}

/// How many registers the first `k` statements of a program take.
pub open spec fn registers_taken(p: Seq<StatementView>, k: int) -> nat
    decreases k,
{
    if k <= 0 {
        0
    } else {
        registers_taken(p, k - 1) + nodes(value_of(p[k - 1]))
    }
}

/// The lines of the first `k` statements of a program.
pub open spec fn generated(p: Seq<StatementView>, k: int) -> Seq<Seq<char>>
    decreases k,
{
    if k <= 0 {
        Seq::empty()
    } else {
        generated(p, k - 1) + statement_lines(p[k - 1], registers_taken(p, k - 1))
    }
}

/// The assembly text of a program: the lines of its statements, and `HLT`.
pub open spec fn listing(p: Seq<StatementView>) -> Seq<Seq<char>> {
    generated(p, p.len() as int).push("HLT"@)
}

/// An expression takes one line for each of its registers.
pub proof fn lemma_lowered_len(e: ExprView, first: nat)
    ensures
        lowered(e, first).len() == nodes(e),
        nodes(e) >= 1,
        first <= result_register(e, first) < first + nodes(e),
    decreases e,
{
    match e {
        ExprView::BinOp(left, _, right) => {
            lemma_lowered_len(*left, first);
            lemma_lowered_len(*right, first + nodes(*left));
        },
        _ => {},
    }
}

/// The first `k` statements take a line for each register and one more for
/// each statement.
pub proof fn lemma_generated_len(p: Seq<StatementView>, k: int)
    requires
        0 <= k <= p.len(),
    ensures
        generated(p, k).len() == registers_taken(p, k) + k,
    decreases k,
{
    if k > 0 {
        lemma_generated_len(p, k - 1);
        lemma_lowered_len(value_of(p[k - 1]), registers_taken(p, k - 1));
    }
}

/// The character of a digit.
fn digit_char(d: u8) -> (c: char)
    requires
        d < 10,
    ensures
        c == ('0' as u32 + d) as char,
{
    (48 + d) as char
}

/// Appends the digits of `n` to `s`.
fn push_number(s: &mut String, n: u64)
    ensures
        final(s)@ == old(s)@ + digits_of(n as nat),
    decreases n,
{
    if n >= 10 {
        push_number(s, n / 10);
    }
    s.push(digit_char((n % 10) as u8));
}

/// Appends `v` as text to `s`.
fn push_integer(s: &mut String, v: i64)
    ensures
        final(s)@ == old(s)@ + number_text(v as int),
{
    if v < 0 {
        s.push('-');
        let magnitude: u64 = (-(v + 1)) as u64 + 1;
        push_number(s, magnitude);
    } else {
        push_number(s, v as u64);
    }
}

/// `head`, and the digits of `n` behind it.
fn numbered(head: &str, n: usize) -> (r: String)
    ensures
        r@ == head@ + digits_of(n as nat),
{
    let mut r = String::from_str(head);
    push_number(&mut r, n as u64);
    r
}

/// The assembly text of a program: see [`listing`].
pub fn codegen(program: Program) -> (lines: Vec<String>)
    ensures
        texts(lines@) == listing(program@),
{
    let mut lines: Vec<String> = Vec::new();
    let mut reg_counter: usize = 0;
    let ghost p = program@;
    let mut k: usize = 0;
    while k < program.statements.len()
        invariant
            k <= program.statements.len(),
            p == program@,
            p.len() == program.statements.len(),
            texts(lines@) == generated(p, k as int),
            reg_counter == registers_taken(p, k as int),
            reg_counter <= lines.len(),
        decreases program.statements.len() - k,
    {
        match &program.statements[k] {
            Statement::Declare(var, expr) => {
                let reg = generate_expr(expr, &mut lines, &mut reg_counter);
                let ghost computed = texts(lines@);
                let mut line = String::from_str("; ");
                line.append(var.as_str());
                line.append(" is in r");
                push_number(&mut line, reg as u64);
                lines.push(line);
                assert(texts(lines@) =~= computed.push(
                    "; "@ + var@ + " is in r"@ + digits_of(reg as nat),
                ));
            },
            Statement::Print(expr) => {
                let result_reg = generate_expr(expr, &mut lines, &mut reg_counter);
                let ghost computed = texts(lines@);
                lines.push(numbered("PRINT r", result_reg));
                assert(texts(lines@) =~= computed.push("PRINT r"@ + digits_of(result_reg as nat)));
            },
        }
        k += 1;
    }
    lines.push(String::from_str("HLT"));
    lines
}

/// Appends the lines that compute `expr` to `lines`, and returns the register
/// that holds the result.
fn generate_expr(expr: &Expr, lines: &mut Vec<String>, reg_counter: &mut usize) -> (reg: usize)
    requires
        *old(reg_counter) <= old(lines).len(),
    ensures
        texts(final(lines)@) == texts(old(lines)@) + lowered(expr@, *old(reg_counter) as nat),
        reg == result_register(expr@, *old(reg_counter) as nat),
        *final(reg_counter) == *old(reg_counter) + nodes(expr@),
        *final(reg_counter) <= final(lines).len(),
    decreases expr,
{
    let ghost done = texts(lines@);
    let ghost first = *reg_counter as nat;
    match expr {
        Expr::Variable(var) => {
            let mut line = String::from_str("; assuming ");
            line.append(var.as_str());
            line.append(" is in r");
            push_number(&mut line, *reg_counter as u64);
            lines.push(line);
            allocate_register(reg_counter)
        },
        Expr::Literal(value) => {
            let mut line = numbered("LOAD r", *reg_counter);
            line.append(" ");
            push_integer(&mut line, *value);
            lines.push(line);
            assert(lines.len() == lines@.len());
            assert(texts(lines@) =~= done + seq![
                "LOAD r"@ + digits_of(first) + " "@ + number_text(*value as int),
            ]);
            allocate_register(reg_counter)
        },
        Expr::BinOp(left, op, right) => {
            let left_reg = generate_expr(left, lines, reg_counter);
            let ghost middle = *reg_counter as nat;
            let right_reg = generate_expr(right, lines, reg_counter);
            let ghost with_right = texts(lines@);
            let mut line = numbered("ADD r", left_reg);
            line.append(" r");
            push_number(&mut line, right_reg as u64);
            line.append(" r");
            push_number(&mut line, *reg_counter as u64);
            lines.push(line);
            assert(lines.len() == lines@.len());
            proof {
                let l = (**left).view();
                let r = (**right).view();
                lemma_lowered_len(l, first);
                lemma_lowered_len(r, middle);
                assert(*reg_counter == result_register(expr@, first));
                assert(texts(lines@) =~= with_right.push(
                    "ADD r"@ + digits_of(left_reg as nat) + " r"@ + digits_of(right_reg as nat)
                        + " r"@ + digits_of(*reg_counter as nat),
                ));
                assert(texts(lines@) =~= done + lowered(expr@, first));
            }
            allocate_register(reg_counter)
        },
    }
}

/// Takes the next register.
fn allocate_register(reg_counter: &mut usize) -> (reg: usize)
    requires
        *old(reg_counter) < usize::MAX,
    ensures
        reg == *old(reg_counter),
        *final(reg_counter) == *old(reg_counter) + 1,
{
    let reg = *reg_counter;
    *reg_counter += 1;
    reg
}

} // verus!
