//! The source language as mathematics: a text is a sequence of lexemes, and
//! a sequence of lexemes is a program of declarations and prints.
//!
//! ```text
//! program     = { declaration | print }
//! declaration = "int" identifier "=" expression ";"
//! print       = "Print" "(" expression ")" ";"
//! expression  = primary { "+" primary }
//! primary     = identifier | literal
//! ```

use vstd::prelude::*;
use crate::parser::{BinOp, ParseError};
use crate::text::{
    decimal, digits, digits_end, is_digit, lemma_run_end, lemma_scan, letters_and_numbers, name_end,
    run_end,
};

verus! {

/// What a token is.
pub enum Lexeme {
    Int,
    Print,
    Ident(Seq<char>),
    Literal(i64),
    Equals,
    Plus,
    Semicolon,
    LParen,
    RParen,
}

/// What an expression is.
pub enum ExprView {
    Variable(Seq<char>),
    Literal(i64),
    BinOp(Box<ExprView>, BinOp, Box<ExprView>),
}

/// What a statement is.
pub enum StatementView {
    Declare(Seq<char>, ExprView),
    Print(ExprView),
}

/// The letters that can start a name.
pub open spec fn is_letter(c: char) -> bool {
    ('a' <= c <= 'z') || ('A' <= c <= 'Z')
}

/// The lexeme that a name is: one of the two keywords, or an identifier.
pub open spec fn word(name: Seq<char>) -> Lexeme {
    if name == seq!['i', 'n', 't'] {
        Lexeme::Int
    } else if name == seq!['P', 'r', 'i', 'n', 't'] {
        Lexeme::Print
    } else {
        Lexeme::Ident(name)
    }
}

/// The lexeme that starts at `at`, and where it ends. A name is a letter and
/// the letters and numbers that follow it; a literal is a run of digits that
/// spells a number an `i64` can hold.
pub open spec fn lexeme_at(s: Seq<char>, at: int) -> Result<(Lexeme, int), ParseError> {
    let c = s[at];
    if is_letter(c) {
        let end = name_end(s, at + 1);
        Ok((word(s.subrange(at, end)), end))
    } else if is_digit(c) {
        let end = digits_end(s, at + 1);
        if decimal(s.subrange(at, end)) <= i64::MAX {
            Ok((Lexeme::Literal(decimal(s.subrange(at, end)) as i64), end))
        } else {
            Err(ParseError::NumberOutOfRange)
        }
    } else if c == '=' {
        Ok((Lexeme::Equals, at + 1))
    } else if c == '+' {
        Ok((Lexeme::Plus, at + 1))
    } else if c == ';' {
        Ok((Lexeme::Semicolon, at + 1))
    } else if c == '(' {
        Ok((Lexeme::LParen, at + 1))
    } else if c == ')' {
        Ok((Lexeme::RParen, at + 1))
    } else {
        Err(ParseError::UnexpectedCharacter(c, at as usize))
    }
}

/// `done` in front of what `rest` holds, where it holds something.
pub open spec fn after<T>(done: Seq<T>, rest: Result<Seq<T>, ParseError>) -> Result<
    Seq<T>,
    ParseError,
> {
    match rest {
        Ok(more) => Ok(done + more),
        Err(e) => Err(e),
    }
}

/// The lexemes of `s` from `from` on, white space between them skipped, or
/// the first thing in `s` that is no lexeme.
pub open spec fn lexemes_from(s: Seq<char>, from: int) -> Result<Seq<Lexeme>, ParseError>
    decreases s.len() - from,
{
    let at = run_end(s, true, from);
    if from < 0 || at >= s.len() {
        Ok(Seq::empty())
    } else {
        match lexeme_at(s, at) {
            Err(e) => Err(e),
            Ok((lexeme, next)) => {
                proof {
                    if from <= s.len() {
                        lemma_run_end(s, true, from);
                    }
                    lemma_lexeme_advances(s, at);
                }
                after(seq![lexeme], lexemes_from(s, next))
            },
        }
    }
}

/// The lexemes of `s`.
pub open spec fn lexemes(s: Seq<char>) -> Result<Seq<Lexeme>, ParseError> {
    lexemes_from(s, 0)
}

/// Two lexemes of one kind, whatever name or number they carry.
pub open spec fn same_kind(a: Lexeme, b: Lexeme) -> bool {
    match (a, b) {
        (Lexeme::Int, Lexeme::Int) => true,
        (Lexeme::Print, Lexeme::Print) => true,
        (Lexeme::Ident(_), Lexeme::Ident(_)) => true,
        (Lexeme::Literal(_), Lexeme::Literal(_)) => true,
        (Lexeme::Equals, Lexeme::Equals) => true,
        (Lexeme::Plus, Lexeme::Plus) => true,
        (Lexeme::Semicolon, Lexeme::Semicolon) => true,
        (Lexeme::LParen, Lexeme::LParen) => true,
        (Lexeme::RParen, Lexeme::RParen) => true,
        _ => false,
    }
}

/// The position behind the lexeme at `pos`, where that is of the kind of
/// `expected`.
pub open spec fn expect(ts: Seq<Lexeme>, pos: int, expected: Lexeme) -> Result<int, ParseError> {
    if 0 <= pos < ts.len() && same_kind(ts[pos], expected) {
        Ok(pos + 1)
    } else {
        Err(ParseError::UnexpectedToken)
    }
}

/// The identifier at `pos`.
pub open spec fn identifier_at(ts: Seq<Lexeme>, pos: int) -> Result<(Seq<char>, int), ParseError> {
    if !(0 <= pos < ts.len()) {
        Err(ParseError::UnexpectedEnd)
    } else {
        match ts[pos] {
            Lexeme::Ident(name) => Ok((name, pos + 1)),
            _ => Err(ParseError::ExpectedIdentifier),
        }
    }
}

/// The primary expression at `pos`: a variable or a literal.
pub open spec fn primary_at(ts: Seq<Lexeme>, pos: int) -> Result<(ExprView, int), ParseError> {
    if !(0 <= pos < ts.len()) {
        Err(ParseError::UnexpectedEnd)
    } else {
        match ts[pos] {
            Lexeme::Ident(name) => Ok((ExprView::Variable(name), pos + 1)),
            Lexeme::Literal(n) => Ok((ExprView::Literal(n), pos + 1)),
            _ => Err(ParseError::UnexpectedTokenInExpression),
        }
    }
}

/// The sum that `left` starts and the `+ primary` pairs from `pos` on
/// continue: it grows to the left.
pub open spec fn sum_from(ts: Seq<Lexeme>, pos: int, left: ExprView) -> Result<
    (ExprView, int),
    ParseError,
>
    decreases ts.len() - pos,
{
    if 0 <= pos < ts.len() && ts[pos] is Plus {
        match primary_at(ts, pos + 1) {
            Err(e) => Err(e),
            Ok((right, next)) => sum_from(
                ts,
                next,
                ExprView::BinOp(Box::new(left), BinOp::Add, Box::new(right)),
            ),
        }
    } else {
        Ok((left, pos))
    }
}

/// The expression at `pos`.
pub open spec fn expression_at(ts: Seq<Lexeme>, pos: int) -> Result<(ExprView, int), ParseError> {
    match primary_at(ts, pos) {
        Err(e) => Err(e),
        Ok((first, next)) => sum_from(ts, next, first),
    }
}

/// The declaration at `pos`.
pub open spec fn declaration_at(ts: Seq<Lexeme>, pos: int) -> Result<
    (StatementView, int),
    ParseError,
> {
    match expect(ts, pos, Lexeme::Int) {
        Err(e) => Err(e),
        Ok(at_name) => match identifier_at(ts, at_name) {
            Err(e) => Err(e),
            Ok((name, at_equals)) => match expect(ts, at_equals, Lexeme::Equals) {
                Err(e) => Err(e),
                Ok(at_value) => match expression_at(ts, at_value) {
                    Err(e) => Err(e),
                    Ok((value, at_semicolon)) => match expect(ts, at_semicolon, Lexeme::Semicolon) {
                        Err(e) => Err(e),
                        Ok(next) => Ok((StatementView::Declare(name, value), next)),
                    },
                },
            },
        },
    }
}

/// The print statement at `pos`.
pub open spec fn print_at(ts: Seq<Lexeme>, pos: int) -> Result<(StatementView, int), ParseError> {
    match expect(ts, pos, Lexeme::Print) {
        Err(e) => Err(e),
        Ok(at_bracket) => match expect(ts, at_bracket, Lexeme::LParen) {
            Err(e) => Err(e),
            Ok(at_value) => match expression_at(ts, at_value) {
                Err(e) => Err(e),
                Ok((value, at_close)) => match expect(ts, at_close, Lexeme::RParen) {
                    Err(e) => Err(e),
                    Ok(at_semicolon) => match expect(ts, at_semicolon, Lexeme::Semicolon) {
                        Err(e) => Err(e),
                        Ok(next) => Ok((StatementView::Print(value), next)),
                    },
                },
            },
        },
    }
}

/// The statement at `pos`, told by its first lexeme.
pub open spec fn statement_at(ts: Seq<Lexeme>, pos: int) -> Result<
    (StatementView, int),
    ParseError,
> {
    if 0 <= pos < ts.len() && ts[pos] is Int {
        declaration_at(ts, pos)
    } else if 0 <= pos < ts.len() && ts[pos] is Print {
        print_at(ts, pos)
    } else {
        Err(ParseError::UnexpectedToken)
    }
}

/// The statements from `pos` to the end, or the first error among them.
pub open spec fn program_from(ts: Seq<Lexeme>, pos: int) -> Result<Seq<StatementView>, ParseError>
    decreases ts.len() - pos,
{
    if pos < 0 || pos >= ts.len() {
        Ok(Seq::empty())
    } else {
        match statement_at(ts, pos) {
            Err(e) => Err(e),
            Ok((statement, next)) => {
                proof {
                    lemma_statement_advances(ts, pos);
                }
                after(seq![statement], program_from(ts, next))
            },
        }
    }
}

/// The program that the lexemes spell.
pub open spec fn program(ts: Seq<Lexeme>) -> Result<Seq<StatementView>, ParseError> {
    program_from(ts, 0)
}

/// The program that a text spells: that of its lexemes. What is no lexeme is
/// found before what is no statement.
pub open spec fn parsed(s: Seq<char>) -> Result<Seq<StatementView>, ParseError> {
    match lexemes(s) {
        Err(e) => Err(e),
        Ok(ts) => program(ts),
    }
}

/// The expression that a statement holds.
pub open spec fn value_of(s: StatementView) -> ExprView {
    match s {
        StatementView::Declare(_, value) => value,
        StatementView::Print(value) => value,
    }
}

/// The lexemes that spell an expression.
pub open spec fn expression_lexemes(e: ExprView) -> Seq<Lexeme>
    decreases e,
{
    match e {
        ExprView::Variable(name) => seq![Lexeme::Ident(name)],
        ExprView::Literal(n) => seq![Lexeme::Literal(n)],
        ExprView::BinOp(left, _, right) => expression_lexemes(*left) + seq![Lexeme::Plus]
            + expression_lexemes(*right),
    }
}

/// The lexemes that spell a statement.
pub open spec fn statement_lexemes(s: StatementView) -> Seq<Lexeme> {
    match s {
        StatementView::Declare(name, value) => seq![
            Lexeme::Int,
            Lexeme::Ident(name),
            Lexeme::Equals,
        ] + expression_lexemes(value) + seq![Lexeme::Semicolon],
        StatementView::Print(value) => seq![Lexeme::Print, Lexeme::LParen] + expression_lexemes(
            value,
        ) + seq![Lexeme::RParen, Lexeme::Semicolon],
    }
}

/// The lexemes that spell the first `k` statements of a program.
pub open spec fn program_lexemes(p: Seq<StatementView>, k: int) -> Seq<Lexeme>
    decreases k,
{
    if k <= 0 {
        Seq::empty()
    } else {
        program_lexemes(p, k - 1) + statement_lexemes(p[k - 1])
    }
}

/// An expression as the grammar builds it: a sum has a variable or a literal
/// on its right.
pub open spec fn leans_left(e: ExprView) -> bool
    decreases e,
{
    match e {
        ExprView::BinOp(left, _, right) => leans_left(*left) && !(*right is BinOp),
        _ => true,
    }
}

/// A lexeme is not empty.
pub proof fn lemma_lexeme_advances(s: Seq<char>, at: int)
    requires
        0 <= at < s.len(),
    ensures
        lexeme_at(s, at) matches Ok((_, next)) ==> at < next <= s.len(),
{
    lemma_scan(s, digits(), at + 1);
    lemma_scan(s, letters_and_numbers(), at + 1);
}

/// The sum that continues an expression ends no earlier than it starts, and
/// what it spells is what was read.
pub proof fn lemma_sum(ts: Seq<Lexeme>, pos: int, left: ExprView, start: int)
    requires
        0 <= start <= pos <= ts.len(),
        expression_lexemes(left) == ts.subrange(start, pos),
        leans_left(left),
    ensures
        sum_from(ts, pos, left) matches Ok((e, next)) ==> pos <= next <= ts.len() && leans_left(e)
            && expression_lexemes(e) == ts.subrange(start, next),
    decreases ts.len() - pos,
{
    if pos < ts.len() && ts[pos] is Plus {
        if let Ok((right, next)) = primary_at(ts, pos + 1) {
            let grown = ExprView::BinOp(Box::new(left), BinOp::Add, Box::new(right));
            assert(expression_lexemes(right) =~= ts.subrange(pos + 1, next));
            assert(expression_lexemes(grown) =~= ts.subrange(start, next));
            lemma_sum(ts, next, grown, start);
        }
    }
}

/// An expression that was read spells the lexemes it was read from.
pub proof fn lemma_expression(ts: Seq<Lexeme>, pos: int)
    requires
        0 <= pos <= ts.len(),
    ensures
        expression_at(ts, pos) matches Ok((e, next)) ==> pos < next <= ts.len() && leans_left(e)
            && expression_lexemes(e) == ts.subrange(pos, next),
{
    if let Ok((first, next)) = primary_at(ts, pos) {
        assert(expression_lexemes(first) =~= ts.subrange(pos, next));
        lemma_sum(ts, next, first, pos);
    }
}

/// A statement that was read spells the lexemes it was read from, and there
/// is at least one of them.
pub proof fn lemma_statement_advances(ts: Seq<Lexeme>, pos: int)
    requires
        0 <= pos < ts.len(),
    ensures
        statement_at(ts, pos) matches Ok((st, next)) ==> pos < next <= ts.len()
            && statement_lexemes(st) == ts.subrange(pos, next),
{
    if let Ok((st, next)) = statement_at(ts, pos) {
        if ts[pos] is Int {
            lemma_expression(ts, pos + 3);
        } else {
            lemma_expression(ts, pos + 2);
        }
        assert(statement_lexemes(st) =~= ts.subrange(pos, next));
    }
}

/// The lexemes of the first `k` statements of a program, and then those of
/// the rest, are those of the whole.
pub proof fn lemma_program_lexemes_split(p: Seq<StatementView>, q: Seq<StatementView>)
    ensures
        program_lexemes(p + q, (p + q).len() as int) == program_lexemes(p, p.len() as int)
            + program_lexemes(q, q.len() as int),
    decreases q.len(),
{
    if q.len() > 0 {
        let init = q.drop_last();
        lemma_program_lexemes_split(p, init);
        lemma_program_lexemes_prefix(p + q, p + init, (p + init).len() as int);
        lemma_program_lexemes_prefix(q, init, init.len() as int);
    }
}

/// The lexemes of the first `k` statements depend on those statements only.
pub proof fn lemma_program_lexemes_prefix(p: Seq<StatementView>, q: Seq<StatementView>, k: int)
    requires
        0 <= k <= p.len(),
        k <= q.len(),
        forall|i: int| 0 <= i < k ==> p[i] == q[i],
    ensures
        program_lexemes(p, k) == program_lexemes(q, k),
    decreases k,
{
    if k > 0 {
        lemma_program_lexemes_prefix(p, q, k - 1);
    }
}

/// Reading is faithful: a program that was read from lexemes spells exactly
/// those lexemes, and every expression in it is built as the grammar builds
/// it.
pub proof fn lemma_program_spells_its_lexemes(ts: Seq<Lexeme>, pos: int)
    requires
        0 <= pos <= ts.len(),
    ensures
        program_from(ts, pos) matches Ok(p) ==> program_lexemes(p, p.len() as int) == ts.subrange(
            pos,
            ts.len() as int,
        ),
    decreases ts.len() - pos,
{
    if pos < ts.len() {
        if let Ok((statement, next)) = statement_at(ts, pos) {
            lemma_statement_advances(ts, pos);
            lemma_program_spells_its_lexemes(ts, next);
            if let Ok(rest) = program_from(ts, next) {
                let first = seq![statement];
                lemma_program_lexemes_split(first, rest);
                assert(program_lexemes(first, 1) =~= statement_lexemes(statement)) by {
                    assert(program_lexemes(first, 0) =~= Seq::<Lexeme>::empty());
                }
            }
        }
    }
}

/// The lexemes of the first `k` statements stay in front of those of more.
pub proof fn lemma_program_lexemes_grow(p: Seq<StatementView>, k: int, n: int)
    requires
        0 <= k <= n <= p.len(),
    ensures
        program_lexemes(p, k).len() <= program_lexemes(p, n).len(),
        program_lexemes(p, n).take(program_lexemes(p, k).len() as int) == program_lexemes(p, k),
    decreases n - k,
{
    if k < n {
        lemma_program_lexemes_grow(p, k, n - 1);
    }
}

/// Reading the lexemes of an expression that leans left builds that
/// expression, and goes on from there.
pub proof fn lemma_reads_expression_so_far(ts: Seq<Lexeme>, pos: int, e: ExprView)
    requires
        0 <= pos,
        pos + expression_lexemes(e).len() <= ts.len(),
        ts.subrange(pos, pos + expression_lexemes(e).len()) == expression_lexemes(e),
        leans_left(e),
    ensures
        expression_lexemes(e).len() > 0,
        expression_at(ts, pos) == sum_from(ts, pos + expression_lexemes(e).len(), e),
    decreases e,
{
    let spelled = expression_lexemes(e);
    assert forall|i: int| 0 <= i < spelled.len() implies ts[pos + i] == spelled[i] by {}
    match e {
        ExprView::BinOp(left, op, right) => {
            let front = expression_lexemes(*left);
            assert(ts.subrange(pos, pos + front.len()) =~= front) by {
                assert forall|i: int| 0 <= i < front.len() implies ts[pos + i] == front[i] by {
                    assert(spelled[i] == front[i]);
                }
            }
            lemma_reads_expression_so_far(ts, pos, *left);
            assert(spelled[front.len() as int] == Lexeme::Plus);
            assert(spelled[front.len() as int + 1] == expression_lexemes(*right)[0]);
        },
        _ => {
            assert(spelled[0] == ts[pos]);
        },
    }
}

/// The lexemes of an expression that leans left, with no `+` behind them,
/// are read as that expression.
pub proof fn lemma_reads_expression(ts: Seq<Lexeme>, pos: int, e: ExprView)
    requires
        0 <= pos,
        pos + expression_lexemes(e).len() <= ts.len(),
        ts.subrange(pos, pos + expression_lexemes(e).len()) == expression_lexemes(e),
        leans_left(e),
        pos + expression_lexemes(e).len() == ts.len() || !(ts[pos + expression_lexemes(e).len()]
            is Plus),
    ensures
        expression_at(ts, pos) == Ok::<(ExprView, int), ParseError>(
            (e, pos + expression_lexemes(e).len()),
        ),
{
    lemma_reads_expression_so_far(ts, pos, e);
}

/// The lexemes of a statement whose expression leans left are read as that
/// statement.
pub proof fn lemma_reads_statement(ts: Seq<Lexeme>, pos: int, st: StatementView)
    requires
        0 <= pos,
        pos + statement_lexemes(st).len() <= ts.len(),
        ts.subrange(pos, pos + statement_lexemes(st).len()) == statement_lexemes(st),
        leans_left(value_of(st)),
    ensures
        statement_at(ts, pos) == Ok::<(StatementView, int), ParseError>(
            (st, pos + statement_lexemes(st).len()),
        ),
{
    let spelled = statement_lexemes(st);
    let value = value_of(st);
    let inner = expression_lexemes(value);
    assert forall|i: int| 0 <= i < spelled.len() implies ts[pos + i] == spelled[i] by {}
    let start = match st {
        StatementView::Declare(_, _) => pos + 3,
        StatementView::Print(_) => pos + 2,
    };
    assert(ts.subrange(start, start + inner.len()) =~= inner) by {
        assert forall|i: int| 0 <= i < inner.len() implies ts[start + i] == inner[i] by {
            assert(spelled[start - pos + i] == inner[i]);
        }
    }
    lemma_reads_expression(ts, start, value);
    match st {
        StatementView::Declare(name, _) => {
            assert(spelled[2] == Lexeme::Equals);
        },
        StatementView::Print(_) => {
            assert(spelled[0] == Lexeme::Print);
            assert(spelled[1] == Lexeme::LParen);
            assert(spelled[2 + inner.len() as int] == Lexeme::RParen);
            assert(spelled[3 + inner.len() as int] == Lexeme::Semicolon);
        },
    }
}

/// What is read behind the first `k` statements of a spelled-out program is
/// the rest of the program.
proof fn lemma_reads_rest(p: Seq<StatementView>, k: int)
    requires
        0 <= k <= p.len(),
        forall|i: int| 0 <= i < p.len() ==> leans_left(value_of(#[trigger] p[i])),
    ensures
        program_from(program_lexemes(p, p.len() as int), program_lexemes(p, k).len() as int)
            == Ok::<Seq<StatementView>, ParseError>(p.skip(k)),
    decreases p.len() - k,
{
    let n = p.len() as int;
    let ts = program_lexemes(p, n);
    let pos = program_lexemes(p, k).len() as int;
    lemma_program_lexemes_grow(p, k, n);
    if k == n {
        assert(p.skip(k) =~= Seq::<StatementView>::empty());
    } else {
        let spelled = statement_lexemes(p[k]);
        let next = program_lexemes(p, k + 1);
        lemma_program_lexemes_grow(p, k + 1, n);
        assert(ts.subrange(pos, pos + spelled.len()) =~= spelled) by {
            assert forall|i: int| 0 <= i < spelled.len() implies ts[pos + i] == spelled[i] by {
                assert(next[pos + i] == spelled[i]);
            }
        }
        lemma_reads_statement(ts, pos, p[k]);
        lemma_reads_rest(p, k + 1);
        assert(seq![p[k]] + p.skip(k + 1) =~= p.skip(k));
    }
}

/// Reading is complete: the lexemes that spell a program whose expressions
/// lean left are read as that very program.
pub proof fn lemma_reads_program(p: Seq<StatementView>)
    requires
        forall|i: int| 0 <= i < p.len() ==> leans_left(value_of(#[trigger] p[i])),
    ensures
        program(program_lexemes(p, p.len() as int)) == Ok::<Seq<StatementView>, ParseError>(p),
{
    lemma_reads_rest(p, 0);
    assert(p.skip(0) =~= p);
}

} // verus!
