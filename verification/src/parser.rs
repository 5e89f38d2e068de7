//! The reader of the source language: text to tokens, tokens to a program.
//!
//! What a text spells is laid down in [`crate::syntax`]; the functions here
//! are proved to compute exactly that.

use vstd::prelude::*;
use vstd::slice::slice_subrange;
use vstd::string::*;
use crate::syntax::{
    after, declaration_at, expect, expression_at, identifier_at, is_letter, lemma_lexeme_advances,
    lemma_statement_advances, lexeme_at, lexemes, lexemes_from, parsed, primary_at, print_at,
    program_from, same_kind, statement_at, sum_from, word, ExprView, Lexeme, StatementView,
};
use crate::text::{
    decimal, digits, digits_end, is_digit, lemma_run_end, lemma_scan, name_end, parse_digits,
    run_end, skip_digits, skip_name, skip_run, string_of, to_chars,
};

verus! {

/// An expression: a variable, a number, or a sum.
#[derive(Debug)]
pub enum Expr {
    Variable(String),
    Literal(i64),
    BinOp(Box<Expr>, BinOp, Box<Expr>),
}

/// The operators between two expressions.
#[derive(Debug)]
pub enum BinOp {
    Add,
}

/// A statement: a variable declared with its value, or a value printed.
#[derive(Debug)]
pub enum Statement {
    Declare(String, Expr),
    Print(Expr),
}

/// A program: its statements in order.
#[derive(Debug)]
pub struct Program {
    pub statements: Vec<Statement>,
}

/// The tokens of the language.
#[derive(Debug, PartialEq)]
pub enum Token {
    Int,
    Print,
    Ident(String),
    Literal(i64),
    Equals,
    Plus,
    Semicolon,
    LParen,
    RParen,
}

/// Why a text is no program.
#[derive(Debug, PartialEq, Eq, Clone, Copy, Structural)]
pub enum ParseError {
    /// A character that starts no token, and its position in the text.
    UnexpectedCharacter(char, usize),
    /// A literal too large for an `i64`.
    NumberOutOfRange,
    /// Another token than the statement asks for at this place.
    UnexpectedToken,
    /// A token that is neither a variable nor a literal where an operand
    /// must stand.
    UnexpectedTokenInExpression,
    /// Another token than a name where a name must stand.
    ExpectedIdentifier,
    /// The end of the text where a name or an operand must stand.
    UnexpectedEnd,
}

impl View for Token {
    type V = Lexeme;

    open spec fn view(&self) -> Lexeme {
        match self {
            Token::Int => Lexeme::Int,
            Token::Print => Lexeme::Print,
            Token::Ident(name) => Lexeme::Ident(name@),
            Token::Literal(n) => Lexeme::Literal(*n),
            Token::Equals => Lexeme::Equals,
            Token::Plus => Lexeme::Plus,
            Token::Semicolon => Lexeme::Semicolon,
            Token::LParen => Lexeme::LParen,
            Token::RParen => Lexeme::RParen,
        }
    }
}

impl View for Expr {
    type V = ExprView;

    open spec fn view(&self) -> ExprView
        decreases self,
    {
        match self {
            Expr::Variable(name) => ExprView::Variable(name@),
            Expr::Literal(n) => ExprView::Literal(*n),
            Expr::BinOp(left, op, right) => ExprView::BinOp(
                Box::new((**left).view()),
                *op,
                Box::new((**right).view()),
            ),
        }
    }
}

impl View for Statement {
    type V = StatementView;

    open spec fn view(&self) -> StatementView {
        match self {
            Statement::Declare(name, value) => StatementView::Declare(name@, value@),
            Statement::Print(value) => StatementView::Print(value@),
        }
    }
}

impl View for Program {
    type V = Seq<StatementView>;

    open spec fn view(&self) -> Seq<StatementView> {
        statements_of(self.statements@)
    }
}

/// What each token of `tokens` is.
pub open spec fn lexemes_of(tokens: Seq<Token>) -> Seq<Lexeme> {
    Seq::new(tokens.len(), |i: int| tokens[i]@)
}

/// What each statement of `statements` is.
pub open spec fn statements_of(statements: Seq<Statement>) -> Seq<StatementView> {
    Seq::new(statements.len(), |i: int| statements[i]@)
}

/// What the result of [`tokenize`] is in the terms of the language.
pub open spec fn tokens_outcome(r: Result<Vec<Token>, ParseError>) -> Result<
    Seq<Lexeme>,
    ParseError,
> {
    match r {
        Ok(tokens) => Ok(lexemes_of(tokens@)),
        Err(e) => Err(e),
    }
}

/// What the result of [`parse_source`] is in the terms of the language.
pub open spec fn program_outcome(r: Result<Program, ParseError>) -> Result<
    Seq<StatementView>,
    ParseError,
> {
    match r {
        Ok(p) => Ok(p@),
        Err(e) => Err(e),
    }
}

/// Whether `c` can start a name.
fn starts_name(c: char) -> (r: bool)
    ensures
        r == is_letter(c),
{
    let u = c as u32;
    (97 <= u && u <= 122) || (65 <= u && u <= 90)
}

struct Lexer {
    chars: Vec<char>,
    pos: usize,
}

impl Lexer {
    fn new(input: &str) -> (lexer: Self)
        ensures
            lexer.chars@ == input@,
            lexer.pos == 0,
    {
        Lexer { chars: to_chars(input), pos: 0 }
    }

    /// The next token, `None` at the end of the text.
    fn next_token(&mut self) -> (r: Result<Option<Token>, ParseError>)
        requires
            old(self).pos <= old(self).chars.len(),
        ensures
            final(self).chars == old(self).chars,
            final(self).pos <= final(self).chars.len(),
            ({
                let s = old(self).chars@;
                let at = run_end(s, true, old(self).pos as int);
                match r {
                    Ok(None) => at >= s.len(),
                    Ok(Some(token)) => at < s.len() && lexeme_at(s, at) == Ok::<
                        (Lexeme, int),
                        ParseError,
                    >((token@, final(self).pos as int)),
                    Err(e) => at < s.len() && lexeme_at(s, at) == Err::<(Lexeme, int), ParseError>(e),
                }
            }),
    {
        self.skip_whitespace();
        if self.pos >= self.chars.len() {
            return Ok(None);
        }
        let c = self.chars[self.pos];
        if starts_name(c) {
            Ok(self.parse_identifier())
        } else if is_digit(c) {
            self.parse_number()
        } else if c == '=' {
            self.pos += 1;
            Ok(Some(Token::Equals))
        } else if c == '+' {
            self.pos += 1;
            Ok(Some(Token::Plus))
        } else if c == ';' {
            self.pos += 1;
            Ok(Some(Token::Semicolon))
        } else if c == '(' {
            self.pos += 1;
            Ok(Some(Token::LParen))
        } else if c == ')' {
            self.pos += 1;
            Ok(Some(Token::RParen))
        } else {
            Err(ParseError::UnexpectedCharacter(c, self.pos))
        }
    }

    /// The name that starts at the current position: a keyword or an
    /// identifier.
    fn parse_identifier(&mut self) -> (r: Option<Token>)
        requires
            old(self).pos < old(self).chars.len(),
        ensures
            final(self).chars == old(self).chars,
            final(self).pos == name_end(old(self).chars@, old(self).pos + 1),
            old(self).pos < final(self).pos <= final(self).chars.len(),
            r matches Some(token) && token@ == word(
                old(self).chars@.subrange(old(self).pos as int, final(self).pos as int),
            ),
    {
        let start = self.pos;
        self.pos = skip_name(self.chars.as_slice(), start + 1);
        let name = slice_subrange(self.chars.as_slice(), start, self.pos);
        if name.len() == 3 && name[0] == 'i' && name[1] == 'n' && name[2] == 't' {
            assert(name@ =~= seq!['i', 'n', 't']);
            Some(Token::Int)
        } else if name.len() == 5 && name[0] == 'P' && name[1] == 'r' && name[2] == 'i' && name[3]
            == 'n' && name[4] == 't' {
            assert(name@ =~= seq!['P', 'r', 'i', 'n', 't']);
            Some(Token::Print)
        } else {
            Some(Token::Ident(string_of(name)))
        }
    }

    /// The literal that starts at the current position.
    fn parse_number(&mut self) -> (r: Result<Option<Token>, ParseError>)
        requires
            old(self).pos < old(self).chars.len(),
            is_digit(old(self).chars[old(self).pos as int]),
        ensures
            final(self).chars == old(self).chars,
            final(self).pos == digits_end(old(self).chars@, old(self).pos + 1),
            old(self).pos < final(self).pos <= final(self).chars.len(),
            ({
                let digits = old(self).chars@.subrange(old(self).pos as int, final(self).pos as int);
                if decimal(digits) <= i64::MAX {
                    r matches Ok(Some(token)) && token@ == Lexeme::Literal(
                        decimal(digits) as i64,
                    )
                } else {
                    r == Err::<Option<Token>, ParseError>(ParseError::NumberOutOfRange)
                }
            }),
    {
        let start = self.pos;
        self.pos = skip_digits(self.chars.as_slice(), start + 1);
        let run = slice_subrange(self.chars.as_slice(), start, self.pos);
        proof {
            lemma_scan(self.chars@, digits(), start + 1);
            assert forall|i: int| 0 <= i < run@.len() implies is_digit(#[trigger] run@[i]) by {}
        }
        match parse_digits(run, 0x7fff_ffff_ffff_ffff) {
            Some(n) => Ok(Some(Token::Literal(n as i64))),
            None => Err(ParseError::NumberOutOfRange),
        }
    }

    /// Moves to the next character that is not white space.
    fn skip_whitespace(&mut self)
        requires
            old(self).pos <= old(self).chars.len(),
        ensures
            final(self).chars == old(self).chars,
            final(self).pos == run_end(old(self).chars@, true, old(self).pos as int),
            old(self).pos <= final(self).pos <= final(self).chars.len(),
    {
        self.pos = skip_run(self.chars.as_slice(), true, self.pos);
    }
}

/// The tokens of a text, or the first thing in it that is no token.
pub fn tokenize(input: &str) -> (r: Result<Vec<Token>, ParseError>)
    ensures
        tokens_outcome(r) == lexemes(input@),
{
    let mut lexer = Lexer::new(input);
    let mut tokens: Vec<Token> = Vec::new();
    let ghost s = input@;
    loop
        invariant
            lexer.chars@ == s,
            s == input@,
            lexer.pos <= lexer.chars.len(),
            lexemes(s) == after(lexemes_of(tokens@), lexemes_from(s, lexer.pos as int)),
        decreases s.len() - lexer.pos,
    {
        let ghost from = lexer.pos as int;
        let ghost done = lexemes_of(tokens@);
        proof {
            lemma_run_end(s, true, from);
        }
        match lexer.next_token() {
            Err(e) => {
                return Err(e);
            },
            Ok(None) => {
                return Ok(tokens);
            },
            Ok(Some(token)) => {
                let ghost lexeme = token@;
                tokens.push(token);
                proof {
                    lemma_lexeme_advances(s, run_end(s, true, from));
                    assert(lexemes_of(tokens@) =~= done.push(lexeme));
                    let rest = lexemes_from(s, lexer.pos as int);
                    if let Ok(more) = rest {
                        assert(done + (seq![lexeme] + more) =~= done.push(lexeme) + more);
                    }
                }
            },
        }
    }
}

/// The reader of tokens.
pub struct Parser {
    tokens: Vec<Token>,
    pos: usize,
}

impl Parser {
    fn new(tokens: Vec<Token>) -> (parser: Self)
        ensures
            parser.tokens == tokens,
            parser.pos == 0,
    {
        Parser { tokens, pos: 0 }
    }

    /// The statements from the current position to the end.
    fn parse(&mut self) -> (r: Result<Program, ParseError>)
        requires
            old(self).pos <= old(self).tokens.len(),
        ensures
            final(self).tokens == old(self).tokens,
            program_outcome(r) == program_from(lexemes_of(old(self).tokens@), old(self).pos as int),
    {
        let mut statements: Vec<Statement> = Vec::new();
        let ghost ts = lexemes_of(self.tokens@);
        let ghost start = self.pos as int;
        while self.pos < self.tokens.len()
            invariant
                self.tokens == old(self).tokens,
                ts == lexemes_of(self.tokens@),
                start == old(self).pos,
                self.pos <= self.tokens.len(),
                program_from(ts, start) == after(
                    statements_of(statements@),
                    program_from(ts, self.pos as int),
                ),
            decreases self.tokens.len() - self.pos,
        {
            let ghost done = statements_of(statements@);
            let ghost at = self.pos as int;
            proof {
                lemma_statement_advances(ts, at);
            }
            match self.parse_statement() {
                Err(e) => {
                    return Err(e);
                },
                Ok(statement) => {
                    let ghost read = statement@;
                    statements.push(statement);
                    proof {
                        assert(statements_of(statements@) =~= done.push(read));
                        if let Ok(more) = program_from(ts, self.pos as int) {
                            assert(done + (seq![read] + more) =~= done.push(read) + more);
                        }
                    }
                },
            }
        }
        Ok(Program { statements })
    }

    fn parse_statement(&mut self) -> (r: Result<Statement, ParseError>)
        requires
            old(self).pos < old(self).tokens.len(),
        ensures
            final(self).tokens == old(self).tokens,
            match statement_at(lexemes_of(old(self).tokens@), old(self).pos as int) {
                Ok((statement, next)) => r is Ok && r->Ok_0@ == statement && final(self).pos
                    == next,
                Err(e) => r == Err::<Statement, ParseError>(e),
            },
    {
        match self.peek() {
            Some(Token::Int) => self.parse_declaration(),
            Some(Token::Print) => self.parse_print(),
            _ => Err(ParseError::UnexpectedToken),
        }
    }

    fn parse_declaration(&mut self) -> (r: Result<Statement, ParseError>)
        requires
            old(self).pos <= old(self).tokens.len(),
        ensures
            final(self).tokens == old(self).tokens,
            match declaration_at(lexemes_of(old(self).tokens@), old(self).pos as int) {
                Ok((statement, next)) => r is Ok && r->Ok_0@ == statement && final(self).pos
                    == next,
                Err(e) => r == Err::<Statement, ParseError>(e),
            },
    {
        match self.consume(Token::Int) {
            Err(e) => {
                return Err(e);
            },
            Ok(()) => {},
        }
        let ident = match self.parse_ident() {
            Err(e) => {
                return Err(e);
            },
            Ok(ident) => ident,
        };
        match self.consume(Token::Equals) {
            Err(e) => {
                return Err(e);
            },
            Ok(()) => {},
        }
        let expr = match self.parse_expr() {
            Err(e) => {
                return Err(e);
            },
            Ok(expr) => expr,
        };
        match self.consume(Token::Semicolon) {
            Err(e) => {
                return Err(e);
            },
            Ok(()) => {},
        }
        Ok(Statement::Declare(ident, expr))
    }

    fn parse_print(&mut self) -> (r: Result<Statement, ParseError>)
        requires
            old(self).pos <= old(self).tokens.len(),
        ensures
            final(self).tokens == old(self).tokens,
            match print_at(lexemes_of(old(self).tokens@), old(self).pos as int) {
                Ok((statement, next)) => r is Ok && r->Ok_0@ == statement && final(self).pos
                    == next,
                Err(e) => r == Err::<Statement, ParseError>(e),
            },
    {
        match self.consume(Token::Print) {
            Err(e) => {
                return Err(e);
            },
            Ok(()) => {},
        }
        match self.consume(Token::LParen) {
            Err(e) => {
                return Err(e);
            },
            Ok(()) => {},
        }
        let expr = match self.parse_expr() {
            Err(e) => {
                return Err(e);
            },
            Ok(expr) => expr,
        };
        match self.consume(Token::RParen) {
            Err(e) => {
                return Err(e);
            },
            Ok(()) => {},
        }
        match self.consume(Token::Semicolon) {
            Err(e) => {
                return Err(e);
            },
            Ok(()) => {},
        }
        Ok(Statement::Print(expr))
    }

    fn parse_expr(&mut self) -> (r: Result<Expr, ParseError>)
        requires
            old(self).pos <= old(self).tokens.len(),
        ensures
            final(self).tokens == old(self).tokens,
            final(self).pos <= final(self).tokens.len(),
            match expression_at(lexemes_of(old(self).tokens@), old(self).pos as int) {
                Ok((value, next)) => r is Ok && r->Ok_0@ == value && final(self).pos == next,
                Err(e) => r == Err::<Expr, ParseError>(e),
            },
    {
        let ghost ts = lexemes_of(self.tokens@);
        let ghost start = self.pos as int;
        let mut expr = match self.parse_primary() {
            Err(e) => {
                return Err(e);
            },
            Ok(expr) => expr,
        };
        loop
            invariant_except_break
                self.tokens == old(self).tokens,
                ts == lexemes_of(self.tokens@),
                start == old(self).pos,
                self.pos <= self.tokens.len(),
                expression_at(ts, start) == sum_from(ts, self.pos as int, expr@),
            ensures
                self.tokens == old(self).tokens,
                ts == lexemes_of(self.tokens@),
                start == old(self).pos,
                self.pos <= self.tokens.len(),
                expression_at(ts, start) == Ok::<(ExprView, int), ParseError>(
                    (expr@, self.pos as int),
                ),
            decreases self.tokens.len() - self.pos,
        {
            match self.peek() {
                Some(Token::Plus) => {},
                _ => {
                    break ;
                },
            }
            self.pos += 1;
            let right = match self.parse_primary() {
                Err(e) => {
                    return Err(e);
                },
                Ok(right) => right,
            };
            expr = Expr::BinOp(Box::new(expr), BinOp::Add, Box::new(right));
        }
        Ok(expr)
    }

    fn parse_primary(&mut self) -> (r: Result<Expr, ParseError>)
        requires
            old(self).pos <= old(self).tokens.len(),
        ensures
            final(self).tokens == old(self).tokens,
            final(self).pos <= final(self).tokens.len(),
            match primary_at(lexemes_of(old(self).tokens@), old(self).pos as int) {
                Ok((value, next)) => r is Ok && r->Ok_0@ == value && final(self).pos == next,
                Err(e) => r == Err::<Expr, ParseError>(e),
            },
    {
        let found = match self.peek() {
            None => {
                return Err(ParseError::UnexpectedEnd);
            },
            Some(Token::Ident(name)) => Expr::Variable(name.clone()),
            Some(Token::Literal(n)) => Expr::Literal(*n),
            Some(_) => {
                return Err(ParseError::UnexpectedTokenInExpression);
            },
        };
        self.pos += 1;
        Ok(found)
    }

    fn parse_ident(&mut self) -> (r: Result<String, ParseError>)
        requires
            old(self).pos <= old(self).tokens.len(),
        ensures
            final(self).tokens == old(self).tokens,
            final(self).pos <= final(self).tokens.len(),
            match identifier_at(lexemes_of(old(self).tokens@), old(self).pos as int) {
                Ok((name, next)) => r is Ok && r->Ok_0@ == name && final(self).pos == next,
                Err(e) => r == Err::<String, ParseError>(e),
            },
    {
        let found = match self.peek() {
            None => {
                return Err(ParseError::UnexpectedEnd);
            },
            Some(Token::Ident(name)) => name.clone(),
            Some(_) => {
                return Err(ParseError::ExpectedIdentifier);
            },
        };
        self.pos += 1;
        Ok(found)
    }

    fn peek(&self) -> (r: Option<&Token>)
        ensures
            self.pos < self.tokens.len() ==> r == Some(&self.tokens[self.pos as int]),
            self.pos >= self.tokens.len() ==> r is None,
    {
        if self.pos < self.tokens.len() {
            Some(&self.tokens[self.pos])
        } else {
            None
        }
    }

    fn consume(&mut self, expected: Token) -> (r: Result<(), ParseError>)
        requires
            old(self).pos <= old(self).tokens.len(),
        ensures
            final(self).tokens == old(self).tokens,
            final(self).pos <= final(self).tokens.len(),
            match expect(lexemes_of(old(self).tokens@), old(self).pos as int, expected@) {
                Ok(next) => r is Ok && final(self).pos == next,
                Err(e) => r == Err::<(), ParseError>(e),
            },
    {
        let matches = match self.peek() {
            Some(token) => of_one_kind(token, &expected),
            None => false,
        };
        if matches {
            self.pos += 1;
            Ok(())
        } else {
            Err(ParseError::UnexpectedToken)
        }
    }
}

/// Whether two tokens are of one kind, whatever name or number they carry.
fn of_one_kind(a: &Token, b: &Token) -> (r: bool)
    ensures
        r == same_kind(a@, b@),
{
    match (a, b) {
        (Token::Int, Token::Int) => true,
        (Token::Print, Token::Print) => true,
        (Token::Ident(_), Token::Ident(_)) => true,
        (Token::Literal(_), Token::Literal(_)) => true,
        (Token::Equals, Token::Equals) => true,
        (Token::Plus, Token::Plus) => true,
        (Token::Semicolon, Token::Semicolon) => true,
        (Token::LParen, Token::LParen) => true,
        (Token::RParen, Token::RParen) => true,
        _ => false,
    }
}

/// The program that a text spells, or the first reason why it spells none.
pub fn parse_source(contents: &str) -> (r: Result<Program, ParseError>)
    ensures
        program_outcome(r) == parsed(contents@),
{
    let tokens = match tokenize(contents) {
        Err(e) => {
            return Err(e);
        },
        Ok(tokens) => tokens,
    };
    let mut parser = Parser::new(tokens);
    parser.parse()
}

} // verus!
