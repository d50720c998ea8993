//! The whole compiler: from the characters of a program to its assembly
//! file, and what the compiled program returns.

use crate::ast::{is_expression, SpecAst};
use crate::codegen::{assembly_text, generate, program_code, CodegenError, Instr};
use crate::lexer::{lex, tokenize, LexError};
use crate::machine::{eval, lemma_program_returns_value, run, State};
use crate::parser::{lemma_program_shape, parse, parse_program, ParseError, SpecParseError};
use crate::printer::{lemma_statement_round_trip, print};
use crate::token::SpecToken;
use vstd::prelude::*;

verus! {

/// Why a text was not compiled: the error of the first stage that failed.
#[derive(PartialEq, Eq, Debug)]
pub enum CompileError {
    Lex(LexError),
    Parse(ParseError),
    Codegen(CodegenError),
}

/// The mathematical value of a [`CompileError`].
pub enum SpecCompileError {
    Lex(LexError),
    Parse(SpecParseError),
    Codegen(CodegenError),
}

impl View for CompileError {
    type V = SpecCompileError;

    open spec fn view(&self) -> SpecCompileError {
        match self {
            CompileError::Lex(e) => SpecCompileError::Lex(*e),
            CompileError::Parse(e) => SpecCompileError::Parse(e@),
            CompileError::Codegen(e) => SpecCompileError::Codegen(*e),
        }
    }
}

/// The instructions of the program that a text holds: the text is lexed,
/// the tokens are parsed, and code is generated for the trees. The first
/// stage that fails decides the error.
pub open spec fn compiled_code(text: Seq<char>) -> Result<Seq<Instr>, SpecCompileError> {
    match lex(text) {
        Err(e) => Err(SpecCompileError::Lex(e)),
        Ok(tokens) => match parse_program(tokens, 0) {
            Err(e) => Err(SpecCompileError::Parse(e)),
            Ok(trees) => match program_code(trees) {
                Err(e) => Err(SpecCompileError::Codegen(e)),
                Ok(code) => Ok(code),
            },
        },
    }
}

/// Compiles the text in `buf` to its assembly file.
pub fn compile(buf: &[char]) -> (r: Result<String, CompileError>)
    ensures
        match compiled_code(buf@) {
            Ok(code) => r matches Ok(text) && text@ == assembly_text(code),
            Err(e) => r matches Err(err) && err@ == e,
        },
{
    let toks = match tokenize(buf) {
        Ok(toks) => toks,
        Err(e) => {
            return Err(CompileError::Lex(e));
        },
    };
    let code = match parse(toks.as_slice()) {
        Ok(code) => code,
        Err(e) => {
            return Err(CompileError::Parse(e));
        },
    };
    match generate(&code) {
        Ok(text) => Ok(text),
        Err(e) => Err(CompileError::Codegen(e)),
    }
}

/// A text of numbers, arithmetic operators and parentheses that holds at
/// least one statement compiles, and the program returns the value of the
/// last statement: operators bind as the grammar says, and the value is that
/// of `eval`. Where that statement divides by zero the program faults.
pub proof fn lemma_compiled_value(text: Seq<char>, s: State)
    requires
        lex(text) matches Ok(tokens) && parse_program(tokens, 0) matches Ok(trees) && trees.len()
            > 0 && forall|k: int| 0 <= k < tokens.len() ==> !(#[trigger] tokens[k] is Assign),
        s.stack.len() == 0,
    ensures
        lex(text) matches Ok(tokens) && parse_program(tokens, 0) matches Ok(trees)
            && compiled_code(text) matches Ok(code) && run(code, s) == eval(trees.last()),
{
    let tokens = lex(text)->Ok_0;
    let trees = parse_program(tokens, 0)->Ok_0;
    lemma_program_shape(tokens, 0);
    lemma_program_returns_value(trees, s);
}

/// The tokens of an expression, written with the fewest parentheses and
/// closed by `;`, are a program that returns the value of the expression.
pub proof fn lemma_printed_value(t: SpecAst, s: State)
    requires
        is_expression(t),
        s.stack.len() == 0,
    ensures
        parse_program(print(t, 0) + seq![SpecToken::Semicolon, SpecToken::Eof], 0) matches Ok(trees)
            && program_code(trees) matches Ok(code) && run(code, s) == eval(t),
{
    lemma_statement_round_trip(t);
    lemma_program_returns_value(seq![t], s);
}

} // verus!
