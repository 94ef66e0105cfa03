//! The compiler as a whole: from a source text to a checked program in the
//! intermediate representation.

use crate::grammar::{program, Cursor};
use crate::ir::{render, Counters, Instr, Names};
use crate::lexer::{lex, lexemes, unidentified};
use crate::semantics::{semantics_check, verdict, Fault, SemanticError};
use crate::statements::parse_program;
use crate::token::{token_views, Token};
use vstd::prelude::*;

verus! {

/// Why a source text does not compile.
#[derive(Clone, Debug, PartialEq, Eq)]
pub enum CompileError {
    /// The lexer's message about a symbol that the language does not know.
    Lex(String),
    /// The parser's message.
    Parse(String),
    /// What the semantic analyzer found.
    Semantic(SemanticError),
}

/// A [`CompileError`] in specifications.
pub enum CompileFault {
    Lex(Seq<char>),
    Parse(Seq<char>),
    Semantic(Fault),
}

impl View for CompileError {
    type V = CompileFault;

    open spec fn view(&self) -> CompileFault {
        match self {
            CompileError::Lex(message) => CompileFault::Lex(message@),
            CompileError::Parse(message) => CompileFault::Parse(message@),
            CompileError::Semantic(error) => CompileFault::Semantic(error@),
        }
    }
}

/// The cursor at which the translation of a program begins.
pub open spec fn beginning() -> Cursor {
    Cursor { index: 0, names: Names::fresh() }
}

/// The instructions that a source text translates to: its tokens, read as a
/// program with names made from fresh counters.
pub open spec fn translation(source: Seq<char>) -> Result<Seq<Instr>, CompileFault> {
    match lexemes(source) {
        Err(symbol) => Err(CompileFault::Lex(unidentified(symbol))),
        Ok(tokens) => match program(tokens, beginning()) {
            Err(message) => Err(CompileFault::Parse(message)),
            Ok((code, _)) => Ok(code),
        },
    }
}

/// The text of the program that a source text compiles to: the text of its
/// translation, if the semantic analyzer finds no fault in that text.
pub open spec fn compilation(source: Seq<char>) -> Result<Seq<char>, CompileFault> {
    match translation(source) {
        Err(fault) => Err(fault),
        Ok(code) => match verdict(render(code)) {
            Err(fault) => Err(CompileFault::Semantic(fault)),
            Ok(_) => Ok(render(code)),
        },
    }
}

/// Translates the tokens of a program, with names made from fresh
/// counters. Gives the text of the intermediate representation, or the
/// parser's message.
pub fn translate(tokens: &Vec<Token>) -> (r: Result<String, String>)
    ensures
        match program(token_views(tokens@), beginning()) {
            Ok((code, _)) => r is Ok && r->Ok_0@ == render(code),
            Err(message) => r is Err && r->Err_0@ == message,
        },
{
    let mut index: usize = 0;
    let mut counters = Counters::new();
    parse_program(tokens, &mut index, &mut counters)
}

/// Compiles a source text: lexes it, translates it, and checks the
/// translation. Gives the text of the intermediate representation, or the
/// error of the first stage that fails.
pub fn compile(code: &str) -> (r: Result<String, CompileError>)
    ensures
        match compilation(code@) {
            Ok(text) => r is Ok && r->Ok_0@ == text,
            Err(fault) => r is Err && r->Err_0@ == fault,
        },
{
    let tokens = match lex(code) {
        Ok(tokens) => tokens,
        Err(message) => return Err(CompileError::Lex(message)),
    };
    let generated_code = match translate(&tokens) {
        Ok(generated_code) => generated_code,
        Err(message) => return Err(CompileError::Parse(message)),
    };
    match semantics_check(generated_code.clone()) {
        Ok(_) => Ok(generated_code),
        Err(error) => Err(CompileError::Semantic(error)),
    }
}

/// Compilation succeeds exactly when the source text translates and the
/// semantic analyzer approves of the translation.
pub proof fn lemma_compilation_succeeds(source: Seq<char>)
    ensures
        compilation(source) is Ok <==> translation(source) is Ok && verdict(
            render(translation(source)->Ok_0),
        ) is Ok,
{
}

} // verus!
