//! A compiler for a small imperative language: a lexer, a recursive-descent
//! parser that translates to a three-address intermediate representation
//! while it reads, and a semantic analyzer that checks the translation.
//!
//! The executable code stands in [`lexer`], [`parser`], [`statements`],
//! [`semantics`] and [`compiler`], on top of [`text`], [`token`] and [`ir`].
//! What it computes is defined in [`lexer`], [`grammar`] and [`semantics`],
//! as functions on sequences of characters and of tokens.
//!
//! The other modules hold what is proved of these definitions: reading
//! moves forward ([`progress`]), multiplication binds tighter than addition
//! ([`precedence`]), no label is defined and no temporary declared twice
//! ([`freshness`]), every jump has its target ([`targets`]), temporaries are
//! declared before they are used ([`temporaries`]), the names in a
//! translation are identifiers of the source ([`names`]), and the text of a
//! translation holds one line for each instruction ([`layout`]).

pub mod compiler;
pub mod freshness;
pub mod grammar;
pub mod ir;
pub mod layout;
pub mod lexer;
pub mod names;
pub mod parser;
pub mod precedence;
pub mod progress;
pub mod semantics;
pub mod statements;
pub mod targets;
pub mod temporaries;
pub mod text;
pub mod token;

pub use compiler::{compile, translate, CompileError};
pub use ir::{
    create_else_label, create_endif_label, create_iftrue_label, create_temp,
    create_whileloopbegin_label, create_whileloopend_label, Counters, Expression,
};
pub use lexer::{
    create_identifier, lex, lex_identifier, lex_number, lex_space, skip_comment,
    unrecognized_symbol,
};
pub use parser::{
    next, next_result, parse_array_form, parse_boolean_expression, parse_expression,
    parse_multiply_expression, parse_term, peek, peek_result,
};
pub use semantics::{semantics_check, DataType, SemanticError};
pub use statements::{parse_function, parse_program, parse_statement};
pub use token::Token;
