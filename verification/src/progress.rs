//! Reading moves forward: whatever construct of the grammar is read, the
//! cursor behind it lies further on and within the tokens, no counter has
//! gone down, and none has been raised more often than tokens were read.

use crate::grammar::{
    additive, additive_tail, alternative, arguments, array_form, assignment, binary, block,
    branching, comparison, conditional_labels, declaration, expression, forward, function,
    loop_labels, looping, more_parameters, multiplicative, multiplicative_tail, multiplying,
    parameters, peek_at, printing, program, reading, returning, statement, term, Cursor, Parse,
};
use crate::ir::{ExprView, Instr, Operand};
use crate::token::TokenView;
use vstd::prelude::*;

verus! {

/// The cursor `to` lies behind `from` and within `len` tokens, and its
/// counters are those of `from`, each raised at most once for every token in
/// between.
pub open spec fn moved(from: Cursor, to: Cursor, len: nat) -> bool {
    &&& from.index < to.index <= len
    &&& from.names.at_most(to.names)
    &&& from.names.within(to.names, to.index - from.index)
}

/// Like [`moved`], but `to` may be `from` itself.
pub open spec fn not_behind(from: Cursor, to: Cursor, len: nat) -> bool {
    &&& from.index <= to.index
    &&& to.index <= len || to.index == from.index
    &&& from.names.at_most(to.names)
    &&& from.names.within(to.names, to.index - from.index)
}

/// A successful result of reading from `from` has moved.
pub open spec fn moves<T>(r: Parse<T>, from: Cursor, len: nat) -> bool {
    match r {
        Ok((_, to)) => moved(from, to, len),
        Err(_) => true,
    }
}

/// A result that has moved passes [`forward`] unchanged. With the lemmas
/// below this shows that `forward` changes no result where the grammar
/// applies it.
pub proof fn lemma_forward<T>(r: Parse<T>, from: Cursor, start: Cursor, len: nat)
    requires
        moves(r, start, len),
        from.index <= start.index,
    ensures
        forward(r, from, len) == r,
{
}

/// Reading a term moves forward.
pub proof fn lemma_term_moves(tokens: Seq<TokenView>, at: Cursor)
    ensures
        moves(term(tokens, at), at, tokens.len()),
    decreases tokens.len() - at.index, 0int,
{
    match peek_at(tokens, at.index) {
        Some(TokenView::Ident(name)) => match peek_at(tokens, at.index + 1) {
            Some(TokenView::LeftParen) => {
                if peek_at(tokens, at.index + 2) != Some(TokenView::RightParen) {
                    lemma_arguments_moves(tokens, at.step(2), Seq::empty(), Seq::empty());
                }
            },
            Some(TokenView::LeftBracket) => {
                lemma_expression_moves(tokens, at.step(2));
            },
            _ => {},
        },
        Some(TokenView::LeftParen) => {
            lemma_expression_moves(tokens, at.step(1));
        },
        _ => {},
    }
}

/// Reading the arguments of a call moves forward.
pub proof fn lemma_arguments_moves(
    tokens: Seq<TokenView>,
    at: Cursor,
    code: Seq<Instr>,
    names: Seq<Operand>,
)
    ensures
        moves(arguments(tokens, at, code, names), at, tokens.len()),
    decreases tokens.len() - at.index, 3int,
{
    lemma_expression_moves(tokens, at);
    match forward(expression(tokens, at), at, tokens.len()) {
        Ok((argument, after)) => {
            if peek_at(tokens, after.index) == Some(TokenView::Comma) {
                lemma_arguments_moves(
                    tokens,
                    after.step(1),
                    code + argument.code,
                    names.push(argument.name),
                );
            }
        },
        Err(_) => {},
    }
}

/// Reading a product moves forward.
pub proof fn lemma_multiplicative_moves(tokens: Seq<TokenView>, at: Cursor)
    ensures
        moves(multiplicative(tokens, at), at, tokens.len()),
    decreases tokens.len() - at.index, 1int,
{
    lemma_term_moves(tokens, at);
    match forward(term(tokens, at), at, tokens.len()) {
        Ok((left, after)) => {
            lemma_multiplicative_tail_moves(tokens, after, left);
        },
        Err(_) => {},
    }
}

/// Reading what follows a product ends no further back than it began.
pub proof fn lemma_multiplicative_tail_moves(tokens: Seq<TokenView>, at: Cursor, left: ExprView)
    ensures
        match multiplicative_tail(tokens, at, left) {
            Ok((_, to)) => not_behind(at, to, tokens.len()),
            Err(_) => true,
        },
    decreases tokens.len() - at.index, 0int,
{
    match peek_at(tokens, at.index) {
        Some(token) => match multiplying(token) {
            Some(op) => {
                lemma_term_moves(tokens, at.step(1));
                match forward(term(tokens, at.step(1)), at, tokens.len()) {
                    Ok((right, after)) => {
                        let (product, behind) = binary(op, left, right, after);
                        lemma_multiplicative_tail_moves(tokens, behind, product);
                    },
                    Err(_) => {},
                }
            },
            None => {},
        },
        None => {},
    }
}

/// Reading an expression moves forward.
pub proof fn lemma_expression_moves(tokens: Seq<TokenView>, at: Cursor)
    ensures
        moves(expression(tokens, at), at, tokens.len()),
    decreases tokens.len() - at.index, 2int,
{
    lemma_multiplicative_moves(tokens, at);
    match forward(multiplicative(tokens, at), at, tokens.len()) {
        Ok((left, after)) => {
            lemma_additive_tail_moves(tokens, after, left);
        },
        Err(_) => {},
    }
}

/// Reading what follows a sum ends no further back than it began.
pub proof fn lemma_additive_tail_moves(tokens: Seq<TokenView>, at: Cursor, left: ExprView)
    ensures
        match additive_tail(tokens, at, left) {
            Ok((_, to)) => not_behind(at, to, tokens.len()),
            Err(_) => true,
        },
    decreases tokens.len() - at.index, 0int,
{
    match peek_at(tokens, at.index) {
        Some(token) => match additive(token) {
            Some(op) => {
                lemma_multiplicative_moves(tokens, at.step(1));
                match forward(multiplicative(tokens, at.step(1)), at, tokens.len()) {
                    Ok((right, after)) => {
                        let (sum, behind) = binary(op, left, right, after);
                        lemma_additive_tail_moves(tokens, behind, sum);
                    },
                    Err(_) => {},
                }
            },
            None => {},
        },
        None => {},
    }
}

/// Reading a comparison moves forward.
pub proof fn lemma_comparison_moves(tokens: Seq<TokenView>, at: Cursor)
    ensures
        moves(comparison(tokens, at), at, tokens.len()),
{
    lemma_term_moves(tokens, at);
    match term(tokens, at) {
        Ok((_, after)) => {
            lemma_term_moves(tokens, after.step(1));
        },
        Err(_) => {},
    }
}

/// Reading an expression between brackets moves forward.
pub proof fn lemma_array_form_moves(tokens: Seq<TokenView>, at: Cursor)
    ensures
        moves(array_form(tokens, at), at, tokens.len()),
{
    lemma_expression_moves(tokens, at);
    lemma_expression_moves(tokens, at.step(1));
}

/// Reading a declaration moves forward.
pub proof fn lemma_declaration_moves(tokens: Seq<TokenView>, at: Cursor)
    ensures
        moves(declaration(tokens, at), at, tokens.len()),
{
    reveal(declaration);
    lemma_expression_moves(tokens, at.step(1));
}

/// Reading what follows an identifier moves forward.
pub proof fn lemma_assignment_moves(tokens: Seq<TokenView>, at: Cursor, name: Seq<char>)
    ensures
        moves(assignment(tokens, at, name), at, tokens.len()),
{
    reveal(assignment);
    lemma_expression_moves(tokens, at.step(1));
    match expression(tokens, at.step(1)) {
        Ok((_, after)) => {
            lemma_expression_moves(tokens, after.step(2));
        },
        Err(_) => {},
    }
}

/// Reading the value of a return statement moves forward.
pub proof fn lemma_returning_moves(tokens: Seq<TokenView>, at: Cursor)
    ensures
        moves(returning(tokens, at), at, tokens.len()),
{
    reveal(returning);
    lemma_expression_moves(tokens, at);
}

/// Reading the operand of a print statement moves forward.
pub proof fn lemma_printing_moves(tokens: Seq<TokenView>, at: Cursor)
    ensures
        moves(printing(tokens, at), at, tokens.len()),
{
    reveal(printing);
    lemma_term_moves(tokens, at.step(1));
    match term(tokens, at.step(1)) {
        Ok((_, after)) => {
            lemma_array_form_moves(tokens, after);
        },
        Err(_) => {},
    }
}

/// Reading the operand of a read statement moves forward.
pub proof fn lemma_reading_moves(tokens: Seq<TokenView>, at: Cursor)
    ensures
        moves(reading(tokens, at), at, tokens.len()),
{
    reveal(reading);
    lemma_expression_moves(tokens, at.step(1));
}

/// A statement that is there has moved; where there is none, the cursor
/// stands where it stood.
pub open spec fn statement_moves(r: Parse<Option<Seq<Instr>>>, from: Cursor, len: nat) -> bool {
    match r {
        Ok((Some(_), to)) => moved(from, to, len),
        Ok((None, to)) => to == from,
        Err(_) => true,
    }
}

/// Reading a loop moves forward.
pub proof fn lemma_looping_moves(tokens: Seq<TokenView>, at: Cursor)
    ensures
        moves(looping(tokens, at), at, tokens.len()),
    decreases tokens.len() - at.index, 0int,
{
    let start = loop_labels(at);
    lemma_comparison_moves(tokens, start);
    match forward(comparison(tokens, start), at, tokens.len()) {
        Ok((_, after)) => {
            if peek_at(tokens, after.index) == Some(TokenView::LeftCurly) {
                lemma_block_moves(tokens, after.step(1));
            }
        },
        Err(_) => {},
    }
}

/// Reading the second branch of a conditional ends no further back than it began.
pub proof fn lemma_alternative_moves(tokens: Seq<TokenView>, at: Cursor)
    ensures
        match alternative(tokens, at) {
            Ok((_, to)) => not_behind(at, to, tokens.len()),
            Err(_) => true,
        },
    decreases tokens.len() - at.index, 0int,
{
    if peek_at(tokens, at.index) == Some(TokenView::Else) && peek_at(tokens, at.index + 1) == Some(
        TokenView::LeftCurly,
    ) {
        lemma_block_moves(tokens, at.step(2));
    }
}

/// Reading a conditional moves forward.
pub proof fn lemma_branching_moves(tokens: Seq<TokenView>, at: Cursor)
    ensures
        moves(branching(tokens, at), at, tokens.len()),
    decreases tokens.len() - at.index, 0int,
{
    let start = conditional_labels(at);
    lemma_comparison_moves(tokens, start);
    match forward(comparison(tokens, start), at, tokens.len()) {
        Ok((_, after)) => {
            if peek_at(tokens, after.index) == Some(TokenView::LeftCurly) {
                lemma_block_moves(tokens, after.step(1));
                match forward(block(tokens, after.step(1)), after, tokens.len()) {
                    Ok((_, middle)) => {
                        lemma_alternative_moves(tokens, middle);
                    },
                    Err(_) => {},
                }
            }
        },
        Err(_) => {},
    }
}

/// Reading a statement moves forward.
pub proof fn lemma_statement_moves(tokens: Seq<TokenView>, at: Cursor)
    ensures
        statement_moves(statement(tokens, at), at, tokens.len()),
    decreases tokens.len() - at.index, 1int,
{
    match peek_at(tokens, at.index) {
        Some(TokenView::Int) => {
            lemma_declaration_moves(tokens, at.step(1));
        },
        Some(TokenView::Ident(name)) => {
            lemma_assignment_moves(tokens, at.step(1), name);
        },
        Some(TokenView::Return) => {
            lemma_returning_moves(tokens, at.step(1));
        },
        Some(TokenView::Print) => {
            lemma_printing_moves(tokens, at.step(1));
        },
        Some(TokenView::Read) => {
            lemma_reading_moves(tokens, at.step(1));
        },
        Some(TokenView::While) => {
            lemma_looping_moves(tokens, at.step(1));
        },
        Some(TokenView::If) => {
            lemma_branching_moves(tokens, at.step(1));
        },
        _ => {},
    }
}

/// Reading a block moves forward.
pub proof fn lemma_block_moves(tokens: Seq<TokenView>, at: Cursor)
    ensures
        moves(block(tokens, at), at, tokens.len()),
    decreases tokens.len() - at.index, 2int,
{
    match peek_at(tokens, at.index) {
        None => {},
        Some(TokenView::RightCurly) => {},
        Some(_) => {
            lemma_statement_moves(tokens, at);
            match forward(statement(tokens, at), at, tokens.len()) {
                Ok((_, after)) => {
                    lemma_block_moves(tokens, after);
                },
                Err(_) => {},
            }
        },
    }
}

/// Reading parameters moves forward.
pub proof fn lemma_more_parameters_moves(tokens: Seq<TokenView>, index: int, names: Seq<Seq<char>>)
    ensures
        match more_parameters(tokens, index, names) {
            Ok((_, behind)) => index < behind <= tokens.len(),
            Err(_) => true,
        },
    decreases tokens.len() - index,
{
    if peek_at(tokens, index + 1) is Some && peek_at(tokens, index + 2) == Some(TokenView::Comma)
        && peek_at(tokens, index + 3) == Some(TokenView::Int) {
        if let Some(TokenView::Ident(name)) = peek_at(tokens, index + 1) {
            lemma_more_parameters_moves(tokens, index + 3, names.push(name));
        }
    }
}

/// Reading a function moves forward.
pub proof fn lemma_function_moves(tokens: Seq<TokenView>, at: Cursor)
    ensures
        statement_moves(function(tokens, at), at, tokens.len()),
{
    if peek_at(tokens, at.index + 3) == Some(TokenView::Int) {
        lemma_more_parameters_moves(tokens, at.index + 3, Seq::empty());
    }
    match parameters(tokens, at.index + 3) {
        Ok((_, index)) => {
            lemma_block_moves(tokens, Cursor { index: index + 1, names: at.names });
        },
        Err(_) => {},
    }
}

/// Reading a program ends no further back than it began.
pub proof fn lemma_program_moves(tokens: Seq<TokenView>, at: Cursor)
    ensures
        match program(tokens, at) {
            Ok((_, to)) => not_behind(at, to, tokens.len()),
            Err(_) => true,
        },
    decreases tokens.len() - at.index,
{
    lemma_function_moves(tokens, at);
    match function(tokens, at) {
        Ok((Some(_), after)) => {
            lemma_program_moves(tokens, after);
        },
        _ => {},
    }
}

} // verus!
