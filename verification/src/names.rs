//! The names in a translation are identifiers of its source.
//!
//! Whatever the translation calls a variable, an array or a function is the
//! name of an identifier among the tokens. So what holds of every such name
//! among the tokens holds of every name in the translation. Where the tokens
//! come from the lexer, every name is a letter followed by letters, digits
//! and underscores.

use crate::grammar::{
    additive, additive_tail, alternative, arguments, array_form, assignment, binary, block,
    branching, comparison, conditional_code, conditional_labels, declaration, expression, forward,
    function, loop_code, loop_labels, looping, more_parameters, multiplicative, multiplicative_tail,
    multiplying, parameters, peek_at, plain, printing, program, reading, relational, returning,
    statement, term, Cursor,
};
use crate::ir::{ExprView, Instr, Label, Operand, Operator};
use crate::text::identifier;
use crate::token::TokenView;
use vstd::prelude::*;

verus! {

/// A property of names.
pub type NameTest = spec_fn(Seq<char>) -> bool;

/// Every identifier among the tokens has a good name.
pub open spec fn named(tokens: Seq<TokenView>, good: NameTest) -> bool {
    forall|i: int|
        0 <= i < tokens.len() ==> (#[trigger] tokens[i] matches TokenView::Ident(name) ==> good(
            name,
        ))
}

/// The good names of the lexer: identifiers.
pub open spec fn identifier_names() -> NameTest {
    |name: Seq<char>| identifier(name)
}

/// The operand, if it is a variable, has a good name.
pub open spec fn tidy_operand(operand: Operand, good: NameTest) -> bool {
    match operand {
        Operand::Variable(name) => good(name),
        _ => true,
    }
}

/// Every operand of the sequence is tidy.
pub open spec fn tidy_operands(operands: Seq<Operand>, good: NameTest) -> bool {
    forall|k: int| 0 <= k < operands.len() ==> tidy_operand(#[trigger] operands[k], good)
}

/// Every name of the sequence is good.
pub open spec fn good_names(names: Seq<Seq<char>>, good: NameTest) -> bool {
    forall|k: int| 0 <= k < names.len() ==> good(#[trigger] names[k])
}

/// Every name in the instruction is good.
pub open spec fn tidy_instr(instr: Instr, good: NameTest) -> bool {
    match instr {
        Instr::Func { name, params } => good(name) && good_names(params, good),
        Instr::EndFunc => true,
        Instr::Declare(target) => tidy_operand(target, good),
        Instr::DeclareArray { name, size } => good(name) && tidy_operand(size, good),
        Instr::Move { dst, src } => tidy_operand(dst, good) && tidy_operand(src, good),
        Instr::Discard(value) => tidy_operand(value, good),
        Instr::Store { array, index, src } => good(array) && tidy_operand(index, good)
            && tidy_operand(src, good),
        Instr::Load { dst, base, index } => tidy_operand(dst, good) && tidy_operand(base, good)
            && tidy_operand(index, good),
        Instr::Binary { op, dst, left, right } => tidy_operand(dst, good) && tidy_operand(
            left,
            good,
        ) && tidy_operand(right, good),
        Instr::Output(value) => tidy_operand(value, good),
        Instr::Input(target) => tidy_operand(target, good),
        Instr::Return(value) => tidy_operand(value, good),
        Instr::Call { dst, function, args } => tidy_operand(dst, good) && good(function)
            && tidy_operands(args, good),
        Instr::Jump(label) => true,
        Instr::BranchIf { cond, target } => tidy_operand(cond, good),
        Instr::BranchIfNot { cond, target } => tidy_operand(cond, good),
        Instr::Mark(label) => true,
    }
}

/// Every name in the code is good.
pub open spec fn tidy(code: Seq<Instr>, good: NameTest) -> bool {
    forall|i: int| 0 <= i < code.len() ==> tidy_instr(#[trigger] code[i], good)
}

/// The code and the operand of the expression are tidy.
pub open spec fn tidy_expression(value: ExprView, good: NameTest) -> bool {
    tidy(value.code, good) && tidy_operand(value.name, good)
}

/// A successfully read expression is tidy.
pub open spec fn tidy_result<T>(r: Result<(ExprView, T), Seq<char>>, good: NameTest) -> bool {
    match r {
        Ok((value, _)) => tidy_expression(value, good),
        Err(_) => true,
    }
}

/// Successfully read code is tidy.
pub open spec fn tidy_code<T>(r: Result<(Seq<Instr>, T), Seq<char>>, good: NameTest) -> bool {
    match r {
        Ok((code, _)) => tidy(code, good),
        Err(_) => true,
    }
}

/// As [`tidy_code`], for code that may be absent.
pub open spec fn tidy_optional_code<T>(
    r: Result<(Option<Seq<Instr>>, T), Seq<char>>,
    good: NameTest,
) -> bool {
    match r {
        Ok((Some(code), _)) => tidy(code, good),
        _ => true,
    }
}

/// Tidy code followed by tidy code is tidy.
pub proof fn lemma_tidy_concat(a: Seq<Instr>, b: Seq<Instr>, good: NameTest)
    requires
        tidy(a, good),
        tidy(b, good),
    ensures
        tidy(a + b, good),
{
    let all = a + b;
    assert forall|i: int| 0 <= i < all.len() implies tidy_instr(#[trigger] all[i], good) by {
        if i < a.len() {
            assert(all[i] == a[i]);
        } else {
            assert(all[i] == b[i - a.len()]);
        }
    }
}

/// The identifier at `index` has a good name.
proof fn lemma_tidy_token(tokens: Seq<TokenView>, index: int, good: NameTest)
    requires
        named(tokens, good),
    ensures
        peek_at(tokens, index) matches Some(TokenView::Ident(name)) ==> good(name),
{
    if 0 <= index < tokens.len() {
        assert(tokens[index] matches TokenView::Ident(name) ==> good(name));
    }
}

proof fn lemma_binary_tidy(
    op: Operator,
    left: ExprView,
    right: ExprView,
    at: Cursor,
    good: NameTest,
)
    requires
        tidy_expression(left, good),
        tidy_expression(right, good),
    ensures
        tidy_expression(binary(op, left, right, at).0, good),
{
    let t = at.temporary();
    lemma_tidy_concat(left.code, right.code, good);
    lemma_tidy_concat(
        left.code + right.code,
        seq![Instr::Declare(t), Instr::Binary { op, dst: t, left: left.name, right: right.name }],
        good,
    );
}

proof fn lemma_term_tidy(tokens: Seq<TokenView>, at: Cursor, good: NameTest)
    requires
        named(tokens, good),
    ensures
        tidy_result(term(tokens, at), good),
    decreases tokens.len() - at.index, 0int,
{
    lemma_tidy_token(tokens, at.index, good);
    match peek_at(tokens, at.index) {
        Some(TokenView::Ident(name)) => match peek_at(tokens, at.index + 1) {
            Some(TokenView::LeftParen) => {
                let read = if peek_at(tokens, at.index + 2) == Some(TokenView::RightParen) {
                    Ok(((Seq::<Instr>::empty(), Seq::<Operand>::empty()), at.step(3)))
                } else {
                    lemma_arguments_tidy(tokens, at.step(2), Seq::empty(), Seq::empty(), good);
                    arguments(tokens, at.step(2), Seq::empty(), Seq::empty())
                };
                if let Ok(((code, args), after)) = read {
                    let t = after.temporary();
                    lemma_tidy_concat(
                        code,
                        seq![Instr::Declare(t), Instr::Call { dst: t, function: name, args }],
                        good,
                    );
                }
            },
            Some(TokenView::LeftBracket) => {
                lemma_expression_tidy(tokens, at.step(2), good);
                if let Ok((index, after)) = expression(tokens, at.step(2)) {
                    let t = after.temporary();
                    lemma_tidy_concat(
                        index.code,
                        seq![
                            Instr::Declare(t),
                            Instr::Load {
                                dst: t,
                                base: Operand::Variable(name),
                                index: index.name,
                            },
                        ],
                        good,
                    );
                }
            },
            _ => {},
        },
        Some(TokenView::LeftParen) => {
            lemma_expression_tidy(tokens, at.step(1), good);
        },
        _ => {},
    }
}

proof fn lemma_arguments_tidy(
    tokens: Seq<TokenView>,
    at: Cursor,
    code: Seq<Instr>,
    names: Seq<Operand>,
    good: NameTest,
)
    requires
        named(tokens, good),
        tidy(code, good),
        tidy_operands(names, good),
    ensures
        match arguments(tokens, at, code, names) {
            Ok(((all, operands), _)) => tidy(all, good) && tidy_operands(operands, good),
            Err(_) => true,
        },
    decreases tokens.len() - at.index, 3int,
{
    lemma_expression_tidy(tokens, at, good);
    match forward(expression(tokens, at), at, tokens.len()) {
        Ok((argument, after)) => {
            let operands = names.push(argument.name);
            lemma_tidy_concat(code, argument.code, good);
            assert forall|k: int| 0 <= k < operands.len() implies tidy_operand(
                #[trigger] operands[k],
                good,
            ) by {
                if k < names.len() {
                    assert(operands[k] == names[k]);
                }
            }
            if peek_at(tokens, after.index) == Some(TokenView::Comma) {
                lemma_arguments_tidy(tokens, after.step(1), code + argument.code, operands, good);
            }
        },
        Err(_) => {},
    }
}

proof fn lemma_multiplicative_tidy(tokens: Seq<TokenView>, at: Cursor, good: NameTest)
    requires
        named(tokens, good),
    ensures
        tidy_result(multiplicative(tokens, at), good),
    decreases tokens.len() - at.index, 1int,
{
    lemma_term_tidy(tokens, at, good);
    match forward(term(tokens, at), at, tokens.len()) {
        Ok((left, after)) => {
            lemma_multiplicative_tail_tidy(tokens, after, left, good);
        },
        Err(_) => {},
    }
}

proof fn lemma_multiplicative_tail_tidy(
    tokens: Seq<TokenView>,
    at: Cursor,
    left: ExprView,
    good: NameTest,
)
    requires
        named(tokens, good),
        tidy_expression(left, good),
    ensures
        tidy_result(multiplicative_tail(tokens, at, left), good),
    decreases tokens.len() - at.index, 0int,
{
    match peek_at(tokens, at.index) {
        Some(token) => match multiplying(token) {
            Some(op) => {
                lemma_term_tidy(tokens, at.step(1), good);
                match forward(term(tokens, at.step(1)), at, tokens.len()) {
                    Ok((right, after)) => {
                        let (product, behind) = binary(op, left, right, after);
                        lemma_binary_tidy(op, left, right, after, good);
                        lemma_multiplicative_tail_tidy(tokens, behind, product, good);
                    },
                    Err(_) => {},
                }
            },
            None => {},
        },
        None => {},
    }
}

proof fn lemma_expression_tidy(tokens: Seq<TokenView>, at: Cursor, good: NameTest)
    requires
        named(tokens, good),
    ensures
        tidy_result(expression(tokens, at), good),
    decreases tokens.len() - at.index, 2int,
{
    lemma_multiplicative_tidy(tokens, at, good);
    match forward(multiplicative(tokens, at), at, tokens.len()) {
        Ok((left, after)) => {
            lemma_additive_tail_tidy(tokens, after, left, good);
        },
        Err(_) => {},
    }
}

proof fn lemma_additive_tail_tidy(
    tokens: Seq<TokenView>,
    at: Cursor,
    left: ExprView,
    good: NameTest,
)
    requires
        named(tokens, good),
        tidy_expression(left, good),
    ensures
        tidy_result(additive_tail(tokens, at, left), good),
    decreases tokens.len() - at.index, 0int,
{
    match peek_at(tokens, at.index) {
        Some(token) => match additive(token) {
            Some(op) => {
                lemma_multiplicative_tidy(tokens, at.step(1), good);
                match forward(multiplicative(tokens, at.step(1)), at, tokens.len()) {
                    Ok((right, after)) => {
                        let (sum, behind) = binary(op, left, right, after);
                        lemma_binary_tidy(op, left, right, after, good);
                        lemma_additive_tail_tidy(tokens, behind, sum, good);
                    },
                    Err(_) => {},
                }
            },
            None => {},
        },
        None => {},
    }
}

proof fn lemma_comparison_tidy(tokens: Seq<TokenView>, at: Cursor, good: NameTest)
    requires
        named(tokens, good),
    ensures
        tidy_result(comparison(tokens, at), good),
{
    lemma_term_tidy(tokens, at, good);
    if let Ok((left, after)) = term(tokens, at) {
        lemma_term_tidy(tokens, after.step(1), good);
        if let Some(token) = peek_at(tokens, after.index) {
            if let Some(op) = relational(token) {
                if let Ok((right, behind)) = term(tokens, after.step(1)) {
                    lemma_binary_tidy(op, left, right, behind, good);
                }
            }
        }
    }
}

proof fn lemma_array_form_tidy(tokens: Seq<TokenView>, at: Cursor, good: NameTest)
    requires
        named(tokens, good),
    ensures
        tidy_result(array_form(tokens, at), good),
{
    lemma_expression_tidy(tokens, at, good);
    lemma_expression_tidy(tokens, at.step(1), good);
}

proof fn lemma_declaration_tidy(tokens: Seq<TokenView>, at: Cursor, good: NameTest)
    requires
        named(tokens, good),
    ensures
        tidy_code(declaration(tokens, at), good),
{
    reveal(declaration);
    lemma_tidy_token(tokens, at.index, good);
    lemma_expression_tidy(tokens, at.step(1), good);
    if let Ok((size, after)) = expression(tokens, at.step(1)) {
        lemma_tidy_token(tokens, after.index + 1, good);
    }
}

proof fn lemma_assignment_tidy(tokens: Seq<TokenView>, at: Cursor, name: Seq<char>, good: NameTest)
    requires
        named(tokens, good),
        good(name),
    ensures
        tidy_code(assignment(tokens, at, name), good),
{
    reveal(assignment);
    lemma_expression_tidy(tokens, at.step(1), good);
    match peek_at(tokens, at.index) {
        Some(TokenView::Assign) => {
            if let Ok((value, _)) = expression(tokens, at.step(1)) {
                lemma_tidy_concat(
                    value.code,
                    seq![Instr::Move { dst: Operand::Variable(name), src: value.name }],
                    good,
                );
            }
        },
        Some(TokenView::LeftBracket) => {
            if let Ok((index, after)) = expression(tokens, at.step(1)) {
                lemma_expression_tidy(tokens, after.step(2), good);
                if let Ok((value, _)) = expression(tokens, after.step(2)) {
                    lemma_tidy_concat(index.code, value.code, good);
                    lemma_tidy_concat(
                        index.code + value.code,
                        seq![Instr::Store { array: name, index: index.name, src: value.name }],
                        good,
                    );
                }
            }
        },
        Some(token) => {
            if let Some(op) = relational(token) {
                if let Ok((right, after)) = expression(tokens, at.step(1)) {
                    let left = plain(Operand::Variable(name));
                    lemma_binary_tidy(op, left, right, after, good);
                    let truth = binary(op, left, right, after).0;
                    lemma_tidy_concat(truth.code, seq![Instr::Discard(truth.name)], good);
                }
            }
        },
        None => {},
    }
}

proof fn lemma_returning_tidy(tokens: Seq<TokenView>, at: Cursor, good: NameTest)
    requires
        named(tokens, good),
    ensures
        tidy_code(returning(tokens, at), good),
{
    reveal(returning);
    lemma_expression_tidy(tokens, at, good);
    if let Ok((value, _)) = expression(tokens, at) {
        lemma_tidy_concat(value.code, seq![Instr::Return(value.name)], good);
    }
}

proof fn lemma_printing_tidy(tokens: Seq<TokenView>, at: Cursor, good: NameTest)
    requires
        named(tokens, good),
    ensures
        tidy_code(printing(tokens, at), good),
{
    reveal(printing);
    lemma_term_tidy(tokens, at.step(1), good);
    if let Ok((value, after)) = term(tokens, at.step(1)) {
        lemma_tidy_concat(value.code, seq![Instr::Output(value.name)], good);
        lemma_array_form_tidy(tokens, after, good);
        if let Ok((index, behind)) = array_form(tokens, after) {
            let t = behind.temporary();
            lemma_tidy_concat(value.code, index.code, good);
            lemma_tidy_concat(
                value.code + index.code,
                seq![
                    Instr::Declare(t),
                    Instr::Load { dst: t, base: value.name, index: index.name },
                    Instr::Output(t),
                ],
                good,
            );
        }
    }
}

proof fn lemma_reading_tidy(tokens: Seq<TokenView>, at: Cursor, good: NameTest)
    requires
        named(tokens, good),
    ensures
        tidy_code(reading(tokens, at), good),
{
    reveal(reading);
    lemma_expression_tidy(tokens, at.step(1), good);
    if let Ok((value, _)) = expression(tokens, at.step(1)) {
        lemma_tidy_concat(value.code, seq![Instr::Input(value.name)], good);
    }
}

proof fn lemma_loop_tidy(
    begin: Label,
    end: Label,
    condition: ExprView,
    body: Seq<Instr>,
    good: NameTest,
)
    requires
        tidy_expression(condition, good),
        tidy(body, good),
    ensures
        tidy(loop_code(begin, end, condition, body), good),
{
    let mark = seq![Instr::Mark(begin)];
    let branch = seq![Instr::BranchIfNot { cond: condition.name, target: end }];
    lemma_tidy_concat(mark, condition.code, good);
    lemma_tidy_concat(mark + condition.code, branch, good);
    lemma_tidy_concat(mark + condition.code + branch, body, good);
    lemma_tidy_concat(
        mark + condition.code + branch + body,
        seq![Instr::Jump(begin), Instr::Mark(end)],
        good,
    );
}

proof fn lemma_conditional_tidy(
    yes: Label,
    end: Label,
    condition: ExprView,
    first: Seq<Instr>,
    second: Seq<Instr>,
    good: NameTest,
)
    requires
        tidy_expression(condition, good),
        tidy(first, good),
        tidy(second, good),
    ensures
        tidy(conditional_code(yes, end, condition, first, second), good),
{
    let branch = seq![Instr::BranchIf { cond: condition.name, target: yes }];
    let middle = seq![Instr::Jump(end), Instr::Mark(yes)];
    lemma_tidy_concat(condition.code, branch, good);
    lemma_tidy_concat(condition.code + branch, second, good);
    lemma_tidy_concat(condition.code + branch + second, middle, good);
    lemma_tidy_concat(condition.code + branch + second + middle, first, good);
    lemma_tidy_concat(
        condition.code + branch + second + middle + first,
        seq![Instr::Mark(end)],
        good,
    );
}

proof fn lemma_looping_tidy(tokens: Seq<TokenView>, at: Cursor, good: NameTest)
    requires
        named(tokens, good),
    ensures
        tidy_code(looping(tokens, at), good),
    decreases tokens.len() - at.index, 0int,
{
    let start = loop_labels(at);
    lemma_comparison_tidy(tokens, start, good);
    if let Ok((condition, after)) = forward(comparison(tokens, start), at, tokens.len()) {
        if peek_at(tokens, after.index) == Some(TokenView::LeftCurly) {
            lemma_block_tidy(tokens, after.step(1), good);
            if let Ok((body, _)) = block(tokens, after.step(1)) {
                lemma_loop_tidy(
                    Label::LoopBegin(start.names.loop_begin),
                    Label::LoopEnd(start.names.loop_end),
                    condition,
                    body,
                    good,
                );
            }
        }
    }
}

proof fn lemma_alternative_tidy(tokens: Seq<TokenView>, at: Cursor, good: NameTest)
    requires
        named(tokens, good),
    ensures
        tidy_code(alternative(tokens, at), good),
    decreases tokens.len() - at.index, 0int,
{
    if peek_at(tokens, at.index) == Some(TokenView::Else) && peek_at(tokens, at.index + 1) == Some(
        TokenView::LeftCurly,
    ) {
        lemma_block_tidy(tokens, at.step(2), good);
    }
}

proof fn lemma_branching_tidy(tokens: Seq<TokenView>, at: Cursor, good: NameTest)
    requires
        named(tokens, good),
    ensures
        tidy_code(branching(tokens, at), good),
    decreases tokens.len() - at.index, 0int,
{
    let start = conditional_labels(at);
    lemma_comparison_tidy(tokens, start, good);
    if let Ok((condition, after)) = forward(comparison(tokens, start), at, tokens.len()) {
        if peek_at(tokens, after.index) == Some(TokenView::LeftCurly) {
            lemma_block_tidy(tokens, after.step(1), good);
            let inner = forward(block(tokens, after.step(1)), after, tokens.len());
            if let Ok((first, middle)) = inner {
                lemma_alternative_tidy(tokens, middle, good);
                if let Ok((second, _)) = alternative(tokens, middle) {
                    lemma_conditional_tidy(
                        Label::IfTrue(start.names.if_true),
                        Label::EndIf(start.names.end_if),
                        condition,
                        first,
                        second,
                        good,
                    );
                }
            }
        }
    }
}

proof fn lemma_statement_tidy(tokens: Seq<TokenView>, at: Cursor, good: NameTest)
    requires
        named(tokens, good),
    ensures
        tidy_optional_code(statement(tokens, at), good),
    decreases tokens.len() - at.index, 1int,
{
    lemma_tidy_token(tokens, at.index, good);
    match peek_at(tokens, at.index) {
        Some(TokenView::Int) => {
            lemma_declaration_tidy(tokens, at.step(1), good);
        },
        Some(TokenView::Ident(name)) => {
            lemma_assignment_tidy(tokens, at.step(1), name, good);
        },
        Some(TokenView::Return) => {
            lemma_returning_tidy(tokens, at.step(1), good);
        },
        Some(TokenView::Print) => {
            lemma_printing_tidy(tokens, at.step(1), good);
        },
        Some(TokenView::Read) => {
            lemma_reading_tidy(tokens, at.step(1), good);
        },
        Some(TokenView::While) => {
            lemma_looping_tidy(tokens, at.step(1), good);
        },
        Some(TokenView::If) => {
            lemma_branching_tidy(tokens, at.step(1), good);
        },
        _ => {},
    }
}

proof fn lemma_block_tidy(tokens: Seq<TokenView>, at: Cursor, good: NameTest)
    requires
        named(tokens, good),
    ensures
        tidy_code(block(tokens, at), good),
    decreases tokens.len() - at.index, 2int,
{
    match peek_at(tokens, at.index) {
        None => {},
        Some(TokenView::RightCurly) => {},
        Some(_) => {
            lemma_statement_tidy(tokens, at, good);
            if let Ok((first, after)) = forward(statement(tokens, at), at, tokens.len()) {
                lemma_block_tidy(tokens, after, good);
                if let Ok((rest, _)) = block(tokens, after) {
                    let code = match first {
                        Some(code) => code,
                        None => Seq::empty(),
                    };
                    lemma_tidy_concat(code, rest, good);
                }
            }
        },
    }
}

proof fn lemma_more_parameters_tidy(
    tokens: Seq<TokenView>,
    index: int,
    names: Seq<Seq<char>>,
    good: NameTest,
)
    requires
        named(tokens, good),
        good_names(names, good),
    ensures
        match more_parameters(tokens, index, names) {
            Ok((all, _)) => good_names(all, good),
            Err(_) => true,
        },
    decreases tokens.len() - index,
{
    lemma_tidy_token(tokens, index + 1, good);
    if let Some(TokenView::Ident(name)) = peek_at(tokens, index + 1) {
        let more = names.push(name);
        assert forall|k: int| 0 <= k < more.len() implies good(#[trigger] more[k]) by {
            if k < names.len() {
                assert(more[k] == names[k]);
            }
        }
        if peek_at(tokens, index + 2) == Some(TokenView::Comma) && peek_at(tokens, index + 3)
            == Some(TokenView::Int) {
            lemma_more_parameters_tidy(tokens, index + 3, more, good);
        }
    }
}

proof fn lemma_function_tidy(tokens: Seq<TokenView>, at: Cursor, good: NameTest)
    requires
        named(tokens, good),
    ensures
        tidy_optional_code(function(tokens, at), good),
{
    lemma_tidy_token(tokens, at.index + 1, good);
    if peek_at(tokens, at.index + 3) == Some(TokenView::Int) {
        lemma_more_parameters_tidy(tokens, at.index + 3, Seq::empty(), good);
    }
    if let Ok((params, index)) = parameters(tokens, at.index + 3) {
        let inside = Cursor { index: index + 1, names: at.names };
        lemma_block_tidy(tokens, inside, good);
        if let Ok((body, _)) = block(tokens, inside) {
            if let Some(TokenView::Ident(name)) = peek_at(tokens, at.index + 1) {
                let head = seq![Instr::Func { name, params }];
                lemma_tidy_concat(head, body, good);
                lemma_tidy_concat(head + body, seq![Instr::EndFunc], good);
            }
        }
    }
}

/// What holds of the name of every identifier among the tokens holds of
/// every name in the translation of a program.
pub proof fn lemma_program_tidy(tokens: Seq<TokenView>, at: Cursor, good: NameTest)
    requires
        named(tokens, good),
    ensures
        tidy_code(program(tokens, at), good),
    decreases tokens.len() - at.index,
{
    lemma_function_tidy(tokens, at, good);
    match function(tokens, at) {
        Ok((Some(first), after)) => {
            if let Ok((_, after)) = forward(function(tokens, at), at, tokens.len()) {
                lemma_program_tidy(tokens, after, good);
                if let Ok((rest, _)) = program(tokens, after) {
                    lemma_tidy_concat(first, rest, good);
                }
            }
        },
        _ => {},
    }
}

} // verus!
