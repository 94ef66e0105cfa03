//! Every jump has its target.
//!
//! The code of an expression or of a simple statement does not jump. A loop
//! and a conditional jump to their own labels only, which they define. So
//! every label that an instruction of a program jumps to is defined by an
//! instruction of the program.

use crate::grammar::{
    additive, additive_tail, alternative, arguments, array_form, assignment, binary, block,
    branching, comparison, conditional_code, conditional_labels, declaration, expression, forward,
    function, loop_code, loop_labels, looping, multiplicative, multiplicative_tail, multiplying,
    parameters, peek_at, plain, printing, program, reading, relational, returning, statement, term,
    Cursor,
};
use crate::ir::{ExprView, Instr, Label, Operand, Operator};
use crate::token::TokenView;
use vstd::prelude::*;

verus! {

/// The instruction jumps to `label`, always or on a condition.
pub open spec fn jumps_to(instr: Instr, label: Label) -> bool {
    match instr {
        Instr::Jump(target) => target == label,
        Instr::BranchIf { cond, target } => target == label,
        Instr::BranchIfNot { cond, target } => target == label,
        _ => false,
    }
}

/// The instruction is a jump.
pub open spec fn jumps(instr: Instr) -> bool {
    instr is Jump || instr is BranchIf || instr is BranchIfNot
}

/// An instruction of the code defines `label`.
pub open spec fn defines(code: Seq<Instr>, label: Label) -> bool {
    exists|i: int| 0 <= i < code.len() && #[trigger] code[i] == Instr::Mark(label)
}

/// No instruction of the code is a jump.
pub open spec fn straight(code: Seq<Instr>) -> bool {
    forall|i: int| 0 <= i < code.len() ==> !jumps(#[trigger] code[i])
}

/// Every label that an instruction of the code jumps to is defined in the
/// code.
pub open spec fn closed(code: Seq<Instr>) -> bool {
    forall|j: int, label: Label|
        0 <= j < code.len() && #[trigger] jumps_to(code[j], label) ==> defines(code, label)
}

/// The code of a successfully read expression does not jump.
pub open spec fn straight_result<T>(r: Result<(ExprView, T), Seq<char>>) -> bool {
    match r {
        Ok((value, _)) => straight(value.code),
        Err(_) => true,
    }
}

/// Successfully read code does not jump.
pub open spec fn straight_code<T>(r: Result<(Seq<Instr>, T), Seq<char>>) -> bool {
    match r {
        Ok((code, _)) => straight(code),
        Err(_) => true,
    }
}

/// Successfully read code is closed.
pub open spec fn closed_code<T>(r: Result<(Seq<Instr>, T), Seq<char>>) -> bool {
    match r {
        Ok((code, _)) => closed(code),
        Err(_) => true,
    }
}

/// As [`closed_code`], for code that may be absent.
pub open spec fn closed_optional<T>(r: Result<(Option<Seq<Instr>>, T), Seq<char>>) -> bool {
    match r {
        Ok((Some(code), _)) => closed(code),
        _ => true,
    }
}

/// Code without jumps followed by code without jumps is without jumps.
proof fn lemma_straight_concat(a: Seq<Instr>, b: Seq<Instr>)
    requires
        straight(a),
        straight(b),
    ensures
        straight(a + b),
{
    assert forall|i: int| 0 <= i < (a + b).len() implies !jumps(#[trigger] (a + b)[i]) by {
        if i < a.len() {
            assert((a + b)[i] == a[i]);
        } else {
            assert((a + b)[i] == b[i - a.len()]);
        }
    }
}

proof fn lemma_binary_straight(op: Operator, left: ExprView, right: ExprView, at: Cursor)
    requires
        straight(left.code),
        straight(right.code),
    ensures
        straight(binary(op, left, right, at).0.code),
{
    let t = at.temporary();
    lemma_straight_concat(left.code, right.code);
    lemma_straight_concat(
        left.code + right.code,
        seq![Instr::Declare(t), Instr::Binary { op, dst: t, left: left.name, right: right.name }],
    );
}

proof fn lemma_term_straight(tokens: Seq<TokenView>, at: Cursor)
    ensures
        straight_result(term(tokens, at)),
    decreases tokens.len() - at.index, 0int,
{
    match peek_at(tokens, at.index) {
        Some(TokenView::Ident(name)) => match peek_at(tokens, at.index + 1) {
            Some(TokenView::LeftParen) => {
                let read = if peek_at(tokens, at.index + 2) == Some(TokenView::RightParen) {
                    Ok(((Seq::<Instr>::empty(), Seq::<Operand>::empty()), at.step(3)))
                } else {
                    lemma_arguments_straight(tokens, at.step(2), Seq::empty(), Seq::empty());
                    arguments(tokens, at.step(2), Seq::empty(), Seq::empty())
                };
                if let Ok(((code, args), after)) = read {
                    let t = after.temporary();
                    lemma_straight_concat(
                        code,
                        seq![Instr::Declare(t), Instr::Call { dst: t, function: name, args }],
                    );
                }
            },
            Some(TokenView::LeftBracket) => {
                lemma_expression_straight(tokens, at.step(2));
                if let Ok((index, after)) = expression(tokens, at.step(2)) {
                    let t = after.temporary();
                    lemma_straight_concat(
                        index.code,
                        seq![
                            Instr::Declare(t),
                            Instr::Load {
                                dst: t,
                                base: Operand::Variable(name),
                                index: index.name,
                            },
                        ],
                    );
                }
            },
            _ => {},
        },
        Some(TokenView::LeftParen) => {
            lemma_expression_straight(tokens, at.step(1));
        },
        _ => {},
    }
}

proof fn lemma_arguments_straight(
    tokens: Seq<TokenView>,
    at: Cursor,
    code: Seq<Instr>,
    names: Seq<Operand>,
)
    requires
        straight(code),
    ensures
        match arguments(tokens, at, code, names) {
            Ok(((all, _), _)) => straight(all),
            Err(_) => true,
        },
    decreases tokens.len() - at.index, 3int,
{
    lemma_expression_straight(tokens, at);
    match forward(expression(tokens, at), at, tokens.len()) {
        Ok((argument, after)) => {
            lemma_straight_concat(code, argument.code);
            if peek_at(tokens, after.index) == Some(TokenView::Comma) {
                lemma_arguments_straight(
                    tokens,
                    after.step(1),
                    code + argument.code,
                    names.push(argument.name),
                );
            }
        },
        Err(_) => {},
    }
}

proof fn lemma_multiplicative_straight(tokens: Seq<TokenView>, at: Cursor)
    ensures
        straight_result(multiplicative(tokens, at)),
    decreases tokens.len() - at.index, 1int,
{
    lemma_term_straight(tokens, at);
    match forward(term(tokens, at), at, tokens.len()) {
        Ok((left, after)) => {
            lemma_multiplicative_tail_straight(tokens, after, left);
        },
        Err(_) => {},
    }
}

proof fn lemma_multiplicative_tail_straight(tokens: Seq<TokenView>, at: Cursor, left: ExprView)
    requires
        straight(left.code),
    ensures
        straight_result(multiplicative_tail(tokens, at, left)),
    decreases tokens.len() - at.index, 0int,
{
    match peek_at(tokens, at.index) {
        Some(token) => match multiplying(token) {
            Some(op) => {
                lemma_term_straight(tokens, at.step(1));
                match forward(term(tokens, at.step(1)), at, tokens.len()) {
                    Ok((right, after)) => {
                        let (product, behind) = binary(op, left, right, after);
                        lemma_binary_straight(op, left, right, after);
                        lemma_multiplicative_tail_straight(tokens, behind, product);
                    },
                    Err(_) => {},
                }
            },
            None => {},
        },
        None => {},
    }
}

proof fn lemma_expression_straight(tokens: Seq<TokenView>, at: Cursor)
    ensures
        straight_result(expression(tokens, at)),
    decreases tokens.len() - at.index, 2int,
{
    lemma_multiplicative_straight(tokens, at);
    match forward(multiplicative(tokens, at), at, tokens.len()) {
        Ok((left, after)) => {
            lemma_additive_tail_straight(tokens, after, left);
        },
        Err(_) => {},
    }
}

proof fn lemma_additive_tail_straight(tokens: Seq<TokenView>, at: Cursor, left: ExprView)
    requires
        straight(left.code),
    ensures
        straight_result(additive_tail(tokens, at, left)),
    decreases tokens.len() - at.index, 0int,
{
    match peek_at(tokens, at.index) {
        Some(token) => match additive(token) {
            Some(op) => {
                lemma_multiplicative_straight(tokens, at.step(1));
                match forward(multiplicative(tokens, at.step(1)), at, tokens.len()) {
                    Ok((right, after)) => {
                        let (sum, behind) = binary(op, left, right, after);
                        lemma_binary_straight(op, left, right, after);
                        lemma_additive_tail_straight(tokens, behind, sum);
                    },
                    Err(_) => {},
                }
            },
            None => {},
        },
        None => {},
    }
}

proof fn lemma_comparison_straight(tokens: Seq<TokenView>, at: Cursor)
    ensures
        straight_result(comparison(tokens, at)),
{
    lemma_term_straight(tokens, at);
    if let Ok((left, after)) = term(tokens, at) {
        lemma_term_straight(tokens, after.step(1));
        if let Some(token) = peek_at(tokens, after.index) {
            if let Some(op) = relational(token) {
                if let Ok((right, behind)) = term(tokens, after.step(1)) {
                    lemma_binary_straight(op, left, right, behind);
                }
            }
        }
    }
}

proof fn lemma_array_form_straight(tokens: Seq<TokenView>, at: Cursor)
    ensures
        straight_result(array_form(tokens, at)),
{
    lemma_expression_straight(tokens, at);
    lemma_expression_straight(tokens, at.step(1));
}

proof fn lemma_declaration_straight(tokens: Seq<TokenView>, at: Cursor)
    ensures
        straight_code(declaration(tokens, at)),
{
    reveal(declaration);
    lemma_expression_straight(tokens, at.step(1));
    if let Ok((size, after)) = expression(tokens, at.step(1)) {
        }
}

proof fn lemma_assignment_straight(tokens: Seq<TokenView>, at: Cursor, name: Seq<char>)
    ensures
        straight_code(assignment(tokens, at, name)),
{
    reveal(assignment);
    lemma_expression_straight(tokens, at.step(1));
    match peek_at(tokens, at.index) {
        Some(TokenView::Assign) => {
            if let Ok((value, _)) = expression(tokens, at.step(1)) {
                lemma_straight_concat(
                    value.code,
                    seq![Instr::Move { dst: Operand::Variable(name), src: value.name }],
                );
            }
        },
        Some(TokenView::LeftBracket) => {
            if let Ok((index, after)) = expression(tokens, at.step(1)) {
                lemma_expression_straight(tokens, after.step(2));
                if let Ok((value, _)) = expression(tokens, after.step(2)) {
                    lemma_straight_concat(index.code, value.code);
                    lemma_straight_concat(
                        index.code + value.code,
                        seq![Instr::Store { array: name, index: index.name, src: value.name }],
                    );
                }
            }
        },
        Some(token) => {
            if let Some(op) = relational(token) {
                if let Ok((right, after)) = expression(tokens, at.step(1)) {
                    let left = plain(Operand::Variable(name));
                    lemma_binary_straight(op, left, right, after);
                    let truth = binary(op, left, right, after).0;
                    lemma_straight_concat(truth.code, seq![Instr::Discard(truth.name)]);
                }
            }
        },
        None => {},
    }
}

proof fn lemma_returning_straight(tokens: Seq<TokenView>, at: Cursor)
    ensures
        straight_code(returning(tokens, at)),
{
    reveal(returning);
    lemma_expression_straight(tokens, at);
    if let Ok((value, _)) = expression(tokens, at) {
        lemma_straight_concat(value.code, seq![Instr::Return(value.name)]);
    }
}

proof fn lemma_printing_straight(tokens: Seq<TokenView>, at: Cursor)
    ensures
        straight_code(printing(tokens, at)),
{
    reveal(printing);
    lemma_term_straight(tokens, at.step(1));
    if let Ok((value, after)) = term(tokens, at.step(1)) {
        lemma_straight_concat(value.code, seq![Instr::Output(value.name)]);
        lemma_array_form_straight(tokens, after);
        if let Ok((index, behind)) = array_form(tokens, after) {
            let t = behind.temporary();
            lemma_straight_concat(value.code, index.code);
            lemma_straight_concat(
                value.code + index.code,
                seq![
                    Instr::Declare(t),
                    Instr::Load { dst: t, base: value.name, index: index.name },
                    Instr::Output(t),
                ],
            );
        }
    }
}

proof fn lemma_reading_straight(tokens: Seq<TokenView>, at: Cursor)
    ensures
        straight_code(reading(tokens, at)),
{
    reveal(reading);
    lemma_expression_straight(tokens, at.step(1));
    if let Ok((value, _)) = expression(tokens, at.step(1)) {
        lemma_straight_concat(value.code, seq![Instr::Input(value.name)]);
    }
}

/// Code that does not jump is closed.
proof fn lemma_straight_is_closed(code: Seq<Instr>)
    requires
        straight(code),
    ensures
        closed(code),
{
    assert forall|j: int, label: Label|
        0 <= j < code.len() && #[trigger] jumps_to(code[j], label) implies defines(
        code,
        label,
    ) by {
        assert(!jumps(code[j]));
    }
}

/// What a piece of code defines is defined in any code that holds the
/// piece.
proof fn lemma_defines_in_whole(a: Seq<Instr>, b: Seq<Instr>, label: Label)
    ensures
        defines(a, label) ==> defines(a + b, label),
        defines(b, label) ==> defines(a + b, label),
{
    if defines(a, label) {
        let i = choose|i: int| 0 <= i < a.len() && #[trigger] a[i] == Instr::Mark(label);
        assert((a + b)[i] == a[i]);
    }
    if defines(b, label) {
        let i = choose|i: int| 0 <= i < b.len() && #[trigger] b[i] == Instr::Mark(label);
        assert((a + b)[a.len() + i] == b[i]);
    }
}

/// Closed code followed by closed code is closed.
proof fn lemma_closed_concat(a: Seq<Instr>, b: Seq<Instr>)
    requires
        closed(a),
        closed(b),
    ensures
        closed(a + b),
{
    let all = a + b;
    assert forall|j: int, label: Label|
        0 <= j < all.len() && #[trigger] jumps_to(all[j], label) implies defines(all, label) by {
        lemma_defines_in_whole(a, b, label);
        if j < a.len() {
            assert(all[j] == a[j]);
        } else {
            assert(all[j] == b[j - a.len()]);
        }
    }
}

/// The code of a loop whose condition does not jump and whose body is
/// closed is closed.
proof fn lemma_loop_closed(begin: Label, end: Label, condition: ExprView, body: Seq<Instr>)
    requires
        straight(condition.code),
        closed(body),
    ensures
        closed(loop_code(begin, end, condition, body)),
{
    let head = seq![Instr::Mark(begin)] + condition.code + seq![
        Instr::BranchIfNot { cond: condition.name, target: end },
    ];
    let tail = seq![Instr::Jump(begin), Instr::Mark(end)];
    let all = loop_code(begin, end, condition, body);
    assert(all =~= head + body + tail);
    assert(all[0] == Instr::Mark(begin));
    assert(all[all.len() - 1] == Instr::Mark(end));
    assert forall|j: int, label: Label|
        0 <= j < all.len() && #[trigger] jumps_to(all[j], label) implies defines(all, label) by {
        if j < head.len() {
            assert(all[j] == head[j]);
            if 1 <= j <= condition.code.len() {
                assert(head[j] == condition.code[j - 1]);
                assert(!jumps(condition.code[j - 1]));
            }
        } else if j < head.len() + body.len() {
            assert(all[j] == body[j - head.len()]);
            lemma_defines_in_whole(head, body, label);
            lemma_defines_in_whole(head + body, tail, label);
        } else {
            assert(all[j] == tail[j - head.len() - body.len()]);
        }
    }
}

/// The code of a conditional whose condition does not jump and whose
/// branches are closed is closed.
proof fn lemma_conditional_closed(
    yes: Label,
    end: Label,
    condition: ExprView,
    first: Seq<Instr>,
    second: Seq<Instr>,
)
    requires
        straight(condition.code),
        closed(first),
        closed(second),
    ensures
        closed(conditional_code(yes, end, condition, first, second)),
{
    let head = condition.code + seq![Instr::BranchIf { cond: condition.name, target: yes }];
    let middle = seq![Instr::Jump(end), Instr::Mark(yes)];
    let tail = seq![Instr::Mark(end)];
    let all = conditional_code(yes, end, condition, first, second);
    assert(all =~= head + second + middle + first + tail);
    let at_yes = head.len() + second.len() + 1;
    assert(all[at_yes as int] == Instr::Mark(yes));
    assert(all[all.len() - 1] == Instr::Mark(end));
    assert forall|j: int, label: Label|
        0 <= j < all.len() && #[trigger] jumps_to(all[j], label) implies defines(all, label) by {
        if j < head.len() {
            assert(all[j] == head[j]);
            if j < condition.code.len() {
                assert(head[j] == condition.code[j]);
                assert(!jumps(condition.code[j]));
            }
        } else if j < head.len() + second.len() {
            assert(all[j] == second[j - head.len()]);
            lemma_defines_in_whole(head, second, label);
            lemma_defines_in_whole(head + second, middle, label);
            lemma_defines_in_whole(head + second + middle, first, label);
            lemma_defines_in_whole(head + second + middle + first, tail, label);
        } else if j < head.len() + second.len() + 2 {
            assert(all[j] == middle[j - head.len() - second.len()]);
        } else if j < head.len() + second.len() + 2 + first.len() {
            assert(all[j] == first[j - head.len() - second.len() - 2]);
            lemma_defines_in_whole(head + second + middle, first, label);
            lemma_defines_in_whole(head + second + middle + first, tail, label);
        } else {
            assert(all[j] == tail[j - head.len() - second.len() - 2 - first.len()]);
        }
    }
}

proof fn lemma_looping_closed(tokens: Seq<TokenView>, at: Cursor)
    ensures
        closed_code(looping(tokens, at)),
    decreases tokens.len() - at.index, 0int,
{
    let start = loop_labels(at);
    lemma_comparison_straight(tokens, start);
    if let Ok((condition, after)) = forward(comparison(tokens, start), at, tokens.len()) {
        if peek_at(tokens, after.index) == Some(TokenView::LeftCurly) {
            lemma_block_closed(tokens, after.step(1));
            if let Ok((body, _)) = block(tokens, after.step(1)) {
                lemma_loop_closed(
                    Label::LoopBegin(start.names.loop_begin),
                    Label::LoopEnd(start.names.loop_end),
                    condition,
                    body,
                );
            }
        }
    }
}

proof fn lemma_alternative_closed(tokens: Seq<TokenView>, at: Cursor)
    ensures
        closed_code(alternative(tokens, at)),
    decreases tokens.len() - at.index, 0int,
{
    if peek_at(tokens, at.index) == Some(TokenView::Else) && peek_at(tokens, at.index + 1) == Some(
        TokenView::LeftCurly,
    ) {
        lemma_block_closed(tokens, at.step(2));
    }
}

proof fn lemma_branching_closed(tokens: Seq<TokenView>, at: Cursor)
    ensures
        closed_code(branching(tokens, at)),
    decreases tokens.len() - at.index, 0int,
{
    let start = conditional_labels(at);
    lemma_comparison_straight(tokens, start);
    if let Ok((condition, after)) = forward(comparison(tokens, start), at, tokens.len()) {
        if peek_at(tokens, after.index) == Some(TokenView::LeftCurly) {
            lemma_block_closed(tokens, after.step(1));
            let inner = forward(block(tokens, after.step(1)), after, tokens.len());
            if let Ok((first, middle)) = inner {
                lemma_alternative_closed(tokens, middle);
                if let Ok((second, _)) = alternative(tokens, middle) {
                    lemma_conditional_closed(
                        Label::IfTrue(start.names.if_true),
                        Label::EndIf(start.names.end_if),
                        condition,
                        first,
                        second,
                    );
                }
            }
        }
    }
}

proof fn lemma_statement_closed(tokens: Seq<TokenView>, at: Cursor)
    ensures
        closed_optional(statement(tokens, at)),
    decreases tokens.len() - at.index, 1int,
{
    match peek_at(tokens, at.index) {
        Some(TokenView::Int) => {
            lemma_declaration_straight(tokens, at.step(1));
            if let Ok((code, _)) = declaration(tokens, at.step(1)) {
                lemma_straight_is_closed(code);
            }
        },
        Some(TokenView::Ident(name)) => {
            lemma_assignment_straight(tokens, at.step(1), name);
            if let Ok((code, _)) = assignment(tokens, at.step(1), name) {
                lemma_straight_is_closed(code);
            }
        },
        Some(TokenView::Return) => {
            lemma_returning_straight(tokens, at.step(1));
            if let Ok((code, _)) = returning(tokens, at.step(1)) {
                lemma_straight_is_closed(code);
            }
        },
        Some(TokenView::Print) => {
            lemma_printing_straight(tokens, at.step(1));
            if let Ok((code, _)) = printing(tokens, at.step(1)) {
                lemma_straight_is_closed(code);
            }
        },
        Some(TokenView::Read) => {
            lemma_reading_straight(tokens, at.step(1));
            if let Ok((code, _)) = reading(tokens, at.step(1)) {
                lemma_straight_is_closed(code);
            }
        },
        Some(TokenView::While) => {
            lemma_looping_closed(tokens, at.step(1));
        },
        Some(TokenView::If) => {
            lemma_branching_closed(tokens, at.step(1));
        },
        _ => {},
    }
}

proof fn lemma_block_closed(tokens: Seq<TokenView>, at: Cursor)
    ensures
        closed_code(block(tokens, at)),
    decreases tokens.len() - at.index, 2int,
{
    match peek_at(tokens, at.index) {
        None => {},
        Some(TokenView::RightCurly) => {},
        Some(_) => {
            lemma_statement_closed(tokens, at);
            if let Ok((first, after)) = forward(statement(tokens, at), at, tokens.len()) {
                lemma_block_closed(tokens, after);
                if let Ok((rest, _)) = block(tokens, after) {
                    let code = match first {
                        Some(code) => code,
                        None => Seq::empty(),
                    };
                    lemma_closed_concat(code, rest);
                }
            }
        },
    }
}

proof fn lemma_function_closed(tokens: Seq<TokenView>, at: Cursor)
    ensures
        closed_optional(function(tokens, at)),
{
    if let Ok((params, index)) = parameters(tokens, at.index + 3) {
        let inside = Cursor { index: index + 1, names: at.names };
        lemma_block_closed(tokens, inside);
        if let Ok((body, _)) = block(tokens, inside) {
            if let Some(TokenView::Ident(name)) = peek_at(tokens, at.index + 1) {
                let head = seq![Instr::Func { name, params }];
                let tail = seq![Instr::EndFunc];
                lemma_straight_is_closed(head);
                lemma_straight_is_closed(tail);
                lemma_closed_concat(head, body);
                lemma_closed_concat(head + body, tail);
            }
        }
    }
}

/// The code of a program is closed: every label that one of its
/// instructions jumps to is defined by one of its instructions.
pub proof fn lemma_program_closed(tokens: Seq<TokenView>, at: Cursor)
    ensures
        closed_code(program(tokens, at)),
    decreases tokens.len() - at.index,
{
    lemma_function_closed(tokens, at);
    match function(tokens, at) {
        Ok((Some(first), after)) => {
            if let Ok((_, after)) = forward(function(tokens, at), at, tokens.len()) {
                lemma_program_closed(tokens, after);
                if let Ok((rest, _)) = program(tokens, after) {
                    lemma_closed_concat(first, rest);
                }
            }
        },
        _ => {},
    }
}

/// Every jump of a program has its target: a label that an instruction of
/// the program jumps to is defined by an instruction of the program.
pub proof fn lemma_jumps_have_targets(tokens: Seq<TokenView>, at: Cursor, j: int, label: Label)
    requires
        program(tokens, at) is Ok,
        0 <= j < program(tokens, at)->Ok_0.0.len(),
        jumps_to(program(tokens, at)->Ok_0.0[j], label),
    ensures
        defines(program(tokens, at)->Ok_0.0, label),
{
    lemma_program_closed(tokens, at);
}

} // verus!
