//! The parser for statements, functions and programs.

use crate::grammar::{
    alternative, array_form, assignment, binary, block, branching, closing, comparison,
    conditional_code, conditional_labels, declaration, end_of_tokens, expression, function,
    loop_code, loop_labels, looping, more_parameters, parameters, plain, printing, program, reading,
    relational, returning, statement, term, terminated, Cursor, Parse,
};
use crate::ir::{
    create_endif_label, create_iftrue_label, create_temp, create_whileloopbegin_label,
    create_whileloopend_label, element, emit1, emit2, emit_mark, instr_text, lemma_render_append,
    lemma_render_concat, lemma_render_empty, lemma_render_one, lemma_render_push, render, signature,
    string_views, target, Counters, ExprView, Instr, Label, Operand,
};
use crate::parser::{
    combine, cursor, next, next_result, onward, operand, parse_array_form, parse_boolean_expression,
    parse_expression, parse_term, peek, peek_result, relational_opcode,
};
use crate::progress::{
    lemma_alternative_moves, lemma_array_form_moves, lemma_assignment_moves, lemma_block_moves,
    lemma_branching_moves, lemma_comparison_moves, lemma_declaration_moves, lemma_expression_moves,
    lemma_function_moves, lemma_looping_moves, lemma_more_parameters_moves, lemma_printing_moves,
    lemma_program_moves, lemma_reading_moves, lemma_returning_moves, lemma_statement_moves,
    lemma_term_moves,
};
use crate::token::{token_views, Token, TokenView};
use vstd::prelude::*;

verus! {

/// The result `r`, with `index` and `counters` as the parser left them, is
/// what the grammar gives for a piece of code: the text of the same
/// instructions and the same cursor, or the same message.
pub open spec fn gives_code(
    r: Result<String, String>,
    index: usize,
    counters: Counters,
    expected: Parse<Seq<Instr>>,
) -> bool {
    match expected {
        Ok((code, behind)) => r is Ok && r->Ok_0@ == render(code) && cursor(index, counters)
            == behind,
        Err(message) => r is Err && r->Err_0@ == message,
    }
}

/// As [`gives_code`], for a construct that may be absent.
pub open spec fn gives_optional_code(
    r: Result<Option<String>, String>,
    index: usize,
    counters: Counters,
    expected: Parse<Option<Seq<Instr>>>,
) -> bool {
    match expected {
        Ok((Some(code), behind)) => r matches Ok(Some(text)) && text@ == render(code) && cursor(
            index,
            counters,
        ) == behind,
        Ok((None, behind)) => r matches Ok(None) && cursor(index, counters) == behind,
        Err(message) => r is Err && r->Err_0@ == message,
    }
}

/// Reads a declaration behind its `int`.
fn parse_declaration(tokens: &Vec<Token>, index: &mut usize, counters: &mut Counters) -> (r:
    Result<String, String>)
    requires
        old(counters).room(tokens.len() - *old(index)),
    ensures
        gives_code(
            r,
            *final(index),
            *final(counters),
            declaration(token_views(tokens@), cursor(*old(index), *old(counters))),
        ),
        onward(*old(index), *old(counters), *final(index), *final(counters)),
{
    let ghost views = token_views(tokens@);
    let ghost at = cursor(*index, *counters);
    proof {
        reveal(declaration);
        lemma_declaration_moves(views, at);
    }
    let token = match next_result(tokens, index) {
        Ok(token) => token,
        Err(message) => return Err(message),
    };
    match token {
        Token::LeftBracket => {
            let size = match parse_expression(tokens, index, counters) {
                Ok(size) => size,
                Err(message) => return Err(message),
            };
            let ghost (extent, after) = expression(views, at.step(1))->Ok_0;
            proof {
                lemma_expression_moves(views, at.step(1));
            }
            let closing = match next_result(tokens, index) {
                Ok(token) => token,
                Err(message) => return Err(message),
            };
            if !matches!(closing, Token::RightBracket) {
                return Err(String::from_str("expected ']'"));
            }
            match peek(tokens, *index) {
                Some(token) => match token {
                    Token::Ident(name) => {
                        *index += 1;
                        let mut code = String::new();
                        emit2(&mut code, "%int[]", name.as_str(), size.name.as_str());
                        proof {
                            lemma_render_one(
                                Instr::DeclareArray { name: name@, size: extent.name },
                            );
                            assert(Seq::<char>::empty() + code@ =~= code@);
                        }
                        Ok(code)
                    },
                    _ => Err(String::from_str("expected identifier")),
                },
                None => Err(String::from_str("expected identifier")),
            }
        },
        Token::Ident(name) => {
            let mut code = String::new();
            emit1(&mut code, "%int", name.as_str());
            proof {
                lemma_render_one(Instr::Declare(Operand::Variable(name@)));
                assert(Seq::<char>::empty() + code@ =~= code@);
            }
            Ok(code)
        },
        _ => Err(String::from_str("expected identifier")),
    }
}

/// Reads what follows the identifier `name` at the beginning of a
/// statement: an assignment to it or to one of its elements, or a comparison
/// whose result is dropped.
fn parse_assignment(
    tokens: &Vec<Token>,
    index: &mut usize,
    counters: &mut Counters,
    name: &String,
) -> (r: Result<String, String>)
    requires
        old(counters).room(tokens.len() - *old(index)),
    ensures
        gives_code(
            r,
            *final(index),
            *final(counters),
            assignment(token_views(tokens@), cursor(*old(index), *old(counters)), name@),
        ),
        onward(*old(index), *old(counters), *final(index), *final(counters)),
{
    let ghost views = token_views(tokens@);
    let ghost at = cursor(*index, *counters);
    proof {
        reveal(assignment);
        lemma_assignment_moves(views, at, name@);
    }
    let token = match peek(tokens, *index) {
        Some(token) => token,
        None => return Err(String::from_str("unexpected token after identifier")),
    };
    match token {
        Token::Assign => {
            *index += 1;
            let value = match parse_expression(tokens, index, counters) {
                Ok(value) => value,
                Err(message) => return Err(message),
            };
            let ghost (source, after) = expression(views, at.step(1))->Ok_0;
            let mut code = value.code;
            emit2(&mut code, "%mov", name.as_str(), value.name.as_str());
            proof {
                lemma_render_append(
                    source.code,
                    Instr::Move { dst: Operand::Variable(name@), src: source.name },
                );
            }
            Ok(code)
        },
        Token::LeftBracket => {
            *index += 1;
            let position = match parse_expression(tokens, index, counters) {
                Ok(position) => position,
                Err(message) => return Err(message),
            };
            let ghost (place, middle) = expression(views, at.step(1))->Ok_0;
            proof {
                lemma_expression_moves(views, at.step(1));
            }
            let closing = match next_result(tokens, index) {
                Ok(token) => token,
                Err(message) => return Err(message),
            };
            if !matches!(closing, Token::RightBracket) {
                return Err(String::from_str("expected ']'"));
            }
            let assigns = match peek(tokens, *index) {
                Some(token) => matches!(token, Token::Assign),
                None => false,
            };
            if !assigns {
                return Err(String::from_str("unexpected token after identifier []"));
            }
            *index += 1;
            let value = match parse_expression(tokens, index, counters) {
                Ok(value) => value,
                Err(message) => return Err(message),
            };
            let ghost (source, after) = expression(views, middle.step(2))->Ok_0;
            let mut code = position.code;
            code.append(value.code.as_str());
            let destination = element(name.as_str(), position.name.as_str());
            emit2(&mut code, "%mov", destination.as_str(), value.name.as_str());
            proof {
                lemma_render_concat(place.code, source.code);
                lemma_render_append(
                    place.code + source.code,
                    Instr::Store { array: name@, index: place.name, src: source.name },
                );
            }
            Ok(code)
        },
        _ => {
            let operation = match relational_opcode(token) {
                Some(operation) => operation,
                None => return Err(String::from_str("unexpected token after identifier")),
            };
            let ghost op = relational(token@)->0;
            *index += 1;
            let right = match parse_expression(tokens, index, counters) {
                Ok(right) => right,
                Err(message) => return Err(message),
            };
            let ghost (second, after) = expression(views, at.step(1))->Ok_0;
            proof {
                lemma_expression_moves(views, at.step(1));
            }
            let truth = combine(
                operand(name.clone()),
                right,
                operation,
                counters,
                Ghost(op),
                Ghost(plain(Operand::Variable(name@))),
                Ghost(second),
                Ghost(after.index),
            );
            let ghost compared = binary(op, plain(Operand::Variable(name@)), second, after).0;
            let mut code = truth.code;
            emit1(&mut code, "%mov", truth.name.as_str());
            proof {
                lemma_render_append(compared.code, Instr::Discard(compared.name));
            }
            Ok(code)
        },
    }
}

/// Reads the value of a `return` statement, behind its keyword.
fn parse_return(tokens: &Vec<Token>, index: &mut usize, counters: &mut Counters) -> (r:
    Result<String, String>)
    requires
        old(counters).room(tokens.len() - *old(index)),
    ensures
        gives_code(
            r,
            *final(index),
            *final(counters),
            returning(token_views(tokens@), cursor(*old(index), *old(counters))),
        ),
        onward(*old(index), *old(counters), *final(index), *final(counters)),
{
    let ghost views = token_views(tokens@);
    let ghost at = cursor(*index, *counters);
    proof {
        reveal(returning);
        lemma_returning_moves(views, at);
    }
    let value = match parse_expression(tokens, index, counters) {
        Ok(value) => value,
        Err(message) => return Err(message),
    };
    let ghost (source, after) = expression(views, at)->Ok_0;
    let mut code = value.code;
    emit1(&mut code, "%ret", value.name.as_str());
    proof {
        lemma_render_append(source.code, Instr::Return(source.name));
    }
    Ok(code)
}

/// Reads the parenthesis that closes the operand of `print` or `read`,
/// behind the code `code` of the statement.
fn parse_closing(tokens: &Vec<Token>, index: &mut usize, code: String) -> (r: Result<
    String,
    String,
>)
    ensures
        match r {
            Ok(text) => *old(index) < tokens.len() && tokens@[*old(index) as int]@
                == TokenView::RightParen && *final(index) == *old(index) + 1 && text == code,
            Err(message) => if *old(index) < tokens.len() {
                tokens@[*old(index) as int]@ != TokenView::RightParen && message@
                    == "expect ')' closing statement"@
            } else {
                message@ == end_of_tokens()
            },
        },
        *old(index) <= *final(index),
{
    let token = match next_result(tokens, index) {
        Ok(token) => token,
        Err(message) => return Err(message),
    };
    if !matches!(token, Token::RightParen) {
        return Err(String::from_str("expect ')' closing statement"));
    }
    Ok(code)
}

/// Reads the operand of a `print` statement, behind its keyword.
fn parse_print(tokens: &Vec<Token>, index: &mut usize, counters: &mut Counters) -> (r: Result<
    String,
    String,
>)
    requires
        old(counters).room(tokens.len() - *old(index)),
    ensures
        gives_code(
            r,
            *final(index),
            *final(counters),
            printing(token_views(tokens@), cursor(*old(index), *old(counters))),
        ),
        onward(*old(index), *old(counters), *final(index), *final(counters)),
{
    let ghost views = token_views(tokens@);
    let ghost at = cursor(*index, *counters);
    proof {
        reveal(printing);
        lemma_printing_moves(views, at);
    }
    let token = match next_result(tokens, index) {
        Ok(token) => token,
        Err(message) => return Err(message),
    };
    if !matches!(token, Token::LeftParen) {
        return Err(String::from_str("expect '(' closing statement"));
    }
    let value = match parse_term(tokens, index, counters) {
        Ok(value) => value,
        Err(message) => return Err(message),
    };
    let ghost (shown, after) = term(views, at.step(1))->Ok_0;
    proof {
        lemma_term_moves(views, at.step(1));
    }
    let following = match peek_result(tokens, *index) {
        Ok(token) => token,
        Err(message) => return Err(message),
    };
    let mut code = value.code;
    if matches!(following, Token::LeftBracket) {
        let position = match parse_array_form(tokens, index, counters) {
            Ok(position) => position,
            Err(message) => return Err(message),
        };
        let ghost (place, behind) = array_form(views, after)->Ok_0;
        proof {
            lemma_array_form_moves(views, after);
        }
        let t = create_temp(counters);
        code.append(position.code.as_str());
        emit1(&mut code, "%int", t.as_str());
        let source = element(value.name.as_str(), position.name.as_str());
        emit2(&mut code, "%mov", t.as_str(), source.as_str());
        emit1(&mut code, "%out", t.as_str());
        proof {
            let target = Operand::Temporary(counters@.temp);
            let declare = Instr::Declare(target);
            let load = Instr::Load { dst: target, base: shown.name, index: place.name };
            let output = Instr::Output(target);
            let both = shown.code + place.code;
            lemma_render_concat(shown.code, place.code);
            lemma_render_push(both, declare);
            lemma_render_push(both.push(declare), load);
            lemma_render_push(both.push(declare).push(load), output);
            assert(both.push(declare).push(load).push(output) =~= both + seq![
                declare,
                load,
                output,
            ]);
        }
    } else {
        emit1(&mut code, "%out", value.name.as_str());
        proof {
            lemma_render_append(shown.code, Instr::Output(shown.name));
        }
    }
    parse_closing(tokens, index, code)
}

/// Reads the operand of a `read` statement, behind its keyword.
fn parse_read(tokens: &Vec<Token>, index: &mut usize, counters: &mut Counters) -> (r: Result<
    String,
    String,
>)
    requires
        old(counters).room(tokens.len() - *old(index)),
    ensures
        gives_code(
            r,
            *final(index),
            *final(counters),
            reading(token_views(tokens@), cursor(*old(index), *old(counters))),
        ),
        onward(*old(index), *old(counters), *final(index), *final(counters)),
{
    let ghost views = token_views(tokens@);
    let ghost at = cursor(*index, *counters);
    proof {
        reveal(reading);
        lemma_reading_moves(views, at);
    }
    let token = match next_result(tokens, index) {
        Ok(token) => token,
        Err(message) => return Err(message),
    };
    if !matches!(token, Token::LeftParen) {
        return Err(String::from_str("expect '(' closing statement"));
    }
    let value = match parse_expression(tokens, index, counters) {
        Ok(value) => value,
        Err(message) => return Err(message),
    };
    let ghost (target, after) = expression(views, at.step(1))->Ok_0;
    let mut code = value.code;
    emit1(&mut code, "%input", value.name.as_str());
    proof {
        lemma_render_append(target.code, Instr::Input(target.name));
    }
    parse_closing(tokens, index, code)
}

/// The text of a loop is the text of its parts in their order.
proof fn lemma_render_loop(begin: Label, end: Label, condition: ExprView, body: Seq<Instr>)
    ensures
        render(loop_code(begin, end, condition, body)) == instr_text(Instr::Mark(begin)) + render(
            condition.code,
        ) + instr_text(Instr::BranchIfNot { cond: condition.name, target: end }) + render(body)
            + instr_text(Instr::Jump(begin)) + instr_text(Instr::Mark(end)),
{
    let mark = seq![Instr::Mark(begin)];
    let branch = Instr::BranchIfNot { cond: condition.name, target: end };
    let head = mark + condition.code + seq![branch];
    lemma_render_one(Instr::Mark(begin));
    lemma_render_concat(mark, condition.code);
    lemma_render_append(mark + condition.code, branch);
    lemma_render_concat(head, body);
    lemma_render_push(head + body, Instr::Jump(begin));
    lemma_render_push((head + body).push(Instr::Jump(begin)), Instr::Mark(end));
    assert((head + body).push(Instr::Jump(begin)).push(Instr::Mark(end)) =~= loop_code(
        begin,
        end,
        condition,
        body,
    ));
}

/// The text of a conditional is the text of its parts in their order.
proof fn lemma_render_conditional(
    yes: Label,
    end: Label,
    condition: ExprView,
    first: Seq<Instr>,
    second: Seq<Instr>,
)
    ensures
        render(conditional_code(yes, end, condition, first, second)) == render(condition.code)
            + instr_text(Instr::BranchIf { cond: condition.name, target: yes }) + render(second)
            + instr_text(Instr::Jump(end)) + instr_text(Instr::Mark(yes)) + render(first)
            + instr_text(Instr::Mark(end)),
{
    let branch = Instr::BranchIf { cond: condition.name, target: yes };
    let head = condition.code + seq![branch];
    lemma_render_append(condition.code, branch);
    lemma_render_concat(head, second);
    lemma_render_push(head + second, Instr::Jump(end));
    let middle = (head + second).push(Instr::Jump(end)).push(Instr::Mark(yes));
    lemma_render_push((head + second).push(Instr::Jump(end)), Instr::Mark(yes));
    lemma_render_concat(middle, first);
    lemma_render_push(middle + first, Instr::Mark(end));
    assert((middle + first).push(Instr::Mark(end)) =~= conditional_code(
        yes,
        end,
        condition,
        first,
        second,
    ));
}

/// Reads a loop behind its `while`. The counters need room for one name
/// more than there are tokens left: the labels of the loop are made before
/// anything is read.
fn parse_while(tokens: &Vec<Token>, index: &mut usize, counters: &mut Counters) -> (r: Result<
    String,
    String,
>)
    requires
        *old(index) <= tokens.len(),
        old(counters).room(tokens.len() - *old(index) + 1),
    ensures
        gives_code(
            r,
            *final(index),
            *final(counters),
            looping(token_views(tokens@), cursor(*old(index), *old(counters))),
        ),
        onward(*old(index), *old(counters), *final(index), *final(counters)),
    decreases tokens.len() - *old(index), 0int,
{
    let ghost views = token_views(tokens@);
    let ghost at = cursor(*index, *counters);
    proof {
        lemma_looping_moves(views, at);
    }
    let begin = create_whileloopbegin_label(counters);
    let end = create_whileloopend_label(counters);
    let ghost start = loop_labels(at);
    let condition = match parse_boolean_expression(tokens, index, counters) {
        Ok(condition) => condition,
        Err(message) => return Err(message),
    };
    let ghost (test, after) = comparison(views, start)->Ok_0;
    proof {
        lemma_comparison_moves(views, start);
    }
    let mut code = String::new();
    emit_mark(&mut code, begin.as_str());
    code.append(condition.code.as_str());
    let to_end = target(end.as_str());
    emit2(&mut code, "%branch_ifn", condition.name.as_str(), to_end.as_str());
    let token = match next_result(tokens, index) {
        Ok(token) => token,
        Err(message) => return Err(message),
    };
    if !matches!(token, Token::LeftCurly) {
        return Err(String::from_str("expect '{' for while loop"));
    }
    let body = match parse_block(tokens, index, counters) {
        Ok(body) => body,
        Err(message) => return Err(message),
    };
    let ghost (statements, behind) = block(views, after.step(1))->Ok_0;
    code.append(body.as_str());
    let to_begin = target(begin.as_str());
    emit1(&mut code, "%jmp", to_begin.as_str());
    emit_mark(&mut code, end.as_str());
    proof {
        lemma_render_loop(
            Label::LoopBegin(start.names.loop_begin),
            Label::LoopEnd(start.names.loop_end),
            test,
            statements,
        );
        assert(code@ =~= render(
            loop_code(
                Label::LoopBegin(start.names.loop_begin),
                Label::LoopEnd(start.names.loop_end),
                test,
                statements,
            ),
        ));
    }
    Ok(code)
}

/// Reads the second branch of a conditional, behind the first: `else` and
/// a block, or nothing.
fn parse_else(tokens: &Vec<Token>, index: &mut usize, counters: &mut Counters) -> (r: Result<
    String,
    String,
>)
    requires
        old(counters).room(tokens.len() - *old(index)),
    ensures
        gives_code(
            r,
            *final(index),
            *final(counters),
            alternative(token_views(tokens@), cursor(*old(index), *old(counters))),
        ),
        onward(*old(index), *old(counters), *final(index), *final(counters)),
    decreases tokens.len() - *old(index), 0int,
{
    proof {
        lemma_alternative_moves(token_views(tokens@), cursor(*index, *counters));
    }
    let otherwise = match peek(tokens, *index) {
        Some(token) => matches!(token, Token::Else),
        None => false,
    };
    if !otherwise {
        proof {
            lemma_render_empty();
        }
        return Ok(String::new());
    }
    *index += 1;
    let token = match next_result(tokens, index) {
        Ok(token) => token,
        Err(message) => return Err(message),
    };
    if !matches!(token, Token::LeftCurly) {
        return Err(String::from_str("expect '{' opening statement"));
    }
    parse_block(tokens, index, counters)
}

/// Reads a conditional behind its `if`. The counters need room for one name
/// more than there are tokens left: the labels of the conditional are made
/// before anything is read.
fn parse_if(tokens: &Vec<Token>, index: &mut usize, counters: &mut Counters) -> (r: Result<
    String,
    String,
>)
    requires
        *old(index) <= tokens.len(),
        old(counters).room(tokens.len() - *old(index) + 1),
    ensures
        gives_code(
            r,
            *final(index),
            *final(counters),
            branching(token_views(tokens@), cursor(*old(index), *old(counters))),
        ),
        onward(*old(index), *old(counters), *final(index), *final(counters)),
    decreases tokens.len() - *old(index), 1int,
{
    let ghost views = token_views(tokens@);
    let ghost at = cursor(*index, *counters);
    proof {
        lemma_branching_moves(views, at);
    }
    let yes = create_iftrue_label(counters);
    let end = create_endif_label(counters);
    let ghost start = conditional_labels(at);
    let condition = match parse_boolean_expression(tokens, index, counters) {
        Ok(condition) => condition,
        Err(message) => return Err(message),
    };
    let ghost (test, after) = comparison(views, start)->Ok_0;
    proof {
        lemma_comparison_moves(views, start);
    }
    let token = match next_result(tokens, index) {
        Ok(token) => token,
        Err(message) => return Err(message),
    };
    if !matches!(token, Token::LeftCurly) {
        return Err(String::from_str("expect '{' closing statement"));
    }
    let first = match parse_block(tokens, index, counters) {
        Ok(first) => first,
        Err(message) => return Err(message),
    };
    let ghost (taken, middle) = block(views, after.step(1))->Ok_0;
    proof {
        lemma_block_moves(views, after.step(1));
    }
    let second = match parse_else(tokens, index, counters) {
        Ok(second) => second,
        Err(message) => return Err(message),
    };
    let ghost (other, behind) = alternative(views, middle)->Ok_0;
    let mut code = condition.code;
    let to_yes = target(yes.as_str());
    emit2(&mut code, "%branch_if", condition.name.as_str(), to_yes.as_str());
    code.append(second.as_str());
    let to_end = target(end.as_str());
    emit1(&mut code, "%jmp", to_end.as_str());
    emit_mark(&mut code, yes.as_str());
    code.append(first.as_str());
    emit_mark(&mut code, end.as_str());
    proof {
        lemma_render_conditional(
            Label::IfTrue(start.names.if_true),
            Label::EndIf(start.names.end_if),
            test,
            taken,
            other,
        );
        assert(code@ =~= render(
            conditional_code(
                Label::IfTrue(start.names.if_true),
                Label::EndIf(start.names.end_if),
                test,
                taken,
                other,
            ),
        ));
    }
    Ok(code)
}

/// Reads the semicolon that ends a simple statement whose code has been
/// read as `read`.
fn parse_semicolon(
    tokens: &Vec<Token>,
    index: &mut usize,
    counters: &Counters,
    read: Result<String, String>,
    Ghost(expected): Ghost<Parse<Seq<Instr>>>,
) -> (r: Result<Option<String>, String>)
    requires
        gives_code(read, *old(index), *counters, expected),
    ensures
        gives_optional_code(
            r,
            *final(index),
            *counters,
            terminated(token_views(tokens@), expected),
        ),
        *old(index) <= *final(index),
{
    let code = match read {
        Ok(code) => code,
        Err(message) => return Err(message),
    };
    let closing = match next_result(tokens, index) {
        Ok(token) => token,
        Err(message) => return Err(message),
    };
    if !matches!(closing, Token::Semicolon) {
        return Err(String::from_str("expect ';' closing statement after statement"));
    }
    Ok(Some(code))
}

/// A statement that has been read is there.
fn some_code(read: Result<String, String>) -> (r: Result<Option<String>, String>)
    ensures
        match read {
            Ok(code) => r == Ok::<Option<String>, String>(Some(code)),
            Err(message) => r == Err::<Option<String>, String>(message),
        },
{
    match read {
        Ok(code) => Ok(Some(code)),
        Err(message) => Err(message),
    }
}

/// Reads a statement and the semicolon that ends it, where it needs one.
/// There is no statement at the end of the tokens and in front of a closing
/// brace, and nothing is read there.
pub fn parse_statement(tokens: &Vec<Token>, index: &mut usize, counters: &mut Counters) -> (r:
    Result<Option<String>, String>)
    requires
        old(counters).room(tokens.len() - *old(index)),
    ensures
        gives_optional_code(
            r,
            *final(index),
            *final(counters),
            statement(token_views(tokens@), cursor(*old(index), *old(counters))),
        ),
        onward(*old(index), *old(counters), *final(index), *final(counters)),
    decreases tokens.len() - *old(index), 1int,
{
    let ghost views = token_views(tokens@);
    let ghost at = cursor(*index, *counters);
    proof {
        lemma_statement_moves(views, at);
    }
    let token = match peek(tokens, *index) {
        Some(token) => token,
        None => return Ok(None),
    };
    match token {
        Token::RightCurly => Ok(None),
        Token::Int => {
            *index += 1;
            let read = parse_declaration(tokens, index, counters);
            parse_semicolon(tokens, index, counters, read, Ghost(declaration(views, at.step(1))))
        },
        Token::Ident(name) => {
            *index += 1;
            let read = parse_assignment(tokens, index, counters, name);
            parse_semicolon(
                tokens,
                index,
                counters,
                read,
                Ghost(assignment(views, at.step(1), name@)),
            )
        },
        Token::Return => {
            *index += 1;
            let read = parse_return(tokens, index, counters);
            parse_semicolon(tokens, index, counters, read, Ghost(returning(views, at.step(1))))
        },
        Token::Print => {
            *index += 1;
            let read = parse_print(tokens, index, counters);
            parse_semicolon(tokens, index, counters, read, Ghost(printing(views, at.step(1))))
        },
        Token::Read => {
            *index += 1;
            let read = parse_read(tokens, index, counters);
            parse_semicolon(tokens, index, counters, read, Ghost(reading(views, at.step(1))))
        },
        Token::While => {
            *index += 1;
            some_code(parse_while(tokens, index, counters))
        },
        Token::If => {
            *index += 1;
            some_code(parse_if(tokens, index, counters))
        },
        _ => Err(String::from_str("invalid statement")),
    }
}

/// The code `before`, followed by what reading on gives.
pub open spec fn continued(before: Seq<Instr>, after: Parse<Seq<Instr>>) -> Parse<Seq<Instr>> {
    match after {
        Ok((rest, behind)) => Ok((before + rest, behind)),
        Err(message) => Err(message),
    }
}

/// Reads the statements of a block behind its opening brace, up to and
/// including the brace that closes it.
fn parse_block(tokens: &Vec<Token>, index: &mut usize, counters: &mut Counters) -> (r: Result<
    String,
    String,
>)
    requires
        old(counters).room(tokens.len() - *old(index)),
    ensures
        gives_code(
            r,
            *final(index),
            *final(counters),
            block(token_views(tokens@), cursor(*old(index), *old(counters))),
        ),
        onward(*old(index), *old(counters), *final(index), *final(counters)),
    decreases tokens.len() - *old(index), 2int,
{
    let ghost views = token_views(tokens@);
    let ghost at = cursor(*index, *counters);
    proof {
        lemma_block_moves(views, at);
    }
    let mut code = String::new();
    let ghost mut read = Seq::<Instr>::empty();
    proof {
        lemma_render_empty();
        assert(continued(read, block(views, at)) == block(views, at)) by {
            if let Ok((rest, behind)) = block(views, at) {
                assert(read + rest =~= rest);
            }
        }
    }
    loop
        invariant
            views == token_views(tokens@),
            at == cursor(*old(index), *old(counters)),
            code@ == render(read),
            continued(read, block(views, cursor(*index, *counters))) == block(views, at),
            at.index <= *index,
            *index <= tokens.len() || *index == *old(index),
            counters.room(tokens.len() - *index),
            onward(*old(index), *old(counters), *index, *counters),
        decreases tokens.len() - *index,
    {
        let ghost here = cursor(*index, *counters);
        let token = match peek_result(tokens, *index) {
            Ok(token) => token,
            Err(message) => return Err(message),
        };
        if matches!(token, Token::RightCurly) {
            *index += 1;
            proof {
                assert(read + Seq::<Instr>::empty() =~= read);
            }
            return Ok(code);
        }
        proof {
            lemma_statement_moves(views, here);
        }
        let text = match parse_statement(tokens, index, counters) {
            Ok(Some(text)) => text,
            Ok(None) => String::new(),
            Err(message) => return Err(message),
        };
        code.append(text.as_str());
        proof {
            let (first, after) = statement(views, here)->Ok_0;
            let added = first->0;
            lemma_render_concat(read, added);
            assert(continued(read + added, block(views, after)) == continued(
                read,
                block(views, here),
            )) by {
                if let Ok((rest, behind)) = block(views, after) {
                    assert((read + added) + rest =~= read + (added + rest));
                }
            }
            read = read + added;
        }
    }
}

/// Reads the parameters of a function behind its opening parenthesis, up to
/// and including the closing parenthesis. Gives their names.
fn parse_parameters(tokens: &Vec<Token>, index: &mut usize) -> (r: Result<Vec<String>, String>)
    ensures
        match parameters(token_views(tokens@), *old(index) as int) {
            Ok((names, behind)) => r is Ok && string_views(r->Ok_0@) == names && *final(index)
                == behind,
            Err(message) => r is Err && r->Err_0@ == message,
        },
        *old(index) <= *final(index),
{
    let ghost views = token_views(tokens@);
    let ghost at = *index as int;
    let mut params: Vec<String> = Vec::new();
    let token = match next_result(tokens, index) {
        Ok(token) => token,
        Err(message) => return Err(message),
    };
    match token {
        Token::RightParen => {
            assert(string_views(params@) =~= Seq::<Seq<char>>::empty());
            return Ok(params);
        },
        Token::Int => {},
        _ => {
            return Err(String::from_str("expected 'int' keyword or ')' token"));
        },
    }
    assert(string_views(params@) =~= Seq::<Seq<char>>::empty());
    loop
        invariant
            views == token_views(tokens@),
            at == *old(index),
            at < *index <= tokens.len(),
            views[*index - 1] == TokenView::Int,
            more_parameters(views, *index - 1, string_views(params@)) == parameters(views, at),
        decreases tokens.len() - *index,
    {
        let ghost names = string_views(params@);
        let token = match next_result(tokens, index) {
            Ok(token) => token,
            Err(message) => return Err(message),
        };
        match token {
            Token::Ident(name) => {
                proof {
                    assert(string_views(params@.push(*name)) =~= names.push(name@));
                }
                params.push(name.clone());
            },
            _ => {
                return Err(String::from_str("expected ident function parameter"));
            },
        }
        let token = match next_result(tokens, index) {
            Ok(token) => token,
            Err(message) => return Err(message),
        };
        match token {
            Token::Comma => {},
            Token::RightParen => {
                return Ok(params);
            },
            _ => {
                return Err(String::from_str("expected ',' or ')'"));
            },
        }
        let token = match next_result(tokens, index) {
            Ok(token) => token,
            Err(message) => return Err(message),
        };
        if !matches!(token, Token::Int) {
            return Err(String::from_str("expected 'int' keyword"));
        }
    }
}

/// Reads a function. There is none at the end of the tokens.
pub fn parse_function(tokens: &Vec<Token>, index: &mut usize, counters: &mut Counters) -> (r:
    Result<Option<String>, String>)
    requires
        old(counters).room(tokens.len() - *old(index)),
    ensures
        gives_optional_code(
            r,
            *final(index),
            *final(counters),
            function(token_views(tokens@), cursor(*old(index), *old(counters))),
        ),
        onward(*old(index), *old(counters), *final(index), *final(counters)),
{
    let ghost views = token_views(tokens@);
    let ghost at = cursor(*index, *counters);
    proof {
        lemma_function_moves(views, at);
    }
    match next(tokens, index) {
        None => {
            return Ok(None);
        },
        Some(token) => {
            if !matches!(token, Token::Func) {
                return Err(String::from_str("functions must begin with func"));
            }
        },
    }
    let token = match next_result(tokens, index) {
        Ok(token) => token,
        Err(message) => return Err(message),
    };
    let name = match token {
        Token::Ident(name) => name,
        _ => {
            return Err(String::from_str("functions must have a function identifier"));
        },
    };
    let token = match next_result(tokens, index) {
        Ok(token) => token,
        Err(message) => return Err(message),
    };
    if !matches!(token, Token::LeftParen) {
        return Err(String::from_str("expected '('"));
    }
    let params = match parse_parameters(tokens, index) {
        Ok(params) => params,
        Err(message) => return Err(message),
    };
    let ghost (names, behind) = parameters(views, at.index + 3)->Ok_0;
    proof {
        if views[at.index + 3] == TokenView::Int {
            lemma_more_parameters_moves(views, at.index + 3, Seq::empty());
        }
    }
    let mut code = String::new();
    let header = signature(name.as_str(), &params);
    emit1(&mut code, "%func", header.as_str());
    let token = match next_result(tokens, index) {
        Ok(token) => token,
        Err(message) => return Err(message),
    };
    if !matches!(token, Token::LeftCurly) {
        return Err(String::from_str("expected '{'"));
    }
    let body = match parse_block(tokens, index, counters) {
        Ok(body) => body,
        Err(message) => return Err(message),
    };
    let ghost (statements, end) = block(views, Cursor { index: behind + 1, names: at.names })->Ok_0;
    code.append(body.as_str());
    code.append("%endfunc\n\n");
    proof {
        let head = Instr::Func { name: name@, params: names };
        lemma_render_one(head);
        lemma_render_concat(seq![head], statements);
        lemma_render_append(seq![head] + statements, Instr::EndFunc);
        assert(code@ =~= render(seq![head] + statements + seq![Instr::EndFunc]));
    }
    Ok(Some(code))
}

/// Reads a program: functions, one behind the other, to the end of the
/// tokens. Gives the code of all of them.
pub fn parse_program(tokens: &Vec<Token>, index: &mut usize, counters: &mut Counters) -> (r:
    Result<String, String>)
    requires
        old(counters).room(tokens.len() - *old(index)),
    ensures
        gives_code(
            r,
            *final(index),
            *final(counters),
            program(token_views(tokens@), cursor(*old(index), *old(counters))),
        ),
        onward(*old(index), *old(counters), *final(index), *final(counters)),
{
    let ghost views = token_views(tokens@);
    let ghost at = cursor(*index, *counters);
    proof {
        lemma_program_moves(views, at);
    }
    let mut generated_code = String::new();
    let ghost mut read = Seq::<Instr>::empty();
    proof {
        lemma_render_empty();
        assert(continued(read, program(views, at)) == program(views, at)) by {
            if let Ok((rest, behind)) = program(views, at) {
                assert(read + rest =~= rest);
            }
        }
    }
    loop
        invariant
            views == token_views(tokens@),
            at == cursor(*old(index), *old(counters)),
            generated_code@ == render(read),
            continued(read, program(views, cursor(*index, *counters))) == program(views, at),
            counters.room(tokens.len() - *index),
            onward(*old(index), *old(counters), *index, *counters),
        decreases tokens.len() - *index,
    {
        let ghost here = cursor(*index, *counters);
        proof {
            lemma_function_moves(views, here);
        }
        match parse_function(tokens, index, counters) {
            Err(message) => {
                return Err(message);
            },
            Ok(None) => {
                proof {
                    assert(read + Seq::<Instr>::empty() =~= read);
                }
                return Ok(generated_code);
            },
            Ok(Some(func_code)) => {
                generated_code.append(func_code.as_str());
                proof {
                    let (first, after) = function(views, here)->Ok_0;
                    let added = first->0;
                    lemma_render_concat(read, added);
                    assert(continued(read + added, program(views, after)) == continued(
                        read,
                        program(views, here),
                    )) by {
                        if let Ok((rest, behind)) = program(views, after) {
                            assert((read + added) + rest =~= read + (added + rest));
                        }
                    }
                    read = read + added;
                }
            },
        }
    }
}

} // verus!
