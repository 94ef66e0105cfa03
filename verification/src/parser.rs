//! The parser: a recursive descent over the tokens that writes the
//! intermediate representation while it reads.
//!
//! Every function reads one construct of [`crate::grammar`] from the tokens
//! at `index`, leaves `index` behind the construct, and takes the names of
//! temporaries and labels from `counters`. Its contract says that it gives
//! what the grammar gives: the text of the same instructions and the same
//! cursor, or the same message.

use crate::grammar::{
    additive, additive_tail, arguments, array_form, binary, comparison, end_of_tokens, expression,
    multiplicative, multiplicative_tail, multiplying, relational, term, Cursor, Parse,
};
use crate::ir::{
    call, create_temp, element, emit1, emit2, emit3, lemma_render_concat, lemma_render_push, opcode,
    operand_text, operand_texts, render, string_views, Counters, ExprView, Expression, Instr,
    Operand, Operator,
};
use crate::progress::{
    lemma_arguments_moves, lemma_array_form_moves, lemma_comparison_moves, lemma_expression_moves,
    lemma_multiplicative_moves, lemma_term_moves,
};
use crate::text::decimal_string;
use crate::token::{token_views, Token, TokenView};
use vstd::prelude::*;

verus! {

/// Where the parser stands, from its index and its counters.
pub open spec fn cursor(index: usize, counters: Counters) -> Cursor {
    Cursor { index: index as int, names: counters@ }
}

/// The result `r`, with `index` and `counters` as the parser left them, is
/// what the grammar gives for an expression: the text of the same
/// instructions, the same operand and the same cursor, or the same message.
pub open spec fn gives_expression(
    r: Result<Expression, String>,
    index: usize,
    counters: Counters,
    expected: Parse<ExprView>,
) -> bool {
    match expected {
        Ok((view, behind)) => r is Ok && r->Ok_0.represents(view) && cursor(index, counters)
            == behind,
        Err(message) => r is Err && r->Err_0@ == message,
    }
}

/// The parser has not gone back: the index is no smaller than it was, and
/// no counter is.
pub open spec fn onward(
    index_before: usize,
    counters_before: Counters,
    index: usize,
    counters: Counters,
) -> bool {
    index_before <= index && counters_before@.at_most(counters@)
}

/// The token at `index`, if there is one.
pub fn peek<'a>(tokens: &'a Vec<Token>, index: usize) -> (r: Option<&'a Token>)
    ensures
        match r {
            Some(token) => index < tokens.len() && *token == tokens@[index as int],
            None => index >= tokens.len(),
        },
{
    if index < tokens.len() {
        Some(&tokens[index])
    } else {
        None
    }
}

/// The token at `index`, or a message when the tokens have ended.
pub fn peek_result<'a>(tokens: &'a Vec<Token>, index: usize) -> (r: Result<&'a Token, String>)
    ensures
        match r {
            Ok(token) => index < tokens.len() && *token == tokens@[index as int],
            Err(message) => index >= tokens.len() && message@ == end_of_tokens(),
        },
{
    if index < tokens.len() {
        Ok(&tokens[index])
    } else {
        Err(String::from_str("expected a token, but got nothing"))
    }
}

/// The token at `index`, if there is one; `index` then moves behind it.
pub fn next<'a>(tokens: &'a Vec<Token>, index: &mut usize) -> (r: Option<&'a Token>)
    ensures
        match r {
            Some(token) => *old(index) < tokens.len() && *token == tokens@[*old(index) as int]
                && *final(index) == *old(index) + 1,
            None => *old(index) >= tokens.len() && *final(index) == *old(index),
        },
{
    if *index < tokens.len() {
        let at = *index;
        *index = at + 1;
        Some(&tokens[at])
    } else {
        None
    }
}

/// The token at `index`, or a message when the tokens have ended; `index`
/// moves behind the token.
pub fn next_result<'a>(tokens: &'a Vec<Token>, index: &mut usize) -> (r: Result<
    &'a Token,
    String,
>)
    ensures
        match r {
            Ok(token) => *old(index) < tokens.len() && *token == tokens@[*old(index) as int]
                && *final(index) == *old(index) + 1,
            Err(message) => *old(index) >= tokens.len() && *final(index) == *old(index)
                && message@ == end_of_tokens(),
        },
{
    if *index < tokens.len() {
        let at = *index;
        *index = at + 1;
        Ok(&tokens[at])
    } else {
        Err(String::from_str("expected a token, but got nothing"))
    }
}

/// The opcode of a `*`, `/` or `%` token.
fn multiplying_opcode(token: &Token) -> (r: Option<&'static str>)
    ensures
        match multiplying(token@) {
            Some(op) => r is Some && r->0@ == opcode(op),
            None => r is None,
        },
{
    match token {
        Token::Multiply => Some("%mult"),
        Token::Divide => Some("%div"),
        Token::Modulus => Some("%mod"),
        _ => None,
    }
}

/// The opcode of a `+` or `-` token.
fn additive_opcode(token: &Token) -> (r: Option<&'static str>)
    ensures
        match additive(token@) {
            Some(op) => r is Some && r->0@ == opcode(op),
            None => r is None,
        },
{
    match token {
        Token::Plus => Some("%add"),
        Token::Subtract => Some("%sub"),
        _ => None,
    }
}

/// The opcode of a comparison token.
pub(crate) fn relational_opcode(token: &Token) -> (r: Option<&'static str>)
    ensures
        match relational(token@) {
            Some(op) => r is Some && r->0@ == opcode(op),
            None => r is None,
        },
{
    match token {
        Token::Less => Some("%lt"),
        Token::LessEqual => Some("%le"),
        Token::Greater => Some("%gt"),
        Token::GreaterEqual => Some("%ge"),
        Token::Equality => Some("%eq"),
        Token::NotEqual => Some("%neq"),
        _ => None,
    }
}

/// An expression without code.
pub(crate) fn operand(name: String) -> (e: Expression)
    ensures
        e.code@ == render(Seq::empty()),
        e.name == name,
{
    Expression { code: String::new(), name }
}

/// The operation `operation` on the values of `left` and `right`: the code
/// of both, then a fresh temporary that receives the result.
pub(crate) fn combine(
    left: Expression,
    right: Expression,
    operation: &str,
    counters: &mut Counters,
    Ghost(op): Ghost<Operator>,
    Ghost(l): Ghost<ExprView>,
    Ghost(r): Ghost<ExprView>,
    Ghost(index): Ghost<int>,
) -> (e: Expression)
    requires
        old(counters).temp < u64::MAX,
        left.represents(l),
        right.represents(r),
        operation@ == opcode(op),
    ensures
        ({
            let (view, behind) = binary(op, l, r, Cursor { index, names: old(counters)@ });
            e.represents(view) && Cursor { index, names: final(counters)@ } == behind
        }),
{
    let t = create_temp(counters);
    let mut code = left.code;
    code.append(right.code.as_str());
    emit1(&mut code, "%int", t.as_str());
    emit3(&mut code, operation, t.as_str(), left.name.as_str(), right.name.as_str());
    proof {
        let target = Operand::Temporary(counters@.temp);
        let declare = Instr::Declare(target);
        let compute = Instr::Binary { op, dst: target, left: l.name, right: r.name };
        let both = l.code + r.code;
        lemma_render_concat(l.code, r.code);
        lemma_render_push(both, declare);
        lemma_render_push(both.push(declare), compute);
        assert(both.push(declare).push(compute) =~= both + seq![declare, compute]);
    }
    Expression { code, name: t }
}

/// Strings that hold the texts of some operands still do so when one more
/// string and its operand are added.
proof fn lemma_operand_texts_push(
    strings: Seq<String>,
    string: String,
    operands: Seq<Operand>,
    operand: Operand,
)
    requires
        string_views(strings) == operand_texts(operands),
        string@ == operand_text(operand),
    ensures
        string_views(strings.push(string)) == operand_texts(operands.push(operand)),
{
    assert(string_views(strings).len() == strings.len());
    assert(operand_texts(operands).len() == operands.len());
    assert(strings.len() == operands.len());
    assert forall|i: int| 0 <= i < strings.len() + 1 implies string_views(
        strings.push(string),
    )[i] == operand_texts(operands.push(operand))[i] by {
        if i < strings.len() {
            assert(string_views(strings)[i] == operand_texts(operands)[i]);
        }
    }
    assert(string_views(strings.push(string)) =~= operand_texts(operands.push(operand)));
}

/// Reads a term: a literal, a variable, a call, an array element or an
/// expression in parentheses.
pub fn parse_term(tokens: &Vec<Token>, index: &mut usize, counters: &mut Counters) -> (r: Result<
    Expression,
    String,
>)
    requires
        old(counters).room(tokens.len() - *old(index)),
    ensures
        gives_expression(
            r,
            *final(index),
            *final(counters),
            term(token_views(tokens@), cursor(*old(index), *old(counters))),
        ),
        onward(*old(index), *old(counters), *final(index), *final(counters)),
    decreases tokens.len() - *old(index), 0int,
{
    let ghost views = token_views(tokens@);
    let ghost at = cursor(*index, *counters);
    proof {
        lemma_term_moves(views, at);
    }
    let token = match next_result(tokens, index) {
        Ok(token) => token,
        Err(message) => return Err(message),
    };
    match token {
        Token::Num(n) => Ok(operand(decimal_string(*n))),
        Token::Ident(name) => {
            let following = match peek(tokens, *index) {
                Some(token) => token,
                None => return Ok(operand(name.clone())),
            };
            match following {
                Token::LeftParen => {
                    *index += 1;
                    let closes = match peek(tokens, *index) {
                        Some(token) => matches!(token, Token::RightParen),
                        None => false,
                    };
                    let (mut code, args) = if closes {
                        *index += 1;
                        (String::new(), Vec::new())
                    } else {
                        proof {
                            lemma_arguments_moves(views, at.step(2), Seq::empty(), Seq::empty());
                        }
                        match parse_arguments(tokens, index, counters) {
                            Ok(read) => read,
                            Err(message) => return Err(message),
                        }
                    };
                    let ghost read = if views[at.index + 2] == TokenView::RightParen {
                        (Seq::<Instr>::empty(), Seq::<Operand>::empty())
                    } else {
                        arguments(views, at.step(2), Seq::empty(), Seq::empty())->Ok_0.0
                    };
                    assert(string_views(args@) =~= operand_texts(read.1));
                    let t = create_temp(counters);
                    emit1(&mut code, "%int", t.as_str());
                    let callee = call(name.as_str(), &args);
                    emit2(&mut code, "%call", t.as_str(), callee.as_str());
                    proof {
                        let target = Operand::Temporary(counters@.temp);
                        let declare = Instr::Declare(target);
                        let invoke = Instr::Call { dst: target, function: name@, args: read.1 };
                        lemma_render_push(read.0, declare);
                        lemma_render_push(read.0.push(declare), invoke);
                        assert(read.0.push(declare).push(invoke) =~= read.0 + seq![
                            declare,
                            invoke,
                        ]);
                    }
                    Ok(Expression { code, name: t })
                },
                Token::LeftBracket => {
                    *index += 1;
                    let inner = match parse_expression(tokens, index, counters) {
                        Ok(inner) => inner,
                        Err(message) => return Err(message),
                    };
                    let ghost (position, after) = expression(views, at.step(2))->Ok_0;
                    proof {
                        lemma_expression_moves(views, at.step(2));
                    }
                    let closing = match next_result(tokens, index) {
                        Ok(token) => token,
                        Err(message) => return Err(message),
                    };
                    if !matches!(closing, Token::RightBracket) {
                        return Err(String::from_str("Expecting ']' after '['"));
                    }
                    let t = create_temp(counters);
                    let mut code = inner.code;
                    emit1(&mut code, "%int", t.as_str());
                    let source = element(name.as_str(), inner.name.as_str());
                    emit2(&mut code, "%mov", t.as_str(), source.as_str());
                    proof {
                        let target = Operand::Temporary(counters@.temp);
                        let declare = Instr::Declare(target);
                        let load = Instr::Load {
                            dst: target,
                            base: Operand::Variable(name@),
                            index: position.name,
                        };
                        lemma_render_push(position.code, declare);
                        lemma_render_push(position.code.push(declare), load);
                        assert(position.code.push(declare).push(load) =~= position.code + seq![
                            declare,
                            load,
                        ]);
                    }
                    Ok(Expression { code, name: t })
                },
                _ => Ok(operand(name.clone())),
            }
        },
        Token::LeftParen => {
            let inner = match parse_expression(tokens, index, counters) {
                Ok(inner) => inner,
                Err(message) => return Err(message),
            };
            proof {
                lemma_expression_moves(views, at.step(1));
            }
            let closing = match next_result(tokens, index) {
                Ok(token) => token,
                Err(message) => return Err(message),
            };
            if !matches!(closing, Token::RightParen) {
                return Err(String::from_str("Expecting ')' after '('"));
            }
            Ok(inner)
        },
        _ => Err(String::from_str("invalid expression")),
    }
}

/// Reads the arguments of a call behind its opening parenthesis, of which
/// there is at least one, up to and including the closing parenthesis. Gives
/// the code of all arguments and the operand of each.
pub(crate) fn parse_arguments(
    tokens: &Vec<Token>,
    index: &mut usize,
    counters: &mut Counters,
) -> (r: Result<(String, Vec<String>), String>)
    requires
        old(counters).room(tokens.len() - *old(index)),
    ensures
        match arguments(
            token_views(tokens@),
            cursor(*old(index), *old(counters)),
            Seq::empty(),
            Seq::empty(),
        ) {
            Ok(((code, names), behind)) => r is Ok && r->Ok_0.0@ == render(code) && string_views(
                r->Ok_0.1@,
            ) == operand_texts(names) && cursor(*final(index), *final(counters)) == behind,
            Err(message) => r is Err && r->Err_0@ == message,
        },
        onward(*old(index), *old(counters), *final(index), *final(counters)),
    decreases tokens.len() - *old(index), 3int,
{
    let ghost views = token_views(tokens@);
    let ghost at = cursor(*index, *counters);
    proof {
        lemma_arguments_moves(views, at, Seq::empty(), Seq::empty());
    }
    let mut code = String::new();
    let mut args: Vec<String> = Vec::new();
    let ghost mut read_code = Seq::<Instr>::empty();
    let ghost mut read_names = Seq::<Operand>::empty();
    assert(string_views(args@) =~= operand_texts(read_names));
    loop
        invariant
            views == token_views(tokens@),
            code@ == render(read_code),
            string_views(args@) == operand_texts(read_names),
            arguments(views, cursor(*index, *counters), read_code, read_names) == arguments(
                views,
                at,
                Seq::empty(),
                Seq::empty(),
            ),
            at == cursor(*old(index), *old(counters)),
            at.index <= *index,
            *index <= tokens.len() || *index == *old(index),
            counters.room(tokens.len() - *index),
            onward(*old(index), *old(counters), *index, *counters),
        decreases tokens.len() - *index,
    {
        let ghost here = cursor(*index, *counters);
        let argument = match parse_expression(tokens, index, counters) {
            Ok(argument) => argument,
            Err(message) => return Err(message),
        };
        let ghost (value, after) = expression(views, here)->Ok_0;
        proof {
            lemma_expression_moves(views, here);
            lemma_render_concat(read_code, value.code);
            lemma_operand_texts_push(args@, argument.name, read_names, value.name);
            read_code = read_code + value.code;
            read_names = read_names.push(value.name);
        }
        code.append(argument.code.as_str());
        args.push(argument.name);
        let token = match next_result(tokens, index) {
            Ok(token) => token,
            Err(message) => return Err(message),
        };
        match token {
            Token::Comma => {},
            Token::RightParen => {
                return Ok((code, args));
            },
            _ => {
                return Err(String::from_str("expected ',' or ')'"));
            },
        }
    }
}

/// Reads a product: terms with `*`, `/` or `%` between them.
pub fn parse_multiply_expression(
    tokens: &Vec<Token>,
    index: &mut usize,
    counters: &mut Counters,
) -> (r: Result<Expression, String>)
    requires
        old(counters).room(tokens.len() - *old(index)),
    ensures
        gives_expression(
            r,
            *final(index),
            *final(counters),
            multiplicative(token_views(tokens@), cursor(*old(index), *old(counters))),
        ),
        onward(*old(index), *old(counters), *final(index), *final(counters)),
    decreases tokens.len() - *old(index), 1int,
{
    let ghost views = token_views(tokens@);
    let ghost at = cursor(*index, *counters);
    proof {
        lemma_multiplicative_moves(views, at);
    }
    let mut expr = match parse_term(tokens, index, counters) {
        Ok(expr) => expr,
        Err(message) => return Err(message),
    };
    let ghost mut left = term(views, at)->Ok_0.0;
    proof {
        lemma_term_moves(views, at);
    }
    loop
        invariant
            views == token_views(tokens@),
            expr.represents(left),
            multiplicative_tail(views, cursor(*index, *counters), left) == multiplicative(
                views,
                at,
            ),
            at == cursor(*old(index), *old(counters)),
            at.index < *index <= tokens.len(),
            counters.room(tokens.len() - *index),
            onward(*old(index), *old(counters), *index, *counters),
        ensures
            gives_expression(Ok(expr), *index, *counters, multiplicative(views, at)),
            onward(*old(index), *old(counters), *index, *counters),
        decreases tokens.len() - *index,
    {
        let ghost here = cursor(*index, *counters);
        let token = match peek(tokens, *index) {
            Some(token) => token,
            None => {
                break ;
            },
        };
        let operation = match multiplying_opcode(token) {
            Some(operation) => operation,
            None => {
                break ;
            },
        };
        let ghost op = multiplying(token@)->0;
        *index += 1;
        let right = match parse_term(tokens, index, counters) {
            Ok(right) => right,
            Err(message) => return Err(message),
        };
        let ghost (factor, after) = term(views, here.step(1))->Ok_0;
        proof {
            lemma_term_moves(views, here.step(1));
        }
        expr = combine(
            expr,
            right,
            operation,
            counters,
            Ghost(op),
            Ghost(left),
            Ghost(factor),
            Ghost(after.index),
        );
        proof {
            left = binary(op, left, factor, after).0;
        }
    }
    Ok(expr)
}

/// Reads an expression: products with `+` or `-` between them.
pub fn parse_expression(tokens: &Vec<Token>, index: &mut usize, counters: &mut Counters) -> (r:
    Result<Expression, String>)
    requires
        old(counters).room(tokens.len() - *old(index)),
    ensures
        gives_expression(
            r,
            *final(index),
            *final(counters),
            expression(token_views(tokens@), cursor(*old(index), *old(counters))),
        ),
        onward(*old(index), *old(counters), *final(index), *final(counters)),
    decreases tokens.len() - *old(index), 2int,
{
    let ghost views = token_views(tokens@);
    let ghost at = cursor(*index, *counters);
    proof {
        lemma_expression_moves(views, at);
    }
    let mut expr = match parse_multiply_expression(tokens, index, counters) {
        Ok(expr) => expr,
        Err(message) => return Err(message),
    };
    let ghost mut left = multiplicative(views, at)->Ok_0.0;
    proof {
        lemma_multiplicative_moves(views, at);
    }
    loop
        invariant
            views == token_views(tokens@),
            expr.represents(left),
            additive_tail(views, cursor(*index, *counters), left) == expression(views, at),
            at == cursor(*old(index), *old(counters)),
            at.index < *index <= tokens.len(),
            counters.room(tokens.len() - *index),
            onward(*old(index), *old(counters), *index, *counters),
        ensures
            gives_expression(Ok(expr), *index, *counters, expression(views, at)),
            onward(*old(index), *old(counters), *index, *counters),
        decreases tokens.len() - *index,
    {
        let ghost here = cursor(*index, *counters);
        let token = match peek(tokens, *index) {
            Some(token) => token,
            None => {
                break ;
            },
        };
        let operation = match additive_opcode(token) {
            Some(operation) => operation,
            None => {
                break ;
            },
        };
        let ghost op = additive(token@)->0;
        *index += 1;
        let right = match parse_multiply_expression(tokens, index, counters) {
            Ok(right) => right,
            Err(message) => return Err(message),
        };
        let ghost (product, after) = multiplicative(views, here.step(1))->Ok_0;
        proof {
            lemma_multiplicative_moves(views, here.step(1));
        }
        expr = combine(
            expr,
            right,
            operation,
            counters,
            Ghost(op),
            Ghost(left),
            Ghost(product),
            Ghost(after.index),
        );
        proof {
            left = binary(op, left, product, after).0;
        }
    }
    Ok(expr)
}

/// Reads a comparison of two terms.
pub fn parse_boolean_expression(
    tokens: &Vec<Token>,
    index: &mut usize,
    counters: &mut Counters,
) -> (r: Result<Expression, String>)
    requires
        old(counters).room(tokens.len() - *old(index)),
    ensures
        gives_expression(
            r,
            *final(index),
            *final(counters),
            comparison(token_views(tokens@), cursor(*old(index), *old(counters))),
        ),
        onward(*old(index), *old(counters), *final(index), *final(counters)),
{
    let ghost views = token_views(tokens@);
    let ghost at = cursor(*index, *counters);
    proof {
        lemma_comparison_moves(views, at);
    }
    let expr = match parse_term(tokens, index, counters) {
        Ok(expr) => expr,
        Err(message) => return Err(message),
    };
    let ghost (left, middle) = term(views, at)->Ok_0;
    proof {
        lemma_term_moves(views, at);
    }
    let token = match peek_result(tokens, *index) {
        Ok(token) => token,
        Err(message) => return Err(message),
    };
    let operation = match relational_opcode(token) {
        Some(operation) => operation,
        None => {
            return Err(String::from_str("expected boolean operator"));
        },
    };
    let ghost op = relational(token@)->0;
    *index += 1;
    let right = match parse_term(tokens, index, counters) {
        Ok(right) => right,
        Err(message) => return Err(message),
    };
    let ghost (second, after) = term(views, middle.step(1))->Ok_0;
    proof {
        lemma_term_moves(views, middle.step(1));
    }
    Ok(
        combine(
            expr,
            right,
            operation,
            counters,
            Ghost(op),
            Ghost(left),
            Ghost(second),
            Ghost(after.index),
        ),
    )
}

/// Reads an expression between brackets; the opening bracket may have been
/// read before.
pub fn parse_array_form(tokens: &Vec<Token>, index: &mut usize, counters: &mut Counters) -> (r:
    Result<Expression, String>)
    requires
        old(counters).room(tokens.len() - *old(index)),
    ensures
        gives_expression(
            r,
            *final(index),
            *final(counters),
            array_form(token_views(tokens@), cursor(*old(index), *old(counters))),
        ),
        onward(*old(index), *old(counters), *final(index), *final(counters)),
{
    let ghost views = token_views(tokens@);
    let ghost at = cursor(*index, *counters);
    proof {
        lemma_array_form_moves(views, at);
    }
    let token = match peek_result(tokens, *index) {
        Ok(token) => token,
        Err(message) => return Err(message),
    };
    if matches!(token, Token::LeftBracket) {
        *index += 1;
    }
    let ghost start = cursor(*index, *counters);
    let position = match parse_expression(tokens, index, counters) {
        Ok(position) => position,
        Err(message) => return Err(message),
    };
    proof {
        lemma_expression_moves(views, start);
    }
    let closing = match next_result(tokens, index) {
        Ok(token) => token,
        Err(message) => return Err(message),
    };
    if !matches!(closing, Token::RightBracket) {
        return Err(String::from_str("expected ']'"));
    }
    Ok(position)
}

} // verus!
