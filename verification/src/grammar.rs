//! The language and its translation, as mathematics.
//!
//! Each function of this module reads one construct of the language from a
//! sequence of tokens, starting at a [`Cursor`], and gives the instructions
//! that the construct translates to together with the cursor behind it, or
//! the message with which reading fails. The parser's contracts are stated
//! over these functions.
//!
//! ```text
//! program   := function*
//! function  := 'func' IDENT '(' params? ')' '{' statement* '}'
//! params    := 'int' IDENT (',' 'int' IDENT)*
//! statement := decl ';' | assign ';' | return ';' | print ';' | read ';'
//!            | while | if
//! decl      := 'int' ('[' expr ']')? IDENT
//! assign    := IDENT ('[' expr ']')? '=' expr | IDENT rel_op expr
//! return    := 'return' expr
//! print     := 'print' '(' term ('[' expr ']')? ')'
//! read      := 'read' '(' expr ')'
//! while     := 'while' comparison '{' statement* '}'
//! if        := 'if' comparison '{' statement* '}' ('else' '{' statement* '}')?
//! expr      := mul_expr (('+' | '-') mul_expr)*
//! mul_expr  := term (('*' | '/' | '%') term)*
//! term      := NUM | IDENT ('(' (expr (',' expr)*)? ')' | '[' expr ']')?
//!            | '(' expr ')'
//! comparison := term rel_op term
//! rel_op    := '<' | '<=' | '>' | '>=' | '==' | '!='
//! ```

use crate::ir::{ExprView, Instr, Label, Names, Operand, Operator};
use crate::token::TokenView;
use vstd::prelude::*;

verus! {

/// Where the parser stands: the index of the next token and the counters
/// from which it makes names.
pub struct Cursor {
    pub index: int,
    pub names: Names,
}

impl Cursor {
    /// The cursor `n` tokens further on.
    pub open spec fn step(self, n: int) -> Cursor {
        Cursor { index: self.index + n, names: self.names }
    }

    /// The temporary that is made next.
    pub open spec fn temporary(self) -> Operand {
        Operand::Temporary(self.names.temp + 1)
    }

    /// The cursor after a temporary has been made.
    pub open spec fn with_temporary(self) -> Cursor {
        Cursor { index: self.index, names: Names { temp: self.names.temp + 1, ..self.names } }
    }
}

/// What reading a construct gives: its value and the cursor behind it, or
/// the message of the failure.
pub type Parse<T> = Result<(T, Cursor), Seq<char>>;

/// The token at `index`, if there is one.
pub open spec fn peek_at(tokens: Seq<TokenView>, index: int) -> Option<TokenView> {
    if 0 <= index < tokens.len() {
        Some(tokens[index])
    } else {
        None
    }
}

/// The message for a token that is missing at the end.
pub open spec fn end_of_tokens() -> Seq<char> {
    "expected a token, but got nothing"@
}

/// The result `r` of reading from `from`, if it has moved forward and stays
/// within the `len` tokens; a failure otherwise. Every construct that is read
/// successfully moves forward (see [`crate::progress::lemma_forward`]), so
/// this changes no result: it is what makes the recursion of the grammar
/// well-founded.
pub open spec fn forward<T>(r: Parse<T>, from: Cursor, len: nat) -> Parse<T> {
    match r {
        Ok((_, to)) => if from.index < to.index <= len {
            r
        } else {
            Err("no token was read"@)
        },
        Err(_) => r,
    }
}

/// The operator of a `+` or `-` token.
pub open spec fn additive(token: TokenView) -> Option<Operator> {
    match token {
        TokenView::Plus => Some(Operator::Add),
        TokenView::Subtract => Some(Operator::Sub),
        _ => None,
    }
}

/// The operator of a `*`, `/` or `%` token.
pub open spec fn multiplying(token: TokenView) -> Option<Operator> {
    match token {
        TokenView::Multiply => Some(Operator::Mult),
        TokenView::Divide => Some(Operator::Div),
        TokenView::Modulus => Some(Operator::Mod),
        _ => None,
    }
}

/// The operator of a comparison token.
pub open spec fn relational(token: TokenView) -> Option<Operator> {
    match token {
        TokenView::Less => Some(Operator::Lt),
        TokenView::LessEqual => Some(Operator::Le),
        TokenView::Greater => Some(Operator::Gt),
        TokenView::GreaterEqual => Some(Operator::Ge),
        TokenView::Equality => Some(Operator::Eq),
        TokenView::NotEqual => Some(Operator::Neq),
        _ => None,
    }
}

/// An expression without code whose value is `name`.
pub open spec fn plain(name: Operand) -> ExprView {
    ExprView { code: Seq::empty(), name }
}

/// The operation `op` on two evaluated operands: the code of both, then a
/// fresh temporary that receives the result.
pub open spec fn binary(op: Operator, left: ExprView, right: ExprView, at: Cursor) -> (
    ExprView,
    Cursor,
) {
    let t = at.temporary();
    (
        ExprView {
            code: left.code + right.code + seq![
                Instr::Declare(t),
                Instr::Binary { op, dst: t, left: left.name, right: right.name },
            ],
            name: t,
        },
        at.with_temporary(),
    )
}

/// A term: a literal, a variable, a call, an array element or an expression
/// in parentheses.
pub open spec fn term(tokens: Seq<TokenView>, at: Cursor) -> Parse<ExprView>
    decreases tokens.len() - at.index, 0int,
{
    match peek_at(tokens, at.index) {
        None => Err(end_of_tokens()),
        Some(TokenView::Num(n)) => Ok((plain(Operand::Literal(n)), at.step(1))),
        Some(TokenView::Ident(name)) => match peek_at(tokens, at.index + 1) {
            Some(TokenView::LeftParen) => {
                let arguments = if peek_at(tokens, at.index + 2) == Some(TokenView::RightParen) {
                    Ok(((Seq::empty(), Seq::empty()), at.step(3)))
                } else {
                    arguments(tokens, at.step(2), Seq::empty(), Seq::empty())
                };
                match arguments {
                    Err(message) => Err(message),
                    Ok(((code, args), after)) => {
                        let t = after.temporary();
                        Ok(
                            (
                                ExprView {
                                    code: code + seq![
                                        Instr::Declare(t),
                                        Instr::Call { dst: t, function: name, args },
                                    ],
                                    name: t,
                                },
                                after.with_temporary(),
                            ),
                        )
                    },
                }
            },
            Some(TokenView::LeftBracket) => match expression(tokens, at.step(2)) {
                Err(message) => Err(message),
                Ok((index, after)) => match peek_at(tokens, after.index) {
                    None => Err(end_of_tokens()),
                    Some(TokenView::RightBracket) => {
                        let t = after.temporary();
                        Ok(
                            (
                                ExprView {
                                    code: index.code + seq![
                                        Instr::Declare(t),
                                        Instr::Load {
                                            dst: t,
                                            base: Operand::Variable(name),
                                            index: index.name,
                                        },
                                    ],
                                    name: t,
                                },
                                after.step(1).with_temporary(),
                            ),
                        )
                    },
                    Some(_) => Err("Expecting ']' after '['"@),
                },
            },
            _ => Ok((plain(Operand::Variable(name)), at.step(1))),
        },
        Some(TokenView::LeftParen) => match expression(tokens, at.step(1)) {
            Err(message) => Err(message),
            Ok((inner, after)) => match peek_at(tokens, after.index) {
                None => Err(end_of_tokens()),
                Some(TokenView::RightParen) => Ok((inner, after.step(1))),
                Some(_) => Err("Expecting ')' after '('"@),
            },
        },
        Some(_) => Err("invalid expression"@),
    }
}

/// The arguments of a call from `at` on, behind those whose code and names
/// are `code` and `names`: expressions with commas between them, up to the
/// closing parenthesis.
pub open spec fn arguments(
    tokens: Seq<TokenView>,
    at: Cursor,
    code: Seq<Instr>,
    names: Seq<Operand>,
) -> Parse<(Seq<Instr>, Seq<Operand>)>
    decreases tokens.len() - at.index, 3int,
{
    match forward(expression(tokens, at), at, tokens.len()) {
        Err(message) => Err(message),
        Ok((argument, after)) => match peek_at(tokens, after.index) {
            None => Err(end_of_tokens()),
            Some(TokenView::Comma) => arguments(
                tokens,
                after.step(1),
                code + argument.code,
                names.push(argument.name),
            ),
            Some(TokenView::RightParen) => Ok(
                ((code + argument.code, names.push(argument.name)), after.step(1)),
            ),
            Some(_) => Err("expected ',' or ')'"@),
        },
    }
}

/// A product: terms with `*`, `/` or `%` between them, taken from the left.
pub open spec fn multiplicative(tokens: Seq<TokenView>, at: Cursor) -> Parse<ExprView>
    decreases tokens.len() - at.index, 1int,
{
    match forward(term(tokens, at), at, tokens.len()) {
        Err(message) => Err(message),
        Ok((left, after)) => multiplicative_tail(tokens, after, left),
    }
}

/// What follows the product `left`: further factors, each with its operator.
pub open spec fn multiplicative_tail(tokens: Seq<TokenView>, at: Cursor, left: ExprView) -> Parse<
    ExprView,
>
    decreases tokens.len() - at.index, 0int,
{
    match peek_at(tokens, at.index) {
        None => Ok((left, at)),
        Some(token) => match multiplying(token) {
            None => Ok((left, at)),
            Some(op) => match forward(term(tokens, at.step(1)), at, tokens.len()) {
                Err(message) => Err(message),
                Ok((right, after)) => {
                    let (product, behind) = binary(op, left, right, after);
                    multiplicative_tail(tokens, behind, product)
                },
            },
        },
    }
}

/// An expression: products with `+` or `-` between them, taken from the
/// left.
pub open spec fn expression(tokens: Seq<TokenView>, at: Cursor) -> Parse<ExprView>
    decreases tokens.len() - at.index, 2int,
{
    match forward(multiplicative(tokens, at), at, tokens.len()) {
        Err(message) => Err(message),
        Ok((left, after)) => additive_tail(tokens, after, left),
    }
}

/// What follows the sum `left`: further products, each with its operator.
pub open spec fn additive_tail(tokens: Seq<TokenView>, at: Cursor, left: ExprView) -> Parse<
    ExprView,
>
    decreases tokens.len() - at.index, 0int,
{
    match peek_at(tokens, at.index) {
        None => Ok((left, at)),
        Some(token) => match additive(token) {
            None => Ok((left, at)),
            Some(op) => match forward(multiplicative(tokens, at.step(1)), at, tokens.len()) {
                Err(message) => Err(message),
                Ok((right, after)) => {
                    let (sum, behind) = binary(op, left, right, after);
                    additive_tail(tokens, behind, sum)
                },
            },
        },
    }
}

/// A comparison of two terms.
pub open spec fn comparison(tokens: Seq<TokenView>, at: Cursor) -> Parse<ExprView> {
    match term(tokens, at) {
        Err(message) => Err(message),
        Ok((left, after)) => match peek_at(tokens, after.index) {
            None => Err(end_of_tokens()),
            Some(token) => match relational(token) {
                None => Err("expected boolean operator"@),
                Some(op) => match term(tokens, after.step(1)) {
                    Err(message) => Err(message),
                    Ok((right, behind)) => Ok(binary(op, left, right, behind)),
                },
            },
        },
    }
}

/// An expression between brackets; the opening bracket may have been read
/// before.
pub open spec fn array_form(tokens: Seq<TokenView>, at: Cursor) -> Parse<ExprView> {
    match peek_at(tokens, at.index) {
        None => Err(end_of_tokens()),
        Some(token) => {
            let start = if token == TokenView::LeftBracket {
                at.step(1)
            } else {
                at
            };
            match expression(tokens, start) {
                Err(message) => Err(message),
                Ok((index, after)) => match peek_at(tokens, after.index) {
                    None => Err(end_of_tokens()),
                    Some(TokenView::RightBracket) => Ok((index, after.step(1))),
                    Some(_) => Err("expected ']'"@),
                },
            }
        },
    }
}

/// The parenthesis that closes the operand of `print` or `read`.
pub open spec fn closing(tokens: Seq<TokenView>, code: Seq<Instr>, at: Cursor) -> Parse<
    Seq<Instr>,
> {
    match peek_at(tokens, at.index) {
        None => Err(end_of_tokens()),
        Some(TokenView::RightParen) => Ok((code, at.step(1))),
        Some(_) => Err("expect ')' closing statement"@),
    }
}

/// A declaration behind its `int`: of a scalar, or of an array with its size
/// in brackets. The code that computes the size is not part of the
/// declaration.
#[verifier::opaque]
pub open spec fn declaration(tokens: Seq<TokenView>, at: Cursor) -> Parse<Seq<Instr>> {
    match peek_at(tokens, at.index) {
        None => Err(end_of_tokens()),
        Some(TokenView::LeftBracket) => match expression(tokens, at.step(1)) {
            Err(message) => Err(message),
            Ok((size, after)) => match peek_at(tokens, after.index) {
                None => Err(end_of_tokens()),
                Some(TokenView::RightBracket) => match peek_at(tokens, after.index + 1) {
                    Some(TokenView::Ident(name)) => Ok(
                        (seq![Instr::DeclareArray { name, size: size.name }], after.step(2)),
                    ),
                    _ => Err("expected identifier"@),
                },
                Some(_) => Err("expected ']'"@),
            },
        },
        Some(TokenView::Ident(name)) => Ok(
            (seq![Instr::Declare(Operand::Variable(name))], at.step(1)),
        ),
        Some(_) => Err("expected identifier"@),
    }
}

/// What follows the identifier `name` at the beginning of a statement: an
/// assignment to it or to one of its elements, or a comparison whose result
/// is dropped.
#[verifier::opaque]
pub open spec fn assignment(tokens: Seq<TokenView>, at: Cursor, name: Seq<char>) -> Parse<
    Seq<Instr>,
> {
    match peek_at(tokens, at.index) {
        Some(TokenView::Assign) => match expression(tokens, at.step(1)) {
            Err(message) => Err(message),
            Ok((value, after)) => Ok(
                (
                    value.code + seq![
                        Instr::Move { dst: Operand::Variable(name), src: value.name },
                    ],
                    after,
                ),
            ),
        },
        Some(TokenView::LeftBracket) => match expression(tokens, at.step(1)) {
            Err(message) => Err(message),
            Ok((index, after)) => match peek_at(tokens, after.index) {
                None => Err(end_of_tokens()),
                Some(TokenView::RightBracket) => match peek_at(tokens, after.index + 1) {
                    Some(TokenView::Assign) => match expression(tokens, after.step(2)) {
                        Err(message) => Err(message),
                        Ok((value, behind)) => Ok(
                            (
                                index.code + value.code + seq![
                                    Instr::Store {
                                        array: name,
                                        index: index.name,
                                        src: value.name,
                                    },
                                ],
                                behind,
                            ),
                        ),
                    },
                    _ => Err("unexpected token after identifier []"@),
                },
                Some(_) => Err("expected ']'"@),
            },
        },
        Some(token) => match relational(token) {
            Some(op) => match expression(tokens, at.step(1)) {
                Err(message) => Err(message),
                Ok((right, after)) => {
                    let (truth, behind) = binary(
                        op,
                        plain(Operand::Variable(name)),
                        right,
                        after,
                    );
                    Ok((truth.code + seq![Instr::Discard(truth.name)], behind))
                },
            },
            None => Err("unexpected token after identifier"@),
        },
        None => Err("unexpected token after identifier"@),
    }
}

/// The value of a `return` statement, behind its keyword.
#[verifier::opaque]
pub open spec fn returning(tokens: Seq<TokenView>, at: Cursor) -> Parse<Seq<Instr>> {
    match expression(tokens, at) {
        Err(message) => Err(message),
        Ok((value, after)) => Ok((value.code + seq![Instr::Return(value.name)], after)),
    }
}

/// The operand of a `print` statement, behind its keyword: a term in
/// parentheses, which an expression in brackets may follow as an index.
#[verifier::opaque]
pub open spec fn printing(tokens: Seq<TokenView>, at: Cursor) -> Parse<Seq<Instr>> {
    match peek_at(tokens, at.index) {
        None => Err(end_of_tokens()),
        Some(TokenView::LeftParen) => match term(tokens, at.step(1)) {
            Err(message) => Err(message),
            Ok((value, after)) => match peek_at(tokens, after.index) {
                None => Err(end_of_tokens()),
                Some(TokenView::LeftBracket) => match array_form(tokens, after) {
                    Err(message) => Err(message),
                    Ok((index, behind)) => {
                        let t = behind.temporary();
                        closing(
                            tokens,
                            value.code + index.code + seq![
                                Instr::Declare(t),
                                Instr::Load { dst: t, base: value.name, index: index.name },
                                Instr::Output(t),
                            ],
                            behind.with_temporary(),
                        )
                    },
                },
                Some(_) => closing(tokens, value.code + seq![Instr::Output(value.name)], after),
            },
        },
        Some(_) => Err("expect '(' closing statement"@),
    }
}

/// The operand of a `read` statement, behind its keyword.
#[verifier::opaque]
pub open spec fn reading(tokens: Seq<TokenView>, at: Cursor) -> Parse<Seq<Instr>> {
    match peek_at(tokens, at.index) {
        None => Err(end_of_tokens()),
        Some(TokenView::LeftParen) => match expression(tokens, at.step(1)) {
            Err(message) => Err(message),
            Ok((value, after)) => closing(
                tokens,
                value.code + seq![Instr::Input(value.name)],
                after,
            ),
        },
        Some(_) => Err("expect '(' closing statement"@),
    }
}

/// The semicolon that ends a simple statement.
pub open spec fn terminated(tokens: Seq<TokenView>, r: Parse<Seq<Instr>>) -> Parse<
    Option<Seq<Instr>>,
> {
    match r {
        Err(message) => Err(message),
        Ok((code, after)) => match peek_at(tokens, after.index) {
            None => Err(end_of_tokens()),
            Some(TokenView::Semicolon) => Ok((Some(code), after.step(1))),
            Some(_) => Err("expect ';' closing statement after statement"@),
        },
    }
}

/// The code of a loop with the labels `begin` and `end`.
pub open spec fn loop_code(
    begin: Label,
    end: Label,
    condition: ExprView,
    body: Seq<Instr>,
) -> Seq<Instr> {
    seq![Instr::Mark(begin)] + condition.code + seq![
        Instr::BranchIfNot { cond: condition.name, target: end },
    ] + body + seq![Instr::Jump(begin), Instr::Mark(end)]
}

/// The code of a conditional with the labels `yes` and `end`: the second
/// branch stands first, and the first branch behind the label `yes`.
pub open spec fn conditional_code(
    yes: Label,
    end: Label,
    condition: ExprView,
    first: Seq<Instr>,
    second: Seq<Instr>,
) -> Seq<Instr> {
    condition.code + seq![Instr::BranchIf { cond: condition.name, target: yes }] + second
        + seq![Instr::Jump(end), Instr::Mark(yes)] + first + seq![Instr::Mark(end)]
}

/// A result of reading a statement that is there.
pub open spec fn present(r: Parse<Seq<Instr>>) -> Parse<Option<Seq<Instr>>> {
    match r {
        Err(message) => Err(message),
        Ok((code, behind)) => Ok((Some(code), behind)),
    }
}

/// The cursor `at` with the labels of a loop made.
pub open spec fn loop_labels(at: Cursor) -> Cursor {
    Cursor {
        index: at.index,
        names: Names {
            loop_begin: at.names.loop_begin + 1,
            loop_end: at.names.loop_end + 1,
            ..at.names
        },
    }
}

/// The cursor `at` with the labels of a conditional made.
pub open spec fn conditional_labels(at: Cursor) -> Cursor {
    Cursor {
        index: at.index,
        names: Names {
            if_true: at.names.if_true + 1,
            end_if: at.names.end_if + 1,
            ..at.names
        },
    }
}

/// A loop behind its `while`: its labels are made first, then the condition
/// and the body are read.
pub open spec fn looping(tokens: Seq<TokenView>, at: Cursor) -> Parse<Seq<Instr>>
    decreases tokens.len() - at.index, 0int,
{
    let start = loop_labels(at);
    let begin = Label::LoopBegin(start.names.loop_begin);
    let end = Label::LoopEnd(start.names.loop_end);
    match forward(comparison(tokens, start), at, tokens.len()) {
        Err(message) => Err(message),
        Ok((condition, after)) => match peek_at(tokens, after.index) {
            None => Err(end_of_tokens()),
            Some(TokenView::LeftCurly) => match block(tokens, after.step(1)) {
                Err(message) => Err(message),
                Ok((body, behind)) => Ok((loop_code(begin, end, condition, body), behind)),
            },
            Some(_) => Err("expect '{' for while loop"@),
        },
    }
}

/// The second branch of a conditional, behind the first: `else` and a
/// block, or nothing.
pub open spec fn alternative(tokens: Seq<TokenView>, at: Cursor) -> Parse<Seq<Instr>>
    decreases tokens.len() - at.index, 0int,
{
    match peek_at(tokens, at.index) {
        Some(TokenView::Else) => match peek_at(tokens, at.index + 1) {
            None => Err(end_of_tokens()),
            Some(TokenView::LeftCurly) => block(tokens, at.step(2)),
            Some(_) => Err("expect '{' opening statement"@),
        },
        _ => Ok((Seq::empty(), at)),
    }
}

/// A conditional behind its `if`: its labels are made first, then the
/// condition and the branches are read.
pub open spec fn branching(tokens: Seq<TokenView>, at: Cursor) -> Parse<Seq<Instr>>
    decreases tokens.len() - at.index, 0int,
{
    let start = conditional_labels(at);
    let yes = Label::IfTrue(start.names.if_true);
    let end = Label::EndIf(start.names.end_if);
    match forward(comparison(tokens, start), at, tokens.len()) {
        Err(message) => Err(message),
        Ok((condition, after)) => match peek_at(tokens, after.index) {
            None => Err(end_of_tokens()),
            Some(TokenView::LeftCurly) => match forward(
                block(tokens, after.step(1)),
                after,
                tokens.len(),
            ) {
                Err(message) => Err(message),
                Ok((first, middle)) => match alternative(tokens, middle) {
                    Err(message) => Err(message),
                    Ok((second, behind)) => Ok(
                        (conditional_code(yes, end, condition, first, second), behind),
                    ),
                },
            },
            Some(_) => Err("expect '{' closing statement"@),
        },
    }
}

/// A statement. There is none at the end of the tokens and in front of a
/// closing brace.
pub open spec fn statement(tokens: Seq<TokenView>, at: Cursor) -> Parse<Option<Seq<Instr>>>
    decreases tokens.len() - at.index, 1int,
{
    match peek_at(tokens, at.index) {
        None => Ok((None, at)),
        Some(TokenView::RightCurly) => Ok((None, at)),
        Some(TokenView::Int) => terminated(tokens, declaration(tokens, at.step(1))),
        Some(TokenView::Ident(name)) => terminated(tokens, assignment(tokens, at.step(1), name)),
        Some(TokenView::Return) => terminated(tokens, returning(tokens, at.step(1))),
        Some(TokenView::Print) => terminated(tokens, printing(tokens, at.step(1))),
        Some(TokenView::Read) => terminated(tokens, reading(tokens, at.step(1))),
        Some(TokenView::While) => present(looping(tokens, at.step(1))),
        Some(TokenView::If) => present(branching(tokens, at.step(1))),
        Some(_) => Err("invalid statement"@),
    }
}

/// The statements of a block behind its opening brace, up to and including
/// the brace that closes it.
pub open spec fn block(tokens: Seq<TokenView>, at: Cursor) -> Parse<Seq<Instr>>
    decreases tokens.len() - at.index, 2int,
{
    match peek_at(tokens, at.index) {
        None => Err(end_of_tokens()),
        Some(TokenView::RightCurly) => Ok((Seq::empty(), at.step(1))),
        Some(_) => match forward(statement(tokens, at), at, tokens.len()) {
            Err(message) => Err(message),
            Ok((first, after)) => match block(tokens, after) {
                Err(message) => Err(message),
                Ok((rest, behind)) => Ok(
                    (
                        match first {
                            Some(code) => code,
                            None => Seq::empty(),
                        } + rest,
                        behind,
                    ),
                ),
            },
        },
    }
}

/// The parameters of a function from the `int` at `index` on, behind those
/// in `names`, up to and including the closing parenthesis.
pub open spec fn more_parameters(
    tokens: Seq<TokenView>,
    index: int,
    names: Seq<Seq<char>>,
) -> Result<(Seq<Seq<char>>, int), Seq<char>>
    decreases tokens.len() - index,
{
    match peek_at(tokens, index + 1) {
        None => Err(end_of_tokens()),
        Some(TokenView::Ident(name)) => match peek_at(tokens, index + 2) {
            None => Err(end_of_tokens()),
            Some(TokenView::Comma) => match peek_at(tokens, index + 3) {
                None => Err(end_of_tokens()),
                Some(TokenView::Int) => more_parameters(tokens, index + 3, names.push(name)),
                Some(_) => Err("expected 'int' keyword"@),
            },
            Some(TokenView::RightParen) => Ok((names.push(name), index + 3)),
            Some(_) => Err("expected ',' or ')'"@),
        },
        Some(_) => Err("expected ident function parameter"@),
    }
}

/// The parameters of a function behind its opening parenthesis: their names
/// and the index behind the closing parenthesis.
pub open spec fn parameters(tokens: Seq<TokenView>, index: int) -> Result<
    (Seq<Seq<char>>, int),
    Seq<char>,
> {
    match peek_at(tokens, index) {
        None => Err(end_of_tokens()),
        Some(TokenView::RightParen) => Ok((Seq::empty(), index + 1)),
        Some(TokenView::Int) => more_parameters(tokens, index, Seq::empty()),
        Some(_) => Err("expected 'int' keyword or ')' token"@),
    }
}

/// A function. There is none at the end of the tokens.
pub open spec fn function(tokens: Seq<TokenView>, at: Cursor) -> Parse<Option<Seq<Instr>>> {
    match peek_at(tokens, at.index) {
        None => Ok((None, at)),
        Some(TokenView::Func) => match peek_at(tokens, at.index + 1) {
            None => Err(end_of_tokens()),
            Some(TokenView::Ident(name)) => match peek_at(tokens, at.index + 2) {
                None => Err(end_of_tokens()),
                Some(TokenView::LeftParen) => match parameters(tokens, at.index + 3) {
                    Err(message) => Err(message),
                    Ok((params, index)) => match peek_at(tokens, index) {
                        None => Err(end_of_tokens()),
                        Some(TokenView::LeftCurly) => match block(
                            tokens,
                            Cursor { index: index + 1, names: at.names },
                        ) {
                            Err(message) => Err(message),
                            Ok((body, behind)) => Ok(
                                (
                                    Some(
                                        seq![Instr::Func { name, params }] + body + seq![
                                            Instr::EndFunc,
                                        ],
                                    ),
                                    behind,
                                ),
                            ),
                        },
                        Some(_) => Err("expected '{'"@),
                    },
                },
                Some(_) => Err("expected '('"@),
            },
            Some(_) => Err("functions must have a function identifier"@),
        },
        Some(_) => Err("functions must begin with func"@),
    }
}

/// A program: the functions from `at` to the end of the tokens, one behind
/// the other.
pub open spec fn program(tokens: Seq<TokenView>, at: Cursor) -> Parse<Seq<Instr>>
    decreases tokens.len() - at.index,
{
    match function(tokens, at) {
        Err(message) => Err(message),
        Ok((None, after)) => Ok((Seq::empty(), after)),
        Ok((Some(first), _)) => match forward(function(tokens, at), at, tokens.len()) {
            Err(message) => Err(message),
            Ok((_, after)) => match program(tokens, after) {
                Err(message) => Err(message),
                Ok((rest, behind)) => Ok((first + rest, behind)),
            },
        },
    }
}

} // verus!
