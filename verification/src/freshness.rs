//! Names are made once.
//!
//! An instruction that defines a label or declares a temporary makes a
//! name. Whatever is read from the tokens makes names that were taken from
//! the counters while it was read, each of them once. So no program defines a
//! label twice or declares a temporary twice.

use crate::grammar::{
    additive, additive_tail, alternative, arguments, array_form, assignment, binary, block,
    branching, comparison, conditional_code, conditional_labels, declaration, expression, forward,
    function, loop_code, loop_labels, looping, multiplicative, multiplicative_tail, multiplying,
    parameters, peek_at, plain, printing, program, reading, relational, returning, statement, term,
    Cursor,
};
use crate::ir::{ExprView, Instr, Label, Names, Operand, Operator};
use crate::progress::{
    lemma_alternative_moves, lemma_arguments_moves, lemma_array_form_moves, lemma_block_moves,
    lemma_comparison_moves, lemma_expression_moves, lemma_function_moves,
    lemma_multiplicative_moves, lemma_program_moves, lemma_statement_moves, lemma_term_moves,
};
use crate::token::TokenView;
use vstd::prelude::*;

verus! {

/// A name that an instruction makes.
pub enum Made {
    /// A label, by the instruction that defines it.
    Label(Label),
    /// A temporary, by the instruction that declares it.
    Temporary(nat),
}

/// The name that an instruction makes, if it makes one.
pub open spec fn made_of(instr: Instr) -> Seq<Made> {
    match instr {
        Instr::Mark(label) => seq![Made::Label(label)],
        Instr::Declare(Operand::Temporary(n)) => seq![Made::Temporary(n)],
        _ => Seq::empty(),
    }
}

/// The names that a piece of code makes, in order.
pub open spec fn made(code: Seq<Instr>) -> Seq<Made>
    decreases code.len(),
{
    if code.len() == 0 {
        Seq::empty()
    } else {
        made(code.drop_last()) + made_of(code.last())
    }
}

/// The name was taken from the counters after they stood at `from` and no
/// later than they stood at `to`.
pub open spec fn made_between(name: Made, from: Names, to: Names) -> bool {
    match name {
        Made::Label(Label::LoopBegin(n)) => from.loop_begin < n <= to.loop_begin,
        Made::Label(Label::LoopEnd(n)) => from.loop_end < n <= to.loop_end,
        Made::Label(Label::IfTrue(n)) => from.if_true < n <= to.if_true,
        Made::Label(Label::EndIf(n)) => from.end_if < n <= to.end_if,
        Made::Label(Label::Else(n)) => from.else_branch < n <= to.else_branch,
        Made::Temporary(n) => from.temp < n <= to.temp,
    }
}

/// All the names were made between `from` and `to`.
pub open spec fn made_within(names: Seq<Made>, from: Names, to: Names) -> bool {
    forall|i: int| 0 <= i < names.len() ==> made_between(#[trigger] names[i], from, to)
}

/// No name of `a` is a name of `b`.
pub open spec fn apart(a: Seq<Made>, b: Seq<Made>) -> bool {
    forall|i: int, j: int|
        0 <= i < a.len() && 0 <= j < b.len() ==> #[trigger] a[i] != #[trigger] b[j]
}

/// The names are pairwise distinct and were all made between `from` and
/// `to`.
pub open spec fn fresh(names: Seq<Made>, from: Names, to: Names) -> bool {
    names.no_duplicates() && made_within(names, from, to)
}

pub proof fn lemma_made_concat(a: Seq<Instr>, b: Seq<Instr>)
    ensures
        made(a + b) == made(a) + made(b),
    decreases b.len(),
{
    if b.len() == 0 {
        assert(a + b =~= a);
        assert(made(a) + made(b) =~= made(a));
    } else {
        lemma_made_concat(a, b.drop_last());
        assert((a + b).drop_last() =~= a + b.drop_last());
        assert((a + b).last() == b.last());
        assert(made(a + b) =~= made(a) + made(b));
    }
}

proof fn lemma_made_one(instr: Instr)
    ensures
        made(seq![instr]) == made_of(instr),
{
    assert(seq![instr].drop_last() =~= Seq::<Instr>::empty());
    assert(made(Seq::<Instr>::empty()) =~= Seq::<Made>::empty());
    assert(made(seq![instr]) =~= made_of(instr));
}

proof fn lemma_made_two(first: Instr, second: Instr)
    ensures
        made(seq![first, second]) == made_of(first) + made_of(second),
{
    lemma_made_one(first);
    assert(seq![first, second].drop_last() =~= seq![first]);
}

/// Code followed by an instruction that makes no name makes the names of
/// the code.
proof fn lemma_made_append(code: Seq<Instr>, instr: Instr)
    requires
        made_of(instr).len() == 0,
    ensures
        made(code + seq![instr]) == made(code),
{
    lemma_made_concat(code, seq![instr]);
    lemma_made_one(instr);
    assert(made(code) + made_of(instr) =~= made(code));
}

proof fn lemma_made_within_concat(a: Seq<Made>, b: Seq<Made>, from: Names, to: Names)
    requires
        made_within(a, from, to),
        made_within(b, from, to),
    ensures
        made_within(a + b, from, to),
{
    assert forall|i: int| 0 <= i < (a + b).len() implies made_between(
        #[trigger] (a + b)[i],
        from,
        to,
    ) by {
        if i < a.len() {
            assert(made_between(a[i], from, to));
        } else {
            assert(made_between(b[i - a.len()], from, to));
        }
    }
}

proof fn lemma_made_within_wider(names: Seq<Made>, from: Names, to: Names, low: Names, high: Names)
    requires
        made_within(names, from, to),
        low.at_most(from),
        to.at_most(high),
    ensures
        made_within(names, low, high),
{
    assert forall|i: int| 0 <= i < names.len() implies made_between(
        #[trigger] names[i],
        low,
        high,
    ) by {
        assert(made_between(names[i], from, to));
    }
}

/// Names made in two spans of the counters that do not overlap are apart.
proof fn lemma_apart_by_span(
    a: Seq<Made>,
    a_from: Names,
    a_to: Names,
    b: Seq<Made>,
    b_from: Names,
    b_to: Names,
)
    requires
        made_within(a, a_from, a_to),
        made_within(b, b_from, b_to),
        a_to.at_most(b_from) || b_to.at_most(a_from),
    ensures
        apart(a, b),
{
    assert forall|i: int, j: int| 0 <= i < a.len() && 0 <= j < b.len() implies #[trigger] a[i]
        != #[trigger] b[j] by {
        assert(made_between(a[i], a_from, a_to));
        assert(made_between(b[j], b_from, b_to));
    }
}

proof fn lemma_apart_concat(a: Seq<Made>, b: Seq<Made>, c: Seq<Made>)
    requires
        apart(a, c),
        apart(b, c),
    ensures
        apart(a + b, c),
{
    assert forall|i: int, j: int| 0 <= i < (a + b).len() && 0 <= j < c.len() implies #[trigger] (a
        + b)[i] != #[trigger] c[j] by {
        if i < a.len() {
            assert(a[i] != c[j]);
        } else {
            assert(b[i - a.len()] != c[j]);
        }
    }
}

proof fn lemma_distinct_concat(a: Seq<Made>, b: Seq<Made>)
    requires
        a.no_duplicates(),
        b.no_duplicates(),
        apart(a, b),
    ensures
        (a + b).no_duplicates(),
{
    let all = a + b;
    assert forall|i: int, j: int| 0 <= i < all.len() && 0 <= j < all.len() && i != j implies all[i]
        != all[j] by {
        if i < a.len() && j < a.len() {
        } else if i >= a.len() && j >= a.len() {
            assert(b[i - a.len()] != b[j - a.len()]);
        } else if i < a.len() {
            assert(a[i] != b[j - a.len()]);
        } else {
            assert(a[j] != b[i - a.len()]);
        }
    }
}

/// Fresh names followed by fresh names that were made later are fresh
/// together.
pub proof fn lemma_fresh_concat(
    a: Seq<Made>,
    b: Seq<Made>,
    from: Names,
    middle: Names,
    later: Names,
    to: Names,
)
    requires
        fresh(a, from, middle),
        fresh(b, later, to),
        from.at_most(middle),
        middle.at_most(later),
        later.at_most(to),
    ensures
        fresh(a + b, from, to),
{
    lemma_apart_by_span(a, from, middle, b, later, to);
    lemma_distinct_concat(a, b);
    lemma_made_within_wider(a, from, middle, from, to);
    lemma_made_within_wider(b, later, to, from, to);
    lemma_made_within_concat(a, b, from, to);
}

/// Fresh names followed by the one name that is made next are fresh
/// together.
proof fn lemma_fresh_push(a: Seq<Made>, name: Made, from: Names, to: Names, next: Names)
    requires
        fresh(a, from, to),
        made_between(name, to, next),
        from.at_most(to),
        to.at_most(next),
    ensures
        fresh(a + seq![name], from, next),
{
    assert(fresh(seq![name], to, next));
    lemma_fresh_concat(a, seq![name], from, to, to, next);
}

/// Four runs of names, each without duplicates and each apart from the
/// others, are without duplicates in a row.
proof fn lemma_distinct_four(a: Seq<Made>, b: Seq<Made>, c: Seq<Made>, d: Seq<Made>)
    requires
        a.no_duplicates(),
        b.no_duplicates(),
        c.no_duplicates(),
        d.no_duplicates(),
        apart(a, b),
        apart(a, c),
        apart(a, d),
        apart(b, c),
        apart(b, d),
        apart(c, d),
    ensures
        (a + b + c + d).no_duplicates(),
{
    lemma_distinct_concat(a, b);
    lemma_apart_concat(a, b, c);
    lemma_distinct_concat(a + b, c);
    lemma_apart_concat(a, b, d);
    lemma_apart_concat(a + b, c, d);
    lemma_distinct_concat(a + b + c, d);
}

/// The code of an expression read between two cursors makes fresh names.
pub open spec fn fresh_expression(r: Result<(ExprView, Cursor), Seq<char>>, from: Names) -> bool {
    match r {
        Ok((value, to)) => fresh(made(value.code), from, to.names),
        Err(_) => true,
    }
}

/// Code read between two cursors makes fresh names.
pub open spec fn fresh_code(r: Result<(Seq<Instr>, Cursor), Seq<char>>, from: Names) -> bool {
    match r {
        Ok((code, to)) => fresh(made(code), from, to.names),
        Err(_) => true,
    }
}

/// As [`fresh_code`], for code that may be absent.
pub open spec fn fresh_optional_code(
    r: Result<(Option<Seq<Instr>>, Cursor), Seq<char>>,
    from: Names,
) -> bool {
    match r {
        Ok((Some(code), to)) => fresh(made(code), from, to.names),
        _ => true,
    }
}

/// The names of a binary operation: those of its operands and its
/// temporary.
proof fn lemma_binary_fresh(
    op: Operator,
    left: ExprView,
    right: ExprView,
    at: Cursor,
    from: Names,
    middle: Names,
)
    requires
        fresh(made(left.code), from, middle),
        fresh(made(right.code), middle, at.names),
        from.at_most(middle),
        middle.at_most(at.names),
    ensures
        fresh(made(binary(op, left, right, at).0.code), from, binary(op, left, right, at).1.names),
{
    let t = at.temporary();
    let compute = Instr::Binary { op, dst: t, left: left.name, right: right.name };
    let both = left.code + right.code;
    lemma_made_concat(left.code, right.code);
    lemma_fresh_concat(made(left.code), made(right.code), from, middle, middle, at.names);
    lemma_made_concat(both, seq![Instr::Declare(t), compute]);
    lemma_made_two(Instr::Declare(t), compute);
    assert(made_of(Instr::Declare(t)) + made_of(compute) =~= seq![
        Made::Temporary(at.names.temp + 1),
    ]);
    lemma_fresh_push(
        made(both),
        Made::Temporary(at.names.temp + 1),
        from,
        at.names,
        at.with_temporary().names,
    );
}

/// Code followed by the declaration of the next temporary and an
/// instruction that makes no name.
proof fn lemma_declare_fresh(code: Seq<Instr>, at: Cursor, instr: Instr, from: Names)
    requires
        fresh(made(code), from, at.names),
        from.at_most(at.names),
        made_of(instr).len() == 0,
    ensures
        fresh(
            made(code + seq![Instr::Declare(at.temporary()), instr]),
            from,
            at.with_temporary().names,
        ),
{
    let t = at.temporary();
    lemma_made_concat(code, seq![Instr::Declare(t), instr]);
    lemma_made_two(Instr::Declare(t), instr);
    assert(made_of(Instr::Declare(t)) + made_of(instr) =~= seq![
        Made::Temporary(at.names.temp + 1),
    ]);
    lemma_fresh_push(
        made(code),
        Made::Temporary(at.names.temp + 1),
        from,
        at.names,
        at.with_temporary().names,
    );
}

proof fn lemma_term_fresh(tokens: Seq<TokenView>, at: Cursor)
    ensures
        fresh_expression(term(tokens, at), at.names),
    decreases tokens.len() - at.index, 0int,
{
    assert(made(Seq::<Instr>::empty()) =~= Seq::<Made>::empty());
    match peek_at(tokens, at.index) {
        Some(TokenView::Ident(name)) => match peek_at(tokens, at.index + 1) {
            Some(TokenView::LeftParen) => {
                let read = if peek_at(tokens, at.index + 2) == Some(TokenView::RightParen) {
                    Ok(((Seq::<Instr>::empty(), Seq::<Operand>::empty()), at.step(3)))
                } else {
                    lemma_arguments_fresh(
                        tokens,
                        at.step(2),
                        Seq::empty(),
                        Seq::empty(),
                        at.names,
                    );
                    lemma_arguments_moves(
                        tokens,
                        at.step(2),
                        Seq::empty(),
                        Seq::empty(),
                    );
                    arguments(tokens, at.step(2), Seq::empty(), Seq::empty())
                };
                if let Ok(((code, args), after)) = read {
                    let t = after.temporary();
                    lemma_declare_fresh(
                        code,
                        after,
                        Instr::Call { dst: t, function: name, args },
                        at.names,
                    );
                }
            },
            Some(TokenView::LeftBracket) => {
                lemma_expression_fresh(tokens, at.step(2));
                lemma_expression_moves(tokens, at.step(2));
                if let Ok((index, after)) = expression(tokens, at.step(2)) {
                    let t = after.temporary();
                    lemma_declare_fresh(
                        index.code,
                        after,
                        Instr::Load { dst: t, base: Operand::Variable(name), index: index.name },
                        at.names,
                    );
                }
            },
            _ => {},
        },
        Some(TokenView::LeftParen) => {
            lemma_expression_fresh(tokens, at.step(1));
        },
        _ => {},
    }
}

proof fn lemma_arguments_fresh(
    tokens: Seq<TokenView>,
    at: Cursor,
    code: Seq<Instr>,
    names: Seq<Operand>,
    from: Names,
)
    requires
        fresh(made(code), from, at.names),
        from.at_most(at.names),
    ensures
        match arguments(tokens, at, code, names) {
            Ok(((all, _), to)) => fresh(made(all), from, to.names),
            Err(_) => true,
        },
    decreases tokens.len() - at.index, 3int,
{
    lemma_expression_fresh(tokens, at);
    lemma_expression_moves(tokens, at);
    match forward(expression(tokens, at), at, tokens.len()) {
        Ok((argument, after)) => {
            lemma_made_concat(code, argument.code);
            lemma_fresh_concat(
                made(code),
                made(argument.code),
                from,
                at.names,
                at.names,
                after.names,
            );
            if peek_at(tokens, after.index) == Some(TokenView::Comma) {
                lemma_arguments_fresh(
                    tokens,
                    after.step(1),
                    code + argument.code,
                    names.push(argument.name),
                    from,
                );
            }
        },
        Err(_) => {},
    }
}

proof fn lemma_multiplicative_fresh(tokens: Seq<TokenView>, at: Cursor)
    ensures
        fresh_expression(multiplicative(tokens, at), at.names),
    decreases tokens.len() - at.index, 1int,
{
    lemma_term_fresh(tokens, at);
    lemma_term_moves(tokens, at);
    match forward(term(tokens, at), at, tokens.len()) {
        Ok((left, after)) => {
            lemma_multiplicative_tail_fresh(tokens, after, left, at.names);
        },
        Err(_) => {},
    }
}

proof fn lemma_multiplicative_tail_fresh(
    tokens: Seq<TokenView>,
    at: Cursor,
    left: ExprView,
    from: Names,
)
    requires
        fresh(made(left.code), from, at.names),
        from.at_most(at.names),
    ensures
        fresh_expression(multiplicative_tail(tokens, at, left), from),
    decreases tokens.len() - at.index, 0int,
{
    match peek_at(tokens, at.index) {
        Some(token) => match multiplying(token) {
            Some(op) => {
                lemma_term_fresh(tokens, at.step(1));
                lemma_term_moves(tokens, at.step(1));
                match forward(term(tokens, at.step(1)), at, tokens.len()) {
                    Ok((right, after)) => {
                        let (product, behind) = binary(op, left, right, after);
                        lemma_binary_fresh(op, left, right, after, from, at.names);
                        lemma_multiplicative_tail_fresh(tokens, behind, product, from);
                    },
                    Err(_) => {},
                }
            },
            None => {},
        },
        None => {},
    }
}

proof fn lemma_expression_fresh(tokens: Seq<TokenView>, at: Cursor)
    ensures
        fresh_expression(expression(tokens, at), at.names),
    decreases tokens.len() - at.index, 2int,
{
    lemma_multiplicative_fresh(tokens, at);
    lemma_multiplicative_moves(tokens, at);
    match forward(multiplicative(tokens, at), at, tokens.len()) {
        Ok((left, after)) => {
            lemma_additive_tail_fresh(tokens, after, left, at.names);
        },
        Err(_) => {},
    }
}

proof fn lemma_additive_tail_fresh(
    tokens: Seq<TokenView>,
    at: Cursor,
    left: ExprView,
    from: Names,
)
    requires
        fresh(made(left.code), from, at.names),
        from.at_most(at.names),
    ensures
        fresh_expression(additive_tail(tokens, at, left), from),
    decreases tokens.len() - at.index, 0int,
{
    match peek_at(tokens, at.index) {
        Some(token) => match additive(token) {
            Some(op) => {
                lemma_multiplicative_fresh(tokens, at.step(1));
                lemma_multiplicative_moves(tokens, at.step(1));
                match forward(multiplicative(tokens, at.step(1)), at, tokens.len()) {
                    Ok((right, after)) => {
                        let (sum, behind) = binary(op, left, right, after);
                        lemma_binary_fresh(op, left, right, after, from, at.names);
                        lemma_additive_tail_fresh(tokens, behind, sum, from);
                    },
                    Err(_) => {},
                }
            },
            None => {},
        },
        None => {},
    }
}

proof fn lemma_comparison_fresh(tokens: Seq<TokenView>, at: Cursor)
    ensures
        fresh_expression(comparison(tokens, at), at.names),
{
    lemma_term_fresh(tokens, at);
    lemma_term_moves(tokens, at);
    if let Ok((left, after)) = term(tokens, at) {
        lemma_term_fresh(tokens, after.step(1));
        lemma_term_moves(tokens, after.step(1));
        if let Some(token) = peek_at(tokens, after.index) {
            if let Some(op) = relational(token) {
                if let Ok((right, behind)) = term(tokens, after.step(1)) {
                    lemma_binary_fresh(op, left, right, behind, at.names, after.names);
                }
            }
        }
    }
}

proof fn lemma_array_form_fresh(tokens: Seq<TokenView>, at: Cursor)
    ensures
        fresh_expression(array_form(tokens, at), at.names),
{
    lemma_expression_fresh(tokens, at);
    lemma_expression_fresh(tokens, at.step(1));
}

proof fn lemma_declaration_fresh(tokens: Seq<TokenView>, at: Cursor)
    ensures
        fresh_code(declaration(tokens, at), at.names),
{
    reveal(declaration);
    lemma_expression_moves(tokens, at.step(1));
    if let Ok((code, _)) = declaration(tokens, at) {
        lemma_made_one(code[0]);
        assert(code =~= seq![code[0]]);
    }
}

proof fn lemma_assignment_fresh(tokens: Seq<TokenView>, at: Cursor, name: Seq<char>)
    ensures
        fresh_code(assignment(tokens, at, name), at.names),
{
    reveal(assignment);
    lemma_expression_fresh(tokens, at.step(1));
    lemma_expression_moves(tokens, at.step(1));
    assert(made(Seq::<Instr>::empty()) =~= Seq::<Made>::empty());
    match peek_at(tokens, at.index) {
        Some(TokenView::Assign) => {
            if let Ok((value, _)) = expression(tokens, at.step(1)) {
                lemma_made_append(
                    value.code,
                    Instr::Move { dst: Operand::Variable(name), src: value.name },
                );
            }
        },
        Some(TokenView::LeftBracket) => {
            if let Ok((index, after)) = expression(tokens, at.step(1)) {
                lemma_expression_fresh(tokens, after.step(2));
                lemma_expression_moves(tokens, after.step(2));
                if let Ok((value, behind)) = expression(tokens, after.step(2)) {
                    lemma_made_concat(index.code, value.code);
                    lemma_fresh_concat(
                        made(index.code),
                        made(value.code),
                        at.names,
                        after.names,
                        after.names,
                        behind.names,
                    );
                    lemma_made_append(
                        index.code + value.code,
                        Instr::Store { array: name, index: index.name, src: value.name },
                    );
                }
            }
        },
        Some(token) => {
            if let Some(op) = relational(token) {
                if let Ok((right, after)) = expression(tokens, at.step(1)) {
                    let left = plain(Operand::Variable(name));
                    lemma_binary_fresh(op, left, right, after, at.names, at.names);
                    let truth = binary(op, left, right, after).0;
                    lemma_made_append(truth.code, Instr::Discard(truth.name));
                }
            }
        },
        None => {},
    }
}

proof fn lemma_returning_fresh(tokens: Seq<TokenView>, at: Cursor)
    ensures
        fresh_code(returning(tokens, at), at.names),
{
    reveal(returning);
    lemma_expression_fresh(tokens, at);
    if let Ok((value, _)) = expression(tokens, at) {
        lemma_made_append(value.code, Instr::Return(value.name));
    }
}

proof fn lemma_printing_fresh(tokens: Seq<TokenView>, at: Cursor)
    ensures
        fresh_code(printing(tokens, at), at.names),
{
    reveal(printing);
    lemma_term_fresh(tokens, at.step(1));
    lemma_term_moves(tokens, at.step(1));
    if let Ok((value, after)) = term(tokens, at.step(1)) {
        lemma_made_append(value.code, Instr::Output(value.name));
        lemma_array_form_fresh(tokens, after);
        lemma_array_form_moves(tokens, after);
        if let Ok((index, behind)) = array_form(tokens, after) {
            let t = behind.temporary();
            let load = Instr::Load { dst: t, base: value.name, index: index.name };
            let both = value.code + index.code;
            lemma_made_concat(value.code, index.code);
            lemma_fresh_concat(
                made(value.code),
                made(index.code),
                at.names,
                after.names,
                after.names,
                behind.names,
            );
            lemma_declare_fresh(both, behind, load, at.names);
            lemma_made_append(both + seq![Instr::Declare(t), load], Instr::Output(t));
            assert(both + seq![Instr::Declare(t), load] + seq![Instr::Output(t)] =~= both + seq![
                Instr::Declare(t),
                load,
                Instr::Output(t),
            ]);
        }
    }
}

proof fn lemma_reading_fresh(tokens: Seq<TokenView>, at: Cursor)
    ensures
        fresh_code(reading(tokens, at), at.names),
{
    reveal(reading);
    lemma_expression_fresh(tokens, at.step(1));
    if let Ok((value, _)) = expression(tokens, at.step(1)) {
        lemma_made_append(value.code, Instr::Input(value.name));
    }
}

/// The names of a loop: its first label, those of its condition and its
/// body, and its second label.
proof fn lemma_loop_made(begin: Label, end: Label, condition: ExprView, body: Seq<Instr>)
    ensures
        made(loop_code(begin, end, condition, body)) == seq![Made::Label(begin)] + made(
            condition.code,
        ) + made(body) + seq![Made::Label(end)],
{
    let branch = Instr::BranchIfNot { cond: condition.name, target: end };
    let head = seq![Instr::Mark(begin)] + condition.code + seq![branch];
    let tail = seq![Instr::Jump(begin), Instr::Mark(end)];
    lemma_made_one(Instr::Mark(begin));
    lemma_made_one(branch);
    lemma_made_two(Instr::Jump(begin), Instr::Mark(end));
    lemma_made_concat(seq![Instr::Mark(begin)], condition.code);
    lemma_made_concat(seq![Instr::Mark(begin)] + condition.code, seq![branch]);
    lemma_made_concat(head, body);
    lemma_made_concat(head + body, tail);
    assert(made(loop_code(begin, end, condition, body)) =~= seq![Made::Label(begin)] + made(
        condition.code,
    ) + made(body) + seq![Made::Label(end)]);
}

/// The names of a conditional: those of its condition and its second
/// branch, its first label, those of its first branch, and its second
/// label.
proof fn lemma_conditional_made(
    yes: Label,
    end: Label,
    condition: ExprView,
    first: Seq<Instr>,
    second: Seq<Instr>,
)
    ensures
        made(conditional_code(yes, end, condition, first, second)) == made(condition.code)
            + made(second) + seq![Made::Label(yes)] + made(first) + seq![Made::Label(end)],
{
    let branch = Instr::BranchIf { cond: condition.name, target: yes };
    let head = condition.code + seq![branch];
    let middle = seq![Instr::Jump(end), Instr::Mark(yes)];
    lemma_made_one(branch);
    lemma_made_one(Instr::Mark(end));
    lemma_made_two(Instr::Jump(end), Instr::Mark(yes));
    lemma_made_concat(condition.code, seq![branch]);
    lemma_made_concat(head, second);
    lemma_made_concat(head + second, middle);
    lemma_made_concat(head + second + middle, first);
    lemma_made_concat(head + second + middle + first, seq![Instr::Mark(end)]);
    assert(made(conditional_code(yes, end, condition, first, second)) =~= made(condition.code)
        + made(second) + seq![Made::Label(yes)] + made(first) + seq![Made::Label(end)]);
}

proof fn lemma_looping_fresh(tokens: Seq<TokenView>, at: Cursor)
    ensures
        fresh_code(looping(tokens, at), at.names),
    decreases tokens.len() - at.index, 0int,
{
    let start = loop_labels(at);
    let begin = Label::LoopBegin(start.names.loop_begin);
    let end = Label::LoopEnd(start.names.loop_end);
    lemma_comparison_moves(tokens, start);
    lemma_comparison_fresh(tokens, start);
    if let Ok((condition, after)) = forward(comparison(tokens, start), at, tokens.len()) {
        if peek_at(tokens, after.index) == Some(TokenView::LeftCurly) {
            lemma_block_fresh(tokens, after.step(1));
            lemma_block_moves(tokens, after.step(1));
            if let Ok((body, behind)) = block(tokens, after.step(1)) {
                lemma_loop_made(begin, end, condition, body);
                let a = seq![Made::Label(begin)];
                let b = made(condition.code);
                let c = made(body);
                let d = seq![Made::Label(end)];
                assert(made_within(a, at.names, start.names));
                assert(made_within(d, at.names, start.names));
                lemma_apart_by_span(a, at.names, start.names, b, start.names, after.names);
                lemma_apart_by_span(a, at.names, start.names, c, after.names, behind.names);
                lemma_apart_by_span(b, start.names, after.names, c, after.names, behind.names);
                lemma_apart_by_span(b, start.names, after.names, d, at.names, start.names);
                lemma_apart_by_span(c, after.names, behind.names, d, at.names, start.names);
                assert(apart(a, d));
                lemma_distinct_four(a, b, c, d);
                lemma_made_within_wider(a, at.names, start.names, at.names, behind.names);
                lemma_made_within_wider(b, start.names, after.names, at.names, behind.names);
                lemma_made_within_wider(c, after.names, behind.names, at.names, behind.names);
                lemma_made_within_wider(d, at.names, start.names, at.names, behind.names);
                lemma_made_within_concat(a, b, at.names, behind.names);
                lemma_made_within_concat(a + b, c, at.names, behind.names);
                lemma_made_within_concat(a + b + c, d, at.names, behind.names);
            }
        }
    }
}

proof fn lemma_alternative_fresh(tokens: Seq<TokenView>, at: Cursor)
    ensures
        fresh_code(alternative(tokens, at), at.names),
    decreases tokens.len() - at.index, 0int,
{
    if peek_at(tokens, at.index) == Some(TokenView::Else) && peek_at(tokens, at.index + 1) == Some(
        TokenView::LeftCurly,
    ) {
        lemma_block_fresh(tokens, at.step(2));
    }
    assert(made(Seq::<Instr>::empty()) =~= Seq::<Made>::empty());
}

proof fn lemma_branching_fresh(tokens: Seq<TokenView>, at: Cursor)
    ensures
        fresh_code(branching(tokens, at), at.names),
    decreases tokens.len() - at.index, 0int,
{
    let start = conditional_labels(at);
    let yes = Label::IfTrue(start.names.if_true);
    let end = Label::EndIf(start.names.end_if);
    lemma_comparison_moves(tokens, start);
    lemma_comparison_fresh(tokens, start);
    if let Ok((condition, after)) = forward(comparison(tokens, start), at, tokens.len()) {
        if peek_at(tokens, after.index) == Some(TokenView::LeftCurly) {
            lemma_block_fresh(tokens, after.step(1));
            lemma_block_moves(tokens, after.step(1));
            let inner = forward(block(tokens, after.step(1)), after, tokens.len());
            if let Ok((first, middle)) = inner {
                lemma_alternative_fresh(tokens, middle);
                lemma_alternative_moves(tokens, middle);
                if let Ok((second, behind)) = alternative(tokens, middle) {
                    lemma_conditional_made(yes, end, condition, first, second);
                    let c = made(condition.code);
                    let s = made(second);
                    let y = seq![Made::Label(yes)];
                    let f = made(first);
                    let e = seq![Made::Label(end)];
                    assert(made_within(y, at.names, start.names));
                    assert(made_within(e, at.names, start.names));
                    // the condition and the second branch
                    lemma_fresh_concat(
                        c,
                        s,
                        start.names,
                        after.names,
                        middle.names,
                        behind.names,
                    );
                    let cs = c + s;
                    // the first branch lies between the two
                    lemma_apart_by_span(c, start.names, after.names, f, after.names, middle.names);
                    lemma_apart_by_span(
                        s,
                        middle.names,
                        behind.names,
                        f,
                        after.names,
                        middle.names,
                    );
                    lemma_apart_concat(c, s, f);
                    // the labels were made before all of them
                    lemma_apart_by_span(cs, start.names, behind.names, y, at.names, start.names);
                    lemma_apart_by_span(cs, start.names, behind.names, e, at.names, start.names);
                    lemma_apart_by_span(y, at.names, start.names, f, after.names, middle.names);
                    lemma_apart_by_span(f, after.names, middle.names, e, at.names, start.names);
                    assert(apart(y, e));
                    lemma_distinct_four(cs, y, f, e);
                    lemma_made_within_wider(cs, start.names, behind.names, at.names, behind.names);
                    lemma_made_within_wider(y, at.names, start.names, at.names, behind.names);
                    lemma_made_within_wider(f, after.names, middle.names, at.names, behind.names);
                    lemma_made_within_wider(e, at.names, start.names, at.names, behind.names);
                    lemma_made_within_concat(cs, y, at.names, behind.names);
                    lemma_made_within_concat(cs + y, f, at.names, behind.names);
                    lemma_made_within_concat(cs + y + f, e, at.names, behind.names);
                }
            }
        }
    }
}

proof fn lemma_statement_fresh(tokens: Seq<TokenView>, at: Cursor)
    ensures
        fresh_optional_code(statement(tokens, at), at.names),
    decreases tokens.len() - at.index, 1int,
{
    match peek_at(tokens, at.index) {
        Some(TokenView::Int) => {
            lemma_declaration_fresh(tokens, at.step(1));
        },
        Some(TokenView::Ident(name)) => {
            lemma_assignment_fresh(tokens, at.step(1), name);
        },
        Some(TokenView::Return) => {
            lemma_returning_fresh(tokens, at.step(1));
        },
        Some(TokenView::Print) => {
            lemma_printing_fresh(tokens, at.step(1));
        },
        Some(TokenView::Read) => {
            lemma_reading_fresh(tokens, at.step(1));
        },
        Some(TokenView::While) => {
            lemma_looping_fresh(tokens, at.step(1));
        },
        Some(TokenView::If) => {
            lemma_branching_fresh(tokens, at.step(1));
        },
        _ => {},
    }
}

proof fn lemma_block_fresh(tokens: Seq<TokenView>, at: Cursor)
    ensures
        fresh_code(block(tokens, at), at.names),
    decreases tokens.len() - at.index, 2int,
{
    match peek_at(tokens, at.index) {
        None => {},
        Some(TokenView::RightCurly) => {
            assert(made(Seq::<Instr>::empty()) =~= Seq::<Made>::empty());
        },
        Some(_) => {
            lemma_statement_fresh(tokens, at);
            lemma_statement_moves(tokens, at);
            if let Ok((first, after)) = forward(statement(tokens, at), at, tokens.len()) {
                lemma_block_fresh(tokens, after);
                lemma_block_moves(tokens, after);
                if let Ok((rest, behind)) = block(tokens, after) {
                    let code = first->0;
                    lemma_made_concat(code, rest);
                    lemma_fresh_concat(
                        made(code),
                        made(rest),
                        at.names,
                        after.names,
                        after.names,
                        behind.names,
                    );
                }
            }
        },
    }
}

proof fn lemma_function_fresh(tokens: Seq<TokenView>, at: Cursor)
    ensures
        fresh_optional_code(function(tokens, at), at.names),
{
    if let Ok((params, index)) = parameters(tokens, at.index + 3) {
        let inside = Cursor { index: index + 1, names: at.names };
        lemma_block_fresh(tokens, inside);
        if let Ok((body, behind)) = block(tokens, inside) {
            if let Some(TokenView::Ident(name)) = peek_at(tokens, at.index + 1) {
                let head = Instr::Func { name, params };
                lemma_made_one(head);
                lemma_made_concat(seq![head], body);
                lemma_made_append(seq![head] + body, Instr::EndFunc);
                assert(made(seq![head] + body + seq![Instr::EndFunc]) =~= made(body));
            }
        }
    }
}

/// The names that a program makes are fresh: pairwise distinct, and taken
/// from the counters while the program was read.
pub proof fn lemma_program_fresh(tokens: Seq<TokenView>, at: Cursor)
    ensures
        fresh_code(program(tokens, at), at.names),
    decreases tokens.len() - at.index,
{
    lemma_function_fresh(tokens, at);
    lemma_function_moves(tokens, at);
    match function(tokens, at) {
        Ok((Some(first), after)) => {
            lemma_program_fresh(tokens, after);
            lemma_program_moves(tokens, after);
            if let Ok((rest, behind)) = program(tokens, after) {
                lemma_made_concat(first, rest);
                lemma_fresh_concat(
                    made(first),
                    made(rest),
                    at.names,
                    after.names,
                    after.names,
                    behind.names,
                );
            }
        },
        Ok((None, _)) => {
            assert(made(Seq::<Instr>::empty()) =~= Seq::<Made>::empty());
        },
        Err(_) => {},
    }
}

/// Two instructions of a piece of code that both make a name make names
/// that stand at different places among the names of the code.
proof fn lemma_made_by_two_instructions(code: Seq<Instr>, i: int, j: int)
    requires
        0 <= i < j < code.len(),
        made_of(code[i]).len() == 1,
        made_of(code[j]).len() == 1,
    ensures
        ({
            let before = made(code.take(i)).len() as int;
            let between = made(code.subrange(i + 1, j)).len() as int;
            &&& before + between + 1 < made(code).len()
            &&& made(code)[before] == made_of(code[i])[0]
            &&& made(code)[before + between + 1] == made_of(code[j])[0]
        }),
{
    let a = code.take(i);
    let b = code.subrange(i + 1, j);
    let c = code.skip(j + 1);
    assert(code =~= a + seq![code[i]] + b + seq![code[j]] + c);
    lemma_made_one(code[i]);
    lemma_made_one(code[j]);
    lemma_made_concat(a, seq![code[i]]);
    lemma_made_concat(a + seq![code[i]], b);
    lemma_made_concat(a + seq![code[i]] + b, seq![code[j]]);
    lemma_made_concat(a + seq![code[i]] + b + seq![code[j]], c);
}

/// No program defines a label twice: of the instructions that a program
/// translates to, no two define the same label.
pub proof fn lemma_labels_are_unique(tokens: Seq<TokenView>, at: Cursor, i: int, j: int)
    requires
        program(tokens, at) is Ok,
        0 <= i < j < program(tokens, at)->Ok_0.0.len(),
        program(tokens, at)->Ok_0.0[i] is Mark,
        program(tokens, at)->Ok_0.0[j] is Mark,
    ensures
        program(tokens, at)->Ok_0.0[i] != program(tokens, at)->Ok_0.0[j],
{
    let code = program(tokens, at)->Ok_0.0;
    lemma_program_fresh(tokens, at);
    lemma_made_by_two_instructions(code, i, j);
}

/// No program declares a temporary twice: of the instructions that a
/// program translates to, no two declare the same temporary.
pub proof fn lemma_temporaries_are_declared_once(
    tokens: Seq<TokenView>,
    at: Cursor,
    i: int,
    j: int,
    n: nat,
)
    requires
        program(tokens, at) is Ok,
        0 <= i < j < program(tokens, at)->Ok_0.0.len(),
        program(tokens, at)->Ok_0.0[i] == Instr::Declare(Operand::Temporary(n)),
    ensures
        program(tokens, at)->Ok_0.0[j] != Instr::Declare(Operand::Temporary(n)),
{
    let code = program(tokens, at)->Ok_0.0;
    lemma_program_fresh(tokens, at);
    if code[j] == Instr::Declare(Operand::Temporary(n)) {
        lemma_made_by_two_instructions(code, i, j);
    }
}

/// The label that an instruction defines, if it defines one.
pub open spec fn mark_of(instr: Instr) -> Seq<Label> {
    match instr {
        Instr::Mark(label) => seq![label],
        _ => Seq::empty(),
    }
}

/// The labels that a piece of code defines, in order.
pub open spec fn marks(code: Seq<Instr>) -> Seq<Label>
    decreases code.len(),
{
    if code.len() == 0 {
        Seq::empty()
    } else {
        marks(code.drop_last()) + mark_of(code.last())
    }
}

/// The labels among some names, in order.
pub open spec fn labels_among(names: Seq<Made>) -> Seq<Label>
    decreases names.len(),
{
    if names.len() == 0 {
        Seq::empty()
    } else {
        labels_among(names.drop_last()) + match names.last() {
            Made::Label(label) => seq![label],
            _ => Seq::empty(),
        }
    }
}

/// Every label among some names is one of the names.
proof fn lemma_labels_among(names: Seq<Made>, k: int)
    requires
        0 <= k < labels_among(names).len(),
    ensures
        exists|i: int|
            0 <= i < names.len() && names[i] == Made::Label(labels_among(names)[k])
                && labels_among(names.take(i)).len() == k,
    decreases names.len(),
{
    let front = names.drop_last();
    let n = labels_among(front).len() as int;
    if k < n {
        lemma_labels_among(front, k);
        let i = choose|i: int|
            0 <= i < front.len() && front[i] == Made::Label(labels_among(front)[k])
                && labels_among(front.take(i)).len() == k;
        assert(names[i] == front[i]);
        assert(names.take(i) =~= front.take(i));
    } else {
        assert(names.take(names.len() - 1) =~= front);
    }
}

/// Where no name occurs twice, no label does.
proof fn lemma_labels_among_distinct(names: Seq<Made>)
    requires
        names.no_duplicates(),
    ensures
        labels_among(names).no_duplicates(),
    decreases names.len(),
{
    if names.len() > 0 {
        let front = names.drop_last();
        lemma_labels_among_distinct(front);
        let labels = labels_among(names);
        let before = labels_among(front);
        assert forall|p: int, q: int|
            0 <= p < labels.len() && 0 <= q < labels.len() && p != q implies labels[p]
            != labels[q] by {
            if p < before.len() && q < before.len() {
                assert(before[p] != before[q]);
            } else {
                let low = if p < q {
                    p
                } else {
                    q
                };
                lemma_labels_among(front, low);
                let i = choose|i: int|
                    0 <= i < front.len() && front[i] == Made::Label(before[low])
                        && labels_among(front.take(i)).len() == low;
                assert(names[i] == front[i]);
                assert(names[names.len() - 1] == names.last());
            }
        }
    }
}

/// The labels that a piece of code defines are the labels among the names
/// that it makes.
proof fn lemma_marks_are_made(code: Seq<Instr>)
    ensures
        marks(code) == labels_among(made(code)),
    decreases code.len(),
{
    if code.len() > 0 {
        let front = code.drop_last();
        lemma_marks_are_made(front);
        let names = made(front);
        match code.last() {
            Instr::Mark(label) => {
                let all = names + seq![Made::Label(label)];
                assert(all.drop_last() =~= names);
            },
            Instr::Declare(Operand::Temporary(n)) => {
                let all = names + seq![Made::Temporary(n)];
                assert(all.drop_last() =~= names);
                assert(labels_among(all) =~= labels_among(names));
            },
            _ => {
                assert(names + Seq::<Made>::empty() =~= names);
            },
        }
    } else {
        assert(labels_among(Seq::<Made>::empty()) =~= Seq::<Label>::empty());
    }
}

/// The labels that a program defines, in order, are pairwise distinct.
pub proof fn lemma_marks_are_distinct(tokens: Seq<TokenView>, at: Cursor)
    requires
        program(tokens, at) is Ok,
    ensures
        marks(program(tokens, at)->Ok_0.0).no_duplicates(),
{
    let code = program(tokens, at)->Ok_0.0;
    lemma_program_fresh(tokens, at);
    lemma_marks_are_made(code);
    lemma_labels_among_distinct(made(code));
}

} // verus!
