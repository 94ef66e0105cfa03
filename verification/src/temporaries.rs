//! Temporaries are declared before they are used.
//!
//! An instruction mentions the operands that it reads and writes. One place
//! is apart from the others: the size of an array declaration. The
//! translation of a declaration is the declaration alone, without the code
//! that computes the size, so a temporary in this place is declared nowhere.
//! In every other place a temporary has been declared by an earlier
//! instruction, whatever the program.

use crate::grammar::{
    additive, additive_tail, alternative, arguments, array_form, assignment, binary, block,
    branching, comparison, conditional_code, conditional_labels, declaration, expression, forward,
    function, loop_code, loop_labels, looping, multiplicative, multiplicative_tail, multiplying,
    parameters, peek_at, plain, printing, program, reading, relational, returning, statement, term,
    Cursor,
};
use crate::ir::{ExprView, Instr, Label, Operand, Operator};
use crate::token::TokenView;
use vstd::prelude::*;

verus! {

/// The instruction declares an array and has `operand` as its size.
pub open spec fn mentions_as_size(instr: Instr, operand: Operand) -> bool {
    match instr {
        Instr::DeclareArray { name, size } => operand == size,
        _ => false,
    }
}

/// The instruction reads or writes `operand` otherwise than as the size of
/// an array. A declaration does not mention what it declares.
pub open spec fn mentions_otherwise(instr: Instr, operand: Operand) -> bool {
    match instr {
        Instr::Func { name, params } => false,
        Instr::EndFunc => false,
        Instr::Declare(target) => false,
        Instr::DeclareArray { name, size } => false,
        Instr::Move { dst, src } => operand == dst || operand == src,
        Instr::Discard(value) => operand == value,
        Instr::Store { array, index, src } => operand == index || operand == src,
        Instr::Load { dst, base, index } => operand == dst || operand == base || operand
            == index,
        Instr::Binary { op, dst, left, right } => operand == dst || operand == left || operand
            == right,
        Instr::Output(value) => operand == value,
        Instr::Input(target) => operand == target,
        Instr::Return(value) => operand == value,
        Instr::Call { dst, function, args } => operand == dst || args.contains(operand),
        Instr::Jump(label) => false,
        Instr::BranchIf { cond, target } => operand == cond,
        Instr::BranchIfNot { cond, target } => operand == cond,
        Instr::Mark(label) => false,
    }
}

/// The instruction reads or writes `operand`.
pub open spec fn mentions(instr: Instr, operand: Operand) -> bool {
    mentions_as_size(instr, operand) || mentions_otherwise(instr, operand)
}

/// One of the first `j` instructions of `code` declares the temporary `n`.
pub open spec fn declared_before(code: Seq<Instr>, j: int, n: nat) -> bool {
    exists|i: int|
        0 <= i < j && i < code.len() && #[trigger] code[i] == Instr::Declare(
            Operand::Temporary(n),
        )
}

/// The operand, if it is a temporary, is declared in `code`.
pub open spec fn declared_in(code: Seq<Instr>, operand: Operand) -> bool {
    match operand {
        Operand::Temporary(n) => declared_before(code, code.len() as int, n),
        _ => true,
    }
}

/// Every temporary that an instruction of `code` mentions, otherwise than
/// as the size of an array, is declared by an instruction before it.
pub open spec fn well_declared(code: Seq<Instr>) -> bool {
    forall|j: int, n: nat|
        0 <= j < code.len() && #[trigger] mentions_otherwise(code[j], Operand::Temporary(n))
            ==> declared_before(code, j, n)
}

/// The code of an expression is well declared and declares the operand that
/// holds the value.
pub open spec fn sound(value: ExprView) -> bool {
    well_declared(value.code) && declared_in(value.code, value.name)
}

/// A successfully read expression is sound.
pub open spec fn sound_result<T>(r: Result<(ExprView, T), Seq<char>>) -> bool {
    match r {
        Ok((value, _)) => sound(value),
        Err(_) => true,
    }
}

/// Successfully read code is well declared.
pub open spec fn well_declared_result<T>(r: Result<(Seq<Instr>, T), Seq<char>>) -> bool {
    match r {
        Ok((code, _)) => well_declared(code),
        Err(_) => true,
    }
}

/// As [`well_declared_result`], for code that may be absent.
pub open spec fn well_declared_optional<T>(r: Result<(Option<Seq<Instr>>, T), Seq<char>>) -> bool {
    match r {
        Ok((Some(code), _)) => well_declared(code),
        _ => true,
    }
}

proof fn lemma_declared_in_front(a: Seq<Instr>, b: Seq<Instr>, j: int, n: nat)
    requires
        declared_before(a, j, n),
    ensures
        declared_before(a + b, j, n),
{
    let i = choose|i: int|
        0 <= i < j && i < a.len() && #[trigger] a[i] == Instr::Declare(Operand::Temporary(n));
    assert((a + b)[i] == a[i]);
}

proof fn lemma_declared_behind(a: Seq<Instr>, b: Seq<Instr>, j: int, n: nat)
    requires
        declared_before(b, j, n),
    ensures
        declared_before(a + b, a.len() + j, n),
{
    let i = choose|i: int|
        0 <= i < j && i < b.len() && #[trigger] b[i] == Instr::Declare(Operand::Temporary(n));
    assert((a + b)[a.len() + i] == b[i]);
}

proof fn lemma_declared_later(code: Seq<Instr>, j: int, k: int, n: nat)
    requires
        declared_before(code, j, n),
        j <= k,
    ensures
        declared_before(code, k, n),
{
    let i = choose|i: int|
        0 <= i < j && i < code.len() && #[trigger] code[i] == Instr::Declare(
            Operand::Temporary(n),
        );
    assert(0 <= i < k && i < code.len() && code[i] == Instr::Declare(Operand::Temporary(n)));
}

/// What is declared in a piece of code is declared in any code that holds
/// the piece.
proof fn lemma_declared_in_whole(a: Seq<Instr>, b: Seq<Instr>, operand: Operand)
    ensures
        declared_in(a, operand) ==> declared_in(a + b, operand),
        declared_in(b, operand) ==> declared_in(a + b, operand),
{
    if let Operand::Temporary(n) = operand {
        if declared_in(a, operand) {
            lemma_declared_in_front(a, b, a.len() as int, n);
            lemma_declared_later(a + b, a.len() as int, (a + b).len() as int, n);
        }
        if declared_in(b, operand) {
            lemma_declared_behind(a, b, b.len() as int, n);
        }
    }
}

proof fn lemma_well_declared_concat(a: Seq<Instr>, b: Seq<Instr>)
    requires
        well_declared(a),
        well_declared(b),
    ensures
        well_declared(a + b),
{
    let all = a + b;
    assert forall|j: int, n: nat|
        0 <= j < all.len() && #[trigger] mentions_otherwise(
            all[j],
            Operand::Temporary(n),
        ) implies declared_before(all, j, n) by {
        if j < a.len() {
            assert(all[j] == a[j]);
            lemma_declared_in_front(a, b, j, n);
        } else {
            assert(all[j] == b[j - a.len()]);
            lemma_declared_behind(a, b, j - a.len(), n);
        }
    }
}

/// Well declared code stays so behind an instruction more, if the code
/// declares every temporary that the instruction mentions.
proof fn lemma_well_declared_append(code: Seq<Instr>, instr: Instr)
    requires
        well_declared(code),
        forall|n: nat| #[trigger]
            mentions_otherwise(instr, Operand::Temporary(n)) ==> declared_in(
                code,
                Operand::Temporary(n),
            ),
    ensures
        well_declared(code + seq![instr]),
{
    let all = code + seq![instr];
    assert forall|j: int, n: nat|
        0 <= j < all.len() && #[trigger] mentions_otherwise(
            all[j],
            Operand::Temporary(n),
        ) implies declared_before(all, j, n) by {
        if j < code.len() {
            assert(all[j] == code[j]);
            lemma_declared_in_front(code, seq![instr], j, n);
        } else {
            assert(all[j] == instr);
            assert(declared_in(code, Operand::Temporary(n)));
            lemma_declared_in_front(code, seq![instr], code.len() as int, n);
        }
    }
}

/// A declaration behind well declared code declares its temporary there and
/// keeps the code well declared.
proof fn lemma_declare(code: Seq<Instr>, target: Operand)
    requires
        well_declared(code),
    ensures
        well_declared(code + seq![Instr::Declare(target)]),
        declared_in(code + seq![Instr::Declare(target)], target),
        forall|operand: Operand|
            declared_in(code, operand) ==> #[trigger] declared_in(
                code + seq![Instr::Declare(target)],
                operand,
            ),
{
    let declare = Instr::Declare(target);
    let all = code + seq![declare];
    lemma_well_declared_append(code, declare);
    assert(all[code.len() as int] == declare);
    assert forall|operand: Operand| declared_in(code, operand) implies #[trigger] declared_in(
        all,
        operand,
    ) by {
        lemma_declared_in_whole(code, seq![declare], operand);
    }
}

/// The code of a binary operation on sound operands is sound.
proof fn lemma_binary_sound(op: Operator, left: ExprView, right: ExprView, at: Cursor)
    requires
        sound(left),
        sound(right),
    ensures
        sound(binary(op, left, right, at).0),
{
    let t = at.temporary();
    let both = left.code + right.code;
    let compute = Instr::Binary { op, dst: t, left: left.name, right: right.name };
    lemma_well_declared_concat(left.code, right.code);
    lemma_declared_in_whole(left.code, right.code, left.name);
    lemma_declared_in_whole(left.code, right.code, right.name);
    lemma_declare(both, t);
    let declared = both + seq![Instr::Declare(t)];
    assert(declared_in(declared, left.name));
    assert(declared_in(declared, right.name));
    lemma_well_declared_append(declared, compute);
    lemma_declared_in_whole(declared, seq![compute], t);
    assert(declared + seq![compute] =~= both + seq![Instr::Declare(t), compute]);
}

/// A declaration and an instruction that mentions the declared temporary
/// and operands declared in the code, behind well declared code.
proof fn lemma_declare_and_use(code: Seq<Instr>, target: Operand, instr: Instr)
    requires
        well_declared(code),
        forall|n: nat| #[trigger]
            mentions_otherwise(instr, Operand::Temporary(n)) ==> Operand::Temporary(n) == target
                || declared_in(code, Operand::Temporary(n)),
    ensures
        well_declared(code + seq![Instr::Declare(target), instr]),
        declared_in(code + seq![Instr::Declare(target), instr], target),
{
    lemma_declare(code, target);
    let declared = code + seq![Instr::Declare(target)];
    assert forall|n: nat| #[trigger]
        mentions_otherwise(instr, Operand::Temporary(n)) implies declared_in(
        declared,
        Operand::Temporary(n),
    ) by {
        if Operand::Temporary(n) != target {
            assert(declared_in(code, Operand::Temporary(n)));
        }
    }
    lemma_well_declared_append(declared, instr);
    lemma_declared_in_whole(declared, seq![instr], target);
    assert(declared + seq![instr] =~= code + seq![Instr::Declare(target), instr]);
}

/// An instruction that mentions operands declared in the code, behind well
/// declared code.
proof fn lemma_use(code: Seq<Instr>, instr: Instr)
    requires
        well_declared(code),
        forall|n: nat| #[trigger]
            mentions_otherwise(instr, Operand::Temporary(n)) ==> declared_in(
                code,
                Operand::Temporary(n),
            ),
    ensures
        well_declared(code + seq![instr]),
{
    lemma_well_declared_append(code, instr);
}

proof fn lemma_term_sound(tokens: Seq<TokenView>, at: Cursor)
    ensures
        sound_result(term(tokens, at)),
    decreases tokens.len() - at.index, 0int,
{
    match peek_at(tokens, at.index) {
        Some(TokenView::Ident(name)) => match peek_at(tokens, at.index + 1) {
            Some(TokenView::LeftParen) => {
                let read = if peek_at(tokens, at.index + 2) == Some(TokenView::RightParen) {
                    Ok(((Seq::<Instr>::empty(), Seq::<Operand>::empty()), at.step(3)))
                } else {
                    lemma_arguments_sound(tokens, at.step(2), Seq::empty(), Seq::empty());
                    arguments(tokens, at.step(2), Seq::empty(), Seq::empty())
                };
                if let Ok(((code, args), after)) = read {
                    let t = after.temporary();
                    let invoke = Instr::Call { dst: t, function: name, args };
                    assert forall|n: nat| #[trigger]
                        mentions_otherwise(
                            invoke,
                            Operand::Temporary(n),
                        ) implies Operand::Temporary(n) == t || declared_in(
                        code,
                        Operand::Temporary(n),
                    ) by {
                        if Operand::Temporary(n) != t {
                            let k = choose|k: int|
                                0 <= k < args.len() && args[k] == Operand::Temporary(n);
                            assert(declared_in(code, args[k]));
                        }
                    }
                    lemma_declare_and_use(code, t, invoke);
                }
            },
            Some(TokenView::LeftBracket) => {
                lemma_expression_sound(tokens, at.step(2));
                if let Ok((index, after)) = expression(tokens, at.step(2)) {
                    let t = after.temporary();
                    lemma_declare_and_use(
                        index.code,
                        t,
                        Instr::Load { dst: t, base: Operand::Variable(name), index: index.name },
                    );
                }
            },
            _ => {},
        },
        Some(TokenView::LeftParen) => {
            lemma_expression_sound(tokens, at.step(1));
        },
        _ => {},
    }
}

/// The operands of a call are all declared in the code of its arguments.
pub open spec fn all_declared_in(code: Seq<Instr>, names: Seq<Operand>) -> bool {
    forall|k: int| 0 <= k < names.len() ==> declared_in(code, #[trigger] names[k])
}

proof fn lemma_arguments_sound(
    tokens: Seq<TokenView>,
    at: Cursor,
    code: Seq<Instr>,
    names: Seq<Operand>,
)
    requires
        well_declared(code),
        all_declared_in(code, names),
    ensures
        match arguments(tokens, at, code, names) {
            Ok(((all, operands), _)) => well_declared(all) && all_declared_in(all, operands),
            Err(_) => true,
        },
    decreases tokens.len() - at.index, 3int,
{
    lemma_expression_sound(tokens, at);
    match forward(expression(tokens, at), at, tokens.len()) {
        Ok((argument, after)) => {
            let more = code + argument.code;
            let operands = names.push(argument.name);
            lemma_well_declared_concat(code, argument.code);
            assert forall|k: int| 0 <= k < operands.len() implies declared_in(
                more,
                #[trigger] operands[k],
            ) by {
                if k < names.len() {
                    assert(declared_in(code, names[k]));
                }
                lemma_declared_in_whole(code, argument.code, operands[k]);
            }
            if peek_at(tokens, after.index) == Some(TokenView::Comma) {
                lemma_arguments_sound(tokens, after.step(1), more, operands);
            }
        },
        Err(_) => {},
    }
}

proof fn lemma_multiplicative_sound(tokens: Seq<TokenView>, at: Cursor)
    ensures
        sound_result(multiplicative(tokens, at)),
    decreases tokens.len() - at.index, 1int,
{
    lemma_term_sound(tokens, at);
    match forward(term(tokens, at), at, tokens.len()) {
        Ok((left, after)) => {
            lemma_multiplicative_tail_sound(tokens, after, left);
        },
        Err(_) => {},
    }
}

proof fn lemma_multiplicative_tail_sound(tokens: Seq<TokenView>, at: Cursor, left: ExprView)
    requires
        sound(left),
    ensures
        sound_result(multiplicative_tail(tokens, at, left)),
    decreases tokens.len() - at.index, 0int,
{
    match peek_at(tokens, at.index) {
        Some(token) => match multiplying(token) {
            Some(op) => {
                lemma_term_sound(tokens, at.step(1));
                match forward(term(tokens, at.step(1)), at, tokens.len()) {
                    Ok((right, after)) => {
                        let (product, behind) = binary(op, left, right, after);
                        lemma_binary_sound(op, left, right, after);
                        lemma_multiplicative_tail_sound(tokens, behind, product);
                    },
                    Err(_) => {},
                }
            },
            None => {},
        },
        None => {},
    }
}

proof fn lemma_expression_sound(tokens: Seq<TokenView>, at: Cursor)
    ensures
        sound_result(expression(tokens, at)),
    decreases tokens.len() - at.index, 2int,
{
    lemma_multiplicative_sound(tokens, at);
    match forward(multiplicative(tokens, at), at, tokens.len()) {
        Ok((left, after)) => {
            lemma_additive_tail_sound(tokens, after, left);
        },
        Err(_) => {},
    }
}

proof fn lemma_additive_tail_sound(tokens: Seq<TokenView>, at: Cursor, left: ExprView)
    requires
        sound(left),
    ensures
        sound_result(additive_tail(tokens, at, left)),
    decreases tokens.len() - at.index, 0int,
{
    match peek_at(tokens, at.index) {
        Some(token) => match additive(token) {
            Some(op) => {
                lemma_multiplicative_sound(tokens, at.step(1));
                match forward(multiplicative(tokens, at.step(1)), at, tokens.len()) {
                    Ok((right, after)) => {
                        let (sum, behind) = binary(op, left, right, after);
                        lemma_binary_sound(op, left, right, after);
                        lemma_additive_tail_sound(tokens, behind, sum);
                    },
                    Err(_) => {},
                }
            },
            None => {},
        },
        None => {},
    }
}

proof fn lemma_comparison_sound(tokens: Seq<TokenView>, at: Cursor)
    ensures
        sound_result(comparison(tokens, at)),
{
    lemma_term_sound(tokens, at);
    if let Ok((left, after)) = term(tokens, at) {
        lemma_term_sound(tokens, after.step(1));
        if let Some(token) = peek_at(tokens, after.index) {
            if let Some(op) = relational(token) {
                if let Ok((right, behind)) = term(tokens, after.step(1)) {
                    lemma_binary_sound(op, left, right, behind);
                }
            }
        }
    }
}

proof fn lemma_declaration_well_declared(tokens: Seq<TokenView>, at: Cursor)
    ensures
        well_declared_result(declaration(tokens, at)),
{
    reveal(declaration);
}

proof fn lemma_assignment_well_declared(tokens: Seq<TokenView>, at: Cursor, name: Seq<char>)
    ensures
        well_declared_result(assignment(tokens, at, name)),
{
    reveal(assignment);
    lemma_expression_sound(tokens, at.step(1));
    match peek_at(tokens, at.index) {
        Some(TokenView::Assign) => {
            if let Ok((value, _)) = expression(tokens, at.step(1)) {
                lemma_use(
                    value.code,
                    Instr::Move { dst: Operand::Variable(name), src: value.name },
                );
            }
        },
        Some(TokenView::LeftBracket) => {
            if let Ok((index, after)) = expression(tokens, at.step(1)) {
                lemma_expression_sound(tokens, after.step(2));
                if let Ok((value, _)) = expression(tokens, after.step(2)) {
                    lemma_well_declared_concat(index.code, value.code);
                    lemma_declared_in_whole(index.code, value.code, index.name);
                    lemma_declared_in_whole(index.code, value.code, value.name);
                    lemma_use(
                        index.code + value.code,
                        Instr::Store { array: name, index: index.name, src: value.name },
                    );
                }
            }
        },
        Some(token) => {
            if let Some(op) = relational(token) {
                if let Ok((right, after)) = expression(tokens, at.step(1)) {
                    let left = plain(Operand::Variable(name));
                    lemma_binary_sound(op, left, right, after);
                    let truth = binary(op, left, right, after).0;
                    lemma_use(truth.code, Instr::Discard(truth.name));
                }
            }
        },
        None => {},
    }
}

proof fn lemma_returning_well_declared(tokens: Seq<TokenView>, at: Cursor)
    ensures
        well_declared_result(returning(tokens, at)),
{
    reveal(returning);
    lemma_expression_sound(tokens, at);
    if let Ok((value, _)) = expression(tokens, at) {
        lemma_use(value.code, Instr::Return(value.name));
    }
}

proof fn lemma_array_form_sound(tokens: Seq<TokenView>, at: Cursor)
    ensures
        sound_result(array_form(tokens, at)),
{
    lemma_expression_sound(tokens, at);
    lemma_expression_sound(tokens, at.step(1));
}

proof fn lemma_printing_well_declared(tokens: Seq<TokenView>, at: Cursor)
    ensures
        well_declared_result(printing(tokens, at)),
{
    reveal(printing);
    lemma_term_sound(tokens, at.step(1));
    if let Ok((value, after)) = term(tokens, at.step(1)) {
        lemma_use(value.code, Instr::Output(value.name));
        lemma_array_form_sound(tokens, after);
        if let Ok((index, behind)) = array_form(tokens, after) {
            let t = behind.temporary();
            let load = Instr::Load { dst: t, base: value.name, index: index.name };
            let both = value.code + index.code;
            lemma_well_declared_concat(value.code, index.code);
            lemma_declared_in_whole(value.code, index.code, value.name);
            lemma_declared_in_whole(value.code, index.code, index.name);
            lemma_declare_and_use(both, t, load);
            let loaded = both + seq![Instr::Declare(t), load];
            lemma_use(loaded, Instr::Output(t));
            assert(loaded + seq![Instr::Output(t)] =~= both + seq![
                Instr::Declare(t),
                load,
                Instr::Output(t),
            ]);
        }
    }
}

proof fn lemma_reading_well_declared(tokens: Seq<TokenView>, at: Cursor)
    ensures
        well_declared_result(reading(tokens, at)),
{
    reveal(reading);
    lemma_expression_sound(tokens, at.step(1));
    if let Ok((value, _)) = expression(tokens, at.step(1)) {
        lemma_use(value.code, Instr::Input(value.name));
    }
}

/// The code of a loop around a sound condition and a well declared body is
/// well declared.
proof fn lemma_loop_well_declared(
    begin: Label,
    end: Label,
    condition: ExprView,
    body: Seq<Instr>,
)
    requires
        sound(condition),
        well_declared(body),
    ensures
        well_declared(loop_code(begin, end, condition, body)),
{
    let mark = seq![Instr::Mark(begin)];
    let branch = Instr::BranchIfNot { cond: condition.name, target: end };
    assert(well_declared(mark));
    lemma_well_declared_concat(mark, condition.code);
    lemma_declared_in_whole(mark, condition.code, condition.name);
    lemma_use(mark + condition.code, branch);
    let head = mark + condition.code + seq![branch];
    lemma_well_declared_concat(head, body);
    lemma_use(head + body, Instr::Jump(begin));
    lemma_use(head + body + seq![Instr::Jump(begin)], Instr::Mark(end));
    assert(head + body + seq![Instr::Jump(begin)] + seq![Instr::Mark(end)] =~= loop_code(
        begin,
        end,
        condition,
        body,
    ));
}

/// The code of a conditional around a sound condition and well declared
/// branches is well declared.
proof fn lemma_conditional_well_declared(
    yes: Label,
    end: Label,
    condition: ExprView,
    first: Seq<Instr>,
    second: Seq<Instr>,
)
    requires
        sound(condition),
        well_declared(first),
        well_declared(second),
    ensures
        well_declared(conditional_code(yes, end, condition, first, second)),
{
    let branch = Instr::BranchIf { cond: condition.name, target: yes };
    lemma_use(condition.code, branch);
    let head = condition.code + seq![branch];
    lemma_well_declared_concat(head, second);
    lemma_use(head + second, Instr::Jump(end));
    lemma_use(head + second + seq![Instr::Jump(end)], Instr::Mark(yes));
    let middle = head + second + seq![Instr::Jump(end)] + seq![Instr::Mark(yes)];
    lemma_well_declared_concat(middle, first);
    lemma_use(middle + first, Instr::Mark(end));
    assert(middle + first + seq![Instr::Mark(end)] =~= conditional_code(
        yes,
        end,
        condition,
        first,
        second,
    ));
}

proof fn lemma_looping_well_declared(tokens: Seq<TokenView>, at: Cursor)
    ensures
        well_declared_result(looping(tokens, at)),
    decreases tokens.len() - at.index, 0int,
{
    let start = loop_labels(at);
    lemma_comparison_sound(tokens, start);
    if let Ok((condition, after)) = forward(comparison(tokens, start), at, tokens.len()) {
        if peek_at(tokens, after.index) == Some(TokenView::LeftCurly) {
            lemma_block_well_declared(tokens, after.step(1));
            if let Ok((body, _)) = block(tokens, after.step(1)) {
                lemma_loop_well_declared(
                    Label::LoopBegin(start.names.loop_begin),
                    Label::LoopEnd(start.names.loop_end),
                    condition,
                    body,
                );
            }
        }
    }
}

proof fn lemma_alternative_well_declared(tokens: Seq<TokenView>, at: Cursor)
    ensures
        well_declared_result(alternative(tokens, at)),
    decreases tokens.len() - at.index, 0int,
{
    if peek_at(tokens, at.index) == Some(TokenView::Else) && peek_at(tokens, at.index + 1) == Some(
        TokenView::LeftCurly,
    ) {
        lemma_block_well_declared(tokens, at.step(2));
    }
}

proof fn lemma_branching_well_declared(tokens: Seq<TokenView>, at: Cursor)
    ensures
        well_declared_result(branching(tokens, at)),
    decreases tokens.len() - at.index, 0int,
{
    let start = conditional_labels(at);
    lemma_comparison_sound(tokens, start);
    if let Ok((condition, after)) = forward(comparison(tokens, start), at, tokens.len()) {
        if peek_at(tokens, after.index) == Some(TokenView::LeftCurly) {
            lemma_block_well_declared(tokens, after.step(1));
            let inner = forward(block(tokens, after.step(1)), after, tokens.len());
            if let Ok((first, middle)) = inner {
                lemma_alternative_well_declared(tokens, middle);
                if let Ok((second, _)) = alternative(tokens, middle) {
                    lemma_conditional_well_declared(
                        Label::IfTrue(start.names.if_true),
                        Label::EndIf(start.names.end_if),
                        condition,
                        first,
                        second,
                    );
                }
            }
        }
    }
}

proof fn lemma_statement_well_declared(tokens: Seq<TokenView>, at: Cursor)
    ensures
        well_declared_optional(statement(tokens, at)),
    decreases tokens.len() - at.index, 1int,
{
    match peek_at(tokens, at.index) {
        Some(TokenView::Int) => {
            lemma_declaration_well_declared(tokens, at.step(1));
        },
        Some(TokenView::Ident(name)) => {
            lemma_assignment_well_declared(tokens, at.step(1), name);
        },
        Some(TokenView::Return) => {
            lemma_returning_well_declared(tokens, at.step(1));
        },
        Some(TokenView::Print) => {
            lemma_printing_well_declared(tokens, at.step(1));
        },
        Some(TokenView::Read) => {
            lemma_reading_well_declared(tokens, at.step(1));
        },
        Some(TokenView::While) => {
            lemma_looping_well_declared(tokens, at.step(1));
        },
        Some(TokenView::If) => {
            lemma_branching_well_declared(tokens, at.step(1));
        },
        _ => {},
    }
}

proof fn lemma_block_well_declared(tokens: Seq<TokenView>, at: Cursor)
    ensures
        well_declared_result(block(tokens, at)),
    decreases tokens.len() - at.index, 2int,
{
    match peek_at(tokens, at.index) {
        None => {},
        Some(TokenView::RightCurly) => {},
        Some(_) => {
            lemma_statement_well_declared(tokens, at);
            if let Ok((first, after)) = forward(statement(tokens, at), at, tokens.len()) {
                lemma_block_well_declared(tokens, after);
                if let Ok((rest, _)) = block(tokens, after) {
                    let code = match first {
                        Some(code) => code,
                        None => Seq::empty(),
                    };
                    lemma_well_declared_concat(code, rest);
                }
            }
        },
    }
}

proof fn lemma_function_well_declared(tokens: Seq<TokenView>, at: Cursor)
    ensures
        well_declared_optional(function(tokens, at)),
{
    if let Ok((params, index)) = parameters(tokens, at.index + 3) {
        let inside = Cursor { index: index + 1, names: at.names };
        lemma_block_well_declared(tokens, inside);
        if let Ok((body, _)) = block(tokens, inside) {
            if let Some(TokenView::Ident(name)) = peek_at(tokens, at.index + 1) {
                let head = seq![Instr::Func { name, params }];
                assert(well_declared(head));
                lemma_well_declared_concat(head, body);
                lemma_use(head + body, Instr::EndFunc);
            }
        }
    }
}

/// In the instructions that a program translates to, every temporary that
/// an instruction mentions, otherwise than as the size of an array, is
/// declared by an earlier instruction.
pub proof fn lemma_program_well_declared(tokens: Seq<TokenView>, at: Cursor)
    ensures
        well_declared_result(program(tokens, at)),
    decreases tokens.len() - at.index,
{
    lemma_function_well_declared(tokens, at);
    match function(tokens, at) {
        Ok((Some(first), after)) => {
            if let Ok((_, after)) = forward(function(tokens, at), at, tokens.len()) {
                lemma_program_well_declared(tokens, after);
                if let Ok((rest, _)) = program(tokens, after) {
                    lemma_well_declared_concat(first, rest);
                }
            }
        },
        _ => {},
    }
}

/// The instruction declares an array whose size is a temporary.
pub open spec fn sized_by_a_temporary(instr: Instr) -> bool {
    instr matches Instr::DeclareArray { name, size } && size is Temporary
}

/// Every temporary is declared before it is used: in the instructions that
/// a program translates to, a temporary that an instruction mentions is
/// declared by an earlier instruction. This holds of the programs that
/// declare no array with a computed size; the size of such an array is a
/// temporary that no instruction declares.
pub proof fn lemma_declared_before_use(tokens: Seq<TokenView>, at: Cursor, j: int, n: nat)
    requires
        program(tokens, at) is Ok,
        0 <= j < program(tokens, at)->Ok_0.0.len(),
        mentions(program(tokens, at)->Ok_0.0[j], Operand::Temporary(n)),
        forall|k: int|
            0 <= k < program(tokens, at)->Ok_0.0.len() ==> !sized_by_a_temporary(
                #[trigger] program(tokens, at)->Ok_0.0[k],
            ),
    ensures
        declared_before(program(tokens, at)->Ok_0.0, j, n),
{
    lemma_program_well_declared(tokens, at);
    assert(!sized_by_a_temporary(program(tokens, at)->Ok_0.0[j]));
}

} // verus!
