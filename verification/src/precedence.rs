//! Multiplication binds tighter than addition.

use crate::grammar::{
    additive_tail, assignment, binary, expression, multiplicative, multiplicative_tail, plain,
    statement, term, terminated, Cursor,
};
use crate::ir::{ExprView, Instr, Names, Operand, Operator};
use crate::token::TokenView;
use vstd::prelude::*;

verus! {

/// The tokens of the statement `x = a + b * c;`.
pub open spec fn sum_with_product(x: Seq<char>, a: Seq<char>, b: Seq<char>, c: Seq<char>) -> Seq<
    TokenView,
> {
    seq![
        TokenView::Ident(x),
        TokenView::Assign,
        TokenView::Ident(a),
        TokenView::Plus,
        TokenView::Ident(b),
        TokenView::Multiply,
        TokenView::Ident(c),
        TokenView::Semicolon,
    ]
}

/// For any identifiers, the statement `x = a + b * c;` translates to five
/// instructions: a temporary is declared and receives the product of `b`
/// and `c`, a second temporary is declared and receives the sum of `a` and
/// the first, and `x` receives the second.
pub proof fn lemma_product_before_sum(
    x: Seq<char>,
    a: Seq<char>,
    b: Seq<char>,
    c: Seq<char>,
    names: Names,
)
    ensures
        ({
            let product = Operand::Temporary(names.temp + 1);
            let sum = Operand::Temporary(names.temp + 2);
            statement(sum_with_product(x, a, b, c), Cursor { index: 0, names }) == Ok::<
                (Option<Seq<Instr>>, Cursor),
                Seq<char>,
            >(
                (
                    Some(
                        seq![
                            Instr::Declare(product),
                            Instr::Binary {
                                op: Operator::Mult,
                                dst: product,
                                left: Operand::Variable(b),
                                right: Operand::Variable(c),
                            },
                            Instr::Declare(sum),
                            Instr::Binary {
                                op: Operator::Add,
                                dst: sum,
                                left: Operand::Variable(a),
                                right: product,
                            },
                            Instr::Move { dst: Operand::Variable(x), src: sum },
                        ],
                    ),
                    Cursor { index: 8, names: Names { temp: names.temp + 2, ..names } },
                ),
            )
        }),
{
    reveal(assignment);
    let tokens = sum_with_product(x, a, b, c);
    let at = |index: int| Cursor { index, names };
    let product = Operand::Temporary(names.temp + 1);
    let sum = Operand::Temporary(names.temp + 2);
    let once = Names { temp: names.temp + 1, ..names };
    let twice = Names { temp: names.temp + 2, ..names };
    let multiply = Instr::Binary {
        op: Operator::Mult,
        dst: product,
        left: Operand::Variable(b),
        right: Operand::Variable(c),
    };
    let add = Instr::Binary {
        op: Operator::Add,
        dst: sum,
        left: Operand::Variable(a),
        right: product,
    };
    let nothing = Seq::<Instr>::empty();

    // the factors `b` and `c`, and their product
    assert(term(tokens, at(6)) == Ok::<(ExprView, Cursor), Seq<char>>(
        (plain(Operand::Variable(c)), at(7)),
    ));
    assert(term(tokens, at(4)) == Ok::<(ExprView, Cursor), Seq<char>>(
        (plain(Operand::Variable(b)), at(5)),
    ));
    let (factors, behind_factors) = binary(
        Operator::Mult,
        plain(Operand::Variable(b)),
        plain(Operand::Variable(c)),
        at(7),
    );
    assert(factors.code =~= seq![Instr::Declare(product), multiply]);
    let first = ExprView { code: seq![Instr::Declare(product), multiply], name: product };
    assert(factors == first);
    assert(behind_factors == Cursor { index: 7, names: once });
    assert(multiplicative_tail(tokens, behind_factors, first) == Ok::<
        (ExprView, Cursor),
        Seq<char>,
    >((first, behind_factors)));
    assert(multiplicative_tail(tokens, at(5), plain(Operand::Variable(b))) == Ok::<
        (ExprView, Cursor),
        Seq<char>,
    >((first, behind_factors)));
    assert(multiplicative(tokens, at(4)) == Ok::<(ExprView, Cursor), Seq<char>>(
        (first, behind_factors),
    ));

    // the summand `a`, and the sum
    assert(term(tokens, at(2)) == Ok::<(ExprView, Cursor), Seq<char>>(
        (plain(Operand::Variable(a)), at(3)),
    ));
    assert(multiplicative_tail(tokens, at(3), plain(Operand::Variable(a))) == Ok::<
        (ExprView, Cursor),
        Seq<char>,
    >((plain(Operand::Variable(a)), at(3))));
    assert(multiplicative(tokens, at(2)) == Ok::<(ExprView, Cursor), Seq<char>>(
        (plain(Operand::Variable(a)), at(3)),
    ));
    let (summands, behind_sum) = binary(
        Operator::Add,
        plain(Operand::Variable(a)),
        first,
        behind_factors,
    );
    assert(summands.code =~= seq![Instr::Declare(product), multiply, Instr::Declare(sum), add]);
    let second = ExprView {
        code: seq![Instr::Declare(product), multiply, Instr::Declare(sum), add],
        name: sum,
    };
    assert(summands == second);
    assert(behind_sum == Cursor { index: 7, names: twice });
    assert(additive_tail(tokens, behind_sum, second) == Ok::<(ExprView, Cursor), Seq<char>>(
        (second, behind_sum),
    ));
    assert(additive_tail(tokens, at(3), plain(Operand::Variable(a))) == Ok::<
        (ExprView, Cursor),
        Seq<char>,
    >((second, behind_sum)));
    assert(expression(tokens, at(2)) == Ok::<(ExprView, Cursor), Seq<char>>(
        (second, behind_sum),
    ));

    // the assignment and its semicolon
    let code = seq![
        Instr::Declare(product),
        multiply,
        Instr::Declare(sum),
        add,
        Instr::Move { dst: Operand::Variable(x), src: sum },
    ];
    assert(second.code + seq![Instr::Move { dst: Operand::Variable(x), src: sum }] =~= code);
    assert(assignment(tokens, at(1), x) == Ok::<(Seq<Instr>, Cursor), Seq<char>>(
        (code, behind_sum),
    ));
    assert(terminated(tokens, assignment(tokens, at(1), x)) == Ok::<
        (Option<Seq<Instr>>, Cursor),
        Seq<char>,
    >((Some(code), Cursor { index: 8, names: twice })));
}

} // verus!
