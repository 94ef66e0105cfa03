//! The text of a translation, line by line.
//!
//! Where no name in a piece of code holds a newline, every instruction but
//! `%endfunc` is written as one line, which begins with `%` or, for the
//! definition of a label, with `:`. So the lines of the text that define
//! labels are those of the instructions that do, in their order, and no two
//! of them are the same. Where the names are identifiers, the only lines
//! that the analyzer takes for the beginning of a function are those of the
//! instructions that begin one.

use crate::compiler::{beginning, compilation, translation};
use crate::freshness::{lemma_marks_are_distinct, mark_of, marks};
use crate::grammar::{program, Cursor};
use crate::ir::{
    call_text, element_text, instr_text, label_number, label_prefix, label_text, line1, line2,
    line3, opcode, operand_text, operand_texts, parameter_texts, render, separated, signature_text,
    target_text, Instr, Label, Operand, Operator,
};
use crate::lexer::{lemma_lexemes_tidy, lexemes};
use crate::names::{
    good_names, identifier_names, lemma_program_tidy, named, tidy, tidy_instr, tidy_operand,
    tidy_operands, NameTest,
};
use crate::semantics::{
    begins_with, declares_main, defines_main, lemma_missing_main_fails, normalized, rewritten,
    verdict, words, Form,
};
use crate::text::{
    behind_first_line, decimal, digit, identifier, identifier_char, lemma_decimal,
    lemma_decimal_injective, lemma_line_length_bound, lemma_line_length_is, lemma_symbol_run_is,
    line_length, whitespace,
};
use crate::token::TokenView;
use vstd::prelude::*;

verus! {

/// No character of `s` is a newline.
pub open spec fn unbroken(s: Seq<char>) -> bool {
    forall|i: int| 0 <= i < s.len() ==> #[trigger] s[i] != '\n'
}

/// The names that hold no newline.
pub open spec fn unbroken_names() -> NameTest {
    |name: Seq<char>| unbroken(name)
}

/// The text is one line that begins with `first`: it ends in a newline and
/// holds no other.
pub open spec fn one_line(text: Seq<char>, first: char) -> bool {
    &&& text.len() >= 2
    &&& text[0] == first
    &&& text.last() == '\n'
    &&& unbroken(text.drop_last())
}

/// The lines of a text that begin with `:`, in order, each without its
/// newline.
pub open spec fn label_lines(text: Seq<char>) -> Seq<Seq<char>>
    decreases text.len(),
{
    if text.len() == 0 {
        Seq::empty()
    } else {
        proof {
            lemma_line_length_bound(text);
        }
        let line = text.take(line_length(text) as int);
        let found = if line.len() > 0 && line[0] == ':' {
            seq![line]
        } else {
            Seq::empty()
        };
        found + label_lines(behind_first_line(text))
    }
}

/// The line that defines the label `label`, without its newline.
pub open spec fn definition(label: Label) -> Seq<char> {
    target_text(label_text(label))
}

/// The lines that define the labels `labels`.
pub open spec fn definitions(labels: Seq<Label>) -> Seq<Seq<char>> {
    Seq::new(labels.len(), |i: int| definition(labels[i]))
}

proof fn lemma_unbroken_concat(a: Seq<char>, b: Seq<char>)
    requires
        unbroken(a),
        unbroken(b),
    ensures
        unbroken(a + b),
{
    assert forall|i: int| 0 <= i < (a + b).len() implies #[trigger] (a + b)[i] != '\n' by {
        if i < a.len() {
            assert((a + b)[i] == a[i]);
        } else {
            assert((a + b)[i] == b[i - a.len()]);
        }
    }
}

proof fn lemma_decimal_unbroken(n: nat)
    ensures
        unbroken(decimal(n)),
{
    lemma_decimal(n);
    let s = decimal(n);
    assert forall|i: int| 0 <= i < s.len() implies #[trigger] s[i] != '\n' by {
        assert(digit(s[i]));
    }
}

proof fn lemma_identifier_unbroken(name: Seq<char>)
    requires
        identifier(name),
    ensures
        unbroken(name),
{
    assert forall|i: int| 0 <= i < name.len() implies #[trigger] name[i] != '\n' by {
        assert(identifier_char(name[i]));
    }
}

proof fn lemma_operand_unbroken(operand: Operand)
    requires
        tidy_operand(operand, unbroken_names()),
    ensures
        unbroken(operand_text(operand)),
{
    match operand {
        Operand::Literal(n) => {
            if n < 0 {
                lemma_decimal_unbroken((-n) as nat);
                lemma_unbroken_concat(seq!['-'], decimal((-n) as nat));
            } else {
                lemma_decimal_unbroken(n as nat);
            }
        },
        Operand::Variable(name) => {},
        Operand::Temporary(n) => {
            reveal_strlit("_temp");
            lemma_decimal_unbroken(n);
            lemma_unbroken_concat("_temp"@, decimal(n));
        },
    }
}

proof fn lemma_label_unbroken(label: Label)
    ensures
        unbroken(label_text(label)),
        unbroken(definition(label)),
        definition(label).len() > 0,
        definition(label)[0] == ':',
{
    reveal_strlit("loopbegin");
    reveal_strlit("endloop_");
    reveal_strlit("iftrue");
    reveal_strlit("endif");
    reveal_strlit("else");
    reveal_strlit(":");
    lemma_decimal_unbroken(label_number(label));
    lemma_unbroken_concat(label_prefix(label), decimal(label_number(label)));
    lemma_unbroken_concat(":"@, label_text(label));
}

proof fn lemma_separated_unbroken(items: Seq<Seq<char>>, separator: Seq<char>)
    requires
        forall|k: int| 0 <= k < items.len() ==> unbroken(#[trigger] items[k]),
        unbroken(separator),
    ensures
        unbroken(separated(items, separator)),
    decreases items.len(),
{
    if items.len() > 1 {
        let front = items.drop_last();
        assert forall|k: int| 0 <= k < front.len() implies unbroken(#[trigger] front[k]) by {
            assert(front[k] == items[k]);
        }
        lemma_separated_unbroken(front, separator);
        lemma_unbroken_concat(separated(front, separator), separator);
        lemma_unbroken_concat(separated(front, separator) + separator, items.last());
    }
}

proof fn lemma_element_unbroken(array: Seq<char>, index: Seq<char>)
    requires
        unbroken(array),
        unbroken(index),
    ensures
        unbroken(element_text(array, index)),
{
    reveal_strlit("[");
    reveal_strlit(" + ");
    reveal_strlit("]");
    lemma_unbroken_concat("["@, array);
    lemma_unbroken_concat("["@ + array, " + "@);
    lemma_unbroken_concat("["@ + array + " + "@, index);
    lemma_unbroken_concat("["@ + array + " + "@ + index, "]"@);
}

proof fn lemma_signature_unbroken(name: Seq<char>, params: Seq<Seq<char>>)
    requires
        unbroken(name),
        good_names(params, unbroken_names()),
    ensures
        unbroken(signature_text(name, params)),
{
    reveal_strlit("(");
    reveal_strlit(")");
    reveal_strlit(", ");
    reveal_strlit("%int ");
    let declared = parameter_texts(params);
    assert forall|k: int| 0 <= k < declared.len() implies unbroken(#[trigger] declared[k]) by {
        assert(unbroken(params[k]));
        lemma_unbroken_concat("%int "@, params[k]);
    }
    lemma_separated_unbroken(declared, ", "@);
    lemma_unbroken_concat(name, "("@);
    lemma_unbroken_concat(name + "("@, separated(declared, ", "@));
    lemma_unbroken_concat(name + "("@ + separated(declared, ", "@), ")"@);
}

proof fn lemma_call_unbroken(function: Seq<char>, args: Seq<Operand>)
    requires
        unbroken(function),
        tidy_operands(args, unbroken_names()),
    ensures
        unbroken(call_text(function, operand_texts(args))),
{
    reveal_strlit("(");
    reveal_strlit(")");
    reveal_strlit(",");
    let texts = operand_texts(args);
    assert forall|k: int| 0 <= k < texts.len() implies unbroken(#[trigger] texts[k]) by {
        lemma_operand_unbroken(args[k]);
    }
    lemma_separated_unbroken(texts, ","@);
    lemma_unbroken_concat(function, "("@);
    lemma_unbroken_concat(function + "("@, separated(texts, ","@));
    lemma_unbroken_concat(function + "("@ + separated(texts, ","@), ")"@);
}

proof fn lemma_line1(opcode: Seq<char>, a: Seq<char>)
    requires
        opcode.len() > 0,
        unbroken(opcode),
        unbroken(a),
    ensures
        one_line(line1(opcode, a), opcode[0]),
{
    reveal_strlit(" ");
    reveal_strlit("\n");
    lemma_unbroken_concat(opcode, " "@);
    lemma_unbroken_concat(opcode + " "@, a);
    assert(line1(opcode, a).drop_last() =~= opcode + " "@ + a);
}

proof fn lemma_line2(opcode: Seq<char>, a: Seq<char>, b: Seq<char>)
    requires
        opcode.len() > 0,
        unbroken(opcode),
        unbroken(a),
        unbroken(b),
    ensures
        one_line(line2(opcode, a, b), opcode[0]),
{
    reveal_strlit(" ");
    reveal_strlit(", ");
    reveal_strlit("\n");
    lemma_unbroken_concat(opcode, " "@);
    lemma_unbroken_concat(opcode + " "@, a);
    lemma_unbroken_concat(opcode + " "@ + a, ", "@);
    lemma_unbroken_concat(opcode + " "@ + a + ", "@, b);
    assert(line2(opcode, a, b).drop_last() =~= opcode + " "@ + a + ", "@ + b);
}

proof fn lemma_line3(opcode: Seq<char>, a: Seq<char>, b: Seq<char>, c: Seq<char>)
    requires
        opcode.len() > 0,
        unbroken(opcode),
        unbroken(a),
        unbroken(b),
        unbroken(c),
    ensures
        one_line(line3(opcode, a, b, c), opcode[0]),
{
    reveal_strlit(" ");
    reveal_strlit(", ");
    reveal_strlit("\n");
    lemma_unbroken_concat(opcode, " "@);
    lemma_unbroken_concat(opcode + " "@, a);
    lemma_unbroken_concat(opcode + " "@ + a, ", "@);
    lemma_unbroken_concat(opcode + " "@ + a + ", "@, b);
    lemma_unbroken_concat(opcode + " "@ + a + ", "@ + b, ", "@);
    lemma_unbroken_concat(opcode + " "@ + a + ", "@ + b + ", "@, c);
    assert(line3(opcode, a, b, c).drop_last() =~= opcode + " "@ + a + ", "@ + b + ", "@ + c);
}

/// The opcode of an operator is an unbroken word that begins with `%`.
proof fn lemma_opcode(op: Operator)
    ensures
        opcode(op).len() > 0,
        opcode(op)[0] == '%',
        unbroken(opcode(op)),
{
    reveal_strlit("%add");
    reveal_strlit("%sub");
    reveal_strlit("%mult");
    reveal_strlit("%div");
    reveal_strlit("%mod");
    reveal_strlit("%lt");
    reveal_strlit("%le");
    reveal_strlit("%gt");
    reveal_strlit("%ge");
    reveal_strlit("%eq");
    reveal_strlit("%neq");
}

/// The character with which the line of an instruction begins.
pub open spec fn first_character(instr: Instr) -> char {
    if instr is Mark {
        ':'
    } else {
        '%'
    }
}

/// An instruction whose names hold no newline, other than `%endfunc`, is
/// written as one line. The line begins with `:` if the instruction defines a label, and
/// with `%` if not.
pub proof fn lemma_instr_is_one_line(instr: Instr)
    requires
        tidy_instr(instr, unbroken_names()),
        !(instr is EndFunc),
    ensures
        one_line(instr_text(instr), first_character(instr)),
{
    match instr {
        Instr::Func { name, params } => {
            reveal_strlit("%func");
            lemma_signature_unbroken(name, params);
            lemma_line1("%func"@, signature_text(name, params));
        },
        Instr::EndFunc => {},
        Instr::Declare(target) => {
            reveal_strlit("%int");
            lemma_operand_unbroken(target);
            lemma_line1("%int"@, operand_text(target));
        },
        Instr::DeclareArray { name, size } => {
            reveal_strlit("%int[]");
            lemma_operand_unbroken(size);
            lemma_line2("%int[]"@, name, operand_text(size));
        },
        Instr::Move { dst, src } => {
            reveal_strlit("%mov");
            lemma_operand_unbroken(dst);
            lemma_operand_unbroken(src);
            lemma_line2("%mov"@, operand_text(dst), operand_text(src));
        },
        Instr::Discard(value) => {
            reveal_strlit("%mov");
            lemma_operand_unbroken(value);
            lemma_line1("%mov"@, operand_text(value));
        },
        Instr::Store { array, index, src } => {
            reveal_strlit("%mov");
            lemma_operand_unbroken(index);
            lemma_operand_unbroken(src);
            lemma_element_unbroken(array, operand_text(index));
            lemma_line2("%mov"@, element_text(array, operand_text(index)), operand_text(src));
        },
        Instr::Load { dst, base, index } => {
            reveal_strlit("%mov");
            lemma_operand_unbroken(dst);
            lemma_operand_unbroken(base);
            lemma_operand_unbroken(index);
            lemma_element_unbroken(operand_text(base), operand_text(index));
            lemma_line2(
                "%mov"@,
                operand_text(dst),
                element_text(operand_text(base), operand_text(index)),
            );
        },
        Instr::Binary { op, dst, left, right } => {
            lemma_opcode(op);
            lemma_operand_unbroken(dst);
            lemma_operand_unbroken(left);
            lemma_operand_unbroken(right);
            lemma_line3(opcode(op), operand_text(dst), operand_text(left), operand_text(right));
        },
        Instr::Output(value) => {
            reveal_strlit("%out");
            lemma_operand_unbroken(value);
            lemma_line1("%out"@, operand_text(value));
        },
        Instr::Input(target) => {
            reveal_strlit("%input");
            lemma_operand_unbroken(target);
            lemma_line1("%input"@, operand_text(target));
        },
        Instr::Return(value) => {
            reveal_strlit("%ret");
            lemma_operand_unbroken(value);
            lemma_line1("%ret"@, operand_text(value));
        },
        Instr::Call { dst, function, args } => {
            reveal_strlit("%call");
            lemma_operand_unbroken(dst);
            lemma_call_unbroken(function, args);
            lemma_line2("%call"@, operand_text(dst), call_text(function, operand_texts(args)));
        },
        Instr::Jump(label) => {
            reveal_strlit("%jmp");
            lemma_label_unbroken(label);
            lemma_line1("%jmp"@, definition(label));
        },
        Instr::BranchIf { cond, target } => {
            reveal_strlit("%branch_if");
            lemma_operand_unbroken(cond);
            lemma_label_unbroken(target);
            lemma_line2("%branch_if"@, operand_text(cond), definition(target));
        },
        Instr::BranchIfNot { cond, target } => {
            reveal_strlit("%branch_ifn");
            lemma_operand_unbroken(cond);
            lemma_label_unbroken(target);
            lemma_line2("%branch_ifn"@, operand_text(cond), definition(target));
        },
        Instr::Mark(label) => {
            reveal_strlit("\n");
            lemma_label_unbroken(label);
            assert(instr_text(instr).drop_last() =~= definition(label));
        },
    }
}

/// The characters of a line are no newlines.
proof fn lemma_line_is_unbroken(text: Seq<char>, j: int)
    requires
        0 <= j < line_length(text),
    ensures
        j < text.len(),
        text[j] != '\n',
    decreases j,
{
    if j > 0 {
        lemma_line_is_unbroken(text.skip(1), j - 1);
        assert(text.skip(1)[j - 1] == text[j]);
    }
}

/// A newline stands behind the first line of a text, unless the line is the
/// whole text.
proof fn lemma_line_ends(text: Seq<char>)
    ensures
        line_length(text) <= text.len(),
        line_length(text) < text.len() ==> text[line_length(text) as int] == '\n',
    decreases text.len(),
{
    if text.len() > 0 && text[0] != '\n' {
        lemma_line_ends(text.skip(1));
        let n = line_length(text.skip(1));
        if n < text.skip(1).len() {
            assert(text.skip(1)[n as int] == text[n as int + 1]);
        }
    }
}

/// The lines of a text that is one line: the line itself if it begins with
/// `:`, and none if not.
proof fn lemma_label_lines_of_one_line(text: Seq<char>, first: char)
    requires
        one_line(text, first),
    ensures
        label_lines(text) == if first == ':' {
            seq![text.drop_last()]
        } else {
            Seq::<Seq<char>>::empty()
        },
{
    let n = text.len() - 1;
    assert forall|j: int| 0 <= j < n implies #[trigger] text[j] != '\n' by {
        assert(text.drop_last()[j] == text[j]);
    }
    lemma_line_length_is(text, n);
    assert(text.take(n) =~= text.drop_last());
    assert(behind_first_line(text) =~= Seq::<char>::empty());
    assert(label_lines(behind_first_line(text)) =~= Seq::<Seq<char>>::empty());
    let found = if first == ':' {
        seq![text.drop_last()]
    } else {
        Seq::<Seq<char>>::empty()
    };
    assert(found + Seq::<Seq<char>>::empty() =~= found);
}

/// The lines of a text behind a text that ends in a newline are the lines
/// of the one followed by the lines of the other.
proof fn lemma_label_lines_concat(a: Seq<char>, b: Seq<char>)
    requires
        a.len() == 0 || a.last() == '\n',
    ensures
        label_lines(a + b) == label_lines(a) + label_lines(b),
    decreases a.len(),
{
    if a.len() == 0 {
        assert(a + b =~= b);
        assert(label_lines(a) + label_lines(b) =~= label_lines(b));
    } else {
        let n = line_length(a) as int;
        lemma_line_ends(a);
        if n == a.len() {
            lemma_line_is_unbroken(a, a.len() - 1);
        }
        assert(n < a.len());
        let whole = a + b;
        assert forall|j: int| 0 <= j < n implies #[trigger] whole[j] != '\n' by {
            lemma_line_is_unbroken(a, j);
            assert(whole[j] == a[j]);
        }
        assert(whole[n] == a[n]);
        lemma_line_length_is(whole, n);
        assert(whole.take(n) =~= a.take(n));
        let rest = behind_first_line(a);
        assert(rest =~= a.skip(n + 1));
        assert(behind_first_line(whole) =~= rest + b);
        if rest.len() > 0 {
            assert(rest.last() == a.last());
        }
        lemma_label_lines_concat(rest, b);
        let line = a.take(n);
        let found = if line.len() > 0 && line[0] == ':' {
            seq![line]
        } else {
            Seq::<Seq<char>>::empty()
        };
        assert(label_lines(whole) == found + (label_lines(rest) + label_lines(b)));
        assert(label_lines(a) == found + label_lines(rest));
        assert(found + (label_lines(rest) + label_lines(b)) =~= (found + label_lines(rest))
            + label_lines(b));
    }
}

/// The lines of the text of one instruction that define a label: the line
/// of the instruction if it defines one.
proof fn lemma_label_lines_of_instr(instr: Instr)
    requires
        tidy_instr(instr, unbroken_names()),
    ensures
        label_lines(instr_text(instr)) == definitions(mark_of(instr)),
        instr_text(instr).len() > 0,
        instr_text(instr).last() == '\n',
{
    if instr is EndFunc {
        reveal_strlit("%endfunc\n\n");
        let text = instr_text(instr);
        let first = text.take(9);
        let second = text.skip(9);
        assert(text =~= first + second);
        assert(one_line(first, '%')) by {
            let line = first.drop_last();
            assert forall|i: int| 0 <= i < line.len() implies #[trigger] line[i] != '\n' by {
                assert(line[i] == text[i]);
            }
        }
        lemma_label_lines_of_one_line(first, '%');
        assert(second.len() == 1 && second[0] == '\n');
        assert(line_length(second) == 0);
        assert(behind_first_line(second) =~= Seq::<char>::empty());
        assert(second.take(0).len() == 0);
        assert(label_lines(Seq::<char>::empty()) =~= Seq::<Seq<char>>::empty());
        assert(label_lines(second) =~= Seq::<Seq<char>>::empty());
        lemma_label_lines_concat(first, second);
        assert(definitions(mark_of(instr)) =~= Seq::<Seq<char>>::empty());
        assert(label_lines(text) =~= Seq::<Seq<char>>::empty());
    } else {
        lemma_instr_is_one_line(instr);
        lemma_label_lines_of_one_line(instr_text(instr), first_character(instr));
        match instr {
            Instr::Mark(label) => {
                reveal_strlit("\n");
                assert(instr_text(instr).drop_last() =~= definition(label));
                assert(definitions(mark_of(instr)) =~= seq![definition(label)]);
            },
            _ => {
                assert(definitions(mark_of(instr)) =~= Seq::<Seq<char>>::empty());
            },
        }
    }
}

/// The text of code with tidy names is empty or ends in a newline, and its
/// lines that define labels are those of the labels that the code defines.
pub proof fn lemma_label_lines_of_code(code: Seq<Instr>)
    requires
        tidy(code, unbroken_names()),
    ensures
        label_lines(render(code)) == definitions(marks(code)),
        render(code).len() == 0 || render(code).last() == '\n',
    decreases code.len(),
{
    if code.len() == 0 {
        assert(definitions(marks(code)) =~= Seq::<Seq<char>>::empty());
    } else {
        let front = code.drop_last();
        let last = code.last();
        assert forall|i: int| 0 <= i < front.len() implies tidy_instr(
            #[trigger] front[i],
            unbroken_names(),
        ) by {
            assert(front[i] == code[i]);
        }
        lemma_label_lines_of_code(front);
        lemma_label_lines_of_instr(last);
        lemma_label_lines_concat(render(front), instr_text(last));
        assert(definitions(marks(front) + mark_of(last)) =~= definitions(marks(front))
            + definitions(mark_of(last)));
    }
}

/// Labels of different kinds or numbers have different names.
pub proof fn lemma_label_text_injective(a: Label, b: Label)
    requires
        label_text(a) == label_text(b),
    ensures
        a == b,
{
    reveal_strlit("loopbegin");
    reveal_strlit("endloop_");
    reveal_strlit("iftrue");
    reveal_strlit("endif");
    reveal_strlit("else");
    let s = label_text(a);
    lemma_decimal(label_number(a));
    lemma_decimal(label_number(b));
    // the first three characters tell the kinds apart, but for the two
    // that begin with `end`, which the fourth tells apart
    assert(s[0] == label_prefix(a)[0] && s[0] == label_prefix(b)[0]);
    assert(s[1] == label_prefix(a)[1] && s[1] == label_prefix(b)[1]);
    assert(s[3] == label_prefix(a)[3] && s[3] == label_prefix(b)[3]);
    assert(label_prefix(a) == label_prefix(b));
    let n = label_prefix(a).len() as int;
    assert(decimal(label_number(a)) =~= s.skip(n));
    assert(decimal(label_number(b)) =~= s.skip(n));
    lemma_decimal_injective(label_number(a), label_number(b));
}

/// Different labels are defined by different lines.
pub proof fn lemma_mark_text_injective(a: Label, b: Label)
    requires
        instr_text(Instr::Mark(a)) == instr_text(Instr::Mark(b)),
    ensures
        a == b,
{
    reveal_strlit(":");
    reveal_strlit("\n");
    let s = instr_text(Instr::Mark(a));
    let la = label_text(a);
    let lb = label_text(b);
    assert(s == ":"@ + la + "\n"@);
    assert(s == ":"@ + lb + "\n"@);
    assert(s.len() == la.len() + 2);
    assert(s.len() == lb.len() + 2);
    assert(la =~= s.subrange(1, s.len() - 1));
    assert(lb =~= s.subrange(1, s.len() - 1));
    lemma_label_text_injective(a, b);
}

/// No label is defined by two lines: in the text of a program, whatever
/// its tokens, no two lines that begin with `:` are the same. This holds of
/// the tokens among which no identifier holds a newline; an identifier that
/// does may spell the line of a label.
pub proof fn lemma_label_lines_of_program_are_unique(tokens: Seq<TokenView>, at: Cursor)
    requires
        program(tokens, at) is Ok,
        named(tokens, unbroken_names()),
    ensures
        label_lines(render(program(tokens, at)->Ok_0.0)).no_duplicates(),
{
    let code = program(tokens, at)->Ok_0.0;
    lemma_program_tidy(tokens, at, unbroken_names());
    lemma_marks_are_distinct(tokens, at);
    lemma_label_lines_of_code(code);
    let labels = marks(code);
    let lines = definitions(labels);
    assert forall|i: int, j: int|
        0 <= i < lines.len() && 0 <= j < lines.len() && i != j implies lines[i] != lines[j] by {
        if lines[i] == lines[j] {
            reveal_strlit("\n");
            assert(instr_text(Instr::Mark(labels[i])) == definition(labels[i]) + "\n"@);
            assert(instr_text(Instr::Mark(labels[j])) == definition(labels[j]) + "\n"@);
            lemma_mark_text_injective(labels[i], labels[j]);
            assert(labels[i] != labels[j]);
        }
    }
}

/// The identifiers that the lexer gives are identifiers, and hold no
/// newline.
proof fn lemma_lexemes_unbroken(source: Seq<char>)
    requires
        lexemes(source) is Ok,
    ensures
        named(lexemes(source)->Ok_0, unbroken_names()),
        named(lexemes(source)->Ok_0, identifier_names()),
{
    let tokens = lexemes(source)->Ok_0;
    lemma_lexemes_tidy(source);
    assert forall|i: int| 0 <= i < tokens.len() implies (
    #[trigger] tokens[i] matches TokenView::Ident(name) ==> unbroken(name) && identifier(name)) by {
        if let TokenView::Ident(name) = tokens[i] {
            lemma_identifier_unbroken(name);
        }
    }
}

/// In the text that a source text translates to, no two lines that define
/// a label are the same.
pub proof fn lemma_label_lines_are_unique(source: Seq<char>)
    requires
        translation(source) is Ok,
    ensures
        label_lines(render(translation(source)->Ok_0)).no_duplicates(),
{
    lemma_lexemes_unbroken(source);
    lemma_label_lines_of_program_are_unique(lexemes(source)->Ok_0, beginning());
}

/// An operand whose name is an identifier holds no newline.
proof fn lemma_operand_of_identifier(operand: Operand)
    requires
        tidy_operand(operand, identifier_names()),
    ensures
        tidy_operand(operand, unbroken_names()),
{
    if let Operand::Variable(name) = operand {
        lemma_identifier_unbroken(name);
    }
}

/// An instruction whose names are identifiers holds no newline in a name.
proof fn lemma_instr_of_identifiers(instr: Instr)
    requires
        tidy_instr(instr, identifier_names()),
    ensures
        tidy_instr(instr, unbroken_names()),
{
    match instr {
        Instr::Func { name, params } => {
            lemma_identifier_unbroken(name);
            assert forall|k: int| 0 <= k < params.len() implies unbroken(#[trigger] params[k]) by {
                lemma_identifier_unbroken(params[k]);
            }
        },
        Instr::EndFunc => {},
        Instr::Declare(target) => {
            lemma_operand_of_identifier(target);
        },
        Instr::DeclareArray { name, size } => {
            lemma_identifier_unbroken(name);
            lemma_operand_of_identifier(size);
        },
        Instr::Move { dst, src } => {
            lemma_operand_of_identifier(dst);
            lemma_operand_of_identifier(src);
        },
        Instr::Discard(value) => {
            lemma_operand_of_identifier(value);
        },
        Instr::Store { array, index, src } => {
            lemma_identifier_unbroken(array);
            lemma_operand_of_identifier(index);
            lemma_operand_of_identifier(src);
        },
        Instr::Load { dst, base, index } => {
            lemma_operand_of_identifier(dst);
            lemma_operand_of_identifier(base);
            lemma_operand_of_identifier(index);
        },
        Instr::Binary { op, dst, left, right } => {
            lemma_operand_of_identifier(dst);
            lemma_operand_of_identifier(left);
            lemma_operand_of_identifier(right);
        },
        Instr::Output(value) => {
            lemma_operand_of_identifier(value);
        },
        Instr::Input(target) => {
            lemma_operand_of_identifier(target);
        },
        Instr::Return(value) => {
            lemma_operand_of_identifier(value);
        },
        Instr::Call { dst, function, args } => {
            lemma_operand_of_identifier(dst);
            lemma_identifier_unbroken(function);
            assert forall|k: int| 0 <= k < args.len() implies tidy_operand(
                #[trigger] args[k],
                unbroken_names(),
            ) by {
                lemma_operand_of_identifier(args[k]);
            }
        },
        Instr::Jump(label) => {},
        Instr::BranchIf { cond, target } => {
            lemma_operand_of_identifier(cond);
        },
        Instr::BranchIfNot { cond, target } => {
            lemma_operand_of_identifier(cond);
        },
        Instr::Mark(label) => {},
    }
}

/// Code whose names are identifiers holds no newline in a name.
proof fn lemma_code_of_identifiers(code: Seq<Instr>)
    requires
        tidy(code, identifier_names()),
    ensures
        tidy(code, unbroken_names()),
{
    assert forall|i: int| 0 <= i < code.len() implies tidy_instr(
        #[trigger] code[i],
        unbroken_names(),
    ) by {
        lemma_instr_of_identifiers(code[i]);
    }
}

/// The code holds the beginning of a function called `main`.
pub open spec fn has_main(code: Seq<Instr>) -> bool {
    exists|i: int|
        0 <= i < code.len() && (#[trigger] code[i] matches Instr::Func { name, params } && name
            == "main"@)
}

/// Whether a text that ends in a newline, followed by another, defines
/// `main` is whether one of the two does.
proof fn lemma_defines_main_concat(a: Seq<char>, b: Seq<char>)
    requires
        a.len() == 0 || a.last() == '\n',
    ensures
        defines_main(a + b) == (defines_main(a) || defines_main(b)),
    decreases a.len(),
{
    if a.len() == 0 {
        assert(a + b =~= b);
    } else {
        let n = line_length(a) as int;
        lemma_line_ends(a);
        if n == a.len() {
            lemma_line_is_unbroken(a, a.len() - 1);
        }
        let whole = a + b;
        assert forall|j: int| 0 <= j < n implies #[trigger] whole[j] != '\n' by {
            lemma_line_is_unbroken(a, j);
            assert(whole[j] == a[j]);
        }
        assert(whole[n] == a[n]);
        lemma_line_length_is(whole, n);
        assert(whole.take(n) =~= a.take(n));
        let rest = behind_first_line(a);
        assert(rest =~= a.skip(n + 1));
        assert(behind_first_line(whole) =~= rest + b);
        if rest.len() > 0 {
            assert(rest.last() == a.last());
        }
        lemma_defines_main_concat(rest, b);
    }
}

/// Whether a text that is one line defines `main` is whether the line
/// declares it.
proof fn lemma_defines_main_of_one_line(text: Seq<char>, first: char)
    requires
        one_line(text, first),
    ensures
        defines_main(text) == declares_main(text.drop_last()),
{
    let n = text.len() - 1;
    assert forall|j: int| 0 <= j < n implies #[trigger] text[j] != '\n' by {
        assert(text.drop_last()[j] == text[j]);
    }
    lemma_line_length_is(text, n);
    assert(text.take(n) =~= text.drop_last());
    assert(behind_first_line(text) =~= Seq::<char>::empty());
    assert(!defines_main(Seq::<char>::empty()));
}

/// A line that begins with `%func` has `f` as its second character.
proof fn lemma_function_line(line: Seq<char>)
    requires
        begins_with(line, "%func"@),
    ensures
        line.len() >= 5,
        line[0] == '%',
        line[1] == 'f',
{
    reveal_strlit("%func");
    assert(line.take(5)[0] == line[0]);
    assert(line.take(5)[1] == line[1]);
}

/// The line of an instruction that does not begin a function does not begin
/// with `%func`.
proof fn lemma_other_lines(instr: Instr)
    requires
        tidy_instr(instr, unbroken_names()),
        !(instr is Func),
        !(instr is EndFunc),
    ensures
        !begins_with(instr_text(instr).drop_last(), "%func"@),
{
    let line = instr_text(instr).drop_last();
    lemma_instr_is_one_line(instr);
    if begins_with(line, "%func"@) {
        lemma_function_line(line);
        reveal_strlit(" ");
        reveal_strlit(", ");
        reveal_strlit("\n");
        assert(line[1] == instr_text(instr)[1]);
        assert(line[0] == instr_text(instr)[0]);
        match instr {
            Instr::Declare(target) => {
                reveal_strlit("%int");
                assert(instr_text(instr)[1] == "%int"@[1]);
            },
            Instr::DeclareArray { name, size } => {
                reveal_strlit("%int[]");
                assert(instr_text(instr)[1] == "%int[]"@[1]);
            },
            Instr::Move { dst, src } => {
                reveal_strlit("%mov");
                assert(instr_text(instr)[1] == "%mov"@[1]);
            },
            Instr::Discard(value) => {
                reveal_strlit("%mov");
                assert(instr_text(instr)[1] == "%mov"@[1]);
            },
            Instr::Store { array, index, src } => {
                reveal_strlit("%mov");
                assert(instr_text(instr)[1] == "%mov"@[1]);
            },
            Instr::Load { dst, base, index } => {
                reveal_strlit("%mov");
                assert(instr_text(instr)[1] == "%mov"@[1]);
            },
            Instr::Binary { op, dst, left, right } => {
                reveal_strlit("%add");
                reveal_strlit("%sub");
                reveal_strlit("%mult");
                reveal_strlit("%div");
                reveal_strlit("%mod");
                reveal_strlit("%lt");
                reveal_strlit("%le");
                reveal_strlit("%gt");
                reveal_strlit("%ge");
                reveal_strlit("%eq");
                reveal_strlit("%neq");
                assert(instr_text(instr)[1] == opcode(op)[1]);
            },
            Instr::Output(value) => {
                reveal_strlit("%out");
                assert(instr_text(instr)[1] == "%out"@[1]);
            },
            Instr::Input(target) => {
                reveal_strlit("%input");
                assert(instr_text(instr)[1] == "%input"@[1]);
            },
            Instr::Return(value) => {
                reveal_strlit("%ret");
                assert(instr_text(instr)[1] == "%ret"@[1]);
            },
            Instr::Call { dst, function, args } => {
                reveal_strlit("%call");
                assert(instr_text(instr)[1] == "%call"@[1]);
            },
            Instr::Jump(label) => {
                reveal_strlit("%jmp");
                assert(instr_text(instr)[1] == "%jmp"@[1]);
            },
            Instr::BranchIf { cond, target } => {
                reveal_strlit("%branch_if");
                assert(instr_text(instr)[1] == "%branch_if"@[1]);
            },
            Instr::BranchIfNot { cond, target } => {
                reveal_strlit("%branch_ifn");
                assert(instr_text(instr)[1] == "%branch_ifn"@[1]);
            },
            Instr::Mark(label) => {},
            _ => {},
        }
    }
}

/// Rewriting a text piece by piece.
proof fn lemma_normalized_concat(a: Seq<char>, b: Seq<char>, form: Form)
    ensures
        normalized(a + b, form) == normalized(a, form) + normalized(b, form),
    decreases b.len(),
{
    if b.len() == 0 {
        assert(a + b =~= a);
        assert(normalized(a, form) + normalized(b, form) =~= normalized(a, form));
    } else {
        lemma_normalized_concat(a, b.drop_last(), form);
        assert((a + b).drop_last() =~= a + b.drop_last());
        assert((a + b).last() == b.last());
        assert(normalized(a + b, form) =~= normalized(a, form) + normalized(b, form));
    }
}

/// A character of a word: no whitespace, comma or parenthesis.
pub open spec fn word_character(c: char) -> bool {
    !whitespace(c) && c != ',' && c != '(' && c != ')'
}

/// A text of word characters stays as it is in the line of a function.
proof fn lemma_normalized_word(s: Seq<char>)
    requires
        forall|i: int| 0 <= i < s.len() ==> word_character(#[trigger] s[i]),
    ensures
        normalized(s, Form::Signature) == s,
    decreases s.len(),
{
    if s.len() > 0 {
        let front = s.drop_last();
        assert forall|i: int| 0 <= i < front.len() implies word_character(#[trigger] front[i]) by {
            assert(front[i] == s[i]);
        }
        lemma_normalized_word(front);
        assert(rewritten(Form::Signature, s.last()) =~= seq![s.last()]);
        assert(front + seq![s.last()] =~= s);
    }
}

/// A text that begins with a parenthesis begins with a blank once it is
/// rewritten for the line of a function.
proof fn lemma_normalized_parenthesis(s: Seq<char>)
    requires
        s.len() > 0,
        s[0] == '(',
    ensures
        normalized(s, Form::Signature).len() > 0,
        normalized(s, Form::Signature)[0] == ' ',
{
    let head = seq![s[0]];
    assert(s =~= head + s.skip(1));
    lemma_normalized_concat(head, s.skip(1), Form::Signature);
    assert(head.drop_last() =~= Seq::<char>::empty());
    assert(normalized(head.drop_last(), Form::Signature) =~= Seq::<char>::empty());
    assert(normalized(head, Form::Signature) =~= seq![' ']);
}

/// The first word of a text that begins with word characters, up to a blank
/// or the end.
proof fn lemma_first_word(w: Seq<char>, rest: Seq<char>)
    requires
        w.len() > 0,
        forall|i: int| 0 <= i < w.len() ==> !whitespace(#[trigger] w[i]),
        rest.len() == 0 || whitespace(rest[0]),
    ensures
        words(w + rest) == seq![w] + words(rest),
{
    let s = w + rest;
    assert forall|j: int| 0 <= j < w.len() implies !whitespace(#[trigger] s[j]) by {
        assert(s[j] == w[j]);
    }
    if rest.len() > 0 {
        assert(s[w.len() as int] == rest[0]);
    }
    lemma_symbol_run_is(s, w.len() as int);
    assert(s.take(w.len() as int) =~= w);
    assert(s.skip(w.len() as int) =~= rest);
}

/// A line that holds `%func`, a blank and an identifier, behind which it
/// ends or goes on with a parenthesis, declares `main` only if the
/// identifier is `main`.
proof fn lemma_spelled_line_declares(name: Seq<char>, tail: Seq<char>)
    requires
        identifier(name),
        tail.len() == 0 || tail[0] == '(',
    ensures
        declares_main("%func"@ + (" "@ + (name + tail))) ==> name == "main"@,
{
    reveal_strlit("%func");
    reveal_strlit(" ");
    let line = "%func"@ + (" "@ + (name + tail));
    lemma_normalized_concat("%func"@, " "@ + (name + tail), Form::Signature);
    lemma_normalized_concat(" "@, name + tail, Form::Signature);
    lemma_normalized_concat(name, tail, Form::Signature);
    lemma_normalized_word("%func"@);
    assert(" "@.drop_last() =~= Seq::<char>::empty());
    assert(normalized(" "@.drop_last(), Form::Signature) =~= Seq::<char>::empty());
    assert(normalized(" "@, Form::Signature) =~= " "@);
    assert forall|i: int| 0 <= i < name.len() implies word_character(#[trigger] name[i]) by {
        assert(identifier_char(name[i]));
    }
    lemma_normalized_word(name);
    let after = normalized(tail, Form::Signature);
    if tail.len() > 0 {
        lemma_normalized_parenthesis(tail);
    }
    let rewritten_line = normalized(line, Form::Signature);
    assert(rewritten_line == "%func"@ + (" "@ + (name + after)));
    let behind = " "@ + (name + after);
    lemma_first_word("%func"@, behind);
    assert(behind.skip(1) =~= name + after);
    assert(words(behind) == words(name + after));
    lemma_first_word(name, after);
    let ws = words(rewritten_line);
    assert(ws =~= seq!["%func"@] + (seq![name] + words(after)));
    assert(ws[1] == name);
}

/// The line of a function declares `main` only if the function is called
/// `main`.
proof fn lemma_function_declares(name: Seq<char>, params: Seq<Seq<char>>)
    requires
        identifier(name),
    ensures
        declares_main(instr_text(Instr::Func { name, params }).drop_last()) ==> name == "main"@,
{
    reveal_strlit("\n");
    reveal_strlit("(");
    let line = instr_text(Instr::Func { name, params }).drop_last();
    let tail = if params.len() == 0 {
        Seq::<char>::empty()
    } else {
        "("@ + separated(parameter_texts(params), ", "@) + ")"@
    };
    assert(line =~= "%func"@ + (" "@ + (name + tail)));
    lemma_spelled_line_declares(name, tail);
}

/// A single instruction whose names are identifiers and whose text defines
/// `main` begins a function called `main`.
proof fn lemma_defines_main_of_instr(instr: Instr)
    requires
        tidy_instr(instr, identifier_names()),
        defines_main(instr_text(instr)),
    ensures
        instr matches Instr::Func { name, params } && name == "main"@,
{
    lemma_instr_of_identifiers(instr);
    if instr is EndFunc {
        reveal_strlit("%endfunc\n\n");
        reveal_strlit("%func");
        let text = instr_text(instr);
        let first = text.take(9);
        let second = text.skip(9);
        assert(text =~= first + second);
        assert(one_line(first, '%')) by {
            let line = first.drop_last();
            assert forall|i: int| 0 <= i < line.len() implies #[trigger] line[i] != '\n' by {
                assert(line[i] == text[i]);
            }
        }
        lemma_defines_main_concat(first, second);
        lemma_defines_main_of_one_line(first, '%');
        if begins_with(first.drop_last(), "%func"@) {
            lemma_function_line(first.drop_last());
            assert(first.drop_last()[1] == text[1]);
        }
        assert(second.len() == 1 && second[0] == '\n');
        assert(line_length(second) == 0);
        assert(behind_first_line(second) =~= Seq::<char>::empty());
        assert(second.take(0).len() == 0);
        assert(!defines_main(Seq::<char>::empty()));
        assert(!begins_with(second.take(0), "%func"@));
        assert(!defines_main(second));
    } else {
        lemma_instr_is_one_line(instr);
        lemma_defines_main_of_one_line(instr_text(instr), first_character(instr));
        match instr {
            Instr::Func { name, params } => {
                lemma_function_declares(name, params);
            },
            _ => {
                lemma_other_lines(instr);
            },
        }
    }
}

/// Code whose names are identifiers and whose text defines `main` holds
/// the beginning of a function called `main`.
pub proof fn lemma_defines_main_of_code(code: Seq<Instr>)
    requires
        tidy(code, identifier_names()),
        defines_main(render(code)),
    ensures
        has_main(code),
    decreases code.len(),
{
    if code.len() > 0 {
        let front = code.drop_last();
        let last = code.last();
        assert forall|i: int| 0 <= i < front.len() implies tidy_instr(
            #[trigger] front[i],
            identifier_names(),
        ) by {
            assert(front[i] == code[i]);
        }
        lemma_code_of_identifiers(front);
        lemma_label_lines_of_code(front);
        lemma_defines_main_concat(render(front), instr_text(last));
        if defines_main(render(front)) {
            lemma_defines_main_of_code(front);
            let i = choose|i: int|
                0 <= i < front.len() && (#[trigger] front[i] matches Instr::Func { name, params }
                    && name == "main"@);
            assert(code[i] == front[i]);
        } else {
            lemma_defines_main_of_instr(last);
            assert(code[code.len() - 1] == last);
        }
    }
}

/// A source text whose translation holds no function called `main` does not
/// compile.
pub proof fn lemma_missing_main_does_not_compile(source: Seq<char>)
    requires
        translation(source) matches Ok(code) ==> !has_main(code),
    ensures
        compilation(source) is Err,
{
    if let Ok(code) = translation(source) {
        let tokens = lexemes(source)->Ok_0;
        lemma_lexemes_unbroken(source);
        lemma_program_tidy(tokens, beginning(), identifier_names());
        if defines_main(render(code)) {
            lemma_defines_main_of_code(code);
        }
        lemma_missing_main_fails(render(code));
    }
}

/// The line begins the function `name` as the translation writes it:
/// `%func`, a blank and the name, behind which the line ends or goes on with
/// the parenthesis of the parameters.
pub open spec fn begins_function(line: Seq<char>, name: Seq<char>) -> bool {
    let head = "%func "@ + name;
    &&& identifier(name)
    &&& begins_with(line, head)
    &&& (line.len() == head.len() || line[head.len() as int] == '(')
}

/// The line, if it begins with `%func`, begins a function as the
/// translation writes it.
pub open spec fn well_spelled(line: Seq<char>) -> bool {
    begins_with(line, "%func"@) ==> exists|name: Seq<char>| begins_function(line, name)
}

/// The line is `%func main`, or begins with `%func main(`.
pub open spec fn names_main(line: Seq<char>) -> bool {
    line == "%func main"@ || begins_with(line, "%func main("@)
}

/// Every line of the text is well spelled, and none names `main`.
pub open spec fn spelled_without_main(text: Seq<char>) -> bool
    decreases text.len(),
{
    if text.len() == 0 {
        true
    } else {
        proof {
            lemma_line_length_bound(text);
        }
        let line = text.take(line_length(text) as int);
        well_spelled(line) && !names_main(line) && spelled_without_main(behind_first_line(text))
    }
}

/// A well spelled line that declares `main` names `main`.
proof fn lemma_spelled_line_names_main(line: Seq<char>)
    requires
        well_spelled(line),
        declares_main(line),
    ensures
        names_main(line),
{
    reveal_strlit("%func ");
    reveal_strlit("%func");
    reveal_strlit(" ");
    reveal_strlit("main");
    reveal_strlit("%func main");
    reveal_strlit("%func main(");
    let name = choose|name: Seq<char>| begins_function(line, name);
    let head = "%func "@ + name;
    let tail = line.skip(head.len() as int);
    assert(line =~= line.take(head.len() as int) + tail);
    assert(line =~= "%func"@ + (" "@ + (name + tail)));
    lemma_spelled_line_declares(name, tail);
    assert(head =~= "%func main"@);
    if tail.len() == 0 {
        assert(line =~= "%func main"@);
    } else {
        assert(line.take(11) =~= "%func main("@);
    }
}

/// A text in which every line that begins with `%func` is written as the
/// translation writes it, and in which no line is `%func main` or begins
/// with `%func main(`, is rejected, whatever else it holds.
pub proof fn lemma_text_without_main_fails(text: Seq<char>)
    requires
        spelled_without_main(text),
    ensures
        verdict(text) is Err,
{
    lemma_no_spelled_line_defines_main(text);
    lemma_missing_main_fails(text);
}

/// A text of well spelled lines of which none names `main` does not define
/// `main`.
proof fn lemma_no_spelled_line_defines_main(text: Seq<char>)
    requires
        spelled_without_main(text),
    ensures
        !defines_main(text),
    decreases text.len(),
{
    if text.len() > 0 {
        lemma_line_length_bound(text);
        let line = text.take(line_length(text) as int);
        if declares_main(line) {
            lemma_spelled_line_names_main(line);
        }
        lemma_no_spelled_line_defines_main(behind_first_line(text));
    }
}

} // verus!
