//! The three-address intermediate representation.
//!
//! In specifications a program is a sequence of [`Instr`], and [`render`]
//! gives the text that stands for it, one line per instruction. The
//! executable code holds the text only; its contracts say which
//! instructions that text renders.

use crate::text::{decimal, push_decimal, signed_decimal};
use vstd::prelude::*;

verus! {

/// What an instruction reads or writes.
pub enum Operand {
    /// An integer literal of the source text.
    Literal(int),
    /// A variable of the source text, by its name.
    Variable(Seq<char>),
    /// A temporary that the translator made, by its number.
    Temporary(nat),
}

/// A position in the program that jumps can name.
pub enum Label {
    LoopBegin(nat),
    LoopEnd(nat),
    IfTrue(nat),
    EndIf(nat),
    Else(nat),
}

/// The arithmetic operations and comparisons.
pub enum Operator {
    Add,
    Sub,
    Mult,
    Div,
    Mod,
    Lt,
    Le,
    Gt,
    Ge,
    Eq,
    Neq,
}

/// One instruction of the intermediate representation.
pub enum Instr {
    /// `%func name(%int p1, %int p2)`; the parentheses are left out when
    /// there are no parameters.
    Func { name: Seq<char>, params: Seq<Seq<char>> },
    /// `%endfunc`, followed by an empty line.
    EndFunc,
    /// `%int target`
    Declare(Operand),
    /// `%int[] name, size`
    DeclareArray { name: Seq<char>, size: Operand },
    /// `%mov dst, src`
    Move { dst: Operand, src: Operand },
    /// `%mov value`: the value is computed and dropped.
    Discard(Operand),
    /// `%mov [array + index], src`
    Store { array: Seq<char>, index: Operand, src: Operand },
    /// `%mov dst, [base + index]`
    Load { dst: Operand, base: Operand, index: Operand },
    /// `%add dst, left, right` and the like, by operator.
    Binary { op: Operator, dst: Operand, left: Operand, right: Operand },
    /// `%out value`
    Output(Operand),
    /// `%input target`
    Input(Operand),
    /// `%ret value`
    Return(Operand),
    /// `%call dst, function(a1,a2)`
    Call { dst: Operand, function: Seq<char>, args: Seq<Operand> },
    /// `%jmp :label`
    Jump(Label),
    /// `%branch_if cond, :label`
    BranchIf { cond: Operand, target: Label },
    /// `%branch_ifn cond, :label`
    BranchIfNot { cond: Operand, target: Label },
    /// `:label`
    Mark(Label),
}

/// The name of a temporary.
pub open spec fn temporary_text(n: nat) -> Seq<char> {
    "_temp"@ + decimal(n)
}

/// How an operand is written.
pub open spec fn operand_text(operand: Operand) -> Seq<char> {
    match operand {
        Operand::Literal(n) => signed_decimal(n),
        Operand::Variable(name) => name,
        Operand::Temporary(n) => temporary_text(n),
    }
}

/// How each operand of a sequence is written.
pub open spec fn operand_texts(operands: Seq<Operand>) -> Seq<Seq<char>> {
    Seq::new(operands.len(), |i: int| operand_text(operands[i]))
}

/// The word with which the name of a label begins, by its kind.
pub open spec fn label_prefix(label: Label) -> Seq<char> {
    match label {
        Label::LoopBegin(_) => "loopbegin"@,
        Label::LoopEnd(_) => "endloop_"@,
        Label::IfTrue(_) => "iftrue"@,
        Label::EndIf(_) => "endif"@,
        Label::Else(_) => "else"@,
    }
}

/// The number of a label.
pub open spec fn label_number(label: Label) -> nat {
    match label {
        Label::LoopBegin(n) => n,
        Label::LoopEnd(n) => n,
        Label::IfTrue(n) => n,
        Label::EndIf(n) => n,
        Label::Else(n) => n,
    }
}

/// The name of a label: the word of its kind, then its number.
pub open spec fn label_text(label: Label) -> Seq<char> {
    label_prefix(label) + decimal(label_number(label))
}

/// A label as the target of a jump.
pub open spec fn target_text(label: Seq<char>) -> Seq<char> {
    ":"@ + label
}

/// The opcode of an operator.
pub open spec fn opcode(op: Operator) -> Seq<char> {
    match op {
        Operator::Add => "%add"@,
        Operator::Sub => "%sub"@,
        Operator::Mult => "%mult"@,
        Operator::Div => "%div"@,
        Operator::Mod => "%mod"@,
        Operator::Lt => "%lt"@,
        Operator::Le => "%le"@,
        Operator::Gt => "%gt"@,
        Operator::Ge => "%ge"@,
        Operator::Eq => "%eq"@,
        Operator::Neq => "%neq"@,
    }
}

/// A line with one operand.
pub open spec fn line1(opcode: Seq<char>, a: Seq<char>) -> Seq<char> {
    opcode + " "@ + a + "\n"@
}

/// A line with two operands.
pub open spec fn line2(opcode: Seq<char>, a: Seq<char>, b: Seq<char>) -> Seq<char> {
    opcode + " "@ + a + ", "@ + b + "\n"@
}

/// A line with three operands.
pub open spec fn line3(opcode: Seq<char>, a: Seq<char>, b: Seq<char>, c: Seq<char>) -> Seq<char> {
    opcode + " "@ + a + ", "@ + b + ", "@ + c + "\n"@
}

/// The element `index` of the array `array`, as an operand of `%mov`.
pub open spec fn element_text(array: Seq<char>, index: Seq<char>) -> Seq<char> {
    "["@ + array + " + "@ + index + "]"@
}

/// The texts `items` in a row, with `separator` between each two.
pub open spec fn separated(items: Seq<Seq<char>>, separator: Seq<char>) -> Seq<char>
    decreases items.len(),
{
    if items.len() == 0 {
        Seq::empty()
    } else if items.len() == 1 {
        items[0]
    } else {
        separated(items.drop_last(), separator) + separator + items.last()
    }
}

/// The declarations `%int p` of the parameters `params`.
pub open spec fn parameter_texts(params: Seq<Seq<char>>) -> Seq<Seq<char>> {
    Seq::new(params.len(), |i: int| "%int "@ + params[i])
}

/// A function's name with its parameter list behind it; the list and its
/// parentheses are left out when there are no parameters.
pub open spec fn signature_text(name: Seq<char>, params: Seq<Seq<char>>) -> Seq<char> {
    if params.len() == 0 {
        name
    } else {
        name + "("@ + separated(parameter_texts(params), ", "@) + ")"@
    }
}

/// A call of `function` with the arguments `args`.
pub open spec fn call_text(function: Seq<char>, args: Seq<Seq<char>>) -> Seq<char> {
    function + "("@ + separated(args, ","@) + ")"@
}

/// The text of one instruction, with the newline that ends it.
pub open spec fn instr_text(instr: Instr) -> Seq<char> {
    match instr {
        Instr::Func { name, params } => line1("%func"@, signature_text(name, params)),
        Instr::EndFunc => "%endfunc\n\n"@,
        Instr::Declare(target) => line1("%int"@, operand_text(target)),
        Instr::DeclareArray { name, size } => line2("%int[]"@, name, operand_text(size)),
        Instr::Move { dst, src } => line2("%mov"@, operand_text(dst), operand_text(src)),
        Instr::Discard(value) => line1("%mov"@, operand_text(value)),
        Instr::Store { array, index, src } => line2(
            "%mov"@,
            element_text(array, operand_text(index)),
            operand_text(src),
        ),
        Instr::Load { dst, base, index } => line2(
            "%mov"@,
            operand_text(dst),
            element_text(operand_text(base), operand_text(index)),
        ),
        Instr::Binary { op, dst, left, right } => line3(
            opcode(op),
            operand_text(dst),
            operand_text(left),
            operand_text(right),
        ),
        Instr::Output(value) => line1("%out"@, operand_text(value)),
        Instr::Input(target) => line1("%input"@, operand_text(target)),
        Instr::Return(value) => line1("%ret"@, operand_text(value)),
        Instr::Call { dst, function, args } => line2(
            "%call"@,
            operand_text(dst),
            call_text(function, operand_texts(args)),
        ),
        Instr::Jump(label) => line1("%jmp"@, target_text(label_text(label))),
        Instr::BranchIf { cond, target } => line2(
            "%branch_if"@,
            operand_text(cond),
            target_text(label_text(target)),
        ),
        Instr::BranchIfNot { cond, target } => line2(
            "%branch_ifn"@,
            operand_text(cond),
            target_text(label_text(target)),
        ),
        Instr::Mark(label) => target_text(label_text(label)) + "\n"@,
    }
}

/// The text of a sequence of instructions: the text of each, in order.
pub open spec fn render(code: Seq<Instr>) -> Seq<char>
    decreases code.len(),
{
    if code.len() == 0 {
        Seq::empty()
    } else {
        render(code.drop_last()) + instr_text(code.last())
    }
}

/// The text of some instructions followed by others is the text of the
/// first followed by the text of the second.
pub proof fn lemma_render_concat(a: Seq<Instr>, b: Seq<Instr>)
    ensures
        render(a + b) == render(a) + render(b),
    decreases b.len(),
{
    if b.len() == 0 {
        assert(a + b =~= a);
        assert(render(a) + render(b) =~= render(a));
    } else {
        lemma_render_concat(a, b.drop_last());
        assert((a + b).drop_last() =~= a + b.drop_last());
        assert((a + b).last() == b.last());
        assert(render(a + b) =~= render(a) + render(b));
    }
}

/// The text of a single instruction, as a program.
pub proof fn lemma_render_one(instr: Instr)
    ensures
        render(seq![instr]) == instr_text(instr),
{
    assert(seq![instr].drop_last() =~= Seq::<Instr>::empty());
    assert(render(Seq::<Instr>::empty()) =~= Seq::<char>::empty());
    assert(render(seq![instr]) =~= instr_text(instr));
}

/// The text of a program with one more instruction at its end.
pub proof fn lemma_render_push(code: Seq<Instr>, instr: Instr)
    ensures
        render(code.push(instr)) == render(code) + instr_text(instr),
{
    assert(code.push(instr).drop_last() =~= code);
}

/// The text of a program with one more instruction behind it.
pub proof fn lemma_render_append(code: Seq<Instr>, instr: Instr)
    ensures
        render(code + seq![instr]) == render(code) + instr_text(instr),
{
    assert(code + seq![instr] =~= code.push(instr));
    lemma_render_push(code, instr);
}

/// The text of the empty program is empty.
pub proof fn lemma_render_empty()
    ensures
        render(Seq::empty()) == Seq::<char>::empty(),
{
}

/// The counters from which the names of temporaries and labels are made.
/// Each counter holds the number of the name that was made last.
#[derive(Clone, Debug)]
pub struct Counters {
    pub temp: u64,
    pub loop_begin: u64,
    pub loop_end: u64,
    pub if_true: u64,
    pub end_if: u64,
    pub else_branch: u64,
}

/// The counters as natural numbers.
pub struct Names {
    pub temp: nat,
    pub loop_begin: nat,
    pub loop_end: nat,
    pub if_true: nat,
    pub end_if: nat,
    pub else_branch: nat,
}

impl View for Counters {
    type V = Names;

    open spec fn view(&self) -> Names {
        Names {
            temp: self.temp as nat,
            loop_begin: self.loop_begin as nat,
            loop_end: self.loop_end as nat,
            if_true: self.if_true as nat,
            end_if: self.end_if as nat,
            else_branch: self.else_branch as nat,
        }
    }
}

impl Names {
    /// No name has been made yet.
    pub open spec fn fresh() -> Names {
        Names { temp: 0, loop_begin: 0, loop_end: 0, if_true: 0, end_if: 0, else_branch: 0 }
    }

    /// Every counter of `self` is at most that of `later`.
    pub open spec fn at_most(self, later: Names) -> bool {
        &&& self.temp <= later.temp
        &&& self.loop_begin <= later.loop_begin
        &&& self.loop_end <= later.loop_end
        &&& self.if_true <= later.if_true
        &&& self.end_if <= later.end_if
        &&& self.else_branch <= later.else_branch
    }

    /// No counter of `later` is more than `n` above that of `self`.
    pub open spec fn within(self, later: Names, n: int) -> bool {
        &&& later.temp <= self.temp + n
        &&& later.loop_begin <= self.loop_begin + n
        &&& later.loop_end <= self.loop_end + n
        &&& later.if_true <= self.if_true + n
        &&& later.end_if <= self.end_if + n
        &&& later.else_branch <= self.else_branch + n
    }
}

impl Counters {
    /// Counters from which no name has been made.
    pub fn new() -> (counters: Counters)
        ensures
            counters@ == Names::fresh(),
    {
        Counters { temp: 0, loop_begin: 0, loop_end: 0, if_true: 0, end_if: 0, else_branch: 0 }
    }

    /// Each counter can still be raised `n` times.
    pub open spec fn room(&self, n: int) -> bool {
        &&& self.temp + n <= u64::MAX
        &&& self.loop_begin + n <= u64::MAX
        &&& self.loop_end + n <= u64::MAX
        &&& self.if_true + n <= u64::MAX
        &&& self.end_if + n <= u64::MAX
        &&& self.else_branch + n <= u64::MAX
    }
}

/// A string that holds `prefix` followed by the decimal numeral of `n`.
fn numbered(prefix: &str, n: u64) -> (name: String)
    ensures
        name@ == prefix@ + decimal(n as nat),
{
    let mut name = String::from_str(prefix);
    push_decimal(&mut name, n);
    name
}

/// Makes the name of the next temporary.
pub fn create_temp(counters: &mut Counters) -> (name: String)
    requires
        old(counters).temp < u64::MAX,
    ensures
        final(counters)@ == (Names { temp: old(counters)@.temp + 1, ..old(counters)@ }),
        name@ == operand_text(Operand::Temporary(final(counters)@.temp)),
{
    counters.temp = counters.temp + 1;
    numbered("_temp", counters.temp)
}

/// Makes the name of the label at which the next loop begins.
pub fn create_whileloopbegin_label(counters: &mut Counters) -> (name: String)
    requires
        old(counters).loop_begin < u64::MAX,
    ensures
        final(counters)@ == (Names {
            loop_begin: old(counters)@.loop_begin + 1,
            ..old(counters)@
        }),
        name@ == label_text(Label::LoopBegin(final(counters)@.loop_begin)),
{
    counters.loop_begin = counters.loop_begin + 1;
    numbered("loopbegin", counters.loop_begin)
}

/// Makes the name of the label behind the next loop.
pub fn create_whileloopend_label(counters: &mut Counters) -> (name: String)
    requires
        old(counters).loop_end < u64::MAX,
    ensures
        final(counters)@ == (Names { loop_end: old(counters)@.loop_end + 1, ..old(counters)@ }),
        name@ == label_text(Label::LoopEnd(final(counters)@.loop_end)),
{
    counters.loop_end = counters.loop_end + 1;
    numbered("endloop_", counters.loop_end)
}

/// Makes the name of the label of the next conditional's first branch.
pub fn create_iftrue_label(counters: &mut Counters) -> (name: String)
    requires
        old(counters).if_true < u64::MAX,
    ensures
        final(counters)@ == (Names { if_true: old(counters)@.if_true + 1, ..old(counters)@ }),
        name@ == label_text(Label::IfTrue(final(counters)@.if_true)),
{
    counters.if_true = counters.if_true + 1;
    numbered("iftrue", counters.if_true)
}

/// Makes the name of the label behind the next conditional.
pub fn create_endif_label(counters: &mut Counters) -> (name: String)
    requires
        old(counters).end_if < u64::MAX,
    ensures
        final(counters)@ == (Names { end_if: old(counters)@.end_if + 1, ..old(counters)@ }),
        name@ == label_text(Label::EndIf(final(counters)@.end_if)),
{
    counters.end_if = counters.end_if + 1;
    numbered("endif", counters.end_if)
}

/// Makes the name of the label of the next conditional's second branch.
pub fn create_else_label(counters: &mut Counters) -> (name: String)
    requires
        old(counters).else_branch < u64::MAX,
    ensures
        final(counters)@ == (Names {
            else_branch: old(counters)@.else_branch + 1,
            ..old(counters)@
        }),
        name@ == label_text(Label::Else(final(counters)@.else_branch)),
{
    counters.else_branch = counters.else_branch + 1;
    numbered("else", counters.else_branch)
}

/// The value of an expression: the code that computes it and the operand
/// that holds it afterwards.
#[derive(Clone, Debug)]
pub struct Expression {
    pub code: String,
    pub name: String,
}

/// An [`Expression`] in specifications: instructions and an operand.
pub struct ExprView {
    pub code: Seq<Instr>,
    pub name: Operand,
}

impl Expression {
    /// The code of `self` is the text of `view.code`, and its name is the
    /// text of `view.name`.
    pub open spec fn represents(&self, view: ExprView) -> bool {
        &&& self.code@ == render(view.code)
        &&& self.name@ == operand_text(view.name)
    }
}

/// Appends a line with one operand to `code`.
pub fn emit1(code: &mut String, opcode: &str, a: &str)
    ensures
        final(code)@ == old(code)@ + line1(opcode@, a@),
{
    code.append(opcode);
    code.append(" ");
    code.append(a);
    code.append("\n");
    assert(code@ =~= old(code)@ + line1(opcode@, a@));
}

/// Appends a line with two operands to `code`.
pub fn emit2(code: &mut String, opcode: &str, a: &str, b: &str)
    ensures
        final(code)@ == old(code)@ + line2(opcode@, a@, b@),
{
    code.append(opcode);
    code.append(" ");
    code.append(a);
    code.append(", ");
    code.append(b);
    code.append("\n");
    assert(code@ =~= old(code)@ + line2(opcode@, a@, b@));
}

/// Appends a line with three operands to `code`.
pub fn emit3(code: &mut String, opcode: &str, a: &str, b: &str, c: &str)
    ensures
        final(code)@ == old(code)@ + line3(opcode@, a@, b@, c@),
{
    code.append(opcode);
    code.append(" ");
    code.append(a);
    code.append(", ");
    code.append(b);
    code.append(", ");
    code.append(c);
    code.append("\n");
    assert(code@ =~= old(code)@ + line3(opcode@, a@, b@, c@));
}

/// Appends the line that defines the label `label` to `code`.
pub fn emit_mark(code: &mut String, label: &str)
    ensures
        final(code)@ == old(code)@ + (target_text(label@) + "\n"@),
{
    code.append(":");
    code.append(label);
    code.append("\n");
    assert(code@ =~= old(code)@ + (target_text(label@) + "\n"@));
}

/// The label `label` as the target of a jump.
pub fn target(label: &str) -> (text: String)
    ensures
        text@ == target_text(label@),
{
    let mut text = String::from_str(":");
    text.append(label);
    text
}

/// The element `index` of `array` as an operand.
pub fn element(array: &str, index: &str) -> (text: String)
    ensures
        text@ == element_text(array@, index@),
{
    let mut text = String::from_str("[");
    text.append(array);
    text.append(" + ");
    text.append(index);
    text.append("]");
    assert(text@ =~= element_text(array@, index@));
    text
}

/// The views of the strings of a vector, in order.
pub open spec fn string_views(strings: Seq<String>) -> Seq<Seq<char>> {
    Seq::new(strings.len(), |i: int| strings[i]@)
}

/// Appends the strings `items` to `out`, each but the first with `prefix`
/// and `separator` in front of it, and the first with `prefix` only.
fn push_separated(out: &mut String, items: &Vec<String>, prefix: &str, separator: &str)
    ensures
        final(out)@ == old(out)@ + separated(
            Seq::new(items@.len(), |i: int| prefix@ + items@[i]@),
            separator@,
        ),
{
    let ghost texts = Seq::new(items@.len(), |i: int| prefix@ + items@[i]@);
    let mut i: usize = 0;
    assert(texts.take(0) =~= Seq::<Seq<char>>::empty());
    assert(old(out)@ + separated(texts.take(0), separator@) =~= old(out)@);
    while i < items.len()
        invariant
            i <= items.len(),
            texts == Seq::new(items@.len(), |i: int| prefix@ + items@[i]@),
            out@ == old(out)@ + separated(texts.take(i as int), separator@),
        decreases items.len() - i,
    {
        let ghost before = texts.take(i as int);
        let ghost after = texts.take(i + 1);
        proof {
            assert(after.drop_last() =~= before);
            assert(after.last() == prefix@ + items@[i as int]@);
        }
        if i > 0 {
            out.append(separator);
        }
        out.append(prefix);
        out.append(items[i].as_str());
        proof {
            if i == 0 {
                assert(before.len() == 0);
                assert(separated(after, separator@) == after[0]);
                assert(out@ =~= old(out)@ + separated(after, separator@));
            } else {
                assert(separated(after, separator@) == separated(before, separator@)
                    + separator@ + after.last());
                assert(out@ =~= old(out)@ + separated(after, separator@));
            }
        }
        i += 1;
    }
    assert(texts.take(items@.len() as int) =~= texts);
}

/// A function's name with its parameter list behind it.
pub fn signature(name: &str, params: &Vec<String>) -> (text: String)
    ensures
        text@ == signature_text(name@, string_views(params@)),
{
    let mut text = String::from_str(name);
    if params.len() > 0 {
        text.append("(");
        push_separated(&mut text, params, "%int ", ", ");
        text.append(")");
        assert(Seq::new(params@.len(), |i: int| "%int "@ + params@[i]@) =~= parameter_texts(
            string_views(params@),
        ));
        assert(text@ =~= signature_text(name@, string_views(params@)));
    }
    text
}

/// A call of `function` with the arguments `args`.
pub fn call(function: &str, args: &Vec<String>) -> (text: String)
    ensures
        text@ == call_text(function@, string_views(args@)),
{
    let mut text = String::from_str(function);
    text.append("(");
    push_separated(&mut text, args, "", ",");
    text.append(")");
    proof {
        reveal_strlit("");
        assert forall|i: int| 0 <= i < args@.len() implies ""@ + #[trigger] args@[i]@
            == args@[i]@ by {
            assert(""@ + args@[i]@ =~= args@[i]@);
        }
        assert(Seq::new(args@.len(), |i: int| ""@ + args@[i]@) =~= string_views(args@));
        assert(text@ =~= call_text(function@, string_views(args@)));
    }
    text
}

} // verus!
