//! The semantic analyzer: one pass over the text of the intermediate
//! representation, line by line, that builds a symbol table and checks every
//! name against it.
//!
//! A symbol is known under a key, its name and its scope with `|` between
//! them. A function is known in the scope `main`; a parameter or a variable
//! is known in the scope of the function whose line `%func` came last. The
//! functions and the variables are held apart, so that the variables of the
//! function `main` do not meet the functions.

use crate::text::{
    behind_first_line, from_chars, integer_value, is_whitespace, lemma_line_length_bound,
    lemma_line_length_is, lemma_symbol_run_bound, lemma_symbol_run_is, line_length, parse_integer,
    push_chars, spells, starts_with, symbol_run, to_chars, whitespace,
};
use vstd::hash_map::StringHashMap;
use vstd::prelude::*;
use vstd::slice::{slice_subrange, slice_to_vec};

verus! {

/// What a name stands for.
#[derive(Clone, Copy, Debug, PartialEq, Eq, Structural)]
pub enum DataType {
    Array,
    Int,
    Function,
}

impl DataType {
    /// How the type is called in messages.
    pub open spec fn name_text(self) -> Seq<char> {
        match self {
            DataType::Array => "Int[]"@,
            DataType::Int => "Int"@,
            DataType::Function => "Function"@,
        }
    }

    /// How the type is called in messages.
    pub fn name(&self) -> (text: String)
        ensures
            text@ == self.name_text(),
    {
        match self {
            DataType::Array => String::from_str("Int[]"),
            DataType::Int => String::from_str("Int"),
            DataType::Function => String::from_str("Function"),
        }
    }
}

/// Why a program is rejected.
#[derive(Clone, Debug, PartialEq, Eq)]
pub enum SemanticError {
    /// A function of this name has been defined before.
    DuplicateFunction(String),
    /// The parameter, and the function that declares it twice.
    DuplicateParameter(String, String),
    /// The array whose size is not an integer greater than zero.
    NonPositiveArraySize(String),
    /// A variable of this name has been declared before in its function.
    DuplicateVariable(String),
    /// A function that is called but not known.
    UndefinedFunction(String),
    /// A variable that is used but not known.
    UndeclaredVariable(String),
    /// What is indexed but is not an array.
    ArrayExpectedForIndex(String),
    /// The array that is used as if it were a number.
    ScalarExpectedNotArray(String),
    /// No function is called `main`.
    MissingMain,
}

/// A [`SemanticError`] in specifications, with the names as sequences of
/// characters.
pub enum Fault {
    DuplicateFunction(Seq<char>),
    DuplicateParameter(Seq<char>, Seq<char>),
    NonPositiveArraySize(Seq<char>),
    DuplicateVariable(Seq<char>),
    UndefinedFunction(Seq<char>),
    UndeclaredVariable(Seq<char>),
    ArrayExpectedForIndex(Seq<char>),
    ScalarExpectedNotArray(Seq<char>),
    MissingMain,
}

impl View for SemanticError {
    type V = Fault;

    open spec fn view(&self) -> Fault {
        match self {
            SemanticError::DuplicateFunction(name) => Fault::DuplicateFunction(name@),
            SemanticError::DuplicateParameter(name, function) => Fault::DuplicateParameter(
                name@,
                function@,
            ),
            SemanticError::NonPositiveArraySize(name) => Fault::NonPositiveArraySize(name@),
            SemanticError::DuplicateVariable(name) => Fault::DuplicateVariable(name@),
            SemanticError::UndefinedFunction(name) => Fault::UndefinedFunction(name@),
            SemanticError::UndeclaredVariable(name) => Fault::UndeclaredVariable(name@),
            SemanticError::ArrayExpectedForIndex(name) => Fault::ArrayExpectedForIndex(name@),
            SemanticError::ScalarExpectedNotArray(name) => Fault::ScalarExpectedNotArray(name@),
            SemanticError::MissingMain => Fault::MissingMain,
        }
    }
}

/// The message that reports a fault.
pub open spec fn fault_text(fault: Fault) -> Seq<char> {
    match fault {
        Fault::DuplicateFunction(name) => "Error: Function "@ + name + " already defined."@,
        Fault::DuplicateParameter(name, function) => "Error: Duplicate parameter "@ + name
            + " declared in "@ + function + "."@,
        Fault::NonPositiveArraySize(name) => "Error: Array size of "@ + name
            + " must be greater than 0."@,
        Fault::DuplicateVariable(name) => "Error: Variable "@ + name + " already declared."@,
        Fault::UndefinedFunction(name) => "Error: Undefined function used: "@ + name,
        Fault::UndeclaredVariable(name) => "Error: Undeclared variable used: "@ + name,
        Fault::ArrayExpectedForIndex(name) => "Error: Type mismatch. '"@ + name
            + "' is not an array."@,
        Fault::ScalarExpectedNotArray(name) => "Error: Type mismatch. Used '"@ + name
            + "' as an integer."@,
        Fault::MissingMain => "Error: Main function not defined."@,
    }
}

/// The text `before`, `name` and `after` in a row.
fn framed(before: &str, name: &String, after: &str) -> (text: String)
    ensures
        text@ == before@ + name@ + after@,
{
    let mut text = String::from_str(before);
    text.append(name.as_str());
    text.append(after);
    text
}

impl SemanticError {
    /// The message that reports the error.
    pub fn message(&self) -> (text: String)
        ensures
            text@ == fault_text(self@),
    {
        match self {
            SemanticError::DuplicateFunction(name) => framed(
                "Error: Function ",
                name,
                " already defined.",
            ),
            SemanticError::DuplicateParameter(name, function) => {
                let mut text = framed("Error: Duplicate parameter ", name, " declared in ");
                text.append(function.as_str());
                text.append(".");
                text
            },
            SemanticError::NonPositiveArraySize(name) => framed(
                "Error: Array size of ",
                name,
                " must be greater than 0.",
            ),
            SemanticError::DuplicateVariable(name) => framed(
                "Error: Variable ",
                name,
                " already declared.",
            ),
            SemanticError::UndefinedFunction(name) => {
                let mut text = String::from_str("Error: Undefined function used: ");
                text.append(name.as_str());
                text
            },
            SemanticError::UndeclaredVariable(name) => {
                let mut text = String::from_str("Error: Undeclared variable used: ");
                text.append(name.as_str());
                text
            },
            SemanticError::ArrayExpectedForIndex(name) => framed(
                "Error: Type mismatch. '",
                name,
                "' is not an array.",
            ),
            SemanticError::ScalarExpectedNotArray(name) => framed(
                "Error: Type mismatch. Used '",
                name,
                "' as an integer.",
            ),
            SemanticError::MissingMain => String::from_str("Error: Main function not defined."),
        }
    }
}

/// The key under which `name` is known in `scope`.
pub open spec fn key(name: Seq<char>, scope: Seq<char>) -> Seq<char> {
    name + seq!['|'] + scope
}

/// What the analyzer knows after some lines: the functions and the
/// variables, each by their keys, the function whose line `%func` came last,
/// and whether one was `main`. Functions and variables are apart: a variable
/// of the function `main` may have the name of a function.
pub struct Symbols {
    pub functions: Map<Seq<char>, DataType>,
    pub table: Map<Seq<char>, DataType>,
    pub scope: Seq<char>,
    pub main_seen: bool,
}

impl Symbols {
    /// Nothing is known and no function has begun.
    pub open spec fn initial() -> Symbols {
        Symbols {
            functions: Map::empty(),
            table: Map::empty(),
            scope: Seq::empty(),
            main_seen: false,
        }
    }

    /// `name` is a variable of the current scope.
    pub open spec fn knows(self, name: Seq<char>) -> bool {
        self.table.contains_key(key(name, self.scope))
    }

    /// `name` is a function. Functions are known in the scope `main`,
    /// whatever the current scope.
    pub open spec fn has_function(self, name: Seq<char>) -> bool {
        self.functions.contains_key(key(name, "main"@))
    }

    /// `name` is an array of the current scope.
    pub open spec fn is_array(self, name: Seq<char>) -> bool {
        self.knows(name) && self.table[key(name, self.scope)] == DataType::Array
    }

    /// The symbols with the variable `name` declared as `kind` in the
    /// current scope.
    pub open spec fn declare(self, name: Seq<char>, kind: DataType) -> Symbols {
        Symbols { table: self.table.insert(key(name, self.scope), kind), ..self }
    }

    /// The symbols at the beginning of the function `name`: the function is
    /// known, and the current scope is the function.
    pub open spec fn enter(self, name: Seq<char>) -> Symbols {
        Symbols {
            functions: self.functions.insert(key(name, "main"@), DataType::Function),
            table: self.table,
            scope: name,
            main_seen: self.main_seen || name == "main"@,
        }
    }

    /// The word `w` of a statement resolves: as a function if it ends in
    /// the parenthesis of a call, and as a variable of the current scope if
    /// not.
    pub open spec fn resolves(self, w: Seq<char>) -> bool {
        if w.len() > 0 && w.last() == '(' {
            self.has_function(callee(w))
        } else {
            self.knows(w)
        }
    }
}

/// How the characters of a line are rewritten before it is split into words.
#[derive(Clone, Copy, Debug, PartialEq, Eq, Structural)]
pub enum Form {
    /// The line of a function: commas and opening parentheses count as
    /// blanks, and a closing parenthesis is a word of its own.
    Signature,
    /// The line of a declaration: commas count as blanks.
    Declaration,
    /// Any other line: commas count as blanks, brackets and closing
    /// parentheses are dropped, and an opening parenthesis ends its word.
    Statement,
}

/// What the character `c` becomes in a line of the form `form`.
pub open spec fn rewritten(form: Form, c: char) -> Seq<char> {
    if c == ',' {
        seq![' ']
    } else {
        match form {
            Form::Signature => if c == ')' {
                seq![' ', ')']
            } else if c == '(' {
                seq![' ']
            } else {
                seq![c]
            },
            Form::Declaration => seq![c],
            Form::Statement => if c == '[' || c == ']' || c == ')' {
                Seq::empty()
            } else if c == '(' {
                seq!['(', ' ']
            } else {
                seq![c]
            },
        }
    }
}

/// The line `line` with each character rewritten for the form `form`.
pub open spec fn normalized(line: Seq<char>, form: Form) -> Seq<char>
    decreases line.len(),
{
    if line.len() == 0 {
        Seq::empty()
    } else {
        normalized(line.drop_last(), form) + rewritten(form, line.last())
    }
}

/// The words of a line: its maximal runs of characters that are not
/// whitespace.
pub open spec fn words(line: Seq<char>) -> Seq<Seq<char>>
    decreases line.len(),
{
    if line.len() == 0 {
        Seq::empty()
    } else if whitespace(line[0]) {
        words(line.skip(1))
    } else {
        proof {
            lemma_symbol_run_bound(line);
        }
        seq![line.take(symbol_run(line) as int)] + words(line.skip(symbol_run(line) as int))
    }
}

/// `line` begins with `prefix`.
pub open spec fn begins_with(line: Seq<char>, prefix: Seq<char>) -> bool {
    prefix.len() <= line.len() && line.take(prefix.len() as int) == prefix
}

/// The parameters among the words of a function's line, from the word
/// `from` on, declared one after the other. The word `%int` is passed over,
/// and the word `)` ends the list.
pub open spec fn declare_parameters(symbols: Symbols, ws: Seq<Seq<char>>, from: int) -> Result<
    Symbols,
    Fault,
>
    decreases ws.len() - from,
{
    if from < 0 || from >= ws.len() || ws[from] == ")"@ {
        Ok(symbols)
    } else if ws[from] == "%int"@ {
        declare_parameters(symbols, ws, from + 1)
    } else if symbols.knows(ws[from]) {
        Err(Fault::DuplicateParameter(ws[from], symbols.scope))
    } else {
        declare_parameters(symbols.declare(ws[from], DataType::Int), ws, from + 1)
    }
}

/// The line of a function, by its words: the function, which must be new,
/// becomes known in the scope `main`, the current scope becomes the
/// function, and its parameters are declared in it. A line without a name
/// declares nothing.
pub open spec fn declare_function(symbols: Symbols, ws: Seq<Seq<char>>) -> Result<Symbols, Fault> {
    if ws.len() < 2 {
        Ok(symbols)
    } else if symbols.has_function(ws[1]) {
        Err(Fault::DuplicateFunction(ws[1]))
    } else {
        declare_parameters(symbols.enter(ws[1]), ws, 2)
    }
}

/// The line of an array declaration, by its words: the size must be an
/// integer greater than zero and the name new in the current scope. A line
/// without a name declares nothing.
pub open spec fn declare_array(symbols: Symbols, ws: Seq<Seq<char>>) -> Result<Symbols, Fault> {
    if ws.len() < 2 {
        Ok(symbols)
    } else if !(ws.len() > 2 && integer_value(ws[2]) is Some && integer_value(ws[2])->0 > 0) {
        Err(Fault::NonPositiveArraySize(ws[1]))
    } else if symbols.knows(ws[1]) {
        Err(Fault::DuplicateVariable(ws[1]))
    } else {
        Ok(symbols.declare(ws[1], DataType::Array))
    }
}

/// The line of a scalar declaration, by its words: the name must be new in
/// the current scope. A line without a name declares nothing.
pub open spec fn declare_scalar(symbols: Symbols, ws: Seq<Seq<char>>) -> Result<Symbols, Fault> {
    if ws.len() < 2 {
        Ok(symbols)
    } else if symbols.knows(ws[1]) {
        Err(Fault::DuplicateVariable(ws[1]))
    } else {
        Ok(symbols.declare(ws[1], DataType::Int))
    }
}

/// The name that a word stands for: the word without the opening
/// parenthesis that marks it as a call.
pub open spec fn callee(w: Seq<char>) -> Seq<char> {
    if w.len() > 0 && w.last() == '(' {
        w.drop_last()
    } else {
        w
    }
}

/// One word of a statement, behind the word `last`, which was an array if
/// `after_array` says so. The word must resolve, or be a number or a `+`.
/// A `+` must stand behind an array, and nothing else may. Gives whether the
/// word is an array.
pub open spec fn check_word(symbols: Symbols, w: Seq<char>, last: Seq<char>, after_array: bool)
    -> Result<bool, Fault> {
    if !symbols.resolves(w) && integer_value(w) is None && w[0] != '+' {
        if w.last() == '(' {
            Err(Fault::UndefinedFunction(callee(w)))
        } else {
            Err(Fault::UndeclaredVariable(w))
        }
    } else if w == "+"@ {
        if after_array {
            Ok(symbols.is_array(w))
        } else {
            Err(Fault::ArrayExpectedForIndex(last))
        }
    } else if after_array {
        Err(Fault::ScalarExpectedNotArray(last))
    } else {
        Ok(symbols.is_array(w))
    }
}

/// The words of a statement from the word `from` on. Opcodes and labels,
/// which begin with `%` and `:`, are passed over.
pub open spec fn check_words(
    symbols: Symbols,
    ws: Seq<Seq<char>>,
    from: int,
    last: Seq<char>,
    after_array: bool,
) -> Result<(), Fault>
    decreases ws.len() - from,
{
    if from < 0 || from >= ws.len() {
        Ok(())
    } else if ws[from].len() == 0 || ws[from][0] == '%' || ws[from][0] == ':' {
        check_words(symbols, ws, from + 1, last, after_array)
    } else {
        match check_word(symbols, ws[from], last, after_array) {
            Err(fault) => Err(fault),
            Ok(is_array) => check_words(symbols, ws, from + 1, ws[from], is_array),
        }
    }
}

/// One line: a declaration changes what is known, any other line is checked
/// against it.
pub open spec fn check_line(symbols: Symbols, line: Seq<char>) -> Result<Symbols, Fault> {
    if begins_with(line, "%func"@) {
        declare_function(symbols, words(normalized(line, Form::Signature)))
    } else if begins_with(line, "%int[]"@) {
        declare_array(symbols, words(normalized(line, Form::Declaration)))
    } else if begins_with(line, "%int"@) {
        declare_scalar(symbols, words(normalized(line, Form::Declaration)))
    } else {
        match check_words(
            symbols,
            words(normalized(line, Form::Statement)),
            0,
            Seq::empty(),
            false,
        ) {
            Err(fault) => Err(fault),
            Ok(_) => Ok(symbols),
        }
    }
}

/// The lines of `text`, one after the other, from what is known in
/// `symbols`; at the end a function `main` must have been seen.
pub open spec fn check_text(symbols: Symbols, text: Seq<char>) -> Result<(), Fault>
    decreases text.len(),
{
    if text.len() == 0 {
        if symbols.main_seen {
            Ok(())
        } else {
            Err(Fault::MissingMain)
        }
    } else {
        proof {
            lemma_line_length_bound(text);
        }
        match check_line(symbols, text.take(line_length(text) as int)) {
            Err(fault) => Err(fault),
            Ok(next) => check_text(next, behind_first_line(text)),
        }
    }
}

/// The verdict on a program in the intermediate representation.
pub open spec fn verdict(text: Seq<char>) -> Result<(), Fault> {
    check_text(Symbols::initial(), text)
}

/// The state of the analyzer between two lines.
pub struct Analyzer {
    pub functions: StringHashMap<DataType>,
    pub variables: StringHashMap<DataType>,
    pub scope: Vec<char>,
    pub main_seen: bool,
}

impl View for Analyzer {
    type V = Symbols;

    open spec fn view(&self) -> Symbols {
        Symbols {
            functions: self.functions@,
            table: self.variables@,
            scope: self.scope@,
            main_seen: self.main_seen,
        }
    }
}

/// The views of the words of a vector, in order.
pub open spec fn word_views(ws: Seq<Vec<char>>) -> Seq<Seq<char>> {
    Seq::new(ws.len(), |i: int| ws[i]@)
}

/// The key under which `name` is known in `scope`.
pub fn make_key(name: &[char], scope: &[char]) -> (k: String)
    ensures
        k@ == key(name@, scope@),
{
    let mut k = String::new();
    push_chars(&mut k, name);
    k.push('|');
    push_chars(&mut k, scope);
    assert(k@ =~= key(name@, scope@));
    k
}

impl Analyzer {
    /// An analyzer that knows nothing.
    pub fn new() -> (analyzer: Analyzer)
        ensures
            analyzer@ == Symbols::initial(),
    {
        Analyzer {
            functions: StringHashMap::new(),
            variables: StringHashMap::new(),
            scope: Vec::new(),
            main_seen: false,
        }
    }

    /// What the variable `name` stands for in `scope`, if it is known
    /// there.
    pub fn lookup(&self, name: &[char], scope: &[char]) -> (r: Option<DataType>)
        ensures
            r == if self@.table.contains_key(key(name@, scope@)) {
                Some(self@.table[key(name@, scope@)])
            } else {
                None
            },
    {
        let k = make_key(name, scope);
        match self.variables.get(k.as_str()) {
            Some(kind) => Some(*kind),
            None => None,
        }
    }

    /// Whether `name` is a variable of the current scope.
    pub fn knows(&self, name: &[char]) -> (r: bool)
        ensures
            r == self@.knows(name@),
    {
        let k = make_key(name, self.scope.as_slice());
        self.variables.contains_key(k.as_str())
    }

    /// Whether `name` is a function.
    pub fn has_function(&self, name: &[char]) -> (r: bool)
        ensures
            r == self@.has_function(name@),
    {
        let main = to_chars("main");
        let k = make_key(name, main.as_slice());
        self.functions.contains_key(k.as_str())
    }

    /// Makes the variable `name` known as `kind` in the current scope.
    pub fn declare(&mut self, name: &[char], kind: DataType)
        ensures
            final(self)@ == old(self)@.declare(name@, kind),
    {
        let k = make_key(name, self.scope.as_slice());
        self.variables.insert(k, kind);
    }

    /// Begins the function `name`: makes the function known and the
    /// current scope the function.
    pub fn enter(&mut self, name: &[char])
        ensures
            final(self)@ == old(self)@.enter(name@),
    {
        let main = to_chars("main");
        let k = make_key(name, main.as_slice());
        self.functions.insert(k, DataType::Function);
        self.scope = slice_to_vec(name);
        if spells(name, "main") {
            self.main_seen = true;
        }
    }

    /// Whether `name` is an array of the current scope.
    pub fn is_array(&self, name: &[char]) -> (r: bool)
        ensures
            r == self@.is_array(name@),
    {
        match self.lookup(name, self.scope.as_slice()) {
            Some(kind) => kind == DataType::Array,
            None => false,
        }
    }
}

/// Splits `text` behind its first line: gives the line, without the newline
/// that ends it, and what follows the newline.
pub fn split_line(text: &[char]) -> (r: (&[char], &[char]))
    ensures
        r.0@ == text@.take(line_length(text@) as int),
        r.1@ == behind_first_line(text@),
{
    let len = text.len();
    let mut end: usize = 0;
    while end < len && text[end] != '\n'
        invariant
            end <= len,
            len == text@.len(),
            forall|j: int| 0 <= j < end ==> #[trigger] text@[j] != '\n',
        decreases len - end,
    {
        end += 1;
    }
    proof {
        lemma_line_length_is(text@, end as int);
    }
    let behind: usize = if end < len {
        end + 1
    } else {
        end
    };
    let line = slice_subrange(text, 0, end);
    let rest = slice_subrange(text, behind, len);
    assert(text@.subrange(0, end as int) =~= text@.take(end as int));
    assert(text@.subrange(behind as int, len as int) =~= text@.skip(behind as int));
    (line, rest)
}

/// Rewrites the characters of `line` for the form `form`.
pub fn normalize(line: &[char], form: Form) -> (out: Vec<char>)
    ensures
        out@ == normalized(line@, form),
{
    let mut out: Vec<char> = Vec::new();
    let mut i: usize = 0;
    while i < line.len()
        invariant
            i <= line.len(),
            out@ == normalized(line@.take(i as int), form),
        decreases line.len() - i,
    {
        let c = line[i];
        proof {
            let next = line@.take(i + 1);
            assert(next.drop_last() =~= line@.take(i as int));
            assert(next.last() == c);
        }
        let ghost before = out@;
        if c == ',' {
            out.push(' ');
        } else {
            match form {
                Form::Signature => {
                    if c == ')' {
                        out.push(' ');
                        out.push(')');
                    } else if c == '(' {
                        out.push(' ');
                    } else {
                        out.push(c);
                    }
                },
                Form::Declaration => {
                    out.push(c);
                },
                Form::Statement => {
                    if c == '[' || c == ']' || c == ')' {
                    } else if c == '(' {
                        out.push('(');
                        out.push(' ');
                    } else {
                        out.push(c);
                    }
                },
            }
        }
        assert(out@ =~= before + rewritten(form, c));
        i += 1;
    }
    assert(line@.take(line@.len() as int) =~= line@);
    out
}

/// The tokens `before`, followed by the words of what is left of a line.
proof fn lemma_words_step(line: Seq<char>, start: int, end: int)
    requires
        0 <= start < end <= line.len(),
        forall|j: int| start <= j < end ==> !whitespace(#[trigger] line[j]),
        end == line.len() || whitespace(line[end]),
    ensures
        words(line.skip(start)) == seq![line.subrange(start, end)] + words(line.skip(end)),
{
    let rest = line.skip(start);
    assert forall|j: int| 0 <= j < end - start implies !whitespace(#[trigger] rest[j]) by {
        assert(rest[j] == line[start + j]);
    }
    lemma_symbol_run_is(rest, end - start);
    assert(rest.take(end - start) =~= line.subrange(start, end));
    assert(rest.skip(end - start) =~= line.skip(end));
}

/// Splits a line into its words.
pub fn split_words(line: &[char]) -> (out: Vec<Vec<char>>)
    ensures
        word_views(out@) == words(line@),
{
    let len = line.len();
    let mut out: Vec<Vec<char>> = Vec::new();
    let mut i: usize = 0;
    assert(line@.skip(0) =~= line@);
    assert(word_views(out@) + words(line@) =~= words(line@));
    while i < len
        invariant
            i <= len,
            len == line@.len(),
            word_views(out@) + words(line@.skip(i as int)) == words(line@),
        decreases len - i,
    {
        if is_whitespace(line[i]) {
            assert(line@.skip(i as int).skip(1) =~= line@.skip(i + 1));
            i += 1;
        } else {
            let start = i;
            while i < len && !is_whitespace(line[i])
                invariant
                    start <= i <= len,
                    start < len,
                    len == line@.len(),
                    !whitespace(line@[start as int]),
                    forall|j: int| start <= j < i ==> !whitespace(#[trigger] line@[j]),
                decreases len - i,
            {
                i += 1;
            }
            let word = slice_to_vec(slice_subrange(line, start, i));
            proof {
                lemma_words_step(line@, start as int, i as int);
                assert(word_views(out@.push(word)) =~= word_views(out@) + seq![word@]);
                assert(word_views(out@.push(word)) + words(line@.skip(i as int)) =~= word_views(
                    out@,
                ) + (seq![word@] + words(line@.skip(i as int))));
            }
            out.push(word);
        }
    }
    assert(words(line@.skip(len as int)) =~= Seq::<Seq<char>>::empty());
    assert(word_views(out@) + Seq::<Seq<char>>::empty() =~= word_views(out@));
    out
}

/// Declares the parameters among the words of a function's line.
pub fn declare_parameters_of(analyzer: &mut Analyzer, ws: &Vec<Vec<char>>) -> (r: Result<
    (),
    SemanticError,
>)
    ensures
        match declare_parameters(old(analyzer)@, word_views(ws@), 2) {
            Ok(symbols) => r is Ok && final(analyzer)@ == symbols,
            Err(fault) => r is Err && r->Err_0@ == fault,
        },
{
    let ghost views = word_views(ws@);
    let mut i: usize = 2;
    while i < ws.len()
        invariant
            2 <= i,
            views == word_views(ws@),
            declare_parameters(analyzer@, views, i as int) == declare_parameters(
                old(analyzer)@,
                views,
                2,
            ),
        decreases ws.len() - i,
    {
        let w = ws[i].as_slice();
        assert(views[i as int] == w@);
        if spells(w, ")") {
            return Ok(());
        }
        if !spells(w, "%int") {
            if analyzer.knows(w) {
                return Err(
                    SemanticError::DuplicateParameter(
                        from_chars(w),
                        from_chars(analyzer.scope.as_slice()),
                    ),
                );
            }
            analyzer.declare(w, DataType::Int);
        }
        i += 1;
    }
    Ok(())
}

/// Takes in the line of a function, by its words.
pub fn declare_function_line(analyzer: &mut Analyzer, ws: &Vec<Vec<char>>) -> (r: Result<
    (),
    SemanticError,
>)
    ensures
        match declare_function(old(analyzer)@, word_views(ws@)) {
            Ok(symbols) => r is Ok && final(analyzer)@ == symbols,
            Err(fault) => r is Err && r->Err_0@ == fault,
        },
{
    if ws.len() < 2 {
        return Ok(());
    }
    let name = ws[1].as_slice();
    assert(word_views(ws@)[1] == name@);
    if analyzer.has_function(name) {
        return Err(SemanticError::DuplicateFunction(from_chars(name)));
    }
    analyzer.enter(name);
    declare_parameters_of(analyzer, ws)
}

/// Takes in the line of an array declaration, by its words.
pub fn declare_array_line(analyzer: &mut Analyzer, ws: &Vec<Vec<char>>) -> (r: Result<
    (),
    SemanticError,
>)
    ensures
        match declare_array(old(analyzer)@, word_views(ws@)) {
            Ok(symbols) => r is Ok && final(analyzer)@ == symbols,
            Err(fault) => r is Err && r->Err_0@ == fault,
        },
{
    if ws.len() < 2 {
        return Ok(());
    }
    let name = ws[1].as_slice();
    assert(word_views(ws@)[1] == name@);
    let positive = if ws.len() > 2 {
        assert(word_views(ws@)[2] == ws@[2]@);
        match parse_integer(ws[2].as_slice()) {
            Some(size) => size > 0,
            None => false,
        }
    } else {
        false
    };
    if !positive {
        return Err(SemanticError::NonPositiveArraySize(from_chars(name)));
    }
    if analyzer.knows(name) {
        return Err(SemanticError::DuplicateVariable(from_chars(name)));
    }
    analyzer.declare(name, DataType::Array);
    Ok(())
}

/// Takes in the line of a scalar declaration, by its words.
pub fn declare_scalar_line(analyzer: &mut Analyzer, ws: &Vec<Vec<char>>) -> (r: Result<
    (),
    SemanticError,
>)
    ensures
        match declare_scalar(old(analyzer)@, word_views(ws@)) {
            Ok(symbols) => r is Ok && final(analyzer)@ == symbols,
            Err(fault) => r is Err && r->Err_0@ == fault,
        },
{
    if ws.len() < 2 {
        return Ok(());
    }
    let name = ws[1].as_slice();
    assert(word_views(ws@)[1] == name@);
    if analyzer.knows(name) {
        return Err(SemanticError::DuplicateVariable(from_chars(name)));
    }
    analyzer.declare(name, DataType::Int);
    Ok(())
}

/// Checks one word of a statement, behind the word `last`, which was an
/// array if `after_array` says so. Gives whether the word is an array.
fn check_statement_word(analyzer: &Analyzer, w: &[char], last: &[char], after_array: bool) -> (r:
    Result<bool, SemanticError>)
    requires
        w@.len() > 0,
    ensures
        match check_word(analyzer@, w@, last@, after_array) {
            Ok(is_array) => r == Ok::<bool, SemanticError>(is_array),
            Err(fault) => r is Err && r->Err_0@ == fault,
        },
{
    let calls = w[w.len() - 1] == '(';
    let name = if calls {
        slice_subrange(w, 0, w.len() - 1)
    } else {
        w
    };
    assert(name@ =~= callee(w@));
    let resolved = if calls {
        analyzer.has_function(name)
    } else {
        analyzer.knows(w)
    };
    if !resolved && parse_integer(w).is_none() && w[0] != '+' {
        if calls {
            return Err(SemanticError::UndefinedFunction(from_chars(name)));
        } else {
            return Err(SemanticError::UndeclaredVariable(from_chars(w)));
        }
    }
    if spells(w, "+") {
        if !after_array {
            return Err(SemanticError::ArrayExpectedForIndex(from_chars(last)));
        }
    } else if after_array {
        return Err(SemanticError::ScalarExpectedNotArray(from_chars(last)));
    }
    Ok(analyzer.is_array(w))
}

/// Checks the words of a statement against what is known.
pub fn check_statement_line(analyzer: &Analyzer, ws: &Vec<Vec<char>>) -> (r: Result<
    (),
    SemanticError,
>)
    ensures
        match check_words(analyzer@, word_views(ws@), 0, Seq::empty(), false) {
            Ok(_) => r is Ok,
            Err(fault) => r is Err && r->Err_0@ == fault,
        },
{
    let ghost views = word_views(ws@);
    let mut i: usize = 0;
    let mut last: usize = 0;
    let mut some_last = false;
    let mut after_array = false;
    let nothing: Vec<char> = Vec::new();
    while i < ws.len()
        invariant
            views == word_views(ws@),
            nothing@ == Seq::<char>::empty(),
            some_last ==> last < ws.len(),
            check_words(
                analyzer@,
                views,
                i as int,
                if some_last {
                    ws@[last as int]@
                } else {
                    Seq::empty()
                },
                after_array,
            ) == check_words(analyzer@, views, 0, Seq::empty(), false),
        decreases ws.len() - i,
    {
        let w = ws[i].as_slice();
        assert(views[i as int] == w@);
        if w.len() > 0 && w[0] != '%' && w[0] != ':' {
            let previous = if some_last {
                ws[last].as_slice()
            } else {
                nothing.as_slice()
            };
            match check_statement_word(analyzer, w, previous, after_array) {
                Err(error) => {
                    return Err(error);
                },
                Ok(is_array) => {
                    after_array = is_array;
                    last = i;
                    some_last = true;
                },
            }
        }
        i += 1;
    }
    Ok(())
}

/// Takes in one line: a declaration changes what the analyzer knows, any
/// other line is checked against it.
pub fn analyze_line(analyzer: &mut Analyzer, line: &[char]) -> (r: Result<(), SemanticError>)
    ensures
        match check_line(old(analyzer)@, line@) {
            Ok(symbols) => r is Ok && final(analyzer)@ == symbols,
            Err(fault) => r is Err && r->Err_0@ == fault,
        },
{
    if starts_with(line, "%func") {
        let ws = split_words(normalize(line, Form::Signature).as_slice());
        declare_function_line(analyzer, &ws)
    } else if starts_with(line, "%int[]") {
        let ws = split_words(normalize(line, Form::Declaration).as_slice());
        declare_array_line(analyzer, &ws)
    } else if starts_with(line, "%int") {
        let ws = split_words(normalize(line, Form::Declaration).as_slice());
        declare_scalar_line(analyzer, &ws)
    } else {
        let ws = split_words(normalize(line, Form::Statement).as_slice());
        check_statement_line(analyzer, &ws)
    }
}

/// Checks a program in the intermediate representation: every name that a
/// line uses must have been declared in the function that the line belongs
/// to, no name may be declared twice there, arrays and numbers must not be
/// taken for each other, and a function `main` must exist. Gives the first
/// fault found.
pub fn semantics_check(generated_code: String) -> (r: Result<(), SemanticError>)
    ensures
        match verdict(generated_code@) {
            Ok(_) => r is Ok,
            Err(fault) => r is Err && r->Err_0@ == fault,
        },
{
    let text = to_chars(generated_code.as_str());
    let mut analyzer = Analyzer::new();
    let mut rest: &[char] = text.as_slice();
    while rest.len() > 0
        invariant
            check_text(analyzer@, rest@) == verdict(generated_code@),
        decreases rest@.len(),
    {
        proof {
            lemma_line_length_bound(rest@);
        }
        let (line, behind) = split_line(rest);
        match analyze_line(&mut analyzer, line) {
            Err(error) => {
                return Err(error);
            },
            Ok(_) => {},
        }
        rest = behind;
    }
    if analyzer.main_seen {
        Ok(())
    } else {
        Err(SemanticError::MissingMain)
    }
}

/// The line is the line of a function called `main`.
pub open spec fn declares_main(line: Seq<char>) -> bool {
    let ws = words(normalized(line, Form::Signature));
    begins_with(line, "%func"@) && ws.len() >= 2 && ws[1] == "main"@
}

/// Some line of the text is the line of a function called `main`.
pub open spec fn defines_main(text: Seq<char>) -> bool
    decreases text.len(),
{
    if text.len() == 0 {
        false
    } else {
        proof {
            lemma_line_length_bound(text);
        }
        declares_main(text.take(line_length(text) as int)) || defines_main(
            behind_first_line(text),
        )
    }
}

/// Declaring parameters leaves alone whether `main` has been seen.
proof fn lemma_parameters_keep_main(symbols: Symbols, ws: Seq<Seq<char>>, from: int)
    ensures
        match declare_parameters(symbols, ws, from) {
            Ok(next) => next.main_seen == symbols.main_seen,
            Err(_) => true,
        },
    decreases ws.len() - from,
{
    if from < 0 || from >= ws.len() || ws[from] == ")"@ {
    } else if ws[from] == "%int"@ {
        lemma_parameters_keep_main(symbols, ws, from + 1);
    } else if !symbols.knows(ws[from]) {
        lemma_parameters_keep_main(symbols.declare(ws[from], DataType::Int), ws, from + 1);
    }
}

/// A text that the analyzer approves of, from what it knew before, either
/// follows a function `main` or defines one.
pub proof fn lemma_approved_text_has_main(symbols: Symbols, text: Seq<char>)
    requires
        check_text(symbols, text) is Ok,
    ensures
        symbols.main_seen || defines_main(text),
    decreases text.len(),
{
    if text.len() > 0 {
        lemma_line_length_bound(text);
        let line = text.take(line_length(text) as int);
        let next = check_line(symbols, line)->Ok_0;
        if begins_with(line, "%func"@) {
            let ws = words(normalized(line, Form::Signature));
            lemma_parameters_keep_main(symbols.enter(ws[1]), ws, 2);
        }
        lemma_approved_text_has_main(next, behind_first_line(text));
    }
}

/// A program without a function `main` is rejected, whatever else it
/// holds.
pub proof fn lemma_missing_main_fails(text: Seq<char>)
    requires
        !defines_main(text),
    ensures
        verdict(text) is Err,
{
    if verdict(text) is Ok {
        lemma_approved_text_has_main(Symbols::initial(), text);
    }
}

} // verus!
