use tac_compiler::semantics::{
    analyze_line, make_key, normalize, split_line, split_words, Analyzer, Form,
};
use tac_compiler::text::to_chars;
use tac_compiler::{compile, semantics_check, CompileError, DataType, SemanticError};

fn check(ir: &str) -> Result<(), SemanticError> {
    semantics_check(String::from(ir))
}

fn name(text: &str) -> String {
    String::from(text)
}

#[test]
fn minimal_main_is_approved() {
    let ir = compile("func main() { int x; x = 1 + 2; print(x); }").unwrap();
    assert_eq!(
        ir,
        "%func main\n%int x\n%int _temp1\n%add _temp1, 1, 2\n%mov x, _temp1\n%out x\n%endfunc\n\n"
    );
    assert_eq!(check(&ir), Ok(()));
}

#[test]
fn array_and_while_is_approved() {
    let ir = compile(
        "func main() { int[10] a; int i; i = 0; while i < 10 { a[i] = i; i = i + 1; } }",
    )
    .unwrap();
    assert!(ir.contains("%int[] a, 10\n"));
    assert!(ir.contains("\n:loopbegin1\n"));
    assert!(ir.contains("%branch_ifn _temp1, :endloop_1\n"));
    assert!(ir.contains("%mov [a + i], i\n"));
    assert!(ir.contains("%jmp :loopbegin1\n"));
    assert!(ir.contains("\n:endloop_1\n"));
    assert_eq!(check(&ir), Ok(()));
}

#[test]
fn missing_main() {
    let error = compile("func helper() { int x; }").unwrap_err();
    assert_eq!(error, CompileError::Semantic(SemanticError::MissingMain));
    assert_eq!(check("%func helper\n%int x\n%endfunc\n\n"), Err(SemanticError::MissingMain));
    assert_eq!(SemanticError::MissingMain.message(), "Error: Main function not defined.");
}

#[test]
fn duplicate_parameter() {
    let error = compile("func f(int x, int x) { int y; } func main() { }").unwrap_err();
    let expected = SemanticError::DuplicateParameter(name("x"), name("f"));
    assert_eq!(error, CompileError::Semantic(expected.clone()));
    assert_eq!(expected.message(), "Error: Duplicate parameter x declared in f.");
}

#[test]
fn scalar_used_as_array() {
    let error = compile("func main() { int a; int i; i = a[0]; }").unwrap_err();
    let expected = SemanticError::ArrayExpectedForIndex(name("a"));
    assert_eq!(error, CompileError::Semantic(expected.clone()));
    assert_eq!(expected.message(), "Error: Type mismatch. 'a' is not an array.");
}

#[test]
fn compile_reports_the_stage_that_fails() {
    assert_eq!(compile("func main() { $ }"), Err(CompileError::Lex(name("Unidentified symbol $"))));
    assert_eq!(
        compile("func main() { x = ; }"),
        Err(CompileError::Parse(name("invalid expression")))
    );
    assert_eq!(
        compile("func main() { x = 1; }"),
        Err(CompileError::Semantic(SemanticError::UndeclaredVariable(name("x"))))
    );
    assert_eq!(compile(""), Err(CompileError::Semantic(SemanticError::MissingMain)));
    assert_eq!(compile("func main() { }"), Ok(name("%func main\n%endfunc\n\n")));
}

#[test]
fn duplicate_function() {
    assert_eq!(
        check("%func f\n%endfunc\n\n%func f\n%endfunc\n\n%func main\n%endfunc\n"),
        Err(SemanticError::DuplicateFunction(name("f")))
    );
    assert_eq!(
        SemanticError::DuplicateFunction(name("f")).message(),
        "Error: Function f already defined."
    );
}

#[test]
fn array_size() {
    assert_eq!(check("%func main\n%int[] a, 1\n%endfunc\n"), Ok(()));
    assert_eq!(check("%func main\n%int[] a, +3\n%endfunc\n"), Ok(()));
    for size in ["0", "-1", "n", "_temp1", "2147483648", ""] {
        assert_eq!(
            check(&format!("%func main\n%int n\n%int[] a, {}\n%endfunc\n", size)),
            Err(SemanticError::NonPositiveArraySize(name("a"))),
            "size {:?}",
            size
        );
    }
    assert_eq!(
        SemanticError::NonPositiveArraySize(name("a")).message(),
        "Error: Array size of a must be greater than 0."
    );
    assert_eq!(
        compile("func main() { int [1 + 1] a; }"),
        Err(CompileError::Semantic(SemanticError::NonPositiveArraySize(name("a"))))
    );
}

#[test]
fn duplicate_variable() {
    assert_eq!(
        check("%func main\n%int x\n%int x\n%endfunc\n"),
        Err(SemanticError::DuplicateVariable(name("x")))
    );
    assert_eq!(
        check("%func main\n%int x\n%int[] x, 2\n%endfunc\n"),
        Err(SemanticError::DuplicateVariable(name("x")))
    );
    assert_eq!(
        check("%func main(%int x)\n%int x\n%endfunc\n"),
        Err(SemanticError::DuplicateVariable(name("x")))
    );
    assert_eq!(check("%func f\n%int x\n%endfunc\n\n%func main\n%int x\n%endfunc\n"), Ok(()));
    assert_eq!(
        SemanticError::DuplicateVariable(name("x")).message(),
        "Error: Variable x already declared."
    );
}

#[test]
fn undefined_function() {
    assert_eq!(
        check("%func main\n%int t\n%call t, g(1,2)\n%endfunc\n"),
        Err(SemanticError::UndefinedFunction(name("g")))
    );
    assert_eq!(
        check("%func g\n%endfunc\n\n%func main\n%int t\n%call t, g(1,2)\n%endfunc\n"),
        Ok(())
    );
    assert_eq!(
        SemanticError::UndefinedFunction(name("g")).message(),
        "Error: Undefined function used: g"
    );
}

#[test]
fn functions_are_known_everywhere() {
    assert_eq!(
        check("%func g\n%endfunc\n\n%func f\n%int t\n%call t, g()\n%call t, f()\n%endfunc\n\n%func main\n%endfunc\n"),
        Ok(())
    );
    assert_eq!(
        check("%func f\n%int t\n%call t, g()\n%endfunc\n\n%func g\n%endfunc\n\n%func main\n%endfunc\n"),
        Err(SemanticError::UndefinedFunction(name("g")))
    );
}

#[test]
fn functions_and_variables_are_apart() {
    assert_eq!(check("%func g\n%endfunc\n\n%func main\n%int g\n%mov g, 1\n%endfunc\n"), Ok(()));
    assert_eq!(check("%func f(%int f, %int main)\n%endfunc\n\n%func main(%int main)\n"), Ok(()));
    assert_eq!(
        check("%func main\n%int g\n%int t\n%call t, g()\n%endfunc\n"),
        Err(SemanticError::UndefinedFunction(name("g")))
    );
    assert_eq!(
        check("%func g\n%endfunc\n\n%func main\n%int x\n%mov x, g\n%endfunc\n"),
        Err(SemanticError::UndeclaredVariable(name("g")))
    );
    assert_eq!(
        check("%func main\n%int x\n%mov x, main\n%endfunc\n"),
        Err(SemanticError::UndeclaredVariable(name("main")))
    );
}

#[test]
fn undeclared_variable() {
    assert_eq!(
        check("%func main\n%int x\n%mov x, y\n%endfunc\n"),
        Err(SemanticError::UndeclaredVariable(name("y")))
    );
    assert_eq!(
        check("%func f\n%int x\n%endfunc\n\n%func main\n%mov x, 1\n%endfunc\n"),
        Err(SemanticError::UndeclaredVariable(name("x")))
    );
    assert_eq!(
        check("%func main\n%out 99999999999\n%endfunc\n"),
        Err(SemanticError::UndeclaredVariable(name("99999999999")))
    );
    assert_eq!(check("%func main\n%out -5\n%out +5\n%out 007\n%endfunc\n"), Ok(()));
    assert_eq!(
        SemanticError::UndeclaredVariable(name("y")).message(),
        "Error: Undeclared variable used: y"
    );
}

#[test]
fn arrays_and_scalars() {
    let head = "%func main\n%int[] a, 4\n%int i\n%int x\n";
    assert_eq!(check(&format!("{head}%mov [a + i], x\n%mov x, [a + 1]\n%endfunc\n")), Ok(()));
    assert_eq!(
        check(&format!("{head}%mov x, [i + 1]\n%endfunc\n")),
        Err(SemanticError::ArrayExpectedForIndex(name("i")))
    );
    assert_eq!(
        check(&format!("{head}%mov x, [5 + 1]\n%endfunc\n")),
        Err(SemanticError::ArrayExpectedForIndex(name("5")))
    );
    assert_eq!(
        check(&format!("{head}%mov + \n%endfunc\n")),
        Err(SemanticError::ArrayExpectedForIndex(name("")))
    );
    assert_eq!(
        check(&format!("{head}%add x, a, i\n%endfunc\n")),
        Err(SemanticError::ScalarExpectedNotArray(name("a")))
    );
    assert_eq!(
        check(&format!("{head}%mov [a + a], x\n%endfunc\n")),
        Err(SemanticError::ScalarExpectedNotArray(name("a")))
    );
    assert_eq!(check(&format!("{head}%mov x, a\n%endfunc\n")), Ok(()));
    assert_eq!(
        SemanticError::ScalarExpectedNotArray(name("a")).message(),
        "Error: Type mismatch. Used 'a' as an integer."
    );
    assert_eq!(
        compile("func main() { int [2] a; int x; x = a + 1; }"),
        Err(CompileError::Semantic(SemanticError::ScalarExpectedNotArray(name("a"))))
    );
}

#[test]
fn declaration_without_a_name_declares_nothing() {
    assert_eq!(check("%func\n"), Err(SemanticError::MissingMain));
    assert_eq!(check("%func main\n%int\n%int[] \n%func\n%int x\n%mov x, 1\n"), Ok(()));
    assert_eq!(
        check("%func main\n%int[] a\n"),
        Err(SemanticError::NonPositiveArraySize(name("a")))
    );
}

#[test]
fn labels_and_opcodes_are_not_checked() {
    assert_eq!(
        check("%func main\n:loopbegin1\n%jmp :loopbegin1\n%branch_if 1, :nowhere\n%endfunc\n"),
        Ok(())
    );
}

#[test]
fn lines_may_end_in_many_ways() {
    assert_eq!(check("%func main"), Ok(()));
    assert_eq!(check("\n\n%func main\r\n\r\n%int x\r\n%mov x, 1\r\n%endfunc\r\n"), Ok(()));
    assert_eq!(check(""), Err(SemanticError::MissingMain));
    assert_eq!(check("\n"), Err(SemanticError::MissingMain));
}

#[test]
fn programs_that_pass() {
    for source in [
        "func main() { }",
        "func add(int a, int b) { return a + b; } func main() { int r; r = add(1, 2); print(r); }",
        "func main() { int [5] a; int i; read(i); a[i] = a[i + 1] * 2; print(a[i]); }",
        "func main() { int x; x = 3; if x < 4 { x = x + 1; } else { x = x - 1; } print(x); }",
        "func main() { int x; x < 3; }",
    ] {
        assert!(compile(source).is_ok(), "{}", source);
    }
}

#[test]
fn type_names() {
    assert_eq!(DataType::Array.name(), "Int[]");
    assert_eq!(DataType::Int.name(), "Int");
    assert_eq!(DataType::Function.name(), "Function");
}

#[test]
fn lines_and_words() {
    let text = to_chars("one\n\ntwo");
    let (line, rest) = split_line(&text);
    assert_eq!(line, &['o', 'n', 'e']);
    assert_eq!(rest.len(), 4);
    let (line, rest) = split_line(rest);
    assert!(line.is_empty());
    let (line, rest) = split_line(rest);
    assert_eq!(line, &['t', 'w', 'o']);
    assert!(rest.is_empty());
    let words = split_words(&to_chars("  %mov\tx,  [a\u{a0}+ i] "));
    let words: Vec<String> = words.iter().map(|w| w.iter().collect()).collect();
    assert_eq!(words, vec!["%mov", "x,", "[a", "+", "i]"]);
    assert!(split_words(&to_chars(" \t ")).is_empty());
}

#[test]
fn rewriting_of_lines() {
    let line = to_chars("%func f(%int a, %int b)");
    let out: String = normalize(&line, Form::Signature).iter().collect();
    assert_eq!(out, "%func f %int a  %int b )");
    let line = to_chars("%int[] a, 3");
    let out: String = normalize(&line, Form::Declaration).iter().collect();
    assert_eq!(out, "%int[] a  3");
    let line = to_chars("%call t, f(x,[a + i])");
    let out: String = normalize(&line, Form::Statement).iter().collect();
    assert_eq!(out, "%call t  f( x a + i");
}

#[test]
fn keys_and_the_table() {
    assert_eq!(make_key(&to_chars("x"), &to_chars("main")), "x|main");
    assert_eq!(make_key(&[], &[]), "|");
    assert_eq!(make_key(&to_chars("\u{e9}t\u{e9}"), &to_chars("f")), "\u{e9}t\u{e9}|f");
    let mut analyzer = Analyzer::new();
    assert_eq!(analyzer.lookup(&to_chars("x"), &to_chars("f")), None);
    analyzer.scope = to_chars("f");
    analyzer.declare(&to_chars("x"), DataType::Array);
    analyzer.declare(&to_chars("y"), DataType::Int);
    assert_eq!(analyzer.lookup(&to_chars("x"), &to_chars("f")), Some(DataType::Array));
    assert_eq!(analyzer.lookup(&to_chars("y"), &to_chars("f")), Some(DataType::Int));
    assert_eq!(analyzer.lookup(&to_chars("x"), &to_chars("g")), None);
    assert!(analyzer.is_array(&to_chars("x")));
    assert!(!analyzer.is_array(&to_chars("y")));
    assert!(!analyzer.is_array(&to_chars("z")));
    assert!(analyzer.knows(&to_chars("y")));
    assert!(!analyzer.knows(&to_chars("z")));
    assert!(!analyzer.has_function(&to_chars("x")));
    analyzer.enter(&to_chars("x"));
    assert!(analyzer.has_function(&to_chars("x")));
    assert_eq!(analyzer.scope, to_chars("x"));
    assert!(!analyzer.main_seen);
    assert!(!analyzer.knows(&to_chars("x")));
    assert_eq!(analyzer.lookup(&to_chars("x"), &to_chars("f")), Some(DataType::Array));
    analyzer.enter(&to_chars("main"));
    assert!(analyzer.main_seen);
    assert!(analyzer.has_function(&to_chars("x")));
    assert!(analyzer.has_function(&to_chars("main")));
    assert!(!analyzer.has_function(&to_chars("f")));
}

#[test]
fn one_line_at_a_time() {
    let mut analyzer = Analyzer::new();
    assert_eq!(analyze_line(&mut analyzer, &to_chars("%func main(%int a, %int b)")), Ok(()));
    assert!(analyzer.main_seen);
    assert_eq!(analyzer.scope, to_chars("main"));
    assert!(analyzer.has_function(&to_chars("main")));
    assert_eq!(analyzer.lookup(&to_chars("main"), &to_chars("main")), None);
    assert_eq!(analyzer.lookup(&to_chars("a"), &to_chars("main")), Some(DataType::Int));
    assert_eq!(analyzer.lookup(&to_chars("b"), &to_chars("main")), Some(DataType::Int));
    assert_eq!(analyze_line(&mut analyzer, &to_chars("%int[] v, 3")), Ok(()));
    assert_eq!(analyzer.lookup(&to_chars("v"), &to_chars("main")), Some(DataType::Array));
    assert_eq!(analyze_line(&mut analyzer, &to_chars("%mov [v + a], b")), Ok(()));
    assert_eq!(
        analyze_line(&mut analyzer, &to_chars("%mov [v + a], c")),
        Err(SemanticError::UndeclaredVariable(name("c")))
    );
}
