use tac_compiler::{
    compile, lex, semantics_check, translate, CompileError, SemanticError, Token,
};

const PROGRAMS: [&str; 6] = [
    "func main() { }",
    "func main() { int x; x = 1 + 2 * 3 - 4 / 5 % 6; print(x); }",
    "func fib(int n) { int r; if n < 2 { r = n; } else { int a; int b; a = n - 1; b = n - 2; r = a + b; } return r; }
     func main() { int i; i = 0; while i < 10 { int f; f = fib(i); print(f); i = i + 1; } }",
    "func main() { int [8] a; int i; int j; i = 0;
        while i < 8 { a[i] = i * i; j = 0; while j < i { if a[j] > a[i] { a[i] = a[j]; } else { } j = j + 1; } i = i + 1; }
        if a[0] == 0 { print(a[7]); } else { if a[1] != 1 { read(i); } else { read(j); } } }",
    "func f(int a, int b) { return a * b + f(a, b); } func g() { return f(1, 2) + f(3, g()); } func main() { print(g()); print((g)[f(1, 2) + 3]); }",
    "func main() { int x; x < 3; x >= 4 + 5; while 1 == 1 { if 2 <= 3 { } else { while 4 > 5 { } } } }",
];

fn translation(source: &str) -> String {
    translate(&lex(source).unwrap()).unwrap()
}

fn words(line: &str) -> Vec<String> {
    line.replace([',', '(', ')', '[', ']'], " ").split_whitespace().map(String::from).collect()
}

#[test]
fn labels_are_defined_once() {
    for source in PROGRAMS {
        let ir = translation(source);
        let defined: Vec<&str> = ir.lines().filter(|line| line.starts_with(':')).collect();
        for (i, label) in defined.iter().enumerate() {
            assert!(!defined[..i].contains(label), "{} is defined twice in\n{}", label, ir);
        }
        for line in ir.lines() {
            for word in words(line) {
                if word.starts_with(':') && !line.starts_with(':') {
                    assert!(defined.contains(&word.as_str()), "{} is not defined in\n{}", word, ir);
                }
            }
        }
    }
}

#[test]
fn labels_of_nested_loops_and_conditionals() {
    let ir = translation(PROGRAMS[3]);
    let defined: Vec<&str> = ir.lines().filter(|line| line.starts_with(':')).collect();
    assert_eq!(
        defined,
        vec![
            ":loopbegin1", ":loopbegin2", ":iftrue1", ":endif1", ":endloop_2", ":endloop_1",
            ":iftrue3", ":endif3", ":iftrue2", ":endif2"
        ]
    );
}

#[test]
fn temporaries_are_declared_before_use() {
    for source in PROGRAMS {
        let ir = translation(source);
        let mut declared: Vec<String> = Vec::new();
        for line in ir.lines() {
            let words = words(line);
            if words.len() == 2 && words[0] == "%int" && words[1].starts_with("_temp") {
                assert!(!declared.contains(&words[1]), "{} is declared twice", words[1]);
                declared.push(words[1].clone());
            } else {
                for word in words {
                    if word.starts_with("_temp") {
                        assert!(declared.contains(&word), "{} is used in {:?} before it is declared", word, line);
                    }
                }
            }
        }
    }
}

#[test]
fn code_behind_the_size_of_an_array_is_dropped() {
    assert_eq!(
        translation("func main() { int [1 + 1] a; }"),
        "%func main\n%int[] a, _temp1\n%endfunc\n\n"
    );
}

#[test]
fn code_behind_an_index_is_kept() {
    assert_eq!(
        translation("func main() { print((a)[b[0]]); x[i + 1] = a[i * 2]; }"),
        "%func main\n%int _temp1\n%mov _temp1, [b + 0]\n%int _temp2\n%mov _temp2, [a + _temp1]\n%out _temp2\n%int _temp3\n%add _temp3, i, 1\n%int _temp4\n%mult _temp4, i, 2\n%int _temp5\n%mov _temp5, [a + _temp4]\n%mov [x + _temp3], _temp5\n%endfunc\n\n"
    );
}

#[test]
fn compilation_succeeds_exactly_when_the_analyzer_approves() {
    let sources = [
        "func main() { }",
        "func main() { int x; x = 1; }",
        "func main() { x = 1; }",
        "func f() { }",
        "func main() { int a; int i; i = a[0]; }",
        "func main() { int [2] a; int i; i = a[0]; }",
        "func main() { int [0] a; }",
        "func f(int x, int x) { } func main() { }",
        "func f() { } func f() { } func main() { }",
        "func main() { int x; int x; }",
        "func main() { int r; r = g(); }",
        "",
    ];
    for source in sources {
        let ir = translation(source);
        let verdict = semantics_check(ir.clone());
        match compile(source) {
            Ok(text) => {
                assert_eq!(text, ir);
                assert_eq!(verdict, Ok(()));
            }
            Err(error) => assert_eq!(error, CompileError::Semantic(verdict.unwrap_err())),
        }
    }
}

#[test]
fn a_program_without_main_always_fails() {
    for source in [
        "",
        "func helper() { int x; }",
        "func Main() { }",
        "func main1() { } func mai() { } func f(int main) { }",
        "func f() { int main; main = 1; }",
    ] {
        assert_eq!(compile(source), Err(CompileError::Semantic(SemanticError::MissingMain)), "{:?}", source);
    }
    for ir in ["", "%func mainly\n", "%int main\n", ":main\n", "%jmp :main\n", "% func main\n"] {
        assert!(semantics_check(String::from(ir)).is_err(), "{:?}", ir);
    }
    assert_eq!(semantics_check(String::from("%func main")), Ok(()));
    assert_eq!(semantics_check(String::from("%func main(%int a)")), Ok(()));
}

#[test]
fn lines_that_the_analyzer_takes_for_main() {
    for ir in ["%function main", "%func  main", "%func\tmain", "%func,main", "%func(main", "%func main x"] {
        assert_eq!(semantics_check(String::from(ir)), Ok(()), "{:?}", ir);
    }
}

#[test]
fn an_identifier_with_a_newline_can_spell_the_line_of_a_label() {
    let mut tokens = lex("func main() { while a < 1 { } a = b; }").unwrap();
    let at = tokens.len() - 3;
    assert!(matches!(&tokens[at], Token::Ident(name) if name == "b"));
    tokens[at] = Token::Ident(String::from("b\n:loopbegin1"));
    let ir = translate(&tokens).unwrap();
    let defined: Vec<&str> = ir.lines().filter(|line| line.starts_with(':')).collect();
    assert_eq!(defined, vec![":loopbegin1", ":endloop_1", ":loopbegin1"]);
}

#[test]
fn all_programs_compile() {
    for source in PROGRAMS {
        let result = compile(source);
        assert!(
            result.is_ok() || matches!(result, Err(CompileError::Semantic(_))),
            "{:?}",
            result
        );
    }
    assert!(compile(PROGRAMS[0]).is_ok());
    assert!(compile(PROGRAMS[1]).is_ok());
    assert!(compile(PROGRAMS[2]).is_ok());
    assert!(compile(PROGRAMS[3]).is_ok());
    assert!(compile(PROGRAMS[5]).is_ok());
}
