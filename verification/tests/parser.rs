use tac_compiler::{
    create_else_label, create_endif_label, create_iftrue_label, create_temp,
    create_whileloopbegin_label, create_whileloopend_label, lex, next, next_result,
    parse_array_form, parse_boolean_expression, parse_expression, parse_function,
    parse_multiply_expression, parse_program, parse_statement, parse_term, peek, peek_result,
    Counters, Token,
};

fn statement(source: &str) -> Result<Option<String>, String> {
    let tokens = lex(source).unwrap();
    parse_statement(&tokens, &mut 0, &mut Counters::new())
}

fn program(source: &str) -> Result<String, String> {
    let tokens = lex(source).unwrap();
    parse_program(&tokens, &mut 0, &mut Counters::new())
}

#[test]
fn test_error_handling() {
    // Test missing semicolon
    let tokens = lex("e = a + b").unwrap();
    assert!(matches!(parse_statement(&tokens, &mut 0, &mut Counters::new()), Err(_)));

    // Test invalid expression
    let tokens = lex("f = a * ;").unwrap();
    assert!(matches!(parse_statement(&tokens, &mut 0, &mut Counters::new()), Err(_)));

    // Test assignment with an invalid identifier
    let tokens = lex("3 = a + b;").unwrap();
    assert!(matches!(parse_statement(&tokens, &mut 0, &mut Counters::new()), Err(_)));
}

#[test]
fn test_assignment() {
    // Test valid assignments
    let tokens = lex("a = 1 + 2;").unwrap();
    parse_statement(&tokens, &mut 0, &mut Counters::new()).unwrap();

    // A comparison cannot stand on the right of an assignment
    let tokens = lex("b = a > 5;").unwrap();
    assert!(matches!(parse_statement(&tokens, &mut 0, &mut Counters::new()), Err(_)));

    // Test assignment with a parenthesized expression
    let tokens = lex("c = (a * 3);").unwrap();
    parse_statement(&tokens, &mut 0, &mut Counters::new()).unwrap();

    // Test assignment with multiple operators
    let tokens = lex("d = (a + b) / (c - 1);").unwrap();
    parse_statement(&tokens, &mut 0, &mut Counters::new()).unwrap();
}

#[test]
fn test_control_flow() {
    // Test if statement
    let tokens = lex("if a > 5 { b = 10; } else { b = 5; }").unwrap();
    parse_statement(&tokens, &mut 0, &mut Counters::new()).unwrap();

    // Test while loop
    let tokens = lex("while a < 10 { a = a + 1; }").unwrap();
    parse_statement(&tokens, &mut 0, &mut Counters::new()).unwrap();

    // The language has no for loop
    let tokens = lex("for i = 0; i < 10; i = i + 1 { println(i); }").unwrap();
    assert!(matches!(parse_statement(&tokens, &mut 0, &mut Counters::new()), Err(_)));
}

#[test]
fn test_function_definition() {
    // A function is no statement, and begins with `func`
    let tokens = lex("fn add(x, y) { return x + y; }").unwrap();
    assert!(matches!(parse_statement(&tokens, &mut 0, &mut Counters::new()), Err(_)));

    // Test function call
    let tokens = lex("result = add(3, 5);").unwrap();
    parse_statement(&tokens, &mut 0, &mut Counters::new()).unwrap();
}

#[test]
fn messages_of_the_rejected_statements() {
    assert_eq!(statement("e = a + b").unwrap_err(), "expected a token, but got nothing");
    assert_eq!(statement("f = a * ;").unwrap_err(), "invalid expression");
    assert_eq!(statement("3 = a + b;").unwrap_err(), "invalid statement");
}

#[test]
fn assignment_of_a_sum() {
    assert_eq!(
        statement("a = 1 + 2;").unwrap().unwrap(),
        "%int _temp1\n%add _temp1, 1, 2\n%mov a, _temp1\n"
    );
}

#[test]
fn assignment_of_a_plain_value() {
    assert_eq!(statement("a = b;").unwrap().unwrap(), "%mov a, b\n");
    assert_eq!(statement("a = 5;").unwrap().unwrap(), "%mov a, 5\n");
}

#[test]
fn assignment_in_parentheses() {
    assert_eq!(
        statement("c = (a * 3);").unwrap().unwrap(),
        "%int _temp1\n%mult _temp1, a, 3\n%mov c, _temp1\n"
    );
    assert_eq!(
        statement("d = (a + b) / (c - 1);").unwrap().unwrap(),
        "%int _temp1\n%add _temp1, a, b\n%int _temp2\n%sub _temp2, c, 1\n%int _temp3\n%div _temp3, _temp1, _temp2\n%mov d, _temp3\n"
    );
}

#[test]
fn assignment_of_a_comparison_is_rejected() {
    assert_eq!(
        statement("b = a > 5;").unwrap_err(),
        "expect ';' closing statement after statement"
    );
}

#[test]
fn precedence_of_product_over_sum() {
    assert_eq!(
        statement("x = a + b * c;").unwrap().unwrap(),
        "%int _temp1\n%mult _temp1, b, c\n%int _temp2\n%add _temp2, a, _temp1\n%mov x, _temp2\n"
    );
    assert_eq!(
        statement("x = a * b + c;").unwrap().unwrap(),
        "%int _temp1\n%mult _temp1, a, b\n%int _temp2\n%add _temp2, _temp1, c\n%mov x, _temp2\n"
    );
    assert_eq!(
        statement("x = (a + b) * c;").unwrap().unwrap(),
        "%int _temp1\n%add _temp1, a, b\n%int _temp2\n%mult _temp2, _temp1, c\n%mov x, _temp2\n"
    );
}

#[test]
fn operators_of_one_level_go_from_the_left() {
    assert_eq!(
        statement("x = a - b - c;").unwrap().unwrap(),
        "%int _temp1\n%sub _temp1, a, b\n%int _temp2\n%sub _temp2, _temp1, c\n%mov x, _temp2\n"
    );
    assert_eq!(
        statement("x = a / b % c;").unwrap().unwrap(),
        "%int _temp1\n%div _temp1, a, b\n%int _temp2\n%mod _temp2, _temp1, c\n%mov x, _temp2\n"
    );
}

#[test]
fn precedence_in_a_program() {
    assert_eq!(
        program("func main() { int a; a = 2 + 3 * 4; }").unwrap(),
        "%func main\n%int a\n%int _temp1\n%mult _temp1, 3, 4\n%int _temp2\n%add _temp2, 2, _temp1\n%mov a, _temp2\n%endfunc\n\n"
    );
}

#[test]
fn minimal_main() {
    assert_eq!(
        program("func main() { int x; x = 1 + 2; print(x); }").unwrap(),
        "%func main\n%int x\n%int _temp1\n%add _temp1, 1, 2\n%mov x, _temp1\n%out x\n%endfunc\n\n"
    );
}

#[test]
fn array_and_while() {
    assert_eq!(
        program("func main() { int[10] a; int i; i = 0; while i < 10 { a[i] = i; i = i + 1; } }")
            .unwrap(),
        "%func main\n%int[] a, 10\n%int i\n%mov i, 0\n:loopbegin1\n%int _temp1\n%lt _temp1, i, 10\n%branch_ifn _temp1, :endloop_1\n%mov [a + i], i\n%int _temp2\n%add _temp2, i, 1\n%mov i, _temp2\n%jmp :loopbegin1\n:endloop_1\n%endfunc\n\n"
    );
}

#[test]
fn declarations() {
    assert_eq!(statement("int x;").unwrap().unwrap(), "%int x\n");
    assert_eq!(statement("int [3] x;").unwrap().unwrap(), "%int[] x, 3\n");
    assert_eq!(statement("int [n] x;").unwrap().unwrap(), "%int[] x, n\n");
    assert_eq!(statement("int [1 + 1] x;").unwrap().unwrap(), "%int[] x, _temp1\n");
    assert_eq!(statement("int 3;").unwrap_err(), "expected identifier");
    assert_eq!(statement("int [3 x;").unwrap_err(), "expected ']'");
    assert_eq!(statement("int [3] 4;").unwrap_err(), "expected identifier");
    assert_eq!(statement("int [3]").unwrap_err(), "expected identifier");
    assert_eq!(statement("int x").unwrap_err(), "expected a token, but got nothing");
    assert_eq!(statement("int").unwrap_err(), "expected a token, but got nothing");
}

#[test]
fn assignment_to_an_element() {
    assert_eq!(statement("x[i] = e;").unwrap().unwrap(), "%mov [x + i], e\n");
    assert_eq!(
        statement("x[i + 1] = e * 2;").unwrap().unwrap(),
        "%int _temp1\n%add _temp1, i, 1\n%int _temp2\n%mult _temp2, e, 2\n%mov [x + _temp1], _temp2\n"
    );
    assert_eq!(statement("x[i = e;").unwrap_err(), "expected ']'");
    assert_eq!(statement("x[i] + e;").unwrap_err(), "unexpected token after identifier []");
    assert_eq!(statement("x[i] < e;").unwrap_err(), "unexpected token after identifier []");
    assert_eq!(statement("x[i]").unwrap_err(), "unexpected token after identifier []");
}

#[test]
fn comparison_as_a_statement() {
    assert_eq!(
        statement("x < y;").unwrap().unwrap(),
        "%int _temp1\n%lt _temp1, x, y\n%mov _temp1\n"
    );
    assert_eq!(
        statement("x != y + 1;").unwrap().unwrap(),
        "%int _temp1\n%add _temp1, y, 1\n%int _temp2\n%neq _temp2, x, _temp1\n%mov _temp2\n"
    );
}

#[test]
fn identifier_followed_by_something_else() {
    assert_eq!(statement("x y;").unwrap_err(), "unexpected token after identifier");
    assert_eq!(statement("x;").unwrap_err(), "unexpected token after identifier");
    assert_eq!(statement("x").unwrap_err(), "unexpected token after identifier");
    assert_eq!(
        statement("for i = 0; i < 10; i = i + 1 { println(i); }").unwrap_err(),
        "unexpected token after identifier"
    );
    assert_eq!(
        statement("fn add(x, y) { return x + y; }").unwrap_err(),
        "unexpected token after identifier"
    );
}

#[test]
fn return_print_and_read() {
    assert_eq!(statement("return x;").unwrap().unwrap(), "%ret x\n");
    assert_eq!(
        statement("return x + 1;").unwrap().unwrap(),
        "%int _temp1\n%add _temp1, x, 1\n%ret _temp1\n"
    );
    assert_eq!(statement("print(x);").unwrap().unwrap(), "%out x\n");
    assert_eq!(
        statement("print(a[i]);").unwrap().unwrap(),
        "%int _temp1\n%mov _temp1, [a + i]\n%out _temp1\n"
    );
    assert_eq!(
        statement("print((a)[i]);").unwrap().unwrap(),
        "%int _temp1\n%mov _temp1, [a + i]\n%out _temp1\n"
    );
    assert_eq!(
        statement("print((a)[b[0]]);").unwrap().unwrap(),
        "%int _temp1\n%mov _temp1, [b + 0]\n%int _temp2\n%mov _temp2, [a + _temp1]\n%out _temp2\n"
    );
    assert_eq!(
        statement("print((a)[i + 1]);").unwrap().unwrap(),
        "%int _temp1\n%add _temp1, i, 1\n%int _temp2\n%mov _temp2, [a + _temp1]\n%out _temp2\n"
    );
    assert_eq!(
        statement("print(a[1][(i + 1)]);").unwrap().unwrap(),
        "%int _temp1\n%mov _temp1, [a + 1]\n%int _temp2\n%add _temp2, i, 1\n%int _temp3\n%mov _temp3, [_temp1 + _temp2]\n%out _temp3\n"
    );
    assert_eq!(statement("read(x);").unwrap().unwrap(), "%input x\n");
    assert_eq!(
        statement("read(a[0]);").unwrap().unwrap(),
        "%int _temp1\n%mov _temp1, [a + 0]\n%input _temp1\n"
    );
    assert_eq!(statement("print x;").unwrap_err(), "expect '(' closing statement");
    assert_eq!(statement("print(x;").unwrap_err(), "expect ')' closing statement");
    assert_eq!(statement("print(x + 1);").unwrap_err(), "expect ')' closing statement");
    assert_eq!(statement("print(a[i;").unwrap_err(), "Expecting ']' after '['");
    assert_eq!(statement("print((a)[i;").unwrap_err(), "expected ']'");
    assert_eq!(statement("read x;").unwrap_err(), "expect '(' closing statement");
    assert_eq!(statement("read(x;").unwrap_err(), "expect ')' closing statement");
    assert_eq!(statement("print(x)").unwrap_err(), "expected a token, but got nothing");
}

#[test]
fn calls() {
    assert_eq!(
        statement("result = add(3, 5);").unwrap().unwrap(),
        "%int _temp1\n%call _temp1, add(3,5)\n%mov result, _temp1\n"
    );
    assert_eq!(
        statement("r = f();").unwrap().unwrap(),
        "%int _temp1\n%call _temp1, f()\n%mov r, _temp1\n"
    );
    assert_eq!(
        statement("r = f(a + 1, g(b), c[2]);").unwrap().unwrap(),
        "%int _temp1\n%add _temp1, a, 1\n%int _temp2\n%call _temp2, g(b)\n%int _temp3\n%mov _temp3, [c + 2]\n%int _temp4\n%call _temp4, f(_temp1,_temp2,_temp3)\n%mov r, _temp4\n"
    );
    assert_eq!(statement("r = f(a b);").unwrap_err(), "expected ',' or ')'");
    assert_eq!(statement("r = f(a,);").unwrap_err(), "invalid expression");
    assert_eq!(statement("r = f(a").unwrap_err(), "expected a token, but got nothing");
    assert_eq!(statement("r = f(").unwrap_err(), "expected a token, but got nothing");
}

#[test]
fn terms() {
    assert_eq!(statement("r = (a;").unwrap_err(), "Expecting ')' after '('");
    assert_eq!(statement("r = a[1;").unwrap_err(), "Expecting ']' after '['");
    assert_eq!(statement("r = +;").unwrap_err(), "invalid expression");
    assert_eq!(statement("r = a").unwrap_err(), "expected a token, but got nothing");
    assert_eq!(statement("r = 1").unwrap_err(), "expected a token, but got nothing");
}

#[test]
fn loops() {
    assert_eq!(
        statement("while a < 10 { a = a + 1; }").unwrap().unwrap(),
        ":loopbegin1\n%int _temp1\n%lt _temp1, a, 10\n%branch_ifn _temp1, :endloop_1\n%int _temp2\n%add _temp2, a, 1\n%mov a, _temp2\n%jmp :loopbegin1\n:endloop_1\n"
    );
    assert_eq!(
        statement("while a < 1 { while b < 2 { } }").unwrap().unwrap(),
        ":loopbegin1\n%int _temp1\n%lt _temp1, a, 1\n%branch_ifn _temp1, :endloop_1\n:loopbegin2\n%int _temp2\n%lt _temp2, b, 2\n%branch_ifn _temp2, :endloop_2\n%jmp :loopbegin2\n:endloop_2\n%jmp :loopbegin1\n:endloop_1\n"
    );
    assert_eq!(statement("while a { }").unwrap_err(), "expected boolean operator");
    assert_eq!(statement("while a < b c = 1; }").unwrap_err(), "expect '{' for while loop");
    assert_eq!(statement("while a < b { c = 1;").unwrap_err(), "expected a token, but got nothing");
    assert_eq!(statement("while a < b + 1 { }").unwrap_err(), "expect '{' for while loop");
}

#[test]
fn conditionals() {
    assert_eq!(
        statement("if a > 5 { b = 10; } else { b = 5; }").unwrap().unwrap(),
        "%int _temp1\n%gt _temp1, a, 5\n%branch_if _temp1, :iftrue1\n%mov b, 5\n%jmp :endif1\n:iftrue1\n%mov b, 10\n:endif1\n"
    );
    assert_eq!(
        statement("if a == 5 { b = 10; }").unwrap().unwrap(),
        "%int _temp1\n%eq _temp1, a, 5\n%branch_if _temp1, :iftrue1\n%jmp :endif1\n:iftrue1\n%mov b, 10\n:endif1\n"
    );
    assert_eq!(
        statement("if a >= 1 { if b <= 2 { } else { } } else { if c != 3 { } else { } }")
            .unwrap()
            .unwrap(),
        "%int _temp1\n%ge _temp1, a, 1\n%branch_if _temp1, :iftrue1\n%int _temp3\n%neq _temp3, c, 3\n%branch_if _temp3, :iftrue3\n%jmp :endif3\n:iftrue3\n:endif3\n%jmp :endif1\n:iftrue1\n%int _temp2\n%le _temp2, b, 2\n%branch_if _temp2, :iftrue2\n%jmp :endif2\n:iftrue2\n:endif2\n:endif1\n"
    );
    assert_eq!(statement("if a > 5 b = 10; }").unwrap_err(), "expect '{' closing statement");
    assert_eq!(statement("if a > 5 { } else b = 1;").unwrap_err(), "expect '{' opening statement");
    assert_eq!(statement("if a > 5 { } else").unwrap_err(), "expected a token, but got nothing");
}

#[test]
fn constructs_at_the_end_of_the_tokens() {
    let mut counters = Counters::new();
    let tokens = lex("1 + 2").unwrap();
    let mut index = 0;
    let e = parse_expression(&tokens, &mut index, &mut counters).unwrap();
    assert_eq!(
        (e.code.as_str(), e.name.as_str(), index),
        ("%int _temp1\n%add _temp1, 1, 2\n", "_temp1", 3)
    );
    let tokens = lex("a * b").unwrap();
    let mut index = 0;
    let e = parse_multiply_expression(&tokens, &mut index, &mut counters).unwrap();
    assert_eq!(
        (e.code.as_str(), e.name.as_str(), index),
        ("%int _temp2\n%mult _temp2, a, b\n", "_temp2", 3)
    );
    let tokens = lex("a").unwrap();
    let mut index = 0;
    let e = parse_term(&tokens, &mut index, &mut counters).unwrap();
    assert_eq!((e.code.as_str(), e.name.as_str(), index), ("", "a", 1));
    let tokens = lex("a < b").unwrap();
    let mut index = 0;
    let e = parse_boolean_expression(&tokens, &mut index, &mut counters).unwrap();
    assert_eq!(
        (e.code.as_str(), e.name.as_str(), index),
        ("%int _temp3\n%lt _temp3, a, b\n", "_temp3", 3)
    );
    assert_eq!(
        program("func main() { if 1 < 2 { } }").unwrap(),
        "%func main\n%int _temp1\n%lt _temp1, 1, 2\n%branch_if _temp1, :iftrue1\n%jmp :endif1\n:iftrue1\n:endif1\n%endfunc\n\n"
    );
}

#[test]
fn break_and_continue_are_rejected() {
    assert_eq!(statement("break;").unwrap_err(), "invalid statement");
    assert_eq!(statement("continue;").unwrap_err(), "invalid statement");
    assert_eq!(
        program("func main() { while 1 < 2 { break; } }").unwrap_err(),
        "invalid statement"
    );
}

#[test]
fn no_statement_at_the_end_or_at_a_brace() {
    let tokens = lex("}").unwrap();
    let mut index = 0;
    assert_eq!(parse_statement(&tokens, &mut index, &mut Counters::new()), Ok(None));
    assert_eq!(index, 0);
    let tokens = lex("").unwrap();
    assert_eq!(parse_statement(&tokens, &mut index, &mut Counters::new()), Ok(None));
    assert_eq!(index, 0);
    let mut beyond = 7;
    assert_eq!(parse_statement(&tokens, &mut beyond, &mut Counters::new()), Ok(None));
    assert_eq!(beyond, 7);
}

#[test]
fn statement_leaves_the_index_behind_it() {
    let tokens = lex("a = 1; b = 2;").unwrap();
    let mut index = 0;
    let mut counters = Counters::new();
    assert_eq!(parse_statement(&tokens, &mut index, &mut counters).unwrap().unwrap(), "%mov a, 1\n");
    assert_eq!(index, 4);
    assert_eq!(parse_statement(&tokens, &mut index, &mut counters).unwrap().unwrap(), "%mov b, 2\n");
    assert_eq!(index, 8);
    assert_eq!(counters.temp, 0);
}

#[test]
fn functions() {
    assert_eq!(program("func f() { }").unwrap(), "%func f\n%endfunc\n\n");
    assert_eq!(program("func f(int a) { }").unwrap(), "%func f(%int a)\n%endfunc\n\n");
    assert_eq!(
        program("func add(int a, int b) { return a + b; } func main() { print(add(1, 2)); }")
            .unwrap(),
        "%func add(%int a, %int b)\n%int _temp1\n%add _temp1, a, b\n%ret _temp1\n%endfunc\n\n%func main\n%int _temp2\n%call _temp2, add(1,2)\n%out _temp2\n%endfunc\n\n"
    );
    assert_eq!(program("").unwrap(), "");
    assert_eq!(program("int x;").unwrap_err(), "functions must begin with func");
    assert_eq!(program("func 1() { }").unwrap_err(), "functions must have a function identifier");
    assert_eq!(program("func f { }").unwrap_err(), "expected '('");
    assert_eq!(program("func f(a) { }").unwrap_err(), "expected 'int' keyword or ')' token");
    assert_eq!(program("func f(int 1) { }").unwrap_err(), "expected ident function parameter");
    assert_eq!(program("func f(int a int b) { }").unwrap_err(), "expected ',' or ')'");
    assert_eq!(program("func f(int a,) { }").unwrap_err(), "expected 'int' keyword");
    assert_eq!(program("func f(int a, b) { }").unwrap_err(), "expected 'int' keyword");
    assert_eq!(program("func f() int x; }").unwrap_err(), "expected '{'");
    assert_eq!(program("func f() { int x;").unwrap_err(), "expected a token, but got nothing");
    assert_eq!(program("func").unwrap_err(), "expected a token, but got nothing");
    assert_eq!(program("func f(").unwrap_err(), "expected a token, but got nothing");
    assert_eq!(program("func f() { } }").unwrap_err(), "functions must begin with func");
}

#[test]
fn function_reads_one_function() {
    let tokens = lex("func f() { } func g() { }").unwrap();
    let mut index = 0;
    let mut counters = Counters::new();
    assert_eq!(
        parse_function(&tokens, &mut index, &mut counters).unwrap().unwrap(),
        "%func f\n%endfunc\n\n"
    );
    assert_eq!(index, 6);
    assert_eq!(
        parse_function(&tokens, &mut index, &mut counters).unwrap().unwrap(),
        "%func g\n%endfunc\n\n"
    );
    assert_eq!(index, 12);
    assert_eq!(parse_function(&tokens, &mut index, &mut counters), Ok(None));
    assert_eq!(index, 12);
}

#[test]
fn names_are_numbered_through_the_program() {
    let tokens = lex("x = a + b; y = c * d;").unwrap();
    let mut index = 0;
    let mut counters = Counters::new();
    counters.temp = 41;
    assert_eq!(
        parse_statement(&tokens, &mut index, &mut counters).unwrap().unwrap(),
        "%int _temp42\n%add _temp42, a, b\n%mov x, _temp42\n"
    );
    assert_eq!(
        parse_statement(&tokens, &mut index, &mut counters).unwrap().unwrap(),
        "%int _temp43\n%mult _temp43, c, d\n%mov y, _temp43\n"
    );
    assert_eq!(counters.temp, 43);
}

#[test]
fn cursor_functions() {
    let tokens = lex("a 1").unwrap();
    assert!(matches!(peek(&tokens, 0), Some(Token::Ident(name)) if name == "a"));
    assert!(matches!(peek(&tokens, 1), Some(Token::Num(1))));
    assert!(peek(&tokens, 2).is_none());
    assert!(matches!(peek_result(&tokens, 1), Ok(Token::Num(1))));
    assert_eq!(peek_result(&tokens, 2).unwrap_err(), "expected a token, but got nothing");
    let mut index = 0;
    assert!(matches!(next(&tokens, &mut index), Some(Token::Ident(_))));
    assert_eq!(index, 1);
    assert!(matches!(next_result(&tokens, &mut index), Ok(Token::Num(1))));
    assert_eq!(index, 2);
    assert!(next(&tokens, &mut index).is_none());
    assert_eq!(index, 2);
    assert_eq!(next_result(&tokens, &mut index).unwrap_err(), "expected a token, but got nothing");
    assert_eq!(index, 2);
}

#[test]
fn names_from_the_counters() {
    let mut counters = Counters::new();
    assert_eq!(create_temp(&mut counters), "_temp1");
    assert_eq!(create_temp(&mut counters), "_temp2");
    assert_eq!(create_whileloopbegin_label(&mut counters), "loopbegin1");
    assert_eq!(create_whileloopend_label(&mut counters), "endloop_1");
    assert_eq!(create_iftrue_label(&mut counters), "iftrue1");
    assert_eq!(create_endif_label(&mut counters), "endif1");
    assert_eq!(create_else_label(&mut counters), "else1");
    counters.temp = 99;
    assert_eq!(create_temp(&mut counters), "_temp100");
    assert_eq!(counters.temp, 100);
    assert_eq!(counters.loop_begin, 1);
    assert_eq!(counters.loop_end, 1);
    assert_eq!(counters.if_true, 1);
    assert_eq!(counters.end_if, 1);
    assert_eq!(counters.else_branch, 1);
}

#[test]
fn expression_functions() {
    let tokens = lex("a * b + c ;").unwrap();
    let mut index = 0;
    let mut counters = Counters::new();
    let e = parse_term(&tokens, &mut index, &mut counters).unwrap();
    assert_eq!((e.code.as_str(), e.name.as_str(), index), ("", "a", 1));
    let mut index = 0;
    let e = parse_multiply_expression(&tokens, &mut index, &mut counters).unwrap();
    assert_eq!((e.code.as_str(), e.name.as_str(), index), ("%int _temp1\n%mult _temp1, a, b\n", "_temp1", 3));
    let mut index = 0;
    let e = parse_expression(&tokens, &mut index, &mut counters).unwrap();
    assert_eq!(
        (e.code.as_str(), e.name.as_str(), index),
        ("%int _temp2\n%mult _temp2, a, b\n%int _temp3\n%add _temp3, _temp2, c\n", "_temp3", 5)
    );
    let tokens = lex("-5").unwrap();
    assert_eq!(parse_term(&tokens, &mut 0, &mut counters).unwrap_err(), "invalid expression");
    let tokens = vec![Token::Num(-5), Token::Semicolon];
    let e = parse_term(&tokens, &mut 0, &mut counters).unwrap();
    assert_eq!((e.code.as_str(), e.name.as_str()), ("", "-5"));
}

#[test]
fn comparison_and_array_form() {
    let tokens = lex("a[1] <= f(2) {").unwrap();
    let mut index = 0;
    let mut counters = Counters::new();
    let e = parse_boolean_expression(&tokens, &mut index, &mut counters).unwrap();
    assert_eq!(
        e.code,
        "%int _temp1\n%mov _temp1, [a + 1]\n%int _temp2\n%call _temp2, f(2)\n%int _temp3\n%le _temp3, _temp1, _temp2\n"
    );
    assert_eq!(e.name, "_temp3");
    assert_eq!(index, 9);
    let tokens = lex("[ i ] ;").unwrap();
    let mut index = 0;
    let e = parse_array_form(&tokens, &mut index, &mut counters).unwrap();
    assert_eq!((e.code.as_str(), e.name.as_str(), index), ("", "i", 3));
    let mut index = 1;
    let e = parse_array_form(&tokens, &mut index, &mut counters).unwrap();
    assert_eq!((e.code.as_str(), e.name.as_str(), index), ("", "i", 3));
    let tokens = lex("[ i + 1 ]").unwrap();
    let mut index = 0;
    let e = parse_array_form(&tokens, &mut index, &mut counters).unwrap();
    assert_eq!(
        (e.code.as_str(), e.name.as_str(), index),
        ("%int _temp4\n%add _temp4, i, 1\n", "_temp4", 5)
    );
    let tokens = lex("[n + 1] x").unwrap();
    let mut index = 0;
    let e = parse_array_form(&tokens, &mut index, &mut Counters::new()).unwrap();
    assert_eq!(
        (e.code.as_str(), e.name.as_str(), index),
        ("%int _temp1\n%add _temp1, n, 1\n", "_temp1", 5)
    );
    let tokens = lex("[ i j ]").unwrap();
    assert_eq!(parse_array_form(&tokens, &mut 0, &mut counters).unwrap_err(), "expected ']'");
    let tokens = lex("[ i").unwrap();
    assert_eq!(
        parse_array_form(&tokens, &mut 0, &mut counters).unwrap_err(),
        "expected a token, but got nothing"
    );
    let tokens = lex("a < ").unwrap();
    assert_eq!(
        parse_boolean_expression(&tokens, &mut 0, &mut counters).unwrap_err(),
        "expected a token, but got nothing"
    );
}
