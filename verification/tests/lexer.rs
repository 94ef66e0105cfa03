use tac_compiler::lexer::{lex_punctuation, lex};
use tac_compiler::text::to_chars;
use tac_compiler::{
    create_identifier, lex_identifier, lex_number, lex_space, skip_comment, unrecognized_symbol,
    Token,
};

fn text(chars: &[char]) -> String {
    chars.iter().collect()
}

#[test]
fn lexer_test() {
    let toks = lex("1 <2").unwrap();
    assert!(toks.len() == 3);
    assert!(matches!(toks[0], Token::Num(1)));
    assert!(matches!(toks[1], Token::Less));
    assert!(matches!(toks[2], Token::Num(2)));

    let toks = lex("1 > 2").unwrap();
    assert!(toks.len() == 3);
    assert!(matches!(toks[0], Token::Num(1)));
    assert!(matches!(toks[1], Token::Greater));
    assert!(matches!(toks[2], Token::Num(2)));

    let toks = lex("1 <= 2").unwrap();
    assert!(toks.len() == 3);
    assert!(matches!(toks[0], Token::Num(1)));
    assert!(matches!(toks[1], Token::LessEqual));
    assert!(matches!(toks[2], Token::Num(2)));

    let toks = lex("1>=2").unwrap();
    assert!(toks.len() == 3);
    assert!(matches!(toks[0], Token::Num(1)));
    assert!(matches!(toks[1], Token::GreaterEqual));
    assert!(matches!(toks[2], Token::Num(2)));

    let toks = lex("1==2").unwrap();
    assert!(toks.len() == 3);
    assert!(matches!(toks[0], Token::Num(1)));
    assert!(matches!(toks[1], Token::Equality));
    assert!(matches!(toks[2], Token::Num(2)));

    let toks = lex("1!=2").unwrap();
    assert!(toks.len() == 3);
    assert!(matches!(toks[0], Token::Num(1)));
    assert!(matches!(toks[1], Token::NotEqual));
    assert!(matches!(toks[2], Token::Num(2)));

    // test that lexer works on correct cases
    let toks = lex("1 + 2 + 3").unwrap();
    assert!(toks.len() == 5);
    assert!(matches!(toks[0], Token::Num(1)));
    assert!(matches!(toks[1], Token::Plus));
    assert!(matches!(toks[2], Token::Num(2)));
    assert!(matches!(toks[3], Token::Plus));
    assert!(matches!(toks[4], Token::Num(3)));

    let toks = lex("3 + 215 +-").unwrap();
    assert!(toks.len() == 5);
    assert!(matches!(toks[0], Token::Num(3)));
    assert!(matches!(toks[1], Token::Plus));
    assert!(matches!(toks[2], Token::Num(215)));
    assert!(matches!(toks[3], Token::Plus));
    assert!(matches!(toks[4], Token::Subtract));

    // test that the lexer catches invalid tokens
    assert!(matches!(lex("^^^"), Err(_)));

    //test that lexer identifies left paren and right paren
    let toks = lex("( ( ( ( ) ) ) )").unwrap();
    assert!(toks.len() == 8);
    assert!(matches!(toks[0], Token::LeftParen));
    assert!(matches!(toks[1], Token::LeftParen));
    assert!(matches!(toks[2], Token::LeftParen));
    assert!(matches!(toks[3], Token::LeftParen));
    assert!(matches!(toks[4], Token::RightParen));
    assert!(matches!(toks[5], Token::RightParen));
    assert!(matches!(toks[6], Token::RightParen));
    assert!(matches!(toks[7], Token::RightParen));

    // test for print
    let toks = lex("print ").unwrap();
    assert!(toks.len() == 1);
    assert!(matches!(toks[0], Token::Print));

    // test for else
    let toks = lex("else ").unwrap();
    assert!(toks.len() == 1);
    assert!(matches!(toks[0], Token::Else));

    // test for break
    let toks = lex("break ").unwrap();
    assert!(toks.len() == 1);
    assert!(matches!(toks[0], Token::Break));

    // test for continue
    let toks = lex("continue ").unwrap();
    assert!(toks.len() == 1);
    assert!(matches!(toks[0], Token::Continue));

    //test for comments
    let toks = lex("#Hello \n 1").unwrap();
    assert!(toks.len() == 1);
    assert!(matches!(toks[0], Token::Num(1)));
}

#[test]
fn empty_text_has_no_tokens() {
    assert!(lex("").unwrap().is_empty());
    assert!(lex(" \t\n").unwrap().is_empty());
}

#[test]
fn numeral_gives_its_number() {
    for n in [0, 1, 9, 10, 215, 1000000, 2147483646, i32::MAX] {
        let toks = lex(&n.to_string()).unwrap();
        assert_eq!(toks.len(), 1);
        assert!(matches!(toks[0], Token::Num(m) if m == n));
    }
}

#[test]
fn leading_zeros_are_read() {
    let toks = lex("007").unwrap();
    assert_eq!(toks.len(), 1);
    assert!(matches!(toks[0], Token::Num(7)));
}

#[test]
fn literal_beyond_32_bits_is_rejected() {
    assert_eq!(lex("2147483648").unwrap_err(), "Unidentified symbol 2147483648");
    assert_eq!(
        lex("x = 99999999999999999999 + 1").unwrap_err(),
        "Unidentified symbol 99999999999999999999"
    );
}

#[test]
fn digits_followed_by_a_letter_are_rejected() {
    assert_eq!(lex("12a").unwrap_err(), "Unidentified symbol 12a");
    assert_eq!(lex("12A").unwrap_err(), "Unidentified symbol 12A");
    assert_eq!(lex("1 2x3 4").unwrap_err(), "Unidentified symbol 2x3");
}

#[test]
fn digits_followed_by_an_underscore() {
    assert_eq!(lex("12_").unwrap_err(), "Unidentified symbol _");
}

#[test]
fn maximal_munch() {
    let toks = lex("<=").unwrap();
    assert_eq!(toks.len(), 1);
    assert!(matches!(toks[0], Token::LessEqual));
    let toks = lex(">=").unwrap();
    assert_eq!(toks.len(), 1);
    assert!(matches!(toks[0], Token::GreaterEqual));
    let toks = lex("==").unwrap();
    assert_eq!(toks.len(), 1);
    assert!(matches!(toks[0], Token::Equality));
    let toks = lex("!=").unwrap();
    assert_eq!(toks.len(), 1);
    assert!(matches!(toks[0], Token::NotEqual));
    let toks = lex("< =").unwrap();
    assert_eq!(toks.len(), 2);
    assert!(matches!(toks[0], Token::Less));
    assert!(matches!(toks[1], Token::Assign));
    let toks = lex("===").unwrap();
    assert_eq!(toks.len(), 2);
    assert!(matches!(toks[0], Token::Equality));
    assert!(matches!(toks[1], Token::Assign));
}

#[test]
fn lone_exclamation_mark_is_rejected() {
    assert_eq!(lex("!").unwrap_err(), "Unidentified symbol !");
    assert_eq!(lex("a ! b").unwrap_err(), "Unidentified symbol !");
    assert_eq!(lex("!x").unwrap_err(), "Unidentified symbol !x");
}

#[test]
fn comment_counts_as_a_blank() {
    let commented = lex("# anything\nX").unwrap();
    let blank = lex(" X").unwrap();
    assert_eq!(commented.len(), 1);
    assert_eq!(blank.len(), 1);
    assert!(matches!(&commented[0], Token::Ident(name) if name == "X"));
    assert!(matches!(&blank[0], Token::Ident(name) if name == "X"));
    assert!(lex("# no newline at all").unwrap().is_empty());
    let toks = lex("1 # one\n2 # two").unwrap();
    assert_eq!(toks.len(), 2);
    assert!(matches!(toks[0], Token::Num(1)));
    assert!(matches!(toks[1], Token::Num(2)));
}

#[test]
fn keyword_and_identifier() {
    let toks = lex("intx").unwrap();
    assert_eq!(toks.len(), 1);
    assert!(matches!(&toks[0], Token::Ident(name) if name == "intx"));
    let toks = lex("int x").unwrap();
    assert_eq!(toks.len(), 2);
    assert!(matches!(toks[0], Token::Int));
    assert!(matches!(&toks[1], Token::Ident(name) if name == "x"));
}

#[test]
fn every_keyword() {
    let toks = lex("func return int print read while if else break continue").unwrap();
    assert_eq!(toks.len(), 10);
    assert!(matches!(toks[0], Token::Func));
    assert!(matches!(toks[1], Token::Return));
    assert!(matches!(toks[2], Token::Int));
    assert!(matches!(toks[3], Token::Print));
    assert!(matches!(toks[4], Token::Read));
    assert!(matches!(toks[5], Token::While));
    assert!(matches!(toks[6], Token::If));
    assert!(matches!(toks[7], Token::Else));
    assert!(matches!(toks[8], Token::Break));
    assert!(matches!(toks[9], Token::Continue));
}

#[test]
fn every_punctuation_mark() {
    let toks = lex("+-*/%=(){}[],;<>").unwrap();
    assert_eq!(toks.len(), 16);
    assert!(matches!(toks[0], Token::Plus));
    assert!(matches!(toks[1], Token::Subtract));
    assert!(matches!(toks[2], Token::Multiply));
    assert!(matches!(toks[3], Token::Divide));
    assert!(matches!(toks[4], Token::Modulus));
    assert!(matches!(toks[5], Token::Assign));
    assert!(matches!(toks[6], Token::LeftParen));
    assert!(matches!(toks[7], Token::RightParen));
    assert!(matches!(toks[8], Token::LeftCurly));
    assert!(matches!(toks[9], Token::RightCurly));
    assert!(matches!(toks[10], Token::LeftBracket));
    assert!(matches!(toks[11], Token::RightBracket));
    assert!(matches!(toks[12], Token::Comma));
    assert!(matches!(toks[13], Token::Semicolon));
    assert!(matches!(toks[14], Token::Less));
    assert!(matches!(toks[15], Token::Greater));
}

#[test]
fn identifier_with_digits_and_underscores() {
    let toks = lex("a_1b2__ c").unwrap();
    assert_eq!(toks.len(), 2);
    assert!(matches!(&toks[0], Token::Ident(name) if name == "a_1b2__"));
    assert!(matches!(&toks[1], Token::Ident(name) if name == "c"));
}

#[test]
fn identifier_may_not_begin_with_an_underscore() {
    assert_eq!(lex("_temp1").unwrap_err(), "Unidentified symbol _temp1");
}

#[test]
fn unknown_symbol_runs_to_the_next_whitespace() {
    assert_eq!(lex("a ^^^b c").unwrap_err(), "Unidentified symbol ^^^b");
    assert_eq!(lex("^^^").unwrap_err(), "Unidentified symbol ^^^");
    assert_eq!(lex("x = \u{e9}t\u{e9}\u{a0}y").unwrap_err(), "Unidentified symbol \u{e9}t\u{e9}");
}

#[test]
fn unicode_whitespace_is_skipped() {
    let toks = lex("1\u{a0}2\u{2003}3\u{3000}").unwrap();
    assert_eq!(toks.len(), 3);
}

#[test]
fn lex_space_skips_one_character() {
    let code = to_chars("  x");
    let (found, rest) = lex_space(&code);
    assert!(found);
    assert_eq!(text(rest), " x");
    let code = to_chars("x ");
    let (found, rest) = lex_space(&code);
    assert!(!found);
    assert_eq!(text(rest), "x ");
    let (found, rest) = lex_space(&[]);
    assert!(!found);
    assert!(rest.is_empty());
}

#[test]
fn lex_number_reads_the_digits() {
    let code = to_chars("215+1");
    let (found, token, rest) = lex_number(&code);
    assert!(found);
    assert!(matches!(token, Token::Num(215)));
    assert_eq!(text(rest), "+1");
    let code = to_chars("x1");
    let (found, token, rest) = lex_number(&code);
    assert!(!found);
    assert!(matches!(token, Token::NotToken));
    assert!(rest.is_empty());
    let code = to_chars("12ab");
    let (found, token, rest) = lex_number(&code);
    assert!(!found);
    assert!(matches!(token, Token::NotToken));
    assert!(rest.is_empty());
}

#[test]
fn lex_identifier_reads_the_word() {
    let code = to_chars("while1 x");
    let (found, token, rest) = lex_identifier(&code);
    assert!(found);
    assert!(matches!(&token, Token::Ident(name) if name == "while1"));
    assert_eq!(text(rest), " x");
    let code = to_chars("while(");
    let (found, token, rest) = lex_identifier(&code);
    assert!(found);
    assert!(matches!(token, Token::While));
    assert_eq!(text(rest), "(");
    let code = to_chars("1x");
    let (found, token, rest) = lex_identifier(&code);
    assert!(!found);
    assert!(matches!(token, Token::NotToken));
    assert!(rest.is_empty());
}

#[test]
fn lex_punctuation_reads_the_mark() {
    let code = to_chars("<=1");
    let (found, token, rest) = lex_punctuation(&code);
    assert!(found);
    assert!(matches!(token, Token::LessEqual));
    assert_eq!(text(rest), "1");
    let code = to_chars("a");
    let (found, token, rest) = lex_punctuation(&code);
    assert!(!found);
    assert!(matches!(token, Token::NotToken));
    assert!(rest.is_empty());
}

#[test]
fn skip_comment_stops_behind_the_newline() {
    let code = to_chars("# one\n# two\nx");
    assert_eq!(text(skip_comment(&code)), "# two\nx");
    let code = to_chars("# no newline");
    assert!(skip_comment(&code).is_empty());
    let code = to_chars("\nx");
    assert_eq!(text(skip_comment(&code)), "x");
}

#[test]
fn unrecognized_symbol_takes_the_first_character() {
    let code = to_chars(" ab cd");
    assert_eq!(text(unrecognized_symbol(&code)), " ab");
    let code = to_chars("$$ x");
    assert_eq!(text(unrecognized_symbol(&code)), "$$");
    assert!(unrecognized_symbol(&[]).is_empty());
}

#[test]
fn create_identifier_knows_the_keywords() {
    assert!(matches!(create_identifier(&to_chars("func")), Token::Func));
    assert!(matches!(create_identifier(&to_chars("return")), Token::Return));
    assert!(matches!(create_identifier(&to_chars("int")), Token::Int));
    assert!(matches!(create_identifier(&to_chars("read")), Token::Read));
    assert!(matches!(create_identifier(&to_chars("while")), Token::While));
    assert!(matches!(create_identifier(&to_chars("if")), Token::If));
    assert!(matches!(create_identifier(&to_chars("print")), Token::Print));
    assert!(matches!(create_identifier(&to_chars("else")), Token::Else));
    assert!(matches!(create_identifier(&to_chars("break")), Token::Break));
    assert!(matches!(create_identifier(&to_chars("continue")), Token::Continue));
    assert!(matches!(create_identifier(&to_chars("Func")), Token::Ident(name) if name == "Func"));
    assert!(matches!(create_identifier(&to_chars("iff")), Token::Ident(name) if name == "iff"));
}
