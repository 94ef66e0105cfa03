//! The lexer: from the characters of a source text to its tokens.
//!
//! The specification reads the text from its head. [`head`] says what stands
//! at the head of a non-empty text, and [`lexemes`] reads on behind it until
//! the text is used up or nothing is recognised.

use crate::text::{
    all_digits, decimal, digit, from_chars, identifier, identifier_char, is_digit,
    is_identifier_char, is_letter, is_whitespace, lemma_decimal, lemma_numeral_value_push,
    lemma_symbol_run_is, letter, numeral_value, push_chars, spells, symbol_run, to_chars,
    whitespace,
};
use crate::token::{lemma_token_views_push, token_views, Token, TokenView};
use vstd::prelude::*;
use vstd::slice::slice_subrange;

verus! {

/// The number of leading decimal digits of `s`.
pub open spec fn digit_run(s: Seq<char>) -> nat
    decreases s.len(),
{
    if s.len() > 0 && digit(s[0]) {
        1 + digit_run(s.skip(1))
    } else {
        0
    }
}

/// The number of leading identifier characters of `s`.
pub open spec fn identifier_run(s: Seq<char>) -> nat
    decreases s.len(),
{
    if s.len() > 0 && identifier_char(s[0]) {
        1 + identifier_run(s.skip(1))
    } else {
        0
    }
}

/// The number of characters up to and including the first newline of `s`, or
/// the length of `s` when it holds no newline.
pub open spec fn comment_length(s: Seq<char>) -> nat
    decreases s.len(),
{
    if s.len() == 0 {
        0
    } else if s[0] == '\n' {
        1
    } else {
        1 + comment_length(s.skip(1))
    }
}

/// The integer literal at the head of `s`, with its length: a maximal run of
/// digits that no letter follows and whose value fits in 32 bits.
pub open spec fn number(s: Seq<char>) -> Option<(int, nat)> {
    let n = digit_run(s);
    let value = numeral_value(s.take(n as int));
    if n > 0 && !(n < s.len() && letter(s[n as int])) && value <= i32::MAX {
        Some((value, n))
    } else {
        None
    }
}

/// The length of the word at the head of `s`: a letter, then letters, digits
/// and underscores for as long as they go on.
pub open spec fn word(s: Seq<char>) -> Option<nat> {
    if s.len() > 0 && letter(s[0]) {
        Some(identifier_run(s))
    } else {
        None
    }
}

/// The token that a word stands for: its keyword, or else an identifier.
pub open spec fn keyword_or_identifier(w: Seq<char>) -> TokenView {
    if w == "func"@ {
        TokenView::Func
    } else if w == "return"@ {
        TokenView::Return
    } else if w == "int"@ {
        TokenView::Int
    } else if w == "read"@ {
        TokenView::Read
    } else if w == "while"@ {
        TokenView::While
    } else if w == "if"@ {
        TokenView::If
    } else if w == "print"@ {
        TokenView::Print
    } else if w == "else"@ {
        TokenView::Else
    } else if w == "break"@ {
        TokenView::Break
    } else if w == "continue"@ {
        TokenView::Continue
    } else {
        TokenView::Ident(w)
    }
}

/// The operator or punctuation mark at the head of `s`, with its length. The
/// two-character comparisons win over their one-character beginnings.
pub open spec fn punctuation(s: Seq<char>) -> Option<(TokenView, nat)> {
    if s.len() == 0 {
        None
    } else {
        let c = s[0];
        let followed_by_equals = s.len() > 1 && s[1] == '=';
        if c == '+' {
            Some((TokenView::Plus, 1))
        } else if c == '-' {
            Some((TokenView::Subtract, 1))
        } else if c == '*' {
            Some((TokenView::Multiply, 1))
        } else if c == '/' {
            Some((TokenView::Divide, 1))
        } else if c == '%' {
            Some((TokenView::Modulus, 1))
        } else if c == '=' {
            if followed_by_equals {
                Some((TokenView::Equality, 2))
            } else {
                Some((TokenView::Assign, 1))
            }
        } else if c == '(' {
            Some((TokenView::LeftParen, 1))
        } else if c == ')' {
            Some((TokenView::RightParen, 1))
        } else if c == '{' {
            Some((TokenView::LeftCurly, 1))
        } else if c == '}' {
            Some((TokenView::RightCurly, 1))
        } else if c == '[' {
            Some((TokenView::LeftBracket, 1))
        } else if c == ']' {
            Some((TokenView::RightBracket, 1))
        } else if c == ',' {
            Some((TokenView::Comma, 1))
        } else if c == ';' {
            Some((TokenView::Semicolon, 1))
        } else if c == '<' {
            if followed_by_equals {
                Some((TokenView::LessEqual, 2))
            } else {
                Some((TokenView::Less, 1))
            }
        } else if c == '>' {
            if followed_by_equals {
                Some((TokenView::GreaterEqual, 2))
            } else {
                Some((TokenView::Greater, 1))
            }
        } else if c == '!' && followed_by_equals {
            Some((TokenView::NotEqual, 2))
        } else {
            None
        }
    }
}

/// What stands at the head of a text.
pub enum Lexeme {
    /// A token and the number of characters it takes.
    Token(TokenView, nat),
    /// Whitespace or a comment of the given length, which yields no token.
    Blank(nat),
    /// Nothing that the language knows.
    Unknown,
}

/// What stands at the head of the non-empty text `s`. An integer literal is
/// tried first, then whitespace, operators and punctuation, a comment, and a
/// word last.
pub open spec fn head(s: Seq<char>) -> Lexeme
    recommends
        s.len() > 0,
{
    if let Some((value, n)) = number(s) {
        Lexeme::Token(TokenView::Num(value), n)
    } else if whitespace(s[0]) {
        Lexeme::Blank(1)
    } else if let Some((token, n)) = punctuation(s) {
        Lexeme::Token(token, n)
    } else if s[0] == '#' {
        Lexeme::Blank(comment_length(s))
    } else if let Some(n) = word(s) {
        Lexeme::Token(keyword_or_identifier(s.take(n as int)), n)
    } else {
        Lexeme::Unknown
    }
}

/// The symbol that is reported when nothing is recognised at the head of `s`:
/// its first character and what follows up to the next whitespace.
pub open spec fn unrecognized(s: Seq<char>) -> Seq<char> {
    if s.len() == 0 {
        s
    } else {
        s.take(1 + symbol_run(s.skip(1)) as int)
    }
}

/// The length of what stands at the head of `s`; zero when it is unknown.
pub open spec fn head_length(s: Seq<char>) -> nat {
    match head(s) {
        Lexeme::Token(_, n) => n,
        Lexeme::Blank(n) => n,
        Lexeme::Unknown => 0,
    }
}

/// The tokens of the text `s`, or the symbol at which lexing fails.
pub open spec fn lexemes(s: Seq<char>) -> Result<Seq<TokenView>, Seq<char>>
    decreases s.len(),
{
    if s.len() == 0 {
        Ok(Seq::empty())
    } else {
        match head(s) {
            Lexeme::Unknown => Err(unrecognized(s)),
            Lexeme::Blank(n) => {
                proof {
                    lemma_head_length(s);
                }
                lexemes(s.skip(n as int))
            },
            Lexeme::Token(t, n) => {
                proof {
                    lemma_head_length(s);
                }
                match lexemes(s.skip(n as int)) {
                    Ok(rest) => Ok(seq![t] + rest),
                    Err(symbol) => Err(symbol),
                }
            },
        }
    }
}

/// The tokens `before`, followed by the outcome `after` of lexing on.
pub open spec fn followed_by(
    before: Seq<TokenView>,
    after: Result<Seq<TokenView>, Seq<char>>,
) -> Result<Seq<TokenView>, Seq<char>> {
    match after {
        Ok(rest) => Ok(before + rest),
        Err(symbol) => Err(symbol),
    }
}

/// The message with which lexing fails at the symbol `symbol`.
pub open spec fn unidentified(symbol: Seq<char>) -> Seq<char> {
    "Unidentified symbol "@ + symbol
}

/// A run is no longer than the text that it begins.
pub proof fn lemma_digit_run_bound(s: Seq<char>)
    ensures
        digit_run(s) <= s.len(),
    decreases s.len(),
{
    if s.len() > 0 && digit(s[0]) {
        lemma_digit_run_bound(s.skip(1));
    }
}

/// A run is no longer than the text that it begins.
pub proof fn lemma_identifier_run_bound(s: Seq<char>)
    ensures
        identifier_run(s) <= s.len(),
    decreases s.len(),
{
    if s.len() > 0 && identifier_char(s[0]) {
        lemma_identifier_run_bound(s.skip(1));
    }
}

/// A comment is no longer than the text that it begins, and not empty
/// unless the text is.
pub proof fn lemma_comment_length_bound(s: Seq<char>)
    ensures
        comment_length(s) <= s.len(),
        s.len() > 0 ==> comment_length(s) > 0,
    decreases s.len(),
{
    if s.len() > 0 && s[0] != '\n' {
        lemma_comment_length_bound(s.skip(1));
    }
}

/// Whatever is recognised at the head of a non-empty text takes at least one
/// of its characters and no more than it has.
pub proof fn lemma_head_length(s: Seq<char>)
    requires
        s.len() > 0,
    ensures
        head(s) !is Unknown ==> 0 < head_length(s) <= s.len(),
{
    lemma_digit_run_bound(s);
    lemma_identifier_run_bound(s);
    lemma_comment_length_bound(s);
}

/// A run of `k` characters of one kind, followed by the end of the text or by
/// a character of another kind, is the whole run at the head of the text.
pub proof fn lemma_digit_run_is(s: Seq<char>, k: int)
    requires
        0 <= k <= s.len(),
        forall|j: int| 0 <= j < k ==> digit(#[trigger] s[j]),
        k == s.len() || !digit(s[k]),
    ensures
        digit_run(s) == k,
    decreases k,
{
    if k > 0 {
        let t = s.skip(1);
        assert forall|j: int| 0 <= j < k - 1 implies digit(#[trigger] t[j]) by {
            assert(t[j] == s[j + 1]);
        }
        lemma_digit_run_is(t, k - 1);
    }
}

/// As [`lemma_digit_run_is`], for identifier characters.
pub proof fn lemma_identifier_run_is(s: Seq<char>, k: int)
    requires
        0 <= k <= s.len(),
        forall|j: int| 0 <= j < k ==> identifier_char(#[trigger] s[j]),
        k == s.len() || !identifier_char(s[k]),
    ensures
        identifier_run(s) == k,
    decreases k,
{
    if k > 0 {
        let t = s.skip(1);
        assert forall|j: int| 0 <= j < k - 1 implies identifier_char(#[trigger] t[j]) by {
            assert(t[j] == s[j + 1]);
        }
        lemma_identifier_run_is(t, k - 1);
    }
}

/// A run of `k` characters that are not newlines, followed by a newline or
/// by the end of the text, is the comment at the head of the text, with the
/// newline if there is one.
pub proof fn lemma_comment_length_is(s: Seq<char>, k: int)
    requires
        0 <= k <= s.len(),
        forall|j: int| 0 <= j < k ==> #[trigger] s[j] != '\n',
        k == s.len() || s[k] == '\n',
    ensures
        comment_length(s) == if k == s.len() {
            k
        } else {
            k + 1
        },
    decreases k,
{
    if k > 0 {
        let t = s.skip(1);
        assert forall|j: int| 0 <= j < k - 1 implies #[trigger] t[j] != '\n' by {
            assert(t[j] == s[j + 1]);
        }
        lemma_comment_length_is(t, k - 1);
    }
}

/// Skips one whitespace character at the head of `code`, if there is one.
pub fn lex_space(code: &[char]) -> (r: (bool, &[char]))
    ensures
        r.0 == (code@.len() > 0 && whitespace(code@[0])),
        r.0 ==> r.1@ == code@.skip(1),
        !r.0 ==> r.1@ == code@,
{
    if code.len() > 0 && is_whitespace(code[0]) {
        (true, slice_subrange(code, 1, code.len()))
    } else {
        (false, code)
    }
}

/// Reads the integer literal at the head of `code`. Where there is none, the
/// token is `NotToken` and the rest is empty.
pub fn lex_number(code: &[char]) -> (r: (bool, Token, &[char]))
    ensures
        match number(code@) {
            Some((value, n)) => r.0 && r.1@ == TokenView::Num(value) && r.2@ == code@.skip(
                n as int,
            ),
            None => !r.0 && r.1 is NotToken && r.2@.len() == 0,
        },
{
    let len = code.len();
    let mut index: usize = 0;
    let mut value: i64 = 0;
    let mut fits = true;
    while index < len && is_digit(code[index])
        invariant
            index <= len,
            len == code@.len(),
            forall|j: int| 0 <= j < index ==> digit(#[trigger] code@[j]),
            fits ==> value == numeral_value(code@.take(index as int)),
            fits ==> 0 <= value <= i32::MAX,
            !fits ==> numeral_value(code@.take(index as int)) > i32::MAX,
        decreases len - index,
    {
        let c = code[index];
        proof {
            assert(code@.take(index + 1) =~= code@.take(index as int).push(c));
            lemma_numeral_value_push(code@.take(index as int), c);
        }
        if fits {
            value = value * 10 + (c as u32 - 48) as i64;
            if value > 0x7fff_ffff {
                fits = false;
            }
        }
        index += 1;
    }
    proof {
        lemma_digit_run_is(code@, index as int);
    }
    let empty = slice_subrange(code, len, len);
    if index == 0 || !fits {
        return (false, Token::NotToken, empty);
    }
    if index < len && is_letter(code[index]) {
        return (false, Token::NotToken, empty);
    }
    (true, Token::Num(value as i32), slice_subrange(code, index, len))
}

/// Turns a word into its keyword token, or into an identifier.
pub fn create_identifier(code: &[char]) -> (token: Token)
    ensures
        token@ == keyword_or_identifier(code@),
{
    if spells(code, "func") {
        Token::Func
    } else if spells(code, "return") {
        Token::Return
    } else if spells(code, "int") {
        Token::Int
    } else if spells(code, "read") {
        Token::Read
    } else if spells(code, "while") {
        Token::While
    } else if spells(code, "if") {
        Token::If
    } else if spells(code, "print") {
        Token::Print
    } else if spells(code, "else") {
        Token::Else
    } else if spells(code, "break") {
        Token::Break
    } else if spells(code, "continue") {
        Token::Continue
    } else {
        Token::Ident(from_chars(code))
    }
}

/// Reads the keyword or identifier at the head of `code`. Where there is
/// none, the token is `NotToken` and the rest is empty.
pub fn lex_identifier(code: &[char]) -> (r: (bool, Token, &[char]))
    ensures
        match word(code@) {
            Some(n) => r.0 && r.1@ == keyword_or_identifier(code@.take(n as int)) && r.2@
                == code@.skip(n as int),
            None => !r.0 && r.1 is NotToken && r.2@.len() == 0,
        },
{
    let len = code.len();
    if len == 0 || !is_letter(code[0]) {
        return (false, Token::NotToken, slice_subrange(code, len, len));
    }
    let mut index: usize = 1;
    while index < len && is_identifier_char(code[index])
        invariant
            1 <= index <= len,
            len == code@.len(),
            forall|j: int| 0 <= j < index ==> identifier_char(#[trigger] code@[j]),
        decreases len - index,
    {
        index += 1;
    }
    proof {
        lemma_identifier_run_is(code@, index as int);
        assert(code@.subrange(0, index as int) =~= code@.take(index as int));
        assert(code@.subrange(index as int, len as int) =~= code@.skip(index as int));
    }
    let token = create_identifier(slice_subrange(code, 0, index));
    (true, token, slice_subrange(code, index, len))
}

/// Skips a comment: what is left of `code` behind its first newline, or
/// nothing when no newline follows.
pub fn skip_comment(code: &[char]) -> (rest: &[char])
    ensures
        rest@ == code@.skip(comment_length(code@) as int),
{
    let len = code.len();
    let mut index: usize = 0;
    while index < len && code[index] != '\n'
        invariant
            index <= len,
            len == code@.len(),
            forall|j: int| 0 <= j < index ==> #[trigger] code@[j] != '\n',
        decreases len - index,
    {
        index += 1;
    }
    proof {
        lemma_comment_length_is(code@, index as int);
    }
    let end: usize = if index < len {
        index + 1
    } else {
        len
    };
    let rest = slice_subrange(code, end, len);
    assert(code@.subrange(end as int, len as int) =~= code@.skip(end as int));
    rest
}

/// The symbol to report when nothing is recognised at the head of `code`:
/// its first character and what follows up to the next whitespace.
pub fn unrecognized_symbol(code: &[char]) -> (symbol: &[char])
    ensures
        symbol@ == unrecognized(code@),
{
    let len = code.len();
    if len == 0 {
        return code;
    }
    let mut index: usize = 1;
    while index < len && !is_whitespace(code[index])
        invariant
            1 <= index <= len,
            len == code@.len(),
            forall|j: int| 0 <= j < index - 1 ==> !whitespace(#[trigger] code@.skip(1)[j]),
        decreases len - index,
    {
        index += 1;
    }
    proof {
        lemma_symbol_run_is(code@.skip(1), index - 1);
        assert(code@.subrange(0, index as int) =~= code@.take(index as int));
    }
    slice_subrange(code, 0, index)
}

/// Reads the operator or punctuation mark at the head of `code`. Where there
/// is none, the token is `NotToken` and the rest is empty.
pub fn lex_punctuation(code: &[char]) -> (r: (bool, Token, &[char]))
    ensures
        match punctuation(code@) {
            Some((token, n)) => r.0 && r.1@ == token && r.2@ == code@.skip(n as int),
            None => !r.0 && r.1 is NotToken && r.2@.len() == 0,
        },
{
    let len = code.len();
    let empty = slice_subrange(code, len, len);
    if len == 0 {
        return (false, Token::NotToken, empty);
    }
    let c = code[0];
    let followed_by_equals = len > 1 && code[1] == '=';
    let (token, n): (Token, usize) = if c == '+' {
        (Token::Plus, 1)
    } else if c == '-' {
        (Token::Subtract, 1)
    } else if c == '*' {
        (Token::Multiply, 1)
    } else if c == '/' {
        (Token::Divide, 1)
    } else if c == '%' {
        (Token::Modulus, 1)
    } else if c == '=' {
        if followed_by_equals {
            (Token::Equality, 2)
        } else {
            (Token::Assign, 1)
        }
    } else if c == '(' {
        (Token::LeftParen, 1)
    } else if c == ')' {
        (Token::RightParen, 1)
    } else if c == '{' {
        (Token::LeftCurly, 1)
    } else if c == '}' {
        (Token::RightCurly, 1)
    } else if c == '[' {
        (Token::LeftBracket, 1)
    } else if c == ']' {
        (Token::RightBracket, 1)
    } else if c == ',' {
        (Token::Comma, 1)
    } else if c == ';' {
        (Token::Semicolon, 1)
    } else if c == '<' {
        if followed_by_equals {
            (Token::LessEqual, 2)
        } else {
            (Token::Less, 1)
        }
    } else if c == '>' {
        if followed_by_equals {
            (Token::GreaterEqual, 2)
        } else {
            (Token::Greater, 1)
        }
    } else if c == '!' && followed_by_equals {
        (Token::NotEqual, 2)
    } else {
        return (false, Token::NotToken, empty);
    };
    let rest = slice_subrange(code, n, len);
    assert(code@.subrange(n as int, len as int) =~= code@.skip(n as int));
    (true, token, rest)
}

/// Turns a source text into its tokens. Fails at the first symbol that the
/// language does not know, with a message that names it.
pub fn lex(code: &str) -> (r: Result<Vec<Token>, String>)
    ensures
        match lexemes(code@) {
            Ok(tokens) => r is Ok && token_views(r->Ok_0@) == tokens,
            Err(symbol) => r is Err && r->Err_0@ == unidentified(symbol),
        },
{
    let chars = to_chars(code);
    let mut rest: &[char] = chars.as_slice();
    let mut tokens: Vec<Token> = Vec::new();
    assert(token_views(tokens@) =~= Seq::<TokenView>::empty());
    assert(Seq::<TokenView>::empty() + lexemes(code@)->Ok_0 =~= lexemes(code@)->Ok_0);
    while rest.len() > 0
        invariant
            followed_by(token_views(tokens@), lexemes(rest@)) == lexemes(code@),
        decreases rest@.len(),
    {
        let ghost before = token_views(tokens@);
        let ghost text = rest@;
        proof {
            lemma_head_length(text);
        }
        let (success, token, behind) = lex_number(rest);
        if success {
            proof {
                lemma_token_views_push(tokens@, token);
                lemma_followed_by_push(before, token@, lexemes(behind@));
            }
            tokens.push(token);
            rest = behind;
            continue ;
        }
        let (success, behind) = lex_space(rest);
        if success {
            rest = behind;
            continue ;
        }
        let (success, token, behind) = lex_punctuation(rest);
        if success {
            proof {
                lemma_token_views_push(tokens@, token);
                lemma_followed_by_push(before, token@, lexemes(behind@));
            }
            tokens.push(token);
            rest = behind;
            continue ;
        }
        if rest[0] == '#' {
            rest = skip_comment(rest);
            continue ;
        }
        let (success, token, behind) = lex_identifier(rest);
        if success {
            proof {
                lemma_token_views_push(tokens@, token);
                lemma_followed_by_push(before, token@, lexemes(behind@));
            }
            tokens.push(token);
            rest = behind;
            continue ;
        }
        let symbol = unrecognized_symbol(rest);
        let mut message = String::from_str("Unidentified symbol ");
        push_chars(&mut message, symbol);
        return Err(message);
    }
    assert(token_views(tokens@) + Seq::<TokenView>::empty() =~= token_views(tokens@));
    Ok(tokens)
}

/// Reading one more token and then lexing on gives the same as lexing on
/// behind the tokens read so far with that token in front.
pub proof fn lemma_followed_by_push(
    before: Seq<TokenView>,
    token: TokenView,
    after: Result<Seq<TokenView>, Seq<char>>,
)
    ensures
        followed_by(before.push(token), after) == followed_by(
            before,
            followed_by(seq![token], after),
        ),
{
    if let Ok(rest) = after {
        assert(before.push(token) + rest =~= before + (seq![token] + rest));
    }
}

/// Lexing the decimal numeral of a number that fits in 32 bits gives that
/// number as the only token.
pub proof fn lemma_lex_numeral(n: nat)
    requires
        n <= i32::MAX,
    ensures
        lexemes(decimal(n)) == Ok::<Seq<TokenView>, Seq<char>>(seq![TokenView::Num(n as int)]),
{
    let s = decimal(n);
    lemma_decimal(n);
    lemma_digit_run_is(s, s.len() as int);
    assert(s.take(s.len() as int) =~= s);
    assert(number(s) == Some((n as int, s.len())));
    assert(s.skip(s.len() as int).len() == 0);
    assert(lexemes(s.skip(s.len() as int)) == Ok::<Seq<TokenView>, Seq<char>>(Seq::empty()));
    assert(seq![TokenView::Num(n as int)] + Seq::<TokenView>::empty() =~= seq![
        TokenView::Num(n as int),
    ]);
}

/// A comment counts for as much as one blank: a text that begins with `#`,
/// runs on to a newline and then continues with `rest` has the tokens of a
/// blank followed by `rest`.
pub proof fn lemma_comment_is_blank(comment: Seq<char>, rest: Seq<char>)
    requires
        forall|i: int| 0 <= i < comment.len() ==> comment[i] != '\n',
    ensures
        lexemes(seq!['#'] + comment + seq!['\n'] + rest) == lexemes(seq![' '] + rest),
{
    let commented = seq!['#'] + comment + seq!['\n'] + rest;
    let blank = seq![' '] + rest;
    let k = 1 + comment.len() as int;
    assert(commented[0] == '#');
    assert(commented[k] == '\n');
    assert forall|j: int| 0 <= j < k implies #[trigger] commented[j] != '\n' by {
        if j > 0 {
            assert(commented[j] == comment[j - 1]);
        }
    }
    lemma_comment_length_is(commented, k);
    assert(commented.skip(k + 1) =~= rest);
    assert(head(commented) == Lexeme::Blank((k + 1) as nat));
    assert(blank[0] == ' ');
    assert(blank.skip(1) =~= rest);
    assert(head(blank) == Lexeme::Blank(1));
}

/// The longest match wins: a comparison of two characters is read as one
/// token, whatever follows it.
pub proof fn lemma_comparisons_are_read_whole(rest: Seq<char>)
    ensures
        lexemes(seq!['<', '='] + rest) == followed_by(seq![TokenView::LessEqual], lexemes(rest)),
        lexemes(seq!['>', '='] + rest) == followed_by(
            seq![TokenView::GreaterEqual],
            lexemes(rest),
        ),
        lexemes(seq!['=', '='] + rest) == followed_by(seq![TokenView::Equality], lexemes(rest)),
        lexemes(seq!['!', '='] + rest) == followed_by(seq![TokenView::NotEqual], lexemes(rest)),
{
    lemma_comparison_is_read_whole('<', rest);
    lemma_comparison_is_read_whole('>', rest);
    lemma_comparison_is_read_whole('=', rest);
    lemma_comparison_is_read_whole('!', rest);
}

/// The comparison that `c` begins when an equals sign follows it.
pub open spec fn comparison_with_equals(c: char) -> TokenView {
    if c == '<' {
        TokenView::LessEqual
    } else if c == '>' {
        TokenView::GreaterEqual
    } else if c == '=' {
        TokenView::Equality
    } else {
        TokenView::NotEqual
    }
}

/// A text that begins with one of `<`, `>`, `=` and `!` and an equals sign
/// begins with the comparison of both characters.
proof fn lemma_comparison_is_read_whole(c: char, rest: Seq<char>)
    requires
        c == '<' || c == '>' || c == '=' || c == '!',
    ensures
        lexemes(seq![c, '='] + rest) == followed_by(
            seq![comparison_with_equals(c)],
            lexemes(rest),
        ),
{
    let s = seq![c, '='] + rest;
    assert(s[0] == c);
    assert(s[1] == '=');
    assert(s.skip(2) =~= rest);
    assert(number(s) is None);
    assert(punctuation(s) == Some((comparison_with_equals(c), 2nat)));
}

/// A word is read whole: a text that begins with an identifier, behind which
/// no letter, digit or underscore follows, begins with the keyword that the
/// identifier spells, or with the identifier if it spells none.
pub proof fn lemma_word_is_read_whole(w: Seq<char>, rest: Seq<char>)
    requires
        identifier(w),
        rest.len() == 0 || !identifier_char(rest[0]),
    ensures
        lexemes(w + rest) == followed_by(seq![keyword_or_identifier(w)], lexemes(rest)),
{
    let s = w + rest;
    assert forall|j: int| 0 <= j < w.len() implies identifier_char(#[trigger] s[j]) by {
        assert(s[j] == w[j]);
    }
    if rest.len() > 0 {
        assert(s[w.len() as int] == rest[0]);
    }
    lemma_identifier_run_is(s, w.len() as int);
    assert(s[0] == w[0]);
    assert(number(s) is None);
    assert(punctuation(s) is None);
    assert(s.take(w.len() as int) =~= w);
    assert(s.skip(w.len() as int) =~= rest);
}

/// Digits with a letter right behind them are no literal: lexing fails at
/// the digits.
pub proof fn lemma_digits_before_a_letter_fail(digits: Seq<char>, c: char, rest: Seq<char>)
    requires
        digits.len() > 0,
        all_digits(digits),
        letter(c),
    ensures
        lexemes(digits + seq![c] + rest) == Err::<Seq<TokenView>, Seq<char>>(
            unrecognized(digits + seq![c] + rest),
        ),
{
    let s = digits + seq![c] + rest;
    assert forall|j: int| 0 <= j < digits.len() implies digit(#[trigger] s[j]) by {
        assert(s[j] == digits[j]);
    }
    assert(s[digits.len() as int] == c);
    lemma_digit_run_is(s, digits.len() as int);
    assert(s[0] == digits[0]);
    assert(number(s) is None);
    assert(punctuation(s) is None);
}

/// A literal beyond 32 bits is no literal: lexing fails at its digits.
pub proof fn lemma_large_literal_fails(digits: Seq<char>, rest: Seq<char>)
    requires
        all_digits(digits),
        numeral_value(digits) > i32::MAX,
        rest.len() == 0 || !digit(rest[0]),
    ensures
        lexemes(digits + rest) == Err::<Seq<TokenView>, Seq<char>>(unrecognized(digits + rest)),
{
    let s = digits + rest;
    assert(digits.len() > 0);
    assert forall|j: int| 0 <= j < digits.len() implies digit(#[trigger] s[j]) by {
        assert(s[j] == digits[j]);
    }
    if rest.len() > 0 {
        assert(s[digits.len() as int] == rest[0]);
    }
    lemma_digit_run_is(s, digits.len() as int);
    assert(s.take(digits.len() as int) =~= digits);
    assert(s[0] == digits[0]);
    assert(number(s) is None);
    assert(punctuation(s) is None);
}

/// An exclamation mark without an equals sign behind it is no token:
/// lexing fails at it.
pub proof fn lemma_lone_exclamation_mark_fails(s: Seq<char>)
    requires
        s.len() > 0,
        s[0] == '!',
        s.len() == 1 || s[1] != '=',
    ensures
        lexemes(s) == Err::<Seq<TokenView>, Seq<char>>(unrecognized(s)),
{
    assert(number(s) is None);
}

/// Every identifier among the tokens is a letter followed by letters,
/// digits and underscores.
pub open spec fn tidy_tokens(tokens: Seq<TokenView>) -> bool {
    forall|i: int|
        0 <= i < tokens.len() ==> (#[trigger] tokens[i] matches TokenView::Ident(name)
            ==> identifier(name))
}

/// The characters of the run of identifier characters at the head of a text
/// are identifier characters.
proof fn lemma_identifier_run_holds(s: Seq<char>, j: int)
    requires
        0 <= j < identifier_run(s),
    ensures
        j < s.len(),
        identifier_char(s[j]),
    decreases j,
{
    if j > 0 {
        lemma_identifier_run_holds(s.skip(1), j - 1);
        assert(s.skip(1)[j - 1] == s[j]);
    }
}

/// The token that a word stands for is a keyword, or an identifier if the
/// word is one.
proof fn lemma_word_is_tidy(s: Seq<char>)
    requires
        word(s) is Some,
    ensures
        keyword_or_identifier(s.take(word(s)->0 as int)) matches TokenView::Ident(name)
            ==> identifier(name),
{
    let n = identifier_run(s);
    let w = s.take(n as int);
    lemma_identifier_run_bound(s);
    assert forall|i: int| 0 <= i < w.len() implies identifier_char(#[trigger] w[i]) by {
        lemma_identifier_run_holds(s, i);
    }
}

/// The lexer gives only identifiers that are letters followed by letters,
/// digits and underscores.
pub proof fn lemma_lexemes_tidy(s: Seq<char>)
    ensures
        lexemes(s) matches Ok(tokens) ==> tidy_tokens(tokens),
    decreases s.len(),
{
    if s.len() > 0 {
        lemma_head_length(s);
        match head(s) {
            Lexeme::Unknown => {},
            Lexeme::Blank(n) => {
                lemma_lexemes_tidy(s.skip(n as int));
            },
            Lexeme::Token(t, n) => {
                lemma_lexemes_tidy(s.skip(n as int));
                if word(s) is Some {
                    lemma_word_is_tidy(s);
                }
                if let Ok(rest) = lexemes(s.skip(n as int)) {
                    let tokens = seq![t] + rest;
                    assert forall|i: int| 0 <= i < tokens.len() implies (
                    #[trigger] tokens[i] matches TokenView::Ident(name) ==> identifier(name)) by {
                        if i > 0 {
                            assert(tokens[i] == rest[i - 1]);
                        }
                    }
                }
            },
        }
    }
}

} // verus!
