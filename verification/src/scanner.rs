//! The scanner: from source text to tokens.

use crate::text::{
    after, char_is_whitespace, decimal, decimal_nat, digits_value, first, in_class, is_letter,
    is_name, is_name_char, is_whitespace, lemma_decimal_value, lemma_run_len,
    lemma_run_len_bound, lemma_run_len_within, push_chars, run_len, spells, string_of, to_chars,
    CharClass,
};
use crate::token::{identifiers_are_names, token_views, Token, TokenView};
use vstd::prelude::*;
use vstd::string::*;

verus! {

/// A number at the start of `s`: its value and its length. A run of digits
/// whose value does not fit in 32 bits is no number.
pub open spec fn scan_number(s: Seq<char>) -> Option<(i32, nat)> {
    let n = run_len(s, CharClass::Digit);
    let value = digits_value(s.take(n as int));
    if n > 0 && value <= i32::MAX {
        Some((value as i32, n))
    } else {
        None
    }
}

/// The decimal notation of a number that fits in 32 bits is scanned as
/// that number.
pub proof fn lemma_number_scans(n: i32)
    requires
        n >= 0,
    ensures
        scan_number(decimal(n as int)) == Some((n, decimal(n as int).len())),
{
    let digits = decimal_nat(n as nat);
    lemma_decimal_value(n as nat);
    lemma_run_len(digits, CharClass::Digit, digits.len());
    assert(digits.take(digits.len() as int) =~= digits);
}

/// The length of the name at the start of `s`, if a letter starts it.
pub open spec fn scan_name(s: Seq<char>) -> Option<nat> {
    if s.len() > 0 && is_letter(s[0]) {
        Some(1 + run_len(s.skip(1), CharClass::NameChar))
    } else {
        None
    }
}

/// The keyword that `word` spells, or else the identifier of that name.
pub open spec fn keyword_or_name(word: Seq<char>) -> TokenView {
    if word == "func"@ {
        TokenView::Func
    } else if word == "return"@ {
        TokenView::Return
    } else if word == "int"@ {
        TokenView::Int
    } else if word == "print"@ {
        TokenView::Print
    } else if word == "else"@ {
        TokenView::Else
    } else if word == "break"@ {
        TokenView::Break
    } else if word == "continue"@ {
        TokenView::Continue
    } else if word == "read"@ {
        TokenView::Read
    } else if word == "while"@ {
        TokenView::While
    } else if word == "if"@ {
        TokenView::If
    } else {
        TokenView::Ident(word)
    }
}

/// The operator or punctuation mark at the start of `s`, with its length.
/// A two-character operator wins over its one-character prefix.
pub open spec fn scan_operator(s: Seq<char>) -> Option<(TokenView, nat)> {
    if s.len() == 0 {
        None
    } else {
        let c = s[0];
        let doubled = s.len() >= 2 && s[1] == '=';
        if c == '+' {
            Some((TokenView::Plus, 1))
        } else if c == '-' {
            Some((TokenView::Subtract, 1))
        } else if c == '*' {
            Some((TokenView::Multiply, 1))
        } else if c == '/' {
            Some((TokenView::Divide, 1))
        } else if c == '%' {
            Some((TokenView::Modulus, 1))
        } else if c == '=' {
            if doubled {
                Some((TokenView::Equality, 2))
            } else {
                Some((TokenView::Assign, 1))
            }
        } else if c == '(' {
            Some((TokenView::LeftParen, 1))
        } else if c == ')' {
            Some((TokenView::RightParen, 1))
        } else if c == '{' {
            Some((TokenView::LeftCurly, 1))
        } else if c == '}' {
            Some((TokenView::RightCurly, 1))
        } else if c == '[' {
            Some((TokenView::LeftBracket, 1))
        } else if c == ']' {
            Some((TokenView::RightBracket, 1))
        } else if c == ',' {
            Some((TokenView::Comma, 1))
        } else if c == ';' {
            Some((TokenView::Semicolon, 1))
        } else if c == '<' {
            if doubled {
                Some((TokenView::LessEqual, 2))
            } else {
                Some((TokenView::Less, 1))
            }
        } else if c == '>' {
            if doubled {
                Some((TokenView::GreaterEqual, 2))
            } else {
                Some((TokenView::Greater, 1))
            }
        } else if c == '!' && doubled {
            Some((TokenView::NotEqual, 2))
        } else {
            None
        }
    }
}

/// The length of the comment at the start of `s`: through the next line
/// feed, or to the end where there is none.
pub open spec fn scan_comment(s: Seq<char>) -> Option<nat> {
    if s.len() > 0 && s[0] == '#' {
        let n = run_len(s, CharClass::SameLine);
        if n < s.len() {
            Some(n + 1)
        } else {
            Some(n)
        }
    } else {
        None
    }
}

/// The lexeme that an error names: the first character of `s` and what
/// follows it up to the next white space.
pub open spec fn unrecognized(s: Seq<char>) -> Seq<char> {
    if s.len() == 0 {
        s
    } else {
        s.take(1 + run_len(s.skip(1), CharClass::Visible) as int)
    }
}

/// What the scanner finds at the start of a text.
pub ghost enum Scan {
    /// A token of the given length.
    Token(TokenView, nat),
    /// White space or a comment of the given length.
    Skip(nat),
    /// Nothing that the language knows: the lexeme that the error names.
    Fail(Seq<char>),
}

/// One step of the scanner on a text that is not empty. The rules are tried
/// in this order: number, white space, operator, comment, name.
pub open spec fn scan(s: Seq<char>) -> Scan {
    if let Some((value, n)) = scan_number(s) {
        Scan::Token(TokenView::Num(value), n)
    } else if is_whitespace(s[0]) {
        Scan::Skip(1)
    } else if let Some((token, n)) = scan_operator(s) {
        Scan::Token(token, n)
    } else if let Some(n) = scan_comment(s) {
        Scan::Skip(n)
    } else if let Some(n) = scan_name(s) {
        Scan::Token(keyword_or_name(s.take(n as int)), n)
    } else {
        Scan::Fail(unrecognized(s))
    }
}

/// The number of characters that a step consumes.
pub open spec fn scan_len(s: Seq<char>) -> nat {
    match scan(s) {
        Scan::Token(_, n) => n,
        Scan::Skip(n) => n,
        Scan::Fail(lexeme) => lexeme.len(),
    }
}

/// A step on a text that is not empty consumes at least one character and
/// no more than there are.
pub proof fn lemma_scan_advances(s: Seq<char>)
    requires
        s.len() > 0,
    ensures
        0 < scan_len(s) <= s.len(),
{
    lemma_run_len_bound(s, CharClass::Digit);
    lemma_run_len_bound(s, CharClass::SameLine);
    lemma_run_len_bound(s.skip(1), CharClass::NameChar);
    lemma_run_len_bound(s.skip(1), CharClass::Visible);
}

/// The message for a text that starts with nothing the language knows.
pub open spec fn unidentified(lexeme: Seq<char>) -> Seq<char> {
    "Unidentified symbol "@ + lexeme
}

/// The tokens of a text, or the error for the first lexeme that is none.
pub open spec fn spec_lex(s: Seq<char>) -> Result<Seq<TokenView>, Seq<char>>
    decreases s.len(),
{
    if s.len() == 0 {
        Ok(Seq::empty())
    } else {
        proof {
            lemma_scan_advances(s);
        }
        match scan(s) {
            Scan::Token(token, n) => match spec_lex(s.skip(n as int)) {
                Ok(tokens) => Ok(seq![token] + tokens),
                Err(message) => Err(message),
            },
            Scan::Skip(n) => spec_lex(s.skip(n as int)),
            Scan::Fail(lexeme) => Err(unidentified(lexeme)),
        }
    }
}

/// A scanner's result as mathematical values.
pub open spec fn lex_result(r: Result<Vec<Token>, String>) -> Result<Seq<TokenView>, Seq<char>> {
    match r {
        Ok(tokens) => Ok(token_views(tokens@)),
        Err(message) => Err(message@),
    }
}

/// The tokens found so far, followed by the outcome for the rest.
pub open spec fn lex_after(done: Seq<TokenView>, rest: Result<Seq<TokenView>, Seq<char>>) -> Result<
    Seq<TokenView>,
    Seq<char>,
> {
    match rest {
        Ok(tokens) => Ok(done + tokens),
        Err(message) => Err(message),
    }
}

proof fn lemma_lex_token(done: Seq<TokenView>, s: Seq<char>, token: TokenView, n: nat)
    requires
        s.len() > 0,
        scan(s) == Scan::Token(token, n),
    ensures
        lex_after(done, spec_lex(s)) == lex_after(done.push(token), spec_lex(s.skip(n as int))),
{
    match spec_lex(s.skip(n as int)) {
        Ok(tokens) => {
            assert(done + (seq![token] + tokens) =~= done.push(token) + tokens);
        },
        Err(_) => {},
    }
}

/// The token of a word that is a name is a keyword or an identifier whose
/// name is a name.
pub proof fn lemma_keyword_or_name(word: Seq<char>)
    requires
        is_name(word),
    ensures
        keyword_or_name(word) matches TokenView::Ident(name) ==> is_name(name),
{
}

/// Every identifier that the scanner finds is a name.
pub proof fn lemma_lex_names(s: Seq<char>)
    ensures
        spec_lex(s) matches Ok(tokens) ==> identifiers_are_names(tokens),
    decreases s.len(),
{
    if s.len() > 0 {
        lemma_scan_advances(s);
        match scan(s) {
            Scan::Token(token, n) => {
                lemma_lex_names(s.skip(n as int));
                if let Ok(rest) = spec_lex(s.skip(n as int)) {
                    let tokens = seq![token] + rest;
                    if let Some(m) = scan_name(s) {
                        if scan_number(s) is None && !is_whitespace(s[0]) && scan_operator(s) is None
                            && scan_comment(s) is None {
                            let word = s.take(m as int);
                            lemma_run_len_within(s.skip(1), CharClass::NameChar);
                            assert forall|i: int| 0 <= i < word.len() implies is_name_char(
                                #[trigger] word[i],
                            ) by {
                                if i > 0 {
                                    assert(word[i] == s.skip(1)[i - 1]);
                                }
                            }
                            lemma_keyword_or_name(word);
                        }
                    }
                    assert forall|k: int| 0 <= k < tokens.len() implies (
                    #[trigger] tokens[k] matches TokenView::Ident(name) ==> is_name(name)) by {
                        if k > 0 {
                            assert(tokens[k] == rest[k - 1]);
                        }
                    }
                }
            },
            Scan::Skip(n) => {
                lemma_lex_names(s.skip(n as int));
            },
            Scan::Fail(_) => {},
        }
    }
}

/// Equal texts have equal tokens, or fail with equal messages: whatever two
/// runs of the scanner return on the same text is the same.
pub proof fn lemma_lex_deterministic(
    text1: Seq<char>,
    text2: Seq<char>,
    r1: Result<Vec<Token>, String>,
    r2: Result<Vec<Token>, String>,
)
    requires
        text1 == text2,
        lex_result(r1) == spec_lex(text1),
        lex_result(r2) == spec_lex(text2),
    ensures
        lex_result(r1) == lex_result(r2),
{
}

/// Recognizes a number at the start of `code`: one or more decimal digits
/// whose value fits in 32 bits. Returns whether there is one, its token, and
/// the text after it (on failure `Token::NotToken` and an empty text).
pub fn lex_number(code: &[char]) -> (r: (bool, Token, &[char]))
    ensures
        match scan_number(code@) {
            Some((value, n)) => r.0 && r.1@ == TokenView::Num(value) && r.2@ == code@.skip(n as int),
            None => !r.0 && r.1@ == TokenView::NotToken && r.2@.len() == 0,
        },
{
    let mut i: usize = 0;
    let mut value: i64 = 0;
    let mut fits = true;
    while i < code.len() && code[i] >= '0' && code[i] <= '9'
        invariant
            i <= code@.len(),
            forall|k: int| 0 <= k < i ==> in_class(CharClass::Digit, #[trigger] code@[k]),
            fits ==> value == digits_value(code@.take(i as int)) && value <= i32::MAX,
            !fits ==> digits_value(code@.take(i as int)) > i32::MAX,
        decreases code@.len() - i,
    {
        let digit: i64 = (code[i] as u32 - '0' as u32) as i64;
        proof {
            assert(code@.take(i + 1).drop_last() =~= code@.take(i as int));
            assert(code@.take(i + 1).last() == code@[i as int]);
        }
        if fits {
            let next: i64 = value * 10 + digit;
            if next > i32::MAX as i64 {
                fits = false;
            } else {
                value = next;
            }
        }
        i += 1;
    }
    proof {
        lemma_run_len(code@, CharClass::Digit, i as nat);
    }
    if i > 0 && fits {
        (true, Token::Num(value as i32), after(code, i))
    } else {
        (false, Token::NotToken, first(code, 0))
    }
}

/// Recognizes one white-space character at the start of `code`. Returns
/// whether there is one, and the text after it (on failure the text itself).
pub fn lex_space(code: &[char]) -> (r: (bool, &[char]))
    ensures
        r.0 == (code@.len() > 0 && is_whitespace(code@[0])),
        r.0 ==> r.1@ == code@.skip(1),
        !r.0 ==> r.1@ == code@,
{
    if code.len() > 0 && char_is_whitespace(code[0]) {
        (true, after(code, 1))
    } else {
        (false, code)
    }
}

/// Recognizes an operator or a punctuation mark at the start of `code`.
/// Returns whether there is one, its token, and the text after it (on failure
/// `Token::NotToken` and an empty text).
pub fn lex_operator(code: &[char]) -> (r: (bool, Token, &[char]))
    ensures
        match scan_operator(code@) {
            Some((token, n)) => r.0 && r.1@ == token && r.2@ == code@.skip(n as int),
            None => !r.0 && r.1@ == TokenView::NotToken && r.2@.len() == 0,
        },
{
    if code.len() == 0 {
        return (false, Token::NotToken, code);
    }
    let c = code[0];
    let doubled = code.len() >= 2 && code[1] == '=';
    if c == '+' {
        (true, Token::Plus, after(code, 1))
    } else if c == '-' {
        (true, Token::Subtract, after(code, 1))
    } else if c == '*' {
        (true, Token::Multiply, after(code, 1))
    } else if c == '/' {
        (true, Token::Divide, after(code, 1))
    } else if c == '%' {
        (true, Token::Modulus, after(code, 1))
    } else if c == '=' && doubled {
        (true, Token::Equality, after(code, 2))
    } else if c == '=' {
        (true, Token::Assign, after(code, 1))
    } else if c == '(' {
        (true, Token::LeftParen, after(code, 1))
    } else if c == ')' {
        (true, Token::RightParen, after(code, 1))
    } else if c == '{' {
        (true, Token::LeftCurly, after(code, 1))
    } else if c == '}' {
        (true, Token::RightCurly, after(code, 1))
    } else if c == '[' {
        (true, Token::LeftBracket, after(code, 1))
    } else if c == ']' {
        (true, Token::RightBracket, after(code, 1))
    } else if c == ',' {
        (true, Token::Comma, after(code, 1))
    } else if c == ';' {
        (true, Token::Semicolon, after(code, 1))
    } else if c == '<' && doubled {
        (true, Token::LessEqual, after(code, 2))
    } else if c == '<' {
        (true, Token::Less, after(code, 1))
    } else if c == '>' && doubled {
        (true, Token::GreaterEqual, after(code, 2))
    } else if c == '>' {
        (true, Token::Greater, after(code, 1))
    } else if c == '!' && doubled {
        (true, Token::NotEqual, after(code, 2))
    } else {
        (false, Token::NotToken, first(code, 0))
    }
}

/// Recognizes a comment at the start of `code`: from `#` through the next
/// line feed, or to the end of the text. Returns whether there is one, and
/// the text after it (on failure the text itself).
pub fn lex_comment(code: &[char]) -> (r: (bool, &[char]))
    ensures
        match scan_comment(code@) {
            Some(n) => r.0 && n <= code@.len() && r.1@ == code@.skip(n as int),
            None => !r.0 && r.1@ == code@,
        },
{
    if code.len() == 0 || code[0] != '#' {
        return (false, code);
    }
    let mut i: usize = 0;
    while i < code.len() && code[i] != '\n'
        invariant
            i <= code@.len(),
            forall|k: int| 0 <= k < i ==> in_class(CharClass::SameLine, #[trigger] code@[k]),
        decreases code@.len() - i,
    {
        i += 1;
    }
    proof {
        lemma_run_len(code@, CharClass::SameLine, i as nat);
    }
    if i < code.len() {
        (true, after(code, i + 1))
    } else {
        (true, after(code, i))
    }
}

/// Recognizes a name at the start of `code`: a letter, then letters, digits
/// and underscores. Returns whether there is one, the keyword or identifier
/// that it spells, and the text after it (on failure `Token::NotToken` and an
/// empty text).
pub fn lex_identifier(code: &[char]) -> (r: (bool, Token, &[char]))
    ensures
        match scan_name(code@) {
            Some(n) => r.0 && n <= code@.len() && r.1@ == keyword_or_name(code@.take(n as int))
                && r.2@ == code@.skip(n as int),
            None => !r.0 && r.1@ == TokenView::NotToken && r.2@.len() == 0,
        },
{
    if code.len() == 0 || !letter(code[0]) {
        return (false, Token::NotToken, first(code, 0));
    }
    let mut i: usize = 1;
    while i < code.len() && name_char(code[i])
        invariant
            1 <= i <= code@.len(),
            forall|k: int| 0 <= k < i - 1 ==> in_class(CharClass::NameChar, #[trigger] code@.skip(1)[k]),
        decreases code@.len() - i,
    {
        i += 1;
    }
    proof {
        lemma_run_len(code@.skip(1), CharClass::NameChar, (i - 1) as nat);
    }
    (true, create_identifier(first(code, i)), after(code, i))
}

fn letter(c: char) -> (b: bool)
    ensures
        b == is_letter(c),
{
    (c >= 'a' && c <= 'z') || (c >= 'A' && c <= 'Z')
}

fn name_char(c: char) -> (b: bool)
    ensures
        b == is_name_char(c),
{
    letter(c) || (c >= '0' && c <= '9') || c == '_'
}

/// The lexeme that an error message names: the first character of `code` and
/// what follows it up to the next white space.
pub fn unrecognized_symbol(code: &[char]) -> (r: &[char])
    ensures
        r@ == unrecognized(code@),
{
    if code.len() == 0 {
        return code;
    }
    let mut i: usize = 1;
    while i < code.len() && !char_is_whitespace(code[i])
        invariant
            1 <= i <= code@.len(),
            forall|k: int| 0 <= k < i - 1 ==> in_class(CharClass::Visible, #[trigger] code@.skip(1)[k]),
        decreases code@.len() - i,
    {
        i += 1;
    }
    proof {
        lemma_run_len(code@.skip(1), CharClass::Visible, (i - 1) as nat);
    }
    first(code, i)
}

/// The token of a word: the keyword that it spells, or else an identifier of
/// that name.
pub fn create_identifier(code: &[char]) -> (token: Token)
    ensures
        token@ == keyword_or_name(code@),
{
    if spells(code, "func") {
        Token::Func
    } else if spells(code, "return") {
        Token::Return
    } else if spells(code, "int") {
        Token::Int
    } else if spells(code, "print") {
        Token::Print
    } else if spells(code, "else") {
        Token::Else
    } else if spells(code, "break") {
        Token::Break
    } else if spells(code, "continue") {
        Token::Continue
    } else if spells(code, "read") {
        Token::Read
    } else if spells(code, "while") {
        Token::While
    } else if spells(code, "if") {
        Token::If
    } else {
        Token::Ident(string_of(code))
    }
}

/// Turns source text into its tokens. White space and comments separate
/// tokens and leave none. The first lexeme that is no token ends the scan
/// with the message `Unidentified symbol` and the lexeme.
pub fn lex(code: &str) -> (result: Result<Vec<Token>, String>)
    ensures
        lex_result(result) == spec_lex(code@),
{
    let chars = to_chars(code);
    let mut rest: &[char] = chars.as_slice();
    let mut tokens: Vec<Token> = Vec::new();
    assert(token_views(tokens@) =~= Seq::empty());
    assert(lex_after(Seq::empty(), spec_lex(code@)) == spec_lex(code@)) by {
        match spec_lex(code@) {
            Ok(found) => {
                assert(Seq::<TokenView>::empty() + found =~= found);
            },
            Err(_) => {},
        }
    }
    while rest.len() > 0
        invariant
            lex_after(token_views(tokens@), spec_lex(rest@)) == spec_lex(code@),
        decreases rest@.len(),
    {
        let ghost done = token_views(tokens@);
        let ghost here = rest@;
        proof {
            lemma_scan_advances(here);
        }
        let (success, token, after_number) = lex_number(rest);
        if success {
            proof {
                lemma_lex_token(done, here, token@, scan_len(here));
            }
            tokens.push(token);
            assert(token_views(tokens@) =~= done.push(token@));
            rest = after_number;
            continue ;
        }
        let (success, after_space) = lex_space(rest);
        if success {
            rest = after_space;
            continue ;
        }
        let (success, token, after_operator) = lex_operator(rest);
        if success {
            proof {
                lemma_lex_token(done, here, token@, scan_len(here));
            }
            tokens.push(token);
            assert(token_views(tokens@) =~= done.push(token@));
            rest = after_operator;
            continue ;
        }
        let (success, after_comment) = lex_comment(rest);
        if success {
            rest = after_comment;
            continue ;
        }
        let (success, token, after_name) = lex_identifier(rest);
        if success {
            proof {
                lemma_lex_token(done, here, token@, scan_len(here));
            }
            tokens.push(token);
            assert(token_views(tokens@) =~= done.push(token@));
            rest = after_name;
            continue ;
        }
        let symbol = unrecognized_symbol(rest);
        let mut message = String::from_str("Unidentified symbol ");
        push_chars(&mut message, symbol);
        return Err(message);
    }
    assert(token_views(tokens@) + Seq::<TokenView>::empty() =~= token_views(tokens@));
    Ok(tokens)
}

} // verus!
