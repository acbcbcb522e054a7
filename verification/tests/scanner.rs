use minilang::lex;
use minilang::Token;

#[test]
fn lexer_test() {
    // test that lexer works on correct cases
    let toks = lex("1 + 2 + 3").unwrap();
    assert!(toks.len() == 5);
    assert!(matches!(toks[0], Token::Num(1)));
    assert!(matches!(toks[1], Token::Plus));
    assert!(matches!(toks[2], Token::Num(2)));
    assert!(matches!(toks[3], Token::Plus));
    assert!(matches!(toks[4], Token::Num(3)));

    let toks = lex("3 + 215 +-").unwrap();
    assert!(toks.len() == 5);
    assert!(matches!(toks[0], Token::Num(3)));
    assert!(matches!(toks[1], Token::Plus));
    assert!(matches!(toks[2], Token::Num(215)));
    assert!(matches!(toks[3], Token::Plus));
    assert!(matches!(toks[4], Token::Subtract));

    // test that the lexer catches invalid tokens
    assert!(matches!(lex("^^^"), Err(_)));
}

#[test]
fn unknown_character_names_the_lexeme() {
    assert_eq!(lex("a ^b c").unwrap_err(), "Unidentified symbol ^b");
    assert_eq!(lex("^^^").unwrap_err(), "Unidentified symbol ^^^");
}

#[test]
fn every_token_kind_is_scanned() {
    let toks = lex("func return int print read if else while break continue x_1 ( ) { } [ ] , ; + - * / % = == != < <= > >=").unwrap();
    assert_eq!(toks.len(), 31);
    assert!(matches!(toks[0], Token::Func));
    assert!(matches!(toks[1], Token::Return));
    assert!(matches!(toks[2], Token::Int));
    assert!(matches!(toks[3], Token::Print));
    assert!(matches!(toks[4], Token::Read));
    assert!(matches!(toks[5], Token::If));
    assert!(matches!(toks[6], Token::Else));
    assert!(matches!(toks[7], Token::While));
    assert!(matches!(toks[8], Token::Break));
    assert!(matches!(toks[9], Token::Continue));
    assert!(matches!(&toks[10], Token::Ident(name) if name == "x_1"));
    assert!(matches!(toks[11], Token::LeftParen));
    assert!(matches!(toks[12], Token::RightParen));
    assert!(matches!(toks[13], Token::LeftCurly));
    assert!(matches!(toks[14], Token::RightCurly));
    assert!(matches!(toks[15], Token::LeftBracket));
    assert!(matches!(toks[16], Token::RightBracket));
    assert!(matches!(toks[17], Token::Comma));
    assert!(matches!(toks[18], Token::Semicolon));
    assert!(matches!(toks[19], Token::Plus));
    assert!(matches!(toks[20], Token::Subtract));
    assert!(matches!(toks[21], Token::Multiply));
    assert!(matches!(toks[22], Token::Divide));
    assert!(matches!(toks[23], Token::Modulus));
    assert!(matches!(toks[24], Token::Assign));
    assert!(matches!(toks[25], Token::Equality));
    assert!(matches!(toks[26], Token::NotEqual));
    assert!(matches!(toks[27], Token::Less));
    assert!(matches!(toks[28], Token::LessEqual));
    assert!(matches!(toks[29], Token::Greater));
    assert!(matches!(toks[30], Token::GreaterEqual));
}

#[test]
fn comments_and_white_space_leave_no_token() {
    let toks = lex("# a comment\n1 # another\n\t 2\u{a0}3 # the last, without a line feed").unwrap();
    assert_eq!(toks.len(), 3);
    assert!(matches!(toks[0], Token::Num(1)));
    assert!(matches!(toks[1], Token::Num(2)));
    assert!(matches!(toks[2], Token::Num(3)));
    assert_eq!(lex("").unwrap().len(), 0);
}

#[test]
fn longest_operator_wins() {
    let toks = lex("a<=b==c=d").unwrap();
    assert_eq!(toks.len(), 7);
    assert!(matches!(toks[1], Token::LessEqual));
    assert!(matches!(toks[3], Token::Equality));
    assert!(matches!(toks[5], Token::Assign));
}

#[test]
fn a_number_has_to_fit_in_32_bits() {
    let toks = lex("2147483647").unwrap();
    assert!(matches!(toks[0], Token::Num(2147483647)));
    assert_eq!(lex("1 2147483648 3").unwrap_err(), "Unidentified symbol 2147483648");
}

#[test]
fn scanning_is_repeatable() {
    let first = format!("{:?}", lex("while a < 10 { a = a + 1; }"));
    let second = format!("{:?}", lex("while a < 10 { a = a + 1; }"));
    assert_eq!(first, second);
}
