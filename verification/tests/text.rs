use minilang::parser::{
    create_temp, find_symbol, get_if_labels, get_unique_loop_labels, next, next_result, peek,
    peek_result, NameSupply,
};
use minilang::scanner::{
    create_identifier, lex_comment, lex_identifier, lex_number, lex_operator, lex_space,
    unrecognized_symbol,
};
use minilang::text::{
    count_run, count_tail, parse_int, push_chars, push_decimal, push_integer, spells, string_of,
    to_chars, trim, Class,
};
use minilang::Token;

fn chars(s: &str) -> Vec<char> {
    s.chars().collect()
}

fn text(cs: &[char]) -> String {
    cs.iter().collect()
}

#[test]
fn numbers_are_written_in_decimal() {
    let mut s = String::from("n=");
    push_decimal(&mut s, 0);
    push_decimal(&mut s, 7);
    push_decimal(&mut s, 18446744073709551615);
    assert_eq!(s, "n=0718446744073709551615");
    let mut s = String::new();
    push_integer(&mut s, -2147483648);
    push_integer(&mut s, 2147483647);
    push_integer(&mut s, -10);
    push_integer(&mut s, 0);
    assert_eq!(s, "-21474836482147483647-100");
}

#[test]
fn integers_are_read_from_digits_after_a_sign() {
    assert_eq!(parse_int(&chars("0")), Some(0));
    assert_eq!(parse_int(&chars("007")), Some(7));
    assert_eq!(parse_int(&chars("+12")), Some(12));
    assert_eq!(parse_int(&chars("-12")), Some(-12));
    assert_eq!(parse_int(&chars("2147483647")), Some(2147483647));
    assert_eq!(parse_int(&chars("-2147483648")), Some(-2147483648));
    assert_eq!(parse_int(&chars("2147483648")), None);
    assert_eq!(parse_int(&chars("-2147483649")), None);
    assert_eq!(parse_int(&chars("99999999999999999999999")), None);
    assert_eq!(parse_int(&chars("")), None);
    assert_eq!(parse_int(&chars("-")), None);
    assert_eq!(parse_int(&chars("1x")), None);
    assert_eq!(parse_int(&chars(" 1")), None);
}

#[test]
fn characters_and_strings_go_both_ways() {
    let cs = to_chars("a\u{e9}\u{4e16}!");
    assert_eq!(cs, vec!['a', '\u{e9}', '\u{4e16}', '!']);
    assert_eq!(string_of(&cs), "a\u{e9}\u{4e16}!");
    let mut s = String::from("x");
    push_chars(&mut s, &cs[1..3]);
    assert_eq!(s, "x\u{e9}\u{4e16}");
    assert!(spells(&chars("while"), "while"));
    assert!(!spells(&chars("whil"), "while"));
    assert!(!spells(&chars("whale"), "while"));
}

#[test]
fn runs_of_a_class_are_counted() {
    assert_eq!(count_run(&chars("123ab"), Class::Digit), 3);
    assert_eq!(count_run(&chars("ab"), Class::Digit), 0);
    assert_eq!(count_run(&chars("  \tx"), Class::Blank), 2);
    assert_eq!(count_run(&chars("  \tx"), Class::White), 3);
    assert_eq!(count_run(&chars("ab cd"), Class::Visible), 2);
    assert_eq!(count_run(&chars("ab,cd"), Class::Not(',')), 2);
    assert_eq!(count_tail(&chars("ab  "), Class::Blank), 2);
    assert_eq!(count_tail(&chars("ab"), Class::Blank), 0);
    assert_eq!(text(trim(&chars("  a b  "))), "a b");
    assert_eq!(text(trim(&chars("   "))), "");
    assert_eq!(text(trim(&chars("\ta "))), "\ta");
}

#[test]
fn scanning_rules_give_the_token_and_the_rest() {
    let code = chars("215+x");
    let (found, token, rest) = lex_number(&code);
    assert!(found);
    assert!(matches!(token, Token::Num(215)));
    assert_eq!(text(rest), "+x");
    let code = chars("x1");
    let (found, token, rest) = lex_number(&code);
    assert!(!found);
    assert!(matches!(token, Token::NotToken));
    assert_eq!(text(rest), "");

    let code = chars(" \nx");
    let (found, rest) = lex_space(&code);
    assert!(found);
    assert_eq!(text(rest), "\nx");
    let code = chars("x ");
    let (found, rest) = lex_space(&code);
    assert!(!found);
    assert_eq!(text(rest), "x ");

    let code = chars("<=1");
    let (found, token, rest) = lex_operator(&code);
    assert!(found);
    assert!(matches!(token, Token::LessEqual));
    assert_eq!(text(rest), "1");
    let code = chars("!x");
    let (found, _, _) = lex_operator(&code);
    assert!(!found);

    let code = chars("# note\nx");
    let (found, rest) = lex_comment(&code);
    assert!(found);
    assert_eq!(text(rest), "x");
    let code = chars("# note");
    let (found, rest) = lex_comment(&code);
    assert!(found);
    assert_eq!(text(rest), "");

    let code = chars("count_2=1");
    let (found, token, rest) = lex_identifier(&code);
    assert!(found);
    assert!(matches!(&token, Token::Ident(name) if name == "count_2"));
    assert_eq!(text(rest), "=1");
    let code = chars("iffy if");
    let (_, token, _) = lex_identifier(&code);
    assert!(matches!(&token, Token::Ident(name) if name == "iffy"));
    let code = chars("_x");
    let (found, _, _) = lex_identifier(&code);
    assert!(!found);

    assert_eq!(text(unrecognized_symbol(&chars("^^ x"))), "^^");
    assert_eq!(text(unrecognized_symbol(&chars("$"))), "$");
    assert!(matches!(create_identifier(&chars("print")), Token::Print));
    assert!(matches!(create_identifier(&chars("printer")), Token::Ident(_)));
}

#[test]
fn fresh_names_count_up() {
    let mut names = NameSupply::new();
    assert_eq!(create_temp(&mut names), "_temp1");
    assert_eq!(create_temp(&mut names), "_temp2");
    assert_eq!(
        get_unique_loop_labels(&mut names),
        (String::from(":beginloop1"), String::from(":endloop1"))
    );
    assert_eq!(
        get_if_labels(&mut names),
        (String::from(":iftrue1"), String::from(":else1"), String::from(":endif1"))
    );
    assert_eq!(
        get_if_labels(&mut names),
        (String::from(":iftrue2"), String::from(":else2"), String::from(":endif2"))
    );
    for _ in 0..9 {
        create_temp(&mut names);
    }
    assert_eq!(create_temp(&mut names), "_temp12");
    assert_eq!(names.temps, 12);
    assert_eq!(names.loops, 1);
    assert_eq!(names.branches, 2);
}

#[test]
fn tokens_are_looked_at_and_taken() {
    let tokens = vec![Token::Func, Token::Num(3)];
    assert!(matches!(peek(&tokens, 0), Some(Token::Func)));
    assert!(matches!(peek(&tokens, 1), Some(Token::Num(3))));
    assert!(peek(&tokens, 2).is_none());
    assert!(matches!(peek_result(&tokens, 1), Ok(Token::Num(3))));
    assert_eq!(peek_result(&tokens, 2).unwrap_err(), "expected a token, but got nothing");
    let mut index = 0;
    assert!(matches!(next(&tokens, &mut index), Some(Token::Func)));
    assert_eq!(index, 1);
    assert!(matches!(next_result(&tokens, &mut index), Ok(Token::Num(3))));
    assert_eq!(index, 2);
    assert!(next(&tokens, &mut index).is_none());
    assert_eq!(next_result(&tokens, &mut index).unwrap_err(), "expected a token, but got nothing");
    assert_eq!(index, 2);
}

#[test]
fn names_are_found_in_a_table() {
    let table = vec![String::from("a"), String::from("bc")];
    assert!(find_symbol(&table, &String::from("bc")));
    assert!(!find_symbol(&table, &String::from("b")));
    assert!(!find_symbol(&Vec::new(), &String::from("a")));
}
