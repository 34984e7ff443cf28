use minicc::token::consume_ident;
use minicc::token::consume_number;
use minicc::token::consume_operator;
use minicc::token::consume_whitespace;
use minicc::token::CharClass;
use minicc::token::LexError;
use minicc::token::Op;
use minicc::token::Token;
use minicc::token::TokenKind;

fn number(value: i64) -> Token {
    Token { kind: TokenKind::Number(value) }
}

fn operator(op: Op) -> Token {
    Token { kind: TokenKind::Operator(op) }
}

fn name(text: &str) -> Token {
    Token { kind: TokenKind::Ident(text.to_string()) }
}

#[test]
fn test_consume_whitespace() {
    let mut input = "  ".to_string();
    consume_whitespace(&mut input);
    assert_eq!(input, "".to_string());
    consume_whitespace(&mut input);
    assert_eq!(input, "".to_string());
}

#[test]
fn test_consume_number() {
    let mut input = "12+".to_string();
    let output = consume_number(&mut input);
    assert_eq!(output, Some(Token::number(12)));
    assert_eq!(input, "+".to_string());
}

#[test]
fn test_consume_ident() {
    let mut input = "ab12".to_string();
    let output = consume_ident(&mut input);
    assert_eq!(output, Some(Token::ident("ab".to_string())));
    assert_eq!(input, "12".to_string());
    let output = consume_ident(&mut input);
    assert_eq!(output, None);
    assert_eq!(input, "12".to_string());
}

#[test]
fn test_consume_operator() {
    let mut input = "+12".to_string();
    let output = consume_operator(&mut input);
    assert_eq!(output, Some(Token::operator("+".to_string())));
    assert_eq!(input, "12".to_string());

    let mut input = "<=12".to_string();
    let output = consume_operator(&mut input);
    assert_eq!(output, Some(Token::operator("<=".to_string())));
    assert_eq!(input, "12".to_string());

    let mut input = "return 5".to_string();
    let output = consume_operator(&mut input);
    assert_eq!(output, Some(Token::operator("return".to_string())));
    assert_eq!(input, " 5".to_string());
}

#[test]
fn plus() {
    let input = "1 + 4";
    let output = Token::parse(input.to_string()).unwrap();
    assert_eq!(output[0], Token::number(1));
    assert_eq!(output[1], Token::operator("+".to_string()));
    assert_eq!(output[2], Token::number(4));
}

#[test]
fn minus() {
    let input = "3 - 2";
    let output = Token::parse(input.to_string()).unwrap();
    assert_eq!(output[0], Token::number(3));
    assert_eq!(output[1], Token::operator("-".to_string()));
    assert_eq!(output[2], Token::number(2));
}

#[test]
fn mul() {
    let input = "4 * 4";
    let output = Token::parse(input.to_string()).unwrap();
    assert_eq!(output[0], Token::number(4));
    assert_eq!(output[1], Token::operator("*".to_string()));
    assert_eq!(output[2], Token::number(4));
}

#[test]
fn div() {
    let input = "4 / 4";
    let output = Token::parse(input.to_string()).unwrap();
    assert_eq!(output[0], Token::number(4));
    assert_eq!(output[1], Token::operator("/".to_string()));
    assert_eq!(output[2], Token::number(4));
}

#[test]
fn plus_and_mul() {
    let input = "1 + 4 * 4 - 1";
    let output = Token::parse(input.to_string()).unwrap();
    assert_eq!(output[0], Token::number(1));
    assert_eq!(output[1], Token::operator("+".to_string()));
    assert_eq!(output[2], Token::number(4));
    assert_eq!(output[3], Token::operator("*".to_string()));
    assert_eq!(output[4], Token::number(4));
    assert_eq!(output[5], Token::operator("-".to_string()));
    assert_eq!(output[6], Token::number(1));
}

#[test]
fn brackets() {
    let input = "(1 + 4) * 2";
    let output = Token::parse(input.to_string()).unwrap();
    assert_eq!(output[0], Token::operator("(".to_string()));
    assert_eq!(output[1], Token::number(1));
    assert_eq!(output[2], Token::operator("+".to_string()));
    assert_eq!(output[3], Token::number(4));
    assert_eq!(output[4], Token::operator(")".to_string()));
    assert_eq!(output[5], Token::operator("*".to_string()));
    assert_eq!(output[6], Token::number(2));
}

#[test]
fn two_digit() {
    let input = "15 + 40";
    let output = Token::parse(input.to_string()).unwrap();
    assert_eq!(output[0], Token::number(15));
    assert_eq!(output[1], Token::operator("+".to_string()));
    assert_eq!(output[2], Token::number(40));
}

#[test]
fn every_operator_is_lexed() {
    let output = Token::parse("+ - * / ( ) < <= > >= == != = ; return".to_string()).unwrap();
    let expected = vec![
        Op::Plus,
        Op::Minus,
        Op::Star,
        Op::Slash,
        Op::LParen,
        Op::RParen,
        Op::Lt,
        Op::Le,
        Op::Gt,
        Op::Ge,
        Op::EqEq,
        Op::Ne,
        Op::Assign,
        Op::Semicolon,
        Op::Return,
    ];
    assert_eq!(output.len(), expected.len());
    for i in 0..expected.len() {
        assert_eq!(output[i], operator(expected[i]));
    }
}

#[test]
fn two_character_operators_win_over_one() {
    let output = Token::parse("a<=b==c".to_string()).unwrap();
    assert_eq!(
        output,
        vec![
            name("a"),
            operator(Op::Le),
            name("b"),
            operator(Op::EqEq),
            name("c"),
        ]
    );
    let output = Token::parse("= =".to_string()).unwrap();
    assert_eq!(output, vec![operator(Op::Assign), operator(Op::Assign)]);
}

#[test]
fn return_is_a_keyword_at_the_start_of_a_name() {
    let output = Token::parse("returnx".to_string()).unwrap();
    assert_eq!(output, vec![operator(Op::Return), name("x")]);
    let output = Token::parse("xreturn retur".to_string()).unwrap();
    assert_eq!(
        output,
        vec![name("xreturn"), name("retur")]
    );
}

#[test]
fn white_space_is_skipped() {
    assert_eq!(Token::parse("".to_string()), Ok(vec![]));
    assert_eq!(Token::parse(" \t\n\r ".to_string()), Ok(vec![]));
    assert_eq!(
        Token::parse("\u{a0}7\u{3000}".to_string()),
        Ok(vec![number(7)])
    );
    assert_eq!(
        Token::parse("1 2".to_string()),
        Ok(vec![number(1), number(2)])
    );
}

#[test]
fn unexpected_character_is_an_error() {
    assert_eq!(Token::parse("1 + #".to_string()), Err(LexError::UnexpectedChar('#')));
    assert_eq!(Token::parse("A".to_string()), Err(LexError::UnexpectedChar('A')));
    assert_eq!(Token::parse("x1$".to_string()), Err(LexError::UnexpectedChar('$')));
    assert_eq!(Token::parse("\u{200b}".to_string()), Err(LexError::UnexpectedChar('\u{200b}')));
}

#[test]
fn number_literals_up_to_the_largest() {
    assert_eq!(
        Token::parse("9223372036854775807".to_string()),
        Ok(vec![number(9223372036854775807)])
    );
    assert_eq!(Token::parse("007".to_string()), Ok(vec![number(7)]));
    assert_eq!(
        Token::parse("9223372036854775808".to_string()),
        Err(LexError::NumberTooLarge)
    );
    assert_eq!(
        Token::parse("1 + 99999999999999999999".to_string()),
        Err(LexError::NumberTooLarge)
    );
}

#[test]
fn consume_number_leaves_a_literal_that_is_too_large() {
    let mut input = "9223372036854775808;".to_string();
    assert_eq!(consume_number(&mut input), None);
    assert_eq!(input, "9223372036854775808;".to_string());
    let mut input = "x1".to_string();
    assert_eq!(consume_number(&mut input), None);
    assert_eq!(input, "x1".to_string());
}

#[test]
fn consume_operator_leaves_other_text() {
    let mut input = "x+".to_string();
    assert_eq!(consume_operator(&mut input), None);
    assert_eq!(input, "x+".to_string());
    let mut input = "".to_string();
    assert_eq!(consume_operator(&mut input), None);
    assert_eq!(input, "".to_string());
}

#[test]
fn consume_whitespace_stops_at_a_token() {
    let mut input = " \t x y".to_string();
    consume_whitespace(&mut input);
    assert_eq!(input, "x y".to_string());
}

#[test]
fn character_classes() {
    let spaces = [
        ' ', '\t', '\n', '\u{b}', '\u{c}', '\r', '\u{85}', '\u{a0}', '\u{1680}', '\u{2000}',
        '\u{200a}', '\u{2028}', '\u{2029}', '\u{202f}', '\u{205f}', '\u{3000}',
    ];
    for c in spaces {
        assert!(CharClass::Space.contains(c));
        assert!(c.is_whitespace());
    }
    for c in ['a', '0', ';', '\u{8}', '\u{e}', '\u{200b}', '\u{180e}', '\u{feff}'] {
        assert!(!CharClass::Space.contains(c));
        assert!(!c.is_whitespace());
    }
    assert!(CharClass::Digit.contains('0') && CharClass::Digit.contains('9'));
    assert!(!CharClass::Digit.contains('/') && !CharClass::Digit.contains(':'));
    assert!(!CharClass::Digit.contains('\u{663}'));
    assert!(CharClass::Lower.contains('a') && CharClass::Lower.contains('z'));
    assert!(!CharClass::Lower.contains('`') && !CharClass::Lower.contains('{'));
    assert!(!CharClass::Lower.contains('A') && !CharClass::Lower.contains('\u{e9}'));
}

#[test]
fn white_space_is_what_the_standard_library_says() {
    let mut c = 0u32;
    while c <= 0x10ffff {
        if let Some(ch) = char::from_u32(c) {
            assert_eq!(CharClass::Space.contains(ch), ch.is_whitespace());
        }
        c += 1;
    }
}

#[test]
fn tokens_are_equal_by_kind_and_value() {
    assert_eq!(Token::number(1), number(1));
    assert_ne!(Token::number(1), Token::number(2));
    assert_ne!(Token::ident("a".to_string()), Token::ident("b".to_string()));
    assert_ne!(Token::ident("return".to_string()), Token::operator("return".to_string()));
    assert_eq!(Token::operator("==".to_string()), operator(Op::EqEq));
}
