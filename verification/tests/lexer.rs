use calculator::lexer::token::{Decimal, LexError, Token};
use calculator::lexer::Lexer;

fn float(whole: &str, fraction: &str) -> Token {
    Token::Float(Decimal::new(whole.as_bytes(), fraction.as_bytes()).expect("a float literal"))
}

fn float_value(token: &Token) -> f64 {
    match token {
        Token::Float(literal) => {
            let mut text = String::from_utf8(literal.whole().to_vec()).unwrap();
            text.push('.');
            text.push_str(std::str::from_utf8(literal.fraction()).unwrap());
            text.parse().unwrap()
        }
        other => panic!("not a float literal: {:?}", other),
    }
}

fn scan_all(input: &str) -> Vec<Result<Token, LexError>> {
    let mut lexer = Lexer::new(input);
    let mut out = Vec::new();
    loop {
        let next = lexer.next_token();
        if next == Ok(Token::EOF) {
            return out;
        }
        out.push(next);
    }
}

#[test]
fn test_basic_arithmetic_tokens() {
    let input = "1 + 2 * (3 / 4) - 5";
    let mut lexer = Lexer::new(input);

    let expected = vec![
        Token::Integer(1),
        Token::Plus,
        Token::Integer(2),
        Token::Star,
        Token::LeftParen,
        Token::Integer(3),
        Token::Slash,
        Token::Integer(4),
        Token::RightParen,
        Token::Minus,
        Token::Integer(5),
        Token::EOF,
    ];

    for token in expected {
        let next = lexer.next_token();
        assert_eq!(next, Ok(token));
    }
}

#[test]
fn test_floats_and_decimals() {
    let input = "10.5 + 0.75";
    let mut lexer = Lexer::new(input);

    assert_eq!(float_value(&lexer.next_token().unwrap()), 10.5);
    assert_eq!(lexer.next_token(), Ok(Token::Plus));
    assert_eq!(float_value(&lexer.next_token().unwrap()), 0.75);
    assert_eq!(lexer.next_token(), Ok(Token::EOF));
}

#[test]
fn test_implicit_multiplication_lexing() {
    let input = "2(3)";
    let mut lexer = Lexer::new(input);

    assert_eq!(lexer.next_token(), Ok(Token::Integer(2)));
    assert_eq!(lexer.next_token(), Ok(Token::LeftParen));
    assert_eq!(lexer.next_token(), Ok(Token::Integer(3)));
    assert_eq!(lexer.next_token(), Ok(Token::RightParen));
}

#[test]
fn test_illegal_characters() {
    let input = "1 & @";
    let mut lexer = Lexer::new(input);

    assert_eq!(lexer.next_token(), Ok(Token::Integer(1)));
    assert_eq!(lexer.next_token(), Ok(Token::Illegal(b'&')));
    assert_eq!(lexer.next_token(), Ok(Token::Illegal(b'@')));
    assert_eq!(lexer.next_token(), Ok(Token::EOF));
}

#[test]
fn test_whitespace_handling() {
    let input = "   42  \n \t  + 7 ";
    let mut lexer = Lexer::new(input);

    assert_eq!(lexer.next_token(), Ok(Token::Integer(42)));
    assert_eq!(lexer.next_token(), Ok(Token::Plus));
    assert_eq!(lexer.next_token(), Ok(Token::Integer(7)));
    assert_eq!(lexer.next_token(), Ok(Token::EOF));
}

#[test]
fn float_literal_keeps_its_digits() {
    assert_eq!(
        scan_all("10.5 + 0.75"),
        vec![Ok(float("10", "5")), Ok(Token::Plus), Ok(float("0", "75"))]
    );
    assert_eq!(scan_all("007.500"), vec![Ok(float("007", "500"))]);
    assert_eq!(float_value(&float("007", "500")), 7.5);
}

#[test]
fn float_literal_of_any_length_is_kept() {
    let tokens = scan_all("3.14159265358979323846264338327950288");
    assert_eq!(tokens, vec![Ok(float("3", "14159265358979323846264338327950288"))]);
    assert_eq!(float_value(tokens[0].as_ref().unwrap()), std::f64::consts::PI);
}

#[test]
fn point_without_digit_behind_it_is_not_part_of_the_number() {
    assert_eq!(scan_all("2."), vec![Ok(Token::Integer(2)), Ok(Token::Illegal(b'.'))]);
    assert_eq!(
        scan_all("2.x"),
        vec![Ok(Token::Integer(2)), Ok(Token::Illegal(b'.')), Ok(Token::Illegal(b'x'))]
    );
    assert_eq!(scan_all(".5"), vec![Ok(Token::Illegal(b'.')), Ok(Token::Integer(5))]);
}

#[test]
fn second_point_ends_the_literal() {
    assert_eq!(
        scan_all("2.5.3"),
        vec![Ok(float("2", "5")), Ok(Token::Illegal(b'.')), Ok(Token::Integer(3))]
    );
    assert_eq!(
        scan_all("1.2.3.4"),
        vec![Ok(float("1", "2")), Ok(Token::Illegal(b'.')), Ok(float("3", "4"))]
    );
}

#[test]
fn integer_literal_is_read_in_base_ten() {
    assert_eq!(scan_all("0"), vec![Ok(Token::Integer(0))]);
    assert_eq!(scan_all("007"), vec![Ok(Token::Integer(7))]);
    assert_eq!(scan_all("1234567890"), vec![Ok(Token::Integer(1234567890))]);
}

#[test]
fn largest_integer_literal_is_accepted() {
    assert_eq!(scan_all("9223372036854775807"), vec![Ok(Token::Integer(i64::MAX))]);
    assert_eq!(scan_all("0009223372036854775807"), vec![Ok(Token::Integer(i64::MAX))]);
}

#[test]
fn integer_literal_out_of_range_is_an_error() {
    assert_eq!(scan_all("9223372036854775808"), vec![Err(LexError::IntegerOverflow)]);
    assert_eq!(scan_all("99999999999999999999"), vec![Err(LexError::IntegerOverflow)]);
    assert_eq!(scan_all("18446744073709551616"), vec![Err(LexError::IntegerOverflow)]);
}

#[test]
fn scanning_goes_on_behind_an_integer_out_of_range() {
    assert_eq!(
        scan_all("1 + 99999999999999999999 - 2"),
        vec![
            Ok(Token::Integer(1)),
            Ok(Token::Plus),
            Err(LexError::IntegerOverflow),
            Ok(Token::Minus),
            Ok(Token::Integer(2)),
        ]
    );
}

#[test]
fn large_whole_part_of_a_float_is_no_overflow() {
    assert_eq!(
        scan_all("99999999999999999999.5"),
        vec![Ok(float("99999999999999999999", "5"))]
    );
}

#[test]
fn minus_sign_is_a_token_of_its_own() {
    assert_eq!(scan_all("-5"), vec![Ok(Token::Minus), Ok(Token::Integer(5))]);
    assert_eq!(
        scan_all("3--2"),
        vec![Ok(Token::Integer(3)), Ok(Token::Minus), Ok(Token::Minus), Ok(Token::Integer(2))]
    );
}

#[test]
fn every_kind_of_ascii_whitespace_is_skipped() {
    assert_eq!(scan_all(" \t\n\x0C\r1"), vec![Ok(Token::Integer(1))]);
    assert_eq!(scan_all("1\r\n"), vec![Ok(Token::Integer(1))]);
}

#[test]
fn vertical_tab_is_not_whitespace() {
    assert_eq!(scan_all("\x0B"), vec![Ok(Token::Illegal(0x0B))]);
}

#[test]
fn bytes_of_a_character_outside_ascii_are_illegal_one_by_one() {
    assert_eq!(scan_all("é"), vec![Ok(Token::Illegal(0xC3)), Ok(Token::Illegal(0xA9))]);
}

#[test]
fn letters_are_illegal() {
    assert_eq!(
        scan_all("1e5"),
        vec![Ok(Token::Integer(1)), Ok(Token::Illegal(b'e')), Ok(Token::Integer(5))]
    );
}

#[test]
fn end_marker_is_returned_again_and_again() {
    let mut lexer = Lexer::new("7");
    assert_eq!(lexer.next_token(), Ok(Token::Integer(7)));
    for _ in 0..100 {
        assert_eq!(lexer.next_token(), Ok(Token::EOF));
    }
}

#[test]
fn empty_and_blank_texts_hold_only_the_end_marker() {
    let mut lexer = Lexer::new("");
    assert_eq!(lexer.next_token(), Ok(Token::EOF));
    assert_eq!(lexer.next_token(), Ok(Token::EOF));

    let mut lexer = Lexer::new("  \t \n ");
    assert_eq!(lexer.next_token(), Ok(Token::EOF));
    assert_eq!(lexer.next_token(), Ok(Token::EOF));
}

#[test]
fn tokens_written_with_single_spaces_scan_back() {
    let tokens = vec![
        Token::Integer(0),
        Token::Plus,
        float("10", "5"),
        Token::Minus,
        Token::Minus,
        Token::Integer(i64::MAX),
        Token::Star,
        Token::Slash,
        Token::LeftParen,
        float("0", "0"),
        Token::RightParen,
        Token::Illegal(b'&'),
        Token::Illegal(b'.'),
        Token::Integer(42),
    ];
    let text = "0 + 10.5 - - 9223372036854775807 * / ( 0.0 ) & . 42";
    let scanned: Vec<Token> = scan_all(text).into_iter().map(|lexeme| lexeme.unwrap()).collect();
    assert_eq!(scanned, tokens);
}

#[test]
fn decimal_is_built_only_from_digits() {
    let literal = Decimal::new(b"12", b"50").unwrap();
    assert_eq!(literal.whole(), b"12");
    assert_eq!(literal.fraction(), b"50");
    assert_eq!(literal.clone(), literal);

    assert_eq!(Decimal::new(b"", b"5"), None);
    assert_eq!(Decimal::new(b"5", b""), None);
    assert_eq!(Decimal::new(b"1a", b"5"), None);
    assert_eq!(Decimal::new(b"1", b"5 "), None);
    assert_eq!(Decimal::new(b"-1", b"5"), None);
    assert_eq!(Decimal::new(b"1", b".5"), None);
}

#[test]
fn tokens_of_one_kind_may_carry_different_values() {
    assert!(Token::Integer(1).same_kind(&Token::Integer(2)));
    assert!(float("1", "5").same_kind(&float("2", "25")));
    assert!(Token::Illegal(b'&').same_kind(&Token::Illegal(b'@')));
    assert!(Token::RightParen.same_kind(&Token::RightParen));
    assert!(Token::EOF.same_kind(&Token::EOF));

    assert!(!Token::Integer(1).same_kind(&float("1", "0")));
    assert!(!Token::Plus.same_kind(&Token::Minus));
    assert!(!Token::LeftParen.same_kind(&Token::RightParen));
    assert!(!Token::EOF.same_kind(&Token::Illegal(0)));
}

#[test]
fn clone_of_a_token_is_equal_to_it() {
    for token in [Token::Integer(-3), float("1", "5"), Token::Slash, Token::Illegal(b'#')] {
        assert_eq!(token.clone(), token);
    }
}

fn number_by_the_standard_library(text: &str) -> Result<Token, LexError> {
    match text.split_once('.') {
        Some((whole, fraction)) => {
            let value: f64 = text.parse().unwrap();
            let token = float(whole, fraction);
            assert_eq!(float_value(&token), value);
            Ok(token)
        }
        None => match text.parse::<i64>() {
            Ok(value) => Ok(Token::Integer(value)),
            Err(_) => Err(LexError::IntegerOverflow),
        },
    }
}

fn scan_by_the_standard_library(input: &str) -> Vec<Result<Token, LexError>> {
    let bytes = input.as_bytes();
    let mut out = Vec::new();
    let mut pos = 0;
    while pos < bytes.len() {
        let byte = bytes[pos];
        if byte.is_ascii_whitespace() {
            pos += 1;
        } else if byte.is_ascii_digit() {
            let start = pos;
            while pos < bytes.len() && bytes[pos].is_ascii_digit() {
                pos += 1;
            }
            if pos + 1 < bytes.len() && bytes[pos] == b'.' && bytes[pos + 1].is_ascii_digit() {
                pos += 1;
                while pos < bytes.len() && bytes[pos].is_ascii_digit() {
                    pos += 1;
                }
            }
            out.push(number_by_the_standard_library(&input[start..pos]));
        } else {
            out.push(Ok(match byte {
                b'+' => Token::Plus,
                b'-' => Token::Minus,
                b'*' => Token::Star,
                b'/' => Token::Slash,
                b'(' => Token::LeftParen,
                b')' => Token::RightParen,
                other => Token::Illegal(other),
            }));
            pos += 1;
        }
    }
    out
}

#[test]
fn scanner_agrees_with_the_standard_library_on_short_texts() {
    let alphabet = ['0', '7', '.', ' ', '+', '(', 'x', '\n'];
    let mut texts = vec![String::new()];
    let mut longest = vec![String::new()];
    for _ in 0..5 {
        let mut longer = Vec::new();
        for text in &longest {
            for c in alphabet {
                let mut next = text.clone();
                next.push(c);
                longer.push(next);
            }
        }
        texts.extend(longer.iter().cloned());
        longest = longer;
    }
    assert_eq!(texts.len(), 1 + 8 + 64 + 512 + 4096 + 32768);
    for text in &texts {
        assert_eq!(scan_all(text), scan_by_the_standard_library(text), "text: {:?}", text);
    }
}

#[test]
fn scanner_agrees_with_the_standard_library_near_the_largest_integer() {
    for text in [
        "9223372036854775806",
        "9223372036854775807",
        "9223372036854775808",
        "9223372036854775809",
        "9223372036854775810",
        "10000000000000000000",
        "09223372036854775807",
        "92233720368547758070",
        "922337203685477580",
        "18446744073709551615",
        "340282366920938463463374607431768211456",
    ] {
        assert_eq!(scan_all(text), scan_by_the_standard_library(text), "text: {:?}", text);
    }
}
