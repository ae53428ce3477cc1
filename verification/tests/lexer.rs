use rcalc::lexer::{tokenize, LexError, LexErrorKind, Lexer, Token};

fn num(value: u32) -> Token {
    Token::Num { value }
}

#[test]
fn digits_alone_are_one_number() {
    assert_eq!(tokenize("12345"), Ok(vec![num(12345)]));
    assert_eq!(tokenize("0"), Ok(vec![num(0)]));
    assert_eq!(tokenize("7"), Ok(vec![num(7)]));
    assert_eq!(tokenize("1000000"), Ok(vec![num(1_000_000)]));
}

#[test]
fn leading_zeros_do_not_change_the_number() {
    assert_eq!(tokenize("007"), Ok(vec![num(7)]));
    assert_eq!(tokenize("0000000000000000000000042"), Ok(vec![num(42)]));
    assert_eq!(tokenize("000"), Ok(vec![num(0)]));
}

#[test]
fn largest_number_is_accepted() {
    assert_eq!(tokenize("4294967295"), Ok(vec![num(u32::MAX)]));
    assert_eq!(tokenize("04294967295"), Ok(vec![num(u32::MAX)]));
}

#[test]
fn number_above_the_largest_fails() {
    let expected = LexError { kind: LexErrorKind::NumberTooLarge, position: 0, line: 1 };
    assert_eq!(tokenize("4294967296"), Err(expected));
    assert_eq!(tokenize("99999999999999999999999999999999999999999"), Err(expected));
    assert_eq!(
        tokenize("1 + 4294967296"),
        Err(LexError { kind: LexErrorKind::NumberTooLarge, position: 4, line: 1 })
    );
}

#[test]
fn each_symbol_is_a_token() {
    assert_eq!(
        tokenize("()+-*/"),
        Ok(vec![
            Token::LBracket,
            Token::RBracket,
            Token::Plus,
            Token::Minus,
            Token::Mult,
            Token::Div,
        ])
    );
}

#[test]
fn empty_text_has_no_tokens() {
    assert_eq!(tokenize(""), Ok(vec![]));
}

#[test]
fn whitespace_alone_has_no_tokens() {
    assert_eq!(tokenize(" \t\r\n  \n"), Ok(vec![]));
}

#[test]
fn whitespace_is_skipped_everywhere() {
    assert_eq!(
        tokenize(" \t1\n+\r\n 2  "),
        Ok(vec![num(1), Token::Plus, num(2)])
    );
    assert_eq!(tokenize("1 "), Ok(vec![num(1)]));
    assert_eq!(tokenize("\n1"), Ok(vec![num(1)]));
}

#[test]
fn digits_are_taken_greedily() {
    assert_eq!(tokenize("12 34"), Ok(vec![num(12), num(34)]));
    assert_eq!(tokenize("12+34"), Ok(vec![num(12), Token::Plus, num(34)]));
    assert_eq!(tokenize("1(2"), Ok(vec![num(1), Token::LBracket, num(2)]));
    assert_eq!(tokenize("3*10-1+3").map(|t| t.len()), Ok(7));
}

#[test]
fn minus_is_never_part_of_a_number() {
    assert_eq!(tokenize("-5"), Ok(vec![Token::Minus, num(5)]));
    assert_eq!(tokenize("--5"), Ok(vec![Token::Minus, Token::Minus, num(5)]));
    assert_eq!(tokenize("2-5"), Ok(vec![num(2), Token::Minus, num(5)]));
}

#[test]
fn any_other_character_fails() {
    for text in ["a", "2 + a", "1.5", "2 ^ 3", "1,2", "1e5", "x=1", "1\u{c}2", "1\u{b}2", "é", "2×3", "１", "_", "[1]"] {
        let outcome = tokenize(text);
        assert!(outcome.is_err(), "{text:?} gave {outcome:?}");
    }
}

#[test]
fn invalid_character_is_reported_with_its_place() {
    assert_eq!(
        tokenize("2 + a"),
        Err(LexError { kind: LexErrorKind::InvalidCharacter('a'), position: 4, line: 1 })
    );
    assert_eq!(
        tokenize("1.5"),
        Err(LexError { kind: LexErrorKind::InvalidCharacter('.'), position: 1, line: 1 })
    );
    assert_eq!(
        tokenize("é+1"),
        Err(LexError { kind: LexErrorKind::InvalidCharacter('é'), position: 0, line: 1 })
    );
    assert_eq!(
        tokenize("1+é+?"),
        Err(LexError { kind: LexErrorKind::InvalidCharacter('é'), position: 2, line: 1 })
    );
}

#[test]
fn position_counts_characters_not_bytes() {
    // The first failure is reported; the position behind it is never reached.
    assert_eq!(
        tokenize("  é"),
        Err(LexError { kind: LexErrorKind::InvalidCharacter('é'), position: 2, line: 1 })
    );
}

#[test]
fn first_failure_wins() {
    assert_eq!(
        tokenize("4294967296 ?"),
        Err(LexError { kind: LexErrorKind::NumberTooLarge, position: 0, line: 1 })
    );
    assert_eq!(
        tokenize("? 4294967296"),
        Err(LexError { kind: LexErrorKind::InvalidCharacter('?'), position: 0, line: 1 })
    );
}

#[test]
fn line_breaks_advance_the_line() {
    assert_eq!(
        tokenize("1\n2\n x"),
        Err(LexError { kind: LexErrorKind::InvalidCharacter('x'), position: 5, line: 3 })
    );
    assert_eq!(
        tokenize("\r?"),
        Err(LexError { kind: LexErrorKind::InvalidCharacter('?'), position: 1, line: 2 })
    );
    // A carriage return and a line feed are two line breaks.
    assert_eq!(
        tokenize("1\r\n?"),
        Err(LexError { kind: LexErrorKind::InvalidCharacter('?'), position: 3, line: 3 })
    );
    assert_eq!(
        tokenize("1\t ?"),
        Err(LexError { kind: LexErrorKind::InvalidCharacter('?'), position: 3, line: 1 })
    );
    assert_eq!(
        tokenize("\n\n\n99999999999"),
        Err(LexError { kind: LexErrorKind::NumberTooLarge, position: 3, line: 4 })
    );
}

#[test]
fn lexer_hands_out_tokens_one_by_one() {
    let mut lexer = Lexer::new("(1 + 23)");
    assert_eq!(lexer.next_token(), Ok(Some(Token::LBracket)));
    assert_eq!(lexer.next_token(), Ok(Some(num(1))));
    assert_eq!(lexer.next_token(), Ok(Some(Token::Plus)));
    assert_eq!(lexer.next_token(), Ok(Some(num(23))));
    assert_eq!(lexer.next_token(), Ok(Some(Token::RBracket)));
    assert_eq!(lexer.next_token(), Ok(None));
}

#[test]
fn exhausted_lexer_stays_exhausted() {
    let mut lexer = Lexer::new("1  ");
    assert_eq!(lexer.next_token(), Ok(Some(num(1))));
    assert_eq!(lexer.next_token(), Ok(None));
    assert_eq!(lexer.next_token(), Ok(None));
    assert_eq!(lexer.next_token(), Ok(None));
    let mut empty = Lexer::new("");
    assert_eq!(empty.next_token(), Ok(None));
    assert_eq!(empty.next_token(), Ok(None));
}

#[test]
fn lexer_rests_at_a_failure() {
    let mut lexer = Lexer::new("1 \n ? 2");
    assert_eq!(lexer.next_token(), Ok(Some(num(1))));
    let failure = LexError { kind: LexErrorKind::InvalidCharacter('?'), position: 4, line: 2 };
    assert_eq!(lexer.next_token(), Err(failure));
    assert_eq!(lexer.next_token(), Err(failure));
    let mut large = Lexer::new(" 4294967296");
    let failure = LexError { kind: LexErrorKind::NumberTooLarge, position: 1, line: 1 };
    assert_eq!(large.next_token(), Err(failure));
    assert_eq!(large.next_token(), Err(failure));
}

#[test]
fn lex_error_messages() {
    let invalid = LexError { kind: LexErrorKind::InvalidCharacter('a'), position: 4, line: 1 };
    assert_eq!(invalid.message(), "invalid character at position 4, line 1");
    let large = LexError { kind: LexErrorKind::NumberTooLarge, position: 120, line: 37 };
    assert_eq!(large.message(), "number too large at position 120, line 37");
    let far = LexError { kind: LexErrorKind::NumberTooLarge, position: usize::MAX, line: 0 };
    assert_eq!(
        far.message(),
        format!("number too large at position {}, line 0", usize::MAX)
    );
}

#[test]
fn token_descriptions() {
    let mut text = String::new();
    for token in [
        Token::LBracket,
        Token::RBracket,
        Token::Plus,
        Token::Minus,
        Token::Mult,
        Token::Div,
        num(0),
        num(4294967295),
    ] {
        token.describe_into(&mut text);
        text.push(' ');
    }
    assert_eq!(text, "'(' ')' '+' '-' '*' '/' number 0 number 4294967295 ");
}
