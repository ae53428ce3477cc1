use rcalc::evaluator::{evaluate, EvalError};
use rcalc::lexer::{tokenize, LexError, LexErrorKind, Token};
use rcalc::parser::{parse, Expected, ParseError};
use rcalc::{calculate, Error};

#[test]
fn calculate_runs_the_three_stages() {
    assert_eq!(calculate("2+3*4"), Ok(14));
    assert_eq!(calculate("(2+3)*4"), Ok(20));
    assert_eq!(calculate("10-1+3"), Ok(12));
    assert_eq!(calculate("-5+3"), Ok(-2));
    assert_eq!(calculate("--5"), Ok(5));
    assert_eq!(calculate("3*10-1+3"), Ok(32));
    assert_eq!(calculate(" 1 +\n2 "), Ok(3));
    assert_eq!(calculate("42"), Ok(42));
}

#[test]
fn calculate_reports_the_stage_that_failed() {
    assert_eq!(
        calculate("2 + a"),
        Err(Error::Lex(LexError {
            kind: LexErrorKind::InvalidCharacter('a'),
            position: 4,
            line: 1
        }))
    );
    assert_eq!(
        calculate("4294967296"),
        Err(Error::Lex(LexError { kind: LexErrorKind::NumberTooLarge, position: 0, line: 1 }))
    );
    assert_eq!(
        calculate("(1+2"),
        Err(Error::Parse(ParseError {
            expected: Expected::Token(Token::RBracket),
            found: None,
            position: 4
        }))
    );
    assert_eq!(
        calculate(""),
        Err(Error::Parse(ParseError { expected: Expected::Factor, found: None, position: 0 }))
    );
    assert_eq!(calculate("1/0"), Err(Error::Eval(EvalError::DivisionByZero)));
    assert_eq!(
        calculate("4294967295*4294967295*4294967295"),
        Err(Error::Eval(EvalError::Overflow))
    );
}

#[test]
fn earlier_stage_fails_first() {
    // The text is not tokenized, so it is never parsed.
    assert!(matches!(calculate("(1+ ?"), Err(Error::Lex(_))));
    // The tokens are not parsed, so nothing is divided.
    assert!(matches!(calculate("1/0)"), Err(Error::Parse(_))));
}

#[test]
fn error_messages_of_a_calculation() {
    assert_eq!(calculate("").unwrap_err().message(), "expected factor, found end of input");
    assert_eq!(calculate("(1+2").unwrap_err().message(), "expected ')', found end of input");
    assert_eq!(calculate("1/0").unwrap_err().message(), "division by zero");
    assert_eq!(
        calculate("1 +\n ?").unwrap_err().message(),
        "invalid character at position 5, line 2"
    );
    assert_eq!(
        calculate("9223372036854775807").unwrap_err().message(),
        "number too large at position 0, line 1"
    );
}

#[test]
fn rendered_text_leads_back_to_the_tree() {
    for text in [
        "2+3*4",
        "(2+3)*4",
        "10-1+3",
        "-5+3",
        "--5",
        "3*10-1+3",
        "1/0",
        "8/2/2",
        "-(1+2)*-(3-4)/5",
        "4294967295*4294967295*4294967295",
        "((((7))))",
        "0",
        "1 - - 1",
        "2*(3+(4-(5/(6+7))))",
    ] {
        let tree = parse(tokenize(text).unwrap()).unwrap();
        let rendered = tree.render();
        let again = parse(tokenize(&rendered).unwrap()).unwrap();
        assert_eq!(again, tree, "{text:?} was written as {rendered:?}");
        assert_eq!(evaluate(&again), evaluate(&tree));
        assert_eq!(calculate(&rendered), calculate(text));
        assert_eq!(again.render(), rendered);
    }
}
