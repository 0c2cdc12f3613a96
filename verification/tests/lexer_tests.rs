use jitter::lexer::{lex, LexingError, Token};

#[test]
fn lexer_curly_bracket() {
    let toks = lex("{}");
    assert_eq!(Token::OpeningCurlyBracket, toks[0].clone().unwrap());
    assert_eq!(Some(Ok(Token::ClosingCurlyBracket)), toks.get(1).cloned());
}

#[test]
fn simple_program_1() {
    let code = "
        fun test1() {
            test2();
        }";
    let toks = lex(code);
    let mut it = toks.into_iter();
    assert_eq!(Some(Ok(Token::Function)), it.next());
    assert_eq!(Some(Ok(Token::Identifier("test1".to_owned()))), it.next());
    assert_eq!(Some(Ok(Token::OpeningRoundBracket)), it.next());
    assert_eq!(Some(Ok(Token::ClosingRoundBracket)), it.next());
    assert_eq!(Some(Ok(Token::OpeningCurlyBracket)), it.next());
    assert_eq!(Some(Ok(Token::Identifier("test2".to_owned()))), it.next());
    assert_eq!(Some(Ok(Token::OpeningRoundBracket)), it.next());
    assert_eq!(Some(Ok(Token::ClosingRoundBracket)), it.next());
    assert_eq!(Some(Ok(Token::Semicolon)), it.next());
    assert_eq!(Some(Ok(Token::ClosingCurlyBracket)), it.next());
}

#[test]
fn lexer_numbers_and_operators() {
    let toks = lex("1 + 2");
    assert_eq!(
        toks,
        vec![
            Ok(Token::Number(1)),
            Ok(Token::Addition),
            Ok(Token::Number(2)),
        ]
    );
}

#[test]
fn lexer_maximal_munch_negative_number() {
    // without a space the digits bind to the minus sign
    assert_eq!(
        lex("3-4"),
        vec![Ok(Token::Number(3)), Ok(Token::Number(-4))]
    );
    assert_eq!(
        lex("3 - 4"),
        vec![
            Ok(Token::Number(3)),
            Ok(Token::Subtraction),
            Ok(Token::Number(4)),
        ]
    );
}

#[test]
fn lexer_char_literal() {
    assert_eq!(lex("'A'"), vec![Ok(Token::Number(65))]);
    assert_eq!(lex("' '"), vec![Ok(Token::Number(32))]);
}

#[test]
fn lexer_keywords_and_identifiers() {
    assert_eq!(lex("if"), vec![Ok(Token::IfStatement)]);
    assert_eq!(lex("ifx"), vec![Ok(Token::Identifier("ifx".to_owned()))]);
    assert_eq!(lex("while"), vec![Ok(Token::WhileLoop)]);
    assert_eq!(lex("return"), vec![Ok(Token::Return)]);
    assert_eq!(lex("fun"), vec![Ok(Token::Function)]);
}

#[test]
fn lexer_comments_are_skipped() {
    assert_eq!(
        lex("1 // this comment runs to the end of the line\n2"),
        vec![Ok(Token::Number(1)), Ok(Token::Number(2))]
    );
}

#[test]
fn lexer_comparison_operators() {
    assert_eq!(
        lex("< <= > >= == != = && ||"),
        vec![
            Ok(Token::Less),
            Ok(Token::LessEquals),
            Ok(Token::Greater),
            Ok(Token::GreaterEquals),
            Ok(Token::Equals),
            Ok(Token::NotEquals),
            Ok(Token::Assignment),
            Ok(Token::LogicAnd),
            Ok(Token::LogicOr),
        ]
    );
}

#[test]
fn lexer_integer_overflow() {
    assert_eq!(
        lex("99999999999999999999"),
        vec![Err(LexingError::InvalidInteger("overflow error".to_owned()))]
    );
    assert_eq!(
        lex("9223372036854775807"),
        vec![Ok(Token::Number(i64::MAX))]
    );
    assert_eq!(
        lex("-9223372036854775808"),
        vec![Ok(Token::Number(i64::MIN))]
    );
}

#[test]
fn lexer_unmatched_character() {
    assert_eq!(lex("&"), vec![Err(LexingError::NonAsciiCharacter)]);
    assert_eq!(lex("!"), vec![Err(LexingError::NonAsciiCharacter)]);
}
