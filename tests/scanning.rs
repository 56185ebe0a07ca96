use pascal_front::lexer::{tokenize, Lexer};
use pascal_front::tokens::{LexingError, Token};

#[test]
fn skips_blanks_and_all_comment_forms() {
    let toks = tokenize("a // line\n { brace } (* paren\n star *) b\t\x0cc").unwrap();
    assert_eq!(
        toks,
        vec![Token::Identifier("a"), Token::Identifier("b"), Token::Identifier("c")]
    );
}

#[test]
fn line_comment_without_newline_ends_input() {
    assert_eq!(tokenize("x // the end").unwrap(), vec![Token::Identifier("x")]);
}

#[test]
fn longest_operator_wins() {
    let toks = tokenize("<> <= >= := .. < > : .").unwrap();
    assert_eq!(
        toks,
        vec![
            Token::SpecialSpaceship,
            Token::SpecialLessEqual,
            Token::SpecialGreaterEqual,
            Token::SpecialAssign,
            Token::SpecialRange,
            Token::SpecialLower,
            Token::SpecialGreater,
            Token::SpecialColon,
            Token::SpecialDot,
        ]
    );
}

#[test]
fn subrange_dots_are_not_a_fraction() {
    let toks = tokenize("1..100").unwrap();
    assert_eq!(
        toks,
        vec![Token::Integer("1"), Token::SpecialRange, Token::Integer("100")]
    );
}

#[test]
fn reserved_words_and_longer_identifiers() {
    let toks = tokenize("array arrays packed Array").unwrap();
    assert_eq!(
        toks,
        vec![
            Token::WordArray,
            Token::Identifier("arrays"),
            Token::WordPacked,
            Token::Identifier("Array"),
        ]
    );
}

#[test]
fn exponent_without_point_is_real() {
    let toks = tokenize("7E3 7e-3 7e 7.").unwrap();
    assert_eq!(
        toks,
        vec![
            Token::Real("7E3"),
            Token::Real("7e-3"),
            Token::Integer("7"),
            Token::Identifier("e"),
            Token::Integer("7"),
            Token::SpecialDot,
        ]
    );
}

#[test]
fn sign_without_digit_is_an_operator() {
    let toks = tokenize("- a + 1").unwrap();
    assert_eq!(
        toks,
        vec![Token::SpecialMinus, Token::Identifier("a"), Token::SpecialPlus, Token::Integer("1")]
    );
}

#[test]
fn lone_quote_is_punctuation() {
    assert_eq!(tokenize("\"").unwrap(), vec![Token::SpecialQuotation]);
}

#[test]
fn unclosed_paren_comment_is_a_parenthesis() {
    let toks = tokenize("(* x").unwrap();
    assert_eq!(
        toks,
        vec![Token::SpecialOpenParen, Token::SpecialMul, Token::Identifier("x")]
    );
}

#[test]
fn unclosed_brace_comment_is_an_error() {
    assert_eq!(tokenize("a { b"), Err((LexingError::Other, 2)));
}

#[test]
fn unknown_character_is_an_error() {
    assert_eq!(tokenize("a # b"), Err((LexingError::Other, 2)));
}

#[test]
fn lexer_hands_out_positions() {
    let mut lexer = Lexer::new("  x:=1");
    assert_eq!(lexer.next_token(), Some(Ok((2, Token::Identifier("x"), 3))));
    assert_eq!(lexer.next_token(), Some(Ok((3, Token::SpecialAssign, 5))));
    assert_eq!(lexer.next_token(), Some(Ok((5, Token::Integer("1"), 6))));
    assert_eq!(lexer.next_token(), None);
}

#[test]
fn default_lexing_error() {
    assert_eq!(LexingError::default(), LexingError::Other);
}
