use calculator::lexeme::{float_literal_text, identifier_chars};
use calculator::{ParseError, Token, tokenise, valid_identifier};

fn number(text: &str, negative: bool) -> Token {
    Token::Number(calculator::Numeral { text: text.to_string(), negative })
}

fn chars(s: &str) -> Vec<char> {
    s.chars().collect()
}

#[test]
fn tokenises_operators_and_numbers() {
    let tokens = tokenise("2 + 3 * 4").unwrap();
    assert_eq!(
        tokens,
        vec![number("2", false), Token::Plus, number("3", false), Token::Star, number("4", false)]
    );
}

#[test]
fn tokenises_brackets_names_and_symbols() {
    let tokens = tokenise("(ab_1 ^ 2) / x.y % 3 = z").unwrap();
    assert_eq!(
        tokens,
        vec![
            Token::OpenBracket,
            Token::Variable("ab_1".to_string()),
            Token::Exponent,
            number("2", false),
            Token::CloseBracket,
            Token::Slash,
            Token::Variable("x.y".to_string()),
            Token::Percent,
            number("3", false),
            Token::Equals,
            Token::Variable("z".to_string()),
        ]
    );
}

#[test]
fn tokens_split_without_spaces() {
    let tokens = tokenise("12*(3)").unwrap();
    assert_eq!(
        tokens,
        vec![
            number("12", false),
            Token::Star,
            Token::OpenBracket,
            number("3", false),
            Token::CloseBracket
        ]
    );
}

#[test]
fn tab_separates_tokens() {
    let tokens = tokenise("1\t+\t2").unwrap();
    assert_eq!(tokens, vec![number("1", false), Token::Plus, number("2", false)]);
}

#[test]
fn leading_minus_folds_into_number() {
    let tokens = tokenise("-3 + 4").unwrap();
    assert_eq!(tokens, vec![number("3", true), Token::Plus, number("4", false)]);
}

#[test]
fn minus_after_operator_folds_into_number() {
    let tokens = tokenise("4 + -3").unwrap();
    assert_eq!(tokens, vec![number("4", false), Token::Plus, number("3", true)]);
}

#[test]
fn minus_after_number_stays_an_operator() {
    let tokens = tokenise("4 - 3").unwrap();
    assert_eq!(tokens, vec![number("4", false), Token::Minus, number("3", false)]);
}

#[test]
fn minus_after_variable_folds_into_number() {
    // A minus after a name is folded too, so no subtraction is left.
    let tokens = tokenise("x -3").unwrap();
    assert_eq!(tokens, vec![Token::Variable("x".to_string()), number("3", true)]);
}

#[test]
fn minus_before_bracket_stays() {
    let tokens = tokenise("-(2)").unwrap();
    assert_eq!(
        tokens,
        vec![Token::Minus, Token::OpenBracket, number("2", false), Token::CloseBracket]
    );
}

#[test]
fn plus_sign_joins_following_digits() {
    // "+3" is itself a numeric literal, so it is gathered as one.
    let tokens = tokenise("2+3").unwrap();
    assert_eq!(tokens, vec![number("2", false), number("+3", false)]);
}

#[test]
fn exponent_letter_starts_a_name() {
    let tokens = tokenise("1e5").unwrap();
    assert_eq!(tokens, vec![number("1", false), Token::Variable("e5".to_string())]);
}

#[test]
fn special_float_words_are_numbers() {
    assert_eq!(tokenise("inf").unwrap(), vec![number("inf", false)]);
    assert_eq!(tokenise("NaN").unwrap(), vec![number("NaN", false)]);
    assert_eq!(tokenise("Infinity").unwrap(), vec![number("Infinity", false)]);
    assert_eq!(tokenise("info").unwrap(), vec![Token::Variable("info".to_string())]);
}

#[test]
fn decimal_point_numbers() {
    assert_eq!(tokenise("1.5 * 2.").unwrap(), vec![number("1.5", false), Token::Star, number("2.", false)]);
}

#[test]
fn leading_point_is_rejected() {
    assert_eq!(tokenise(".5"), Err(ParseError::TokenizeError));
}

#[test]
fn unknown_character_is_rejected() {
    assert_eq!(tokenise("1 $"), Err(ParseError::TokenizeError));
    assert_eq!(tokenise("1$2"), Err(ParseError::TokenizeError));
    assert_eq!(tokenise("#"), Err(ParseError::TokenizeError));
}

#[test]
fn white_space_after_invalid_text_is_rejected() {
    assert_eq!(tokenise("1+. 5"), Err(ParseError::TokenizeError));
    assert_eq!(tokenise(". 5"), Err(ParseError::TokenizeError));
}

#[test]
fn unicode_white_space_separates_tokens() {
    let tokens = tokenise("1\u{a0}+\u{3000}2\n").unwrap();
    assert_eq!(tokens, vec![number("1", false), Token::Plus, number("2", false)]);
}

#[test]
fn empty_and_blank_lines_have_no_tokens() {
    assert_eq!(tokenise("").unwrap(), vec![]);
    assert_eq!(tokenise("   ").unwrap(), vec![]);
}

#[test]
fn ranks_follow_precedence() {
    assert_eq!(Token::Plus.rank(), 1);
    assert_eq!(Token::Minus.rank(), 1);
    assert_eq!(Token::Star.rank(), 2);
    assert_eq!(Token::Slash.rank(), 2);
    assert_eq!(Token::Exponent.rank(), 3);
    assert_eq!(number("1", false).rank(), 4);
    assert_eq!(Token::Variable("a".to_string()).rank(), 4);
    assert_eq!(Token::Percent.rank(), 7);
    assert_eq!(Token::Equals.rank(), 7);
    assert_eq!(Token::OpenBracket.rank(), 7);
    assert_eq!(Token::CloseBracket.rank(), 7);
}

#[test]
fn from_text_classifies() {
    assert_eq!(Token::from_text(&chars("12.5")), Ok(number("12.5", false)));
    assert_eq!(Token::from_text(&chars("pi")), Ok(Token::Variable("pi".to_string())));
    assert_eq!(Token::from_text(&chars("=")), Ok(Token::Equals));
    assert_eq!(Token::from_text(&chars("")), Err(ParseError::TokenizeError));
    assert_eq!(Token::from_text(&chars("+-")), Err(ParseError::TokenizeError));
}

#[test]
fn identifiers() {
    assert!(valid_identifier("a.b_1"));
    assert!(valid_identifier("_x"));
    assert!(valid_identifier("Z"));
    assert!(!valid_identifier("1a"));
    assert!(!valid_identifier(""));
    assert!(!valid_identifier(".a"));
    assert!(!valid_identifier("a-b"));
    assert!(identifier_chars(&chars("tau")));
}

#[test]
fn float_literals() {
    for ok in ["1", "1.", ".5", "+3", "-2", "1e5", "1E-5", "2.5e+3", "inf", "-INF", "nan", "infinity"] {
        assert!(float_literal_text(&chars(ok)), "{ok}");
    }
    for bad in ["", ".", "e5", "1e", "1e+", "+", "in", "nann", "1.2.3", "1x"] {
        assert!(!float_literal_text(&chars(bad)), "{bad}");
    }
}
