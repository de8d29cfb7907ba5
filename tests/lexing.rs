use shap::lexer::{LexError, Lexer};
use shap::token::{Keyword, Location, Operator, Separator, Token};

fn tokens(src: &str) -> Vec<Token<'_>> {
    let mut lexer = Lexer::new(src);
    let mut out = Vec::new();
    loop {
        let t = lexer.next().expect("no lexical error");
        let done = matches!(t, Token::Eof(_));
        out.push(t);
        if done {
            return out;
        }
    }
}

#[test]
fn integer_literal_is_one_number() {
    let ts = tokens("42");
    assert_eq!(ts.len(), 2);
    match ts[0] {
        Token::Number(text, loc) => {
            assert_eq!(text, "42");
            assert_eq!(text.parse::<f64>().unwrap(), 42.0);
            assert_eq!(loc, Location::new(1, 1));
        }
        _ => panic!("expected a number"),
    }
    assert!(matches!(ts[1], Token::Eof(l) if l == Location::new(1, 3)));
}

#[test]
fn fractional_literal_is_one_number() {
    let ts = tokens("3.25");
    assert_eq!(ts.len(), 2);
    match ts[0] {
        Token::Number(text, _) => {
            assert_eq!(text, "3.25");
            assert_eq!(text.parse::<f64>().unwrap(), 3.25);
        }
        _ => panic!("expected a number"),
    }
    assert!(matches!(ts[1], Token::Eof(l) if l == Location::new(1, 5)));
}

#[test]
fn trailing_dot_is_accepted_with_no_fraction() {
    let ts = tokens("3.");
    assert_eq!(ts.len(), 2);
    match ts[0] {
        Token::Number(text, _) => {
            assert_eq!(text, "3.");
            assert_eq!(text.parse::<f64>().unwrap(), 3.0);
        }
        _ => panic!("expected a number"),
    }
}

#[test]
fn second_dot_ends_the_literal() {
    let mut lexer = Lexer::new("1.2.3");
    assert!(matches!(lexer.next(), Ok(Token::Number("1.2", _))));
    match lexer.next() {
        Err(LexError::InvalidCharacter(c, loc)) => {
            assert_eq!(c, '.');
            assert_eq!(loc, Location::new(1, 4));
        }
        _ => panic!("expected an invalid character"),
    }
}

#[test]
fn whitespace_only_yields_eof() {
    let ts = tokens("  \t ");
    assert_eq!(ts.len(), 1);
    assert!(matches!(ts[0], Token::Eof(l) if l == Location::new(1, 8)));
}

#[test]
fn newline_resets_column() {
    let ts = tokens(" \n\t\n  \r");
    assert_eq!(ts.len(), 1);
    assert!(matches!(ts[0], Token::Eof(l) if l == Location::new(3, 4)));
}

#[test]
fn empty_input_yields_eof_at_start() {
    let ts = tokens("");
    assert_eq!(ts.len(), 1);
    assert!(matches!(ts[0], Token::Eof(l) if l == Location::new(1, 1)));
}

#[test]
fn eof_repeats_at_the_same_place() {
    let mut lexer = Lexer::new("1 ");
    assert!(matches!(lexer.next(), Ok(Token::Number(_, _))));
    for _ in 0..3 {
        assert!(matches!(lexer.next(), Ok(Token::Eof(l)) if l == Location::new(1, 3)));
    }
}

#[test]
fn token_locations_follow_lines_and_tabs() {
    let ts = tokens("1 +\n\t(2)");
    assert!(matches!(ts[0], Token::Number("1", l) if l == Location::new(1, 1)));
    assert!(matches!(ts[1], Token::Operator(Operator::Add, l) if l == Location::new(1, 3)));
    assert!(matches!(ts[2], Token::Separator(Separator::LeftParen, l) if l == Location::new(2, 5)));
    assert!(matches!(ts[3], Token::Number("2", l) if l == Location::new(2, 6)));
    assert!(matches!(ts[4], Token::Separator(Separator::RightParen, l) if l == Location::new(2, 7)));
    assert!(matches!(ts[5], Token::Eof(l) if l == Location::new(2, 8)));
}

#[test]
fn operators_and_separators() {
    let ts = tokens("+-*/%();");
    assert!(matches!(ts[0], Token::Operator(Operator::Add, _)));
    assert!(matches!(ts[1], Token::Operator(Operator::Sub, _)));
    assert!(matches!(ts[2], Token::Operator(Operator::Mul, _)));
    assert!(matches!(ts[3], Token::Operator(Operator::Div, _)));
    assert!(matches!(ts[4], Token::Operator(Operator::Mod, _)));
    assert!(matches!(ts[5], Token::Separator(Separator::LeftParen, _)));
    assert!(matches!(ts[6], Token::Separator(Separator::RightParen, _)));
    assert!(matches!(ts[7], Token::Separator(Separator::Semicolon, l) if l == Location::new(1, 8)));
    assert!(matches!(ts[8], Token::Eof(_)));
}

#[test]
fn keywords_and_identifiers() {
    let ts = tokens("is negative isn't _x1 Negative");
    assert!(matches!(ts[0], Token::Keyword(Keyword::Is, l) if l == Location::new(1, 1)));
    assert!(matches!(ts[1], Token::Keyword(Keyword::Negative, l) if l == Location::new(1, 4)));
    assert!(matches!(ts[2], Token::Identifier("isn't", l) if l == Location::new(1, 13)));
    assert!(matches!(ts[3], Token::Identifier("_x1", _)));
    assert!(matches!(ts[4], Token::Identifier("Negative", _)));
    assert!(matches!(ts[5], Token::Eof(_)));
}

#[test]
fn invalid_character_is_reported_with_its_column() {
    let mut lexer = Lexer::new("1 + @;");
    assert!(matches!(lexer.next(), Ok(Token::Number("1", _))));
    assert!(matches!(lexer.next(), Ok(Token::Operator(Operator::Add, _))));
    let err = lexer.next().unwrap_err();
    assert_eq!(err, LexError::InvalidCharacter('@', Location::new(1, 5)));
    assert_eq!(err.loc(), Location::new(1, 5));
}

#[test]
fn non_ascii_character_is_invalid() {
    let mut lexer = Lexer::new("é");
    assert_eq!(lexer.next().unwrap_err(), LexError::InvalidCharacter('é', Location::new(1, 1)));
}

#[test]
fn fresh_lexers_agree() {
    let src = "12.5 * (x - 3) % 2;\n\tis";
    let a = tokens(src);
    let b = tokens(src);
    assert_eq!(a.len(), b.len());
    for (x, y) in a.iter().zip(b.iter()) {
        assert_eq!(format!("{:?}", x), format!("{:?}", y));
    }
}

#[test]
fn symbols_spell_their_tokens() {
    assert_eq!(Operator::Add.text(), "+");
    assert_eq!(Operator::Sub.text(), "-");
    assert_eq!(Operator::Mul.text(), "*");
    assert_eq!(Operator::Div.text(), "/");
    assert_eq!(Operator::Mod.text(), "%");
    assert_eq!(Separator::LeftParen.text(), "(");
    assert_eq!(Separator::RightParen.text(), ")");
    assert_eq!(Separator::Semicolon.text(), ";");
    assert_eq!(Keyword::Is.text(), "is");
    assert_eq!(Keyword::Negative.text(), "negative");
}

#[test]
fn token_loc_reads_the_location() {
    let t = Token::Separator(Separator::Semicolon, Location::new(4, 9));
    assert_eq!(*t.loc(), Location::new(4, 9));
    let l = Location::new(2, 7);
    assert_eq!(l.line, 2);
    assert_eq!(l.col, 7);
}
