use shap::ast::{Expr, Stmt};
use shap::lexer::LexError;
use shap::parser::{ParseError, Parser};
use shap::token::{Location, Operator, Separator, Token};
use shap::walker::{WalkError, Walker};

fn parse(src: &str) -> Result<Vec<Stmt<'_>>, ParseError<'_>> {
    Parser::new(src).parse()
}

fn eval(walker: &Walker, e: &Expr) -> f64 {
    match e {
        Expr::Literal { value, .. } => value.parse().unwrap(),
        Expr::Grouping { expr, .. } => eval(walker, expr),
        Expr::Unary { right, .. } => -eval(walker, right),
        Expr::Binary { left, op, right } => {
            let op = walker.binary_operator(op).unwrap();
            let l = eval(walker, left);
            let r = eval(walker, right);
            match op {
                Operator::Add => l + r,
                Operator::Sub => l - r,
                Operator::Mul => l * r,
                Operator::Div => l / r,
                Operator::Mod => l % r,
            }
        }
    }
}

fn value_of(src: &str) -> f64 {
    let stmts = parse(src).expect("parses");
    assert_eq!(stmts.len(), 1);
    let walker = Walker::new();
    match &stmts[0] {
        Stmt::Expr(e) => eval(&walker, e),
    }
}

#[test]
fn multiplication_binds_tighter() {
    assert_eq!(value_of("2 + 3 * 4;"), 14.0);
    let stmts = parse("2 * 3 + 4;").unwrap();
    match &stmts[0] {
        Stmt::Expr(Expr::Binary { left, op: Token::Operator(Operator::Add, _), right }) => {
            assert!(matches!(**left, Expr::Binary { op: Token::Operator(Operator::Mul, _), .. }));
            assert!(matches!(**right, Expr::Literal { value: "4", .. }));
        }
        _ => panic!("expected a sum at the top"),
    }
}

#[test]
fn parentheses_group() {
    assert_eq!(value_of("(2 + 3) * 4;"), 20.0);
}

#[test]
fn unary_minus() {
    assert_eq!(value_of("-2 - -3;"), 1.0);
    let stmts = parse("- -3;").unwrap();
    match &stmts[0] {
        Stmt::Expr(Expr::Unary { right, .. }) => {
            assert!(matches!(**right, Expr::Unary { .. }));
        }
        _ => panic!("expected nested negation"),
    }
}

#[test]
fn remainder() {
    assert_eq!(value_of("7 % 3;"), 1.0);
    assert_eq!(value_of("-7 % 3;"), -1.0);
}

#[test]
fn subtraction_is_left_associative() {
    assert_eq!(value_of("10 - 2 - 3;"), 5.0);
    let stmts = parse("2 - 3 - 4;").unwrap();
    match &stmts[0] {
        Stmt::Expr(Expr::Binary { left, right, .. }) => {
            assert!(matches!(**left, Expr::Binary { .. }));
            assert!(matches!(**right, Expr::Literal { value: "4", .. }));
        }
        _ => panic!("expected a difference"),
    }
}

#[test]
fn division_by_zero_is_infinite() {
    let v = value_of("1 / 0;");
    assert!(v.is_infinite() && v > 0.0);
}

#[test]
fn missing_terminator_reports_eof() {
    match parse("1 + 1") {
        Err(ParseError::UnexpectedToken(Token::Eof(loc))) => {
            assert_eq!(loc, Location::new(1, 6));
        }
        _ => panic!("expected an unexpected end of input"),
    }
    assert_eq!(parse("1 + 1").err().unwrap().loc(), Location::new(1, 6));
}

#[test]
fn invalid_character_surfaces_from_the_parser() {
    match parse("1 + @;") {
        Err(ParseError::LexError(LexError::InvalidCharacter(c, loc))) => {
            assert_eq!(c, '@');
            assert_eq!(loc, Location::new(1, 5));
        }
        _ => panic!("expected a lexical error"),
    }
}

#[test]
fn several_statements() {
    let stmts = parse("1; 2 * 2;\n(3);").unwrap();
    assert_eq!(stmts.len(), 3);
    assert!(matches!(&stmts[2], Stmt::Expr(Expr::Grouping { paren: Token::Separator(Separator::LeftParen, l), .. }) if *l == Location::new(2, 1)));
}

#[test]
fn empty_program() {
    assert_eq!(parse("").unwrap().len(), 0);
    assert_eq!(parse("  \n ").unwrap().len(), 0);
}

#[test]
fn unexpected_token_in_atom() {
    match parse("1 + ;") {
        Err(ParseError::UnexpectedToken(Token::Separator(Separator::Semicolon, loc))) => {
            assert_eq!(loc, Location::new(1, 5));
        }
        _ => panic!("expected the semicolon to be reported"),
    }
}

#[test]
fn unclosed_parenthesis() {
    match parse("(1 + 2;") {
        Err(ParseError::UnexpectedToken(Token::Separator(Separator::Semicolon, loc))) => {
            assert_eq!(loc, Location::new(1, 7));
        }
        _ => panic!("expected the semicolon to be reported"),
    }
}

#[test]
fn identifiers_are_not_expressions() {
    assert!(matches!(parse("x;"), Err(ParseError::UnexpectedToken(Token::Identifier("x", _)))));
    assert!(matches!(parse("is;"), Err(ParseError::UnexpectedToken(Token::Keyword(_, _)))));
}

#[test]
fn wrong_terminator_is_reported() {
    assert!(matches!(parse("1 2;"), Err(ParseError::UnexpectedToken(Token::Number("2", _)))));
}

#[test]
fn syntax_error_before_a_later_bad_character() {
    assert!(matches!(parse("1 +; @"), Err(ParseError::UnexpectedToken(Token::Separator(_, _)))));
}

#[test]
fn internal_error_has_no_place() {
    assert_eq!(ParseError::Wtf.loc(), Location::new(0, 0));
}

#[test]
fn walker_requires_an_operator_token() {
    let walker = Walker::new();
    let bad = Token::Separator(Separator::Semicolon, Location::new(1, 3));
    let err = walker.binary_operator(&bad).unwrap_err();
    assert_eq!(err, WalkError::Wtf(Location::new(1, 3)));
    assert_eq!(err.loc(), Location::new(1, 3));
    let good = Token::Operator(Operator::Mod, Location::new(1, 1));
    assert_eq!(walker.binary_operator(&good), Ok(Operator::Mod));
}
