use vstd::prelude::*;

verus! {

/// A position in the source text; `line` and `col` count from 1.
#[derive(Debug, Clone, Copy, PartialEq, Eq, Structural)]
pub struct Location {
    pub line: usize,
    pub col: usize,
}

impl Location {
    pub fn new(line: usize, col: usize) -> (r: Self)
        ensures
            r.line == line,
            r.col == col,
    {
        Self { line, col }
    }
}

#[derive(Debug, Clone, Copy, PartialEq, Eq, Structural)]
pub enum Keyword {
    Is,
    Negative,
}

#[derive(Debug, Clone, Copy, PartialEq, Eq, Structural)]
pub enum Separator {
    LeftParen,
    RightParen,
    Semicolon,
}

#[derive(Debug, Clone, Copy, PartialEq, Eq, Structural)]
pub enum Operator {
    Add,
    Sub,
    Mul,
    Div,
    Mod,
}

pub open spec fn keyword_text(k: Keyword) -> Seq<char> {
    match k {
        Keyword::Is => seq!['i', 's'],
        Keyword::Negative => seq!['n', 'e', 'g', 'a', 't', 'i', 'v', 'e'],
    }
}

pub open spec fn separator_text(s: Separator) -> Seq<char> {
    match s {
        Separator::LeftParen => seq!['('],
        Separator::RightParen => seq![')'],
        Separator::Semicolon => seq![';'],
    }
}

pub open spec fn operator_text(o: Operator) -> Seq<char> {
    match o {
        Operator::Add => seq!['+'],
        Operator::Sub => seq!['-'],
        Operator::Mul => seq!['*'],
        Operator::Div => seq!['/'],
        Operator::Mod => seq!['%'],
    }
}

impl Keyword {
    /// The reserved word as it is written in source text.
    pub fn text(&self) -> (r: &'static str)
        ensures
            r@ == keyword_text(*self),
    {
        proof {
            reveal_strlit("is");
            reveal_strlit("negative");
        }
        match self {
            Keyword::Is => "is",
            Keyword::Negative => "negative",
        }
    }
}

impl Separator {
    /// The separator as it is written in source text.
    pub fn text(&self) -> (r: &'static str)
        ensures
            r@ == separator_text(*self),
    {
        proof {
            reveal_strlit("(");
            reveal_strlit(")");
            reveal_strlit(";");
        }
        match self {
            Separator::LeftParen => "(",
            Separator::RightParen => ")",
            Separator::Semicolon => ";",
        }
    }
}

impl Operator {
    /// The operator as it is written in source text.
    pub fn text(&self) -> (r: &'static str)
        ensures
            r@ == operator_text(*self),
    {
        proof {
            reveal_strlit("+");
            reveal_strlit("-");
            reveal_strlit("*");
            reveal_strlit("/");
            reveal_strlit("%");
        }
        match self {
            Operator::Add => "+",
            Operator::Sub => "-",
            Operator::Mul => "*",
            Operator::Div => "/",
            Operator::Mod => "%",
        }
    }
}

/// A lexical unit. `Number` and `Identifier` borrow their lexeme from the source;
/// the numeric value of a `Number` is the decimal value of its lexeme.
#[derive(Debug, Clone, Copy)]
pub enum Token<'src> {
    Number(&'src str, Location),
    Identifier(&'src str, Location),
    Keyword(Keyword, Location),
    Separator(Separator, Location),
    Operator(Operator, Location),
    Eof(Location),
}

/// The mathematical model of a token: lexemes as character sequences.
pub ghost enum TokenV {
    Number(Seq<char>, Location),
    Identifier(Seq<char>, Location),
    Keyword(Keyword, Location),
    Separator(Separator, Location),
    Operator(Operator, Location),
    Eof(Location),
}

impl TokenV {
    pub open spec fn loc(self) -> Location {
        match self {
            TokenV::Number(_, l) => l,
            TokenV::Identifier(_, l) => l,
            TokenV::Keyword(_, l) => l,
            TokenV::Separator(_, l) => l,
            TokenV::Operator(_, l) => l,
            TokenV::Eof(l) => l,
        }
    }
}

impl<'src> View for Token<'src> {
    type V = TokenV;

    open spec fn view(&self) -> TokenV {
        match *self {
            Token::Number(s, l) => TokenV::Number(s@, l),
            Token::Identifier(s, l) => TokenV::Identifier(s@, l),
            Token::Keyword(k, l) => TokenV::Keyword(k, l),
            Token::Separator(s, l) => TokenV::Separator(s, l),
            Token::Operator(o, l) => TokenV::Operator(o, l),
            Token::Eof(l) => TokenV::Eof(l),
        }
    }
}

impl<'src> Token<'src> {
    /// Where the token's first character stands.
    pub fn loc(&self) -> (r: &Location)
        ensures
            *r == self@.loc(),
    {
        match self {
            Token::Number(_, loc) => loc,
            Token::Identifier(_, loc) => loc,
            Token::Keyword(_, loc) => loc,
            Token::Separator(_, loc) => loc,
            Token::Operator(_, loc) => loc,
            Token::Eof(loc) => loc,
        }
    }
}

} // verus!
