use vstd::prelude::*;

use crate::ast::{Expr, ExprV, Stmt, StmtV};
use crate::lexer::{
    all_space, is_decimal, lemma_decimal_literal, lemma_only_space, space_end, lemma_step, lexable, start_state, state_after, state_ok, step, LexError, LexState, Lexer,
};
use crate::token::{Location, Operator, Separator, Token, TokenV};

verus! {

#[derive(Debug)]
pub enum ParseError<'src> {
    LexError(LexError),
    UnexpectedToken(Token<'src>),
    Wtf,
}

pub ghost enum ParseErrorV {
    LexError(LexError),
    UnexpectedToken(TokenV),
    Wtf,
}

impl<'src> View for ParseError<'src> {
    type V = ParseErrorV;

    open spec fn view(&self) -> ParseErrorV {
        match *self {
            ParseError::LexError(e) => ParseErrorV::LexError(e),
            ParseError::UnexpectedToken(t) => ParseErrorV::UnexpectedToken(t@),
            ParseError::Wtf => ParseErrorV::Wtf,
        }
    }
}

impl ParseErrorV {
    pub open spec fn loc(self) -> Location {
        match self {
            ParseErrorV::LexError(e) => e.spec_loc(),
            ParseErrorV::UnexpectedToken(t) => t.loc(),
            ParseErrorV::Wtf => Location { line: 0, col: 0 },
        }
    }
}

impl<'src> ParseError<'src> {
    /// Where the error stands; an internal error has no place and reports `0:0`.
    pub fn loc(&self) -> (r: Location)
        ensures
            r == self@.loc(),
    {
        match self {
            ParseError::LexError(err) => err.loc(),
            ParseError::UnexpectedToken(token) => *token.loc(),
            ParseError::Wtf => Location { line: 0, col: 0 },
        }
    }
}

// ---------------------------------------------------------------------------
// The token stream

/// A scan result after which the lexer is asked for nothing more.
pub open spec fn is_final(r: Result<TokenV, LexError>) -> bool {
    r is Err || r matches Ok(TokenV::Eof(_))
}

/// The scan results from `st` on, up to and including the first `Eof` or error.
pub open spec fn stream_from(src: Seq<char>, st: LexState) -> Seq<Result<TokenV, LexError>>
    decreases src.len() - st.pos,
{
    let (next, r) = step(src, st);
    if !is_final(r) && st.pos < next.pos <= src.len() {
        seq![r] + stream_from(src, next)
    } else {
        seq![r]
    }
}

/// The tokens of `src` as a lexer hands them out from the start.
pub open spec fn token_stream(src: Seq<char>) -> Seq<Result<TokenV, LexError>> {
    stream_from(src, start_state())
}

proof fn lemma_state_after_shift(src: Seq<char>, st: LexState, k: nat)
    ensures
        state_after(src, step(src, st).0, k) == state_after(src, st, k + 1),
    decreases k,
{
    if k > 0 {
        lemma_state_after_shift(src, st, (k - 1) as nat);
        assert(state_after(src, st, k + 1) == step(src, state_after(src, st, k)).0);
    } else {
        assert(state_after(src, st, 1) == step(src, state_after(src, st, 0)).0);
    }
}

/// Element `k` of the stream is the `k`-th scan; only the last element is final.
proof fn lemma_stream_from(src: Seq<char>, st: LexState, k: nat)
    requires
        state_ok(src, st),
        k < stream_from(src, st).len(),
    ensures
        stream_from(src, st)[k as int] == step(src, state_after(src, st, k)).1,
        state_ok(src, state_after(src, st, k)),
        k + 1 < stream_from(src, st).len() <==> !is_final(stream_from(src, st)[k as int]),
    decreases src.len() - st.pos,
{
    lemma_step(src, st);
    let (next, r) = step(src, st);
    if !is_final(r) && st.pos < next.pos <= src.len() {
        if k > 0 {
            lemma_stream_from(src, next, (k - 1) as nat);
            lemma_state_after_shift(src, st, (k - 1) as nat);
        } else {
            lemma_stream_nonempty(src, next);
        }
    }
}

proof fn lemma_stream_nonempty(src: Seq<char>, st: LexState)
    ensures
        stream_from(src, st).len() >= 1,
    decreases src.len() - st.pos,
{
    let (next, r) = step(src, st);
    if !is_final(r) && st.pos < next.pos <= src.len() {
        lemma_stream_nonempty(src, next);
    }
}

/// Lexing is a function of the text: the `k`-th result that a fresh lexer over
/// `src` hands out, until the first `Eof` or error, is element `k` of
/// `token_stream(src)`, whichever lexer it is and whenever it runs.
pub proof fn lemma_fresh_lexer_yields_stream(src: Seq<char>, k: nat)
    requires
        k < token_stream(src).len(),
    ensures
        step(src, state_after(src, start_state(), k)).1 == token_stream(src)[k as int],
        k + 1 < token_stream(src).len() <==> !is_final(token_stream(src)[k as int]),
{
    lemma_stream_from(src, start_state(), k);
}

/// A decimal literal alone lexes to exactly one `Number` token holding the whole
/// literal, followed by `Eof`.
pub proof fn lemma_decimal_stream(d: Seq<char>)
    requires
        is_decimal(d),
        lexable(d),
    ensures
        token_stream(d) == seq![
            Ok::<TokenV, LexError>(TokenV::Number(d, Location { line: 1, col: 1 })),
            Ok::<TokenV, LexError>(TokenV::Eof(Location { line: 1, col: (d.len() + 1) as usize })),
        ],
{
    lemma_decimal_literal(d);
    lemma_step(d, start_state());
    let st = step(d, start_state()).0;
    assert(stream_from(d, st) == seq![step(d, st).1]);
    assert(token_stream(d) =~= seq![step(d, start_state()).1] + seq![step(d, st).1]);
}

/// Text made of whitespace alone lexes to `Eof` alone, at the line and column
/// that the whitespace leads to.
pub proof fn lemma_space_stream(s: Seq<char>)
    requires
        all_space(s),
    ensures
        token_stream(s) == seq![
            Ok::<TokenV, LexError>(
                TokenV::Eof(Location { line: space_end(s).0 as usize, col: space_end(s).1 as usize }),
            ),
        ],
{
    lemma_only_space(s);
}

// ---------------------------------------------------------------------------
// The grammar, over a stream of scan results
//
//   program := stmt* Eof
//   stmt    := expr ';'
//   expr    := term (('+' | '-') term)*
//   term    := factor (('*' | '/' | '%') factor)*
//   factor  := '-' factor | atom
//   atom    := Number | '(' expr ')'
//
// Each rule yields the tree and the index of the first token it did not use.
// A syntax error carries the offending token.

pub type ParsedExpr = Result<(ExprV, nat), ParseErrorV>;

pub open spec fn is_additive(t: TokenV) -> bool {
    t matches TokenV::Operator(Operator::Add, _) || t matches TokenV::Operator(Operator::Sub, _)
}

pub open spec fn is_multiplicative(t: TokenV) -> bool {
    t matches TokenV::Operator(Operator::Mul, _) || t matches TokenV::Operator(Operator::Div, _)
        || t matches TokenV::Operator(Operator::Mod, _)
}

pub open spec fn binary(left: ExprV, op: TokenV, right: ExprV) -> ExprV {
    ExprV::Binary { left: Box::new(left), op, right: Box::new(right) }
}

pub open spec fn p_expr(s: Seq<Result<TokenV, LexError>>, p: nat) -> ParsedExpr
    decreases s.len() - p, 4nat,
{
    match p_term(s, p) {
        Err(e) => Err(e),
        Ok((left, q)) => if p < q <= s.len() {
            p_expr_rest(s, left, q)
        } else {
            Err(ParseErrorV::Wtf)
        },
    }
}

pub open spec fn p_expr_rest(s: Seq<Result<TokenV, LexError>>, left: ExprV, p: nat) -> ParsedExpr
    decreases s.len() - p, 0nat,
{
    if p >= s.len() {
        Err(ParseErrorV::Wtf)
    } else {
        match s[p as int] {
            Err(e) => Err(ParseErrorV::LexError(e)),
            Ok(t) => if is_additive(t) && p + 1 < s.len() {
                match p_term(s, p + 1) {
                    Err(e) => Err(e),
                    Ok((right, q)) => if p < q <= s.len() {
                        p_expr_rest(s, binary(left, t, right), q)
                    } else {
                        Err(ParseErrorV::Wtf)
                    },
                }
            } else {
                Ok((left, p))
            },
        }
    }
}

pub open spec fn p_term(s: Seq<Result<TokenV, LexError>>, p: nat) -> ParsedExpr
    decreases s.len() - p, 3nat,
{
    match p_factor(s, p) {
        Err(e) => Err(e),
        Ok((left, q)) => if p < q <= s.len() {
            p_term_rest(s, left, q)
        } else {
            Err(ParseErrorV::Wtf)
        },
    }
}

pub open spec fn p_term_rest(s: Seq<Result<TokenV, LexError>>, left: ExprV, p: nat) -> ParsedExpr
    decreases s.len() - p, 0nat,
{
    if p >= s.len() {
        Err(ParseErrorV::Wtf)
    } else {
        match s[p as int] {
            Err(e) => Err(ParseErrorV::LexError(e)),
            Ok(t) => if is_multiplicative(t) && p + 1 < s.len() {
                match p_factor(s, p + 1) {
                    Err(e) => Err(e),
                    Ok((right, q)) => if p < q <= s.len() {
                        p_term_rest(s, binary(left, t, right), q)
                    } else {
                        Err(ParseErrorV::Wtf)
                    },
                }
            } else {
                Ok((left, p))
            },
        }
    }
}

pub open spec fn p_factor(s: Seq<Result<TokenV, LexError>>, p: nat) -> ParsedExpr
    decreases s.len() - p, 2nat,
{
    if p >= s.len() {
        Err(ParseErrorV::Wtf)
    } else {
        match s[p as int] {
            Err(e) => Err(ParseErrorV::LexError(e)),
            Ok(t) => if (t matches TokenV::Operator(Operator::Sub, _)) && p + 1 < s.len() {
                match p_factor(s, p + 1) {
                    Err(e) => Err(e),
                    Ok((right, q)) => Ok((ExprV::Unary { op: t, right: Box::new(right) }, q)),
                }
            } else {
                p_atom(s, p)
            },
        }
    }
}

pub open spec fn p_atom(s: Seq<Result<TokenV, LexError>>, p: nat) -> ParsedExpr
    decreases s.len() - p, 1nat,
{
    if p >= s.len() {
        Err(ParseErrorV::Wtf)
    } else {
        match s[p as int] {
            Err(e) => Err(ParseErrorV::LexError(e)),
            Ok(t) => match t {
                TokenV::Number(text, _) => Ok((ExprV::Literal { token: t, value: text }, p + 1)),
                TokenV::Separator(Separator::LeftParen, _) => if p + 1 < s.len() {
                    match p_expr(s, p + 1) {
                        Err(e) => Err(e),
                        Ok((inner, q)) => if q < s.len() {
                            match s[q as int] {
                                Err(e) => Err(ParseErrorV::LexError(e)),
                                Ok(u) => if u matches TokenV::Separator(Separator::RightParen, _) {
                                    Ok((ExprV::Grouping { paren: t, expr: Box::new(inner) }, q + 1))
                                } else {
                                    Err(ParseErrorV::UnexpectedToken(u))
                                },
                            }
                        } else {
                            Err(ParseErrorV::Wtf)
                        },
                    }
                } else {
                    Err(ParseErrorV::Wtf)
                },
                _ => Err(ParseErrorV::UnexpectedToken(t)),
            },
        }
    }
}

pub open spec fn p_stmt(s: Seq<Result<TokenV, LexError>>, p: nat) -> Result<(StmtV, nat), ParseErrorV> {
    match p_expr(s, p) {
        Err(e) => Err(e),
        Ok((e, q)) => if q < s.len() {
            match s[q as int] {
                Err(le) => Err(ParseErrorV::LexError(le)),
                Ok(u) => if u matches TokenV::Separator(Separator::Semicolon, _) {
                    Ok((StmtV::Expr(e), q + 1))
                } else {
                    Err(ParseErrorV::UnexpectedToken(u))
                },
            }
        } else {
            Err(ParseErrorV::Wtf)
        },
    }
}

pub open spec fn p_program(s: Seq<Result<TokenV, LexError>>, p: nat) -> Result<Seq<StmtV>, ParseErrorV>
    decreases s.len() - p,
{
    if p >= s.len() {
        Err(ParseErrorV::Wtf)
    } else {
        match s[p as int] {
            Err(e) => Err(ParseErrorV::LexError(e)),
            Ok(TokenV::Eof(_)) => Ok(seq![]),
            Ok(_) => match p_stmt(s, p) {
                Err(e) => Err(e),
                Ok((st, q)) => if p < q {
                    match p_program(s, q) {
                        Err(e) => Err(e),
                        Ok(rest) => Ok(seq![st] + rest),
                    }
                } else {
                    Err(ParseErrorV::Wtf)
                },
            },
        }
    }
}

/// What parsing `src` yields: the statements, or the first error met.
pub open spec fn parse_spec(src: Seq<char>) -> Result<Seq<StmtV>, ParseErrorV> {
    p_program(token_stream(src), 0)
}

/// The shape of every token stream: all results but the last are tokens other
/// than `Eof`, and the last is `Eof` or an error.
pub open spec fn stream_ok(s: Seq<Result<TokenV, LexError>>) -> bool {
    &&& s.len() >= 1
    &&& forall|k: int| 0 <= k < s.len() ==> (k + 1 < s.len() <==> !is_final(#[trigger] s[k]))
}

pub open spec fn advances(r: ParsedExpr, p: nat, len: nat) -> bool {
    &&& !(r matches Err(ParseErrorV::Wtf))
    &&& r matches Ok((_, q)) ==> p < q < len
}

pub open spec fn keeps_up(r: ParsedExpr, p: nat, len: nat) -> bool {
    &&& !(r matches Err(ParseErrorV::Wtf))
    &&& r matches Ok((_, q)) ==> p <= q < len
}

proof fn lemma_expr_progress(s: Seq<Result<TokenV, LexError>>, p: nat)
    requires
        stream_ok(s),
        p < s.len(),
    ensures
        advances(p_expr(s, p), p, s.len()),
    decreases s.len() - p, 4nat,
{
    lemma_term_progress(s, p);
    if let Ok((left, q)) = p_term(s, p) {
        lemma_expr_rest_progress(s, left, q);
    }
}

proof fn lemma_expr_rest_progress(s: Seq<Result<TokenV, LexError>>, left: ExprV, p: nat)
    requires
        stream_ok(s),
        p < s.len(),
    ensures
        keeps_up(p_expr_rest(s, left, p), p, s.len()),
    decreases s.len() - p, 0nat,
{
    if let Ok(t) = s[p as int] {
        if is_additive(t) && p + 1 < s.len() {
            lemma_term_progress(s, p + 1);
            if let Ok((right, q)) = p_term(s, p + 1) {
                lemma_expr_rest_progress(s, binary(left, t, right), q);
            }
        }
    }
}

proof fn lemma_term_progress(s: Seq<Result<TokenV, LexError>>, p: nat)
    requires
        stream_ok(s),
        p < s.len(),
    ensures
        advances(p_term(s, p), p, s.len()),
    decreases s.len() - p, 3nat,
{
    lemma_factor_progress(s, p);
    if let Ok((left, q)) = p_factor(s, p) {
        lemma_term_rest_progress(s, left, q);
    }
}

proof fn lemma_term_rest_progress(s: Seq<Result<TokenV, LexError>>, left: ExprV, p: nat)
    requires
        stream_ok(s),
        p < s.len(),
    ensures
        keeps_up(p_term_rest(s, left, p), p, s.len()),
    decreases s.len() - p, 0nat,
{
    if let Ok(t) = s[p as int] {
        if is_multiplicative(t) && p + 1 < s.len() {
            lemma_factor_progress(s, p + 1);
            if let Ok((right, q)) = p_factor(s, p + 1) {
                lemma_term_rest_progress(s, binary(left, t, right), q);
            }
        }
    }
}

proof fn lemma_factor_progress(s: Seq<Result<TokenV, LexError>>, p: nat)
    requires
        stream_ok(s),
        p < s.len(),
    ensures
        advances(p_factor(s, p), p, s.len()),
    decreases s.len() - p, 2nat,
{
    assert(p + 1 < s.len() <==> !is_final(s[p as int]));
    if let Ok(t) = s[p as int] {
        if (t matches TokenV::Operator(Operator::Sub, _)) && p + 1 < s.len() {
            lemma_factor_progress(s, p + 1);
        } else {
            lemma_atom_progress(s, p);
        }
    }
}

proof fn lemma_atom_progress(s: Seq<Result<TokenV, LexError>>, p: nat)
    requires
        stream_ok(s),
        p < s.len(),
    ensures
        advances(p_atom(s, p), p, s.len()),
    decreases s.len() - p, 1nat,
{
    assert(p + 1 < s.len() <==> !is_final(s[p as int]));
    if let Ok(t) = s[p as int] {
        if let TokenV::Separator(Separator::LeftParen, _) = t {
            lemma_expr_progress(s, p + 1);
            if let Ok((inner, q)) = p_expr(s, p + 1) {
                assert(q + 1 < s.len() <==> !is_final(s[q as int]));
            }
        }
    }
}

proof fn lemma_program_progress(s: Seq<Result<TokenV, LexError>>, p: nat)
    requires
        stream_ok(s),
        p < s.len(),
    ensures
        !(p_program(s, p) matches Err(ParseErrorV::Wtf)),
    decreases s.len() - p,
{
    lemma_expr_progress(s, p);
    if let Ok((e, q)) = p_expr(s, p) {
        assert(q + 1 < s.len() <==> !is_final(s[q as int]));
    }
    if let Ok((st, q)) = p_stmt(s, p) {
        lemma_program_progress(s, q);
    }
}

/// Parsing never ends in the internal error: on every text, the result is the
/// statements or an error that carries a lexical error or an unexpected token.
pub proof fn lemma_parse_no_internal_error(src: Seq<char>)
    ensures
        !(parse_spec(src) matches Err(ParseErrorV::Wtf)),
{
    let s = token_stream(src);
    lemma_stream_nonempty(src, start_state());
    assert forall|k: int| 0 <= k < s.len() implies (k + 1 < s.len() <==> !is_final(#[trigger] s[k])) by {
        lemma_stream_from(src, start_state(), k as nat);
    }
    lemma_program_progress(s, 0);
}

pub open spec fn stmts_view(v: Seq<Stmt>) -> Seq<StmtV> {
    v.map_values(|st: Stmt| st.view())
}

/// A recursive-descent parser that pulls tokens from a lexer on demand and
/// keeps those it has seen, so that it can look at the next one more than once.
pub struct Parser<'src> {
    lexer: Lexer<'src>,
    pos: usize,
    tokens: Vec<Token<'src>>,
}

impl<'src> Parser<'src> {
    /// The text being parsed.
    pub closed spec fn text(&self) -> Seq<char> {
        self.lexer.text()
    }

    /// How many tokens have been used.
    pub closed spec fn position(&self) -> nat {
        self.pos as nat
    }

    pub closed spec fn stream(&self) -> Seq<Result<TokenV, LexError>> {
        token_stream(self.lexer.text())
    }

    pub closed spec fn wf(&self) -> bool {
        let s = token_stream(self.lexer.text());
        &&& self.lexer.wf()
        &&& self.tokens.len() <= s.len()
        &&& forall|i: int| 0 <= i < self.tokens.len() ==> s[i] == Ok::<TokenV, LexError>(#[trigger] self.tokens[i]@)
        &&& self.lexer.state() == state_after(self.lexer.text(), start_state(), self.tokens.len() as nat)
        &&& self.pos <= self.tokens.len()
    }

    pub fn new(input: &'src str) -> (r: Self)
        requires
            lexable(input@),
        ensures
            r.wf(),
            r.text() == input@,
            r.position() == 0,
    {
        Self { lexer: Lexer::new(input), pos: 0, tokens: Vec::new() }
    }

    /// Parses the whole text into statements, or reports the first error met.
    pub fn parse(&mut self) -> (r: Result<Vec<Stmt<'src>>, ParseError<'src>>)
        requires
            old(self).wf(),
            old(self).position() == 0,
        ensures
            match parse_spec(old(self).text()) {
                Ok(stmts) => r is Ok && stmts_view(r->Ok_0@) == stmts,
                Err(e) => r is Err && r->Err_0@ == e,
            },
    {
        self.program()
    }

    fn program(&mut self) -> (r: Result<Vec<Stmt<'src>>, ParseError<'src>>)
        requires
            old(self).wf(),
            old(self).position() == 0,
        ensures
            match parse_spec(old(self).text()) {
                Ok(stmts) => r is Ok && stmts_view(r->Ok_0@) == stmts,
                Err(e) => r is Err && r->Err_0@ == e,
            },
    {
        let ghost s = self.stream();
        proof {
            lemma_stream_nonempty(self.text(), start_state());
        }
        let mut stmts: Vec<Stmt<'src>> = Vec::new();
        loop
            invariant
                self.wf(),
                self.stream() == s,
                s == old(self).stream(),
                self.text() == old(self).text(),
                self.pos < s.len(),
                match p_program(s, 0) {
                    Ok(all) => match p_program(s, self.pos as nat) {
                        Ok(rest) => all == stmts_view(stmts@) + rest,
                        Err(e) => false,
                    },
                    Err(e) => p_program(s, self.pos as nat) == Err::<Seq<StmtV>, ParseErrorV>(e),
                },
            decreases s.len() - self.pos,
        {
            let t = match self.peek() {
                Ok(t) => t,
                Err(e) => return Err(e),
            };
            if let Token::Eof(_) = t {
                assert(stmts_view(stmts@) + seq![] =~= stmts_view(stmts@));
                return Ok(stmts);
            }
            let st = match self.stmt() {
                Ok(st) => st,
                Err(e) => return Err(e),
            };
            let ghost before = stmts@;
            stmts.push(st);
            assert(stmts_view(stmts@) =~= stmts_view(before) + seq![st.view()]);
            proof {
                match p_program(s, 0) {
                    Ok(all) => {
                        assert(all == stmts_view(before) + (seq![st.view()] + p_program(s, self.pos as nat)->Ok_0));
                        assert(all =~= stmts_view(stmts@) + p_program(s, self.pos as nat)->Ok_0);
                    },
                    Err(e) => {},
                }
            }
        }
    }

    fn stmt(&mut self) -> (r: Result<Stmt<'src>, ParseError<'src>>)
        requires
            old(self).wf(),
            old(self).pos < old(self).stream().len(),
        ensures
            r is Ok ==> final(self).wf(),
            final(self).text() == old(self).text(),
            match p_stmt(old(self).stream(), old(self).pos as nat) {
                Ok((st, q)) => r is Ok && r->Ok_0.view() == st && final(self).pos == q
                    && old(self).pos < q < old(self).stream().len(),
                Err(e) => r is Err && r->Err_0@ == e,
            },
    {
        let expr = match self.expr() {
            Ok(e) => e,
            Err(e) => return Err(e),
        };
        let t = match self.next() {
            Ok(t) => t,
            Err(e) => return Err(e),
        };
        if let Token::Separator(Separator::Semicolon, _) = t {
            proof {
                self.lemma_stream_at((self.pos - 1) as nat);
            }
            return Ok(Stmt::Expr(expr));
        }
        Err(ParseError::UnexpectedToken(t))
    }

    fn expr(&mut self) -> (r: Result<Expr<'src>, ParseError<'src>>)
        requires
            old(self).wf(),
            old(self).pos < old(self).stream().len(),
        ensures
            r is Ok ==> final(self).wf(),
            final(self).text() == old(self).text(),
            match p_expr(old(self).stream(), old(self).pos as nat) {
                Ok((e, q)) => r is Ok && r->Ok_0.view() == e && final(self).pos == q
                    && old(self).pos < q < old(self).stream().len(),
                Err(e) => r is Err && r->Err_0@ == e,
            },
        decreases old(self).stream().len() - old(self).pos, 4nat,
    {
        let ghost s = self.stream();
        let ghost p0 = self.pos as nat;
        let mut left = match self.term() {
            Ok(e) => e,
            Err(e) => return Err(e),
        };
        loop
            invariant
                self.wf(),
                self.stream() == s,
                s == old(self).stream(),
                p0 == old(self).pos,
                self.text() == old(self).text(),
                p0 < self.pos < s.len(),
                p_expr(s, p0) == p_expr_rest(s, left.view(), self.pos as nat),
            decreases s.len() - self.pos,
        {
            let op = match self.peek() {
                Ok(t) => t,
                Err(e) => return Err(e),
            };
            match op {
                Token::Operator(Operator::Add, _) => {},
                Token::Operator(Operator::Sub, _) => {},
                _ => return Ok(left),
            }
            proof {
                self.lemma_stream_at(self.pos as nat);
            }
            self.advance();
            let right = match self.term() {
                Ok(e) => e,
                Err(e) => return Err(e),
            };
            left = Expr::Binary { left: Box::new(left), op, right: Box::new(right) };
        }
    }

    fn term(&mut self) -> (r: Result<Expr<'src>, ParseError<'src>>)
        requires
            old(self).wf(),
            old(self).pos < old(self).stream().len(),
        ensures
            r is Ok ==> final(self).wf(),
            final(self).text() == old(self).text(),
            match p_term(old(self).stream(), old(self).pos as nat) {
                Ok((e, q)) => r is Ok && r->Ok_0.view() == e && final(self).pos == q
                    && old(self).pos < q < old(self).stream().len(),
                Err(e) => r is Err && r->Err_0@ == e,
            },
        decreases old(self).stream().len() - old(self).pos, 3nat,
    {
        let ghost s = self.stream();
        let ghost p0 = self.pos as nat;
        let mut left = match self.factor() {
            Ok(e) => e,
            Err(e) => return Err(e),
        };
        loop
            invariant
                self.wf(),
                self.stream() == s,
                s == old(self).stream(),
                p0 == old(self).pos,
                self.text() == old(self).text(),
                p0 < self.pos < s.len(),
                p_term(s, p0) == p_term_rest(s, left.view(), self.pos as nat),
            decreases s.len() - self.pos,
        {
            let op = match self.peek() {
                Ok(t) => t,
                Err(e) => return Err(e),
            };
            match op {
                Token::Operator(Operator::Mul, _) => {},
                Token::Operator(Operator::Div, _) => {},
                Token::Operator(Operator::Mod, _) => {},
                _ => return Ok(left),
            }
            proof {
                self.lemma_stream_at(self.pos as nat);
            }
            self.advance();
            let right = match self.factor() {
                Ok(e) => e,
                Err(e) => return Err(e),
            };
            left = Expr::Binary { left: Box::new(left), op, right: Box::new(right) };
        }
    }

    fn factor(&mut self) -> (r: Result<Expr<'src>, ParseError<'src>>)
        requires
            old(self).wf(),
            old(self).pos < old(self).stream().len(),
        ensures
            r is Ok ==> final(self).wf(),
            final(self).text() == old(self).text(),
            match p_factor(old(self).stream(), old(self).pos as nat) {
                Ok((e, q)) => r is Ok && r->Ok_0.view() == e && final(self).pos == q
                    && old(self).pos < q < old(self).stream().len(),
                Err(e) => r is Err && r->Err_0@ == e,
            },
        decreases old(self).stream().len() - old(self).pos, 2nat,
    {
        let op = match self.peek() {
            Ok(t) => t,
            Err(e) => return Err(e),
        };
        if let Token::Operator(Operator::Sub, _) = op {
            proof {
                self.lemma_stream_at(self.pos as nat);
            }
            self.advance();
            let right = match self.factor() {
                Ok(e) => e,
                Err(e) => return Err(e),
            };
            return Ok(Expr::Unary { op, right: Box::new(right) });
        }
        self.atom()
    }

    fn atom(&mut self) -> (r: Result<Expr<'src>, ParseError<'src>>)
        requires
            old(self).wf(),
            old(self).pos < old(self).stream().len(),
        ensures
            r is Ok ==> final(self).wf(),
            final(self).text() == old(self).text(),
            match p_atom(old(self).stream(), old(self).pos as nat) {
                Ok((e, q)) => r is Ok && r->Ok_0.view() == e && final(self).pos == q
                    && old(self).pos < q < old(self).stream().len(),
                Err(e) => r is Err && r->Err_0@ == e,
            },
        decreases old(self).stream().len() - old(self).pos, 1nat,
    {
        proof {
            self.lemma_stream_at(self.pos as nat);
        }
        let token = match self.next() {
            Ok(t) => t,
            Err(e) => return Err(e),
        };
        match token {
            Token::Number(value, _) => Ok(Expr::Literal { token, value }),
            Token::Separator(Separator::LeftParen, _) => {
                let expr = match self.expr() {
                    Ok(e) => e,
                    Err(e) => return Err(e),
                };
                let close = match self.next() {
                    Ok(t) => t,
                    Err(e) => return Err(e),
                };
                if let Token::Separator(Separator::RightParen, _) = close {
                    proof {
                        self.lemma_stream_at((self.pos - 1) as nat);
                    }
                    return Ok(Expr::Grouping { paren: token, expr: Box::new(expr) });
                }
                Err(ParseError::UnexpectedToken(close))
            },
            _ => Err(ParseError::UnexpectedToken(token)),
        }
    }

    /// A token of the stream other than the last is neither `Eof` nor an error.
    proof fn lemma_stream_at(&self, k: nat)
        requires
            self.wf(),
            k < self.stream().len(),
        ensures
            k + 1 < self.stream().len() <==> !is_final(self.stream()[k as int]),
    {
        lemma_stream_from(self.text(), start_state(), k);
    }

    /// Uses the current token.
    fn advance(&mut self)
        requires
            old(self).wf(),
            old(self).pos < old(self).tokens.len(),
        ensures
            final(self).wf(),
            final(self).text() == old(self).text(),
            final(self).pos == old(self).pos + 1,
    {
        self.pos = self.pos + 1;
    }

    /// Uses the current token and hands it out.
    fn next(&mut self) -> (r: Result<Token<'src>, ParseError<'src>>)
        requires
            old(self).wf(),
            old(self).pos < old(self).stream().len(),
        ensures
            r is Ok ==> final(self).wf(),
            final(self).text() == old(self).text(),
            match old(self).stream()[old(self).pos as int] {
                Ok(t) => r is Ok && r->Ok_0@ == t && final(self).pos == old(self).pos + 1,
                Err(e) => r == Err::<Token<'src>, ParseError<'src>>(ParseError::LexError(e)),
            },
    {
        let token = match self.peek() {
            Ok(t) => t,
            Err(e) => return Err(e),
        };
        self.pos = self.pos + 1;
        Ok(token)
    }

    /// The current token: one already buffered is served from the buffer; otherwise
    /// the lexer is asked for exactly one more, which is buffered.
    fn peek(&mut self) -> (r: Result<Token<'src>, ParseError<'src>>)
        requires
            old(self).wf(),
            old(self).pos < old(self).stream().len(),
        ensures
            r is Ok ==> final(self).wf(),
            final(self).text() == old(self).text(),
            final(self).pos == old(self).pos,
            old(self).pos < old(self).tokens.len() ==> final(self).tokens@ == old(self).tokens@
                && final(self).lexer == old(self).lexer,
            final(self).tokens.len() <= old(self).tokens.len() + 1,
            match old(self).stream()[old(self).pos as int] {
                Ok(t) => r is Ok && r->Ok_0@ == t && final(self).pos < final(self).tokens.len(),
                Err(e) => r == Err::<Token<'src>, ParseError<'src>>(ParseError::LexError(e)),
            },
    {
        if self.pos < self.tokens.len() {
            return Ok(self.tokens[self.pos]);
        }
        let ghost src = self.text();
        let ghost n = self.tokens.len() as nat;
        proof {
            lemma_stream_from(src, start_state(), n);
        }
        match self.lexer.next() {
            Ok(token) => {
                let ghost old_tokens = self.tokens@;
                self.tokens.push(token);
                assert(state_after(src, start_state(), n + 1) == step(src, state_after(src, start_state(), n)).0);
                assert forall|i: int| 0 <= i < self.tokens.len() implies token_stream(src)[i] == Ok::<TokenV, LexError>(#[trigger] self.tokens[i]@) by {
                    if i < n {
                        assert(self.tokens[i] == old_tokens[i]);
                    }
                }
                Ok(token)
            },
            Err(e) => Err(ParseError::LexError(e)),
        }
    }
}

} // verus!
