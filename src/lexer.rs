use vstd::prelude::*;
use vstd::string::StrSliceExecFns;

use crate::token::{keyword_text, Keyword, Location, Operator, Separator, Token, TokenV};

verus! {

/// An invalid character and where it stands.
#[derive(Debug, Clone, Copy, PartialEq, Eq, Structural)]
pub enum LexError {
    InvalidCharacter(char, Location),
}

impl LexError {
    pub open spec fn spec_loc(self) -> Location {
        match self {
            LexError::InvalidCharacter(_, l) => l,
        }
    }

    pub fn loc(&self) -> (r: Location)
        ensures
            r == self.spec_loc(),
    {
        match self {
            LexError::InvalidCharacter(_, loc) => *loc,
        }
    }
}

/// The scanning position: an index into the characters, and the line and column there.
pub ghost struct LexState {
    pub pos: nat,
    pub line: nat,
    pub col: nat,
}

pub open spec fn start_state() -> LexState {
    LexState { pos: 0, line: 1, col: 1 }
}

/// Columns must stay representable: a tab is four columns wide.
pub open spec fn lexable(src: Seq<char>) -> bool {
    4 * src.len() + 1 <= usize::MAX
}

pub open spec fn is_digit(c: char) -> bool {
    '0' <= c && c <= '9'
}

pub open spec fn is_alpha(c: char) -> bool {
    ('a' <= c && c <= 'z') || ('A' <= c && c <= 'Z') || c == '_'
}

pub open spec fn is_alphanumeric(c: char) -> bool {
    is_digit(c) || is_alpha(c) || c == '\''
}

pub open spec fn is_space(c: char) -> bool {
    c == ' ' || c == '\r' || c == '\t' || c == '\n'
}

/// The position after one whitespace character: a newline starts the next line,
/// a tab is four columns wide, space and carriage return one.
pub open spec fn pass_space(st: LexState, c: char) -> LexState {
    if c == '\n' {
        LexState { pos: st.pos + 1, line: st.line + 1, col: 1 }
    } else if c == '\t' {
        LexState { pos: st.pos + 1, line: st.line, col: st.col + 4 }
    } else {
        LexState { pos: st.pos + 1, line: st.line, col: st.col + 1 }
    }
}

pub open spec fn skip_space(src: Seq<char>, st: LexState) -> LexState
    decreases src.len() - st.pos,
{
    if st.pos < src.len() && is_space(src[st.pos as int]) {
        skip_space(src, pass_space(st, src[st.pos as int]))
    } else {
        st
    }
}

/// The end of the run of digits that starts at `p`.
pub open spec fn digits_end(src: Seq<char>, p: nat) -> nat
    decreases src.len() - p,
{
    if p < src.len() && is_digit(src[p as int]) {
        digits_end(src, p + 1)
    } else {
        p
    }
}

/// The end of the run of identifier characters that starts at `p`.
pub open spec fn word_end(src: Seq<char>, p: nat) -> nat
    decreases src.len() - p,
{
    if p < src.len() && is_alphanumeric(src[p as int]) {
        word_end(src, p + 1)
    } else {
        p
    }
}

/// The end of a number literal whose first digit stands before `p`:
/// more digits, then optionally a `.` and digits (possibly none).
pub open spec fn number_end(src: Seq<char>, p: nat) -> nat {
    let e = digits_end(src, p);
    if e < src.len() && src[e as int] == '.' {
        digits_end(src, e + 1)
    } else {
        e
    }
}

pub open spec fn loc_of(st: LexState) -> Location {
    Location { line: st.line as usize, col: st.col as usize }
}

pub open spec fn word_token(t: Seq<char>, loc: Location) -> TokenV {
    if t == keyword_text(Keyword::Is) {
        TokenV::Keyword(Keyword::Is, loc)
    } else if t == keyword_text(Keyword::Negative) {
        TokenV::Keyword(Keyword::Negative, loc)
    } else {
        TokenV::Identifier(t, loc)
    }
}

pub open spec fn punct_token(c: char, loc: Location) -> Option<TokenV> {
    if c == '+' {
        Some(TokenV::Operator(Operator::Add, loc))
    } else if c == '-' {
        Some(TokenV::Operator(Operator::Sub, loc))
    } else if c == '*' {
        Some(TokenV::Operator(Operator::Mul, loc))
    } else if c == '/' {
        Some(TokenV::Operator(Operator::Div, loc))
    } else if c == '%' {
        Some(TokenV::Operator(Operator::Mod, loc))
    } else if c == '(' {
        Some(TokenV::Separator(Separator::LeftParen, loc))
    } else if c == ')' {
        Some(TokenV::Separator(Separator::RightParen, loc))
    } else if c == ';' {
        Some(TokenV::Separator(Separator::Semicolon, loc))
    } else {
        None
    }
}

/// Moving along one line from the start of a token to `e`.
pub open spec fn move_to(st: LexState, e: nat) -> LexState {
    LexState { pos: e, line: st.line, col: (st.col + e - st.pos) as nat }
}

/// One scan: skip whitespace, then read one token (or fail on one character).
/// At the end of the text the state stays put and `Eof` comes back.
pub open spec fn step(src: Seq<char>, st: LexState) -> (LexState, Result<TokenV, LexError>) {
    let w = skip_space(src, st);
    let here = loc_of(w);
    if w.pos >= src.len() {
        (w, Ok(TokenV::Eof(here)))
    } else {
        let c = src[w.pos as int];
        if is_digit(c) {
            let e = number_end(src, w.pos + 1);
            (move_to(w, e), Ok(TokenV::Number(src.subrange(w.pos as int, e as int), here)))
        } else if is_alpha(c) {
            let e = word_end(src, w.pos + 1);
            (move_to(w, e), Ok(word_token(src.subrange(w.pos as int, e as int), here)))
        } else {
            match punct_token(c, here) {
                Some(t) => (move_to(w, w.pos + 1), Ok(t)),
                None => (move_to(w, w.pos + 1), Err(LexError::InvalidCharacter(c, here))),
            }
        }
    }
}

pub open spec fn token_result_view(r: Result<Token, LexError>) -> Result<TokenV, LexError> {
    match r {
        Ok(t) => Ok(t@),
        Err(e) => Err(e),
    }
}

/// The position bounds that every reachable state meets.
pub open spec fn state_ok(src: Seq<char>, st: LexState) -> bool {
    &&& st.pos <= src.len()
    &&& 1 <= st.line <= st.pos + 1
    &&& 1 <= st.col <= 4 * st.pos + 1
}

pub proof fn lemma_skip_space(src: Seq<char>, st: LexState)
    requires
        state_ok(src, st),
    ensures
        state_ok(src, skip_space(src, st)),
        st.pos <= skip_space(src, st).pos,
    decreases src.len() - st.pos,
{
    if st.pos < src.len() && is_space(src[st.pos as int]) {
        lemma_skip_space(src, pass_space(st, src[st.pos as int]));
    }
}

pub proof fn lemma_digits_end(src: Seq<char>, p: nat)
    requires
        p <= src.len(),
    ensures
        p <= digits_end(src, p) <= src.len(),
    decreases src.len() - p,
{
    if p < src.len() && is_digit(src[p as int]) {
        lemma_digits_end(src, p + 1);
    }
}

pub proof fn lemma_word_end(src: Seq<char>, p: nat)
    requires
        p <= src.len(),
    ensures
        p <= word_end(src, p) <= src.len(),
    decreases src.len() - p,
{
    if p < src.len() && is_alphanumeric(src[p as int]) {
        lemma_word_end(src, p + 1);
    }
}

/// A scan keeps the position bounds, never moves back, and moves forward
/// whenever it yields a token other than `Eof`.
pub proof fn lemma_step(src: Seq<char>, st: LexState)
    requires
        state_ok(src, st),
    ensures
        state_ok(src, step(src, st).0),
        st.pos <= step(src, st).0.pos,
        !(step(src, st).1 matches Ok(TokenV::Eof(_))) ==> st.pos < step(src, st).0.pos,
{
    lemma_skip_space(src, st);
    let w = skip_space(src, st);
    if w.pos < src.len() {
        lemma_digits_end(src, w.pos + 1);
        let e = digits_end(src, w.pos + 1);
        if e < src.len() {
            lemma_digits_end(src, e + 1);
        }
        lemma_word_end(src, w.pos + 1);
    }
}

pub open spec fn all_digits(d: Seq<char>) -> bool {
    forall|i: int| 0 <= i < d.len() ==> is_digit(#[trigger] d[i])
}

/// A decimal literal: digits, optionally followed by `.` and more digits.
pub open spec fn is_decimal(d: Seq<char>) -> bool {
    ||| (d.len() > 0 && all_digits(d))
    ||| exists|k: int|
        0 < k < d.len() - 1 && #[trigger] d[k] == '.' && all_digits(d.take(k)) && all_digits(
            d.skip(k + 1),
        )
}

proof fn lemma_digits_run(src: Seq<char>, p: nat, e: nat)
    requires
        p <= e <= src.len(),
        forall|i: int| p <= i < e ==> is_digit(#[trigger] src[i]),
        e == src.len() || !is_digit(src[e as int]),
    ensures
        digits_end(src, p) == e,
    decreases e - p,
{
    if p < e {
        lemma_digits_run(src, p + 1, e);
    }
}

/// Scanning a decimal literal alone yields one `Number` token holding the whole
/// literal at 1:1, and then `Eof` just after it.
pub proof fn lemma_decimal_literal(d: Seq<char>)
    requires
        is_decimal(d),
        lexable(d),
    ensures
        step(d, start_state()).1 == Ok::<TokenV, LexError>(
            TokenV::Number(d, Location { line: 1, col: 1 }),
        ),
        step(d, step(d, start_state()).0).1 == Ok::<TokenV, LexError>(
            TokenV::Eof(Location { line: 1, col: (d.len() + 1) as usize }),
        ),
{
    let n = d.len();
    if n > 0 && all_digits(d) {
        assert(is_digit(d[0]));
        lemma_digits_run(d, 1, n);
    } else {
        let k = choose|k: int|
            0 < k < d.len() - 1 && #[trigger] d[k] == '.' && all_digits(d.take(k)) && all_digits(
                d.skip(k + 1),
            );
        assert forall|i: int| 1 <= i < k implies is_digit(#[trigger] d[i]) by {
            assert(d.take(k)[i] == d[i]);
        }
        assert(is_digit(d.take(k)[0]));
        lemma_digits_run(d, 1, k as nat);
        assert forall|i: int| k + 1 <= i < n implies is_digit(#[trigger] d[i]) by {
            assert(d.skip(k + 1)[i - k - 1] == d[i]);
        }
        lemma_digits_run(d, (k + 1) as nat, n);
    }
    assert(skip_space(d, start_state()) == start_state());
    assert(d.subrange(0, n as int) =~= d);
    let st = step(d, start_state()).0;
    assert(st == LexState { pos: n, line: 1, col: n + 1 });
    assert(skip_space(d, st) == st);
}

/// The line and column after a run of whitespace that starts at 1:1: one more line
/// per newline, and after the last newline one column per space or carriage
/// return and four per tab.
pub open spec fn space_end(s: Seq<char>) -> (nat, nat)
    decreases s.len(),
{
    if s.len() == 0 {
        (1, 1)
    } else {
        let (line, col) = space_end(s.drop_last());
        let c = s.last();
        if c == '\n' {
            (line + 1, 1)
        } else if c == '\t' {
            (line, col + 4)
        } else {
            (line, col + 1)
        }
    }
}

pub open spec fn all_space(s: Seq<char>) -> bool {
    forall|i: int| 0 <= i < s.len() ==> is_space(#[trigger] s[i])
}

proof fn lemma_skip_all_space(s: Seq<char>, st: LexState)
    requires
        all_space(s),
        st.pos <= s.len(),
        (st.line, st.col) == space_end(s.take(st.pos as int)),
    ensures
        skip_space(s, st) == (LexState { pos: s.len(), line: space_end(s).0, col: space_end(s).1 }),
    decreases s.len() - st.pos,
{
    if st.pos < s.len() {
        let next = pass_space(st, s[st.pos as int]);
        assert(s.take((st.pos + 1) as int).drop_last() =~= s.take(st.pos as int));
        lemma_skip_all_space(s, next);
    } else {
        assert(s.take(st.pos as int) =~= s);
    }
}

/// Scanning text made of whitespace alone yields `Eof` at once, at the line and
/// column that the whitespace leads to.
pub proof fn lemma_only_space(s: Seq<char>)
    requires
        all_space(s),
    ensures
        step(s, start_state()).1 == Ok::<TokenV, LexError>(
            TokenV::Eof(Location { line: space_end(s).0 as usize, col: space_end(s).1 as usize }),
        ),
        step(s, start_state()).0.pos == s.len(),
{
    assert(s.take(0) =~= Seq::<char>::empty());
    lemma_skip_all_space(s, start_state());
}

/// The lexer's state after `k` scans from `st`.
pub open spec fn state_after(src: Seq<char>, st: LexState, k: nat) -> LexState
    decreases k,
{
    if k == 0 {
        st
    } else {
        step(src, state_after(src, st, (k - 1) as nat)).0
    }
}

pub struct Lexer<'src> {
    src: &'src str,
    chars: Vec<char>,
    pos: usize,
    line: usize,
    col: usize,
}

impl<'src> Lexer<'src> {
    /// The text being scanned.
    pub closed spec fn text(&self) -> Seq<char> {
        self.src@
    }

    /// Where the scan stands.
    pub closed spec fn state(&self) -> LexState {
        LexState { pos: self.pos as nat, line: self.line as nat, col: self.col as nat }
    }

    pub closed spec fn wf(&self) -> bool {
        &&& self.chars@ == self.src@
        &&& lexable(self.src@)
        &&& state_ok(self.src@, self.state())
    }

    pub fn new(input: &'src str) -> (r: Self)
        requires
            lexable(input@),
        ensures
            r.wf(),
            r.text() == input@,
            r.state() == start_state(),
    {
        let n = input.unicode_len();
        let mut chars: Vec<char> = Vec::new();
        let mut i: usize = 0;
        while i < n
            invariant
                n == input@.len(),
                i <= n,
                chars@ == input@.subrange(0, i as int),
            decreases n - i,
        {
            chars.push(input.get_char(i));
            i = i + 1;
        }
        assert(chars@ == input@);
        Self { src: input, chars, pos: 0, line: 1, col: 1 }
    }

    /// Scans the next token. Once the text is used up, every call yields `Eof`
    /// at the same place.
    pub fn next(&mut self) -> (r: Result<Token<'src>, LexError>)
        requires
            old(self).wf(),
        ensures
            final(self).wf(),
            final(self).text() == old(self).text(),
            (final(self).state(), token_result_view(r)) == step(old(self).text(), old(self).state()),
    {
        self.skip_whitespace();
        let here = self.loc();
        let c = match self.peek() {
            Some(c) => c,
            None => return Ok(Token::Eof(here)),
        };
        let start = self.pos;
        self.advance();
        if Self::is_digit(c) {
            Ok(self.next_number(start, here))
        } else if Self::is_alpha(c) {
            Ok(self.next_identifier(start, here))
        } else if c == '+' {
            Ok(Token::Operator(Operator::Add, here))
        } else if c == '-' {
            Ok(Token::Operator(Operator::Sub, here))
        } else if c == '*' {
            Ok(Token::Operator(Operator::Mul, here))
        } else if c == '/' {
            Ok(Token::Operator(Operator::Div, here))
        } else if c == '%' {
            Ok(Token::Operator(Operator::Mod, here))
        } else if c == '(' {
            Ok(Token::Separator(Separator::LeftParen, here))
        } else if c == ')' {
            Ok(Token::Separator(Separator::RightParen, here))
        } else if c == ';' {
            Ok(Token::Separator(Separator::Semicolon, here))
        } else {
            Err(LexError::InvalidCharacter(c, here))
        }
    }

    fn next_number(&mut self, start: usize, here: Location) -> (r: Token<'src>)
        requires
            old(self).wf(),
            start < old(self).pos,
            old(self).pos == start + 1,
            old(self).col == here.col + 1,
            old(self).line == here.line,
        ensures
            final(self).wf(),
            final(self).text() == old(self).text(),
            final(self).state() == move_to(
                LexState { pos: start as nat, line: here.line as nat, col: here.col as nat },
                number_end(old(self).text(), start as nat + 1),
            ),
            r@ == TokenV::Number(old(self).text().subrange(start as int, final(self).pos as int), here),
    {
        proof {
            lemma_digits_end(self.src@, self.pos as nat);
        }
        self.eat_digits();
        if let Some(c) = self.peek() {
            if c == '.' {
                self.advance();
                proof {
                    lemma_digits_end(self.src@, self.pos as nat);
                }
                self.eat_digits();
            }
        }
        Token::Number(self.src.substring_char(start, self.pos), here)
    }

    fn eat_digits(&mut self)
        requires
            old(self).wf(),
        ensures
            final(self).wf(),
            final(self).text() == old(self).text(),
            final(self).state() == move_to(old(self).state(), digits_end(old(self).text(), old(self).pos as nat)),
    {
        proof {
            lemma_digits_end(self.src@, self.pos as nat);
        }
        while self.pos < self.chars.len() && Self::is_digit(self.chars[self.pos])
            invariant
                self.wf(),
                self.src == old(self).src,
                old(self).pos <= self.pos,
                self.line == old(self).line,
                self.col == old(self).col + (self.pos - old(self).pos),
                digits_end(self.src@, self.pos as nat) == digits_end(self.src@, old(self).pos as nat),
            decreases self.src@.len() - self.pos,
        {
            self.advance();
        }
    }

    fn next_identifier(&mut self, start: usize, here: Location) -> (r: Token<'src>)
        requires
            old(self).wf(),
            old(self).pos == start + 1,
            old(self).col == here.col + 1,
            old(self).line == here.line,
        ensures
            final(self).wf(),
            final(self).text() == old(self).text(),
            final(self).state() == move_to(
                LexState { pos: start as nat, line: here.line as nat, col: here.col as nat },
                word_end(old(self).text(), start as nat + 1),
            ),
            r@ == word_token(old(self).text().subrange(start as int, final(self).pos as int), here),
    {
        proof {
            lemma_word_end(self.src@, self.pos as nat);
        }
        while self.pos < self.chars.len() && Self::is_alphanumeric(self.chars[self.pos])
            invariant
                self.wf(),
                self.src == old(self).src,
                old(self).pos <= self.pos,
                self.line == old(self).line,
                self.col == old(self).col + (self.pos - old(self).pos),
                word_end(self.src@, self.pos as nat) == word_end(self.src@, old(self).pos as nat),
            decreases self.src@.len() - self.pos,
        {
            self.advance();
        }
        let value = self.src.substring_char(start, self.pos);
        let len = self.pos - start;
        if len == 2 && self.chars[start] == 'i' && self.chars[start + 1] == 's' {
            assert(value@ =~= keyword_text(Keyword::Is));
            Token::Keyword(Keyword::Is, here)
        } else if len == 8 && self.chars[start] == 'n' && self.chars[start + 1] == 'e'
            && self.chars[start + 2] == 'g' && self.chars[start + 3] == 'a'
            && self.chars[start + 4] == 't' && self.chars[start + 5] == 'i'
            && self.chars[start + 6] == 'v' && self.chars[start + 7] == 'e' {
            assert(value@ =~= keyword_text(Keyword::Negative));
            Token::Keyword(Keyword::Negative, here)
        } else {
            proof {
                if value@ == keyword_text(Keyword::Is) {
                    assert(value@.len() == 2);
                    assert(value@[0] == self.chars@[start as int]);
                    assert(value@[1] == self.chars@[start + 1]);
                }
                if value@ == keyword_text(Keyword::Negative) {
                    assert(value@.len() == 8);
                    assert forall|k: int| 0 <= k < 8 implies value@[k] == self.chars@[start + k] by {}
                    assert(value@[0] == 'n' && value@[1] == 'e' && value@[2] == 'g');
                    assert(value@[3] == 'a' && value@[4] == 't' && value@[5] == 'i');
                    assert(value@[6] == 'v' && value@[7] == 'e');
                }
            }
            Token::Identifier(value, here)
        }
    }

    /// The location of the current position.
    fn loc(&self) -> (r: Location)
        requires
            self.wf(),
        ensures
            r == loc_of(self.state()),
    {
        Location::new(self.line, self.col)
    }

    /// Moves one character along the current line.
    fn advance(&mut self) -> (r: char)
        requires
            old(self).wf(),
            old(self).pos < old(self).text().len(),
        ensures
            final(self).wf(),
            final(self).src == old(self).src,
            final(self).chars == old(self).chars,
            r == old(self).text()[old(self).pos as int],
            final(self).pos == old(self).pos + 1,
            final(self).line == old(self).line,
            final(self).col == old(self).col + 1,
    {
        let c = self.chars[self.pos];
        self.pos = self.pos + 1;
        self.col = self.col + 1;
        c
    }

    fn peek(&self) -> (r: Option<char>)
        requires
            self.wf(),
        ensures
            r == (if self.pos < self.text().len() {
                Some(self.text()[self.pos as int])
            } else {
                None::<char>
            }),
    {
        if self.pos < self.chars.len() {
            Some(self.chars[self.pos])
        } else {
            None
        }
    }

    fn is_digit(c: char) -> (r: bool)
        ensures
            r == is_digit(c),
    {
        '0' <= c && c <= '9'
    }

    fn is_alpha(c: char) -> (r: bool)
        ensures
            r == is_alpha(c),
    {
        ('a' <= c && c <= 'z') || ('A' <= c && c <= 'Z') || c == '_'
    }

    fn is_alphanumeric(c: char) -> (r: bool)
        ensures
            r == is_alphanumeric(c),
    {
        Self::is_digit(c) || Self::is_alpha(c) || c == '\''
    }

    fn is_space(c: char) -> (r: bool)
        ensures
            r == is_space(c),
    {
        c == ' ' || c == '\r' || c == '\t' || c == '\n'
    }

    fn skip_whitespace(&mut self)
        requires
            old(self).wf(),
        ensures
            final(self).wf(),
            final(self).text() == old(self).text(),
            final(self).chars == old(self).chars,
            final(self).state() == skip_space(old(self).text(), old(self).state()),
    {
        while self.pos < self.chars.len() && Self::is_space(self.chars[self.pos])
            invariant
                self.wf(),
                self.src == old(self).src,
                self.chars == old(self).chars,
                skip_space(self.src@, self.state()) == skip_space(self.src@, old(self).state()),
            decreases self.src@.len() - self.pos,
        {
            let c = self.chars[self.pos];
            if c == '\n' {
                self.advance();
                self.line = self.line + 1;
                self.col = 1;
            } else if c == '\t' {
                self.advance();
                self.col = self.col + 3;
            } else {
                self.advance();
            }
        }
    }
}

} // verus!
