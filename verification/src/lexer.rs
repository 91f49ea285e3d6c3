use vstd::prelude::*;

verus! {

/// The kinds of token the language knows.
#[derive(PartialEq, Eq, Structural, Clone, Copy, Debug)]
pub enum TokenType {
    Ident,
    Number,
    String,
    LParen,
    RParen,
    Comma,
    DblEquals,
    Lt,
    Gt,
    Gte,
    Lte,
    Neq,
    Equals,
    Semi,
    Val,
    DblColon,
    LBrace,
    RBrace,
    LBracket,
    RBracket,
    Dot,
    Colon,
    Add,
    Sub,
    Mul,
    Div,
    Mod,
    If,
    Else,
    Import,
    Eof,
}

/// A token: its kind and the source text it carries.
pub struct Token {
    pub token_type: TokenType,
    pub lexeme: String,
}

impl Token {
    /// A fresh token equal to this one.
    pub fn duplicate(&self) -> (r: Token)
        ensures
            r.token_type == self.token_type,
            r.lexeme@ == self.lexeme@,
    {
        Token { token_type: self.token_type, lexeme: self.lexeme.clone() }
    }
}

pub fn make_token(token_type: TokenType, lexeme: String) -> (r: Token)
    ensures
        r.token_type == token_type,
        r.lexeme == lexeme,
{
    Token { token_type, lexeme }
}

} // verus!

verus! {

/// The whitespace the lexer skips.
pub open spec fn is_ws_char(c: char) -> bool {
    c == ' ' || c == '\t' || c == '\n' || c == '\r' || c == '\x0b' || c == '\x0c'
}

/// A character that may start an identifier.
pub open spec fn is_ident_start(c: char) -> bool {
    ('a' <= c && c <= 'z') || ('A' <= c && c <= 'Z') || c == '_'
}

/// A character that may continue an identifier.
pub open spec fn is_ident_char(c: char) -> bool {
    is_ident_start(c) || is_digit_char(c)
}

/// A decimal digit.
pub open spec fn is_digit_char(c: char) -> bool {
    '0' <= c && c <= '9'
}

/// Where an identifier that starts at `pos` ends.
pub open spec fn scan_ident(s: Seq<char>, pos: nat) -> nat
    decreases s.len() - pos,
{
    if pos < s.len() && is_ident_char(s[pos as int]) {
        scan_ident(s, pos + 1)
    } else {
        pos
    }
}

/// Where a number that continues at `pos` ends; `seen_dot` says whether
/// the one decimal point was already consumed. A dot counts only when a
/// digit follows it.
pub open spec fn scan_number(s: Seq<char>, pos: nat, seen_dot: bool) -> nat
    decreases s.len() - pos,
{
    if pos < s.len() && is_digit_char(s[pos as int]) {
        scan_number(s, pos + 1, seen_dot)
    } else if pos < s.len() && s[pos as int] == '.' && !seen_dot && pos + 1 < s.len()
        && is_digit_char(s[(pos + 1) as int]) {
        scan_number(s, pos + 1, true)
    } else {
        pos
    }
}

/// The position of the first `q` at or after `pos`, or the end of input.
pub open spec fn scan_until(s: Seq<char>, pos: nat, q: char) -> nat
    decreases s.len() - pos,
{
    if pos < s.len() && s[pos as int] != q {
        scan_until(s, pos + 1, q)
    } else {
        pos
    }
}

/// The token type an identifier text gets: the keywords are retagged.
pub open spec fn keyword_type(t: Seq<char>) -> TokenType {
    if t == "val"@ {
        TokenType::Val
    } else if t == "if"@ {
        TokenType::If
    } else if t == "else"@ {
        TokenType::Else
    } else if t == "incl"@ + "ude"@ {
        TokenType::Import
    } else {
        TokenType::Ident
    }
}

pub struct NextOut {
    pub tok: Option<(TokenType, Seq<char>)>,
    pub pos: nat,
}

/// What one call of the lexer yields from position `pos`: the next token
/// and the position after it, or none at the end of input. Whitespace and
/// unrecognized characters are skipped silently.
pub open spec fn spec_next(s: Seq<char>, pos: nat) -> NextOut
    decreases s.len() - pos,
{
    if pos >= s.len() {
        NextOut { tok: None, pos }
    } else {
        let c = s[pos as int];
        if is_ws_char(c) {
            spec_next(s, pos + 1)
        } else if is_ident_start(c) {
            let e = scan_ident(s, pos);
            let text = s.subrange(pos as int, e as int);
            NextOut { tok: Some((keyword_type(text), text)), pos: e }
        } else if is_digit_char(c) {
            let e = scan_number(s, pos, false);
            NextOut { tok: Some((TokenType::Number, s.subrange(pos as int, e as int))), pos: e }
        } else if c == '"' || c == '\'' {
            let e = scan_until(s, pos + 1, c);
            let text = s.subrange((pos + 1) as int, e as int);
            NextOut {
                tok: Some((TokenType::String, text)),
                pos: if e < s.len() {
                    e + 1
                } else {
                    e
                },
            }
        } else if c == ';' {
            NextOut { tok: Some((TokenType::Semi, seq![c])), pos: pos + 1 }
        } else if c == '(' {
            NextOut { tok: Some((TokenType::LParen, seq![c])), pos: pos + 1 }
        } else if c == ')' {
            NextOut { tok: Some((TokenType::RParen, seq![c])), pos: pos + 1 }
        } else if c == '{' {
            NextOut { tok: Some((TokenType::LBrace, seq![c])), pos: pos + 1 }
        } else if c == '}' {
            NextOut { tok: Some((TokenType::RBrace, seq![c])), pos: pos + 1 }
        } else if c == '[' {
            NextOut { tok: Some((TokenType::LBracket, seq![c])), pos: pos + 1 }
        } else if c == ']' {
            NextOut { tok: Some((TokenType::RBracket, seq![c])), pos: pos + 1 }
        } else if c == '.' {
            NextOut { tok: Some((TokenType::Dot, seq![c])), pos: pos + 1 }
        } else if c == ',' {
            NextOut { tok: Some((TokenType::Comma, seq![c])), pos: pos + 1 }
        } else if c == '+' {
            NextOut { tok: Some((TokenType::Add, seq![c])), pos: pos + 1 }
        } else if c == '-' {
            NextOut { tok: Some((TokenType::Sub, seq![c])), pos: pos + 1 }
        } else if c == '*' {
            NextOut { tok: Some((TokenType::Mul, seq![c])), pos: pos + 1 }
        } else if c == '/' {
            NextOut { tok: Some((TokenType::Div, seq![c])), pos: pos + 1 }
        } else if c == '%' {
            NextOut { tok: Some((TokenType::Mod, seq![c])), pos: pos + 1 }
        } else if c == ':' {
            if pos + 1 < s.len() && s[(pos + 1) as int] == ':' {
                NextOut { tok: Some((TokenType::DblColon, seq![':', ':'])), pos: pos + 2 }
            } else {
                NextOut { tok: Some((TokenType::Colon, seq![c])), pos: pos + 1 }
            }
        } else if c == '=' {
            if pos + 1 < s.len() && s[(pos + 1) as int] == '=' {
                NextOut { tok: Some((TokenType::DblEquals, seq!['=', '='])), pos: pos + 2 }
            } else {
                NextOut { tok: Some((TokenType::Equals, seq![c])), pos: pos + 1 }
            }
        } else if c == '<' {
            if pos + 1 < s.len() && s[(pos + 1) as int] == '=' {
                NextOut { tok: Some((TokenType::Lte, seq!['<', '='])), pos: pos + 2 }
            } else {
                NextOut { tok: Some((TokenType::Lt, seq![c])), pos: pos + 1 }
            }
        } else if c == '>' {
            if pos + 1 < s.len() && s[(pos + 1) as int] == '=' {
                NextOut { tok: Some((TokenType::Gte, seq!['>', '='])), pos: pos + 2 }
            } else {
                NextOut { tok: Some((TokenType::Gt, seq![c])), pos: pos + 1 }
            }
        } else if c == '!' {
            if pos + 1 < s.len() && s[(pos + 1) as int] == '=' {
                NextOut { tok: Some((TokenType::Neq, seq!['!', '='])), pos: pos + 2 }
            } else {
                spec_next(s, pos + 1)
            }
        } else {
            spec_next(s, pos + 1)
        }
    }
}

} // verus!

verus! {

use vstd::string::StrSliceExecFns;
use vstd::string::StringExecFns;

proof fn lemma_scan_ident_bounds(s: Seq<char>, pos: nat)
    requires
        pos <= s.len(),
    ensures
        pos <= scan_ident(s, pos) <= s.len(),
    decreases s.len() - pos,
{
    if pos < s.len() && is_ident_char(s[pos as int]) {
        lemma_scan_ident_bounds(s, pos + 1);
    }
}

proof fn lemma_scan_number_bounds(s: Seq<char>, pos: nat, seen_dot: bool)
    requires
        pos <= s.len(),
    ensures
        pos <= scan_number(s, pos, seen_dot) <= s.len(),
    decreases s.len() - pos,
{
    if pos < s.len() && is_digit_char(s[pos as int]) {
        lemma_scan_number_bounds(s, pos + 1, seen_dot);
    } else if pos < s.len() && s[pos as int] == '.' && !seen_dot && pos + 1 < s.len()
        && is_digit_char(s[(pos + 1) as int]) {
        lemma_scan_number_bounds(s, pos + 1, true);
    }
}

proof fn lemma_scan_until_bounds(s: Seq<char>, pos: nat, q: char)
    requires
        pos <= s.len(),
    ensures
        pos <= scan_until(s, pos, q) <= s.len(),
        scan_until(s, pos, q) < s.len() ==> s[scan_until(s, pos, q) as int] == q,
    decreases s.len() - pos,
{
    if pos < s.len() && s[pos as int] != q {
        lemma_scan_until_bounds(s, pos + 1, q);
    }
}

/// Progress of the lexer: it never moves backwards, stays in bounds, and
/// strictly advances whenever it yields a token.
pub proof fn lemma_next_progress(s: Seq<char>, pos: nat)
    requires
        pos <= s.len(),
    ensures
        pos <= spec_next(s, pos).pos <= s.len(),
        spec_next(s, pos).tok is Some ==> spec_next(s, pos).pos > pos,
        spec_next(s, pos).tok is None ==> spec_next(s, pos).pos == s.len(),
    decreases s.len() - pos,
{
    if pos < s.len() {
        let c = s[pos as int];
        if is_ws_char(c) || (c == '!' && !(pos + 1 < s.len() && s[(pos + 1) as int] == '=')) {
            lemma_next_progress(s, pos + 1);
        } else if is_ident_start(c) {
            lemma_scan_ident_bounds(s, pos + 1);
            assert(scan_ident(s, pos) == scan_ident(s, pos + 1));
        } else if is_digit_char(c) {
            lemma_scan_number_bounds(s, pos + 1, false);
            assert(scan_number(s, pos, false) == scan_number(s, pos + 1, false));
        } else if c == '"' || c == '\'' {
            lemma_scan_until_bounds(s, pos + 1, c);
        } else if c == ';' || c == '(' || c == ')' || c == '{' || c == '}' || c == '[' || c == ']'
            || c == '.' || c == ',' || c == '+' || c == '-' || c == '*' || c == '/' || c == '%'
            || c == ':' || c == '=' || c == '<' || c == '>' || c == '!' {
        } else {
            lemma_next_progress(s, pos + 1);
        }
    }
}

/// The lexer: an immutable source and a cursor, advanced one token at a
/// time.
pub struct Lexer<'a> {
    source: &'a str,
    pos: usize,
}

impl<'a> Lexer<'a> {
    /// The source text.
    pub closed spec fn src(&self) -> Seq<char> {
        self.source@
    }

    /// The cursor, as a character position.
    pub closed spec fn at(&self) -> nat {
        self.pos as nat
    }

    /// The cursor never leaves the source.
    pub closed spec fn wf(&self) -> bool {
        self.pos <= self.source@.len()
    }

    /// A well-formed lexer's cursor is inside its source.
    pub proof fn lemma_wf(&self)
        requires
            self.wf(),
        ensures
            self.at() <= self.src().len(),
    {
    }

    pub fn new(source: &'a str) -> (r: Lexer<'a>)
        ensures
            r.src() == source@,
            r.at() == 0,
            r.wf(),
    {
        Lexer { source, pos: 0 }
    }

    fn current(&self) -> (r: Option<char>)
        ensures
            match r {
                Some(c) => self.at() < self.src().len() && c == self.src()[self.at() as int],
                None => self.at() >= self.src().len(),
            },
    {
        let n = self.source.unicode_len();
        if self.pos < n {
            Some(self.source.get_char(self.pos))
        } else {
            None
        }
    }

    fn peek(&self) -> (r: Option<char>)
        ensures
            match r {
                Some(c) => self.at() + 1 < self.src().len() && c == self.src()[self.at() as int + 1],
                None => self.at() + 1 >= self.src().len(),
            },
    {
        let n = self.source.unicode_len();
        if self.pos < usize::MAX && self.pos + 1 < n {
            Some(self.source.get_char(self.pos + 1))
        } else {
            None
        }
    }

    fn advance(&mut self)
        requires
            old(self).at() < old(self).src().len(),
            old(self).wf(),
        ensures
            final(self).src() == old(self).src(),
            final(self).at() == old(self).at() + 1,
            final(self).wf(),
    {
        let n = self.source.unicode_len();
        proof {
            assert(n as nat == self.src().len());
        }
        self.pos = self.pos + 1;
    }

    fn skip_ws(&mut self)
        requires
            old(self).wf(),
        ensures
            final(self).wf(),
            final(self).src() == old(self).src(),
            spec_next(final(self).src(), final(self).at()) == spec_next(
                old(self).src(),
                old(self).at(),
            ),
            final(self).at() >= old(self).at(),
            final(self).at() == final(self).src().len() || !is_ws_char(
                final(self).src()[final(self).at() as int],
            ),
    {
        loop
            invariant
                self.wf(),
                self.src() == old(self).src(),
                self.at() >= old(self).at(),
                spec_next(self.src(), self.at()) == spec_next(old(self).src(), old(self).at()),
            decreases self.src().len() - self.at(),
        {
            match self.current() {
                Some(c) => {
                    let ws = c == ' ' || c == '\t' || c == '\n' || c == '\r' || c == '\x0b' || c
                        == '\x0c';
                    if !ws {
                        return ;
                    }
                    self.advance();
                },
                None => {
                    return ;
                },
            }
        }
    }

    fn stoken(&mut self, token_type: TokenType) -> (r: Option<Token>)
        requires
            old(self).wf(),
            old(self).at() < old(self).src().len(),
        ensures
            final(self).wf(),
            final(self).src() == old(self).src(),
            final(self).at() == old(self).at() + 1,
            (r matches Some(t) && t.token_type == token_type && t.lexeme@ == seq![
                old(self).src()[old(self).at() as int],
            ]),
    {
        let n = self.source.unicode_len();
        proof {
            assert(n as nat == self.src().len());
        }
        let text = self.source.substring_char(self.pos, self.pos + 1).to_owned();
        proof {
            assert(self.src().subrange(self.at() as int, self.at() as int + 1) =~= seq![
                self.src()[self.at() as int],
            ]);
        }
        self.advance();
        Some(make_token(token_type, text))
    }

    fn dtoken(&mut self, second_char: char, double_type: TokenType, single_type: TokenType) -> (r:
        Option<Token>)
        requires
            old(self).wf(),
            old(self).at() < old(self).src().len(),
        ensures
            final(self).wf(),
            final(self).src() == old(self).src(),
            ({
                let s = old(self).src();
                let p = old(self).at();
                if p + 1 < s.len() && s[p as int + 1] == second_char {
                    &&& final(self).at() == p + 2
                    &&& (r matches Some(t) && t.token_type == double_type && t.lexeme@ == seq![
                        s[p as int],
                        second_char,
                    ])
                } else {
                    &&& final(self).at() == p + 1
                    &&& (r matches Some(t) && t.token_type == single_type && t.lexeme@ == seq![
                        s[p as int],
                    ])
                }
            }),
    {
        let doubled = match self.peek() {
            Some(c) => c == second_char,
            None => false,
        };
        if doubled {
            let n = self.source.unicode_len();
            proof {
                assert(n as nat == self.src().len());
            }
            let text = self.source.substring_char(self.pos, self.pos + 2).to_owned();
            proof {
                assert(self.src().subrange(self.at() as int, self.at() as int + 2) =~= seq![
                    self.src()[self.at() as int],
                    second_char,
                ]);
            }
            self.advance();
            self.advance();
            Some(make_token(double_type, text))
        } else {
            self.stoken(single_type)
        }
    }
}

} // verus!

verus! {

fn ident_start_char(c: char) -> (r: bool)
    ensures
        r == is_ident_start(c),
{
    let u = c as u32;
    (97 <= u && u <= 122) || (65 <= u && u <= 90) || u == 95
}

fn ident_char(c: char) -> (r: bool)
    ensures
        r == is_ident_char(c),
{
    ident_start_char(c) || digit_char(c)
}

fn digit_char(c: char) -> (r: bool)
    ensures
        r == is_digit_char(c),
{
    let u = c as u32;
    48 <= u && u <= 57
}

impl<'a> Lexer<'a> {
    fn process_identifier(&mut self) -> (r: Token)
        requires
            old(self).wf(),
            old(self).at() < old(self).src().len(),
            is_ident_start(old(self).src()[old(self).at() as int]),
        ensures
            final(self).wf(),
            final(self).src() == old(self).src(),
            final(self).at() == scan_ident(old(self).src(), old(self).at()),
            r.lexeme@ == old(self).src().subrange(
                old(self).at() as int,
                final(self).at() as int,
            ),
            r.token_type == keyword_type(r.lexeme@),
    {
        let start = self.pos;
        loop
            invariant
                self.wf(),
                self.src() == old(self).src(),
                start == old(self).at(),
                start <= self.at(),
                scan_ident(self.src(), self.at()) == scan_ident(old(self).src(), old(self).at()),
            ensures
                self.wf(),
                self.src() == old(self).src(),
                start == old(self).at(),
                start <= self.at(),
                scan_ident(self.src(), self.at()) == scan_ident(old(self).src(), old(self).at()),
                scan_ident(self.src(), self.at()) == self.at(),
            decreases self.src().len() - self.at(),
        {
            match self.current() {
                Some(c) => {
                    if !ident_char(c) {
                        proof {
                            assert(scan_ident(self.src(), self.at()) == self.at());
                        }
                        break ;
                    }
                    self.advance();
                },
                None => {
                    proof {
                        assert(scan_ident(self.src(), self.at()) == self.at());
                    }
                    break ;
                },
            }
        }
        let text = self.source.substring_char(start, self.pos).to_owned();
        let is_val = text.eq(&String::from_str("val"));
        let is_if = text.eq(&String::from_str("if"));
        let is_else = text.eq(&String::from_str("else"));
        let is_import = text.eq(&String::from_str("incl").concat("ude"));
        let ty = if is_val {
            TokenType::Val
        } else if is_if {
            TokenType::If
        } else if is_else {
            TokenType::Else
        } else if is_import {
            TokenType::Import
        } else {
            TokenType::Ident
        };
        make_token(ty, text)
    }

    fn process_number(&mut self) -> (r: Token)
        requires
            old(self).wf(),
            old(self).at() < old(self).src().len(),
            is_digit_char(old(self).src()[old(self).at() as int]),
        ensures
            final(self).wf(),
            final(self).src() == old(self).src(),
            final(self).at() == scan_number(old(self).src(), old(self).at(), false),
            r.lexeme@ == old(self).src().subrange(
                old(self).at() as int,
                final(self).at() as int,
            ),
            r.token_type == TokenType::Number,
    {
        let start = self.pos;
        let mut seen_dot = false;
        loop
            invariant
                self.wf(),
                self.src() == old(self).src(),
                start == old(self).at(),
                start <= self.at(),
                scan_number(self.src(), self.at(), seen_dot) == scan_number(
                    old(self).src(),
                    old(self).at(),
                    false,
                ),
            ensures
                self.wf(),
                self.src() == old(self).src(),
                start == old(self).at(),
                start <= self.at(),
                scan_number(self.src(), self.at(), seen_dot) == scan_number(
                    old(self).src(),
                    old(self).at(),
                    false,
                ),
                scan_number(self.src(), self.at(), seen_dot) == self.at(),
            decreases self.src().len() - self.at(),
        {
            match self.current() {
                Some(c) => {
                    if digit_char(c) {
                        self.advance();
                    } else if c == '.' && !seen_dot {
                        let next_digit = match self.peek() {
                            Some(d) => digit_char(d),
                            None => false,
                        };
                        if next_digit {
                            seen_dot = true;
                            self.advance();
                        } else {
                            proof {
                                assert(scan_number(self.src(), self.at(), seen_dot) == self.at());
                            }
                            break ;
                        }
                    } else {
                        proof {
                            assert(scan_number(self.src(), self.at(), seen_dot) == self.at());
                        }
                        break ;
                    }
                },
                None => {
                    proof {
                        assert(scan_number(self.src(), self.at(), seen_dot) == self.at());
                    }
                    break ;
                },
            }
        }
        let text = self.source.substring_char(start, self.pos).to_owned();
        make_token(TokenType::Number, text)
    }

    fn process_string(&mut self) -> (r: Token)
        requires
            old(self).wf(),
            old(self).at() < old(self).src().len(),
            old(self).src()[old(self).at() as int] == '"' || old(self).src()[old(self).at() as int]
                == '\'',
        ensures
            final(self).wf(),
            final(self).src() == old(self).src(),
            ({
                let s = old(self).src();
                let p = old(self).at();
                let q = s[p as int];
                let e = scan_until(s, p + 1, q);
                &&& final(self).at() == (if e < s.len() {
                    e + 1
                } else {
                    e
                })
                &&& r.lexeme@ == s.subrange((p + 1) as int, e as int)
                &&& r.token_type == TokenType::String
            }),
    {
        let opening = match self.current() {
            Some(c) => c,
            None => unreached(),
        };
        self.advance();
        let start = self.pos;
        loop
            invariant
                self.wf(),
                self.src() == old(self).src(),
                start == old(self).at() + 1,
                start <= self.at(),
                opening == old(self).src()[old(self).at() as int],
                scan_until(self.src(), self.at(), opening) == scan_until(
                    old(self).src(),
                    old(self).at() + 1,
                    opening,
                ),
            ensures
                self.wf(),
                self.src() == old(self).src(),
                start == old(self).at() + 1,
                start <= self.at(),
                opening == old(self).src()[old(self).at() as int],
                scan_until(self.src(), self.at(), opening) == scan_until(
                    old(self).src(),
                    old(self).at() + 1,
                    opening,
                ),
                scan_until(self.src(), self.at(), opening) == self.at(),
            decreases self.src().len() - self.at(),
        {
            match self.current() {
                Some(c) => {
                    if c == opening {
                        proof {
                            assert(scan_until(self.src(), self.at(), opening) == self.at());
                        }
                        break ;
                    }
                    self.advance();
                },
                None => {
                    proof {
                        assert(scan_until(self.src(), self.at(), opening) == self.at());
                    }
                    break ;
                },
            }
        }
        let text = self.source.substring_char(start, self.pos).to_owned();
        proof {
            if self.at() < self.src().len() && self.src()[self.at() as int] != opening {
                lemma_scan_until_bounds(self.src(), self.at() + 1, opening);
                assert(false);
            }
        }
        match self.current() {
            Some(c) => {
                if c == opening {
                    self.advance();
                }
            },
            None => {},
        }
        make_token(TokenType::String, text)
    }

    /// The next token of the source, or none at the end of input.
    /// Whitespace and unrecognized characters are skipped silently.
    pub fn next(&mut self) -> (r: Option<Token>)
        requires
            old(self).wf(),
        ensures
            final(self).wf(),
            final(self).src() == old(self).src(),
            ({
                let o = spec_next(old(self).src(), old(self).at());
                &&& final(self).at() == o.pos
                &&& match (r, o.tok) {
                    (Some(t), Some(st)) => t.token_type == st.0 && t.lexeme@ == st.1,
                    (None, None) => true,
                    _ => false,
                }
            }),
        decreases old(self).src().len() - old(self).at(),
    {
        self.skip_ws();
        let c = match self.current() {
            Some(c) => c,
            None => {
                return None;
            },
        };
        if ident_start_char(c) {
            Some(self.process_identifier())
        } else if digit_char(c) {
            Some(self.process_number())
        } else if c == '"' || c == '\'' {
            Some(self.process_string())
        } else if c == ';' {
            self.stoken(TokenType::Semi)
        } else if c == '(' {
            self.stoken(TokenType::LParen)
        } else if c == ')' {
            self.stoken(TokenType::RParen)
        } else if c == '{' {
            self.stoken(TokenType::LBrace)
        } else if c == '}' {
            self.stoken(TokenType::RBrace)
        } else if c == '[' {
            self.stoken(TokenType::LBracket)
        } else if c == ']' {
            self.stoken(TokenType::RBracket)
        } else if c == '.' {
            self.stoken(TokenType::Dot)
        } else if c == ',' {
            self.stoken(TokenType::Comma)
        } else if c == '+' {
            self.stoken(TokenType::Add)
        } else if c == '-' {
            self.stoken(TokenType::Sub)
        } else if c == '*' {
            self.stoken(TokenType::Mul)
        } else if c == '/' {
            self.stoken(TokenType::Div)
        } else if c == '%' {
            self.stoken(TokenType::Mod)
        } else if c == ':' {
            self.dtoken(':', TokenType::DblColon, TokenType::Colon)
        } else if c == '=' {
            self.dtoken('=', TokenType::DblEquals, TokenType::Equals)
        } else if c == '<' {
            self.dtoken('=', TokenType::Lte, TokenType::Lt)
        } else if c == '>' {
            self.dtoken('=', TokenType::Gte, TokenType::Gt)
        } else if c == '!' {
            let eq_next = match self.peek() {
                Some(d) => d == '=',
                None => false,
            };
            if eq_next {
                self.advance();
                self.advance();
                let text = String::from_str("!=");
                proof {
                    reveal_strlit("!=");
                    assert(text@ =~= seq!['!', '=']);
                }
                Some(make_token(TokenType::Neq, text))
            } else {
                self.advance();
                self.next()
            }
        } else {
            self.advance();
            self.next()
        }
    }
}

} // verus!


verus! {

/// The name Rust's debug formatting gives each token kind.
pub open spec fn token_name(t: TokenType) -> Seq<char> {
    match t {
        TokenType::Ident => "Ident"@,
        TokenType::Number => "Number"@,
        TokenType::String => "String"@,
        TokenType::LParen => "LParen"@,
        TokenType::RParen => "RParen"@,
        TokenType::Comma => "Comma"@,
        TokenType::DblEquals => "DblEquals"@,
        TokenType::Lt => "Lt"@,
        TokenType::Gt => "Gt"@,
        TokenType::Gte => "Gte"@,
        TokenType::Lte => "Lte"@,
        TokenType::Neq => "Neq"@,
        TokenType::Equals => "Equals"@,
        TokenType::Semi => "Semi"@,
        TokenType::Val => "Val"@,
        TokenType::DblColon => "DblColon"@,
        TokenType::LBrace => "LBrace"@,
        TokenType::RBrace => "RBrace"@,
        TokenType::LBracket => "LBracket"@,
        TokenType::RBracket => "RBracket"@,
        TokenType::Dot => "Dot"@,
        TokenType::Colon => "Colon"@,
        TokenType::Add => "Add"@,
        TokenType::Sub => "Sub"@,
        TokenType::Mul => "Mul"@,
        TokenType::Div => "Div"@,
        TokenType::Mod => "Mod"@,
        TokenType::If => "If"@,
        TokenType::Else => "Else"@,
        TokenType::Import => "Import"@,
        TokenType::Eof => "Eof"@,
    }
}

pub fn token_text(t: TokenType) -> (r: &'static str)
    ensures
        r@ == token_name(t),
{
    match t {
        TokenType::Ident => "Ident",
        TokenType::Number => "Number",
        TokenType::String => "String",
        TokenType::LParen => "LParen",
        TokenType::RParen => "RParen",
        TokenType::Comma => "Comma",
        TokenType::DblEquals => "DblEquals",
        TokenType::Lt => "Lt",
        TokenType::Gt => "Gt",
        TokenType::Gte => "Gte",
        TokenType::Lte => "Lte",
        TokenType::Neq => "Neq",
        TokenType::Equals => "Equals",
        TokenType::Semi => "Semi",
        TokenType::Val => "Val",
        TokenType::DblColon => "DblColon",
        TokenType::LBrace => "LBrace",
        TokenType::RBrace => "RBrace",
        TokenType::LBracket => "LBracket",
        TokenType::RBracket => "RBracket",
        TokenType::Dot => "Dot",
        TokenType::Colon => "Colon",
        TokenType::Add => "Add",
        TokenType::Sub => "Sub",
        TokenType::Mul => "Mul",
        TokenType::Div => "Div",
        TokenType::Mod => "Mod",
        TokenType::If => "If",
        TokenType::Else => "Else",
        TokenType::Import => "Import",
        TokenType::Eof => "Eof",
    }
}


} // verus!

verus! {

/// The whole token stream of a source, from position `pos` on.
pub open spec fn spec_tokens(s: Seq<char>, pos: nat) -> Seq<(TokenType, Seq<char>)>
    decreases s.len() - pos,
    when pos <= s.len()
    via spec_tokens_dec
{
    let o = spec_next(s, pos);
    match o.tok {
        None => Seq::empty(),
        Some(t) => seq![t] + spec_tokens(s, o.pos),
    }
}

#[via_fn]
proof fn spec_tokens_dec(s: Seq<char>, pos: nat) {
    lemma_next_progress(s, pos);
}

} // verus!

verus! {

proof fn lemma_scan_ident_shift(s: Seq<char>, pos0: nat, e: nat, p: nat)
    requires
        pos0 <= p <= e <= s.len(),
        e == scan_ident(s, p),
    ensures
        scan_ident(s.subrange(pos0 as int, e as int), (p - pos0) as nat) == e - pos0,
    decreases e - p,
{
    let t = s.subrange(pos0 as int, e as int);
    if p < e {
        assert(scan_ident(s, p) == scan_ident(s, p + 1));
        assert(is_ident_char(s[p as int]));
        lemma_scan_ident_bounds(s, p + 1);
        lemma_scan_ident_shift(s, pos0, e, p + 1);
        assert(t[(p - pos0) as int] == s[p as int]);
    } else {
        assert(scan_ident(t, (e - pos0) as nat) == e - pos0);
    }
}

proof fn lemma_scan_number_shift(s: Seq<char>, pos0: nat, e: nat, p: nat, d: bool)
    requires
        pos0 <= p <= e <= s.len(),
        e == scan_number(s, p, d),
    ensures
        scan_number(s.subrange(pos0 as int, e as int), (p - pos0) as nat, d) == e - pos0,
    decreases e - p,
{
    let t = s.subrange(pos0 as int, e as int);
    if p < e {
        if is_digit_char(s[p as int]) {
            assert(scan_number(s, p, d) == scan_number(s, p + 1, d));
            lemma_scan_number_bounds(s, p + 1, d);
            lemma_scan_number_shift(s, pos0, e, p + 1, d);
            assert(t[(p - pos0) as int] == s[p as int]);
        } else {
            assert(s[p as int] == '.' && !d && p + 1 < s.len() && is_digit_char(
                s[(p + 1) as int],
            ));
            assert(scan_number(s, p, d) == scan_number(s, p + 1, true));
            assert(scan_number(s, p + 1, true) == scan_number(s, p + 2, true));
            lemma_scan_number_bounds(s, p + 2, true);
            assert(e >= p + 2);
            lemma_scan_number_bounds(s, p + 1, true);
            lemma_scan_number_shift(s, pos0, e, p + 1, true);
            assert(t[(p - pos0) as int] == s[p as int]);
            assert(t[(p + 1 - pos0) as int] == s[(p + 1) as int]);
        }
    } else {
        assert(scan_number(t, (e - pos0) as nat, d) == e - pos0);
    }
}

} // verus!

verus! {

/// Re-tokenization of one token: feeding a produced token's text back to
/// the lexer yields the same kind and the same text, and consumes it
/// whole. String tokens are the one exception: their text drops the
/// quotes, so it does not lex back to a string token.
pub proof fn lemma_token_relex(s: Seq<char>, pos: nat)
    requires
        pos <= s.len(),
        spec_next(s, pos).tok is Some,
        spec_next(s, pos).tok->Some_0.0 != TokenType::String,
    ensures
        ({
            let (ty, text) = spec_next(s, pos).tok->Some_0;
            spec_next(text, 0) == (NextOut { tok: Some((ty, text)), pos: text.len() })
        }),
    decreases s.len() - pos,
{
    let c = s[pos as int];
    if is_ws_char(c) || (c == '!' && !(pos + 1 < s.len() && s[(pos + 1) as int] == '='))
        || !(is_ws_char(c) || is_ident_start(c) || is_digit_char(c) || c == '"' || c == '\''
        || c == ';' || c == '(' || c == ')' || c == '{' || c == '}' || c == '[' || c == ']'
        || c == '.' || c == ',' || c == '+' || c == '-' || c == '*' || c == '/' || c == '%'
        || c == ':' || c == '=' || c == '<' || c == '>' || c == '!') {
        lemma_token_relex(s, pos + 1);
    } else if is_ident_start(c) {
        let e = scan_ident(s, pos);
        lemma_scan_ident_bounds(s, pos + 1);
        assert(scan_ident(s, pos) == scan_ident(s, pos + 1));
        assert(pos < e <= s.len());
        let text = s.subrange(pos as int, e as int);
        lemma_scan_ident_shift(s, pos, e, pos);
        assert(scan_ident(text, 0) == text.len());
        assert(text[0] == c);
        assert(!is_ws_char(text[0]));
        assert(text.subrange(0, text.len() as int) =~= text);
    } else if is_digit_char(c) {
        let e = scan_number(s, pos, false);
        lemma_scan_number_bounds(s, pos + 1, false);
        assert(scan_number(s, pos, false) == scan_number(s, pos + 1, false));
        assert(pos < e <= s.len());
        let text = s.subrange(pos as int, e as int);
        lemma_scan_number_shift(s, pos, e, pos, false);
        assert(scan_number(text, 0, false) == text.len());
        assert(text[0] == c);
        assert(!is_ws_char(text[0]) && !is_ident_start(text[0]));
        assert(text.subrange(0, text.len() as int) =~= text);
    } else if c == ':' || c == '=' || c == '<' || c == '>' {
        if pos + 1 < s.len() && s[(pos + 1) as int] == (if c == ':' {
            ':'
        } else {
            '='
        }) {
            let text = spec_next(s, pos).tok->Some_0.1;
            assert(text.len() == 2 && text[0] == c);
        } else {
            let text = spec_next(s, pos).tok->Some_0.1;
            assert(text =~= seq![c]);
        }
    } else if c == '!' {
        let text = spec_next(s, pos).tok->Some_0.1;
        assert(text =~= seq!['!', '=']);
    } else {
        let text = spec_next(s, pos).tok->Some_0.1;
        assert(text =~= seq![c]);
    }
}

} // verus!


verus! {

/// A plain decimal numeral: an optional leading minus, then digits with at
/// most one decimal point, which neither starts nor ends the digit part.
/// Such a text (without the minus) is exactly one number literal of the
/// language.
pub open spec fn plain_digits(d: Seq<char>) -> bool {
    &&& d.len() >= 1
    &&& is_digit_char(d[0])
    &&& is_digit_char(d[d.len() - 1])
    &&& (forall|i: int| 0 <= i < d.len() ==> is_digit_char(#[trigger] d[i]) || d[i]
        == '.')
    &&& (forall|i: int, j: int| 0 <= i < j < d.len() ==> !(d[i] == '.' && d[j] == '.'))
}

pub open spec fn is_plain_decimal(s: Seq<char>) -> bool {
    if s.len() >= 1 && s[0] == '-' {
        plain_digits(s.skip(1))
    } else {
        plain_digits(s)
    }
}

} // verus!

verus! {

proof fn lemma_scan_plain(s: Seq<char>, p: nat, seen_dot: bool)
    requires
        plain_digits(s),
        p <= s.len(),
        seen_dot == exists|q: int| 0 <= q < p && s[q] == '.',
    ensures
        scan_number(s, p, seen_dot) == s.len(),
    decreases s.len() - p,
{
    if p < s.len() {
        if is_digit_char(s[p as int]) {
            assert((exists|q: int| 0 <= q < p + 1 && s[q] == '.') == seen_dot);
            lemma_scan_plain(s, p + 1, seen_dot);
        } else {
            assert(s[p as int] == '.');
            assert(!seen_dot) by {
                if seen_dot {
                    let q = choose|q: int| 0 <= q < p && s[q] == '.';
                    assert(s[q] == '.' && s[p as int] == '.');
                }
            }
            assert(p < s.len() - 1);
            assert(is_digit_char(s[(p + 1) as int])) by {
                if s[(p + 1) as int] == '.' {
                    assert(s[p as int] == '.' && s[(p + 1) as int] == '.');
                }
            }
            assert(exists|q: int| 0 <= q < p + 1 && s[q] == '.') by {
                assert(s[p as int] == '.');
            }
            lemma_scan_plain(s, p + 1, true);
        }
    }
}

/// A plain decimal numeral without a sign lexes as exactly one number
/// token carrying the whole text.
pub proof fn lemma_plain_digits_lex(s: Seq<char>)
    requires
        plain_digits(s),
    ensures
        spec_next(s, 0) == (NextOut {
            tok: Some((TokenType::Number, s)),
            pos: s.len(),
        }),
        spec_tokens(s, 0) == seq![(TokenType::Number, s)],
    decreases s.len(),
{
    assert(is_digit_char(s[0]));
    assert(!is_ws_char(s[0]) && !is_ident_start(s[0]));
    lemma_scan_plain(s, 0, false);
    assert(scan_number(s, 0, false) == s.len());
    assert(s.subrange(0, s.len() as int) =~= s);
    assert(spec_tokens(s, 0) == seq![(TokenType::Number, s)] + spec_tokens(s, s.len()));
    assert(spec_next(s, s.len()).tok is None);
    assert(spec_tokens(s, s.len()) =~= Seq::<(TokenType, Seq<char>)>::empty());
    assert(seq![(TokenType::Number, s)] + Seq::<(TokenType, Seq<char>)>::empty() =~= seq![
        (TokenType::Number, s),
    ]);
}

} // verus!

verus! {

proof fn lemma_scan_ident_suffix(a: Seq<char>, b: Seq<char>, q: nat)
    requires
        q <= b.len(),
    ensures
        scan_ident(a + b, a.len() + q) == a.len() + scan_ident(b, q),
    decreases b.len() - q,
{
    let u = a + b;
    if q < b.len() {
        assert(u[(a.len() + q) as int] == b[q as int]);
        if is_ident_char(b[q as int]) {
            lemma_scan_ident_suffix(a, b, q + 1);
        }
    }
}

proof fn lemma_scan_number_suffix(a: Seq<char>, b: Seq<char>, q: nat, d: bool)
    requires
        q <= b.len(),
    ensures
        scan_number(a + b, a.len() + q, d) == a.len() + scan_number(b, q, d),
    decreases b.len() - q,
{
    let u = a + b;
    if q < b.len() {
        assert(u[(a.len() + q) as int] == b[q as int]);
        if is_digit_char(b[q as int]) {
            lemma_scan_number_suffix(a, b, q + 1, d);
        } else if b[q as int] == '.' && !d && q + 1 < b.len() && is_digit_char(
            b[(q + 1) as int],
        ) {
            assert(u[(a.len() + q + 1) as int] == b[(q + 1) as int]);
            lemma_scan_number_suffix(a, b, q + 1, true);
        } else {
            if b[q as int] == '.' && !d {
                if a.len() + q + 1 < u.len() {
                    assert(u[(a.len() + q + 1) as int] == b[(q + 1) as int]);
                }
            }
        }
    }
}

proof fn lemma_scan_until_suffix(a: Seq<char>, b: Seq<char>, q: nat, c: char)
    requires
        q <= b.len(),
    ensures
        scan_until(a + b, a.len() + q, c) == a.len() + scan_until(b, q, c),
    decreases b.len() - q,
{
    let u = a + b;
    if q < b.len() {
        assert(u[(a.len() + q) as int] == b[q as int]);
        if b[q as int] != c {
            lemma_scan_until_suffix(a, b, q + 1, c);
        }
    }
}

proof fn lemma_scan_ident_extend(t: Seq<char>, tail: Seq<char>, p: nat)
    requires
        p <= t.len(),
        scan_ident(t, p) == t.len(),
        tail.len() == 0 || !is_ident_char(tail[0]),
    ensures
        scan_ident(t + tail, p) == t.len(),
    decreases t.len() - p,
{
    let u = t + tail;
    if p < t.len() {
        assert(u[p as int] == t[p as int]);
        assert(is_ident_char(t[p as int])) by {
            if !is_ident_char(t[p as int]) {
                assert(scan_ident(t, p) == p);
            }
        }
        lemma_scan_ident_extend(t, tail, p + 1);
    } else {
        if p < u.len() {
            assert(u[p as int] == tail[p - t.len()]);
            assert(!is_ident_char(u[p as int]));
        }
    }
}

proof fn lemma_scan_number_extend(t: Seq<char>, tail: Seq<char>, p: nat, d: bool)
    requires
        p <= t.len(),
        scan_number(t, p, d) == t.len(),
        tail.len() == 0 || (!is_digit_char(tail[0]) && tail[0] != '.'),
    ensures
        scan_number(t + tail, p, d) == t.len(),
    decreases t.len() - p,
{
    let u = t + tail;
    if p < t.len() {
        assert(u[p as int] == t[p as int]);
        if is_digit_char(t[p as int]) {
            lemma_scan_number_extend(t, tail, p + 1, d);
        } else {
            assert(t[p as int] == '.' && !d && p + 1 < t.len() && is_digit_char(
                t[(p + 1) as int],
            )) by {
                if !(t[p as int] == '.' && !d && p + 1 < t.len() && is_digit_char(
                    t[(p + 1) as int],
                )) {
                    assert(scan_number(t, p, d) == p);
                }
            }
            assert(u[(p + 1) as int] == t[(p + 1) as int]);
            lemma_scan_number_extend(t, tail, p + 1, true);
        }
    } else {
        if p < u.len() {
            assert(u[p as int] == tail[p - t.len()]);
        }
    }
}

} // verus!

verus! {

/// The lexer does not look left: lexing a suffix inside a longer text
/// yields the same token at a shifted position.
proof fn lemma_next_suffix(a: Seq<char>, b: Seq<char>, q: nat)
    requires
        q <= b.len(),
    ensures
        ({
            let o = spec_next(b, q);
            spec_next(a + b, a.len() + q) == (NextOut { tok: o.tok, pos: a.len() + o.pos })
        }),
    decreases b.len() - q,
{
    let u = a + b;
    if q == b.len() {
        assert(spec_next(b, q).tok is None);
    } else {
        let c = b[q as int];
        assert(u[(a.len() + q) as int] == c);
        if is_ws_char(c) || (c == '!' && !(q + 1 < b.len() && b[(q + 1) as int] == '='))
            || !(is_ws_char(c) || is_ident_start(c) || is_digit_char(c) || c == '"' || c == '\''
            || c == ';' || c == '(' || c == ')' || c == '{' || c == '}' || c == '[' || c == ']'
            || c == '.' || c == ',' || c == '+' || c == '-' || c == '*' || c == '/' || c == '%'
            || c == ':' || c == '=' || c == '<' || c == '>' || c == '!') {
            if c == '!' && q + 1 < b.len() {
                assert(u[(a.len() + q + 1) as int] == b[(q + 1) as int]);
            }
            lemma_next_suffix(a, b, q + 1);
        } else if is_ident_start(c) {
            lemma_scan_ident_suffix(a, b, q);
            let e = scan_ident(b, q);
            lemma_scan_ident_bounds(b, q);
            assert(u.subrange((a.len() + q) as int, (a.len() + e) as int) =~= b.subrange(
                q as int,
                e as int,
            ));
        } else if is_digit_char(c) {
            lemma_scan_number_suffix(a, b, q, false);
            let e = scan_number(b, q, false);
            lemma_scan_number_bounds(b, q, false);
            assert(u.subrange((a.len() + q) as int, (a.len() + e) as int) =~= b.subrange(
                q as int,
                e as int,
            ));
        } else if c == '"' || c == '\'' {
            lemma_scan_until_suffix(a, b, q + 1, c);
            let e = scan_until(b, q + 1, c);
            lemma_scan_until_bounds(b, q + 1, c);
            assert(u.subrange((a.len() + q + 1) as int, (a.len() + e) as int) =~= b.subrange(
                (q + 1) as int,
                e as int,
            ));
            assert((a.len() + e < u.len()) == (e < b.len()));
        } else {
            if q + 1 < b.len() {
                assert(u[(a.len() + q + 1) as int] == b[(q + 1) as int]);
            }
            assert((a.len() + q + 1 < u.len()) == (q + 1 < b.len()));
        }
    }
}

/// The token stream of a suffix inside a longer text is the stream of the
/// suffix alone.
proof fn lemma_tokens_suffix(a: Seq<char>, b: Seq<char>, q: nat)
    requires
        q <= b.len(),
    ensures
        spec_tokens(a + b, a.len() + q) == spec_tokens(b, q),
    decreases b.len() - q,
{
    lemma_next_suffix(a, b, q);
    lemma_next_progress(b, q);
    let o = spec_next(b, q);
    match o.tok {
        None => {
            assert(spec_tokens(a + b, a.len() + q) =~= spec_tokens(b, q));
        },
        Some(t) => {
            lemma_tokens_suffix(a, b, o.pos);
            assert(spec_tokens(b, q) == seq![t] + spec_tokens(b, o.pos));
            assert(spec_tokens(a + b, a.len() + q) == seq![t] + spec_tokens(
                a + b,
                a.len() + o.pos,
            ));
        },
    }
}

/// The text of a token is never longer than what was scanned.
proof fn lemma_lexeme_short(s: Seq<char>, pos: nat)
    requires
        pos <= s.len(),
    ensures
        spec_next(s, pos).tok matches Some(tk) ==> tk.1.len() <= s.len() - pos,
    decreases s.len() - pos,
{
    if pos < s.len() {
        let c = s[pos as int];
        if is_ws_char(c) || (c == '!' && !(pos + 1 < s.len() && s[(pos + 1) as int] == '='))
            || !(is_ws_char(c) || is_ident_start(c) || is_digit_char(c) || c == '"' || c == '\''
            || c == ';' || c == '(' || c == ')' || c == '{' || c == '}' || c == '[' || c == ']'
            || c == '.' || c == ',' || c == '+' || c == '-' || c == '*' || c == '/' || c == '%'
            || c == ':' || c == '=' || c == '<' || c == '>' || c == '!') {
            lemma_lexeme_short(s, pos + 1);
        } else if is_ident_start(c) {
            lemma_scan_ident_bounds(s, pos);
        } else if is_digit_char(c) {
            lemma_scan_number_bounds(s, pos, false);
        } else if c == '"' || c == '\'' {
            lemma_scan_until_bounds(s, pos + 1, c);
        }
    }
}

/// A token whose own text re-lexes to itself, consumed whole, still does
/// so when a separator-led tail follows it.
proof fn lemma_next_extend(t: Seq<char>, tail: Seq<char>, ty: TokenType)
    requires
        spec_next(t, 0) == (NextOut { tok: Some((ty, t)), pos: t.len() }),
        tail.len() == 0 || tail[0] == ' ',
    ensures
        spec_next(t + tail, 0) == (NextOut { tok: Some((ty, t)), pos: t.len() }),
    decreases t.len(),
{
    let u = t + tail;
    assert(t.len() > 0) by {
        lemma_next_progress(t, 0);
    }
    let c = t[0];
    assert(u[0] == c);
    if tail.len() > 0 {
        assert(u[t.len() as int] == tail[0]);
        assert(!is_ident_char(tail[0]) && !is_digit_char(tail[0]) && tail[0] != '.');
    }
    if is_ws_char(c) || (c == '!' && !(1 < t.len() && t[1] == '=')) || !(is_ws_char(c)
        || is_ident_start(c) || is_digit_char(c) || c == '"' || c == '\'' || c == ';' || c == '('
        || c == ')' || c == '{' || c == '}' || c == '[' || c == ']' || c == '.' || c == ','
        || c == '+' || c == '-' || c == '*' || c == '/' || c == '%' || c == ':' || c == '='
        || c == '<' || c == '>' || c == '!') {
        // a skipped leading character would leave the text shorter than
        // itself
        assert(spec_next(t, 0) == spec_next(t, 1));
        lemma_lexeme_short(t, 1);
        assert(false);
    } else if is_ident_start(c) {
        assert(scan_ident(t, 0) == t.len()) by {
            lemma_scan_ident_bounds(t, 0);
        }
        lemma_scan_ident_extend(t, tail, 0);
        assert(u.subrange(0, t.len() as int) =~= t);
    } else if is_digit_char(c) {
        assert(scan_number(t, 0, false) == t.len()) by {
            lemma_scan_number_bounds(t, 0, false);
        }
        lemma_scan_number_extend(t, tail, 0, false);
        assert(u.subrange(0, t.len() as int) =~= t);
    } else if c == '"' || c == '\'' {
        // a string token's text drops its quotes, so it is shorter than
        // the scanned text and cannot re-lex to itself whole
        let e = scan_until(t, 1, c);
        lemma_scan_until_bounds(t, 1, c);
        assert(spec_next(t, 0).tok->Some_0.1 == t.subrange(1, e as int));
        assert(t.subrange(1, e as int).len() < t.len());
        assert(false);
    } else if c == ':' || c == '=' || c == '<' || c == '>' {
        let second = if c == ':' {
            ':'
        } else {
            '='
        };
        if 1 < t.len() && t[1] == second {
            assert(t.len() == 2);
            assert(u[1] == t[1]);
        } else {
            assert(t.len() == 1);
            if 1 < u.len() {
                assert(u[1] == tail[0]);
                assert(tail[0] != second);
            }
        }
    } else if c == '!' {
        assert(1 < t.len() && t[1] == '=');
        assert(t.len() == 2);
        assert(u[1] == t[1]);
    } else {
        assert(t.len() == 1);
    }
}

} // verus!

verus! {

/// The lexemes of a token stream, joined with single spaces.
pub open spec fn token_join(ts: Seq<(TokenType, Seq<char>)>) -> Seq<char>
    decreases ts.len(),
{
    if ts.len() == 0 {
        Seq::empty()
    } else if ts.len() == 1 {
        ts[0].1
    } else {
        ts[0].1 + seq![' '] + token_join(ts.skip(1))
    }
}

/// Every token of the stream re-lexes whole from its own text.
pub open spec fn relexable(ts: Seq<(TokenType, Seq<char>)>) -> bool {
    forall|i: int|
        0 <= i < ts.len() ==> spec_next(#[trigger] ts[i].1, 0) == (NextOut {
            tok: Some(ts[i]),
            pos: ts[i].1.len(),
        })
}

/// Re-tokenizing the space-joined lexemes of a stream of re-lexable
/// tokens reproduces the stream.
pub proof fn lemma_stream_retokenize(ts: Seq<(TokenType, Seq<char>)>)
    requires
        relexable(ts),
    ensures
        spec_tokens(token_join(ts), 0) == ts,
    decreases ts.len(),
{
    if ts.len() == 0 {
        assert(spec_tokens(token_join(ts), 0) =~= ts);
    } else {
        let head = ts[0];
        let t = head.1;
        assert(spec_next(t, 0) == (NextOut { tok: Some(head), pos: t.len() }));
        if ts.len() == 1 {
            let u = token_join(ts);
            assert(u == t);
            assert(spec_tokens(u, 0) == seq![head] + spec_tokens(u, t.len()));
            assert(spec_next(u, t.len()).tok is None);
            assert(spec_tokens(u, t.len()) =~= Seq::<(TokenType, Seq<char>)>::empty());
            assert(seq![head] + Seq::<(TokenType, Seq<char>)>::empty() =~= ts);
        } else {
            let rest = ts.skip(1);
            assert(forall|i: int| 0 <= i < rest.len() ==> rest[i] == ts[i + 1]);
            assert(relexable(rest));
            lemma_stream_retokenize(rest);
            let tail_src = seq![' '] + token_join(rest);
            let u = token_join(ts);
            assert(u == t + seq![' '] + token_join(rest));
            assert(u =~= t + tail_src);
            assert(tail_src[0] == ' ');
            lemma_next_extend(t, tail_src, head.0);
            assert(spec_next(u, 0) == (NextOut { tok: Some(head), pos: t.len() }));
            assert(spec_tokens(u, 0) == seq![head] + spec_tokens(u, t.len()));
            assert(u[t.len() as int] == ' ');
            assert(spec_next(u, t.len()) == spec_next(u, t.len() + 1));
            assert(spec_tokens(u, t.len()) == spec_tokens(u, t.len() + 1)) by {
                let o = spec_next(u, t.len());
                lemma_next_progress(u, t.len());
                match o.tok {
                    None => {
                        assert(spec_tokens(u, t.len()) =~= spec_tokens(u, t.len() + 1));
                    },
                    Some(tk) => {
                        assert(spec_tokens(u, t.len()) == seq![tk] + spec_tokens(u, o.pos));
                        assert(spec_tokens(u, t.len() + 1) == seq![tk] + spec_tokens(u, o.pos));
                    },
                }
            }
            let prefix = t + seq![' '];
            assert(u =~= prefix + token_join(rest));
            lemma_tokens_suffix(prefix, token_join(rest), 0);
            assert(spec_tokens(prefix + token_join(rest), prefix.len() as nat) == spec_tokens(
                token_join(rest),
                0,
            ));
            assert(prefix.len() == t.len() + 1);
            assert(spec_tokens(u, t.len() + 1) == rest);
            assert(seq![head] + rest =~= ts);
        }
    }
}

proof fn lemma_tokens_relexable(s: Seq<char>, pos: nat)
    requires
        pos <= s.len(),
    ensures
        ({
            let ts = spec_tokens(s, pos);
            forall|i: int|
                0 <= i < ts.len() && ts[i].0 != TokenType::String ==> spec_next(
                    #[trigger] ts[i].1,
                    0,
                ) == (NextOut { tok: Some(ts[i]), pos: ts[i].1.len() })
        }),
    decreases s.len() - pos,
{
    let ts = spec_tokens(s, pos);
    let o = spec_next(s, pos);
    lemma_next_progress(s, pos);
    match o.tok {
        None => {},
        Some(tk) => {
            let rest = spec_tokens(s, o.pos);
            assert(ts == seq![tk] + rest);
            lemma_tokens_relexable(s, o.pos);
            assert forall|i: int|
                0 <= i < ts.len() && ts[i].0 != TokenType::String implies spec_next(
                #[trigger] ts[i].1,
                0,
            ) == (NextOut { tok: Some(ts[i]), pos: ts[i].1.len() }) by {
                if i == 0 {
                    assert(ts[0] == tk);
                    lemma_token_relex(s, pos);
                } else {
                    assert(ts[i] == rest[i - 1]);
                }
            }
        },
    }
}

/// Lexer idempotence: on input whose token stream holds no string token
/// (a string lexeme drops its quotes), re-tokenizing the lexemes joined by
/// spaces reproduces the stream, kinds and texts alike.
pub proof fn lemma_lexer_idempotent(s: Seq<char>)
    requires
        forall|i: int|
            0 <= i < spec_tokens(s, 0).len() ==> (#[trigger] spec_tokens(s, 0)[i].0)
                != TokenType::String,
    ensures
        spec_tokens(token_join(spec_tokens(s, 0)), 0) == spec_tokens(s, 0),
{
    lemma_tokens_relexable(s, 0);
    assert(relexable(spec_tokens(s, 0)));
    lemma_stream_retokenize(spec_tokens(s, 0));
}

} // verus!
