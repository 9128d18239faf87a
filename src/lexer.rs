//! The lexer: source text to tokens, each with the line and column where
//! it starts.
use vstd::prelude::*;

verus! {

/// A lexical token of the source language.
#[derive(Debug, Clone, PartialEq)]
pub enum Token {
    Identifier(String),
    Constant(i32),
    IntKeyword,
    VoidKeyWord,
    ReturnKeyWord,
    OpenParenthesis,
    CloseParenthesis,
    OpenBrace,
    CloseBrace,
    Semicolon,
    Tilde,
    Hyphen,
    Decrement,
    Plus,
    Asteriks,
    Slash,
    PercentSign,
    Not,
    And,
    Or,
    EqualTo,
    NotEqualTo,
    LessThan,
    GreaterThan,
    LessThanEqualTo,
    GreaterThanEqualTo,
}

/// What a token denotes: an identifier by its characters, any other token as it is.
pub enum TokenView {
    Identifier(Seq<char>),
    Other(Token),
}

impl View for Token {
    type V = TokenView;

    open spec fn view(&self) -> TokenView {
        match self {
            Token::Identifier(s) => TokenView::Identifier(s@),
            _ => TokenView::Other(*self),
        }
    }
}

/// A token together with the position where it starts in the source.
#[derive(Debug, Clone, PartialEq)]
pub struct FileToken {
    pub token: Token,
    pub line: usize,
    pub start_char_in_line: usize,
}

#[derive(Debug, Clone, Copy, PartialEq, Eq, Structural)]
pub enum LexerErrorType {
    InvalidCharInDigitalConstant,
    UnexpectedChar,
    /// A decimal constant above the largest 32-bit integer.
    ConstantOutOfRange,
}

/// A lexical error and the position of the lexeme that caused it.
#[derive(Debug, Clone, Copy, PartialEq, Eq)]
pub struct LexerError {
    pub error: LexerErrorType,
    pub line: usize,
    pub start_char_in_line: usize,
}

pub open spec fn is_space(c: char) -> bool {
    c == ' ' || c == '\t' || c == '\n' || c == '\r' || c == '\x0B' || c == '\x0C'
}

pub open spec fn is_digit(c: char) -> bool {
    '0' <= c && c <= '9'
}

pub open spec fn is_letter(c: char) -> bool {
    ('a' <= c && c <= 'z') || ('A' <= c && c <= 'Z')
}

/// Length of the run of digits (or, for a word, of letters and digits) at `i`.
pub open spec fn run_len(cs: Seq<char>, i: int, word: bool) -> nat
    decreases cs.len() - i,
{
    if 0 <= i < cs.len() && (is_digit(cs[i]) || (word && is_letter(cs[i]))) {
        1 + run_len(cs, i + 1, word)
    } else {
        0
    }
}

pub open spec fn digit_value(c: char) -> int {
    c as int - '0' as int
}

/// The number that the digits `cs[i..j]` write in decimal.
pub open spec fn digits_value(cs: Seq<char>, i: int, j: int) -> int
    decreases j - i,
{
    if j <= i {
        0
    } else {
        digits_value(cs, i, j - 1) * 10 + digit_value(cs[j - 1])
    }
}

/// Index just past the first newline at or after `i`, or the end.
pub open spec fn line_end(cs: Seq<char>, i: int) -> int
    decreases cs.len() - i,
{
    if i >= cs.len() {
        cs.len() as int
    } else if cs[i] == '\n' {
        i + 1
    } else {
        line_end(cs, i + 1)
    }
}

/// Index just past the first `*/` at or after `i`, or the end.
pub open spec fn comment_end(cs: Seq<char>, i: int) -> int
    decreases cs.len() - i,
{
    if i >= cs.len() {
        cs.len() as int
    } else if cs[i] == '*' && i + 1 < cs.len() && cs[i + 1] == '/' {
        i + 2
    } else {
        comment_end(cs, i + 1)
    }
}

/// The keyword that a word spells, or an identifier.
pub open spec fn word_token(w: Seq<char>) -> TokenView {
    if w == "int"@ {
        TokenView::Other(Token::IntKeyword)
    } else if w == "return"@ {
        TokenView::Other(Token::ReturnKeyWord)
    } else if w == "void"@ {
        TokenView::Other(Token::VoidKeyWord)
    } else {
        TokenView::Identifier(w)
    }
}

/// Whether `cs[i]` is `c`.
pub open spec fn char_at(cs: Seq<char>, i: int, c: char) -> bool {
    0 <= i < cs.len() && cs[i] == c
}

/// A one- or two-character operator at `i`: the token of the longer form
/// when the second character follows, else the token of the shorter one.
pub open spec fn operator_pair(
    cs: Seq<char>,
    i: int,
    second: char,
    long: Token,
    short: Option<Token>,
) -> Result<(Option<TokenView>, int), LexerErrorType> {
    if char_at(cs, i + 1, second) {
        Ok((Some(TokenView::Other(long)), i + 2))
    } else if short is Some {
        Ok((Some(TokenView::Other(short->Some_0)), i + 1))
    } else {
        Err(LexerErrorType::UnexpectedChar)
    }
}

/// The single-character token of `c`, if it is one.
pub open spec fn single_token(c: char) -> Option<Token> {
    if c == '(' {
        Some(Token::OpenParenthesis)
    } else if c == ')' {
        Some(Token::CloseParenthesis)
    } else if c == '{' {
        Some(Token::OpenBrace)
    } else if c == '}' {
        Some(Token::CloseBrace)
    } else if c == ';' {
        Some(Token::Semicolon)
    } else if c == '~' {
        Some(Token::Tilde)
    } else if c == '+' {
        Some(Token::Plus)
    } else if c == '*' {
        Some(Token::Asteriks)
    } else if c == '%' {
        Some(Token::PercentSign)
    } else {
        None
    }
}

/// The lexeme that starts at `i < cs.len()`: the token it makes (none for
/// blanks and comments) and the index just past it, or the error it raises.
pub open spec fn next_lexeme(cs: Seq<char>, i: int) -> Result<(Option<TokenView>, int), LexerErrorType> {
    let c = cs[i];
    if is_space(c) {
        Ok((None, i + 1))
    } else if single_token(c) is Some {
        Ok((Some(TokenView::Other(single_token(c)->Some_0)), i + 1))
    } else if c == '=' {
        operator_pair(cs, i, '=', Token::EqualTo, None)
    } else if c == '&' {
        operator_pair(cs, i, '&', Token::And, None)
    } else if c == '|' {
        operator_pair(cs, i, '|', Token::Or, None)
    } else if c == '-' {
        operator_pair(cs, i, '-', Token::Decrement, Some(Token::Hyphen))
    } else if c == '>' {
        operator_pair(cs, i, '=', Token::GreaterThanEqualTo, Some(Token::GreaterThan))
    } else if c == '<' {
        operator_pair(cs, i, '=', Token::LessThanEqualTo, Some(Token::LessThan))
    } else if c == '!' {
        operator_pair(cs, i, '=', Token::NotEqualTo, Some(Token::Not))
    } else if is_digit(c) {
        let j = i + run_len(cs, i, false);
        let v = digits_value(cs, i, j);
        if v > i32::MAX {
            Err(LexerErrorType::ConstantOutOfRange)
        } else if j < cs.len() && is_letter(cs[j]) {
            Err(LexerErrorType::InvalidCharInDigitalConstant)
        } else {
            Ok((Some(TokenView::Other(Token::Constant(v as i32))), j))
        }
    } else if c == '#' {
        Ok((None, line_end(cs, i + 1)))
    } else if c == '/' {
        if char_at(cs, i + 1, '/') {
            Ok((None, line_end(cs, i + 2)))
        } else if char_at(cs, i + 1, '*') {
            Ok((None, comment_end(cs, i + 2)))
        } else {
            Ok((Some(TokenView::Other(Token::Slash)), i + 1))
        }
    } else if is_letter(c) {
        let j = i + run_len(cs, i, true);
        Ok((Some(word_token(cs.subrange(i, j))), j))
    } else {
        Err(LexerErrorType::UnexpectedChar)
    }
}

/// The tokens of `cs[i..]` with the index where each starts, or the first
/// error with the index of the lexeme that raised it.
pub open spec fn lex_from(cs: Seq<char>, i: int) -> Result<Seq<(TokenView, int)>, (LexerErrorType, int)>
    decreases cs.len() - i,
{
    if i < 0 || i >= cs.len() {
        Ok(seq![])
    } else {
        let step = next_lexeme(cs, i);
        if step is Err {
            Err((step->Err_0, i))
        } else {
            let (t, j) = step->Ok_0;
            if j <= i || j > cs.len() {
                Ok(seq![])
            } else {
                let rest = lex_from(cs, j);
                if rest is Err {
                    rest
                } else if t is Some {
                    Ok(seq![(t->Some_0, i)] + rest->Ok_0)
                } else {
                    rest
                }
            }
        }
    }
}

/// Line of the character at index `i`, counted from 1.
pub open spec fn line_of(cs: Seq<char>, i: int) -> int
    decreases i,
{
    if i <= 0 {
        1
    } else if cs[i - 1] == '\n' {
        line_of(cs, i - 1) + 1
    } else {
        line_of(cs, i - 1)
    }
}

/// Column of the character at index `i` within its line, counted from 1.
pub open spec fn column_of(cs: Seq<char>, i: int) -> int
    decreases i,
{
    if i <= 0 {
        1
    } else if cs[i - 1] == '\n' {
        1
    } else {
        column_of(cs, i - 1) + 1
    }
}

/// The tokens of `cs[i..]`, after `prefix`; an error stays as it is.
pub open spec fn after(
    prefix: Seq<(TokenView, int)>,
    r: Result<Seq<(TokenView, int)>, (LexerErrorType, int)>,
) -> Result<Seq<(TokenView, int)>, (LexerErrorType, int)> {
    if r is Ok {
        Ok(prefix + r->Ok_0)
    } else {
        r
    }
}

fn run_end(cs: &Vec<char>, i: usize, word: bool) -> (j: usize)
    requires
        i <= cs@.len(),
    ensures
        j == i + run_len(cs@, i as int, word),
        j <= cs@.len(),
        forall|p: int| i <= p < j ==> is_digit(#[trigger] cs@[p]) || (word && is_letter(cs@[p])),
{
    let mut j = i;
    while j < cs.len() && (('0' <= cs[j] && cs[j] <= '9') || (word && (('a' <= cs[j] && cs[j]
        <= 'z') || ('A' <= cs[j] && cs[j] <= 'Z'))))
        invariant
            i <= j <= cs@.len(),
            run_len(cs@, i as int, word) == (j - i) + run_len(cs@, j as int, word),
            forall|p: int| i <= p < j ==> is_digit(#[trigger] cs@[p]) || (word && is_letter(cs@[p])),
        decreases cs@.len() - j,
    {
        j = j + 1;
    }
    j
}

proof fn lemma_digits_grow(cs: Seq<char>, i: int, k: int, m: int)
    requires
        i <= k <= m,
        forall|p: int| i <= p < m ==> is_digit(#[trigger] cs[p]),
    ensures
        digits_value(cs, i, k) <= digits_value(cs, i, m),
        digits_value(cs, i, k) >= 0,
    decreases m - i,
{
    if m > k {
        lemma_digits_grow(cs, i, k, m - 1);
    } else if k > i {
        lemma_digits_grow(cs, i, k - 1, k - 1);
    }
}

/// The value of the digits `cs[i..j]`, or `None` if it passes `i32::MAX`.
fn constant_value(cs: &Vec<char>, i: usize, j: usize) -> (r: Option<i32>)
    requires
        i <= j <= cs@.len(),
        forall|p: int| i <= p < j ==> is_digit(#[trigger] cs@[p]),
    ensures
        digits_value(cs@, i as int, j as int) <= i32::MAX ==> r == Some(
            digits_value(cs@, i as int, j as int) as i32,
        ),
        digits_value(cs@, i as int, j as int) > i32::MAX ==> r is None,
{
    let mut v: i64 = 0;
    let mut k = i;
    while k < j
        invariant
            i <= k <= j <= cs@.len(),
            forall|p: int| i <= p < j ==> is_digit(#[trigger] cs@[p]),
            v == digits_value(cs@, i as int, k as int),
            0 <= v <= i32::MAX,
        decreases j - k,
    {
        let d = cs[k] as u32 - '0' as u32;
        v = v * 10 + d as i64;
        k = k + 1;
        if v > i32::MAX as i64 {
            proof {
                lemma_digits_grow(cs@, i as int, k as int, j as int);
            }
            return None;
        }
    }
    Some(v as i32)
}

fn line_end_exec(cs: &Vec<char>, i: usize) -> (j: usize)
    requires
        i <= cs@.len(),
    ensures
        j == line_end(cs@, i as int),
        i <= j <= cs@.len(),
{
    let mut j = i;
    while j < cs.len() && cs[j] != '\n'
        invariant
            i <= j <= cs@.len(),
            line_end(cs@, i as int) == line_end(cs@, j as int),
        decreases cs@.len() - j,
    {
        j = j + 1;
    }
    if j < cs.len() {
        j + 1
    } else {
        j
    }
}

fn comment_end_exec(cs: &Vec<char>, i: usize) -> (j: usize)
    requires
        i <= cs@.len(),
    ensures
        j == comment_end(cs@, i as int),
        i <= j <= cs@.len(),
{
    let mut j = i;
    while j < cs.len() && !(cs[j] == '*' && j + 1 < cs.len() && cs[j + 1] == '/')
        invariant
            i <= j <= cs@.len(),
            comment_end(cs@, i as int) == comment_end(cs@, j as int),
        decreases cs@.len() - j,
    {
        j = j + 1;
    }
    if j < cs.len() {
        j + 2
    } else {
        j
    }
}

fn operator_pair_exec(
    cs: &Vec<char>,
    i: usize,
    second: char,
    long: Token,
    short: Option<Token>,
) -> (r: Result<(Option<Token>, usize), LexerErrorType>)
    requires
        i < cs@.len() < usize::MAX,
        !(long is Identifier),
        short is Some ==> !(short->Some_0 is Identifier),
    ensures
        match operator_pair(cs@, i as int, second, long, short) {
            Ok((t, j)) => r is Ok && r->Ok_0.1 == j && r->Ok_0.0 is Some && t is Some
                && r->Ok_0.0->Some_0@ == t->Some_0,
            Err(e) => r is Err && r->Err_0 == e,
        },
{
    if i + 1 < cs.len() && cs[i + 1] == second {
        Ok((Some(long), i + 2))
    } else {
        match short {
            Some(t) => Ok((Some(t), i + 1)),
            None => Err(LexerErrorType::UnexpectedChar),
        }
    }
}

fn single_token_exec(c: char) -> (r: Option<Token>)
    ensures
        r == single_token(c),
{
    if c == '(' {
        Some(Token::OpenParenthesis)
    } else if c == ')' {
        Some(Token::CloseParenthesis)
    } else if c == '{' {
        Some(Token::OpenBrace)
    } else if c == '}' {
        Some(Token::CloseBrace)
    } else if c == ';' {
        Some(Token::Semicolon)
    } else if c == '~' {
        Some(Token::Tilde)
    } else if c == '+' {
        Some(Token::Plus)
    } else if c == '*' {
        Some(Token::Asteriks)
    } else if c == '%' {
        Some(Token::PercentSign)
    } else {
        None
    }
}

fn word_token_exec(w: String) -> (r: Token)
    ensures
        r@ == word_token(w@),
{
    if w == String::from_str("int") {
        Token::IntKeyword
    } else if w == String::from_str("return") {
        Token::ReturnKeyWord
    } else if w == String::from_str("void") {
        Token::VoidKeyWord
    } else {
        Token::Identifier(w)
    }
}

/// Lexes the lexeme at `i`.
fn scan(cs: &Vec<char>, text: &String, i: usize) -> (r: Result<(Option<Token>, usize), LexerErrorType>)
    requires
        i < cs@.len() < usize::MAX,
        cs@ == text@,
    ensures
        match next_lexeme(cs@, i as int) {
            Ok((t, j)) => r is Ok && r->Ok_0.1 == j && i < j <= cs@.len() && (r->Ok_0.0 is Some
                <==> t is Some) && (t is Some ==> r->Ok_0.0->Some_0@ == t->Some_0),
            Err(e) => r is Err && r->Err_0 == e,
        },
{
    let c = cs[i];
    if c == ' ' || c == '\t' || c == '\n' || c == '\r' || c == '\x0B' || c == '\x0C' {
        return Ok((None, i + 1));
    }
    if let Some(t) = single_token_exec(c) {
        return Ok((Some(t), i + 1));
    }
    if c == '=' {
        operator_pair_exec(cs, i, '=', Token::EqualTo, None)
    } else if c == '&' {
        operator_pair_exec(cs, i, '&', Token::And, None)
    } else if c == '|' {
        operator_pair_exec(cs, i, '|', Token::Or, None)
    } else if c == '-' {
        operator_pair_exec(cs, i, '-', Token::Decrement, Some(Token::Hyphen))
    } else if c == '>' {
        operator_pair_exec(cs, i, '=', Token::GreaterThanEqualTo, Some(Token::GreaterThan))
    } else if c == '<' {
        operator_pair_exec(cs, i, '=', Token::LessThanEqualTo, Some(Token::LessThan))
    } else if c == '!' {
        operator_pair_exec(cs, i, '=', Token::NotEqualTo, Some(Token::Not))
    } else if '0' <= c && c <= '9' {
        let j = run_end(cs, i, false);
        match constant_value(cs, i, j) {
            None => Err(LexerErrorType::ConstantOutOfRange),
            Some(v) => {
                if j < cs.len() && (('a' <= cs[j] && cs[j] <= 'z') || ('A' <= cs[j] && cs[j]
                    <= 'Z')) {
                    Err(LexerErrorType::InvalidCharInDigitalConstant)
                } else {
                    Ok((Some(Token::Constant(v)), j))
                }
            },
        }
    } else if c == '#' {
        Ok((None, line_end_exec(cs, i + 1)))
    } else if c == '/' {
        if i + 1 < cs.len() && cs[i + 1] == '/' {
            Ok((None, line_end_exec(cs, i + 2)))
        } else if i + 1 < cs.len() && cs[i + 1] == '*' {
            Ok((None, comment_end_exec(cs, i + 2)))
        } else {
            Ok((Some(Token::Slash), i + 1))
        }
    } else if ('a' <= c && c <= 'z') || ('A' <= c && c <= 'Z') {
        let j = run_end(cs, i, true);
        let w = String::from_str(text.as_str().substring_char(i, j));
        Ok((Some(word_token_exec(w)), j))
    } else {
        Err(LexerErrorType::UnexpectedChar)
    }
}

/// A token of the list is the lexed token at its index, with its line and column.
pub open spec fn located(cs: Seq<char>, ft: FileToken, t: (TokenView, int)) -> bool {
    &&& ft.token@ == t.0
    &&& ft.line == line_of(cs, t.1)
    &&& ft.start_char_in_line == column_of(cs, t.1)
}

/// `r` is what lexing `cs` gives: every token in order with its position,
/// or the first error with the position of the lexeme that raised it.
pub open spec fn lexed(cs: Seq<char>, r: Result<Vec<FileToken>, LexerError>) -> bool {
    match lex_from(cs, 0) {
        Ok(ts) => r is Ok && r->Ok_0@.len() == ts.len() && forall|k: int|
            0 <= k < ts.len() ==> located(cs, #[trigger] r->Ok_0@[k], ts[k]),
        Err((e, at)) => r is Err && r->Err_0.error == e && r->Err_0.line == line_of(cs, at)
            && r->Err_0.start_char_in_line == column_of(cs, at),
    }
}

fn copy_token(t: &Token) -> (r: Token)
    ensures
        r@ == t@,
{
    match t {
        Token::Identifier(s) => Token::Identifier(s.clone()),
        Token::Constant(c) => Token::Constant(*c),
        Token::IntKeyword => Token::IntKeyword,
        Token::VoidKeyWord => Token::VoidKeyWord,
        Token::ReturnKeyWord => Token::ReturnKeyWord,
        Token::OpenParenthesis => Token::OpenParenthesis,
        Token::CloseParenthesis => Token::CloseParenthesis,
        Token::OpenBrace => Token::OpenBrace,
        Token::CloseBrace => Token::CloseBrace,
        Token::Semicolon => Token::Semicolon,
        Token::Tilde => Token::Tilde,
        Token::Hyphen => Token::Hyphen,
        Token::Decrement => Token::Decrement,
        Token::Plus => Token::Plus,
        Token::Asteriks => Token::Asteriks,
        Token::Slash => Token::Slash,
        Token::PercentSign => Token::PercentSign,
        Token::Not => Token::Not,
        Token::And => Token::And,
        Token::Or => Token::Or,
        Token::EqualTo => Token::EqualTo,
        Token::NotEqualTo => Token::NotEqualTo,
        Token::LessThan => Token::LessThan,
        Token::GreaterThan => Token::GreaterThan,
        Token::LessThanEqualTo => Token::LessThanEqualTo,
        Token::GreaterThanEqualTo => Token::GreaterThanEqualTo,
    }
}

fn copy_tokens(v: &Vec<FileToken>) -> (r: Vec<FileToken>)
    ensures
        r@.len() == v@.len(),
        forall|k: int|
            0 <= k < v@.len() ==> (#[trigger] r@[k]).token@ == v@[k].token@ && r@[k].line
                == v@[k].line && r@[k].start_char_in_line == v@[k].start_char_in_line,
{
    let mut r: Vec<FileToken> = Vec::new();
    let mut i: usize = 0;
    while i < v.len()
        invariant
            i <= v@.len(),
            r@.len() == i,
            forall|k: int|
                0 <= k < i ==> (#[trigger] r@[k]).token@ == v@[k].token@ && r@[k].line
                    == v@[k].line && r@[k].start_char_in_line == v@[k].start_char_in_line,
        decreases v@.len() - i,
    {
        let t = &v[i];
        r.push(
            FileToken {
                token: copy_token(&t.token),
                line: t.line,
                start_char_in_line: t.start_char_in_line,
            },
        );
        i = i + 1;
    }
    r
}

/// Splits source text into tokens.
pub struct Lexer {
    /// The name of the source, for diagnostics.
    pub path: String,
    pub content: String,
    pub tokens: Vec<FileToken>,
    pub line_nr: usize,
    pub nr_in_line: usize,
}

impl Lexer {
    pub fn from_content(content: String) -> (r: Self)
        ensures
            r.content@ == content@,
            r.path@ == "main.c"@,
            r.tokens@.len() == 0,
            r.line_nr == 1,
            r.nr_in_line == 1,
    {
        Lexer {
            path: String::from_str("main.c"),
            content,
            tokens: Vec::new(),
            line_nr: 1,
            nr_in_line: 1,
        }
    }

    /// Records `token` as starting at the current position.
    pub fn add_token(&mut self, token: Token)
        ensures
            final(self).tokens@ == old(self).tokens@.push(
                FileToken {
                    token,
                    line: old(self).line_nr,
                    start_char_in_line: old(self).nr_in_line,
                },
            ),
            final(self).content == old(self).content,
            final(self).path == old(self).path,
            final(self).line_nr == old(self).line_nr,
            final(self).nr_in_line == old(self).nr_in_line,
    {
        self.tokens.push(
            FileToken { token, line: self.line_nr, start_char_in_line: self.nr_in_line },
        );
    }

    /// Lexes the whole content: the tokens with the line and column where
    /// each starts (also kept in `tokens`), or the first error with its
    /// position.
    pub fn tokenize(&mut self) -> (r: Result<Vec<FileToken>, LexerError>)
        requires
            old(self).content@.len() < usize::MAX,
        ensures
            final(self).content == old(self).content,
            lexed(old(self).content@, r),
    {
        let n = self.content.as_str().unicode_len();
        let mut cs: Vec<char> = Vec::new();
        let mut k: usize = 0;
        while k < n
            invariant
                k <= n,
                n == self.content@.len(),
                cs@ == self.content@.take(k as int),
            decreases n - k,
        {
            cs.push(self.content.as_str().get_char(k));
            k = k + 1;
            assert(cs@ =~= self.content@.take(k as int));
        }
        assert(cs@ =~= self.content@);
        self.tokens = Vec::new();
        self.line_nr = 1;
        self.nr_in_line = 1;
        let mut i: usize = 0;
        let ghost mut pfx: Seq<(TokenView, int)> = seq![];
        while i < n
            invariant
                self.content == old(self).content,
                cs@ == self.content@,
                n == cs@.len(),
                n < usize::MAX,
                i <= n,
                self.line_nr == line_of(cs@, i as int),
                self.nr_in_line == column_of(cs@, i as int),
                self.line_nr <= i + 1,
                self.nr_in_line <= i + 1,
                lex_from(cs@, 0) == after(pfx, lex_from(cs@, i as int)),
                self.tokens@.len() == pfx.len(),
                forall|k: int| 0 <= k < pfx.len() ==> located(cs@, #[trigger] self.tokens@[k], pfx[k]),
            decreases n - i,
        {
            match scan(&cs, &self.content, i) {
                Err(e) => {
                    return Err(
                        LexerError { error: e, line: self.line_nr, start_char_in_line: self.nr_in_line },
                    );
                },
                Ok((t, j)) => {
                    let ghost start = i as int;
                    let ghost rest = lex_from(cs@, j as int);
                    match t {
                        Some(tok) => {
                            let ghost tv = tok@;
                            let ghost old_tokens = self.tokens@;
                            self.add_token(tok);
                            proof {
                                if rest is Ok {
                                    assert(pfx + (seq![(tv, start)] + rest->Ok_0) =~= pfx.push(
                                        (tv, start),
                                    ) + rest->Ok_0);
                                }
                                pfx = pfx.push((tv, start));
                                assert forall|k: int| 0 <= k < pfx.len() implies located(
                                    cs@,
                                    #[trigger] self.tokens@[k],
                                    pfx[k],
                                ) by {
                                    if k < pfx.len() - 1 {
                                        assert(self.tokens@[k] == old_tokens[k]);
                                    }
                                }
                            }
                        },
                        None => {},
                    }
                    let ghost toks = self.tokens@;
                    while i < j
                        invariant
                            self.content == old(self).content,
                            self.tokens@ == toks,
                            i <= j <= n,
                            n == cs@.len(),
                            n < usize::MAX,
                            self.line_nr == line_of(cs@, i as int),
                            self.nr_in_line == column_of(cs@, i as int),
                            self.line_nr <= i + 1,
                            self.nr_in_line <= i + 1,
                        decreases j - i,
                    {
                        if cs[i] == '\n' {
                            self.line_nr = self.line_nr + 1;
                            self.nr_in_line = 1;
                        } else {
                            self.nr_in_line = self.nr_in_line + 1;
                        }
                        i = i + 1;
                    }
                },
            }
        }
        assert(lex_from(cs@, n as int) is Ok && lex_from(cs@, n as int)->Ok_0.len() == 0);
        assert(pfx + Seq::<(TokenView, int)>::empty() =~= pfx);
        Ok(copy_tokens(&self.tokens))
    }
}

} // verus!
