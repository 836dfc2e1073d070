//! Lexical analysis: from characters to tokens.
//!
//! The token sequence of a source text is defined by the spec function
//! [`lex`]; [`tokenize`] computes it.
use crate::text::{
    digits_value, is_decimal_digit, is_digit_char, is_white_space, is_whitespace, is_word_char,
    to_digit, unicode_alphabetic,
};
use vstd::prelude::*;

verus! {

/// One lexical unit. A token owns its payload and knows nothing of where in
/// the source it came from.
#[derive(Debug)]
pub enum Token {
    Num(u32),
    Identifier(Box<String>),
    Plus,
    Minus,
    Multiply,
    Divide,
    LeftParen,
    RightParen,
    LeftBrace,
    RightBrace,
    Equal,
    NotEqual,
    LessThan,
    LessThanOrEqual,
    GreaterThan,
    GreaterThanOrEqual,
    Assign,
    Semicolon,
    Return,
    If,
    Else,
    While,
    For,
    EOF,
}

/// The mathematical value of a [`Token`]: the same tags, with the name of an
/// identifier as a sequence of characters.
pub enum TokenView {
    Num(u32),
    Identifier(Seq<char>),
    Plus,
    Minus,
    Multiply,
    Divide,
    LeftParen,
    RightParen,
    LeftBrace,
    RightBrace,
    Equal,
    NotEqual,
    LessThan,
    LessThanOrEqual,
    GreaterThan,
    GreaterThanOrEqual,
    Assign,
    Semicolon,
    Return,
    If,
    Else,
    While,
    For,
    EOF,
}

impl View for Token {
    type V = TokenView;

    open spec fn view(&self) -> TokenView {
        match self {
            Token::Num(n) => TokenView::Num(*n),
            Token::Identifier(s) => TokenView::Identifier(s@),
            Token::Plus => TokenView::Plus,
            Token::Minus => TokenView::Minus,
            Token::Multiply => TokenView::Multiply,
            Token::Divide => TokenView::Divide,
            Token::LeftParen => TokenView::LeftParen,
            Token::RightParen => TokenView::RightParen,
            Token::LeftBrace => TokenView::LeftBrace,
            Token::RightBrace => TokenView::RightBrace,
            Token::Equal => TokenView::Equal,
            Token::NotEqual => TokenView::NotEqual,
            Token::LessThan => TokenView::LessThan,
            Token::LessThanOrEqual => TokenView::LessThanOrEqual,
            Token::GreaterThan => TokenView::GreaterThan,
            Token::GreaterThanOrEqual => TokenView::GreaterThanOrEqual,
            Token::Assign => TokenView::Assign,
            Token::Semicolon => TokenView::Semicolon,
            Token::Return => TokenView::Return,
            Token::If => TokenView::If,
            Token::Else => TokenView::Else,
            Token::While => TokenView::While,
            Token::For => TokenView::For,
            Token::EOF => TokenView::EOF,
        }
    }
}

impl PartialEq for Token {
    fn eq(&self, other: &Token) -> (r: bool) {
        match (self, other) {
            (Token::Num(a), Token::Num(b)) => *a == *b,
            (Token::Identifier(a), Token::Identifier(b)) => **a == **b,
            (Token::Plus, Token::Plus) => true,
            (Token::Minus, Token::Minus) => true,
            (Token::Multiply, Token::Multiply) => true,
            (Token::Divide, Token::Divide) => true,
            (Token::LeftParen, Token::LeftParen) => true,
            (Token::RightParen, Token::RightParen) => true,
            (Token::LeftBrace, Token::LeftBrace) => true,
            (Token::RightBrace, Token::RightBrace) => true,
            (Token::Equal, Token::Equal) => true,
            (Token::NotEqual, Token::NotEqual) => true,
            (Token::LessThan, Token::LessThan) => true,
            (Token::LessThanOrEqual, Token::LessThanOrEqual) => true,
            (Token::GreaterThan, Token::GreaterThan) => true,
            (Token::GreaterThanOrEqual, Token::GreaterThanOrEqual) => true,
            (Token::Assign, Token::Assign) => true,
            (Token::Semicolon, Token::Semicolon) => true,
            (Token::Return, Token::Return) => true,
            (Token::If, Token::If) => true,
            (Token::Else, Token::Else) => true,
            (Token::While, Token::While) => true,
            (Token::For, Token::For) => true,
            (Token::EOF, Token::EOF) => true,
            _ => false,
        }
    }
}

impl vstd::std_specs::cmp::PartialEqSpecImpl for Token {
    open spec fn obeys_eq_spec() -> bool {
        true
    }

    open spec fn eq_spec(&self, other: &Token) -> bool {
        self@ == other@
    }
}

impl Clone for Token {
    fn clone(&self) -> (r: Token)
        ensures
            r@ == self@,
    {
        match self {
            Token::Num(n) => Token::Num(*n),
            Token::Identifier(s) => Token::Identifier(Box::new((**s).clone())),
            Token::Plus => Token::Plus,
            Token::Minus => Token::Minus,
            Token::Multiply => Token::Multiply,
            Token::Divide => Token::Divide,
            Token::LeftParen => Token::LeftParen,
            Token::RightParen => Token::RightParen,
            Token::LeftBrace => Token::LeftBrace,
            Token::RightBrace => Token::RightBrace,
            Token::Equal => Token::Equal,
            Token::NotEqual => Token::NotEqual,
            Token::LessThan => Token::LessThan,
            Token::LessThanOrEqual => Token::LessThanOrEqual,
            Token::GreaterThan => Token::GreaterThan,
            Token::GreaterThanOrEqual => Token::GreaterThanOrEqual,
            Token::Assign => Token::Assign,
            Token::Semicolon => Token::Semicolon,
            Token::Return => Token::Return,
            Token::If => Token::If,
            Token::Else => Token::Else,
            Token::While => Token::While,
            Token::For => Token::For,
            Token::EOF => Token::EOF,
        }
    }
}

impl Token {
    /// An identifier token with the given name.
    pub fn new_identifer(ident: &str) -> (t: Token)
        ensures
            t@ == TokenView::Identifier(ident@),
    {
        Token::Identifier(Box::new(ident.to_owned()))
    }

    /// Whether `c` may continue an identifier: a letter, a digit or an
    /// underscore.
    pub fn is_almum(c: char) -> (r: bool)
        ensures
            r == is_word_char(c),
    {
        c.is_alphabetic() || is_decimal_digit(c) || c == '_'
    }
}

/// The values of a sequence of tokens.
pub open spec fn token_views(tokens: Seq<Token>) -> Seq<TokenView> {
    tokens.map_values(|t: Token| t@)
}

/// Why a source text has no token sequence.
#[derive(Debug, Clone, Copy, PartialEq, Eq, Structural)]
pub enum LexError {
    /// The character `found` at index `at` starts no token. A `!` that is not
    /// followed by `=` is reported here, at the index of the `!`.
    UnexpectedChar { at: usize, found: char },
    /// The run of digits that starts at index `at` denotes a number above
    /// `u32::MAX`.
    LiteralTooLarge { at: usize },
}

impl LexError {
    /// The index of the character at which lexing stopped.
    pub open spec fn position(self) -> nat {
        match self {
            LexError::UnexpectedChar { at, .. } => at as nat,
            LexError::LiteralTooLarge { at } => at as nat,
        }
    }
}

/// The first index from `pos` on that holds no decimal digit.
pub open spec fn digits_end(cs: Seq<char>, pos: int) -> int
    decreases cs.len() - pos,
{
    if 0 <= pos < cs.len() && is_digit_char(cs[pos]) {
        digits_end(cs, pos + 1)
    } else {
        pos
    }
}

/// The first index from `pos` on that holds no identifier character.
pub open spec fn word_end(cs: Seq<char>, pos: int) -> int
    decreases cs.len() - pos,
{
    if 0 <= pos < cs.len() && is_word_char(cs[pos]) {
        word_end(cs, pos + 1)
    } else {
        pos
    }
}

/// The token that a scanned word stands for: a reserved word, or else an
/// identifier of that name.
pub open spec fn classify(word: Seq<char>) -> TokenView {
    if word == "return"@ {
        TokenView::Return
    } else if word == "if"@ {
        TokenView::If
    } else if word == "else"@ {
        TokenView::Else
    } else if word == "while"@ {
        TokenView::While
    } else if word == "for"@ {
        TokenView::For
    } else {
        TokenView::Identifier(word)
    }
}

/// The token that a single punctuation character stands for, whatever
/// follows it.
pub open spec fn punctuation(c: char) -> Option<TokenView> {
    if c == '+' {
        Some(TokenView::Plus)
    } else if c == '-' {
        Some(TokenView::Minus)
    } else if c == '*' {
        Some(TokenView::Multiply)
    } else if c == '/' {
        Some(TokenView::Divide)
    } else if c == '(' {
        Some(TokenView::LeftParen)
    } else if c == ')' {
        Some(TokenView::RightParen)
    } else if c == '{' {
        Some(TokenView::LeftBrace)
    } else if c == '}' {
        Some(TokenView::RightBrace)
    } else if c == ';' {
        Some(TokenView::Semicolon)
    } else {
        None
    }
}

/// The token that starts at index `pos`, which holds no whitespace, together
/// with the index just behind it.
pub open spec fn next_token(cs: Seq<char>, pos: int) -> Result<(TokenView, int), LexError>
    recommends
        0 <= pos < cs.len(),
{
    let c = cs[pos];
    let eq_follows = pos + 1 < cs.len() && cs[pos + 1] == '=';
    if is_digit_char(c) {
        let end = digits_end(cs, pos);
        let value = digits_value(cs.subrange(pos, end));
        if value <= u32::MAX {
            Ok((TokenView::Num(value as u32), end))
        } else {
            Err(LexError::LiteralTooLarge { at: pos as usize })
        }
    } else if punctuation(c) is Some {
        Ok((punctuation(c)->0, pos + 1))
    } else if c == '=' {
        if eq_follows {
            Ok((TokenView::Equal, pos + 2))
        } else {
            Ok((TokenView::Assign, pos + 1))
        }
    } else if c == '!' {
        if eq_follows {
            Ok((TokenView::NotEqual, pos + 2))
        } else {
            Err(LexError::UnexpectedChar { at: pos as usize, found: c })
        }
    } else if c == '<' {
        if eq_follows {
            Ok((TokenView::LessThanOrEqual, pos + 2))
        } else {
            Ok((TokenView::LessThan, pos + 1))
        }
    } else if c == '>' {
        if eq_follows {
            Ok((TokenView::GreaterThanOrEqual, pos + 2))
        } else {
            Ok((TokenView::GreaterThan, pos + 1))
        }
    } else if unicode_alphabetic(c) {
        let end = word_end(cs, pos + 1);
        Ok((classify(cs.subrange(pos, end)), end))
    } else {
        Err(LexError::UnexpectedChar { at: pos as usize, found: c })
    }
}

/// `acc` followed by the tokens of `rest`, or the error of `rest`.
pub open spec fn prepend(acc: Seq<TokenView>, rest: Result<Seq<TokenView>, LexError>) -> Result<
    Seq<TokenView>,
    LexError,
> {
    match rest {
        Ok(tokens) => Ok(acc + tokens),
        Err(e) => Err(e),
    }
}

/// No tokens before the rest are the rest.
pub proof fn lemma_prepend_nothing(rest: Result<Seq<TokenView>, LexError>)
    ensures
        prepend(Seq::empty(), rest) == rest,
{
    match rest {
        Ok(tokens) => {
            assert(Seq::<TokenView>::empty() + tokens =~= tokens);
        },
        Err(_) => {},
    }
}

/// Tokens before the tokens before the rest are tokens before the rest.
pub proof fn lemma_prepend_twice(
    a: Seq<TokenView>,
    b: Seq<TokenView>,
    rest: Result<Seq<TokenView>, LexError>,
)
    ensures
        prepend(a, prepend(b, rest)) == prepend(a + b, rest),
{
    match rest {
        Ok(tokens) => {
            assert(a + (b + tokens) =~= (a + b) + tokens);
        },
        Err(_) => {},
    }
}

/// The tokens of `cs` from index `pos` on, closed by the end-of-input marker,
/// or the first lexical error.
pub open spec fn lex(cs: Seq<char>, pos: int) -> Result<Seq<TokenView>, LexError>
    decreases cs.len() - pos,
{
    if pos < 0 || pos >= cs.len() {
        Ok(seq![TokenView::EOF])
    } else if is_white_space(cs[pos]) {
        lex(cs, pos + 1)
    } else {
        match next_token(cs, pos) {
            Err(e) => Err(e),
            Ok((token, next)) => if pos < next <= cs.len() {
                prepend(seq![token], lex(cs, next))
            } else {
                Ok(seq![token, TokenView::EOF])
            },
        }
    }
}

/// A run of digits ends at or behind its start, inside the text.
pub proof fn lemma_digits_end_bounds(cs: Seq<char>, pos: int)
    requires
        0 <= pos <= cs.len(),
    ensures
        pos <= digits_end(cs, pos) <= cs.len(),
        forall|i: int| pos <= i < digits_end(cs, pos) ==> is_digit_char(#[trigger] cs[i]),
        digits_end(cs, pos) < cs.len() ==> !is_digit_char(cs[digits_end(cs, pos)]),
    decreases cs.len() - pos,
{
    if pos < cs.len() && is_digit_char(cs[pos]) {
        lemma_digits_end_bounds(cs, pos + 1);
    }
}

/// A run of identifier characters ends at or behind its start, inside the
/// text.
pub proof fn lemma_word_end_bounds(cs: Seq<char>, pos: int)
    requires
        0 <= pos <= cs.len(),
    ensures
        pos <= word_end(cs, pos) <= cs.len(),
        forall|i: int| pos <= i < word_end(cs, pos) ==> is_word_char(#[trigger] cs[i]),
        word_end(cs, pos) < cs.len() ==> !is_word_char(cs[word_end(cs, pos)]),
    decreases cs.len() - pos,
{
    if pos < cs.len() && is_word_char(cs[pos]) {
        lemma_word_end_bounds(cs, pos + 1);
    }
}

/// Every token is at least one character long and ends inside the text.
pub proof fn lemma_next_token_advances(cs: Seq<char>, pos: int)
    requires
        0 <= pos < cs.len(),
    ensures
        next_token(cs, pos) matches Ok((_, next)) ==> pos < next <= cs.len(),
{
    lemma_digits_end_bounds(cs, pos);
    lemma_word_end_bounds(cs, pos + 1);
}

/// The tokens of a text end with the end-of-input marker, and hold it
/// nowhere else.
pub proof fn lemma_lex_ends_with_marker(cs: Seq<char>, pos: int)
    ensures
        lex(cs, pos) matches Ok(tokens) ==> {
            &&& tokens.len() >= 1
            &&& tokens.last() == TokenView::EOF
            &&& forall|i: int| 0 <= i < tokens.len() - 1 ==> tokens[i] != TokenView::EOF
        },
    decreases cs.len() - pos,
{
    if pos < 0 || pos >= cs.len() {
    } else if is_white_space(cs[pos]) {
        lemma_lex_ends_with_marker(cs, pos + 1);
    } else {
        lemma_next_token_advances(cs, pos);
        match next_token(cs, pos) {
            Err(_) => {},
            Ok((token, next)) => {
                lemma_lex_ends_with_marker(cs, next);
                match lex(cs, next) {
                    Ok(rest) => {
                        let tokens = seq![token] + rest;
                        assert(tokens.last() == rest.last());
                        assert forall|i: int| 0 <= i < tokens.len() - 1 implies tokens[i]
                            != TokenView::EOF by {
                            if i > 0 {
                                assert(tokens[i] == rest[i - 1]);
                            }
                        }
                    },
                    Err(_) => {},
                }
            },
        }
    }
}

/// Where a text has no tokens, the error names the place: the index of a
/// character of the text, at or behind the start, which is the character
/// that the error holds or the first digit of the number that is too large.
/// Whitespace is never an error.
pub proof fn lemma_lex_error_place(cs: Seq<char>, pos: int)
    requires
        0 <= pos,
        cs.len() <= usize::MAX,
    ensures
        lex(cs, pos) matches Err(e) ==> {
            &&& pos <= e.position() < cs.len()
            &&& !is_white_space(cs[e.position() as int])
            &&& match e {
                LexError::UnexpectedChar { at, found } => cs[at as int] == found
                    && !is_digit_char(found) && punctuation(found) is None,
                LexError::LiteralTooLarge { at } => is_digit_char(cs[at as int]) && digits_value(
                    cs.subrange(at as int, digits_end(cs, at as int)),
                ) > u32::MAX,
            }
        },
    decreases cs.len() - pos,
{
    if pos >= cs.len() {
    } else if is_white_space(cs[pos]) {
        lemma_lex_error_place(cs, pos + 1);
    } else {
        lemma_next_token_advances(cs, pos);
        match next_token(cs, pos) {
            Err(e) => {
                assert(e.position() == pos);
            },
            Ok((token, next)) => {
                lemma_lex_error_place(cs, next);
            },
        }
    }
}

/// A longer run of digits denotes no smaller a number.
pub proof fn lemma_digits_value_monotonic(cs: Seq<char>, start: int, mid: int, end: int)
    requires
        0 <= start <= mid <= end <= cs.len(),
    ensures
        digits_value(cs.subrange(start, mid)) <= digits_value(cs.subrange(start, end)),
    decreases end - mid,
{
    if mid < end {
        lemma_digits_value_monotonic(cs, start, mid, end - 1);
        assert(cs.subrange(start, end).drop_last() =~= cs.subrange(start, end - 1));
        assert(digits_value(cs.subrange(start, end - 1)) * 10 >= digits_value(
            cs.subrange(start, end - 1),
        ));
    }
}

/// A forward cursor over the characters of a source text, with one
/// character of lookahead.
pub struct CharStream {
    chars: Vec<char>,
    pos: usize,
}

impl CharStream {
    #[verifier::type_invariant]
    spec fn in_bounds(&self) -> bool {
        self.pos <= self.chars.len()
    }

    /// The whole text, read or not.
    pub closed spec fn source(&self) -> Seq<char> {
        self.chars@
    }

    /// The index of the next character to be read.
    pub closed spec fn position(&self) -> nat {
        self.pos as nat
    }

    /// A cursor at the start of `text`.
    pub fn new(text: &str) -> (s: CharStream)
        ensures
            s.source() == text@,
            s.position() == 0,
            s.source().len() <= usize::MAX,
    {
        let mut chars: Vec<char> = Vec::new();
        for c in it: text.chars()
            invariant
                it.seq() == text@,
                chars@ == it.seq().take(it.index()),
        {
            chars.push(c);
        }
        CharStream { chars, pos: 0 }
    }

    /// The next character, which stays unread.
    pub fn peek(&self) -> (c: Option<char>)
        ensures
            self.position() <= self.source().len() <= usize::MAX,
            c == self.peek_spec(),
    {
        proof {
            use_type_invariant(self);
        }
        if self.pos < self.chars.len() {
            Some(self.chars[self.pos])
        } else {
            None
        }
    }

    /// Reads the next character.
    pub fn next(&mut self) -> (c: Option<char>)
        ensures
            final(self).source() == old(self).source(),
            old(self).position() <= old(self).source().len(),
            c == old(self).peek_spec(),
            final(self).position() == if c is Some {
                old(self).position() + 1
            } else {
                old(self).position()
            },
    {
        proof {
            use_type_invariant(&*self);
        }
        if self.pos < self.chars.len() {
            let c = self.chars[self.pos];
            self.pos = self.pos + 1;
            Some(c)
        } else {
            None
        }
    }

    /// What `peek` returns.
    pub open spec fn peek_spec(&self) -> Option<char> {
        if self.position() < self.source().len() {
            Some(self.source()[self.position() as int])
        } else {
            None
        }
    }
}

/// Whether the next character is a decimal digit; `None` at the end of the
/// text.
pub fn is_digit(iter: &CharStream) -> (r: Option<bool>)
    ensures
        r == match iter.peek_spec() {
            Some(c) => Some(is_digit_char(c)),
            None => None,
        },
{
    match iter.peek() {
        Some(c) => Some(is_decimal_digit(c)),
        None => None,
    }
}

/// The number that the longest run of digits at the cursor denotes, if there
/// is such a run and the number fits in 32 bits.
pub open spec fn number_at(cs: Seq<char>, pos: int) -> Option<u32> {
    let end = digits_end(cs, pos);
    let value = digits_value(cs.subrange(pos, end));
    if pos < end && value <= u32::MAX {
        Some(value as u32)
    } else {
        None
    }
}

/// Reads the longest run of decimal digits at the cursor as one number.
///
/// Returns `None`, and reads nothing, where the cursor is not at a digit or
/// the number does not fit in 32 bits.
pub fn str_to_u(iter: &mut CharStream) -> (r: Option<u32>)
    ensures
        final(iter).source() == old(iter).source(),
        r == number_at(old(iter).source(), old(iter).position() as int),
        final(iter).position() == if r is Some {
            digits_end(old(iter).source(), old(iter).position() as int)
        } else {
            old(iter).position() as int
        },
{
    proof {
        use_type_invariant(&*iter);
    }
    let start: usize = iter.pos;
    let ghost cs = iter.chars@;
    let mut pos: usize = start;
    let mut result: u32 = 0;
    proof {
        assert(cs.subrange(start as int, start as int) =~= Seq::<char>::empty());
        lemma_digits_end_bounds(cs, start as int);
    }
    while pos < iter.chars.len() && is_decimal_digit(iter.chars[pos])
        invariant
            iter.chars@ == cs,
            iter.pos == start,
            start <= pos <= cs.len(),
            digits_end(cs, start as int) == digits_end(cs, pos as int),
            result == digits_value(cs.subrange(start as int, pos as int)),
        decreases cs.len() - pos,
    {
        let d: u32 = to_digit(iter.chars[pos]);
        proof {
            assert(cs.subrange(start as int, pos + 1).drop_last() =~= cs.subrange(
                start as int,
                pos as int,
            ));
            lemma_digits_end_bounds(cs, pos as int + 1);
            lemma_digits_value_monotonic(
                cs,
                start as int,
                pos + 1,
                digits_end(cs, start as int),
            );
        }
        if result > (u32::MAX - d) / 10 {
            return None;
        }
        result = 10 * result + d;
        pos = pos + 1;
    }
    if pos == start {
        None
    } else {
        iter.pos = pos;
        Some(result)
    }
}

/// The token for a single punctuation character.
fn punctuation_token(c: char) -> (t: Option<Token>)
    ensures
        match t {
            Some(t) => punctuation(c) == Some(t@),
            None => punctuation(c) is None,
        },
{
    if c == '+' {
        Some(Token::Plus)
    } else if c == '-' {
        Some(Token::Minus)
    } else if c == '*' {
        Some(Token::Multiply)
    } else if c == '/' {
        Some(Token::Divide)
    } else if c == '(' {
        Some(Token::LeftParen)
    } else if c == ')' {
        Some(Token::RightParen)
    } else if c == '{' {
        Some(Token::LeftBrace)
    } else if c == '}' {
        Some(Token::RightBrace)
    } else if c == ';' {
        Some(Token::Semicolon)
    } else {
        None
    }
}

/// The token for a scanned word.
fn word_token(word: String) -> (t: Token)
    ensures
        t@ == classify(word@),
{
    if word == "return".to_owned() {
        Token::Return
    } else if word == "if".to_owned() {
        Token::If
    } else if word == "else".to_owned() {
        Token::Else
    } else if word == "while".to_owned() {
        Token::While
    } else if word == "for".to_owned() {
        Token::For
    } else {
        Token::Identifier(Box::new(word))
    }
}

/// The token of one or two characters that starts with `c`, one of `=`, `!`,
/// `<` and `>`, where `eq_follows` says whether the next character is `=`.
fn operator_token(c: char, eq_follows: bool) -> (t: Option<Token>)
    requires
        c == '=' || c == '!' || c == '<' || c == '>',
    ensures
        t is None <==> c == '!' && !eq_follows,
        match t {
            Some(t) => t@ == if c == '=' {
                if eq_follows {
                    TokenView::Equal
                } else {
                    TokenView::Assign
                }
            } else if c == '!' {
                TokenView::NotEqual
            } else if c == '<' {
                if eq_follows {
                    TokenView::LessThanOrEqual
                } else {
                    TokenView::LessThan
                }
            } else {
                if eq_follows {
                    TokenView::GreaterThanOrEqual
                } else {
                    TokenView::GreaterThan
                }
            },
            None => true,
        },
{
    if c == '=' {
        if eq_follows {
            Some(Token::Equal)
        } else {
            Some(Token::Assign)
        }
    } else if c == '!' {
        if eq_follows {
            Some(Token::NotEqual)
        } else {
            None
        }
    } else if c == '<' {
        if eq_follows {
            Some(Token::LessThanOrEqual)
        } else {
            Some(Token::LessThan)
        }
    } else {
        if eq_follows {
            Some(Token::GreaterThanOrEqual)
        } else {
            Some(Token::GreaterThan)
        }
    }
}

/// Reads the word that starts at the cursor, which is at a letter.
fn scan_word(iter: &mut CharStream) -> (word: String)
    requires
        old(iter).position() < old(iter).source().len(),
    ensures
        final(iter).source() == old(iter).source(),
        final(iter).position() == word_end(old(iter).source(), old(iter).position() as int + 1),
        word@ == old(iter).source().subrange(
            old(iter).position() as int,
            final(iter).position() as int,
        ),
{
    proof {
        use_type_invariant(&*iter);
    }
    let start: usize = iter.pos;
    let ghost cs = iter.chars@;
    let mut word = String::new();
    word.push(iter.chars[start]);
    let mut pos: usize = start + 1;
    proof {
        assert(cs.subrange(start as int, start + 1) =~= seq![cs[start as int]]);
    }
    while pos < iter.chars.len() && Token::is_almum(iter.chars[pos])
        invariant
            iter.chars@ == cs,
            iter.pos == start,
            start < pos <= cs.len(),
            word_end(cs, start + 1) == word_end(cs, pos as int),
            word@ == cs.subrange(start as int, pos as int),
        decreases cs.len() - pos,
    {
        word.push(iter.chars[pos]);
        proof {
            assert(cs.subrange(start as int, pos + 1) =~= cs.subrange(
                start as int,
                pos as int,
            ).push(cs[pos as int]));
        }
        pos = pos + 1;
    }
    iter.pos = pos;
    word
}

/// Turns the rest of a source text into its tokens, closed by the
/// end-of-input marker.
///
/// Whitespace separates tokens and is dropped. On success the whole text has
/// been read. On an error the cursor stands at the character that the error
/// names, which is a character of the text, and no token is handed out.
pub fn tokenize(iter: &mut CharStream) -> (r: Result<Vec<Token>, LexError>)
    ensures
        final(iter).source() == old(iter).source(),
        match r {
            Ok(tokens) => {
                &&& lex(old(iter).source(), old(iter).position() as int) == Ok::<
                    Seq<TokenView>,
                    LexError,
                >(token_views(tokens@))
                &&& final(iter).position() == old(iter).source().len()
            },
            Err(e) => {
                &&& lex(old(iter).source(), old(iter).position() as int) == Err::<
                    Seq<TokenView>,
                    LexError,
                >(e)
                &&& final(iter).position() == e.position()
                &&& old(iter).position() <= e.position() < old(iter).source().len()
                &&& e matches LexError::UnexpectedChar { found, .. } ==> final(iter).peek_spec()
                    == Some(found)
            },
        },
        old(iter).position() <= old(iter).source().len() <= usize::MAX,
{
    proof {
        use_type_invariant(&*iter);
    }
    let ghost cs = iter.chars@;
    let ghost origin = iter.pos as int;
    let mut tokens: Vec<Token> = Vec::new();
    proof {
        assert(token_views(tokens@) =~= Seq::<TokenView>::empty());
        lemma_prepend_nothing(lex(cs, origin));
    }
    while iter.pos < iter.chars.len()
        invariant
            cs == old(iter).chars@,
            origin == old(iter).pos,
            iter.chars@ == cs,
            origin <= iter.pos <= cs.len(),
            lex(cs, origin) == prepend(token_views(tokens@), lex(cs, iter.pos as int)),
        decreases cs.len() - iter.pos,
    {
        let start: usize = iter.pos;
        let c: char = iter.chars[start];
        let ghost seen = token_views(tokens@);
        proof {
            lemma_next_token_advances(cs, start as int);
        }
        if is_whitespace(c) {
            iter.pos = start + 1;
            continue ;
        }
        let eq_follows: bool = start + 1 < iter.chars.len() && iter.chars[start + 1] == '=';
        let token: Token = if is_decimal_digit(c) {
            match str_to_u(iter) {
                Some(n) => Token::Num(n),
                None => {
                    return Err(LexError::LiteralTooLarge { at: start });
                },
            }
        } else if let Some(t) = punctuation_token(c) {
            iter.pos = start + 1;
            t
        } else if c == '=' || c == '!' || c == '<' || c == '>' {
            match operator_token(c, eq_follows) {
                Some(t) => {
                    iter.pos = if eq_follows {
                        start + 2
                    } else {
                        start + 1
                    };
                    t
                },
                None => {
                    return Err(LexError::UnexpectedChar { at: start, found: c });
                },
            }
        } else if c.is_alphabetic() {
            let word = scan_word(iter);
            word_token(word)
        } else {
            return Err(LexError::UnexpectedChar { at: start, found: c });
        };
        proof {
            let next = iter.pos as int;
            assert(next_token(cs, start as int) == Ok::<(TokenView, int), LexError>(
                (token@, next),
            ));
            assert(token_views(tokens@.push(token)) =~= seen.push(token@));
            lemma_prepend_twice(seen, seq![token@], lex(cs, next));
            assert(seen + seq![token@] =~= seen.push(token@));
        }
        tokens.push(token);
    }
    proof {
        assert(token_views(tokens@.push(Token::EOF)) =~= token_views(tokens@) + seq![
            TokenView::EOF,
        ]);
    }
    tokens.push(Token::EOF);
    Ok(tokens)
}

/// A forward cursor over a token sequence, with one token of lookahead.
pub struct TokenStream {
    tokens: Vec<Token>,
    pos: usize,
}

impl TokenStream {
    #[verifier::type_invariant]
    spec fn in_bounds(&self) -> bool {
        self.pos <= self.tokens.len()
    }

    /// All the tokens, read or not.
    pub closed spec fn tokens(&self) -> Seq<TokenView> {
        token_views(self.tokens@)
    }

    /// The index of the next token to be read.
    pub closed spec fn position(&self) -> nat {
        self.pos as nat
    }

    /// The next token, if one is left.
    pub open spec fn peek_spec(&self) -> Option<TokenView> {
        if self.position() < self.tokens().len() {
            Some(self.tokens()[self.position() as int])
        } else {
            None
        }
    }

    /// A cursor at the first of `tokens`.
    pub fn new(tokens: Vec<Token>) -> (s: TokenStream)
        ensures
            s.tokens() == token_views(tokens@),
            s.position() == 0,
    {
        TokenStream { tokens, pos: 0 }
    }

    /// The number of tokens, read or not.
    pub fn len(&self) -> (n: usize)
        ensures
            n == self.tokens().len(),
            self.position() <= n,
    {
        proof {
            use_type_invariant(self);
        }
        self.tokens.len()
    }

    /// The next token, which stays unread.
    pub fn peek(&self) -> (t: Option<&Token>)
        ensures
            self.position() <= self.tokens().len(),
            match t {
                Some(t) => self.peek_spec() == Some(t@),
                None => self.peek_spec() is None,
            },
    {
        proof {
            use_type_invariant(self);
        }
        if self.pos < self.tokens.len() {
            Some(&self.tokens[self.pos])
        } else {
            None
        }
    }

    /// Reads the next token.
    pub fn next(&mut self) -> (t: Option<&Token>)
        ensures
            final(self).tokens() == old(self).tokens(),
            old(self).position() <= old(self).tokens().len(),
            match t {
                Some(t) => old(self).peek_spec() == Some(t@) && final(self).position() == old(
                    self,
                ).position() + 1,
                None => old(self).peek_spec() is None && final(self).position() == old(
                    self,
                ).position(),
            },
    {
        proof {
            use_type_invariant(&*self);
        }
        if self.pos < self.tokens.len() {
            self.pos = self.pos + 1;
            Some(&self.tokens[self.pos - 1])
        } else {
            None
        }
    }
}

/// Reads one token and hands out its value if it is a number.
///
/// The token is read whatever it is; at the end of the tokens nothing is
/// read.
pub fn expect_number(tokens: &mut TokenStream) -> (r: Option<u32>)
    ensures
        final(tokens).tokens() == old(tokens).tokens(),
        r == match old(tokens).peek_spec() {
            Some(TokenView::Num(n)) => Some(n),
            _ => None,
        },
        final(tokens).position() == if old(tokens).peek_spec() is Some {
            old(tokens).position() + 1
        } else {
            old(tokens).position()
        },
{
    match tokens.next() {
        Some(Token::Num(n)) => Some(*n),
        _ => None,
    }
}

/// Reads the next token if it equals `consuing_token`, and says whether it
/// did. Any other token stays unread.
pub fn consume(tokens: &mut TokenStream, consuing_token: Token) -> (r: Option<()>)
    ensures
        final(tokens).tokens() == old(tokens).tokens(),
        r is Some <==> old(tokens).peek_spec() == Some(consuing_token@),
        final(tokens).position() == if r is Some {
            old(tokens).position() + 1
        } else {
            old(tokens).position()
        },
{
    let matched: bool = match tokens.peek() {
        Some(token) => *token == consuing_token,
        None => false,
    };
    if matched {
        let _ = tokens.next();
        Some(())
    } else {
        None
    }
}

} // verus!
