use vstd::prelude::*;

use crate::text::{
    alphabetic, alphanumeric, char_is_alphabetic, char_is_alphanumeric, char_is_digit, is_digit,
    push_char,
};
use crate::tokens::{keyword_of, Token, TokenView};

verus! {

/// The character that stands for the end of the input.
pub const EOF: char = '\0';

/// Why a piece of source text is not a token.
#[derive(Debug, Clone, Copy, PartialEq, Eq, Structural)]
pub enum LexError {
    /// `!` that is not followed by `=`.
    BadBang,
    /// A character that a string literal may not hold.
    IllegalStringChar(char),
    /// A string literal that the input ends inside.
    UnterminatedString,
    /// A decimal point that no digit follows; holds the character after the point.
    MalformedNumber(char),
    /// A character that starts no token.
    UnknownChar(char),
}

/// The character at `i`, or the end marker past either end.
pub open spec fn char_at(s: Seq<char>, i: int) -> char {
    if 0 <= i < s.len() {
        s[i]
    } else {
        EOF
    }
}

pub open spec fn is_blank(c: char) -> bool {
    c == ' ' || c == '\t' || c == '\r'
}

pub open spec fn forbidden_in_string(c: char) -> bool {
    c == '\r' || c == '\n' || c == '\t' || c == '\\' || c == '%'
}

/// The first position at or after `i` that holds no blank.
pub open spec fn skip_blanks(s: Seq<char>, i: int) -> int
    decreases s.len() - i,
{
    if 0 <= i < s.len() && is_blank(s[i]) {
        skip_blanks(s, i + 1)
    } else {
        i
    }
}

/// The first position at or after `i` that holds a line feed, or the end.
pub open spec fn line_end(s: Seq<char>, i: int) -> int
    decreases s.len() - i,
{
    if 0 <= i < s.len() && s[i] != '\n' {
        line_end(s, i + 1)
    } else {
        i
    }
}

/// The first position at or after `i` that holds no digit.
pub open spec fn digits_end(s: Seq<char>, i: int) -> int
    decreases s.len() - i,
{
    if 0 <= i < s.len() && is_digit(s[i]) {
        digits_end(s, i + 1)
    } else {
        i
    }
}

/// The first position at or after `i` that holds no alphanumeric character.
pub open spec fn word_end(s: Seq<char>, i: int) -> int
    decreases s.len() - i,
{
    if 0 <= i < s.len() && alphanumeric(s[i]) {
        word_end(s, i + 1)
    } else {
        i
    }
}

/// The first position at or after `i` that ends a string literal's text:
/// a quote, a character that a literal may not hold, or the end.
pub open spec fn string_end(s: Seq<char>, i: int) -> int
    decreases s.len() - i,
{
    if 0 <= i < s.len() && s[i] != '"' && !forbidden_in_string(s[i]) {
        string_end(s, i + 1)
    } else {
        i
    }
}

/// Where the next token starts: after blanks, and after a comment up to its line feed.
pub open spec fn token_start(s: Seq<char>, i: int) -> int {
    let j = skip_blanks(s, i);
    if char_at(s, j) == '#' {
        line_end(s, j)
    } else {
        j
    }
}

/// An operator that has a second form when `=` follows it.
pub open spec fn with_eq(s: Seq<char>, k: int, one: TokenView, two: TokenView) -> (Result<
    TokenView,
    LexError,
>, int) {
    if k + 1 >= s.len() {
        (Ok(TokenView::Eof), k + 1)
    } else if s[k + 1] == '=' {
        (Ok(two), k + 2)
    } else {
        (Ok(one), k + 1)
    }
}

/// A word: a keyword if it spells one, else an identifier.
pub open spec fn word_token(w: Seq<char>) -> TokenView {
    match keyword_of(w) {
        Some(t) => t,
        None => TokenView::Ident(w),
    }
}

/// The next token of `s` from position `i`, and the position after it.
pub open spec fn lex_step(s: Seq<char>, i: int) -> (Result<TokenView, LexError>, int) {
    let k = token_start(s, i);
    let c = char_at(s, k);
    if c == '+' {
        (Ok(TokenView::Plus), k + 1)
    } else if c == '-' {
        (Ok(TokenView::Minus), k + 1)
    } else if c == '*' {
        (Ok(TokenView::Asterisk), k + 1)
    } else if c == '/' {
        (Ok(TokenView::Slash), k + 1)
    } else if c == '=' {
        with_eq(s, k, TokenView::Eq, TokenView::Eqeq)
    } else if c == '>' {
        with_eq(s, k, TokenView::Gt, TokenView::Gteq)
    } else if c == '<' {
        with_eq(s, k, TokenView::Lt, TokenView::Lteq)
    } else if c == '!' {
        if k + 1 < s.len() && s[k + 1] == '=' {
            (Ok(TokenView::Noteq), k + 2)
        } else {
            (Err(LexError::BadBang), k)
        }
    } else if c == '"' {
        let e = string_end(s, k + 1);
        if e >= s.len() {
            (Err(LexError::UnterminatedString), e)
        } else if s[e] == '"' {
            (Ok(TokenView::Str(s.subrange(k + 1, e))), e + 1)
        } else {
            (Err(LexError::IllegalStringChar(s[e])), e)
        }
    } else if is_digit(c) {
        let d = digits_end(s, k + 1);
        if char_at(s, d) == '.' {
            if is_digit(char_at(s, d + 1)) {
                let e = digits_end(s, d + 1);
                (Ok(TokenView::Number(s.subrange(k, e))), e)
            } else {
                (Err(LexError::MalformedNumber(char_at(s, d + 1))), d)
            }
        } else {
            (Ok(TokenView::Number(s.subrange(k, d))), d)
        }
    } else if c == '\n' {
        (Ok(TokenView::Newline), k + 1)
    } else if k >= s.len() {
        (Ok(TokenView::Eof), k)
    } else if alphabetic(c) {
        let e = word_end(s, k + 1);
        (Ok(word_token(s.subrange(k, e))), e)
    } else {
        (Err(LexError::UnknownChar(c)), k)
    }
}

/// The first `n` tokens of `s` from position `i`, and the position after them,
/// if each of them lexes.
pub open spec fn lex_tokens(s: Seq<char>, i: int, n: nat) -> Option<(Seq<TokenView>, int)>
    decreases n,
{
    if n == 0 {
        Some((Seq::<TokenView>::empty(), i))
    } else {
        match lex_tokens(s, i, (n - 1) as nat) {
            Some((ts, p)) => match lex_step(s, p) {
                (Ok(t), q) => Some((ts.push(t), q)),
                _ => None,
            },
            None => None,
        }
    }
}

proof fn lemma_scan_bounds(s: Seq<char>, i: int)
    requires
        0 <= i <= s.len(),
    ensures
        i <= skip_blanks(s, i) <= s.len(),
        i <= line_end(s, i) <= s.len(),
        i <= digits_end(s, i) <= s.len(),
        i <= word_end(s, i) <= s.len(),
        i <= string_end(s, i) <= s.len(),
    decreases s.len() - i,
{
    if i < s.len() {
        lemma_scan_bounds(s, i + 1);
    }
}

/// Lexing never moves back, and each token but the end of input moves forward.
pub proof fn lemma_lex_progress(s: Seq<char>, i: int)
    requires
        0 <= i <= s.len(),
    ensures
        match lex_step(s, i) {
            (Ok(t), q) => i <= q <= s.len() && (!(t is Eof) ==> i < q),
            _ => true,
        },
{
    lemma_scan_bounds(s, i);
    let j = skip_blanks(s, i);
    lemma_scan_bounds(s, j);
    let k = token_start(s, i);
    if k + 1 <= s.len() {
        lemma_scan_bounds(s, k + 1);
        let d = digits_end(s, k + 1);
        if d + 1 <= s.len() {
            lemma_scan_bounds(s, d + 1);
        }
    }
}

/// `!` lexes only as the start of `!=`; and `==`, `>=`, `<=` and `!=` each
/// lex as one token of both characters, never as two tokens.
pub proof fn lemma_two_character_operators(s: Seq<char>, i: int)
    ensures
        ({
            let k = token_start(s, i);
            &&& char_at(s, k) == '!' && char_at(s, k + 1) != '=' ==> lex_step(s, i).0 == Err::<
                TokenView,
                LexError,
            >(LexError::BadBang)
            &&& char_at(s, k) == '!' && char_at(s, k + 1) == '=' ==> lex_step(s, i) == (
            Ok::<TokenView, LexError>(TokenView::Noteq), k + 2)
            &&& char_at(s, k) == '=' && char_at(s, k + 1) == '=' ==> lex_step(s, i) == (
            Ok::<TokenView, LexError>(TokenView::Eqeq), k + 2)
            &&& char_at(s, k) == '>' && char_at(s, k + 1) == '=' ==> lex_step(s, i) == (
            Ok::<TokenView, LexError>(TokenView::Gteq), k + 2)
            &&& char_at(s, k) == '<' && char_at(s, k + 1) == '=' ==> lex_step(s, i) == (
            Ok::<TokenView, LexError>(TokenView::Lteq), k + 2)
        }),
{
}

/// A forward cursor over the characters of a source text.
pub struct Lexer {
    chars: Vec<char>,
    pos: usize,
}

impl Lexer {
    /// The characters of the source text.
    pub closed spec fn source(&self) -> Seq<char> {
        self.chars@
    }

    /// The position of the current character; the length of the source at its end.
    pub closed spec fn position(&self) -> int {
        self.pos as int
    }

    pub open spec fn wf(&self) -> bool {
        &&& 0 <= self.position() <= self.source().len()
        &&& self.source().len() < usize::MAX
    }

    /// A lexer at the first character of `source`.
    pub fn new(source: &str) -> (r: Self)
        requires
            source@.len() < usize::MAX,
        ensures
            r.wf(),
            r.source() == source@,
            r.position() == 0,
    {
        let mut chars: Vec<char> = Vec::new();
        for c in it: source.chars()
            invariant
                chars@ == it.seq().take(it.index() as int),
        {
            chars.push(c);
        }
        Lexer { chars, pos: 0 }
    }

    /// The current character, or the end marker.
    fn cur_char(&self) -> (r: char)
        requires
            self.wf(),
        ensures
            r == char_at(self.source(), self.position()),
    {
        if self.pos < self.chars.len() {
            self.chars[self.pos]
        } else {
            EOF
        }
    }

    /// The character after the current one, if there is one.
    fn peek(&self) -> (r: Option<char>)
        requires
            self.wf(),
        ensures
            r == (if self.position() + 1 < self.source().len() {
                Some(self.source()[self.position() + 1])
            } else {
                None::<char>
            }),
    {
        if self.pos + 1 < self.chars.len() {
            Some(self.chars[self.pos + 1])
        } else {
            None
        }
    }

    /// The character after the current one, or the end marker.
    fn peek_or_eof(&self) -> (r: char)
        requires
            self.wf(),
        ensures
            r == char_at(self.source(), self.position() + 1),
    {
        match self.peek() {
            Some(c) => c,
            None => EOF,
        }
    }

    /// Moves to the next character; stays put at the end.
    pub fn advance_pointer(&mut self)
        requires
            old(self).wf(),
        ensures
            final(self).wf(),
            final(self).source() == old(self).source(),
            final(self).position() == if old(self).position() < old(self).source().len() {
                old(self).position() + 1
            } else {
                old(self).position()
            },
    {
        if self.pos < self.chars.len() {
            self.pos = self.pos + 1;
        }
    }

    fn skip_whitespace(&mut self)
        requires
            old(self).wf(),
        ensures
            final(self).wf(),
            final(self).source() == old(self).source(),
            final(self).position() == skip_blanks(old(self).source(), old(self).position()),
    {
        while self.pos < self.chars.len() && (self.chars[self.pos] == ' ' || self.chars[self.pos]
            == '\t' || self.chars[self.pos] == '\r')
            invariant
                self.wf(),
                self.source() == old(self).source(),
                skip_blanks(self.source(), self.position()) == skip_blanks(
                    old(self).source(),
                    old(self).position(),
                ),
            decreases self.source().len() - self.position(),
        {
            self.advance_pointer();
        }
    }

    /// Skips a comment up to the line feed that ends it, or to the end of the input.
    fn skip_comment(&mut self)
        requires
            old(self).wf(),
        ensures
            final(self).wf(),
            final(self).source() == old(self).source(),
            final(self).position() == if char_at(old(self).source(), old(self).position())
                == '#' {
                line_end(old(self).source(), old(self).position())
            } else {
                old(self).position()
            },
    {
        if self.cur_char() == '#' {
            while self.pos < self.chars.len() && self.chars[self.pos] != '\n'
                invariant
                    self.wf(),
                    self.source() == old(self).source(),
                    line_end(self.source(), self.position()) == line_end(
                        old(self).source(),
                        old(self).position(),
                    ),
                decreases self.source().len() - self.position(),
            {
                self.advance_pointer();
            }
        }
    }

    /// The next token, and the cursor moved past it.
    pub fn get_next_token(&mut self) -> (r: Result<Token, LexError>)
        requires
            old(self).wf(),
        ensures
            final(self).wf(),
            final(self).source() == old(self).source(),
            match lex_step(old(self).source(), old(self).position()) {
                (Ok(t), q) => r is Ok && r->Ok_0@ == t && final(self).position() == q,
                (Err(e), _) => r == Err::<Token, LexError>(e),
            },
    {
        self.skip_whitespace();
        self.skip_comment();
        let ghost src = self.source();
        let ghost k = self.position();
        assert(k == token_start(src, old(self).position()));
        let c = self.cur_char();
        let result: Token = if c == '+' {
            Token::Plus
        } else if c == '-' {
            Token::Minus
        } else if c == '*' {
            Token::Asterisk
        } else if c == '/' {
            Token::Slash
        } else if c == '=' || c == '>' || c == '<' {
            match self.peek() {
                Some(n) => {
                    if n == '=' {
                        self.advance_pointer();
                        if c == '=' {
                            Token::Eqeq
                        } else if c == '>' {
                            Token::Gteq
                        } else {
                            Token::Lteq
                        }
                    } else if c == '=' {
                        Token::Eq
                    } else if c == '>' {
                        Token::Gt
                    } else {
                        Token::Lt
                    }
                },
                None => Token::Eof,
            }
        } else if c == '!' {
            match self.peek() {
                Some(n) => {
                    if n == '=' {
                        self.advance_pointer();
                        Token::Noteq
                    } else {
                        return Err(LexError::BadBang);
                    }
                },
                None => {
                    return Err(LexError::BadBang);
                },
            }
        } else if c == '"' {
            self.advance_pointer();
            let mut s = String::new();
            while self.pos < self.chars.len() && self.chars[self.pos] != '"' && !(self.chars[self.pos]
                == '\r' || self.chars[self.pos] == '\n' || self.chars[self.pos] == '\t'
                || self.chars[self.pos] == '\\' || self.chars[self.pos] == '%')
                invariant
                    self.wf(),
                    self.source() == src,
                    0 <= k,
                    k < src.len(),
                    k + 1 <= self.position() <= src.len(),
                    s@ == src.subrange(k + 1, self.position()),
                    string_end(src, self.position()) == string_end(src, k + 1),
                decreases src.len() - self.position(),
            {
                push_char(&mut s, self.chars[self.pos]);
                assert(s@ =~= src.subrange(k + 1, self.position() + 1));
                self.advance_pointer();
            }
            assert(string_end(src, self.position()) == self.position());
            if self.pos >= self.chars.len() {
                return Err(LexError::UnterminatedString);
            }
            let e = self.chars[self.pos];
            if e != '"' {
                return Err(LexError::IllegalStringChar(e));
            }
            Token::String(s)
        } else if char_is_digit(c) {
            let mut s = String::new();
            push_char(&mut s, c);
            assert(s@ =~= src.subrange(k, k + 1));
            while char_is_digit(self.peek_or_eof())
                invariant
                    self.wf(),
                    self.source() == src,
                    0 <= k,
                    k <= self.position() < src.len(),
                    s@ == src.subrange(k, self.position() + 1),
                    digits_end(src, self.position() + 1) == digits_end(src, k + 1),
                decreases src.len() - self.position(),
            {
                self.advance_pointer();
                push_char(&mut s, self.cur_char());
                assert(s@ =~= src.subrange(k, self.position() + 1));
            }
            let ghost d = self.position() + 1;
            assert(digits_end(src, d) == d);
            if self.peek_or_eof() == '.' {
                self.advance_pointer();
                push_char(&mut s, self.cur_char());
                assert(s@ =~= src.subrange(k, d + 1));
                let after = self.peek_or_eof();
                if !char_is_digit(after) {
                    return Err(LexError::MalformedNumber(after));
                }
                while char_is_digit(self.peek_or_eof())
                    invariant
                        self.wf(),
                        self.source() == src,
                        0 <= k,
                        k < d,
                        d <= self.position() < src.len(),
                        s@ == src.subrange(k, self.position() + 1),
                        digits_end(src, self.position() + 1) == digits_end(src, d + 1),
                    decreases src.len() - self.position(),
                {
                    self.advance_pointer();
                    push_char(&mut s, self.cur_char());
                    assert(s@ =~= src.subrange(k, self.position() + 1));
                }
                assert(digits_end(src, self.position() + 1) == self.position() + 1);
            }
            Token::Number(s)
        } else if c == '\n' {
            Token::Newline
        } else if self.pos >= self.chars.len() {
            Token::Eof
        } else if char_is_alphabetic(c) {
            let mut s = String::new();
            push_char(&mut s, c);
            assert(s@ =~= src.subrange(k, k + 1));
            while self.pos + 1 < self.chars.len() && char_is_alphanumeric(self.chars[self.pos + 1])
                invariant
                    self.wf(),
                    self.source() == src,
                    0 <= k,
                    k <= self.position() < src.len(),
                    s@ == src.subrange(k, self.position() + 1),
                    word_end(src, self.position() + 1) == word_end(src, k + 1),
                decreases src.len() - self.position(),
            {
                self.advance_pointer();
                push_char(&mut s, self.chars[self.pos]);
                assert(s@ =~= src.subrange(k, self.position() + 1));
            }
            assert(word_end(src, self.position() + 1) == self.position() + 1);
            match Token::is_keyword(s.as_str()) {
                Some(t) => t,
                None => Token::Ident(s),
            }
        } else {
            return Err(LexError::UnknownChar(c));
        };
        self.advance_pointer();
        Ok(result)
    }
}

} // verus!
