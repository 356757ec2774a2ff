use vstd::prelude::*;

verus! {

/// One lexical unit of the source language.
#[derive(Debug, Clone, PartialEq)]
pub enum Token {
    Eof,
    Newline,
    Number(String),
    Ident(String),
    String(String),
    Label,
    Goto,
    Print,
    Input,
    Let,
    If,
    Then,
    Endif,
    While,
    Repeat,
    Endwhile,
    Eq,
    Plus,
    Minus,
    Asterisk,
    Slash,
    Eqeq,
    Noteq,
    Lt,
    Lteq,
    Gt,
    Gteq,
}

/// The mathematical value of a token: its kind, with the payload text as a character sequence.
pub enum TokenView {
    Eof,
    Newline,
    Number(Seq<char>),
    Ident(Seq<char>),
    Str(Seq<char>),
    Label,
    Goto,
    Print,
    Input,
    Let,
    If,
    Then,
    Endif,
    While,
    Repeat,
    Endwhile,
    Eq,
    Plus,
    Minus,
    Asterisk,
    Slash,
    Eqeq,
    Noteq,
    Lt,
    Lteq,
    Gt,
    Gteq,
}

impl View for Token {
    type V = TokenView;

    open spec fn view(&self) -> TokenView {
        match self {
            Token::Eof => TokenView::Eof,
            Token::Newline => TokenView::Newline,
            Token::Number(s) => TokenView::Number(s@),
            Token::Ident(s) => TokenView::Ident(s@),
            Token::String(s) => TokenView::Str(s@),
            Token::Label => TokenView::Label,
            Token::Goto => TokenView::Goto,
            Token::Print => TokenView::Print,
            Token::Input => TokenView::Input,
            Token::Let => TokenView::Let,
            Token::If => TokenView::If,
            Token::Then => TokenView::Then,
            Token::Endif => TokenView::Endif,
            Token::While => TokenView::While,
            Token::Repeat => TokenView::Repeat,
            Token::Endwhile => TokenView::Endwhile,
            Token::Eq => TokenView::Eq,
            Token::Plus => TokenView::Plus,
            Token::Minus => TokenView::Minus,
            Token::Asterisk => TokenView::Asterisk,
            Token::Slash => TokenView::Slash,
            Token::Eqeq => TokenView::Eqeq,
            Token::Noteq => TokenView::Noteq,
            Token::Lt => TokenView::Lt,
            Token::Lteq => TokenView::Lteq,
            Token::Gt => TokenView::Gt,
            Token::Gteq => TokenView::Gteq,
        }
    }
}

/// The keyword that a word spells, if any.
pub open spec fn keyword_of(w: Seq<char>) -> Option<TokenView> {
    if w == "LABEL"@ {
        Some(TokenView::Label)
    } else if w == "GOTO"@ {
        Some(TokenView::Goto)
    } else if w == "PRINT"@ {
        Some(TokenView::Print)
    } else if w == "INPUT"@ {
        Some(TokenView::Input)
    } else if w == "LET"@ {
        Some(TokenView::Let)
    } else if w == "IF"@ {
        Some(TokenView::If)
    } else if w == "THEN"@ {
        Some(TokenView::Then)
    } else if w == "ENDIF"@ {
        Some(TokenView::Endif)
    } else if w == "WHILE"@ {
        Some(TokenView::While)
    } else if w == "REPEAT"@ {
        Some(TokenView::Repeat)
    } else if w == "ENDWHILE"@ {
        Some(TokenView::Endwhile)
    } else {
        None
    }
}

/// Operators and punctuation: the tokens that are emitted verbatim.
pub open spec fn is_operator(t: TokenView) -> bool {
    match t {
        TokenView::Eq | TokenView::Plus | TokenView::Minus | TokenView::Asterisk
        | TokenView::Slash | TokenView::Eqeq | TokenView::Noteq | TokenView::Lt
        | TokenView::Lteq | TokenView::Gt | TokenView::Gteq => true,
        _ => false,
    }
}

/// The source text of an operator.
pub open spec fn operator_text(t: TokenView) -> Seq<char> {
    match t {
        TokenView::Gt => ">"@,
        TokenView::Lt => "<"@,
        TokenView::Eq => "="@,
        TokenView::Eqeq => "=="@,
        TokenView::Noteq => "!="@,
        TokenView::Gteq => ">="@,
        TokenView::Lteq => "<="@,
        TokenView::Plus => "+"@,
        TokenView::Minus => "-"@,
        TokenView::Asterisk => "*"@,
        _ => "/"@,
    }
}

/// Whether two strings hold the same characters.
fn same_text(a: &str, b: &str) -> (r: bool)
    ensures
        r == (a@ == b@),
{
    let n = a.unicode_len();
    let m = b.unicode_len();
    if n != m {
        return false;
    }
    let mut i: usize = 0;
    while i < n
        invariant
            n == a@.len(),
            m == b@.len(),
            n == m,
            i <= n,
            a@.subrange(0, i as int) == b@.subrange(0, i as int),
        decreases n - i,
    {
        if a.get_char(i) != b.get_char(i) {
            assert(a@[i as int] != b@[i as int]);
            return false;
        }
        assert(a@.subrange(0, i + 1) =~= a@.subrange(0, i as int).push(a@[i as int]));
        assert(b@.subrange(0, i + 1) =~= b@.subrange(0, i as int).push(b@[i as int]));
        i = i + 1;
    }
    assert(a@ =~= a@.subrange(0, n as int));
    assert(b@ =~= b@.subrange(0, n as int));
    true
}

impl Token {
    /// The keyword token that `k` spells, or `None` for any other word.
    pub fn is_keyword(k: &str) -> (r: Option<Token>)
        ensures
            match r {
                Some(t) => keyword_of(k@) == Some(t@),
                None => keyword_of(k@) is None,
            },
    {
        if same_text(k, "LABEL") {
            Some(Token::Label)
        } else if same_text(k, "GOTO") {
            Some(Token::Goto)
        } else if same_text(k, "PRINT") {
            Some(Token::Print)
        } else if same_text(k, "INPUT") {
            Some(Token::Input)
        } else if same_text(k, "LET") {
            Some(Token::Let)
        } else if same_text(k, "IF") {
            Some(Token::If)
        } else if same_text(k, "THEN") {
            Some(Token::Then)
        } else if same_text(k, "ENDIF") {
            Some(Token::Endif)
        } else if same_text(k, "WHILE") {
            Some(Token::While)
        } else if same_text(k, "REPEAT") {
            Some(Token::Repeat)
        } else if same_text(k, "ENDWHILE") {
            Some(Token::Endwhile)
        } else {
            None
        }
    }

    /// The source text of an operator token.
    pub fn as_str(&self) -> (r: &'static str)
        requires
            is_operator(self@),
        ensures
            r@ == operator_text(self@),
    {
        match self {
            Token::Gt => ">",
            Token::Lt => "<",
            Token::Eq => "=",
            Token::Eqeq => "==",
            Token::Noteq => "!=",
            Token::Gteq => ">=",
            Token::Lteq => "<=",
            Token::Plus => "+",
            Token::Minus => "-",
            Token::Asterisk => "*",
            _ => "/",
        }
    }
}

} // verus!
