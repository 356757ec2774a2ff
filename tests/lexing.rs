use teeny_tiny::lexer::{LexError, Lexer};
use teeny_tiny::tokens::Token;

fn tokens_of(source: &str) -> Result<Vec<Token>, LexError> {
    let mut lexer = Lexer::new(source);
    let mut out = Vec::new();
    loop {
        let t = lexer.get_next_token()?;
        if t == Token::Eof {
            return Ok(out);
        }
        out.push(t);
    }
}

#[test]
fn tokens_need_no_whitespace_between_them() {
    let toks = tokens_of("IF+-123 foo*THEN/").unwrap();
    assert_eq!(
        toks,
        vec![
            Token::If,
            Token::Plus,
            Token::Minus,
            Token::Number(String::from("123")),
            Token::Ident(String::from("foo")),
            Token::Asterisk,
            Token::Then,
            Token::Slash,
        ]
    );
}

#[test]
fn bang_without_equals_is_an_error() {
    assert_eq!(tokens_of("x ! y\n"), Err(LexError::BadBang));
    assert_eq!(tokens_of("!"), Err(LexError::BadBang));
}

#[test]
fn two_character_operators_are_single_tokens() {
    let toks = tokens_of("== >= <= != = > <\n").unwrap();
    assert_eq!(
        toks,
        vec![
            Token::Eqeq,
            Token::Gteq,
            Token::Lteq,
            Token::Noteq,
            Token::Eq,
            Token::Gt,
            Token::Lt,
            Token::Newline,
        ]
    );
}

#[test]
fn operator_at_end_of_input_gives_end_of_input() {
    assert_eq!(tokens_of("x ="), Ok(vec![Token::Ident(String::from("x"))]));
}

#[test]
fn decimal_point_needs_a_digit_after_it() {
    assert_eq!(tokens_of("9."), Err(LexError::MalformedNumber('\0')));
    assert_eq!(tokens_of("9.x"), Err(LexError::MalformedNumber('x')));
}

#[test]
fn decimal_number_is_one_token() {
    assert_eq!(tokens_of("9.8654"), Ok(vec![Token::Number(String::from("9.8654"))]));
    assert_eq!(tokens_of("42\n"), Ok(vec![Token::Number(String::from("42")), Token::Newline]));
}

#[test]
fn keywords_and_identifiers() {
    let toks = tokens_of("LABEL GOTO PRINT INPUT LET IF THEN ENDIF WHILE REPEAT ENDWHILE let x1").unwrap();
    assert_eq!(
        toks,
        vec![
            Token::Label,
            Token::Goto,
            Token::Print,
            Token::Input,
            Token::Let,
            Token::If,
            Token::Then,
            Token::Endif,
            Token::While,
            Token::Repeat,
            Token::Endwhile,
            Token::Ident(String::from("let")),
            Token::Ident(String::from("x1")),
        ]
    );
}

#[test]
fn keyword_lookup() {
    assert_eq!(Token::is_keyword("ENDWHILE"), Some(Token::Endwhile));
    assert_eq!(Token::is_keyword("LABEL"), Some(Token::Label));
    assert_eq!(Token::is_keyword("LABELS"), None);
    assert_eq!(Token::is_keyword(""), None);
}

#[test]
fn operator_text() {
    assert_eq!(Token::Noteq.as_str(), "!=");
    assert_eq!(Token::Gteq.as_str(), ">=");
    assert_eq!(Token::Slash.as_str(), "/");
    assert_eq!(Token::Eq.as_str(), "=");
}

#[test]
fn string_literals() {
    assert_eq!(tokens_of("\"hi there\"\n"), Ok(vec![Token::String(String::from("hi there")), Token::Newline]));
    assert_eq!(tokens_of("\"a%b\""), Err(LexError::IllegalStringChar('%')));
    assert_eq!(tokens_of("\"a\\b\""), Err(LexError::IllegalStringChar('\\')));
    assert_eq!(tokens_of("\"ab\ncd\""), Err(LexError::IllegalStringChar('\n')));
    assert_eq!(tokens_of("\"abc"), Err(LexError::UnterminatedString));
}

#[test]
fn comments_and_blanks_are_skipped() {
    assert_eq!(
        tokens_of("  \t# a comment\nx\r\n# last line without a line feed"),
        Ok(vec![Token::Newline, Token::Ident(String::from("x")), Token::Newline])
    );
}

#[test]
fn unknown_character_is_an_error() {
    assert_eq!(tokens_of("x @"), Err(LexError::UnknownChar('@')));
}

#[test]
fn unicode_letters_form_identifiers() {
    assert_eq!(tokens_of("é1 Ω"), Ok(vec![Token::Ident(String::from("é1")), Token::Ident(String::from("Ω"))]));
}

#[test]
fn advance_pointer_stops_at_the_end() {
    let mut lexer = Lexer::new("a");
    lexer.advance_pointer();
    lexer.advance_pointer();
    assert_eq!(lexer.get_next_token(), Ok(Token::Eof));
}


#[test]
fn nul_character_is_an_error() {
    assert_eq!(tokens_of("x\0y\n"), Err(LexError::UnknownChar('\0')));
}
