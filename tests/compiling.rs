use teeny_tiny::emitter::Emitter;
use teeny_tiny::lexer::{LexError, Lexer};
use teeny_tiny::parser::{compile, CompileError, Parser};
use teeny_tiny::tokens::Token;

const PROLOGUE: &str = "#include <stdio.h>\nint main(void){\n";
const EPILOGUE: &str = "return 0;\n}\n";

#[test]
fn minimal_program() {
    let out = compile("LET x = 1\nPRINT x\n").unwrap();
    assert_eq!(
        out,
        format!("{PROLOGUE}float x;\nx = 1;\nprintf(\"%.2f\\n\", (float)(x));\n{EPILOGUE}")
    );
    assert_eq!(out.matches("float x;").count(), 1);
}

#[test]
fn one_declaration_per_variable_in_first_use_order() {
    let src = "LET b = 1\nINPUT a\nLET b = b + 1\nINPUT b\nLET a = a * b\nPRINT a\n";
    let out = compile(src).unwrap();
    let header = format!("{PROLOGUE}float b;\nfloat a;\n");
    assert!(out.starts_with(&header));
    assert_eq!(out.matches("float b;").count(), 1);
    assert_eq!(out.matches("float a;").count(), 1);
    assert!(out.ends_with(EPILOGUE));
}

#[test]
fn goto_to_undeclared_label_fails() {
    let r = compile("GOTO nowhere\n");
    assert_eq!(r, Err(CompileError::UndeclaredLabel(String::from("nowhere"))));
    let r = compile("LABEL a\nLET x = 1\nGOTO a\nPRINT x\nGOTO b\n");
    assert_eq!(r, Err(CompileError::UndeclaredLabel(String::from("b"))));
}

#[test]
fn forward_jump_is_allowed() {
    let out = compile("GOTO end\nPRINT \"skipped\"\nLABEL end\n").unwrap();
    assert_eq!(
        out,
        format!("{PROLOGUE}goto end;printf(\"skipped\\n\");\nend:{EPILOGUE}")
    );
}

#[test]
fn label_declared_twice_fails() {
    let r = compile("LABEL loop\nPRINT \"x\"\nLABEL loop\n");
    assert_eq!(r, Err(CompileError::DuplicateLabel(String::from("loop"))));
}

#[test]
fn variable_read_before_assignment_fails() {
    let r = compile("PRINT y\n");
    assert_eq!(r, Err(CompileError::UndeclaredVariable(String::from("y"))));
    let r = compile("LET x = 1\nIF x > z THEN\nENDIF\n");
    assert_eq!(r, Err(CompileError::UndeclaredVariable(String::from("z"))));
}

#[test]
fn assignment_may_read_the_variable_it_assigns() {
    let out = compile("LET x = x\n").unwrap();
    assert_eq!(out, format!("{PROLOGUE}float x;\nx = x;\n{EPILOGUE}"));
}

#[test]
fn if_and_while_blocks() {
    let src = "\n\nLET n = 0\nWHILE n < 3 REPEAT\nIF n == 1 THEN\nPRINT \"one\"\nENDIF\nLET n = n + 1\nENDWHILE\n";
    let out = compile(src).unwrap();
    let body = "n = 0;\nwhile(n<3){\nif(n==1){\nprintf(\"one\\n\");\n}\nn = n+1;\n}\n";
    assert_eq!(out, format!("{PROLOGUE}float n;\n{body}{EPILOGUE}"));
}

#[test]
fn chained_comparisons_and_not_equal() {
    let out = compile("LET a = 1\nIF a != 2 >= -a THEN\nENDIF\n").unwrap();
    assert!(out.contains("if(a!=2>=-a){\n}\n"));
}

#[test]
fn arithmetic_is_copied_verbatim() {
    let out = compile("LET a = -1.5 * 2 / +3 - 4\n").unwrap();
    assert!(out.contains("a = -1.5*2/+3-4;\n"));
}

#[test]
fn input_statement() {
    let out = compile("INPUT v\n").unwrap();
    let body = "if(0 == scanf(\"%f\", &v)) {\nv = 0;\nscanf(\"%*s\");\n}\n";
    assert_eq!(out, format!("{PROLOGUE}float v;\n{body}{EPILOGUE}"));
}

#[test]
fn comparison_needs_an_operator() {
    let r = compile("LET a = 1\nIF a THEN\nENDIF\n");
    assert_eq!(r, Err(CompileError::ExpectedComparison(Token::Then)));
}

#[test]
fn unknown_statement_fails() {
    assert_eq!(compile("THEN\n"), Err(CompileError::InvalidStatement(Token::Then)));
}

#[test]
fn missing_token_fails() {
    assert_eq!(
        compile("LET x 1\n"),
        Err(CompileError::Expected { expected: Token::Eq, found: Token::Number(String::from("1")) })
    );
    assert_eq!(
        compile("LET x = 1 PRINT x\n"),
        Err(CompileError::Expected { expected: Token::Newline, found: Token::Print })
    );
    assert_eq!(
        compile("GOTO 5\n"),
        Err(CompileError::Expected { expected: Token::Ident(String::new()), found: Token::Number(String::from("5")) })
    );
}

#[test]
fn operand_must_be_number_or_identifier() {
    assert_eq!(compile("PRINT *\n"), Err(CompileError::UnexpectedToken(Token::Asterisk)));
}

#[test]
fn lexical_error_stops_compilation() {
    assert_eq!(compile("LET x = 1 ! 2\n"), Err(CompileError::Lex(LexError::BadBang)));
}

#[test]
fn statements_need_a_line_break() {
    assert_eq!(
        compile("PRINT \"a\""),
        Err(CompileError::Expected { expected: Token::Newline, found: Token::Eof })
    );
}

#[test]
fn parser_writes_into_the_given_emitter() {
    let lexer = Lexer::new("LET q = 2\n");
    let emitter = Emitter::new(String::from("prog.c"));
    let mut parser = Parser::new(lexer, emitter).unwrap();
    parser.program().unwrap();
    let emitter = parser.into_emitter();
    assert_eq!(emitter.path(), "prog.c");
    assert_eq!(emitter.output(), format!("{PROLOGUE}float q;\nq = 2;\n{EPILOGUE}"));
}

#[test]
fn emitter_regions() {
    let mut e = Emitter::new(String::from("out.c"));
    e.emit("a");
    e.emit_line("b");
    e.header_line("h");
    e.emit("c");
    assert_eq!(e.output(), "h\nab\nc");
}

#[test]
fn empty_program() {
    assert_eq!(compile(""), Ok(format!("{PROLOGUE}{EPILOGUE}")));
    assert_eq!(compile("\n\n# only a comment\n"), Ok(format!("{PROLOGUE}{EPILOGUE}")));
}

#[test]
fn undeclared_read_wins_over_unresolved_jump() {
    let r = compile("GOTO nowhere\nPRINT y\n");
    assert_eq!(r, Err(CompileError::UndeclaredVariable(String::from("y"))));
}

#[test]
fn duplicate_label_wins_over_unresolved_jump() {
    let r = compile("GOTO nowhere\nLABEL a\nLABEL a\n");
    assert_eq!(r, Err(CompileError::DuplicateLabel(String::from("a"))));
}

#[test]
fn duplicate_label_inside_block_is_found() {
    let r = compile("LET x = 1\nWHILE x < 2 REPEAT\nLABEL a\nIF x == 1 THEN\nLABEL a\nENDIF\nENDWHILE\n");
    assert_eq!(r, Err(CompileError::DuplicateLabel(String::from("a"))));
}

#[test]
fn unclosed_block_fails() {
    let r = compile("LET x = 1\nIF x > 0 THEN\nPRINT x\n");
    assert_eq!(r, Err(CompileError::InvalidStatement(Token::Eof)));
    let r = compile("LET x = 1\nWHILE x > 0 REPEAT\nENDIF\n");
    assert_eq!(r, Err(CompileError::InvalidStatement(Token::Endif)));
}

#[test]
fn errors_name_the_faulty_item() {
    assert_eq!(compile("LABEL a\nGOTO b\n"), Err(CompileError::UndeclaredLabel(String::from("b"))));
    assert_eq!(
        compile("LET x = 1\nPRINT y\nLET y = 2\n"),
        Err(CompileError::UndeclaredVariable(String::from("y")))
    );
    assert_eq!(
        compile("LABEL a\nPRINT \"x\"\nLABEL a\n"),
        Err(CompileError::DuplicateLabel(String::from("a")))
    );
    assert_eq!(
        compile("GOTO c\nGOTO b\nLABEL b\n"),
        Err(CompileError::UndeclaredLabel(String::from("c")))
    );
}

#[test]
fn token_that_starts_no_statement() {
    assert_eq!(
        compile("x = 1\n"),
        Err(CompileError::InvalidStatement(Token::Ident(String::from("x"))))
    );
    assert_eq!(
        compile("PRINT x y\n"),
        Err(CompileError::UndeclaredVariable(String::from("x")))
    );
    assert_eq!(
        compile("LET x = 1\nPRINT x y\n"),
        Err(CompileError::Expected { expected: Token::Newline, found: Token::Ident(String::from("y")) })
    );
}
