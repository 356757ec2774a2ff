use vstd::prelude::*;
use vstd::string::StringExecFns;

use crate::emitter::Emitter;
use crate::lexer::{lemma_lex_progress, lex_step, lex_tokens, LexError, Lexer};
use crate::tokens::{is_operator, operator_text, Token, TokenView};

verus! {

/// Why a program does not compile.
#[derive(Debug, Clone, PartialEq)]
pub enum CompileError {
    /// The source holds text that is no token.
    Lex(LexError),
    /// A token other than the one the grammar requires at this point.
    Expected { expected: Token, found: Token },
    /// A token that starts no statement.
    InvalidStatement(Token),
    /// A comparison without a comparison operator.
    ExpectedComparison(Token),
    /// A token that is neither a number nor an identifier where an operand must stand.
    UnexpectedToken(Token),
    /// An identifier read before any `LET` or `INPUT` of it.
    UndeclaredVariable(String),
    /// A label declared a second time.
    DuplicateLabel(String),
    /// A `GOTO` to a label that no `LABEL` declares.
    UndeclaredLabel(String),
}

/// The kinds of name that a statement introduces.
pub enum NameKind {
    /// Assigned by `LET` or read by `INPUT`.
    Variable,
    /// Declared by `LABEL`.
    Label,
    /// Jumped to by `GOTO`.
    Jump,
}

/// Whether `t` is the keyword that introduces a name of kind `k`.
pub open spec fn introduces(t: TokenView, k: NameKind) -> bool {
    match k {
        NameKind::Variable => t is Let || t is Input,
        NameKind::Label => t is Label,
        NameKind::Jump => t is Goto,
    }
}

/// The token before the last one, or a line break where there is none.
pub open spec fn before_last(toks: Seq<TokenView>) -> TokenView {
    if toks.len() >= 2 {
        toks[toks.len() - 2]
    } else {
        TokenView::Newline
    }
}

/// The names of kind `k` that `toks` introduces: each identifier that follows
/// a keyword introducing that kind, once, in the order of first occurrence.
pub open spec fn names_of(toks: Seq<TokenView>, k: NameKind) -> Seq<Seq<char>>
    decreases toks.len(),
{
    if toks.len() == 0 {
        Seq::<Seq<char>>::empty()
    } else {
        let p = names_of(toks.drop_last(), k);
        match toks.last() {
            TokenView::Ident(x) => if introduces(before_last(toks), k) && !p.contains(x) {
                p.push(x)
            } else {
                p
            },
            _ => p,
        }
    }
}

/// The names that a trace introduces hold no name twice: the generated
/// program declares each variable once.
pub proof fn lemma_names_distinct(toks: Seq<TokenView>, k: NameKind)
    ensures
        names_of(toks, k).no_duplicates(),
    decreases toks.len(),
{
    if toks.len() > 0 {
        lemma_names_distinct(toks.drop_last(), k);
        let p = names_of(toks.drop_last(), k);
        if let TokenView::Ident(x) = toks.last() {
            if introduces(before_last(toks), k) && !p.contains(x) {
                assert forall|i: int, j: int|
                    0 <= i < j < p.push(x).len() implies p.push(x)[i] != p.push(x)[j] by {
                    if j == p.len() {
                        assert(p[i] == p.push(x)[i]);
                    }
                }
            }
        }
    }
}

/// Every identifier that is read (one that no keyword introduces) has been
/// assigned by an earlier `LET` or `INPUT`.
pub open spec fn reads_declared(toks: Seq<TokenView>) -> bool
    decreases toks.len(),
{
    if toks.len() == 0 {
        true
    } else {
        let p = toks.drop_last();
        &&& reads_declared(p)
        &&& match toks.last() {
            TokenView::Ident(x) => opens_name(before_last(toks)) || names_of(
                p,
                NameKind::Variable,
            ).contains(x),
            _ => true,
        }
    }
}

/// No label is declared twice.
pub open spec fn labels_unique(toks: Seq<TokenView>) -> bool
    decreases toks.len(),
{
    if toks.len() == 0 {
        true
    } else {
        let p = toks.drop_last();
        &&& labels_unique(p)
        &&& match toks.last() {
            TokenView::Ident(x) => !(before_last(toks) is Label) || !names_of(
                p,
                NameKind::Label,
            ).contains(x),
            _ => true,
        }
    }
}

/// Every identifier read was assigned before, and no label is declared twice.
pub open spec fn well_scoped(toks: Seq<TokenView>) -> bool {
    reads_declared(toks) && labels_unique(toks)
}

/// Every label jumped to is declared.
pub open spec fn jumps_resolved(toks: Seq<TokenView>) -> bool {
    forall|x: Seq<char>|
        #![trigger names_of(toks, NameKind::Jump).contains(x)]
        names_of(toks, NameKind::Jump).contains(x) ==> names_of(toks, NameKind::Label).contains(x)
}

/// The declaration of one variable in the generated program.
pub open spec fn declaration(x: Seq<char>) -> Seq<char> {
    ("float "@ + x + ";"@).push('\n')
}

/// The declarations of `xs`, in order.
pub open spec fn declarations(xs: Seq<Seq<char>>) -> Seq<char>
    decreases xs.len(),
{
    if xs.len() == 0 {
        Seq::<char>::empty()
    } else {
        declarations(xs.drop_last()) + declaration(xs.last())
    }
}

/// The fixed start of the generated program's header.
pub open spec fn prologue() -> Seq<char> {
    "#include <stdio.h>"@.push('\n') + "int main(void){"@.push('\n')
}

/// The fixed end of the generated program's body.
pub open spec fn epilogue() -> Seq<char> {
    "return 0;"@.push('\n') + "}"@.push('\n')
}

/// The texts of a sequence of strings.
pub open spec fn texts(v: Seq<String>) -> Seq<Seq<char>> {
    v.map_values(|s: String| s@)
}

/// A keyword after which an identifier is a name being introduced, not read.
pub open spec fn opens_name(t: TokenView) -> bool {
    t is Label || t is Goto || t is Let || t is Input
}

/// Whether `r` is other than the error of the check made after the last statement.
pub open spec fn not_unresolved<T>(r: Result<T, CompileError>) -> bool {
    !(r matches Err(CompileError::UndeclaredLabel(_)))
}

/// A comparison operator.
pub open spec fn is_comparison(t: TokenView) -> bool {
    t is Gt || t is Gteq || t is Lt || t is Lteq || t is Eqeq || t is Noteq
}

/// A block that is open: its closing keyword has not come yet.
pub enum Block {
    If,
    While,
}

/// The expression that an operand belongs to.
pub enum Context {
    /// The expression of `PRINT`.
    Print,
    /// The expression of `LET`.
    Let,
    /// The condition of `IF` or `WHILE`; the flag tells whether a comparison
    /// operator has come.
    Condition(Block, bool),
}

/// The kind of statement whose name comes next.
pub enum Naming {
    Label,
    Goto,
    Let,
    Input,
}

/// Where in the grammar a prefix of a program ends.
pub enum Phase {
    /// At the start of a statement.
    Statement,
    /// After `PRINT`: a string or an expression follows.
    AfterPrint,
    /// Where an operand, with an optional sign, must follow.
    Unary(Context),
    /// After a sign: an operand must follow.
    Operand(Context),
    /// After an operand.
    Operated(Context),
    /// After `THEN` or `REPEAT`: a line break follows and opens the block.
    Opening(Block),
    /// After a keyword that a name follows.
    Name(Naming),
    /// After `LET` and its name: `=` follows.
    Assign,
    /// At the end of a statement: a line break follows.
    EndLine,
    /// After the end of input.
    Done,
}

/// The grammar's state after a prefix of a program: the phase, and the blocks
/// that are open, innermost last.
pub struct GrammarState {
    pub phase: Phase,
    pub blocks: Seq<Block>,
}

pub open spec fn at(phase: Phase, blocks: Seq<Block>) -> Option<GrammarState> {
    Some(GrammarState { phase, blocks })
}

/// The operand rules: a sign, or a number or identifier.
pub open spec fn operand_step(c: Context, signed: bool, blocks: Seq<Block>, t: TokenView) -> Option<
    GrammarState,
> {
    match t {
        TokenView::Plus | TokenView::Minus => if signed {
            None
        } else {
            at(Phase::Operand(c), blocks)
        },
        TokenView::Number(_) | TokenView::Ident(_) => at(Phase::Operated(c), blocks),
        _ => None,
    }
}

/// Whether `t` joins two operands inside an expression.
pub open spec fn is_arithmetic(t: TokenView) -> bool {
    t is Plus || t is Minus || t is Asterisk || t is Slash
}

/// The state after token `t` in state `st`, or `None` where the grammar
/// admits no such token.
pub open spec fn step(st: GrammarState, t: TokenView) -> Option<GrammarState> {
    let b = st.blocks;
    match st.phase {
        Phase::Statement => match t {
            TokenView::Newline => at(Phase::Statement, b),
            TokenView::Print => at(Phase::AfterPrint, b),
            TokenView::If => at(Phase::Unary(Context::Condition(Block::If, false)), b),
            TokenView::While => at(Phase::Unary(Context::Condition(Block::While, false)), b),
            TokenView::Label => at(Phase::Name(Naming::Label), b),
            TokenView::Goto => at(Phase::Name(Naming::Goto), b),
            TokenView::Let => at(Phase::Name(Naming::Let), b),
            TokenView::Input => at(Phase::Name(Naming::Input), b),
            TokenView::Endif => if b.len() > 0 && b.last() is If {
                at(Phase::EndLine, b.drop_last())
            } else {
                None
            },
            TokenView::Endwhile => if b.len() > 0 && b.last() is While {
                at(Phase::EndLine, b.drop_last())
            } else {
                None
            },
            TokenView::Eof => if b.len() == 0 {
                at(Phase::Done, b)
            } else {
                None
            },
            _ => None,
        },
        Phase::AfterPrint => match t {
            TokenView::Str(_) => at(Phase::EndLine, b),
            _ => operand_step(Context::Print, false, b, t),
        },
        Phase::Unary(c) => operand_step(c, false, b, t),
        Phase::Operand(c) => operand_step(c, true, b, t),
        Phase::Operated(c) => if is_arithmetic(t) {
            at(Phase::Unary(c), b)
        } else {
            match c {
                Context::Condition(k, seen) => if is_comparison(t) {
                    at(Phase::Unary(Context::Condition(k, true)), b)
                } else if seen && ((k is If && t is Then) || (k is While && t is Repeat)) {
                    at(Phase::Opening(k), b)
                } else {
                    None
                },
                _ => if t is Newline {
                    at(Phase::Statement, b)
                } else {
                    None
                },
            }
        },
        Phase::Opening(k) => if t is Newline {
            at(Phase::Statement, b.push(k))
        } else {
            None
        },
        Phase::Name(n) => if t is Ident {
            if n is Let {
                at(Phase::Assign, b)
            } else {
                at(Phase::EndLine, b)
            }
        } else {
            None
        },
        Phase::Assign => if t is Eq {
            at(Phase::Unary(Context::Let), b)
        } else {
            None
        },
        Phase::EndLine => if t is Newline {
            at(Phase::Statement, b)
        } else {
            None
        },
        Phase::Done => None,
    }
}

/// The grammar's state after `toks`, from the start of a program, or `None`
/// where a prefix of `toks` breaks the grammar.
pub open spec fn run(toks: Seq<TokenView>) -> Option<GrammarState>
    decreases toks.len(),
{
    if toks.len() == 0 {
        at(Phase::Statement, Seq::<Block>::empty())
    } else {
        match run(toks.drop_last()) {
            Some(st) => step(st, toks.last()),
            None => None,
        }
    }
}

/// How often the trace `toks` enters the statement level with open blocks
/// `b` from another state: each entry ends one statement at that level.
pub open spec fn closings(toks: Seq<TokenView>, b: Seq<Block>) -> nat
    decreases toks.len(),
{
    if toks.len() == 0 {
        0
    } else {
        let p = toks.drop_last();
        closings(p, b) + if run(toks) == at(Phase::Statement, b) && run(p) != at(
            Phase::Statement,
            b,
        ) {
            1nat
        } else {
            0nat
        }
    }
}

/// `toks` is a whole program in the grammar, its end of input included.
pub open spec fn accepted(toks: Seq<TokenView>) -> bool {
    run(toks) == at(Phase::Done, Seq::<Block>::empty())
}

/// The tokens of `s` from position `st` up to and including the first end of
/// input; each of them lexes, and so does the token after them, which the
/// compiler reads ahead.
pub open spec fn program_tokens(s: Seq<char>, st: int, toks: Seq<TokenView>) -> bool {
    &&& toks.len() >= 1
    &&& toks.last() is Eof
    &&& !toks.drop_last().contains(TokenView::Eof)
    &&& lex_tokens(s, st, toks.len()) matches Some((ts, _)) && ts == toks
    &&& lex_tokens(s, st, toks.len() + 1) is Some
}

/// The source from position `st` holds a valid program: its tokens follow the
/// grammar, every identifier read was assigned before, no label is declared
/// twice, and every label jumped to is declared.
pub open spec fn valid_program(s: Seq<char>, st: int) -> bool {
    exists|toks: Seq<TokenView>|
        #![trigger program_tokens(s, st, toks)]
        {
            &&& program_tokens(s, st, toks)
            &&& accepted(toks)
            &&& well_scoped(toks)
            &&& jumps_resolved(toks)
        }
}

/// The expression that an operand in phase `p` belongs to.
pub open spec fn context_of(p: Phase) -> Context {
    match p {
        Phase::Unary(c) => c,
        Phase::Operand(c) => c,
        Phase::Operated(c) => c,
        _ => Context::Print,
    }
}

/// The block that a condition in phase `p` belongs to.
pub open spec fn block_of(p: Phase) -> Block {
    match p {
        Phase::Unary(Context::Condition(k, _)) => k,
        _ => Block::If,
    }
}

/// An expression can start in phase `p` with token `t`.
pub open spec fn expression_start(p: Phase, t: TokenView) -> bool {
    p is Unary || (p is AfterPrint && !(t is Str))
}

/// A keyword that starts a statement.
pub open spec fn starts_statement(t: TokenView) -> bool {
    t is Print || t is If || t is While || t is Label || t is Goto || t is Let || t is Input
}

/// The state `phase` with the blocks `blocks`.
pub open spec fn state_of(phase: Phase, blocks: Seq<Block>) -> GrammarState {
    GrammarState { phase, blocks }
}

/// Two token sequences of whole programs of one source are the same.
proof fn lemma_program_tokens_unique(s: Seq<char>, st: int, u: Seq<TokenView>, toks: Seq<TokenView>)
    requires
        lex_tokens(s, st, u.len()) matches Some((ts, _)) && ts == u,
        u.len() >= 1,
        u.last() is Eof,
        !u.drop_last().contains(TokenView::Eof),
        program_tokens(s, st, toks),
    ensures
        toks == u,
{
    if u.len() <= toks.len() {
        lemma_lex_tokens_take(s, st, toks.len(), u.len());
        if u.len() < toks.len() {
            assert(toks.drop_last()[u.len() - 1] == u.last());
        }
        assert(toks.take(u.len() as int) =~= toks);
    } else {
        lemma_lex_tokens_take(s, st, u.len(), toks.len());
        assert(u.drop_last()[toks.len() - 1] == toks.last());
    }
}

/// The source from position `st` holds a program that follows the grammar
/// and is well scoped, whether or not its jumps resolve.
pub open spec fn sound_program(s: Seq<char>, st: int) -> bool {
    exists|toks: Seq<TokenView>|
        #![trigger program_tokens(s, st, toks)]
        {
            &&& program_tokens(s, st, toks)
            &&& accepted(toks)
            &&& well_scoped(toks)
        }
}

/// No whole program of the source follows the grammar.
pub open spec fn grammar_fails(s: Seq<char>, st: int) -> bool {
    forall|toks: Seq<TokenView>| #[trigger] program_tokens(s, st, toks) ==> !accepted(toks)
}

/// The source's whole program reads an identifier before it is assigned.
pub open spec fn reads_fail(s: Seq<char>, st: int) -> bool {
    forall|toks: Seq<TokenView>| #[trigger] program_tokens(s, st, toks) ==> !reads_declared(toks)
}

/// The source's whole program declares a label twice.
pub open spec fn labels_fail(s: Seq<char>, st: int) -> bool {
    forall|toks: Seq<TokenView>| #[trigger] program_tokens(s, st, toks) ==> !labels_unique(toks)
}

/// What an error tells of the source from position `st`.
pub open spec fn fault(e: CompileError, s: Seq<char>, st: int) -> bool {
    match e {
        CompileError::UndeclaredVariable(_) => reads_fail(s, st),
        CompileError::DuplicateLabel(_) => labels_fail(s, st),
        CompileError::UndeclaredLabel(_) => true,
        _ => grammar_fails(s, st),
    }
}

/// The value of an error: its kind, with the tokens or names it carries.
pub enum ErrorView {
    Lex(LexError),
    Expected(TokenView, TokenView),
    InvalidStatement(TokenView),
    ExpectedComparison(TokenView),
    UnexpectedToken(TokenView),
    UndeclaredVariable(Seq<char>),
    DuplicateLabel(Seq<char>),
    UndeclaredLabel(Seq<char>),
}

pub open spec fn error_view(e: CompileError) -> ErrorView {
    match e {
        CompileError::Lex(l) => ErrorView::Lex(l),
        CompileError::Expected { expected, found } => ErrorView::Expected(expected@, found@),
        CompileError::InvalidStatement(t) => ErrorView::InvalidStatement(t@),
        CompileError::ExpectedComparison(t) => ErrorView::ExpectedComparison(t@),
        CompileError::UnexpectedToken(t) => ErrorView::UnexpectedToken(t@),
        CompileError::UndeclaredVariable(x) => ErrorView::UndeclaredVariable(x@),
        CompileError::DuplicateLabel(x) => ErrorView::DuplicateLabel(x@),
        CompileError::UndeclaredLabel(x) => ErrorView::UndeclaredLabel(x@),
    }
}

/// A prefix of a program with no fault: it follows the grammar, is well
/// scoped, and holds no end of input.
pub open spec fn clean(u: Seq<TokenView>) -> bool {
    run(u) is Some && well_scoped(u) && !u.contains(TokenView::Eof)
}

/// The syntax error for token `t` where the grammar in state `st` admits none.
pub open spec fn grammar_error(st: GrammarState, t: TokenView) -> ErrorView {
    match st.phase {
        Phase::Statement => ErrorView::InvalidStatement(t),
        Phase::AfterPrint | Phase::Unary(_) | Phase::Operand(_) => ErrorView::UnexpectedToken(t),
        Phase::Operated(c) => match c {
            Context::Condition(k, seen) => if !seen {
                ErrorView::ExpectedComparison(t)
            } else if k is If {
                ErrorView::Expected(TokenView::Then, t)
            } else {
                ErrorView::Expected(TokenView::Repeat, t)
            },
            _ => ErrorView::Expected(TokenView::Newline, t),
        },
        Phase::Name(_) => ErrorView::Expected(TokenView::Ident(Seq::<char>::empty()), t),
        Phase::Assign => ErrorView::Expected(TokenView::Eq, t),
        _ => ErrorView::Expected(TokenView::Newline, t),
    }
}

/// The error that token `t` gives after the clean prefix `u`, if any: a
/// syntax error first, then a read of an unassigned variable, then a label
/// declared again.
pub open spec fn token_error(u: Seq<TokenView>, t: TokenView) -> Option<ErrorView> {
    let st = run(u)->Some_0;
    if step(st, t) is None {
        Some(grammar_error(st, t))
    } else {
        match t {
            TokenView::Ident(x) => if !reads_declared(u.push(t)) {
                Some(ErrorView::UndeclaredVariable(x))
            } else if !labels_unique(u.push(t)) {
                Some(ErrorView::DuplicateLabel(x))
            } else {
                None
            },
            _ => None,
        }
    }
}

/// Token `i` of the source is the first fault, and gives `f`: the tokens
/// before it are clean, and it and the token after it lex.
pub open spec fn check_error_at(s: Seq<char>, st: int, i: nat, f: ErrorView) -> bool {
    &&& lex_tokens(s, st, i + 2) is Some
    &&& clean(lex_tokens(s, st, i + 2)->Some_0.0.take(i as int))
    &&& token_error(
        lex_tokens(s, st, i + 2)->Some_0.0.take(i as int),
        lex_tokens(s, st, i + 2)->Some_0.0[i as int],
    ) == Some(f)
}

/// Token `k` of the source does not lex, with error `e`, and the tokens that
/// the compiler checks before it reads token `k`, all but the last two, are
/// clean.
pub open spec fn lex_error_at(s: Seq<char>, st: int, k: nat, e: LexError) -> bool {
    &&& lex_tokens(s, st, k) is Some
    &&& lex_step(s, lex_tokens(s, st, k)->Some_0.1).0 == Err::<TokenView, LexError>(e)
    &&& k < 2 || clean(lex_tokens(s, st, k)->Some_0.0.take(k - 1))
}

/// The first name of `js` from index `i` on that `ls` does not hold.
pub open spec fn first_unresolved(js: Seq<Seq<char>>, ls: Seq<Seq<char>>, i: int) -> Option<
    Seq<char>,
>
    decreases js.len() - i,
{
    if i < 0 || i >= js.len() {
        None
    } else if !ls.contains(js[i]) {
        Some(js[i])
    } else {
        first_unresolved(js, ls, i + 1)
    }
}

/// `f` is the first error of the source from position `st`: a lexical error,
/// the fault of the first faulty token, or, in a sound program, the first
/// label jumped to and not declared.
pub open spec fn source_error(s: Seq<char>, st: int, f: ErrorView) -> bool {
    ||| exists|i: nat| check_error_at(s, st, i, f)
    ||| (f matches ErrorView::Lex(e) && exists|k: nat| lex_error_at(s, st, k, e))
    ||| (f matches ErrorView::UndeclaredLabel(x) && exists|toks: Seq<TokenView>|
        {
            &&& #[trigger] program_tokens(s, st, toks)
            &&& accepted(toks)
            &&& well_scoped(toks)
            &&& first_unresolved(
                names_of(toks, NameKind::Jump),
                names_of(toks, NameKind::Label),
                0,
            ) == Some(x)
        })
}

/// The tokens of a shorter run of the lexer are a prefix of a longer one's.
proof fn lemma_lex_tokens_take(s: Seq<char>, st: int, n: nat, k: nat)
    requires
        k <= n,
        lex_tokens(s, st, n) is Some,
    ensures
        lex_tokens(s, st, k) matches Some((ts, _)) && lex_tokens(s, st, n) matches Some((us, _))
            && us.len() == n && ts == us.take(k as int),
    decreases n,
{
    if n > 0 {
        lemma_lex_tokens_take(s, st, (n - 1) as nat, (n - 1) as nat);
        let (ts, p) = lex_tokens(s, st, (n - 1) as nat)->Some_0;
        let t = lex_step(s, p).0->Ok_0;
        assert(ts.push(t).take(n - 1) =~= ts);
        if k < n {
            lemma_lex_tokens_take(s, st, (n - 1) as nat, k);
            assert(ts.push(t).take(k as int) =~= ts.take(k as int));
        } else {
            assert(ts.push(t).take(n as int) =~= ts.push(t));
        }
    } else {
        assert(Seq::<TokenView>::empty().take(0) =~= Seq::<TokenView>::empty());
    }
}

/// Once the lexer fails, it fails for every longer run.
proof fn lemma_lex_tokens_none(s: Seq<char>, st: int, k: nat, n: nat)
    requires
        k <= n,
        lex_tokens(s, st, k) is None,
    ensures
        lex_tokens(s, st, n) is None,
{
    if lex_tokens(s, st, n) is Some {
        lemma_lex_tokens_take(s, st, n, k);
    }
}

/// A prefix that breaks the grammar breaks every extension.
proof fn lemma_run_prefix(q: Seq<TokenView>, k: int)
    requires
        0 <= k <= q.len(),
        run(q.take(k)) is None,
    ensures
        run(q) is None,
    decreases q.len() - k,
{
    if k < q.len() {
        assert(q.take(k + 1).drop_last() =~= q.take(k));
        lemma_run_prefix(q, k + 1);
    } else {
        assert(q.take(k) =~= q);
    }
}

/// Every prefix of a trace that reads declared names, or declares unique
/// labels, does so too.
proof fn lemma_scoped_prefix(q: Seq<TokenView>, k: int)
    requires
        0 <= k <= q.len(),
    ensures
        reads_declared(q) ==> reads_declared(q.take(k)),
        labels_unique(q) ==> labels_unique(q.take(k)),
    decreases q.len() - k,
{
    if k < q.len() {
        lemma_scoped_prefix(q, k + 1);
        assert(q.take(k + 1).drop_last() =~= q.take(k));
    } else {
        assert(q.take(k) =~= q);
    }
}

/// Lexed tokens of the source with no end of input but at the last are a
/// prefix of its whole program.
proof fn lemma_prefix_of_program(s: Seq<char>, st: int, u: Seq<TokenView>, toks: Seq<TokenView>)
    requires
        lex_tokens(s, st, u.len()) matches Some((ts, _)) && ts == u,
        u.len() >= 1,
        !u.drop_last().contains(TokenView::Eof),
        program_tokens(s, st, toks),
    ensures
        u.len() <= toks.len(),
        toks.take(u.len() as int) == u,
{
    if u.len() <= toks.len() {
        lemma_lex_tokens_take(s, st, toks.len(), u.len());
    } else {
        lemma_lex_tokens_take(s, st, u.len(), toks.len());
        let i = toks.len() - 1;
        assert(u.drop_last()[i] == toks[i]);
    }
}

/// The compiler has read the lexed tokens `u` of the source, no end of
/// input among them but the last: what breaks in `u` breaks the whole program.
proof fn lemma_invalid(s: Seq<char>, st: int, u: Seq<TokenView>)
    requires
        lex_tokens(s, st, u.len()) matches Some((ts, _)) && ts == u,
        u.len() >= 1,
        !u.drop_last().contains(TokenView::Eof),
    ensures
        run(u) is None ==> grammar_fails(s, st),
        !reads_declared(u) ==> reads_fail(s, st),
        !labels_unique(u) ==> labels_fail(s, st),
{
    assert forall|toks: Seq<TokenView>| #[trigger] program_tokens(s, st, toks) implies {
        &&& run(u) is None ==> !accepted(toks)
        &&& !reads_declared(u) ==> !reads_declared(toks)
        &&& !labels_unique(u) ==> !labels_unique(toks)
    } by {
        lemma_prefix_of_program(s, st, u, toks);
        lemma_scoped_prefix(toks, u.len() as int);
        if run(u) is None {
            lemma_run_prefix(toks, u.len() as int);
        }
    }
}

/// The lexer failed on the token after `u`, which holds no end of input but
/// at its end: the source has no whole program.
proof fn lemma_invalid_lex(s: Seq<char>, st: int, u: Seq<TokenView>)
    requires
        lex_tokens(s, st, u.len()) matches Some((ts, _)) && ts == u,
        u.len() == 0 || !u.drop_last().contains(TokenView::Eof),
        lex_tokens(s, st, u.len() + 1) is None,
    ensures
        forall|toks: Seq<TokenView>| !program_tokens(s, st, toks),
{
    assert forall|toks: Seq<TokenView>| !program_tokens(s, st, toks) by {
        if program_tokens(s, st, toks) {
            if toks.len() + 1 >= u.len() + 1 {
                lemma_lex_tokens_none(s, st, u.len() + 1, toks.len() + 1);
            } else {
                lemma_lex_tokens_take(s, st, u.len(), toks.len());
                assert(u.drop_last()[toks.len() - 1] == toks.last());
            }
        }
    }
}

/// The source text of a number, an identifier or an operator.
pub open spec fn token_text(t: TokenView) -> Seq<char> {
    match t {
        TokenView::Number(n) => n,
        TokenView::Ident(x) => x,
        _ => if is_operator(t) {
            operator_text(t)
        } else {
            Seq::<char>::empty()
        },
    }
}

/// What `PRINT` of an expression writes before the expression.
pub open spec fn print_prefix() -> Seq<char> {
    "printf(\"%.2f\\n\", (float)("@
}

/// What `INPUT` of `x` writes: read a number into `x`, or on failure set it to
/// zero and skip the offending word.
pub open spec fn input_text(x: Seq<char>) -> Seq<char> {
    ("if(0 == scanf(\"%f\", &"@ + x + ")) {"@).push('\n') + (x + " = 0;"@).push('\n')
        + "scanf(\"%*s\");"@.push('\n') + "}"@.push('\n')
}

/// What is written ahead of an operand in phase `p`, before it is read.
pub open spec fn lead(p: Phase) -> Seq<char> {
    if p is AfterPrint {
        print_prefix()
    } else {
        Seq::<char>::empty()
    }
}

/// The text that the compiler writes into the body for token `t` read in
/// state `st`.
pub open spec fn emission(st: GrammarState, t: TokenView) -> Seq<char> {
    match st.phase {
        Phase::Statement => match t {
            TokenView::If => "if("@,
            TokenView::While => "while("@,
            TokenView::Endif | TokenView::Endwhile => "}"@.push('\n'),
            _ => Seq::<char>::empty(),
        },
        Phase::AfterPrint => match t {
            TokenView::Str(text) => ("printf(\""@ + text + "\\n\");"@).push('\n'),
            _ => print_prefix() + token_text(t),
        },
        Phase::Unary(_) | Phase::Operand(_) => token_text(t),
        Phase::Operated(c) => if is_arithmetic(t) || is_comparison(t) {
            token_text(t)
        } else if t is Newline {
            match c {
                Context::Print => "));"@.push('\n'),
                Context::Let => ";"@.push('\n'),
                _ => Seq::<char>::empty(),
            }
        } else {
            Seq::<char>::empty()
        },
        Phase::Opening(_) => "){"@.push('\n'),
        Phase::Name(n) => match t {
            TokenView::Ident(x) => match n {
                Naming::Label => x + ":"@,
                Naming::Goto => "goto "@ + x + ";"@,
                Naming::Let => x + " = "@,
                Naming::Input => input_text(x),
            },
            _ => Seq::<char>::empty(),
        },
        _ => Seq::<char>::empty(),
    }
}

/// The statements that the compiler writes for the tokens `toks`.
pub open spec fn statements_text(toks: Seq<TokenView>) -> Seq<char>
    decreases toks.len(),
{
    if toks.len() == 0 {
        Seq::<char>::empty()
    } else {
        match run(toks.drop_last()) {
            Some(st) => statements_text(toks.drop_last()) + emission(st, toks.last()),
            None => statements_text(toks.drop_last()),
        }
    }
}

/// Every prefix of a clean trace is clean.
proof fn lemma_clean_prefix(u: Seq<TokenView>, k: int)
    requires
        clean(u),
        0 <= k <= u.len(),
    ensures
        clean(u.take(k)),
{
    if run(u.take(k)) is None {
        lemma_run_prefix(u, k);
    }
    lemma_scoped_prefix(u, k);
    assert forall|j: int| 0 <= j < u.take(k).len() implies u.take(k)[j] != TokenView::Eof by {
        assert(u.take(k)[j] == u[j]);
    }
}

/// A token with an error breaks the grammar or the scoping of the trace that
/// ends with it.
proof fn lemma_fault_breaks(u: Seq<TokenView>, i: int)
    requires
        0 <= i < u.len(),
        run(u.take(i)) is Some,
        token_error(u.take(i), u[i]) is Some,
    ensures
        run(u.take(i + 1)) is None || !well_scoped(u.take(i + 1)),
{
    assert(u.take(i + 1) =~= u.take(i).push(u[i]));
    lemma_push(u.take(i), u[i]);
}

/// A prefix of the source's tokens that reaches past the first faulty token
/// `i` breaks the grammar or the scoping.
proof fn lemma_no_clean_past(s: Seq<char>, st: int, i: nat, f: ErrorView, n: nat, j: nat)
    requires
        check_error_at(s, st, i, f),
        lex_tokens(s, st, n) is Some,
        i < j <= n,
    ensures
        run(lex_tokens(s, st, n)->Some_0.0.take(j as int)) is None || !well_scoped(
            lex_tokens(s, st, n)->Some_0.0.take(j as int),
        ),
{
    let ts = lex_tokens(s, st, n)->Some_0.0;
    let ti = lex_tokens(s, st, i + 2)->Some_0.0;
    if n >= i + 2 {
        lemma_lex_tokens_take(s, st, n, i + 2);
    } else {
        lemma_lex_tokens_take(s, st, i + 2, n);
    }
    assert(ts.take(i as int) =~= ti.take(i as int));
    assert(ts[i as int] == ti[i as int]);
    assert(ts.take(j as int).take(i + 1 as int) =~= ts.take(i + 1 as int));
    if run(ts.take(j as int)) is Some && well_scoped(ts.take(j as int)) {
        if run(ts.take(i + 1 as int)) is None {
            lemma_run_prefix(ts.take(j as int), i + 1 as int);
        }
        lemma_scoped_prefix(ts.take(j as int), i + 1 as int);
        lemma_fault_breaks(ts, i as int);
    }
}

/// The first name that `first_unresolved` finds is jumped to and not declared.
proof fn lemma_first_unresolved(js: Seq<Seq<char>>, ls: Seq<Seq<char>>, i: int)
    requires
        first_unresolved(js, ls, i) is Some,
    ensures
        js.contains(first_unresolved(js, ls, i)->Some_0),
        !ls.contains(first_unresolved(js, ls, i)->Some_0),
    decreases js.len() - i,
{
    if 0 <= i < js.len() && ls.contains(js[i]) {
        lemma_first_unresolved(js, ls, i + 1);
    }
}

/// A source with a first error holds no valid program.
pub proof fn lemma_error_not_valid(s: Seq<char>, st: int, f: ErrorView)
    requires
        source_error(s, st, f),
    ensures
        !valid_program(s, st),
{
    if valid_program(s, st) {
        let toks = choose|toks: Seq<TokenView>|
            #![trigger program_tokens(s, st, toks)]
            {
                &&& program_tokens(s, st, toks)
                &&& accepted(toks)
                &&& well_scoped(toks)
                &&& jumps_resolved(toks)
            };
        lemma_error_outside(s, st, f, toks);
        if let ErrorView::UndeclaredLabel(x) = f {
            let t2 = choose|t2: Seq<TokenView>|
                {
                    &&& #[trigger] program_tokens(s, st, t2)
                    &&& accepted(t2)
                    &&& well_scoped(t2)
                    &&& first_unresolved(
                        names_of(t2, NameKind::Jump),
                        names_of(t2, NameKind::Label),
                        0,
                    ) == Some(x)
                };
            lemma_program_tokens_unique(s, st, t2, toks);
            lemma_first_unresolved(names_of(toks, NameKind::Jump), names_of(toks, NameKind::Label), 0);
        }
    }
}

/// Of a source whose whole program is clean up to its end, only a label can
/// be the first error.
proof fn lemma_error_outside(s: Seq<char>, st: int, f: ErrorView, toks: Seq<TokenView>)
    requires
        source_error(s, st, f),
        program_tokens(s, st, toks),
        accepted(toks),
        well_scoped(toks),
    ensures
        f is UndeclaredLabel,
{
    let n = toks.len();
    if exists|i: nat| check_error_at(s, st, i, f) {
        let i = choose|i: nat| check_error_at(s, st, i, f);
        if i < n {
            lemma_no_clean_past(s, st, i, f, n, i + 1);
            lemma_lex_tokens_take(s, st, n, n);
            assert(lex_tokens(s, st, n)->Some_0.0 == toks);
            if run(toks.take(i + 1 as int)) is None {
                lemma_run_prefix(toks, i + 1 as int);
            }
            lemma_scoped_prefix(toks, i + 1 as int);
        } else {
            let ts = lex_tokens(s, st, i + 2)->Some_0.0;
            lemma_lex_tokens_take(s, st, i + 2, n);
            assert(ts.take(i as int)[n - 1] == toks[n - 1]);
            assert(ts.take(i as int).contains(TokenView::Eof));
        }
    } else if let ErrorView::Lex(e) = f {
        let k = choose|k: nat| lex_error_at(s, st, k, e);
        lemma_lex_tokens_take(s, st, k, k);
        if k + 1 <= n + 1 {
            lemma_lex_tokens_none(s, st, k + 1, n + 1);
        } else {
            let tk = lex_tokens(s, st, k)->Some_0.0;
            lemma_lex_tokens_take(s, st, k, n);
            assert(tk.take(k - 1)[n - 1] == toks[n - 1]);
            assert(tk.take(k - 1).contains(TokenView::Eof));
        }
    }
}

/// A source has one first error at most.
pub proof fn lemma_first_error_unique(s: Seq<char>, st: int, f1: ErrorView, f2: ErrorView)
    requires
        source_error(s, st, f1),
        source_error(s, st, f2),
    ensures
        f1 == f2,
{
    if exists|i: nat| check_error_at(s, st, i, f1) {
        let i1 = choose|i: nat| check_error_at(s, st, i, f1);
        lemma_check_first(s, st, i1, f1, f2);
    } else if exists|i: nat| check_error_at(s, st, i, f2) {
        let i2 = choose|i: nat| check_error_at(s, st, i, f2);
        lemma_check_first(s, st, i2, f2, f1);
    } else if let ErrorView::Lex(e1) = f1 {
        let k1 = choose|k: nat| lex_error_at(s, st, k, e1);
        lemma_lex_first(s, st, k1, e1, f2);
    } else if let ErrorView::Lex(e2) = f2 {
        let k2 = choose|k: nat| lex_error_at(s, st, k, e2);
        lemma_lex_first(s, st, k2, e2, f1);
    } else if let ErrorView::UndeclaredLabel(x1) = f1 {
        if let ErrorView::UndeclaredLabel(x2) = f2 {
            let a = choose|t: Seq<TokenView>|
                {
                    &&& #[trigger] program_tokens(s, st, t)
                    &&& accepted(t)
                    &&& well_scoped(t)
                    &&& first_unresolved(names_of(t, NameKind::Jump), names_of(t, NameKind::Label), 0)
                        == Some(x1)
                };
            let b = choose|t: Seq<TokenView>|
                {
                    &&& #[trigger] program_tokens(s, st, t)
                    &&& accepted(t)
                    &&& well_scoped(t)
                    &&& first_unresolved(names_of(t, NameKind::Jump), names_of(t, NameKind::Label), 0)
                        == Some(x2)
                };
            lemma_program_tokens_unique(s, st, a, b);
        }
    }
}

/// Where token `i` is a first fault, no other error is first.
proof fn lemma_check_first(s: Seq<char>, st: int, i: nat, f: ErrorView, g: ErrorView)
    requires
        check_error_at(s, st, i, f),
        source_error(s, st, g),
    ensures
        f == g,
{
    if exists|j: nat| check_error_at(s, st, j, g) {
        let j = choose|j: nat| check_error_at(s, st, j, g);
        if i < j {
            lemma_no_clean_past(s, st, i, f, j + 2, j);
        } else if j < i {
            lemma_no_clean_past(s, st, j, g, i + 2, i);
        }
    } else if let ErrorView::Lex(e) = g {
        let k = choose|k: nat| lex_error_at(s, st, k, e);
        lemma_lex_tokens_take(s, st, k, k);
        if k <= i + 1 {
            lemma_lex_tokens_none(s, st, k + 1, i + 2);
        } else {
            lemma_no_clean_past(s, st, i, f, k, (k - 1) as nat);
        }
    } else if let ErrorView::UndeclaredLabel(x) = g {
        let toks = choose|t: Seq<TokenView>|
            {
                &&& #[trigger] program_tokens(s, st, t)
                &&& accepted(t)
                &&& well_scoped(t)
                &&& first_unresolved(names_of(t, NameKind::Jump), names_of(t, NameKind::Label), 0)
                    == Some(x)
            };
        lemma_error_outside(s, st, f, toks);
    }
}

/// Where the lexer fails first on token `k`, no other error is first.
proof fn lemma_lex_first(s: Seq<char>, st: int, k: nat, e: LexError, g: ErrorView)
    requires
        lex_error_at(s, st, k, e),
        source_error(s, st, g),
        !exists|i: nat| check_error_at(s, st, i, g),
    ensures
        g == ErrorView::Lex(e),
{
    lemma_lex_tokens_take(s, st, k, k);
    if let ErrorView::Lex(e2) = g {
        let k2 = choose|k2: nat| lex_error_at(s, st, k2, e2);
        lemma_lex_tokens_take(s, st, k2, k2);
        if k < k2 {
            lemma_lex_tokens_none(s, st, k + 1, k2);
        } else if k2 < k {
            lemma_lex_tokens_none(s, st, k2 + 1, k);
        }
    } else if let ErrorView::UndeclaredLabel(x) = g {
        let toks = choose|t: Seq<TokenView>|
            {
                &&& #[trigger] program_tokens(s, st, t)
                &&& accepted(t)
                &&& well_scoped(t)
                &&& first_unresolved(names_of(t, NameKind::Jump), names_of(t, NameKind::Label), 0)
                    == Some(x)
            };
        lemma_error_outside(s, st, ErrorView::Lex(e), toks);
    }
}

/// Facts about appending one token to a trace, by one step of each definition.
proof fn lemma_push(toks: Seq<TokenView>, t: TokenView)
    ensures
        toks.push(t).drop_last() == toks,
        toks.push(t).last() == t,
        before_last(toks.push(t)) == (if toks.len() >= 1 {
            toks.last()
        } else {
            TokenView::Newline
        }),
        !toks.contains(TokenView::Eof) && !(t is Eof) ==> !toks.push(t).contains(TokenView::Eof),
        run(toks.push(t)) == match run(toks) {
            Some(st) => step(st, t),
            None => None,
        },
        run(toks) is Some ==> statements_text(toks.push(t)) == statements_text(toks) + emission(
            run(toks)->Some_0,
            t,
        ),
{
    assert(toks.push(t).drop_last() =~= toks);
    if !toks.contains(TokenView::Eof) && !(t is Eof) {
        assert forall|i: int| 0 <= i < toks.push(t).len() implies toks.push(
            t,
        )[i] != TokenView::Eof by {
            if i < toks.len() {
                assert(toks[i] != TokenView::Eof);
            }
        }
    }
}

/// Appending a string appends its text.
proof fn lemma_texts_push(v: Seq<String>, s: String)
    ensures
        texts(v.push(s)) == texts(v).push(s@),
{
    assert(texts(v.push(s)) =~= texts(v).push(s@));
}

/// Whether `v` holds a string with the text of `x`.
fn contains_name(v: &Vec<String>, x: &String) -> (r: bool)
    ensures
        r == texts(v@).contains(x@),
{
    let mut i: usize = 0;
    while i < v.len()
        invariant
            i <= v.len(),
            forall|j: int| 0 <= j < i ==> v@[j]@ != x@,
        decreases v.len() - i,
    {
        if v[i] == *x {
            assert(texts(v@)[i as int] == x@);
            return true;
        }
        i = i + 1;
    }
    assert(!texts(v@).contains(x@)) by {
        assert forall|j: int| 0 <= j < texts(v@).len() implies texts(v@)[j] != x@ by {
            assert(texts(v@)[j] == v@[j]@);
        }
    }
    false
}

/// A compiler from the token stream of one program to the generated program.
pub struct Parser {
    lexer: Lexer,
    emitter: Emitter,
    cur_token: Token,
    peek_token: Token,
    symbols: Vec<String>,
    labels_declared: Vec<String>,
    labels_gotoed: Vec<String>,
    /// The tokens consumed so far.
    consumed: Ghost<Seq<TokenView>>,
    /// Where in the source the first token was read.
    start: Ghost<int>,
    /// The header before the first declaration.
    header_base: Ghost<Seq<char>>,
    /// The body before the first statement.
    body_base: Ghost<Seq<char>>,
    /// What has been written for the current token, which is not consumed yet.
    pending: Ghost<Seq<char>>,
}

impl Parser {
    /// The tokens consumed so far, in order.
    pub closed spec fn consumed(&self) -> Seq<TokenView> {
        self.consumed@
    }

    /// The variables assigned or read in so far, in order of first assignment.
    pub closed spec fn variables(&self) -> Seq<Seq<char>> {
        texts(self.symbols@)
    }

    /// The labels declared so far, in order.
    pub closed spec fn labels(&self) -> Seq<Seq<char>> {
        texts(self.labels_declared@)
    }

    /// The labels jumped to so far, in order of first jump.
    pub closed spec fn jump_targets(&self) -> Seq<Seq<char>> {
        texts(self.labels_gotoed@)
    }

    /// The token the compiler stands at.
    pub closed spec fn current(&self) -> TokenView {
        self.cur_token@
    }

    /// The token after the current one.
    pub closed spec fn lookahead(&self) -> TokenView {
        self.peek_token@
    }

    /// The characters of the source text.
    pub closed spec fn source(&self) -> Seq<char> {
        self.lexer.source()
    }

    /// Where in the source the lexer stands.
    pub closed spec fn lexer_position(&self) -> int {
        self.lexer.position()
    }

    /// Where in the source the first token was read.
    pub closed spec fn start(&self) -> int {
        self.start@
    }

    /// The generated program so far.
    pub closed spec fn output(&self) -> Emitter {
        self.emitter
    }

    /// The header before the first declaration.
    pub closed spec fn header_base(&self) -> Seq<char> {
        self.header_base@
    }

    /// The lexer is well formed, and the consumed tokens, the current one and
    /// the lookahead are the tokens of the source from the start.
    pub closed spec fn lexed(&self) -> bool {
        &&& self.lexer.wf()
        &&& lex_tokens(self.lexer.source(), self.start@, self.consumed@.len() + 2) == Some(
            (self.consumed@ + seq![self.cur_token@, self.peek_token@], self.lexer.position()),
        )
    }

    /// The compiler's tables and header agree with the trace `toks`.
    pub closed spec fn scoped(&self, toks: Seq<TokenView>) -> bool {
        &&& texts(self.symbols@) == names_of(toks, NameKind::Variable)
        &&& texts(self.labels_declared@) == names_of(toks, NameKind::Label)
        &&& texts(self.labels_gotoed@) == names_of(toks, NameKind::Jump)
        &&& well_scoped(toks)
        &&& run(toks) is Some
        &&& !toks.contains(TokenView::Eof)
        &&& self.emitter.header_text() == self.header_base@ + declarations(
            names_of(toks, NameKind::Variable),
        )
    }

    /// The body holds the text written for the consumed tokens, and what has
    /// been written for the current one.
    pub closed spec fn written(&self) -> bool {
        self.emitter.body_text() == self.body_base@ + statements_text(self.consumed@) + self.pending@
    }

    pub closed spec fn wf(&self) -> bool {
        self.lexed() && self.scoped(self.consumed@) && self.written()
    }

    /// Nothing is consumed or written yet.
    pub closed spec fn fresh(&self) -> bool {
        self.consumed@.len() == 0 && self.pending@.len() == 0
    }

    /// Ready to consume the current token: all holds as if it were consumed.
    pub closed spec fn ready(&self) -> bool {
        &&& self.lexed()
        &&& self.scoped(self.consumed@.push(self.cur_token@))
        &&& !(self.cur_token@ is Eof)
        &&& run(self.consumed@) is Some
        &&& self.written()
        &&& self.pending@ == emission(run(self.consumed@)->Some_0, self.cur_token@)
    }

    /// A bound on the work left: it falls with each token consumed.
    pub closed spec fn measure(&self) -> int {
        2 * (self.lexer.source().len() - self.lexer.position()) + (if self.cur_token@ is Eof {
            0int
        } else {
            1int
        }) + (if self.peek_token@ is Eof {
            0int
        } else {
            1int
        })
    }

    /// The grammar's state after the consumed tokens.
    pub closed spec fn state(&self) -> GrammarState {
        run(self.consumed@)->Some_0
    }

    /// What an error `e` tells of the source from where this compilation started.
    pub closed spec fn at_fault(&self, e: CompileError) -> bool {
        fault(e, self.lexer.source(), self.start@)
    }

    /// Whether `e` is the first error of the source from where this
    /// compilation started.
    pub closed spec fn first_error_is(&self, e: CompileError) -> bool {
        source_error(self.lexer.source(), self.start@, error_view(e))
    }

    /// The current token is the first fault of the source, and gives `f`.
    proof fn lemma_fault_here(&self, f: ErrorView)
        requires
            self.lexed(),
            self.scoped(self.consumed@),
            token_error(self.consumed@, self.cur_token@) == Some(f),
        ensures
            source_error(self.lexer.source(), self.start@, f),
    {
        let c = self.consumed@;
        let ts = c + seq![self.cur_token@, self.peek_token@];
        assert(ts.take(c.len() as int) =~= c);
        assert(ts[c.len() as int] == self.cur_token@);
        assert(check_error_at(self.lexer.source(), self.start@, c.len(), f));
    }

    /// The current token cannot follow the consumed ones in a valid program.
    proof fn lemma_stuck(&self)
        requires
            self.lexed(),
            !self.consumed@.contains(TokenView::Eof),
            run(self.consumed@.push(self.cur_token@)) is None || !well_scoped(
                self.consumed@.push(self.cur_token@),
            ),
        ensures
            run(self.consumed@.push(self.cur_token@)) is None ==> grammar_fails(
                self.lexer.source(),
                self.start@,
            ),
            !reads_declared(self.consumed@.push(self.cur_token@)) ==> reads_fail(
                self.lexer.source(),
                self.start@,
            ),
            !labels_unique(self.consumed@.push(self.cur_token@)) ==> labels_fail(
                self.lexer.source(),
                self.start@,
            ),
    {
        let c = self.consumed@;
        let u = c.push(self.cur_token@);
        lemma_lex_tokens_take(self.lexer.source(), self.start@, (c.len() + 2) as nat, u.len());
        assert((c + seq![self.cur_token@, self.peek_token@]).take(u.len() as int) =~= u);
        lemma_push(c, self.cur_token@);
        lemma_invalid(self.lexer.source(), self.start@, u);
    }

    /// The last consumed token introduces no name, so an identifier that
    /// follows is read.
    pub closed spec fn in_expression(&self) -> bool {
        self.consumed@.len() == 0 || !opens_name(self.consumed@.last())
    }

    /// After one token was consumed: the effect of advancing from `old`, or the
    /// lexical error that the next token of the source gives.
    pub closed spec fn advanced(&self, old: &Parser, r: Result<(), CompileError>) -> bool {
        match lex_step(old.lexer.source(), old.lexer.position()) {
            (Ok(t), _) => {
                &&& r is Ok
                &&& self.wf()
                &&& self.consumed@ == old.consumed@.push(old.cur_token@)
                &&& self.cur_token@ == old.peek_token@
                &&& self.peek_token@ == t
                &&& self.pending@ == Seq::<char>::empty()
                &&& self.same_run(old)
                &&& self.measure() < old.measure()
                &&& forall|b: Seq<Block>|
                    #[trigger] closings(self.consumed@, b) == closings(old.consumed@, b) + if run(
                        self.consumed@,
                    ) == at(Phase::Statement, b) && run(old.consumed@) != at(Phase::Statement, b) {
                        1nat
                    } else {
                        0nat
                    }
            },
            (Err(e), _) => r == Err::<(), CompileError>(CompileError::Lex(e)) && old.at_fault(
                CompileError::Lex(e),
            ) && old.first_error_is(CompileError::Lex(e)),
        }
    }

    /// A step that kept the compiler well formed and consumed at least one token.
    pub closed spec fn stepped(&self, old: &Parser) -> bool {
        &&& self.wf()
        &&& self.same_run(old)
        &&& self.measure() < old.measure()
        &&& self.pending@ == Seq::<char>::empty()
    }

    /// Only the body and what is written for the current token changed.
    pub closed spec fn keeps_all_but_body(&self, old: &Parser) -> bool {
        &&& self.lexer == old.lexer
        &&& self.cur_token == old.cur_token
        &&& self.peek_token == old.peek_token
        &&& self.symbols == old.symbols
        &&& self.labels_declared == old.labels_declared
        &&& self.labels_gotoed == old.labels_gotoed
        &&& self.consumed == old.consumed
        &&& self.start == old.start
        &&& self.header_base == old.header_base
        &&& self.body_base == old.body_base
        &&& self.emitter.header_text() == old.emitter.header_text()
        &&& self.emitter.path_text() == old.emitter.path_text()
    }

    /// No statement level was entered.
    pub closed spec fn kept_closings(&self, old: &Parser) -> bool {
        forall|b: Seq<Block>| #[trigger]
            closings(self.consumed@, b) == closings(old.consumed@, b)
    }

    /// What no step of the compilation changes.
    pub closed spec fn same_run(&self, old: &Parser) -> bool {
        &&& self.lexer.source() == old.lexer.source()
        &&& self.start@ == old.start@
        &&& self.header_base@ == old.header_base@
        &&& self.body_base@ == old.body_base@
        &&& self.emitter.path_text() == old.emitter.path_text()
    }

    /// A compiler at the first two tokens of `lexer`.
    pub fn new(lexer: Lexer, emitter: Emitter) -> (r: Result<Parser, CompileError>)
        requires
            lexer.wf(),
        ensures
            match lex_tokens(lexer.source(), lexer.position(), 2) {
                Some(_) => {
                    &&& r is Ok
                    &&& r->Ok_0.wf()
                    &&& r->Ok_0.consumed() == Seq::<TokenView>::empty()
                    &&& r->Ok_0.source() == lexer.source()
                    &&& r->Ok_0.start() == lexer.position()
                    &&& r->Ok_0.output() == emitter
                    &&& r->Ok_0.header_base() == emitter.header_text()
                    &&& r->Ok_0.fresh()
                    &&& r->Ok_0.variables() == Seq::<Seq<char>>::empty()
                    &&& r->Ok_0.labels() == Seq::<Seq<char>>::empty()
                    &&& r->Ok_0.jump_targets() == Seq::<Seq<char>>::empty()
                    &&& match lex_step(lexer.source(), lexer.position()) {
                        (Ok(t0), q) => {
                            &&& r->Ok_0.current() == t0
                            &&& r->Ok_0.lookahead() == lex_step(lexer.source(), q).0->Ok_0
                        },
                        _ => false,
                    }
                },
                None => (match lex_step(lexer.source(), lexer.position()) {
                    (Err(e), _) => r == Err::<Parser, CompileError>(CompileError::Lex(e)),
                    (Ok(_), q) => r == Err::<Parser, CompileError>(
                        CompileError::Lex(lex_step(lexer.source(), q).0->Err_0),
                    ),
                }) && !valid_program(
                    lexer.source(),
                    lexer.position(),
                ) && source_error(lexer.source(), lexer.position(), error_view(r->Err_0))
                    && !sound_program(lexer.source(), lexer.position()) && grammar_fails(
                    lexer.source(),
                    lexer.position(),
                ),
            },
    {
        let ghost src = lexer.source();
        let ghost st = lexer.position();
        let mut lexer = lexer;
        assert(lex_tokens(src, st, 0) == Some((Seq::<TokenView>::empty(), st)));
        let cur_token = match lexer.get_next_token() {
            Ok(t) => t,
            Err(e) => {
                proof {
                    lemma_invalid_lex(src, st, Seq::<TokenView>::empty());
                    assert(lex_error_at(src, st, 0, e));
                }
                return Err(CompileError::Lex(e));
            },
        };
        assert(lex_tokens(src, st, 1) == Some((seq![cur_token@], lexer.position())));
        let peek_token = match lexer.get_next_token() {
            Ok(t) => t,
            Err(e) => {
                proof {
                    assert(seq![cur_token@].drop_last() =~= Seq::<TokenView>::empty());
                    lemma_invalid_lex(src, st, seq![cur_token@]);
                    assert(lex_error_at(src, st, 1, e));
                }
                return Err(CompileError::Lex(e));
            },
        };
        assert(lex_tokens(src, st, 2) == Some(
            (seq![cur_token@].push(peek_token@), lexer.position()),
        ));
        let ghost base = emitter.header_text();
        let ghost body = emitter.body_text();
        let p = Parser {
            lexer,
            emitter,
            cur_token,
            peek_token,
            symbols: Vec::new(),
            labels_declared: Vec::new(),
            labels_gotoed: Vec::new(),
            consumed: Ghost(Seq::empty()),
            start: Ghost(st),
            header_base: Ghost(base),
            body_base: Ghost(body),
            pending: Ghost(Seq::empty()),
        };
        assert(texts(p.symbols@) =~= Seq::<Seq<char>>::empty());
        assert(texts(p.labels_declared@) =~= Seq::<Seq<char>>::empty());
        assert(texts(p.labels_gotoed@) =~= Seq::<Seq<char>>::empty());
        assert(Seq::<TokenView>::empty() + seq![p.cur_token@, p.peek_token@] =~= seq![
            cur_token@,
        ].push(peek_token@));
        assert(base + declarations(Seq::<Seq<char>>::empty()) =~= base);
        assert(body + statements_text(Seq::<TokenView>::empty()) + Seq::<char>::empty() =~= body);
        Ok(p)
    }

    /// Consumes the current token and reads the next one from the lexer.
    fn advance_token(&mut self) -> (r: Result<(), CompileError>)
        requires
            old(self).ready(),
        ensures
            not_unresolved(r),
            final(self).advanced(old(self), r),
            r is Ok ==> final(self).output() == old(self).output(),
    {
        let ghost c = self.consumed@;
        let ghost cur = self.cur_token@;
        let ghost peek = self.peek_token@;
        proof {
            lemma_lex_progress(self.lexer.source(), self.lexer.position());
        }
        match self.lexer.get_next_token() {
            Ok(tok) => {
                let mut t = tok;
                std::mem::swap(&mut self.peek_token, &mut t);
                self.cur_token = t;
                self.consumed = Ghost(c.push(cur));
                self.pending = Ghost(Seq::empty());
                proof {
                    lemma_push(c, cur);
                    assert(c.push(cur) + seq![peek, self.peek_token@] =~= (c + seq![cur, peek]).push(
                        self.peek_token@,
                    ));
                    assert(self.emitter.body_text() =~= self.body_base@ + statements_text(c.push(cur))
                        + Seq::<char>::empty());
                    assert forall|b: Seq<Block>| #[trigger]
                        closings(c.push(cur), b) == closings(c, b) + if run(c.push(cur)) == at(
                            Phase::Statement,
                            b,
                        ) && run(c) != at(Phase::Statement, b) {
                            1nat
                        } else {
                            0nat
                        } by {}
                }
                Ok(())
            },
            Err(e) => {
                proof {
                    lemma_push(c, cur);
                    assert((c + seq![cur, peek]).drop_last() =~= c.push(cur));
                    lemma_invalid_lex(self.lexer.source(), old(self).start@, c + seq![cur, peek]);
                    assert((c + seq![cur, peek]).take(c.len() + 1 as int) =~= c.push(cur));
                    assert(lex_error_at(
                        self.lexer.source(),
                        old(self).start@,
                        (c.len() + 2) as nat,
                        e,
                    ));
                }
                Err(CompileError::Lex(e))
            },
        }
    }

    /// Takes the current token out, to report it in an error.
    fn take_current(&mut self) -> (t: Token)
        ensures
            t@ == old(self).current(),
    {
        let mut t = Token::Eof;
        std::mem::swap(&mut self.cur_token, &mut t);
        t
    }

    /// Fails unless `valid`, which tells whether the current token is the
    /// `expected` one; else consumes it.
    fn assert_and_advance_token(&mut self, valid: bool, expected: Token) -> (r: Result<
        (),
        CompileError,
    >)
        requires
            valid ==> old(self).ready(),
            !valid ==> old(self).wf() && run(old(self).consumed@.push(old(self).cur_token@)) is None,
            !valid ==> token_error(old(self).consumed@, old(self).cur_token@) == Some(
                ErrorView::Expected(expected@, old(self).cur_token@),
            ),
        ensures
            not_unresolved(r),
            !valid ==> r is Err && old(self).at_fault(r->Err_0) && old(self).first_error_is(
                r->Err_0,
            ),
            !valid ==> (match r {
                Err(CompileError::Expected { expected: e, found: f }) => e == expected && f@
                    == old(self).current(),
                _ => false,
            }),
            valid ==> final(self).advanced(old(self), r),
            valid && r is Ok ==> final(self).output() == old(self).output(),
    {
        if !valid {
            proof {
                self.lemma_stuck();
                self.lemma_fault_here(ErrorView::Expected(expected@, self.cur_token@));
            }
            let found = self.take_current();
            return Err(CompileError::Expected { expected, found });
        }
        self.advance_token()
    }

    /// A number or a declared variable, copied into the body.
    fn primary(&mut self) -> (r: Result<(), CompileError>)
        requires
            old(self).wf(),
            old(self).in_expression(),
            old(self).state().phase is Unary || old(self).state().phase is Operand
                || old(self).state().phase is AfterPrint,
            old(self).current() is Number || old(self).current() is Ident || step(
                old(self).state(),
                old(self).current(),
            ) is None,
            old(self).pending@ == lead(old(self).state().phase),
        ensures
            r is Ok ==> final(self).kept_closings(old(self)),
            not_unresolved(r),
            r is Err ==> old(self).at_fault(r->Err_0) && old(self).first_error_is(r->Err_0),
            r is Ok ==> final(self).state() == state_of(
                Phase::Operated(context_of(old(self).state().phase)),
                old(self).state().blocks,
            ),
            match old(self).current() {
                TokenView::Number(n) => final(self).advanced(old(self), r) && (r is Ok
                    ==> final(self).output().body_text() == old(self).output().body_text() + n),
                TokenView::Ident(x) => if names_of(old(self).consumed(), NameKind::Variable).contains(
                    x,
                ) {
                    final(self).advanced(old(self), r) && (r is Ok
                        ==> final(self).output().body_text() == old(self).output().body_text() + x)
                } else {
                    match r {
                        Err(CompileError::UndeclaredVariable(y)) => y@ == x && final(self).output()
                            == old(self).output(),
                        _ => false,
                    }
                },
                _ => match r {
                    Err(CompileError::UnexpectedToken(t)) => t@ == old(self).current(),
                    _ => false,
                },
            },
            r is Ok ==> final(self).in_expression() && final(self).output().header_text()
                == old(self).output().header_text(),
    {
        let ghost c = self.consumed@;
        proof {
            lemma_push(c, self.cur_token@);
        }
        match &self.cur_token {
            Token::Number(num) => {
                self.emitter.emit(num.as_str());
                self.pending = Ghost(self.pending@ + num@);
            },
            Token::Ident(ident) => {
                if !contains_name(&self.symbols, ident) {
                    proof {
                        self.lemma_stuck();
                        self.lemma_fault_here(ErrorView::UndeclaredVariable(ident@));
                    }
                    return Err(CompileError::UndeclaredVariable(ident.clone()));
                }
                self.emitter.emit(ident.as_str());
                self.pending = Ghost(self.pending@ + ident@);
            },
            _ => {
                proof {
                    self.lemma_stuck();
                    self.lemma_fault_here(ErrorView::UnexpectedToken(self.cur_token@));
                }
                let t = self.take_current();
                return Err(CompileError::UnexpectedToken(t));
            },
        }
        assert(self.emitter.body_text() =~= self.body_base@ + statements_text(self.consumed@)
            + self.pending@);
        assert(self.pending@ =~= emission(self.state(), self.cur_token@));
        self.advance_token()
    }

    /// Copies the current token, an operator, into the body and consumes it.
    fn copy_operator(&mut self) -> (r: Result<(), CompileError>)
        requires
            old(self).wf(),
            is_operator(old(self).current()),
            run(old(self).consumed@.push(old(self).cur_token@)) is Some,
            old(self).pending@ + operator_text(old(self).current()) == emission(
                old(self).state(),
                old(self).current(),
            ),
        ensures
            r is Ok ==> final(self).kept_closings(old(self)),
            not_unresolved(r),
            final(self).advanced(old(self), r),
            r is Ok ==> final(self).in_expression() && final(self).output().header_text()
                == old(self).output().header_text(),
    {
        proof {
            lemma_push(self.consumed@, self.cur_token@);
        }
        self.emitter.emit(self.cur_token.as_str());
        self.pending = Ghost(self.pending@ + operator_text(self.cur_token@));
        assert(self.emitter.body_text() =~= self.body_base@ + statements_text(self.consumed@)
            + self.pending@);
        self.advance_token()
    }

    fn is_comparison_operator(&self) -> (r: bool)
        ensures
            r == is_comparison(self.current()),
    {
        match self.cur_token {
            Token::Gt | Token::Gteq | Token::Lt | Token::Lteq | Token::Eqeq | Token::Noteq => true,
            _ => false,
        }
    }

    /// An operand with an optional sign.
    fn unary(&mut self) -> (r: Result<(), CompileError>)
        requires
            old(self).wf(),
            old(self).in_expression(),
            expression_start(old(self).state().phase, old(self).current()),
            old(self).pending@ == lead(old(self).state().phase),
        ensures
            r is Ok ==> final(self).kept_closings(old(self)),
            not_unresolved(r),
            r is Err ==> old(self).at_fault(r->Err_0) && old(self).first_error_is(r->Err_0),
            r is Ok ==> final(self).state() == state_of(
                Phase::Operated(context_of(old(self).state().phase)),
                old(self).state().blocks,
            ),
            r is Ok ==> final(self).stepped(old(self)) && final(self).in_expression(),
    {
        proof {
            lemma_push(self.consumed@, self.cur_token@);
        }
        if matches!(self.cur_token, Token::Plus | Token::Minus) {
            assert(Seq::<char>::empty() + operator_text(self.cur_token@) =~= operator_text(
                self.cur_token@,
            ));
            self.copy_operator()?;
        }
        proof {
            lemma_push(self.consumed@, self.cur_token@);
        }
        self.primary()
    }

    /// Operands joined by `*` and `/`.
    fn term(&mut self) -> (r: Result<(), CompileError>)
        requires
            old(self).wf(),
            old(self).in_expression(),
            expression_start(old(self).state().phase, old(self).current()),
            old(self).pending@ == lead(old(self).state().phase),
        ensures
            r is Ok ==> final(self).kept_closings(old(self)),
            not_unresolved(r),
            r is Err ==> old(self).at_fault(r->Err_0) && old(self).first_error_is(r->Err_0),
            r is Ok ==> final(self).state() == state_of(
                Phase::Operated(context_of(old(self).state().phase)),
                old(self).state().blocks,
            ),
            r is Ok ==> !(final(self).current() is Asterisk || final(self).current() is Slash),
            r is Ok ==> final(self).stepped(old(self)) && final(self).in_expression(),
    {
        self.unary()?;
        while matches!(self.cur_token, Token::Asterisk | Token::Slash)
            invariant
                self.stepped(old(self)),
                self.in_expression(),
                self.kept_closings(old(self)),
                self.state() == state_of(
                    Phase::Operated(context_of(old(self).state().phase)),
                    old(self).state().blocks,
                ),
            decreases self.measure(),
        {
            proof {
                lemma_push(self.consumed@, self.cur_token@);
                assert(Seq::<char>::empty() + operator_text(self.cur_token@) =~= operator_text(
                    self.cur_token@,
                ));
            }
            self.copy_operator()?;
            self.unary()?;
        }
        Ok(())
    }

    /// Terms joined by `+` and `-`.
    fn expression(&mut self) -> (r: Result<(), CompileError>)
        requires
            old(self).wf(),
            old(self).in_expression(),
            expression_start(old(self).state().phase, old(self).current()),
            old(self).pending@ == lead(old(self).state().phase),
        ensures
            r is Ok ==> final(self).kept_closings(old(self)),
            not_unresolved(r),
            r is Err ==> old(self).at_fault(r->Err_0) && old(self).first_error_is(r->Err_0),
            r is Ok ==> final(self).state() == state_of(
                Phase::Operated(context_of(old(self).state().phase)),
                old(self).state().blocks,
            ),
            r is Ok ==> !is_arithmetic(final(self).current()),
            r is Ok ==> final(self).stepped(old(self)) && final(self).in_expression(),
    {
        self.term()?;
        while matches!(self.cur_token, Token::Plus | Token::Minus)
            invariant
                self.stepped(old(self)),
                self.in_expression(),
                self.kept_closings(old(self)),
                !(self.current() is Asterisk || self.current() is Slash),
                self.state() == state_of(
                    Phase::Operated(context_of(old(self).state().phase)),
                    old(self).state().blocks,
                ),
            decreases self.measure(),
        {
            proof {
                lemma_push(self.consumed@, self.cur_token@);
                assert(Seq::<char>::empty() + operator_text(self.cur_token@) =~= operator_text(
                    self.cur_token@,
                ));
            }
            self.copy_operator()?;
            self.term()?;
        }
        Ok(())
    }

    /// Expressions joined by at least one comparison operator.
    fn comparison(&mut self) -> (r: Result<(), CompileError>)
        requires
            old(self).wf(),
            old(self).in_expression(),
            old(self).state().phase matches Phase::Unary(Context::Condition(_, false)),
            old(self).pending@ == Seq::<char>::empty(),
        ensures
            r is Ok ==> final(self).kept_closings(old(self)),
            not_unresolved(r),
            r is Err ==> old(self).at_fault(r->Err_0) && old(self).first_error_is(r->Err_0),
            r is Ok ==> final(self).state() == state_of(
                Phase::Operated(Context::Condition(block_of(old(self).state().phase), true)),
                old(self).state().blocks,
            ),
            r is Ok ==> !is_arithmetic(final(self).current()) && !is_comparison(
                final(self).current(),
            ),
            r is Ok ==> final(self).stepped(old(self)) && final(self).in_expression(),
    {
        self.expression()?;
        proof {
            lemma_push(self.consumed@, self.cur_token@);
        }
        if self.is_comparison_operator() {
            assert(Seq::<char>::empty() + operator_text(self.cur_token@) =~= operator_text(
                self.cur_token@,
            ));
            self.copy_operator()?;
            self.expression()?;
        } else {
            proof {
                self.lemma_stuck();
                self.lemma_fault_here(ErrorView::ExpectedComparison(self.cur_token@));
            }
            let t = self.take_current();
            return Err(CompileError::ExpectedComparison(t));
        }
        while self.is_comparison_operator()
            invariant
                self.stepped(old(self)),
                self.in_expression(),
                self.kept_closings(old(self)),
                !is_arithmetic(self.current()),
                self.state() == state_of(
                    Phase::Operated(Context::Condition(block_of(old(self).state().phase), true)),
                    old(self).state().blocks,
                ),
            decreases self.measure(),
        {
            proof {
                lemma_push(self.consumed@, self.cur_token@);
                assert(Seq::<char>::empty() + operator_text(self.cur_token@) =~= operator_text(
                    self.cur_token@,
                ));
            }
            self.copy_operator()?;
            self.expression()?;
        }
        Ok(())
    }

    /// One or more line breaks.
    fn nl(&mut self) -> (r: Result<(), CompileError>)
        requires
            old(self).wf(),
            step(old(self).state(), TokenView::Newline) matches Some(st) && st.phase is Statement,
            !(old(self).current() is Newline) ==> step(old(self).state(), old(self).current()) is None,
            old(self).pending@ == emission(old(self).state(), TokenView::Newline),
            !(old(self).current() is Newline) ==> grammar_error(old(self).state(), old(self).current())
                == ErrorView::Expected(TokenView::Newline, old(self).current()),
            !(old(self).state().phase is Statement),
        ensures
            r is Ok ==> forall|b: Seq<Block>| #[trigger]
                closings(final(self).consumed@, b) == closings(old(self).consumed@, b) + if b
                    == step(old(self).state(), TokenView::Newline)->Some_0.blocks {
                    1nat
                } else {
                    0nat
                },
            not_unresolved(r),
            r is Err ==> old(self).at_fault(r->Err_0) && old(self).first_error_is(r->Err_0),
            r is Ok ==> final(self).state() == step(old(self).state(), TokenView::Newline)->Some_0,
            r is Ok ==> !(final(self).current() is Newline),
            !(old(self).current() is Newline) ==> match r {
                Err(CompileError::Expected { expected: Token::Newline, found: f }) => f@ == old(
                    self,
                ).current(),
                _ => false,
            },
            r is Ok ==> final(self).stepped(old(self)) && final(self).output() == old(self).output(),
    {
        proof {
            lemma_push(self.consumed@, self.cur_token@);
        }
        self.assert_and_advance_token(matches!(self.cur_token, Token::Newline), Token::Newline)?;
        while matches!(self.cur_token, Token::Newline)
            invariant
                self.stepped(old(self)),
                self.output() == old(self).output(),
                self.state() == step(old(self).state(), TokenView::Newline)->Some_0,
                self.state().phase is Statement,
                old(self).current() is Newline,
                forall|b: Seq<Block>| #[trigger]
                    closings(self.consumed@, b) == closings(old(self).consumed@, b) + if b
                        == step(old(self).state(), TokenView::Newline)->Some_0.blocks {
                        1nat
                    } else {
                        0nat
                    },
            decreases self.measure(),
        {
            proof {
                lemma_push(self.consumed@, self.cur_token@);
                assert(step(self.state(), TokenView::Newline) == Some(self.state()));
            }
            self.advance_token()?;
        }
        Ok(())
    }

    /// The name that the current token holds, or the error for a token that is
    /// no identifier.
    fn current_name(&mut self) -> (r: Result<String, CompileError>)
        requires
            old(self).wf(),
            old(self).state().phase is Name,
        ensures
            not_unresolved(r),
            r is Err ==> old(self).at_fault(r->Err_0) && old(self).first_error_is(r->Err_0),
            match old(self).current() {
                TokenView::Ident(x) => r is Ok && r->Ok_0@ == x && *final(self) == *old(self),
                _ => match r {
                    Err(CompileError::Expected { expected: Token::Ident(e), found: f }) => e@.len()
                        == 0 && f@ == old(self).current(),
                    _ => false,
                },
            },
    {
        match &self.cur_token {
            Token::Ident(x) => Ok(x.clone()),
            _ => {
                proof {
                    lemma_push(self.consumed@, self.cur_token@);
                    self.lemma_stuck();
                    self.lemma_fault_here(
                        ErrorView::Expected(TokenView::Ident(Seq::<char>::empty()), self.cur_token@),
                    );
                }
                let found = self.take_current();
                Err(CompileError::Expected { expected: Token::Ident(String::new()), found })
            },
        }
    }

    /// Adds `name` to the variables, and its declaration to the header, unless
    /// it is there already.
    fn declare(&mut self, name: &String)
        requires
            old(self).lexed(),
            old(self).scoped(old(self).consumed@),
            introduces(before_last(old(self).consumed@.push(old(self).cur_token@)), NameKind::Variable),
            old(self).cur_token@ == TokenView::Ident(name@),
            run(old(self).consumed@.push(old(self).cur_token@)) is Some,
        ensures
            final(self).scoped(final(self).consumed@.push(final(self).cur_token@)),
            final(self).pending == old(self).pending,
            final(self).body_base == old(self).body_base,
            final(self).same_run(old(self)),
            final(self).consumed@ == old(self).consumed@,
            final(self).cur_token@ == old(self).cur_token@,
            final(self).peek_token@ == old(self).peek_token@,
            final(self).lexer == old(self).lexer,
            final(self).emitter.body_text() == old(self).emitter.body_text(),
    {
        let ghost c = self.consumed@;
        let ghost x = name@;
        proof {
            lemma_push(c, self.cur_token@);
        }
        if !contains_name(&self.symbols, name) {
            let ghost names = names_of(c, NameKind::Variable);
            let ghost before = self.emitter.header_text();
            let copy = name.clone();
            proof {
                lemma_texts_push(self.symbols@, copy);
            }
            self.symbols.push(copy);
            let mut d = String::from_str("float ");
            d.append(name.as_str());
            d.append(";");
            self.emitter.header_line(d.as_str());
            assert(names.push(x).drop_last() =~= names);
            assert(self.emitter.header_text() =~= self.header_base@ + declarations(names.push(x)));
        }
    }

    /// One statement and the line breaks after it. On success it ends at the
    /// statement level where it started, having entered that level once: it
    /// consumed exactly one statement, its blocks included, and the line
    /// breaks that follow.
    #[verifier::rlimit(100)]
    fn statement(&mut self) -> (r: Result<(), CompileError>)
        requires
            old(self).wf(),
            old(self).state().phase is Statement,
            old(self).pending@ == Seq::<char>::empty(),
            starts_statement(old(self).current()) || step(old(self).state(), old(self).current()) is None,
        ensures
            r is Ok ==> forall|b: Seq<Block>|
                b.len() <= old(self).state().blocks.len() ==> #[trigger] closings(
                    final(self).consumed@,
                    b,
                ) == closings(old(self).consumed@, b) + if b == old(self).state().blocks {
                    1nat
                } else {
                    0nat
                },
            not_unresolved(r),
            r is Err ==> old(self).at_fault(r->Err_0) && old(self).first_error_is(r->Err_0),
            r is Ok ==> final(self).stepped(old(self)),
            r is Ok ==> final(self).state() == old(self).state() && !(final(self).current() is Newline),
            !starts_statement(old(self).current()) ==> match r {
                Err(CompileError::InvalidStatement(t)) => t@ == old(self).current(),
                _ => false,
            },
            old(self).current() is Label && old(self).lookahead() is Ident && names_of(
                old(self).consumed(),
                NameKind::Label,
            ).contains(old(self).lookahead()->Ident_0) && lex_step(
                old(self).source(),
                old(self).lexer_position(),
            ).0 is Ok ==> match r {
                Err(CompileError::DuplicateLabel(x)) => x@ == old(self).lookahead()->Ident_0,
                _ => false,
            },
        decreases old(self).measure(),
    {
        proof {
            lemma_push(self.consumed@, self.cur_token@);
            assert(Seq::<char>::empty() + Seq::<char>::empty() =~= Seq::<char>::empty());
        }
        if matches!(self.cur_token, Token::Print) {
            self.advance_token()?;
            proof {
                lemma_push(self.consumed@, self.cur_token@);
            }
            if let Token::String(text) = &self.cur_token {
                self.emitter.emit("printf(\"");
                self.emitter.emit(text.as_str());
                self.emitter.emit_line("\\n\");");
                self.pending = Ghost(("printf(\""@ + text@ + "\\n\");"@).push('\n'));
                assert(self.emitter.body_text() =~= self.body_base@ + statements_text(self.consumed@)
                    + self.pending@);
                self.advance_token()?;
            } else {
                self.write("printf(\"%.2f\\n\", (float)(");
                assert(self.pending@ =~= print_prefix());
                self.expression()?;
                self.write_line("));");
                assert(self.pending@ =~= "));"@.push('\n'));
            }
        } else if matches!(self.cur_token, Token::If) || matches!(self.cur_token, Token::While) {
            let is_if = matches!(self.cur_token, Token::If);
            if is_if {
                self.write("if(");
            } else {
                self.write("while(");
            }
            assert(self.pending@ =~= emission(self.state(), self.cur_token@));
            self.advance_token()?;
            self.comparison()?;
            proof {
                lemma_push(self.consumed@, self.cur_token@);
            }
            if is_if {
                self.assert_and_advance_token(matches!(self.cur_token, Token::Then), Token::Then)?;
            } else {
                self.assert_and_advance_token(
                    matches!(self.cur_token, Token::Repeat),
                    Token::Repeat,
                )?;
            }
            self.write_line("){");
            assert(self.pending@ =~= "){"@.push('\n'));
            self.nl()?;
            let ghost inner = if is_if {
                Block::If
            } else {
                Block::While
            };
            while !self.closes_block(is_if)
                invariant
                    self.stepped(old(self)),
                    is_if == (old(self).current() is If),
                    old(self).current() is If || old(self).current() is While,
                    inner == (if is_if {
                        Block::If
                    } else {
                        Block::While
                    }),
                    self.state() == state_of(Phase::Statement, old(self).state().blocks.push(inner)),
                    forall|b: Seq<Block>|
                        b.len() <= old(self).state().blocks.len() ==> #[trigger] closings(
                            self.consumed@,
                            b,
                        ) == closings(old(self).consumed@, b),
                    !(self.current() is Newline),
                decreases self.measure(),
            {
                self.statement()?;
            }
            proof {
                lemma_push(self.consumed@, self.cur_token@);
                assert(old(self).state().blocks.push(inner).drop_last() =~= old(self).state().blocks);
            }
            self.write_line("}");
            assert(self.pending@ =~= "}"@.push('\n'));
            self.advance_token()?;
        } else if matches!(self.cur_token, Token::Label) {
            self.advance_token()?;
            let name = self.current_name()?;
            proof {
                lemma_push(self.consumed@, self.cur_token@);
            }
            if contains_name(&self.labels_declared, &name) {
                proof {
                    self.lemma_stuck();
                    self.lemma_fault_here(ErrorView::DuplicateLabel(name@));
                }
                return Err(CompileError::DuplicateLabel(name));
            }
            let copy = name.clone();
            proof {
                lemma_texts_push(self.labels_declared@, copy);
            }
            self.labels_declared.push(copy);
            self.write(name.as_str());
            self.write(":");
            assert(self.pending@ =~= name@ + ":"@);
            self.advance_token()?;
        } else if matches!(self.cur_token, Token::Goto) {
            self.advance_token()?;
            let name = self.current_name()?;
            proof {
                lemma_push(self.consumed@, self.cur_token@);
            }
            if !contains_name(&self.labels_gotoed, &name) {
                let copy = name.clone();
                proof {
                    lemma_texts_push(self.labels_gotoed@, copy);
                }
                self.labels_gotoed.push(copy);
            }
            self.write("goto ");
            self.write(name.as_str());
            self.write(";");
            assert(self.pending@ =~= "goto "@ + name@ + ";"@);
            self.advance_token()?;
        } else if matches!(self.cur_token, Token::Let) {
            self.advance_token()?;
            let name = self.current_name()?;
            proof {
                lemma_push(self.consumed@, self.cur_token@);
            }
            self.declare(&name);
            self.write(name.as_str());
            self.write(" = ");
            assert(self.pending@ =~= name@ + " = "@);
            self.advance_token()?;
            proof {
                lemma_push(self.consumed@, self.cur_token@);
            }
            self.assert_and_advance_token(matches!(self.cur_token, Token::Eq), Token::Eq)?;
            self.expression()?;
            self.write_line(";");
            assert(self.pending@ =~= ";"@.push('\n'));
        } else if matches!(self.cur_token, Token::Input) {
            self.advance_token()?;
            let name = self.current_name()?;
            proof {
                lemma_push(self.consumed@, self.cur_token@);
            }
            self.declare(&name);
            let mut read = String::from_str("if(0 == scanf(\"%f\", &");
            read.append(name.as_str());
            read.append(")) {");
            self.write_line(read.as_str());
            let mut reset = name.clone();
            reset.append(" = 0;");
            self.write_line(reset.as_str());
            self.write_line("scanf(\"%*s\");");
            self.write_line("}");
            assert(self.pending@ =~= input_text(name@));
            self.advance_token()?;
        } else {
            proof {
                self.lemma_stuck();
                self.lemma_fault_here(ErrorView::InvalidStatement(self.cur_token@));
            }
            let t = self.take_current();
            return Err(CompileError::InvalidStatement(t));
        }
        proof {
            lemma_push(self.consumed@, self.cur_token@);
        }
        self.nl()
    }

    /// Whether the current token closes an `IF` block, or a `WHILE` block.
    fn closes_block(&self, is_if: bool) -> (r: bool)
        ensures
            r == if is_if {
                self.current() is Endif
            } else {
                self.current() is Endwhile
            },
    {
        if is_if {
            matches!(self.cur_token, Token::Endif)
        } else {
            matches!(self.cur_token, Token::Endwhile)
        }
    }

    /// Writes `text` into the body, for the current token.
    fn write(&mut self, text: &str)
        ensures
            final(self).keeps_all_but_body(old(self)),
            final(self).emitter.body_text() == old(self).emitter.body_text() + text@,
            final(self).pending@ == old(self).pending@ + text@,
            old(self).written() ==> final(self).written(),
    {
        self.emitter.emit(text);
        self.pending = Ghost(self.pending@ + text@);
        assert(self.body_base@ + statements_text(self.consumed@) + self.pending@
            =~= old(self).body_base@ + statements_text(old(self).consumed@) + old(self).pending@
            + text@);
    }

    /// Writes `text` and a line break into the body, for the current token.
    fn write_line(&mut self, text: &str)
        ensures
            final(self).keeps_all_but_body(old(self)),
            final(self).emitter.body_text() == old(self).emitter.body_text() + text@.push('\n'),
            final(self).pending@ == old(self).pending@ + text@.push('\n'),
            old(self).written() ==> final(self).written(),
    {
        self.emitter.emit_line(text);
        self.pending = Ghost(self.pending@ + text@.push('\n'));
        assert(self.emitter.body_text() =~= old(self).emitter.body_text() + text@.push('\n'));
        assert(self.body_base@ + statements_text(self.consumed@) + self.pending@
            =~= old(self).body_base@ + statements_text(old(self).consumed@) + old(self).pending@
            + text@.push('\n'));
    }

    /// Compiles a whole program: the prologue, every statement up to the end
    /// of input, the epilogue, and then the check that every label jumped to
    /// is declared.
    pub fn program(&mut self) -> (r: Result<(), CompileError>)
        requires
            old(self).wf(),
            old(self).fresh(),
        ensures
            r is Ok ==> {
                &&& final(self).lexed()
                &&& final(self).scoped(final(self).consumed())
                &&& final(self).current() is Eof
                &&& well_scoped(final(self).consumed())
                &&& jumps_resolved(final(self).consumed())
                &&& final(self).output().header_text() == old(self).output().header_text()
                    + prologue() + declarations(names_of(final(self).consumed(), NameKind::Variable))
                &&& final(self).output().body_text() == old(self).output().body_text() + statements_text(
                    final(self).consumed(),
                ) + epilogue()
                &&& accepted(final(self).consumed().push(TokenView::Eof))
                &&& final(self).source() == old(self).source()
                &&& final(self).start() == old(self).start()
                &&& program_tokens(
                    old(self).source(),
                    old(self).start(),
                    final(self).consumed().push(TokenView::Eof),
                )
            },
            r is Ok <==> valid_program(old(self).source(), old(self).start()),
            r matches Err(CompileError::UndeclaredLabel(_)) <==> sound_program(
                old(self).source(),
                old(self).start(),
            ) && !valid_program(old(self).source(), old(self).start()),
            r is Err ==> fault(r->Err_0, old(self).source(), old(self).start()),
            r is Err ==> source_error(old(self).source(), old(self).start(), error_view(r->Err_0)),
            match r {
                Err(CompileError::UndeclaredLabel(x)) => names_of(
                    final(self).consumed(),
                    NameKind::Jump,
                ).contains(x@) && !names_of(final(self).consumed(), NameKind::Label).contains(x@),
                _ => true,
            },
    {
        assert(self.pending@ =~= Seq::<char>::empty());
        let ghost h0 = self.emitter.header_text();
        self.emitter.header_line("#include <stdio.h>");
        self.emitter.header_line("int main(void){");
        assert(self.emitter.header_text() =~= h0 + prologue());
        self.header_base = Ghost(self.emitter.header_text());
        assert(self.emitter.header_text() =~= self.header_base@ + declarations(
            names_of(self.consumed@, NameKind::Variable),
        ));
        assert(self.emitter.body_text() =~= self.body_base@ + statements_text(self.consumed@)
            + self.pending@);
        let ghost first = *self;
        while matches!(self.cur_token, Token::Newline)
            invariant
                self.wf(),
                self.same_run(&first),
                self.source() == old(self).source(),
                self.start() == old(self).start(),
                self.state() == state_of(Phase::Statement, Seq::<Block>::empty()),
                self.pending@ == Seq::<char>::empty(),
                self.body_base@ == old(self).emitter.body_text(),
            decreases self.measure(),
        {
            proof {
                lemma_push(self.consumed@, self.cur_token@);
            }
            self.advance_token()?;
        }
        while !matches!(self.cur_token, Token::Eof)
            invariant
                self.wf(),
                self.same_run(&first),
                self.source() == old(self).source(),
                self.start() == old(self).start(),
                self.state() == state_of(Phase::Statement, Seq::<Block>::empty()),
                !(self.current() is Newline),
                self.pending@ == Seq::<char>::empty(),
                self.body_base@ == old(self).emitter.body_text(),
            decreases self.measure(),
        {
            self.statement()?;
        }
        proof {
            self.lemma_complete();
        }
        let ghost b = self.emitter.body_text();
        self.emitter.emit_line("return 0;");
        self.emitter.emit_line("}");
        assert(self.emitter.body_text() =~= b + epilogue());
        assert(b =~= old(self).emitter.body_text() + statements_text(self.consumed@));
        let mut i: usize = 0;
        while i < self.labels_gotoed.len()
            invariant
                self.lexed(),
                self.scoped(self.consumed@),
                self.same_run(&first),
                self.source() == old(self).source(),
                self.start() == old(self).start(),
                self.state() == state_of(Phase::Statement, Seq::<Block>::empty()),
                b == old(self).emitter.body_text() + statements_text(self.consumed@),
                self.current() is Eof,
                sound_program(old(self).source(), old(self).start()),
                self.emitter.body_text() == b + epilogue(),
                i <= self.labels_gotoed.len(),
                forall|j: int|
                    0 <= j < i ==> texts(self.labels_declared@).contains(
                        #[trigger] texts(self.labels_gotoed@)[j],
                    ),
                first_unresolved(texts(self.labels_gotoed@), texts(self.labels_declared@), 0)
                    == first_unresolved(
                    texts(self.labels_gotoed@),
                    texts(self.labels_declared@),
                    i as int,
                ),
            decreases self.labels_gotoed.len() - i,
        {
            if !contains_name(&self.labels_declared, &self.labels_gotoed[i]) {
                assert(texts(self.labels_gotoed@)[i as int] == self.labels_gotoed@[i as int]@);
                proof {
                    self.lemma_unresolved(self.labels_gotoed@[i as int]@);
                    self.lemma_whole();
                    let u = self.consumed@.push(TokenView::Eof);
                    lemma_push(self.consumed@, TokenView::Eof);
                    assert(accepted(u));
                    assert(first_unresolved(
                        names_of(u, NameKind::Jump),
                        names_of(u, NameKind::Label),
                        0,
                    ) == Some(self.labels_gotoed@[i as int]@));
                }
                return Err(CompileError::UndeclaredLabel(self.labels_gotoed[i].clone()));
            }
            assert(texts(self.labels_gotoed@)[i as int] == self.labels_gotoed@[i as int]@);
            i = i + 1;
        }
        assert forall|x: Seq<char>|
            #![trigger names_of(self.consumed@, NameKind::Jump).contains(x)]
            names_of(self.consumed@, NameKind::Jump).contains(x) implies names_of(
            self.consumed@,
            NameKind::Label,
        ).contains(x) by {
            let j = choose|j: int|
                0 <= j < texts(self.labels_gotoed@).len() && texts(self.labels_gotoed@)[j] == x;
            assert(texts(self.labels_declared@).contains(texts(self.labels_gotoed@)[j]));
        }
        proof {
            self.lemma_complete();
            self.lemma_whole();
            lemma_push(self.consumed@, TokenView::Eof);
        }
        Ok(())
    }

    /// The consumed tokens and the end of input are the source's whole program.
    proof fn lemma_whole(&self)
        requires
            self.lexed(),
            self.scoped(self.consumed@),
            self.current() is Eof,
        ensures
            program_tokens(self.lexer.source(), self.start@, self.consumed@.push(TokenView::Eof)),
            forall|k: NameKind| #[trigger]
                names_of(self.consumed@.push(TokenView::Eof), k) == names_of(self.consumed@, k),
            well_scoped(self.consumed@.push(TokenView::Eof)) == well_scoped(self.consumed@),
    {
        let c = self.consumed@;
        let u = c.push(TokenView::Eof);
        lemma_lex_tokens_take(self.lexer.source(), self.start@, (c.len() + 2) as nat, u.len());
        assert((c + seq![self.cur_token@, self.peek_token@]).take(u.len() as int) =~= u);
        lemma_push(c, TokenView::Eof);
    }

    /// A label jumped to but not declared: the source holds no valid program.
    proof fn lemma_unresolved(&self, x: Seq<char>)
        requires
            self.lexed(),
            self.scoped(self.consumed@),
            self.current() is Eof,
            names_of(self.consumed@, NameKind::Jump).contains(x),
            !names_of(self.consumed@, NameKind::Label).contains(x),
        ensures
            !valid_program(self.lexer.source(), self.start@),
    {
        let u = self.consumed@.push(TokenView::Eof);
        self.lemma_whole();
        lemma_push(self.consumed@, TokenView::Eof);
        if valid_program(self.lexer.source(), self.start@) {
            let toks = choose|toks: Seq<TokenView>|
                #![trigger program_tokens(self.lexer.source(), self.start@, toks)]
                {
                    &&& program_tokens(self.lexer.source(), self.start@, toks)
                    &&& accepted(toks)
                    &&& well_scoped(toks)
                    &&& jumps_resolved(toks)
                };
            lemma_lex_tokens_take(self.lexer.source(), self.start@, u.len(), u.len());
            assert(u.take(u.len() as int) =~= u);
            lemma_program_tokens_unique(self.lexer.source(), self.start@, u, toks);
            assert(names_of(u, NameKind::Jump).contains(x));
        }
    }

    /// A whole program read: the source is sound, and valid if its labels
    /// resolve.
    proof fn lemma_complete(&self)
        requires
            self.lexed(),
            self.scoped(self.consumed@),
            self.current() is Eof,
            self.state() == state_of(Phase::Statement, Seq::<Block>::empty()),
        ensures
            sound_program(self.lexer.source(), self.start@),
            jumps_resolved(self.consumed@) ==> valid_program(self.lexer.source(), self.start@),
    {
        let u = self.consumed@.push(TokenView::Eof);
        self.lemma_whole();
        lemma_push(self.consumed@, TokenView::Eof);
        assert(accepted(u));
        if jumps_resolved(self.consumed@) {
            assert(jumps_resolved(u));
        }
    }

    /// The emitter, with the generated program in it.
    pub fn into_emitter(self) -> (r: Emitter)
        ensures
            r == self.output(),
    {
        self.emitter
    }
}

/// Compiles the program `source` into the text of the generated program.
///
/// It succeeds exactly when the source holds a valid program: one that follows
/// the grammar, reads no identifier before a `LET` or `INPUT` of it, declares
/// no label twice and jumps to declared labels only. On success the output is
/// the prologue, one declaration for each variable assigned or read in, in
/// order of first assignment, the compiled statements, and the epilogue.
///
/// Of a program that follows the grammar: where all holds but a jump to an
/// undeclared label, wherever it stands, the error is `UndeclaredLabel`; where
/// labels are unique but an identifier is read before it is assigned, the
/// error is `UndeclaredVariable`; where every read is assigned before but a
/// label is declared twice, the error is `DuplicateLabel`.
pub fn compile(source: &str) -> (r: Result<String, CompileError>)
    requires
        source@.len() < usize::MAX,
    ensures
        r is Ok <==> valid_program(source@, 0),
        r is Err ==> fault(r->Err_0, source@, 0),
        r is Err ==> source_error(source@, 0, error_view(r->Err_0)),
        forall|f: ErrorView|
            #[trigger] source_error(source@, 0, f) ==> r is Err && error_view(r->Err_0) == f,
        r matches Err(CompileError::UndeclaredLabel(_)) <==> sound_program(source@, 0)
            && !valid_program(source@, 0),
        (exists|toks: Seq<TokenView>|
            {
                &&& #[trigger] program_tokens(source@, 0, toks)
                &&& accepted(toks)
                &&& labels_unique(toks)
                &&& !reads_declared(toks)
            }) ==> r matches Err(CompileError::UndeclaredVariable(_)),
        (exists|toks: Seq<TokenView>|
            {
                &&& #[trigger] program_tokens(source@, 0, toks)
                &&& accepted(toks)
                &&& reads_declared(toks)
                &&& !labels_unique(toks)
            }) ==> r matches Err(CompileError::DuplicateLabel(_)),
        r is Ok ==> exists|toks: Seq<TokenView>|
            {
                &&& program_tokens(source@, 0, toks)
                &&& accepted(toks)
                &&& well_scoped(toks)
                &&& jumps_resolved(toks)
                &&& r->Ok_0@ == prologue() + declarations(names_of(toks, NameKind::Variable))
                    + statements_text(toks) + epilogue()
            },
{
    let lexer = Lexer::new(source);
    let emitter = Emitter::new(String::from_str("out.c"));
    let mut parser = match Parser::new(lexer, emitter) {
        Ok(p) => p,
        Err(e) => {
            proof {
                assert forall|f: ErrorView| #[trigger] source_error(source@, 0, f) implies error_view(e)
                    == f by {
                    lemma_first_error_unique(source@, 0, f, error_view(e));
                }
            }
            return Err(e);
        },
    };
    let done = parser.program();
    proof {
        // Whatever came out, the whole program is the only one of the source.
        assert forall|a: Seq<TokenView>, b: Seq<TokenView>|
            program_tokens(source@, 0, a) && program_tokens(source@, 0, b) implies a == b by {
            lemma_program_tokens_unique(source@, 0, a, b);
        }
    }
    match done {
        Ok(()) => {},
        Err(e) => {
            proof {
                assert forall|f: ErrorView| #[trigger] source_error(source@, 0, f) implies error_view(e)
                    == f by {
                    lemma_first_error_unique(source@, 0, f, error_view(e));
                }
            }
            return Err(e);
        },
    }
    let ghost c = parser.consumed();
    proof {
        parser.lemma_whole();
    }
    let emitter = parser.into_emitter();
    let out = emitter.output();
    proof {
        let toks = c.push(TokenView::Eof);
        assert(jumps_resolved(toks));
        lemma_push(c, TokenView::Eof);
        assert(statements_text(toks) =~= statements_text(c));
        assert(out@ =~= prologue() + declarations(names_of(toks, NameKind::Variable))
            + statements_text(toks) + epilogue());
        assert(program_tokens(source@, 0, toks));
        assert forall|f: ErrorView| #[trigger] source_error(source@, 0, f) implies false by {
            lemma_error_not_valid(source@, 0, f);
        }
    }
    Ok(out)
}

} // verus!
