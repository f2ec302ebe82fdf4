//! The syntax tree and the recursive-descent parser that builds it from
//! tokens.

use vstd::prelude::*;
use crate::number::Number;
use crate::token::{Token, TokenType, token_views};
use crate::tokenizer::{literal_matches, lexeme_number, scan, tokenize};
use crate::tokenizer_error::TokenizerError;

verus! {

/// The value written by a literal expression.
#[derive(Debug)]
pub enum Literal {
    String(String),
    Number(Number),
    Nil,
    Bool(bool),
}

impl Clone for Literal {
    fn clone(&self) -> (r: Self)
        ensures
            r == *self,
    {
        match self {
            Literal::String(s) => Literal::String(s.clone()),
            Literal::Number(n) => Literal::Number(n.clone()),
            Literal::Nil => Literal::Nil,
            Literal::Bool(b) => Literal::Bool(*b),
        }
    }
}

#[derive(Debug)]
pub enum Expr {
    Variable(Token),
    Assign(Token, Box<Expr>),
    Literal(Literal),
    Binary(Box<Expr>, Token, Box<Expr>),
    Grouping(Box<Expr>),
    Unary(Token, Box<Expr>),
}

#[derive(Debug)]
pub enum Stmt {
    Expression(Expr),
    Print(Expr),
    Var { name: Token, initializer: Option<Expr> },
    Block(Vec<Stmt>),
}

/// A statement as the contracts see it.
pub enum StmtView {
    Expression(Expr),
    Print(Expr),
    Var { name: Token, initializer: Option<Expr> },
    Block(Seq<StmtView>),
}

impl Stmt {
    pub open spec fn model(&self) -> StmtView
        decreases self,
    {
        match self {
            Stmt::Expression(e) => StmtView::Expression(*e),
            Stmt::Print(e) => StmtView::Print(*e),
            Stmt::Var { name, initializer } => StmtView::Var {
                name: *name,
                initializer: *initializer,
            },
            Stmt::Block(v) => StmtView::Block(stmts_model(v@)),
        }
    }
}

/// The views of a sequence of statements.
pub open spec fn stmts_model(s: Seq<Stmt>) -> Seq<StmtView>
    decreases s,
{
    if s.len() == 0 {
        seq![]
    } else {
        stmts_model(s.drop_last()).push(s.last().model())
    }
}

/// What went wrong while parsing.
#[derive(Debug, Clone, Copy, PartialEq, Eq, Structural)]
pub enum ParseErrorKind {
    ExpectExpression,
    ExpectRightParen,
    ExpectRightBrace,
    ExpectVariableName,
    ExpectSemicolonAfterValue,
    ExpectSemicolonAfterExpression,
    ExpectSemicolonAfterVariable,
    InvalidAssignmentTarget,
}

/// The message that describes an error.
pub open spec fn error_message(k: ParseErrorKind) -> Seq<char> {
    match k {
        ParseErrorKind::ExpectExpression => "Expect expression."@,
        ParseErrorKind::ExpectRightParen => "Expect ')' after expression."@,
        ParseErrorKind::ExpectRightBrace => "Expect '}' after block."@,
        ParseErrorKind::ExpectVariableName => "Expect variable name."@,
        ParseErrorKind::ExpectSemicolonAfterValue => "Expect ';' after value."@,
        ParseErrorKind::ExpectSemicolonAfterExpression => "Expect ';' after expression."@,
        ParseErrorKind::ExpectSemicolonAfterVariable => "Expect ';' after variable declaration."@,
        ParseErrorKind::InvalidAssignmentTarget => "Invalid assignment target."@,
    }
}

impl ParseErrorKind {
    /// The message that describes the error.
    pub fn message(&self) -> (r: &'static str)
        ensures
            r@ == error_message(*self),
    {
        match self {
            ParseErrorKind::ExpectExpression => "Expect expression.",
            ParseErrorKind::ExpectRightParen => "Expect ')' after expression.",
            ParseErrorKind::ExpectRightBrace => "Expect '}' after block.",
            ParseErrorKind::ExpectVariableName => "Expect variable name.",
            ParseErrorKind::ExpectSemicolonAfterValue => "Expect ';' after value.",
            ParseErrorKind::ExpectSemicolonAfterExpression => "Expect ';' after expression.",
            ParseErrorKind::ExpectSemicolonAfterVariable => "Expect ';' after variable declaration.",
            ParseErrorKind::InvalidAssignmentTarget => "Invalid assignment target.",
        }
    }
}

/// The first syntax error of a program, with the line of the token where
/// it was found.
#[derive(Debug, Clone, Copy, PartialEq, Eq, Structural)]
pub struct ParseError {
    pub kind: ParseErrorKind,
    pub line: usize,
}

/// Tokens that a parser can work on: they end with `EOF`, and the literal
/// of each agrees with its lexeme (see `literal_matches`), as it does for
/// the tokens that `tokenize` makes.
pub open spec fn tokens_ok(toks: Seq<Token>) -> bool {
    &&& toks.len() > 0
    &&& toks.last().token_type == TokenType::EOF
    &&& forall|i: int| 0 <= i < toks.len() ==> literal_matches(#[trigger] toks[i]@)
}

pub open spec fn valid_pos(toks: Seq<Token>, p: int) -> bool {
    0 <= p < toks.len()
}

/// The token at `p` has kind `k`, and is not the end of input.
pub open spec fn at(toks: Seq<Token>, p: int, k: TokenType) -> bool {
    valid_pos(toks, p) && toks[p].token_type != TokenType::EOF && toks[p].token_type == k
}

pub open spec fn err_at(toks: Seq<Token>, p: int, kind: ParseErrorKind) -> ParseError {
    ParseError { kind, line: toks[p].line }
}

/// The operators of a level of binary expressions, from the loosest
/// (`or`, level 0) to the tightest (`*` and `/`, level 5).
pub open spec fn level_op(level: int, k: TokenType) -> bool {
    if level == 0 {
        k == TokenType::Or
    } else if level == 1 {
        k == TokenType::And
    } else if level == 2 {
        k == TokenType::Equal_Equal || k == TokenType::Bang_Equal
    } else if level == 3 {
        k == TokenType::Greater || k == TokenType::Greater_Equal || k == TokenType::Less
            || k == TokenType::Less_Equal
    } else if level == 4 {
        k == TokenType::Plus || k == TokenType::Minus
    } else {
        k == TokenType::Star || k == TokenType::Slash
    }
}

pub open spec fn op_at(toks: Seq<Token>, p: int, level: int) -> bool {
    valid_pos(toks, p) && toks[p].token_type != TokenType::EOF && level_op(level, toks[p].token_type)
}

/// The error of a parse that does not move forward; no rule of the grammar
/// gives it, since every rule that succeeds consumes a token.
pub open spec fn stalled() -> ParseError {
    ParseError { kind: ParseErrorKind::ExpectExpression, line: 0 }
}

/// The number that a number token carries: the number its lexeme writes
/// (see `tokens_ok` and `lemma_primary_literals`).
pub open spec fn number_of(t: Token) -> Number {
    t.literal->Num_0
}

/// The text that a string token carries: its lexeme without the quotes
/// (see `tokens_ok` and `lemma_primary_literals`).
pub open spec fn string_of(t: Token) -> String {
    t.literal->Str_0
}

/// `expression → assignment`: the expression that starts at `p`, and the
/// position after it.
pub open spec fn p_expression(toks: Seq<Token>, p: int) -> Result<(Expr, int), ParseError>
    decreases toks.len() - p, 12nat,
{
    if !valid_pos(toks, p) {
        Err(stalled())
    } else {
        p_assignment(toks, p)
    }
}

/// `assignment → IDENTIFIER "=" assignment | logic_or`
pub open spec fn p_assignment(toks: Seq<Token>, p: int) -> Result<(Expr, int), ParseError>
    decreases toks.len() - p, 11nat,
{
    if !valid_pos(toks, p) {
        Err(stalled())
    } else {
        match p_binary(toks, p, 0) {
            Err(e) => Err(e),
            Ok((target, q)) => {
                if !(p < q < toks.len()) {
                    Err(stalled())
                } else if at(toks, q, TokenType::Equal) {
                    match p_assignment(toks, q + 1) {
                        Err(e) => Err(e),
                        Ok((value, r)) => match target {
                            Expr::Variable(name) => Ok((Expr::Assign(name, Box::new(value)), r)),
                            _ => Err(err_at(toks, q, ParseErrorKind::InvalidAssignmentTarget)),
                        },
                    }
                } else {
                    Ok((target, q))
                }
            },
        }
    }
}

/// Binary expressions of `level` and tighter, left-associative; level 6 is
/// `unary`.
pub open spec fn p_binary(toks: Seq<Token>, p: int, level: nat) -> Result<(Expr, int), ParseError>
    decreases toks.len() - p, (10 - level) as nat,
{
    if !valid_pos(toks, p) || level > 6 {
        Err(stalled())
    } else if level == 6 {
        p_unary(toks, p)
    } else {
        match p_binary(toks, p, level + 1) {
            Err(e) => Err(e),
            Ok((left, q)) => {
                if !(p < q < toks.len()) {
                    Err(stalled())
                } else {
                    p_binary_rest(toks, q, level, left)
                }
            },
        }
    }
}

/// The operators of `level` and their right operands that follow `left`.
pub open spec fn p_binary_rest(toks: Seq<Token>, q: int, level: nat, left: Expr) -> Result<
    (Expr, int),
    ParseError,
>
    decreases toks.len() - q, 0nat,
{
    if !valid_pos(toks, q) || level >= 6 {
        Err(stalled())
    } else if op_at(toks, q, level as int) {
        match p_binary(toks, q + 1, level + 1) {
            Err(e) => Err(e),
            Ok((right, r)) => {
                if !(q < r < toks.len()) {
                    Err(stalled())
                } else {
                    p_binary_rest(toks, r, level, Expr::Binary(Box::new(left), toks[q], Box::new(right)))
                }
            },
        }
    } else {
        Ok((left, q))
    }
}

/// `unary → ("!" | "-") unary | primary`
pub open spec fn p_unary(toks: Seq<Token>, p: int) -> Result<(Expr, int), ParseError>
    decreases toks.len() - p, 3nat,
{
    if !valid_pos(toks, p) {
        Err(stalled())
    } else if at(toks, p, TokenType::Bang) || at(toks, p, TokenType::Minus) {
        match p_unary(toks, p + 1) {
            Err(e) => Err(e),
            Ok((right, q)) => Ok((Expr::Unary(toks[p], Box::new(right)), q)),
        }
    } else {
        p_primary(toks, p)
    }
}

/// `primary → NUMBER | STRING | "true" | "false" | "nil" | IDENTIFIER | "(" expression ")"`
pub open spec fn p_primary(toks: Seq<Token>, p: int) -> Result<(Expr, int), ParseError>
    decreases toks.len() - p, 1nat,
{
    if !valid_pos(toks, p) {
        Err(stalled())
    } else if at(toks, p, TokenType::False) {
        Ok((Expr::Literal(Literal::Bool(false)), p + 1))
    } else if at(toks, p, TokenType::True) {
        Ok((Expr::Literal(Literal::Bool(true)), p + 1))
    } else if at(toks, p, TokenType::Nil) {
        Ok((Expr::Literal(Literal::Nil), p + 1))
    } else if at(toks, p, TokenType::Number) {
        Ok((Expr::Literal(Literal::Number(number_of(toks[p]))), p + 1))
    } else if at(toks, p, TokenType::String) {
        Ok((Expr::Literal(Literal::String(string_of(toks[p]))), p + 1))
    } else if at(toks, p, TokenType::Identifier) {
        Ok((Expr::Variable(toks[p]), p + 1))
    } else if at(toks, p, TokenType::Left_Paren) {
        match p_expression(toks, p + 1) {
            Err(e) => Err(e),
            Ok((inner, q)) => {
                if at(toks, q, TokenType::Right_Paren) {
                    Ok((Expr::Grouping(Box::new(inner)), q + 1))
                } else {
                    Err(err_at(toks, q, ParseErrorKind::ExpectRightParen))
                }
            },
        }
    } else {
        Err(err_at(toks, p, ParseErrorKind::ExpectExpression))
    }
}

/// The end of a simple statement at `q`: a `;`, which `semi` makes
/// mandatory and which is otherwise taken when present.
pub open spec fn p_terminated(
    toks: Seq<Token>,
    s: StmtView,
    q: int,
    semi: bool,
    missing: ParseErrorKind,
) -> Result<(StmtView, int), ParseError> {
    if at(toks, q, TokenType::Semicolon) {
        Ok((s, q + 1))
    } else if semi {
        Err(err_at(toks, q, missing))
    } else {
        Ok((s, q))
    }
}

/// `declaration → "var" IDENTIFIER ("=" expression)? | statement`
pub open spec fn p_declaration(toks: Seq<Token>, p: int, semi: bool) -> Result<(StmtView, int), ParseError>
    decreases toks.len() - p, 15nat,
{
    if !valid_pos(toks, p) {
        Err(stalled())
    } else if at(toks, p, TokenType::Var) {
        p_var_declaration(toks, p + 1, semi)
    } else {
        p_statement(toks, p, semi)
    }
}

/// What follows `var`.
pub open spec fn p_var_declaration(toks: Seq<Token>, p: int, semi: bool) -> Result<
    (StmtView, int),
    ParseError,
>
    decreases toks.len() - p, 14nat,
{
    if !valid_pos(toks, p) {
        Err(stalled())
    } else if !at(toks, p, TokenType::Identifier) {
        Err(err_at(toks, p, ParseErrorKind::ExpectVariableName))
    } else if at(toks, p + 1, TokenType::Equal) {
        match p_expression(toks, p + 2) {
            Err(e) => Err(e),
            Ok((init, q)) => p_terminated(
                toks,
                StmtView::Var { name: toks[p], initializer: Some(init) },
                q,
                semi,
                ParseErrorKind::ExpectSemicolonAfterVariable,
            ),
        }
    } else {
        p_terminated(
            toks,
            StmtView::Var { name: toks[p], initializer: None },
            p + 1,
            semi,
            ParseErrorKind::ExpectSemicolonAfterVariable,
        )
    }
}

/// `statement → "print" expression | block | expression`
pub open spec fn p_statement(toks: Seq<Token>, p: int, semi: bool) -> Result<(StmtView, int), ParseError>
    decreases toks.len() - p, 14nat,
{
    if !valid_pos(toks, p) {
        Err(stalled())
    } else if at(toks, p, TokenType::Print) {
        match p_expression(toks, p + 1) {
            Err(e) => Err(e),
            Ok((value, q)) => p_terminated(
                toks,
                StmtView::Print(value),
                q,
                semi,
                ParseErrorKind::ExpectSemicolonAfterValue,
            ),
        }
    } else if at(toks, p, TokenType::Left_Brace) {
        match p_block(toks, p + 1, semi, seq![]) {
            Err(e) => Err(e),
            Ok((body, q)) => Ok((StmtView::Block(body), q)),
        }
    } else {
        match p_expression(toks, p) {
            Err(e) => Err(e),
            Ok((e, q)) => p_terminated(
                toks,
                StmtView::Expression(e),
                q,
                semi,
                ParseErrorKind::ExpectSemicolonAfterExpression,
            ),
        }
    }
}

/// The declarations of a block after `acc`, up to and with its `}`.
pub open spec fn p_block(toks: Seq<Token>, p: int, semi: bool, acc: Seq<StmtView>) -> Result<
    (Seq<StmtView>, int),
    ParseError,
>
    decreases toks.len() - p, 16nat,
{
    if !valid_pos(toks, p) {
        Err(stalled())
    } else if at(toks, p, TokenType::Right_Brace) {
        Ok((acc, p + 1))
    } else if toks[p].token_type == TokenType::EOF {
        Err(err_at(toks, p, ParseErrorKind::ExpectRightBrace))
    } else {
        match p_declaration(toks, p, semi) {
            Err(e) => Err(e),
            Ok((s, q)) => {
                if !(p < q < toks.len()) {
                    Err(stalled())
                } else {
                    p_block(toks, q, semi, acc.push(s))
                }
            },
        }
    }
}

/// The declarations from `p` to the end of input, after `acc`; the first
/// error, if any.
pub open spec fn p_program(toks: Seq<Token>, p: int, semi: bool, acc: Seq<StmtView>) -> Result<
    Seq<StmtView>,
    ParseError,
>
    decreases toks.len() - p, 17nat,
{
    if !valid_pos(toks, p) {
        Err(stalled())
    } else if toks[p].token_type == TokenType::EOF {
        Ok(acc)
    } else {
        match p_declaration(toks, p, semi) {
            Err(e) => Err(e),
            Ok((s, q)) => {
                if !(p < q < toks.len()) {
                    Err(stalled())
                } else {
                    p_program(toks, q, semi, acc.push(s))
                }
            },
        }
    }
}

/// The program that a token sequence spells, or its first syntax error.
pub open spec fn parse_tokens(toks: Seq<Token>, semi: bool) -> Result<Seq<StmtView>, ParseError> {
    p_program(toks, 0, semi, seq![])
}

/// Where recovery after an error at `c` stops: after a `;`, before a
/// keyword that starts a declaration or statement, or at the end.
pub open spec fn sync_end(toks: Seq<Token>, c: int) -> int
    decreases toks.len() - c,
{
    if !(0 < c < toks.len()) || toks[c].token_type == TokenType::EOF {
        c
    } else if toks[c - 1].token_type == TokenType::Semicolon {
        c
    } else if starts_statement(toks[c].token_type) {
        c
    } else {
        sync_end(toks, c + 1)
    }
}

pub open spec fn starts_statement(k: TokenType) -> bool {
    k == TokenType::Class || k == TokenType::Fun || k == TokenType::Var || k == TokenType::For
        || k == TokenType::If || k == TokenType::While || k == TokenType::Print || k
        == TokenType::Return
}

/// Every expression rule that succeeds consumes tokens and stops before the
/// end of input.
proof fn lemma_expression_progress(toks: Seq<Token>, p: int)
    requires
        tokens_ok(toks),
    ensures
        p_expression(toks, p) matches Ok((_, q)) ==> p < q < toks.len(),
    decreases toks.len() - p, 12nat,
{
    if valid_pos(toks, p) {
        lemma_assignment_progress(toks, p);
    }
}

proof fn lemma_assignment_progress(toks: Seq<Token>, p: int)
    requires
        tokens_ok(toks),
    ensures
        p_assignment(toks, p) matches Ok((_, q)) ==> p < q < toks.len(),
    decreases toks.len() - p, 11nat,
{
    if valid_pos(toks, p) {
        lemma_binary_progress(toks, p, 0);
        if let Ok((_, q)) = p_binary(toks, p, 0) {
            if p < q < toks.len() {
                lemma_assignment_progress(toks, q + 1);
            }
        }
    }
}

proof fn lemma_binary_progress(toks: Seq<Token>, p: int, level: nat)
    requires
        tokens_ok(toks),
    ensures
        p_binary(toks, p, level) matches Ok((_, q)) ==> p < q < toks.len(),
    decreases toks.len() - p, (10 - level) as nat,
{
    if valid_pos(toks, p) && level <= 6 {
        if level == 6 {
            lemma_unary_progress(toks, p);
        } else {
            lemma_binary_progress(toks, p, level + 1);
            if let Ok((left, q)) = p_binary(toks, p, level + 1) {
                if p < q < toks.len() {
                    lemma_binary_rest_progress(toks, q, level, left);
                }
            }
        }
    }
}

proof fn lemma_binary_rest_progress(toks: Seq<Token>, q: int, level: nat, left: Expr)
    requires
        tokens_ok(toks),
    ensures
        p_binary_rest(toks, q, level, left) matches Ok((_, r)) ==> q <= r < toks.len(),
    decreases toks.len() - q, 0nat,
{
    if valid_pos(toks, q) && level < 6 && op_at(toks, q, level as int) {
        lemma_binary_progress(toks, q + 1, level + 1);
        if let Ok((right, r)) = p_binary(toks, q + 1, level + 1) {
            if q < r < toks.len() {
                lemma_binary_rest_progress(
                    toks,
                    r,
                    level,
                    Expr::Binary(Box::new(left), toks[q], Box::new(right)),
                );
            }
        }
    }
}

proof fn lemma_unary_progress(toks: Seq<Token>, p: int)
    requires
        tokens_ok(toks),
    ensures
        p_unary(toks, p) matches Ok((_, q)) ==> p < q < toks.len(),
    decreases toks.len() - p, 3nat,
{
    if valid_pos(toks, p) {
        if at(toks, p, TokenType::Bang) || at(toks, p, TokenType::Minus) {
            lemma_unary_progress(toks, p + 1);
        } else {
            lemma_primary_progress(toks, p);
        }
    }
}

proof fn lemma_primary_progress(toks: Seq<Token>, p: int)
    requires
        tokens_ok(toks),
    ensures
        p_primary(toks, p) matches Ok((_, q)) ==> p < q < toks.len(),
    decreases toks.len() - p, 1nat,
{
    if valid_pos(toks, p) {
        assert(toks[toks.len() - 1].token_type == TokenType::EOF);
        if at(toks, p, TokenType::Left_Paren) {
            lemma_expression_progress(toks, p + 1);
        }
    }
}

/// Number and string literals take their values from their lexemes: a
/// number token gives the number its lexeme writes, and a string token the
/// text of its lexeme without the quotes.
pub proof fn lemma_primary_literals(toks: Seq<Token>, p: int)
    requires
        tokens_ok(toks),
        valid_pos(toks, p),
    ensures
        at(toks, p, TokenType::Number) ==> (p_primary(toks, p) matches Ok(
            (Expr::Literal(Literal::Number(n)), q),
        ) && q == p + 1 && n@ == lexeme_number(toks[p].lexeme@)),
        at(toks, p, TokenType::String) ==> (p_primary(toks, p) matches Ok(
            (Expr::Literal(Literal::String(s)), q),
        ) && q == p + 1 && s@ == toks[p].lexeme@.subrange(1, toks[p].lexeme@.len() - 1)),
{
    assert(literal_matches(toks[p]@));
}

/// Only a bare identifier can be assigned to: when the operand before `=`
/// parses as any other expression and the value after it parses, the
/// assignment is the parse error "Invalid assignment target" at the line
/// of the `=`; when it is an identifier, the result assigns to it.
pub proof fn lemma_assignment_target(toks: Seq<Token>, p: int)
    requires
        tokens_ok(toks),
        valid_pos(toks, p),
        p_binary(toks, p, 0) is Ok,
        at(toks, p_binary(toks, p, 0)->Ok_0.1, TokenType::Equal),
        p_assignment(toks, p_binary(toks, p, 0)->Ok_0.1 + 1) is Ok,
    ensures
        ({
            let (target, q) = p_binary(toks, p, 0)->Ok_0;
            let (value, r) = p_assignment(toks, q + 1)->Ok_0;
            match target {
                Expr::Variable(name) => p_assignment(toks, p) == Ok::<(Expr, int), ParseError>(
                    (Expr::Assign(name, Box::new(value)), r),
                ),
                _ => p_assignment(toks, p) == Err::<(Expr, int), ParseError>(
                    err_at(toks, q, ParseErrorKind::InvalidAssignmentTarget),
                ),
            }
        }),
{
    lemma_binary_progress(toks, p, 0);
}

/// `r` is the outcome that `s` describes, for a parse that began at
/// `start`: one that succeeds ends at `cur`, past `start`.
pub open spec fn parsed(r: Result<Expr, ParseError>, s: Result<(Expr, int), ParseError>, start: int, cur: int) -> bool {
    match s {
        Ok((v, q)) => r == Ok::<Expr, ParseError>(v) && cur == q && start < q,
        Err(e) => r == Err::<Expr, ParseError>(e),
    }
}

pub open spec fn parsed_stmt(
    r: Result<Stmt, ParseError>,
    s: Result<(StmtView, int), ParseError>,
    start: int,
    cur: int,
) -> bool {
    match s {
        Ok((v, q)) => r is Ok && r->Ok_0.model() == v && cur == q && start < q,
        Err(e) => r == Err::<Stmt, ParseError>(e),
    }
}

pub open spec fn parsed_block(
    r: Result<Vec<Stmt>, ParseError>,
    s: Result<(Seq<StmtView>, int), ParseError>,
    start: int,
    cur: int,
) -> bool {
    match s {
        Ok((v, q)) => r is Ok && stmts_model(r->Ok_0@) == v && cur == q && start < q,
        Err(e) => r == Err::<Vec<Stmt>, ParseError>(e),
    }
}

/// A program as the contracts see it, or its error.
pub open spec fn program_result(r: Result<Vec<Stmt>, ParseError>) -> Result<Seq<StmtView>, ParseError> {
    match r {
        Ok(v) => Ok(stmts_model(v@)),
        Err(e) => Err(e),
    }
}

proof fn lemma_stmts_model_push(v: Seq<Stmt>, s: Stmt)
    ensures
        stmts_model(v.push(s)) == stmts_model(v).push(s.model()),
{
    assert(v.push(s).drop_last() =~= v);
}

/// The views of a sequence of statements, one for one.
pub proof fn lemma_stmts_model_index(v: Seq<Stmt>)
    ensures
        stmts_model(v).len() == v.len(),
        forall|i: int| 0 <= i < v.len() ==> #[trigger] stmts_model(v)[i] == v[i].model(),
    decreases v.len(),
{
    if v.len() > 0 {
        lemma_stmts_model_index(v.drop_last());
    }
}

pub struct Parser {
    tokens: Vec<Token>,
    current: usize,
    require_semicolon: bool,
}

impl Parser {
    pub closed spec fn wf(&self) -> bool {
        tokens_ok(self.tokens@) && self.current < self.tokens@.len()
    }

    pub closed spec fn toks(&self) -> Seq<Token> {
        self.tokens@
    }

    pub closed spec fn pos(&self) -> int {
        self.current as int
    }

    pub closed spec fn semi(&self) -> bool {
        self.require_semicolon
    }

    spec fn same_input(&self, other: &Parser) -> bool {
        self.tokens@ == other.tokens@ && self.require_semicolon == other.require_semicolon
    }

    /// A parser at the start of `tokens`; with `require_semicolon`, simple
    /// statements must end with `;`, and otherwise a `;` after one is
    /// optional.
    pub fn new(tokens: Vec<Token>, require_semicolon: bool) -> (r: Parser)
        requires
            tokens_ok(tokens@),
        ensures
            r.wf(),
            r.toks() == tokens@,
            r.pos() == 0,
            r.semi() == require_semicolon,
    {
        Parser { tokens, current: 0, require_semicolon }
    }

    fn peek(&self) -> (r: &Token)
        requires
            self.wf(),
        ensures
            *r == self.tokens@[self.current as int],
    {
        &self.tokens[self.current]
    }

    fn is_at_end(&self) -> (r: bool)
        requires
            self.wf(),
        ensures
            r == (self.tokens@[self.current as int].token_type == TokenType::EOF),
    {
        self.peek().token_type == TokenType::EOF
    }

    fn advance(&mut self)
        requires
            old(self).wf(),
        ensures
            final(self).wf(),
            final(self).same_input(old(self)),
            final(self).current == if old(self).tokens@[old(self).current as int].token_type
                == TokenType::EOF {
                old(self).current as int
            } else {
                old(self).current + 1
            },
    {
        if !self.is_at_end() {
            let n = self.tokens.len();
            assert(self.tokens@[n - 1].token_type == TokenType::EOF);
            self.current = self.current + 1;
        }
    }

    fn check(&self, token_type: TokenType) -> (r: bool)
        requires
            self.wf(),
        ensures
            r == at(self.tokens@, self.current as int, token_type),
    {
        if self.is_at_end() {
            false
        } else {
            self.peek().token_type == token_type
        }
    }

    fn match_token(&mut self, token_type: TokenType) -> (r: bool)
        requires
            old(self).wf(),
        ensures
            final(self).wf(),
            final(self).same_input(old(self)),
            r == at(old(self).tokens@, old(self).current as int, token_type),
            final(self).current == if r {
                old(self).current + 1
            } else {
                old(self).current as int
            },
    {
        if self.check(token_type) {
            self.advance();
            true
        } else {
            false
        }
    }

    /// Whether the current token is an operator of `level`.
    fn check_level(&self, level: u8) -> (r: bool)
        requires
            self.wf(),
        ensures
            r == op_at(self.tokens@, self.current as int, level as int),
    {
        if self.is_at_end() {
            false
        } else {
            let k = self.peek().token_type;
            if level == 0 {
                k == TokenType::Or
            } else if level == 1 {
                k == TokenType::And
            } else if level == 2 {
                k == TokenType::Equal_Equal || k == TokenType::Bang_Equal
            } else if level == 3 {
                k == TokenType::Greater || k == TokenType::Greater_Equal || k == TokenType::Less
                    || k == TokenType::Less_Equal
            } else if level == 4 {
                k == TokenType::Plus || k == TokenType::Minus
            } else {
                k == TokenType::Star || k == TokenType::Slash
            }
        }
    }

    /// The error `kind` at the current token.
    fn error(&self, kind: ParseErrorKind) -> (r: ParseError)
        requires
            self.wf(),
        ensures
            r == err_at(self.tokens@, self.current as int, kind),
    {
        ParseError { kind, line: self.peek().line }
    }

    fn consume(&mut self, token_type: TokenType, kind: ParseErrorKind) -> (r: Result<(), ParseError>)
        requires
            old(self).wf(),
        ensures
            final(self).wf(),
            final(self).same_input(old(self)),
            r is Ok <==> at(old(self).tokens@, old(self).current as int, token_type),
            r is Ok ==> final(self).current == old(self).current + 1,
            r is Err ==> final(self).current == old(self).current,
            r is Err ==> r == Err::<(), ParseError>(err_at(old(self).tokens@, old(self).current as int, kind)),
    {
        if self.check(token_type) {
            self.advance();
            Ok(())
        } else {
            Err(self.error(kind))
        }
    }

    fn expression(&mut self) -> (r: Result<Expr, ParseError>)
        requires
            old(self).wf(),
        ensures
            final(self).wf(),
            final(self).same_input(old(self)),
            parsed(r, p_expression(old(self).tokens@, old(self).current as int), old(self).current as int,
                final(self).current as int),
        decreases old(self).tokens@.len() - old(self).current, 12nat,
    {
        self.assignment()
    }

    fn assignment(&mut self) -> (r: Result<Expr, ParseError>)
        requires
            old(self).wf(),
        ensures
            final(self).wf(),
            final(self).same_input(old(self)),
            parsed(r, p_assignment(old(self).tokens@, old(self).current as int), old(self).current as int,
                final(self).current as int),
        decreases old(self).tokens@.len() - old(self).current, 11nat,
    {
        match self.binary(0) {
            Err(e) => Err(e),
            Ok(expr) => {
                if self.match_token(TokenType::Equal) {
                    let line = self.tokens[self.current - 1].line;
                    match self.assignment() {
                        Err(e) => Err(e),
                        Ok(value) => match expr {
                            Expr::Variable(name) => Ok(Expr::Assign(name, Box::new(value))),
                            _ => Err(ParseError { kind: ParseErrorKind::InvalidAssignmentTarget, line }),
                        },
                    }
                } else {
                    Ok(expr)
                }
            },
        }
    }

    /// Binary expressions of `level` and tighter (`logic_or` down to `factor`).
    fn binary(&mut self, level: u8) -> (r: Result<Expr, ParseError>)
        requires
            old(self).wf(),
            level <= 6,
        ensures
            final(self).wf(),
            final(self).same_input(old(self)),
            parsed(r, p_binary(old(self).tokens@, old(self).current as int, level as nat), old(self).current as int,
                final(self).current as int),
        decreases old(self).tokens@.len() - old(self).current, (10 - level) as nat,
    {
        if level == 6 {
            return self.unary();
        }
        let ghost p = self.current as int;
        let mut expr = match self.binary(level + 1) {
            Err(e) => {
                return Err(e);
            },
            Ok(e) => e,
        };
        let ghost q0 = self.current as int;
        let ghost e0 = expr;
        loop
            invariant
                self.wf(),
                self.same_input(old(self)),
                p == old(self).current,
                p < self.current,
                p < q0 < self.tokens@.len(),
                level < 6,
                p_binary(self.tokens@, p, level as nat) == p_binary_rest(self.tokens@, q0, level as nat, e0),
                p_binary_rest(self.tokens@, self.current as int, level as nat, expr) == p_binary_rest(
                    self.tokens@,
                    q0,
                    level as nat,
                    e0,
                ),
            decreases self.tokens@.len() - self.current,
        {
            if !self.check_level(level) {
                return Ok(expr);
            }
            let operator = self.peek().clone();
            self.advance();
            match self.binary(level + 1) {
                Err(e) => {
                    return Err(e);
                },
                Ok(right) => {
                    expr = Expr::Binary(Box::new(expr), operator, Box::new(right));
                },
            }
        }
    }

    fn unary(&mut self) -> (r: Result<Expr, ParseError>)
        requires
            old(self).wf(),
        ensures
            final(self).wf(),
            final(self).same_input(old(self)),
            parsed(r, p_unary(old(self).tokens@, old(self).current as int), old(self).current as int,
                final(self).current as int),
        decreases old(self).tokens@.len() - old(self).current, 3nat,
    {
        if self.check(TokenType::Bang) || self.check(TokenType::Minus) {
            let operator = self.peek().clone();
            self.advance();
            match self.unary() {
                Err(e) => Err(e),
                Ok(right) => Ok(Expr::Unary(operator, Box::new(right))),
            }
        } else {
            self.primary()
        }
    }

    fn primary(&mut self) -> (r: Result<Expr, ParseError>)
        requires
            old(self).wf(),
        ensures
            final(self).wf(),
            final(self).same_input(old(self)),
            parsed(r, p_primary(old(self).tokens@, old(self).current as int), old(self).current as int,
                final(self).current as int),
        decreases old(self).tokens@.len() - old(self).current, 1nat,
    {
        if self.match_token(TokenType::False) {
            return Ok(Expr::Literal(Literal::Bool(false)));
        }
        if self.match_token(TokenType::True) {
            return Ok(Expr::Literal(Literal::Bool(true)));
        }
        if self.match_token(TokenType::Nil) {
            return Ok(Expr::Literal(Literal::Nil));
        }
        if self.check(TokenType::Number) {
            let value = match &self.peek().literal {
                crate::token::Literal::Num(n) => n.clone(),
                _ => {
                    assert(literal_matches(self.tokens@[self.current as int]@));
                    assert(false);
                    Number::from_int(0)
                },
            };
            self.advance();
            return Ok(Expr::Literal(Literal::Number(value)));
        }
        if self.check(TokenType::String) {
            let value = match &self.peek().literal {
                crate::token::Literal::Str(s) => s.clone(),
                _ => {
                    assert(literal_matches(self.tokens@[self.current as int]@));
                    assert(false);
                    String::new()
                },
            };
            self.advance();
            return Ok(Expr::Literal(Literal::String(value)));
        }
        if self.check(TokenType::Identifier) {
            let name = self.peek().clone();
            self.advance();
            return Ok(Expr::Variable(name));
        }
        if self.match_token(TokenType::Left_Paren) {
            match self.expression() {
                Err(e) => Err(e),
                Ok(inner) => match self.consume(TokenType::Right_Paren, ParseErrorKind::ExpectRightParen) {
                    Err(e) => Err(e),
                    Ok(()) => Ok(Expr::Grouping(Box::new(inner))),
                },
            }
        } else {
            Err(self.error(ParseErrorKind::ExpectExpression))
        }
    }

    /// The `;` after a simple statement: required when `require_semicolon`
    /// is set, taken when present otherwise.
    fn finish_statement(&mut self, missing: ParseErrorKind) -> (r: Result<(), ParseError>)
        requires
            old(self).wf(),
        ensures
            final(self).wf(),
            final(self).same_input(old(self)),
            ({
                let toks = old(self).tokens@;
                let q = old(self).current as int;
                if at(toks, q, TokenType::Semicolon) {
                    r is Ok && final(self).current == q + 1
                } else if old(self).require_semicolon {
                    r == Err::<(), ParseError>(err_at(toks, q, missing))
                } else {
                    r is Ok && final(self).current == q
                }
            }),
    {
        if self.match_token(TokenType::Semicolon) {
            Ok(())
        } else if self.require_semicolon {
            Err(self.error(missing))
        } else {
            Ok(())
        }
    }

    fn var_declaration(&mut self) -> (r: Result<Stmt, ParseError>)
        requires
            old(self).wf(),
        ensures
            final(self).wf(),
            final(self).same_input(old(self)),
            parsed_stmt(r, p_var_declaration(old(self).tokens@, old(self).current as int, old(self).require_semicolon),
                old(self).current as int, final(self).current as int),
        decreases old(self).tokens@.len() - old(self).current, 14nat,
    {
        if !self.check(TokenType::Identifier) {
            return Err(self.error(ParseErrorKind::ExpectVariableName));
        }
        let name = self.peek().clone();
        self.advance();
        let mut initializer = None;
        if self.match_token(TokenType::Equal) {
            match self.expression() {
                Err(e) => {
                    return Err(e);
                },
                Ok(init) => {
                    initializer = Some(init);
                },
            }
        }
        match self.finish_statement(ParseErrorKind::ExpectSemicolonAfterVariable) {
            Err(e) => Err(e),
            Ok(()) => Ok(Stmt::Var { name, initializer }),
        }
    }

    fn statement(&mut self) -> (r: Result<Stmt, ParseError>)
        requires
            old(self).wf(),
        ensures
            final(self).wf(),
            final(self).same_input(old(self)),
            parsed_stmt(r, p_statement(old(self).tokens@, old(self).current as int, old(self).require_semicolon),
                old(self).current as int, final(self).current as int),
        decreases old(self).tokens@.len() - old(self).current, 14nat,
    {
        if self.match_token(TokenType::Print) {
            self.print_statement()
        } else if self.match_token(TokenType::Left_Brace) {
            match self.block() {
                Err(e) => Err(e),
                Ok(statements) => Ok(Stmt::Block(statements)),
            }
        } else {
            self.expression_statement()
        }
    }

    /// What follows `print`.
    fn print_statement(&mut self) -> (r: Result<Stmt, ParseError>)
        requires
            old(self).wf(),
            old(self).current > 0,
            at(old(self).tokens@, old(self).current - 1, TokenType::Print),
        ensures
            final(self).wf(),
            final(self).same_input(old(self)),
            parsed_stmt(r, p_statement(old(self).tokens@, old(self).current - 1, old(self).require_semicolon),
                old(self).current - 1, final(self).current as int),
        decreases old(self).tokens@.len() - old(self).current, 13nat,
    {
        match self.expression() {
            Err(e) => Err(e),
            Ok(value) => match self.finish_statement(ParseErrorKind::ExpectSemicolonAfterValue) {
                Err(e) => Err(e),
                Ok(()) => Ok(Stmt::Print(value)),
            },
        }
    }

    fn expression_statement(&mut self) -> (r: Result<Stmt, ParseError>)
        requires
            old(self).wf(),
            !at(old(self).tokens@, old(self).current as int, TokenType::Print),
            !at(old(self).tokens@, old(self).current as int, TokenType::Left_Brace),
        ensures
            final(self).wf(),
            final(self).same_input(old(self)),
            parsed_stmt(r, p_statement(old(self).tokens@, old(self).current as int, old(self).require_semicolon),
                old(self).current as int, final(self).current as int),
        decreases old(self).tokens@.len() - old(self).current, 13nat,
    {
        match self.expression() {
            Err(e) => Err(e),
            Ok(expr) => match self.finish_statement(ParseErrorKind::ExpectSemicolonAfterExpression) {
                Err(e) => Err(e),
                Ok(()) => Ok(Stmt::Expression(expr)),
            },
        }
    }

    /// What follows `{`: declarations up to the closing `}`.
    fn block(&mut self) -> (r: Result<Vec<Stmt>, ParseError>)
        requires
            old(self).wf(),
        ensures
            final(self).wf(),
            final(self).same_input(old(self)),
            parsed_block(r, p_block(old(self).tokens@, old(self).current as int, old(self).require_semicolon, seq![]),
                old(self).current as int, final(self).current as int),
        decreases old(self).tokens@.len() - old(self).current, 16nat,
    {
        let mut statements: Vec<Stmt> = Vec::new();
        let ghost p = self.current as int;
        loop
            invariant
                self.wf(),
                self.same_input(old(self)),
                p == old(self).current,
                p <= self.current,
                p_block(self.tokens@, self.current as int, self.require_semicolon, stmts_model(statements@))
                    == p_block(self.tokens@, p, self.require_semicolon, seq![]),
            decreases self.tokens@.len() - self.current,
        {
            if self.check(TokenType::Right_Brace) {
                self.advance();
                return Ok(statements);
            }
            if self.is_at_end() {
                return Err(self.error(ParseErrorKind::ExpectRightBrace));
            }
            match self.declaration() {
                Err(e) => {
                    return Err(e);
                },
                Ok(stmt) => {
                    proof {
                        lemma_stmts_model_push(statements@, stmt);
                    }
                    statements.push(stmt);
                },
            }
        }
    }

    fn declaration(&mut self) -> (r: Result<Stmt, ParseError>)
        requires
            old(self).wf(),
        ensures
            final(self).wf(),
            final(self).same_input(old(self)),
            parsed_stmt(r, p_declaration(old(self).tokens@, old(self).current as int, old(self).require_semicolon),
                old(self).current as int, final(self).current as int),
        decreases old(self).tokens@.len() - old(self).current, 15nat,
    {
        if self.match_token(TokenType::Var) {
            self.var_declaration()
        } else {
            self.statement()
        }
    }

    /// Skips tokens up to a likely start of the next statement.
    fn synchronize(&mut self)
        requires
            old(self).wf(),
        ensures
            final(self).wf(),
            final(self).same_input(old(self)),
            final(self).current == sync_end(
                old(self).tokens@,
                if old(self).tokens@[old(self).current as int].token_type == TokenType::EOF {
                    old(self).current as int
                } else {
                    old(self).current + 1
                },
            ),
    {
        self.advance();
        let ghost c0 = self.current as int;
        while !self.is_at_end()
            invariant
                self.wf(),
                self.same_input(old(self)),
                c0 == if old(self).tokens@[old(self).current as int].token_type == TokenType::EOF {
                    old(self).current as int
                } else {
                    old(self).current + 1
                },
                0 < self.current || self.tokens@[self.current as int].token_type == TokenType::EOF,
                sync_end(self.tokens@, self.current as int) == sync_end(self.tokens@, c0),
            decreases self.tokens@.len() - self.current,
        {
            if self.tokens[self.current - 1].token_type == TokenType::Semicolon {
                return;
            }
            let k = self.peek().token_type;
            if k == TokenType::Class || k == TokenType::Fun || k == TokenType::Var || k == TokenType::For
                || k == TokenType::If || k == TokenType::While || k == TokenType::Print || k
                == TokenType::Return {
                return;
            }
            self.advance();
        }
    }

    /// Parses declarations up to the end of input. Stops at the first
    /// syntax error and returns it, after moving past the statement where
    /// it stands.
    pub fn parse(&mut self) -> (r: Result<Vec<Stmt>, ParseError>)
        requires
            old(self).wf(),
        ensures
            final(self).wf(),
            final(self).toks() == old(self).toks(),
            final(self).semi() == old(self).semi(),
            program_result(r) == p_program(old(self).toks(), old(self).pos(), old(self).semi(), seq![]),
    {
        let mut statements: Vec<Stmt> = Vec::new();
        let ghost p = self.current as int;
        while !self.is_at_end()
            invariant
                self.wf(),
                self.same_input(old(self)),
                p == old(self).current,
                p_program(self.tokens@, self.current as int, self.require_semicolon, stmts_model(statements@))
                    == p_program(self.tokens@, p, self.require_semicolon, seq![]),
            decreases self.tokens@.len() - self.current,
        {
            match self.declaration() {
                Ok(stmt) => {
                    proof {
                        lemma_stmts_model_push(statements@, stmt);
                    }
                    statements.push(stmt);
                },
                Err(e) => {
                    self.synchronize();
                    return Err(e);
                },
            }
        }
        Ok(statements)
    }
}

/// Scans source text and makes a parser at the start of its tokens; also
/// gives the problems that the scan found.
pub fn parser_for_source(contents: &[u8], require_semicolon: bool) -> (r: (Parser, Vec<TokenizerError>))
    requires
        contents@.len() < usize::MAX,
    ensures
        r.0.wf(),
        token_views(r.0.toks()) == scan(contents@).0,
        r.0.pos() == 0,
        r.0.semi() == require_semicolon,
        r.1@ == scan(contents@).1,
{
    let (tokens, errors) = tokenize(contents);
    (Parser::new(tokens, require_semicolon), errors)
}

} // verus!