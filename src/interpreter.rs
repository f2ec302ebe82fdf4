//! The tree-walking evaluator: runs statements against a chain of scopes
//! and collects what they print.

use vstd::prelude::*;
use crate::environment::{Environment, lookup, assign_in, define_in};
use crate::object::{Object, Value, truthy, values_equal, value_text};
use crate::number::{rat_add, rat_sub, rat_mul, rat_div, rat_neg, rat_less};
use crate::parser::{Expr, Literal, Stmt, StmtView, stmts_model, lemma_stmts_model_index};
use crate::runtime_error::InterpreterError;
use crate::text::push_text;
use crate::token::{Token, TokenType};

verus! {

/// Scopes, innermost first.
pub type Scopes = Seq<Map<Seq<char>, Value>>;

pub open spec fn literal_value(l: Literal) -> Value {
    match l {
        Literal::Number(n) => Value::Num(n@),
        Literal::String(s) => Value::Str(s@),
        Literal::Bool(b) => Value::Bool(b),
        Literal::Nil => Value::Nil,
    }
}

pub open spec fn undefined(name: Token) -> InterpreterError {
    InterpreterError::UndefinedVariable { name: name.lexeme, line: name.line }
}

/// `-` takes a number and negates it; `!` takes any value and negates its
/// truth.
pub open spec fn unary_result(operator: Token, v: Value) -> Result<Value, InterpreterError> {
    match operator.token_type {
        TokenType::Minus => match v {
            Value::Num(n) => Ok(Value::Num(rat_neg(n))),
            _ => Err(InterpreterError::InvalidUnaryOperand { line: operator.line }),
        },
        TokenType::Bang => Ok(Value::Bool(!truthy(v))),
        _ => Err(InterpreterError::InvalidUnaryOperand { line: operator.line }),
    }
}

/// Arithmetic and comparisons take two numbers, `+` also two strings,
/// which it joins; equality takes any two values. Arithmetic is exact.
/// `or` gives its left operand when that is true and its right one
/// otherwise; `and` gives its left operand when that is false and its right
/// one otherwise. Both operands are evaluated in every case.
pub open spec fn binary_result(operator: Token, a: Value, b: Value) -> Result<Value, InterpreterError> {
    let line = operator.line;
    let invalid = Err(InterpreterError::InvalidBinaryOperands { line });
    match operator.token_type {
        TokenType::Plus => match (a, b) {
            (Value::Num(x), Value::Num(y)) => Ok(Value::Num(rat_add(x, y))),
            (Value::Str(x), Value::Str(y)) => Ok(Value::Str(x + y)),
            _ => invalid,
        },
        TokenType::Minus => match (a, b) {
            (Value::Num(x), Value::Num(y)) => Ok(Value::Num(rat_sub(x, y))),
            _ => invalid,
        },
        TokenType::Star => match (a, b) {
            (Value::Num(x), Value::Num(y)) => Ok(Value::Num(rat_mul(x, y))),
            _ => invalid,
        },
        TokenType::Slash => match (a, b) {
            (Value::Num(x), Value::Num(y)) => if y.num == 0 {
                Err(InterpreterError::DivisionByZero { line })
            } else {
                Ok(Value::Num(rat_div(x, y)))
            },
            _ => invalid,
        },
        TokenType::Equal_Equal => Ok(Value::Bool(values_equal(a, b))),
        TokenType::Bang_Equal => Ok(Value::Bool(!values_equal(a, b))),
        TokenType::Greater => match (a, b) {
            (Value::Num(x), Value::Num(y)) => Ok(Value::Bool(rat_less(y, x))),
            _ => invalid,
        },
        TokenType::Greater_Equal => match (a, b) {
            (Value::Num(x), Value::Num(y)) => Ok(Value::Bool(!rat_less(x, y))),
            _ => invalid,
        },
        TokenType::Less => match (a, b) {
            (Value::Num(x), Value::Num(y)) => Ok(Value::Bool(rat_less(x, y))),
            _ => invalid,
        },
        TokenType::Less_Equal => match (a, b) {
            (Value::Num(x), Value::Num(y)) => Ok(Value::Bool(!rat_less(y, x))),
            _ => invalid,
        },
        TokenType::Or => Ok(if truthy(a) {
            a
        } else {
            b
        }),
        TokenType::And => Ok(if truthy(a) {
            b
        } else {
            a
        }),
        _ => invalid,
    }
}

/// The value of an expression in `env`, or the error that stops it, with
/// the scopes after its assignments. Operands are evaluated left to right.
pub open spec fn eval(env: Scopes, e: Expr) -> (Result<Value, InterpreterError>, Scopes)
    decreases e,
{
    match e {
        Expr::Literal(l) => (Ok(literal_value(l)), env),
        Expr::Grouping(inner) => eval(env, *inner),
        Expr::Unary(operator, operand) => {
            let (r, env1) = eval(env, *operand);
            match r {
                Err(x) => (Err(x), env1),
                Ok(v) => (unary_result(operator, v), env1),
            }
        },
        Expr::Binary(left, operator, right) => {
            let (lr, env1) = eval(env, *left);
            match lr {
                Err(x) => (Err(x), env1),
                Ok(a) => {
                    let (rr, env2) = eval(env1, *right);
                    match rr {
                        Err(x) => (Err(x), env2),
                        Ok(b) => (binary_result(operator, a, b), env2),
                    }
                },
            }
        },
        Expr::Variable(name) => (
            match lookup(env, name.lexeme@) {
                Some(v) => Ok(v),
                None => Err(undefined(name)),
            },
            env,
        ),
        Expr::Assign(name, value) => {
            let (r, env1) = eval(env, *value);
            match r {
                Err(x) => (Err(x), env1),
                Ok(v) => match lookup(env1, name.lexeme@) {
                    Some(_) => (Ok(v), assign_in(env1, name.lexeme@, v)),
                    None => (Err(undefined(name)), env1),
                },
            }
        },
    }
}

/// What running a statement does: its outcome, the scopes after it, and
/// the output lines after it. With `echo`, an expression statement prints
/// its value too.
pub open spec fn exec_stmt(env: Scopes, out: Seq<Seq<char>>, s: StmtView, echo: bool) -> (
    Result<(), InterpreterError>,
    Scopes,
    Seq<Seq<char>>,
)
    decreases s,
{
    match s {
        StmtView::Expression(e) => {
            let (r, env1) = eval(env, e);
            match r {
                Err(x) => (Err(x), env1, out),
                Ok(v) => (Ok(()), env1, if echo {
                    out.push(value_text(v))
                } else {
                    out
                }),
            }
        },
        StmtView::Print(e) => {
            let (r, env1) = eval(env, e);
            match r {
                Err(x) => (Err(x), env1, out),
                Ok(v) => (Ok(()), env1, out.push(value_text(v))),
            }
        },
        StmtView::Var { name, initializer } => match initializer {
            None => (Ok(()), define_in(env, name.lexeme@, Value::Nil), out),
            Some(init) => {
                let (r, env1) = eval(env, init);
                match r {
                    Err(x) => (Err(x), env1, out),
                    Ok(v) => (Ok(()), define_in(env1, name.lexeme@, v), out),
                }
            },
        },
        StmtView::Block(body) => {
            let (r, env1, out1) = exec_stmts(seq![Map::empty()] + env, out, body, echo);
            (r, env1.drop_first(), out1)
        },
    }
}

/// Statements run in order, up to the first that fails.
pub open spec fn exec_stmts(env: Scopes, out: Seq<Seq<char>>, ss: Seq<StmtView>, echo: bool) -> (
    Result<(), InterpreterError>,
    Scopes,
    Seq<Seq<char>>,
)
    decreases ss,
{
    if ss.len() == 0 {
        (Ok(()), env, out)
    } else {
        let (r, env1, out1) = exec_stmt(env, out, ss[0], echo);
        match r {
            Err(x) => (Err(x), env1, out1),
            Ok(_) => exec_stmts(env1, out1, ss.drop_first(), echo),
        }
    }
}

proof fn lemma_assign_in_len(s: Scopes, name: Seq<char>, v: Value)
    ensures
        assign_in(s, name, v).len() == s.len(),
    decreases s.len(),
{
    if s.len() > 0 && !s[0].contains_key(name) {
        lemma_assign_in_len(s.drop_first(), name, v);
    }
}

proof fn lemma_eval_len(env: Scopes, e: Expr)
    ensures
        eval(env, e).1.len() == env.len(),
    decreases e,
{
    match e {
        Expr::Literal(_) => {},
        Expr::Grouping(inner) => lemma_eval_len(env, *inner),
        Expr::Unary(_, operand) => lemma_eval_len(env, *operand),
        Expr::Binary(left, _, right) => {
            lemma_eval_len(env, *left);
            lemma_eval_len(eval(env, *left).1, *right);
        },
        Expr::Variable(_) => {},
        Expr::Assign(name, value) => {
            lemma_eval_len(env, *value);
            if let Ok(v) = eval(env, *value).0 {
                lemma_assign_in_len(eval(env, *value).1, name.lexeme@, v);
            }
        },
    }
}

proof fn lemma_exec_len(env: Scopes, out: Seq<Seq<char>>, s: StmtView, echo: bool)
    requires
        env.len() >= 1,
    ensures
        exec_stmt(env, out, s, echo).1.len() == env.len(),
    decreases s,
{
    match s {
        StmtView::Expression(e) => lemma_eval_len(env, e),
        StmtView::Print(e) => lemma_eval_len(env, e),
        StmtView::Var { name, initializer } => match initializer {
            None => {},
            Some(init) => lemma_eval_len(env, init),
        },
        StmtView::Block(body) => {
            lemma_exec_stmts_len(seq![Map::empty()] + env, out, body, echo);
        },
    }
}

proof fn lemma_exec_stmts_len(env: Scopes, out: Seq<Seq<char>>, ss: Seq<StmtView>, echo: bool)
    requires
        env.len() >= 1,
    ensures
        exec_stmts(env, out, ss, echo).1.len() == env.len(),
    decreases ss,
{
    if ss.len() > 0 {
        lemma_exec_len(env, out, ss[0], echo);
        let (r, env1, out1) = exec_stmt(env, out, ss[0], echo);
        if r is Ok {
            lemma_exec_stmts_len(env1, out1, ss.drop_first(), echo);
        }
    }
}

proof fn lemma_lookup_after_assign(s: Scopes, name: Seq<char>, v: Value)
    requires
        lookup(s, name) is Some,
    ensures
        lookup(assign_in(s, name, v), name) == Some(v),
    decreases s.len(),
{
    if !s[0].contains_key(name) {
        lemma_lookup_after_assign(s.drop_first(), name, v);
        assert((seq![s[0]] + assign_in(s.drop_first(), name, v)).drop_first() =~= assign_in(
            s.drop_first(),
            name,
            v,
        ));
    }
}

/// Two scope chains of one length whose scopes from `from` on bind the same
/// names.
pub open spec fn same_names(a: Scopes, b: Scopes, from: int) -> bool {
    &&& a.len() == b.len()
    &&& forall|i: int| from <= i < a.len() ==> #[trigger] a[i].dom() == b[i].dom()
}

proof fn lemma_assign_in_names(s: Scopes, name: Seq<char>, v: Value)
    ensures
        same_names(assign_in(s, name, v), s, 0),
    decreases s.len(),
{
    if s.len() > 0 {
        if s[0].contains_key(name) {
            assert(s[0].insert(name, v).dom() =~= s[0].dom());
        } else {
            lemma_assign_in_names(s.drop_first(), name, v);
            let r = assign_in(s, name, v);
            assert forall|i: int| 0 <= i < r.len() implies #[trigger] r[i].dom() == s[i].dom() by {
                if i > 0 {
                    assert(r[i] == assign_in(s.drop_first(), name, v)[i - 1]);
                }
            }
        }
    }
}

/// Evaluating an expression binds no new name.
proof fn lemma_eval_names(env: Scopes, e: Expr)
    ensures
        same_names(eval(env, e).1, env, 0),
    decreases e,
{
    match e {
        Expr::Literal(_) => {},
        Expr::Grouping(inner) => lemma_eval_names(env, *inner),
        Expr::Unary(_, operand) => lemma_eval_names(env, *operand),
        Expr::Binary(left, _, right) => {
            lemma_eval_names(env, *left);
            lemma_eval_names(eval(env, *left).1, *right);
        },
        Expr::Variable(_) => {},
        Expr::Assign(name, value) => {
            lemma_eval_names(env, *value);
            if let Ok(v) = eval(env, *value).0 {
                lemma_assign_in_names(eval(env, *value).1, name.lexeme@, v);
            }
        },
    }
}

/// A statement binds new names in the innermost scope only.
proof fn lemma_exec_names(env: Scopes, out: Seq<Seq<char>>, s: StmtView, echo: bool)
    requires
        env.len() >= 1,
    ensures
        same_names(exec_stmt(env, out, s, echo).1, env, 1),
        s is Block ==> same_names(exec_stmt(env, out, s, echo).1, env, 0),
    decreases s,
{
    match s {
        StmtView::Expression(e) => lemma_eval_names(env, e),
        StmtView::Print(e) => lemma_eval_names(env, e),
        StmtView::Var { name, initializer } => {
            if let Some(init) = initializer {
                lemma_eval_names(env, init);
            }
        },
        StmtView::Block(body) => {
            let inner = seq![Map::<Seq<char>, Value>::empty()] + env;
            lemma_exec_stmts_names(inner, out, body, echo);
            let after = exec_stmts(inner, out, body, echo).1;
            assert forall|i: int| 0 <= i < env.len() implies #[trigger] after.drop_first()[i].dom()
                == env[i].dom() by {
                assert(after.drop_first()[i] == after[i + 1]);
                assert(inner[i + 1] == env[i]);
            }
        },
    }
}

proof fn lemma_exec_stmts_names(env: Scopes, out: Seq<Seq<char>>, ss: Seq<StmtView>, echo: bool)
    requires
        env.len() >= 1,
    ensures
        same_names(exec_stmts(env, out, ss, echo).1, env, 1),
    decreases ss,
{
    if ss.len() > 0 {
        lemma_exec_names(env, out, ss[0], echo);
        let (r, env1, out1) = exec_stmt(env, out, ss[0], echo);
        if r is Ok {
            lemma_exec_stmts_names(env1, out1, ss.drop_first(), echo);
        }
    }
}

/// Scope chains that bind the same names find the same names.
proof fn lemma_lookup_same_names(a: Scopes, b: Scopes, name: Seq<char>)
    requires
        same_names(a, b, 0),
    ensures
        (lookup(a, name) is Some) == (lookup(b, name) is Some),
    decreases a.len(),
{
    if a.len() > 0 {
        assert(a[0].dom() == b[0].dom());
        let (a1, b1) = (a.drop_first(), b.drop_first());
        assert forall|i: int| 0 <= i < a1.len() implies #[trigger] a1[i].dom() == b1[i].dom() by {
            assert(a1[i] == a[i + 1]);
            assert(b1[i] == b[i + 1]);
        }
        lemma_lookup_same_names(a1, b1, name);
    }
}

/// A block takes its own scope away when it ends, whether it succeeds or
/// fails: afterwards there are as many scopes as before, and each binds
/// exactly the names it bound before. Declarations inside the block never
/// reach an enclosing scope.
pub proof fn lemma_block_keeps_enclosing_names(
    env: Scopes,
    out: Seq<Seq<char>>,
    body: Seq<StmtView>,
    echo: bool,
)
    requires
        env.len() >= 1,
    ensures
        same_names(exec_stmt(env, out, StmtView::Block(body), echo).1, env, 0),
{
    lemma_exec_names(env, out, StmtView::Block(body), echo);
}

/// An assignment inside a block to a name that an enclosing scope binds,
/// of any expression that evaluates to a value, succeeds, and afterwards
/// the name has that value in the enclosing scopes.
pub proof fn lemma_block_assignment_sets_enclosing(
    env: Scopes,
    out: Seq<Seq<char>>,
    name: Token,
    e: Expr,
    echo: bool,
)
    requires
        env.len() >= 1,
        lookup(env, name.lexeme@) is Some,
        eval(seq![Map::<Seq<char>, Value>::empty()] + env, e).0 is Ok,
    ensures
        ({
            let v = eval(seq![Map::<Seq<char>, Value>::empty()] + env, e).0->Ok_0;
            let r = exec_stmt(
                env,
                out,
                StmtView::Block(seq![StmtView::Expression(Expr::Assign(name, Box::new(e)))]),
                echo,
            );
            r.0 is Ok && lookup(r.1, name.lexeme@) == Some(v)
        }),
{
    let inner = seq![Map::<Seq<char>, Value>::empty()] + env;
    let (res, inner1) = eval(inner, e);
    let v = res->Ok_0;
    let x = name.lexeme@;
    lemma_eval_names(inner, e);
    assert(inner[0].dom() =~= Set::<Seq<char>>::empty());
    assert(!inner1[0].contains_key(x));
    assert(inner.drop_first() =~= env);
    assert forall|i: int| 0 <= i < env.len() implies #[trigger] inner1.drop_first()[i].dom()
        == env[i].dom() by {
        assert(inner1.drop_first()[i] == inner1[i + 1]);
        assert(inner[i + 1] == env[i]);
    }
    lemma_lookup_same_names(inner1.drop_first(), env, x);
    assert(lookup(inner1, x) == lookup(inner1.drop_first(), x));
    let after = assign_in(inner1, x, v);
    assert(after == seq![inner1[0]] + assign_in(inner1.drop_first(), x, v));
    assert(after.drop_first() =~= assign_in(inner1.drop_first(), x, v));
    lemma_lookup_after_assign(inner1.drop_first(), x, v);
    let stmt = StmtView::Expression(Expr::Assign(name, Box::new(e)));
    assert(eval(inner, Expr::Assign(name, Box::new(e))) == (Ok::<Value, InterpreterError>(v), after));
    let printed = if echo {
        out.push(value_text(v))
    } else {
        out
    };
    assert(exec_stmt(inner, out, stmt, echo) == (Ok::<(), InterpreterError>(()), after, printed));
    assert(seq![stmt][0] == stmt);
    assert(seq![stmt].drop_first() =~= Seq::<StmtView>::empty());
    assert(exec_stmts(after, printed, seq![stmt].drop_first(), echo) == (
        Ok::<(), InterpreterError>(()),
        after,
        printed,
    ));
}

/// A declaration inside a block binds its name in the block's own scope
/// only: after the block, every enclosing scope is as it was before.
pub proof fn lemma_block_declaration_is_local(
    env: Scopes,
    out: Seq<Seq<char>>,
    name: Token,
    init: Literal,
    echo: bool,
)
    requires
        env.len() >= 1,
    ensures
        exec_stmt(
            env,
            out,
            StmtView::Block(seq![StmtView::Var { name, initializer: Some(Expr::Literal(init)) }]),
            echo,
        ) == (Ok::<(), InterpreterError>(()), env, out),
{
    let inner = seq![Map::<Seq<char>, Value>::empty()] + env;
    let decl = StmtView::Var { name, initializer: Some(Expr::Literal(init)) };
    let after = define_in(inner, name.lexeme@, literal_value(init));
    assert(eval(inner, Expr::Literal(init)) == (Ok::<Value, InterpreterError>(literal_value(init)), inner));
    assert(exec_stmt(inner, out, decl, echo) == (Ok::<(), InterpreterError>(()), after, out));
    assert(seq![decl][0] == decl);
    assert(seq![decl].drop_first() =~= Seq::<StmtView>::empty());
    assert(exec_stmts(after, out, seq![decl].drop_first(), echo) == (Ok::<(), InterpreterError>(()), after, out));
    assert(exec_stmts(inner, out, seq![decl], echo) == (Ok::<(), InterpreterError>(()), after, out));
    assert(after.drop_first() =~= env);
}

/// Printing a variable that no scope binds fails with `UndefinedVariable`
/// for its name and line, and prints nothing.
pub proof fn lemma_print_undefined(env: Scopes, out: Seq<Seq<char>>, name: Token, echo: bool)
    requires
        lookup(env, name.lexeme@) is None,
    ensures
        exec_stmt(env, out, StmtView::Print(Expr::Variable(name)), echo) == (
            Err::<(), InterpreterError>(
                InterpreterError::UndefinedVariable { name: name.lexeme, line: name.line },
            ),
            env,
            out,
        ),
{
}

/// Division by a number equal to zero always fails with `DivisionByZero`;
/// it never yields a value.
pub proof fn lemma_division_by_zero(operator: Token, x: crate::number::Rat, y: crate::number::Rat)
    requires
        operator.token_type == TokenType::Slash,
        y.num == 0,
    ensures
        binary_result(operator, Value::Num(x), Value::Num(y)) == Err::<Value, InterpreterError>(
            InterpreterError::DivisionByZero { line: operator.line },
        ),
{
}

/// An outcome as the contracts see it.
pub open spec fn outcome(r: Result<Object, InterpreterError>) -> Result<Value, InterpreterError> {
    match r {
        Ok(o) => Ok(o@),
        Err(e) => Err(e),
    }
}

/// The text of each output line.
pub open spec fn lines_view(v: Seq<String>) -> Seq<Seq<char>> {
    v.map_values(|s: String| s@)
}

pub struct Interpreter {
    environment: Environment,
    evaluate_mode: bool,
    output: Vec<String>,
}

impl Interpreter {
    /// The scopes, innermost first.
    pub closed spec fn scopes(&self) -> Scopes {
        self.environment.scopes()
    }

    /// The lines printed so far.
    pub closed spec fn printed(&self) -> Seq<Seq<char>> {
        lines_view(self.output@)
    }

    /// Whether expression statements print their values.
    pub closed spec fn echoes(&self) -> bool {
        self.evaluate_mode
    }

    /// An interpreter with one empty global scope and no output; in
    /// `evaluate_mode`, expression statements print their values.
    pub fn new(evaluate_mode: bool) -> (r: Interpreter)
        ensures
            r.scopes() == seq![Map::<Seq<char>, Value>::empty()],
            r.printed() == Seq::<Seq<char>>::empty(),
            r.echoes() == evaluate_mode,
    {
        let r = Interpreter { environment: Environment::new(), evaluate_mode, output: Vec::new() };
        assert(lines_view(r.output@) =~= Seq::<Seq<char>>::empty());
        r
    }

    /// The lines printed so far, in order.
    pub fn output(&self) -> (r: &Vec<String>)
        ensures
            lines_view(r@) == self.printed(),
    {
        &self.output
    }

    fn emit(&mut self, line: String)
        ensures
            final(self).printed() == old(self).printed().push(line@),
            final(self).scopes() == old(self).scopes(),
            final(self).echoes() == old(self).echoes(),
    {
        self.output.push(line);
        assert(lines_view(self.output@) =~= lines_view(old(self).output@).push(line@));
    }

    /// The printed form of a value.
    fn stringify(&self, object: &Object) -> (r: String)
        ensures
            r@ == value_text(object@),
    {
        object.to_text()
    }

    pub fn visit_literal_expr(&self, literal: &Literal) -> (r: Result<Object, InterpreterError>)
        ensures
            outcome(r) == Ok::<Value, InterpreterError>(literal_value(*literal)),
    {
        match literal {
            Literal::Number(n) => Ok(Object::Number(n.clone())),
            Literal::String(s) => Ok(Object::String(s.clone())),
            Literal::Bool(b) => Ok(Object::Bool(*b)),
            Literal::Nil => Ok(Object::Nil),
        }
    }

    /// A binary operator applied to its evaluated operands.
    pub fn visit_binary_expr(&self, left_val: Object, operator: &Token, right_val: Object) -> (r: Result<
        Object,
        InterpreterError,
    >)
        ensures
            outcome(r) == binary_result(*operator, left_val@, right_val@),
    {
        let line = operator.line;
        match operator.token_type {
            TokenType::Plus => match (left_val, right_val) {
                (Object::Number(a), Object::Number(b)) => Ok(Object::Number(a.add(&b))),
                (Object::String(a), Object::String(b)) => {
                    let mut joined = a;
                    push_text(&mut joined, &b);
                    Ok(Object::String(joined))
                },
                _ => Err(InterpreterError::InvalidBinaryOperands { line }),
            },
            TokenType::Minus => match (left_val, right_val) {
                (Object::Number(a), Object::Number(b)) => Ok(Object::Number(a.sub(&b))),
                _ => Err(InterpreterError::InvalidBinaryOperands { line }),
            },
            TokenType::Star => match (left_val, right_val) {
                (Object::Number(a), Object::Number(b)) => Ok(Object::Number(a.mul(&b))),
                _ => Err(InterpreterError::InvalidBinaryOperands { line }),
            },
            TokenType::Slash => match (left_val, right_val) {
                (Object::Number(a), Object::Number(b)) => {
                    if b.is_zero() {
                        Err(InterpreterError::DivisionByZero { line })
                    } else {
                        Ok(Object::Number(a.div(&b)))
                    }
                },
                _ => Err(InterpreterError::InvalidBinaryOperands { line }),
            },
            TokenType::Equal_Equal => Ok(Object::Bool(left_val.equals(&right_val))),
            TokenType::Bang_Equal => Ok(Object::Bool(!left_val.equals(&right_val))),
            TokenType::Greater => match (left_val, right_val) {
                (Object::Number(a), Object::Number(b)) => Ok(Object::Bool(b.less(&a))),
                _ => Err(InterpreterError::InvalidBinaryOperands { line }),
            },
            TokenType::Greater_Equal => match (left_val, right_val) {
                (Object::Number(a), Object::Number(b)) => Ok(Object::Bool(!a.less(&b))),
                _ => Err(InterpreterError::InvalidBinaryOperands { line }),
            },
            TokenType::Less => match (left_val, right_val) {
                (Object::Number(a), Object::Number(b)) => Ok(Object::Bool(a.less(&b))),
                _ => Err(InterpreterError::InvalidBinaryOperands { line }),
            },
            TokenType::Less_Equal => match (left_val, right_val) {
                (Object::Number(a), Object::Number(b)) => Ok(Object::Bool(!b.less(&a))),
                _ => Err(InterpreterError::InvalidBinaryOperands { line }),
            },
            TokenType::Or => if left_val.is_truthy() {
                Ok(left_val)
            } else {
                Ok(right_val)
            },
            TokenType::And => if left_val.is_truthy() {
                Ok(right_val)
            } else {
                Ok(left_val)
            },
            _ => Err(InterpreterError::InvalidBinaryOperands { line }),
        }
    }

    /// A unary operator applied to its evaluated operand.
    pub fn visit_unary_expr(&self, operator: &Token, right_val: Object) -> (r: Result<Object, InterpreterError>)
        ensures
            outcome(r) == unary_result(*operator, right_val@),
    {
        match operator.token_type {
            TokenType::Minus => match right_val {
                Object::Number(n) => Ok(Object::Number(n.neg())),
                _ => Err(InterpreterError::InvalidUnaryOperand { line: operator.line }),
            },
            TokenType::Bang => Ok(Object::Bool(!right_val.is_truthy())),
            _ => Err(InterpreterError::InvalidUnaryOperand { line: operator.line }),
        }
    }

    pub fn visit_variable_expr(&self, token: &Token) -> (r: Result<Object, InterpreterError>)
        ensures
            outcome(r) == eval(self.scopes(), Expr::Variable(*token)).0,
    {
        self.environment.get(token)
    }

    /// Evaluates an expression (see `eval`).
    pub fn evaluate(&mut self, expr: &Expr) -> (r: Result<Object, InterpreterError>)
        ensures
            outcome(r) == eval(old(self).scopes(), *expr).0,
            final(self).scopes() == eval(old(self).scopes(), *expr).1,
            final(self).printed() == old(self).printed(),
            final(self).echoes() == old(self).echoes(),
        decreases expr,
    {
        match expr {
            Expr::Literal(literal) => self.visit_literal_expr(literal),
            Expr::Grouping(inner) => self.evaluate(inner),
            Expr::Unary(operator, operand) => match self.evaluate(operand) {
                Err(e) => Err(e),
                Ok(v) => self.visit_unary_expr(operator, v),
            },
            Expr::Binary(left, operator, right) => match self.evaluate(left) {
                Err(e) => Err(e),
                Ok(a) => match self.evaluate(right) {
                    Err(e) => Err(e),
                    Ok(b) => self.visit_binary_expr(a, operator, b),
                },
            },
            Expr::Variable(token) => self.visit_variable_expr(token),
            Expr::Assign(name, value) => match self.evaluate(value) {
                Err(e) => Err(e),
                Ok(v) => {
                    let result = v.clone();
                    match self.environment.assign(name, v) {
                        Err(e) => Err(e),
                        Ok(()) => Ok(result),
                    }
                },
            },
        }
    }

    /// A scope chain never runs out of scopes.
    pub proof fn lemma_has_scope(&self)
        ensures
            self.scopes().len() >= 1,
    {
        self.environment.lemma_nonempty();
    }

    pub fn visit_print_stmt(&mut self, expr: &Expr) -> (r: Result<(), InterpreterError>)
        ensures
            (r, final(self).scopes(), final(self).printed()) == exec_stmt(old(self).scopes(), old(self).printed(),
                StmtView::Print(*expr), old(self).echoes()),
            final(self).echoes() == old(self).echoes(),
    {
        match self.evaluate(expr) {
            Err(e) => Err(e),
            Ok(value) => {
                let text = self.stringify(&value);
                self.emit(text);
                Ok(())
            },
        }
    }

    pub fn visit_var_stmt(&mut self, name: &Token, initializer: &Option<Expr>) -> (r: Result<(), InterpreterError>)
        ensures
            (r, final(self).scopes(), final(self).printed()) == exec_stmt(old(self).scopes(), old(self).printed(),
                StmtView::Var { name: *name, initializer: *initializer }, old(self).echoes()),
            final(self).echoes() == old(self).echoes(),
    {
        let value = match initializer {
            Some(expr) => match self.evaluate(expr) {
                Err(e) => {
                    return Err(e);
                },
                Ok(v) => v,
            },
            None => Object::Nil,
        };
        self.environment.define(name.lexeme.clone(), value);
        Ok(())
    }

    pub fn visit_expression_stmt(&mut self, expr: &Expr) -> (r: Result<(), InterpreterError>)
        ensures
            (r, final(self).scopes(), final(self).printed()) == exec_stmt(old(self).scopes(), old(self).printed(),
                StmtView::Expression(*expr), old(self).echoes()),
            final(self).echoes() == old(self).echoes(),
    {
        match self.evaluate(expr) {
            Err(e) => Err(e),
            Ok(value) => {
                if self.evaluate_mode {
                    let text = self.stringify(&value);
                    self.emit(text);
                }
                Ok(())
            },
        }
    }

    /// Runs a block in a new innermost scope, and leaves that scope
    /// whether the block succeeds or fails.
    pub fn visit_block_stmt(&mut self, statements: &Vec<Stmt>) -> (r: Result<(), InterpreterError>)
        ensures
            (r, final(self).scopes(), final(self).printed()) == exec_stmt(old(self).scopes(), old(self).printed(),
                StmtView::Block(stmts_model(statements@)), old(self).echoes()),
            final(self).echoes() == old(self).echoes(),
        decreases statements,
    {
        proof {
            self.lemma_has_scope();
        }
        let ghost echo = self.evaluate_mode;
        let ghost out0 = self.printed();
        let ghost outer = self.scopes();
        let mut previous = Environment::new();
        core::mem::swap(&mut self.environment, &mut previous);
        self.environment = Environment::from_enclosing(previous);
        let ghost inner0 = self.scopes();
        assert(inner0 == seq![Map::<Seq<char>, Value>::empty()] + outer);
        let ghost m = stmts_model(statements@);
        proof {
            lemma_stmts_model_index(statements@);
            assert(m.subrange(0, m.len() as int) =~= m);
            self.lemma_has_scope();
        }
        let mut failed: Option<InterpreterError> = None;
        let mut i: usize = 0;
        while i < statements.len() && failed.is_none()
            invariant
                i <= statements@.len(),
                m == stmts_model(statements@),
                m.len() == statements@.len(),
                forall|k: int| 0 <= k < statements@.len() ==> #[trigger] m[k] == statements@[k].model(),
                self.evaluate_mode == echo,
                self.scopes().len() == inner0.len(),
                inner0.len() >= 2,
                failed matches Some(e) ==> exec_stmts(inner0, out0, m, echo) == (
                    Err::<(), InterpreterError>(e),
                    self.scopes(),
                    self.printed(),
                ),
                failed is None ==> exec_stmts(inner0, out0, m, echo) == exec_stmts(
                    self.scopes(),
                    self.printed(),
                    m.subrange(i as int, m.len() as int),
                    echo,
                ),
            decreases statements@.len() - i,
        {
            proof {
                let rest = m.subrange(i as int, m.len() as int);
                assert(rest[0] == m[i as int]);
                assert(rest.drop_first() =~= m.subrange(i + 1, m.len() as int));
                assert(decreases_to!(*statements => statements@[i as int]));
                self.lemma_has_scope();
                lemma_exec_len(self.scopes(), self.printed(), m[i as int], echo);
            }
            match self.execute(&statements[i]) {
                Err(e) => {
                    failed = Some(e);
                },
                Ok(()) => {},
            }
            i = i + 1;
        }
        let ghost env1 = self.scopes();
        let mut inner = Environment::new();
        core::mem::swap(&mut self.environment, &mut inner);
        self.environment = inner.into_enclosing();
        match failed {
            Some(e) => Err(e),
            None => {
                assert(m.subrange(i as int, m.len() as int) =~= Seq::<StmtView>::empty());
                Ok(())
            },
        }
    }

    /// Runs one statement (see `exec_stmt`).
    pub fn execute(&mut self, stmt: &Stmt) -> (r: Result<(), InterpreterError>)
        ensures
            (r, final(self).scopes(), final(self).printed()) == exec_stmt(old(self).scopes(), old(self).printed(),
                stmt.model(), old(self).echoes()),
            final(self).echoes() == old(self).echoes(),
        decreases stmt,
    {
        match stmt {
            Stmt::Print(expr) => self.visit_print_stmt(expr),
            Stmt::Var { name, initializer } => self.visit_var_stmt(name, initializer),
            Stmt::Expression(expr) => self.visit_expression_stmt(expr),
            Stmt::Block(statements) => {
                assert(decreases_to!(*stmt => (*stmt)->Block_0));
                self.visit_block_stmt(statements)
            },
        }
    }

    /// Runs statements in order and stops at the first that fails (see
    /// `exec_stmts`).
    pub fn interpret(&mut self, statements: Vec<Stmt>) -> (r: Result<(), InterpreterError>)
        ensures
            (r, final(self).scopes(), final(self).printed()) == exec_stmts(old(self).scopes(), old(self).printed(),
                stmts_model(statements@), old(self).echoes()),
            final(self).echoes() == old(self).echoes(),
    {
        let ghost echo = self.evaluate_mode;
        let ghost out0 = self.printed();
        let ghost env0 = self.scopes();
        let ghost m = stmts_model(statements@);
        proof {
            lemma_stmts_model_index(statements@);
            assert(m.subrange(0, m.len() as int) =~= m);
        }
        let mut failed: Option<InterpreterError> = None;
        let mut i: usize = 0;
        while i < statements.len() && failed.is_none()
            invariant
                i <= statements@.len(),
                m == stmts_model(statements@),
                m.len() == statements@.len(),
                forall|k: int| 0 <= k < statements@.len() ==> #[trigger] m[k] == statements@[k].model(),
                self.evaluate_mode == echo,
                failed matches Some(e) ==> exec_stmts(env0, out0, m, echo) == (
                    Err::<(), InterpreterError>(e),
                    self.scopes(),
                    self.printed(),
                ),
                failed is None ==> exec_stmts(env0, out0, m, echo) == exec_stmts(
                    self.scopes(),
                    self.printed(),
                    m.subrange(i as int, m.len() as int),
                    echo,
                ),
            decreases statements@.len() - i,
        {
            proof {
                let rest = m.subrange(i as int, m.len() as int);
                assert(rest[0] == m[i as int]);
                assert(rest.drop_first() =~= m.subrange(i + 1, m.len() as int));
            }
            match self.execute(&statements[i]) {
                Err(e) => {
                    failed = Some(e);
                },
                Ok(()) => {},
            }
            i = i + 1;
        }
        match failed {
            Some(e) => Err(e),
            None => {
                assert(m.subrange(i as int, m.len() as int) =~= Seq::<StmtView>::empty());
                Ok(())
            },
        }
    }
}

} // verus!
