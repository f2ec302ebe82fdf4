//! Renders syntax trees as fully parenthesized s-expressions:
//! `(+ 1 2)`, `(var x 5)`, `(block (print x))`.

use vstd::prelude::*;
use crate::parser::{Expr, Literal, Stmt, StmtView, stmts_model};
use crate::text::push_text;

verus! {

pub open spec fn literal_text(l: Literal) -> Seq<char> {
    match l {
        Literal::String(s) => s@,
        Literal::Number(n) => crate::number::rat_text(n@),
        Literal::Nil => "nil"@,
        Literal::Bool(b) => if b {
            "true"@
        } else {
            "false"@
        },
    }
}

/// The s-expression of an expression.
pub open spec fn expr_text(e: Expr) -> Seq<char>
    decreases e,
{
    match e {
        Expr::Binary(left, operator, right) => "("@ + operator.lexeme@ + " "@ + expr_text(*left) + " "@
            + expr_text(*right) + ")"@,
        Expr::Grouping(inner) => "(group "@ + expr_text(*inner) + ")"@,
        Expr::Literal(l) => literal_text(l),
        Expr::Variable(name) => name.lexeme@,
        Expr::Assign(name, value) => "(assign "@ + name.lexeme@ + " "@ + expr_text(*value) + ")"@,
        Expr::Unary(operator, operand) => "("@ + operator.lexeme@ + " "@ + expr_text(*operand) + ")"@,
    }
}

/// The s-expression of a statement.
pub open spec fn stmt_text(s: StmtView) -> Seq<char>
    decreases s,
{
    match s {
        StmtView::Expression(e) => expr_text(e),
        StmtView::Print(e) => "(print "@ + expr_text(e) + ")"@,
        StmtView::Var { name, initializer } => "(var "@ + name.lexeme@ + " "@ + match initializer {
            Some(init) => expr_text(init),
            None => "nil"@,
        } + ")"@,
        StmtView::Block(body) => "(block"@ + block_text(body) + ")"@,
    }
}

/// Each statement's s-expression after a space.
pub open spec fn block_text(ss: Seq<StmtView>) -> Seq<char>
    decreases ss,
{
    if ss.len() == 0 {
        seq![]
    } else {
        block_text(ss.drop_last()) + " "@ + stmt_text(ss.last())
    }
}

pub struct AstPrinter;

impl AstPrinter {
    pub fn print_expr(&self, expr: &Expr) -> (r: String)
        ensures
            r@ == expr_text(*expr),
        decreases expr,
    {
        match expr {
            Expr::Binary(left, operator, right) => {
                let mut r = String::from_str("(");
                push_text(&mut r, &operator.lexeme);
                r.append(" ");
                let l = self.print_expr(left);
                push_text(&mut r, &l);
                r.append(" ");
                let rt = self.print_expr(right);
                push_text(&mut r, &rt);
                r.append(")");
                r
            },
            Expr::Grouping(inner) => {
                let mut r = String::from_str("(group ");
                let t = self.print_expr(inner);
                push_text(&mut r, &t);
                r.append(")");
                r
            },
            Expr::Literal(l) => self.print_literal(l),
            Expr::Variable(name) => name.lexeme.clone(),
            Expr::Assign(name, value) => {
                let mut r = String::from_str("(assign ");
                push_text(&mut r, &name.lexeme);
                r.append(" ");
                let t = self.print_expr(value);
                push_text(&mut r, &t);
                r.append(")");
                r
            },
            Expr::Unary(operator, operand) => {
                let mut r = String::from_str("(");
                push_text(&mut r, &operator.lexeme);
                r.append(" ");
                let t = self.print_expr(operand);
                push_text(&mut r, &t);
                r.append(")");
                r
            },
        }
    }

    fn print_literal(&self, literal: &Literal) -> (r: String)
        ensures
            r@ == literal_text(*literal),
    {
        match literal {
            Literal::String(s) => s.clone(),
            Literal::Number(n) => n.to_text(),
            Literal::Bool(b) => if *b {
                String::from_str("true")
            } else {
                String::from_str("false")
            },
            Literal::Nil => String::from_str("nil"),
        }
    }

    pub fn print_stmt(&self, stmt: &Stmt) -> (r: String)
        ensures
            r@ == stmt_text(stmt.model()),
        decreases stmt,
    {
        match stmt {
            Stmt::Expression(expr) => self.print_expr(expr),
            Stmt::Print(expr) => {
                let mut r = String::from_str("(print ");
                let t = self.print_expr(expr);
                push_text(&mut r, &t);
                r.append(")");
                r
            },
            Stmt::Var { name, initializer } => {
                let mut r = String::from_str("(var ");
                push_text(&mut r, &name.lexeme);
                r.append(" ");
                match initializer {
                    Some(init) => {
                        let t = self.print_expr(init);
                        push_text(&mut r, &t);
                    },
                    None => r.append("nil"),
                }
                r.append(")");
                r
            },
            Stmt::Block(statements) => {
                let mut r = String::from_str("(block");
                let mut i: usize = 0;
                while i < statements.len()
                    invariant
                        *stmt == Stmt::Block(*statements),
                        i <= statements@.len(),
                        r@ == "(block"@ + block_text(stmts_model(statements@.subrange(0, i as int))),
                    decreases statements@.len() - i,
                {
                    let ghost pre = statements@.subrange(0, i as int);
                    let ghost m = stmts_model(pre);
                    proof {
                        assert(statements@.subrange(0, i + 1).drop_last() =~= pre);
                        assert(statements@.subrange(0, i + 1).last() == statements@[i as int]);
                        assert(stmts_model(statements@.subrange(0, i + 1)) == m.push(
                            statements@[i as int].model(),
                        ));
                        assert(m.push(statements@[i as int].model()).drop_last() =~= m);
                        assert(decreases_to!(*stmt => (*stmt)->Block_0));
                        assert((*stmt)->Block_0 == *statements);
                        assert(decreases_to!(*statements => statements@[i as int]));
                    }
                    r.append(" ");
                    let t = self.print_stmt(&statements[i]);
                    push_text(&mut r, &t);
                    i = i + 1;
                }
                assert(statements@.subrange(0, i as int) =~= statements@);
                r.append(")");
                r
            },
        }
    }
}

} // verus!
