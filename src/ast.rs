use vstd::prelude::*;
use crate::lexer::{TDToken, TDType};
use crate::evaluator::{eval_stmt, stmt_value, EvalError, TDEvaluator};
use crate::printer::{program_lines, lines_view, AstPrinter};

verus! {

/// A program: its statements in source order.
pub struct Ast {
    pub statements: Vec<AstStmt>,
}

pub enum AstStmtType {
    Expr(AstExpr),
}

pub struct AstStmt {
    pub _type: AstStmtType,
}

pub enum AstExprType {
    Constant64(AstConstant),
    Binary(AstBinaryOperation),
    Parenthesized(AstParenthesized),
}

pub struct AstExpr {
    pub _type: AstExprType,
}

pub struct AstBinaryOperation {
    pub left: Box<AstExpr>,
    pub right: Box<AstExpr>,
    pub operator: AstBinaryOperator,
}

#[derive(Debug, PartialEq, Eq, Clone, Copy, Structural)]
pub enum AstBinaryOperationType {
    Add,
    Sub,
    Mul,
    Div,
}

/// An operator together with the token it was read from.
pub struct AstBinaryOperator {
    pub _type: AstBinaryOperationType,
    pub token: TDToken,
}

/// Explicit grouping, kept as a node of its own.
pub struct AstParenthesized {
    pub expr: Box<AstExpr>,
}

pub struct AstConstant {
    pub number: i64,
}

/// Addition and subtraction bind weaker than multiplication and division.
pub open spec fn op_precedence(t: AstBinaryOperationType) -> u8 {
    match t {
        AstBinaryOperationType::Add => 1,
        AstBinaryOperationType::Sub => 1,
        AstBinaryOperationType::Mul => 2,
        AstBinaryOperationType::Div => 2,
    }
}

/// The token type that spells an operator.
pub open spec fn op_token_type(t: AstBinaryOperationType) -> TDType {
    match t {
        AstBinaryOperationType::Add => TDType::PLUS,
        AstBinaryOperationType::Sub => TDType::MINUS,
        AstBinaryOperationType::Mul => TDType::ASTERISK,
        AstBinaryOperationType::Div => TDType::SLASH,
    }
}

/// The token types an expression was read from, in order: a tree spells
/// its operands and operators left to right, and a group its parentheses.
pub open spec fn expr_tokens(e: AstExpr) -> Seq<TDType>
    decreases e,
{
    match e._type {
        AstExprType::Constant64(c) => seq![TDType::Dynamic64(c.number)],
        AstExprType::Binary(b) => expr_tokens(*b.left) + seq![op_token_type(b.operator._type)]
            + expr_tokens(*b.right),
        AstExprType::Parenthesized(p) => seq![TDType::LPAREN] + expr_tokens(*p.expr) + seq![
            TDType::RPAREN,
        ],
    }
}

/// The precedence of the operator at the top of `e`, if it is a binary node.
pub open spec fn top_precedence(e: AstExpr) -> Option<u8> {
    match e._type {
        AstExprType::Binary(b) => Some(op_precedence(b.operator._type)),
        _ => None,
    }
}

/// Operators nest as precedence and left associativity ask: below a binary
/// node, an ungrouped left operand binds at least as tightly, an ungrouped
/// right operand strictly more tightly.
pub open spec fn well_shaped(e: AstExpr) -> bool
    decreases e,
{
    match e._type {
        AstExprType::Constant64(_) => true,
        AstExprType::Binary(b) => {
            let p = op_precedence(b.operator._type);
            well_shaped(*b.left) && well_shaped(*b.right) && (match top_precedence(*b.left) {
                Some(q) => q >= p,
                None => true,
            }) && (match top_precedence(*b.right) {
                Some(q) => q > p,
                None => true,
            })
        },
        AstExprType::Parenthesized(p) => well_shaped(*p.expr),
    }
}

pub open spec fn stmt_expr(s: AstStmt) -> AstExpr {
    match s._type {
        AstStmtType::Expr(e) => e,
    }
}

impl Ast {
    pub fn new() -> (r: Self)
        ensures
            r.statements@.len() == 0,
    {
        Self { statements: Vec::new() }
    }

    pub fn add_stmt(&mut self, stmt: AstStmt)
        ensures
            final(self).statements@ == old(self).statements@.push(stmt),
    {
        self.statements.push(stmt);
    }

    /// Evaluates the statements in order, one result each; the evaluator is
    /// left holding the value of the last statement.
    pub fn visit(&self, evaluator: &mut TDEvaluator) -> (r: Vec<Result<i64, EvalError>>)
        ensures
            r@.len() == self.statements@.len(),
            forall|i: int|
                0 <= i < r@.len() ==> r@[i] == eval_stmt(#[trigger] self.statements@[i]),
            final(evaluator).last_const == if self.statements@.len() == 0 {
                old(evaluator).last_const
            } else {
                stmt_value(self.statements@.last())
            },
    {
        let mut results: Vec<Result<i64, EvalError>> = Vec::new();
        let mut i: usize = 0;
        while i < self.statements.len()
            invariant
                i <= self.statements@.len(),
                results@.len() == i,
                forall|j: int|
                    0 <= j < i ==> results@[j] == eval_stmt(#[trigger] self.statements@[j]),
                evaluator.last_const == if i == 0 {
                    old(evaluator).last_const
                } else {
                    stmt_value(self.statements@[i - 1])
                },
            decreases self.statements@.len() - i,
        {
            let r = evaluator.visit_stmt(&self.statements[i]);
            results.push(r);
            i = i + 1;
        }
        results
    }
}

impl Ast {
    /// The indented dump of the program, one line per node.
    pub fn visualize(&self) -> (r: Vec<String>)
        ensures
            lines_view(r@) == program_lines(self.statements@),
    {
        AstPrinter::print_statements(&self.statements)
    }
}

impl AstStmt {
    pub fn new(type_: AstStmtType) -> (r: Self)
        ensures
            r._type == type_,
    {
        Self { _type: type_ }
    }

    pub fn expr(expr: AstExpr) -> (r: Self)
        ensures
            stmt_expr(r) == expr,
    {
        AstStmt::new(AstStmtType::Expr(expr))
    }
}

impl AstBinaryOperator {
    pub fn precedence(&self) -> (r: u8)
        ensures
            r == op_precedence(self._type),
    {
        match self._type {
            AstBinaryOperationType::Add => 1,
            AstBinaryOperationType::Sub => 1,
            AstBinaryOperationType::Mul => 2,
            AstBinaryOperationType::Div => 2,
        }
    }
}

impl AstExpr {
    pub fn new(type_: AstExprType) -> (r: Self)
        ensures
            r._type == type_,
    {
        AstExpr { _type: type_ }
    }

    pub fn constant_64(n: i64) -> (r: Self)
        ensures
            r._type is Constant64,
            r._type->Constant64_0.number == n,
    {
        AstExpr::new(AstExprType::Constant64(AstConstant { number: n }))
    }

    pub fn binary(operator: AstBinaryOperator, left: AstExpr, right: AstExpr) -> (r: Self)
        ensures
            r._type is Binary,
            r._type->Binary_0.operator == operator,
            *r._type->Binary_0.left == left,
            *r._type->Binary_0.right == right,
    {
        AstExpr::new(
            AstExprType::Binary(
                AstBinaryOperation { operator, left: Box::new(left), right: Box::new(right) },
            ),
        )
    }

    pub fn parenthesized(expr: AstExpr) -> (r: Self)
        ensures
            r._type is Parenthesized,
            *r._type->Parenthesized_0.expr == expr,
    {
        AstExpr::new(AstExprType::Parenthesized(AstParenthesized { expr: Box::new(expr) }))
    }
}

} // verus!
