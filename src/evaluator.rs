use vstd::prelude::*;
use crate::ast::{
    stmt_expr, AstBinaryOperationType, AstBinaryOperator, AstExpr, AstExprType, AstStmt,
    AstStmtType,
};

verus! {

/// Why an expression has no value. Each names the span of the operator
/// that failed.
#[derive(Debug, PartialEq, Eq, Clone, Copy, Structural)]
pub enum EvalError {
    DivisionByZero { start: usize, end: usize },
    Overflow { start: usize, end: usize },
}

/// Integer division that rounds toward zero.
pub open spec fn trunc_div(x: int, d: int) -> int {
    if x == 0 {
        0
    } else if x > 0 && d > 0 {
        x / d
    } else if x < 0 && d < 0 {
        (-x) / (-d)
    } else if x < 0 {
        -((-x) / d)
    } else {
        -(x / (-d))
    }
}

/// The exact result of an operator on two integers.
pub open spec fn exact_result(t: AstBinaryOperationType, l: int, r: int) -> int {
    match t {
        AstBinaryOperationType::Add => l + r,
        AstBinaryOperationType::Sub => l - r,
        AstBinaryOperationType::Mul => l * r,
        AstBinaryOperationType::Div => trunc_div(l, r),
    }
}

/// An operator applied to two values: division by zero fails, and so does
/// a result outside the range of `i64`.
pub open spec fn apply_op(op: AstBinaryOperator, l: i64, r: i64) -> Result<i64, EvalError> {
    let span_start = op.token.lexeme.start;
    let span_end = op.token.lexeme.end;
    if op._type == AstBinaryOperationType::Div && r == 0 {
        Err(EvalError::DivisionByZero { start: span_start, end: span_end })
    } else {
        let v = exact_result(op._type, l as int, r as int);
        if i64::MIN <= v <= i64::MAX {
            Ok(v as i64)
        } else {
            Err(EvalError::Overflow { start: span_start, end: span_end })
        }
    }
}

/// The value of an expression: left operand first, then right operand,
/// then the operator; the first failure is the result.
pub open spec fn eval_expr(e: AstExpr) -> Result<i64, EvalError>
    decreases e,
{
    match e._type {
        AstExprType::Constant64(c) => Ok(c.number),
        AstExprType::Binary(b) => match eval_expr(*b.left) {
            Err(x) => Err(x),
            Ok(l) => match eval_expr(*b.right) {
                Err(x) => Err(x),
                Ok(r) => apply_op(b.operator, l, r),
            },
        },
        AstExprType::Parenthesized(p) => eval_expr(*p.expr),
    }
}

pub open spec fn eval_stmt(s: AstStmt) -> Result<i64, EvalError> {
    eval_expr(stmt_expr(s))
}

/// What the evaluator holds after a statement: its value, or nothing.
pub open spec fn stmt_value(s: AstStmt) -> Option<i64> {
    match eval_stmt(s) {
        Ok(v) => Some(v),
        Err(_) => None,
    }
}

/// Folds expression trees to values; holds the value of the last statement
/// it evaluated.
pub struct TDEvaluator {
    pub last_const: Option<i64>,
}

impl TDEvaluator {
    pub fn new() -> (r: Self)
        ensures
            r.last_const is None,
    {
        Self { last_const: None }
    }

    pub fn visit_expr(expr: &AstExpr) -> (r: Result<i64, EvalError>)
        ensures
            r == eval_expr(*expr),
        decreases expr,
    {
        match &expr._type {
            AstExprType::Constant64(c) => Ok(c.number),
            AstExprType::Binary(b) => {
                let l = match Self::visit_expr(&b.left) {
                    Ok(v) => v,
                    Err(x) => return Err(x),
                };
                let r = match Self::visit_expr(&b.right) {
                    Ok(v) => v,
                    Err(x) => return Err(x),
                };
                Self::visit_binary_op(&b.operator, l, r)
            },
            AstExprType::Parenthesized(p) => Self::visit_expr(&p.expr),
        }
    }

    /// Applies an operator to the values of its two operands.
    pub fn visit_binary_op(operator: &AstBinaryOperator, l: i64, r: i64) -> (res: Result<
        i64,
        EvalError,
    >)
        ensures
            res == apply_op(*operator, l, r),
    {
        let start = operator.token.lexeme.start;
        let end = operator.token.lexeme.end;
        let v = match operator._type {
            AstBinaryOperationType::Add => l.checked_add(r),
            AstBinaryOperationType::Sub => l.checked_sub(r),
            AstBinaryOperationType::Mul => l.checked_mul(r),
            AstBinaryOperationType::Div => {
                if r == 0 {
                    return Err(EvalError::DivisionByZero { start, end });
                }
                l.checked_div(r)
            },
        };
        match v {
            Some(x) => Ok(x),
            None => Err(EvalError::Overflow { start, end }),
        }
    }

    /// Evaluates one statement and keeps its value (or nothing, where it
    /// fails).
    pub fn visit_stmt(&mut self, stmt: &AstStmt) -> (r: Result<i64, EvalError>)
        ensures
            r == eval_stmt(*stmt),
            final(self).last_const == stmt_value(*stmt),
    {
        let r = match &stmt._type {
            AstStmtType::Expr(e) => Self::visit_expr(e),
        };
        self.last_const = match r {
            Ok(v) => Some(v),
            Err(_) => None,
        };
        r
    }
}

} // verus!
