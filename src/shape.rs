use vstd::prelude::*;
use crate::ast::{
    expr_tokens, op_precedence, op_token_type, top_precedence, well_shaped, AstExpr, AstExprType,
};
use crate::lexer::TDType;
use crate::parser::{operator_of, spelled_at, stops_at};

verus! {

pub open spec fn paren_delta(t: TDType) -> int {
    if t == TDType::LPAREN {
        1
    } else if t == TDType::RPAREN {
        -1
    } else {
        0
    }
}

/// How many parentheses are open after the tokens `s`.
pub open spec fn depth(s: Seq<TDType>) -> int
    decreases s.len(),
{
    if s.len() == 0 {
        0
    } else {
        depth(s.drop_last()) + paren_delta(s.last())
    }
}

/// An operator stands at index `j` of `t` outside every parenthesis.
pub open spec fn is_top_op(t: Seq<TDType>, j: int) -> bool {
    0 <= j < t.len() && operator_of(t[j]) is Some && depth(t.subrange(0, j)) == 0
}

pub open spec fn token_prec(t: TDType) -> int {
    match operator_of(t) {
        Some(o) => op_precedence(o) as int,
        None => 0,
    }
}

/// Two trees have the same grouping: the same operators over the same
/// operands, nested the same way.
pub open spec fn same_shape(a: AstExpr, b: AstExpr) -> bool
    decreases a,
{
    match (a._type, b._type) {
        (AstExprType::Constant64(x), AstExprType::Constant64(y)) => x.number == y.number,
        (AstExprType::Binary(x), AstExprType::Binary(y)) => x.operator._type == y.operator._type
            && same_shape(*x.left, *y.left) && same_shape(*x.right, *y.right),
        (AstExprType::Parenthesized(x), AstExprType::Parenthesized(y)) => same_shape(
            *x.expr,
            *y.expr,
        ),
        _ => false,
    }
}

proof fn lemma_depth_concat(a: Seq<TDType>, b: Seq<TDType>)
    ensures
        depth(a + b) == depth(a) + depth(b),
    decreases b.len(),
{
    if b.len() > 0 {
        assert((a + b).drop_last() =~= a + b.drop_last());
        lemma_depth_concat(a, b.drop_last());
    } else {
        assert(a + b =~= a);
    }
}

proof fn lemma_depth_single(t: TDType)
    ensures
        depth(seq![t]) == paren_delta(t),
{
    assert(seq![t].drop_last() =~= Seq::<TDType>::empty());
    assert(depth(seq![t].drop_last()) == 0);
    assert(seq![t].last() == t);
}

/// The tokens of a tree are balanced: no prefix closes more parentheses
/// than it opens, and inside a group at least one stays open.
pub proof fn lemma_balanced(e: AstExpr)
    ensures
        expr_tokens(e).len() >= 1,
        depth(expr_tokens(e)) == 0,
        forall|i: int| 0 <= i <= expr_tokens(e).len() ==> depth(#[trigger] expr_tokens(e).subrange(0, i)) >= 0,
        e._type is Parenthesized ==> forall|i: int|
            1 <= i < expr_tokens(e).len() ==> depth(#[trigger] expr_tokens(e).subrange(0, i)) >= 1,
    decreases e,
{
    let t = expr_tokens(e);
    match e._type {
        AstExprType::Constant64(c) => {
            lemma_depth_single(t[0]);
            assert forall|i: int| 0 <= i <= t.len() implies depth(#[trigger] t.subrange(0, i)) >= 0 by {
                if i == 1 {
                    assert(t.subrange(0, 1) =~= t);
                } else {
                    assert(t.subrange(0, 0) =~= Seq::<TDType>::empty());
                }
            }
        },
        AstExprType::Binary(b) => {
            let l = expr_tokens(*b.left);
            let r = expr_tokens(*b.right);
            let o = op_token_type(b.operator._type);
            lemma_balanced(*b.left);
            lemma_balanced(*b.right);
            lemma_depth_single(o);
            lemma_depth_concat(l, seq![o]);
            lemma_depth_concat(l + seq![o], r);
            assert forall|i: int| 0 <= i <= t.len() implies depth(#[trigger] t.subrange(0, i)) >= 0 by {
                if i <= l.len() {
                    assert(t.subrange(0, i) =~= l.subrange(0, i));
                } else {
                    let k = i - l.len() - 1;
                    assert(t.subrange(0, i) =~= (l + seq![o]) + r.subrange(0, k));
                    lemma_depth_concat(l + seq![o], r.subrange(0, k));
                }
            }
        },
        AstExprType::Parenthesized(g) => {
            let x = expr_tokens(*g.expr);
            lemma_balanced(*g.expr);
            lemma_depth_single(TDType::LPAREN);
            lemma_depth_single(TDType::RPAREN);
            lemma_depth_concat(seq![TDType::LPAREN], x);
            lemma_depth_concat(seq![TDType::LPAREN] + x, seq![TDType::RPAREN]);
            assert forall|i: int| 1 <= i < t.len() implies depth(#[trigger] t.subrange(0, i)) >= 1 by {
                assert(t.subrange(0, i) =~= seq![TDType::LPAREN] + x.subrange(0, i - 1));
                lemma_depth_concat(seq![TDType::LPAREN], x.subrange(0, i - 1));
            }
            assert forall|i: int| 0 <= i <= t.len() implies depth(#[trigger] t.subrange(0, i)) >= 0 by {
                if i == 0 {
                    assert(t.subrange(0, 0) =~= Seq::<TDType>::empty());
                } else if i == t.len() {
                    assert(t.subrange(0, i) =~= t);
                }
            }
        },
    }
}

/// Every operator outside parentheses in a well-shaped tree binds at least
/// as tightly as the operator at its top; those right of the top operator
/// bind strictly more tightly. A tree that is no binary node has none.
proof fn lemma_top_ops(e: AstExpr)
    requires
        well_shaped(e),
    ensures
        forall|j: int|
            is_top_op(expr_tokens(e), j) ==> top_precedence(e) is Some && token_prec(
                #[trigger] expr_tokens(e)[j],
            ) >= top_precedence(e)->0,
        e._type is Binary ==> forall|j: int|
            is_top_op(expr_tokens(e), j) && j > expr_tokens(*e._type->Binary_0.left).len()
                ==> token_prec(#[trigger] expr_tokens(e)[j]) > top_precedence(e)->0,
    decreases e,
{
    let t = expr_tokens(e);
    lemma_balanced(e);
    match e._type {
        AstExprType::Constant64(c) => {
            assert forall|j: int| is_top_op(t, j) implies false by {
                assert(j == 0);
            }
        },
        AstExprType::Binary(b) => {
            let l = expr_tokens(*b.left);
            let r = expr_tokens(*b.right);
            let o = op_token_type(b.operator._type);
            let p = op_precedence(b.operator._type) as int;
            lemma_top_ops(*b.left);
            lemma_top_ops(*b.right);
            lemma_balanced(*b.left);
            lemma_depth_single(o);
            lemma_depth_concat(l, seq![o]);
            assert forall|j: int| is_top_op(t, j) implies token_prec(#[trigger] t[j]) >= p && (j
                > l.len() ==> token_prec(t[j]) > p) by {
                if j < l.len() {
                    assert(t.subrange(0, j) =~= l.subrange(0, j));
                    assert(t[j] == l[j]);
                    assert(is_top_op(l, j));
                } else if j > l.len() {
                    let k = j - l.len() - 1;
                    assert(t.subrange(0, j) =~= (l + seq![o]) + r.subrange(0, k));
                    lemma_depth_concat(l + seq![o], r.subrange(0, k));
                    assert(t[j] == r[k]);
                    assert(is_top_op(r, k));
                } else {
                    assert(t[j] == o);
                }
            }
        },
        AstExprType::Parenthesized(g) => {
            assert forall|j: int| is_top_op(t, j) implies false by {
                if j == 0 {
                    assert(t[0] == TDType::LPAREN);
                } else {
                    assert(depth(t.subrange(0, j)) >= 1);
                }
            }
        },
    }
}

/// The node reached by stepping `k` times into left operands.
pub open spec fn spine(e: AstExpr, k: nat) -> AstExpr
    decreases k,
{
    if k == 0 {
        e
    } else {
        match e._type {
            AstExprType::Binary(b) => spine(*b.left, (k - 1) as nat),
            _ => e,
        }
    }
}

/// How many binary nodes stand on the left edge of a tree.
pub open spec fn left_depth(e: AstExpr) -> nat
    decreases e,
{
    match e._type {
        AstExprType::Binary(b) => 1 + left_depth(*b.left),
        _ => 0,
    }
}

/// Along the left edge of a well-shaped tree every node is well-shaped,
/// spells a prefix of the tree's tokens, and binds at least as tightly as
/// the top.
pub proof fn lemma_spine(e: AstExpr, k: nat)
    requires
        well_shaped(e),
        k <= left_depth(e),
    ensures
        well_shaped(spine(e, k)),
        expr_tokens(spine(e, k)).len() <= expr_tokens(e).len(),
        expr_tokens(e).subrange(0, expr_tokens(spine(e, k)).len() as int) == expr_tokens(
            spine(e, k),
        ),
        k < left_depth(e) ==> spine(e, k)._type is Binary && *spine(e, k)._type->Binary_0.left
            == spine(e, k + 1),
        k == left_depth(e) ==> top_precedence(spine(e, k)) is None,
        k < left_depth(e) ==> top_precedence(e) is Some && top_precedence(spine(e, k)) is Some
            && top_precedence(spine(e, k))->0 >= top_precedence(e)->0,
    decreases k,
{
    let t = expr_tokens(e);
    if k == 0 {
        assert(t.subrange(0, t.len() as int) =~= t);
        if 0 < left_depth(e) {
            let l = *e._type->Binary_0.left;
            assert(spine(l, 0) == l);
            assert(spine(e, 1) == spine(l, 0));
        }
    } else {
        let b = e._type->Binary_0;
        lemma_spine(*b.left, (k - 1) as nat);
        let s = expr_tokens(spine(e, k));
        let l = expr_tokens(*b.left);
        assert(t.subrange(0, s.len() as int) =~= l.subrange(0, s.len() as int));
        if k < left_depth(e) {
            assert(spine(e, k + 1) == spine(*b.left, k as nat));
        }
    }
}

/// Where a binary node's top operator stands among its tokens.
proof fn lemma_top_split(e: AstExpr)
    requires
        e._type is Binary,
    ensures
        ({
            let t = expr_tokens(e);
            let x = e._type->Binary_0;
            let k = expr_tokens(*x.left).len() as int;
            &&& is_top_op(t, k)
            &&& t.subrange(0, k) == expr_tokens(*x.left)
            &&& t[k] == op_token_type(x.operator._type)
            &&& token_prec(t[k]) == op_precedence(x.operator._type) as int
            &&& t.subrange(k + 1, t.len() as int) == expr_tokens(*x.right)
        }),
{
    let t = expr_tokens(e);
    let x = e._type->Binary_0;
    let k = expr_tokens(*x.left).len() as int;
    lemma_balanced(*x.left);
    assert(t.subrange(0, k) =~= expr_tokens(*x.left));
    assert(t.subrange(k + 1, t.len() as int) =~= expr_tokens(*x.right));
}

/// Two well-shaped binary trees that spell the same tokens split them at
/// the same operator.
#[verifier::spinoff_prover]
proof fn lemma_same_split(a: AstExpr, b: AstExpr)
    requires
        well_shaped(a),
        well_shaped(b),
        expr_tokens(a) == expr_tokens(b),
        a._type is Binary,
        b._type is Binary,
    ensures
        expr_tokens(*a._type->Binary_0.left).len() == expr_tokens(*b._type->Binary_0.left).len(),
        a._type->Binary_0.operator._type == b._type->Binary_0.operator._type,
{
    let t = expr_tokens(a);
    let k1 = expr_tokens(*a._type->Binary_0.left).len() as int;
    let k2 = expr_tokens(*b._type->Binary_0.left).len() as int;
    lemma_top_split(a);
    lemma_top_split(b);
    lemma_top_ops(a);
    lemma_top_ops(b);
    assert(token_prec(t[k2]) >= top_precedence(a)->0);
    assert(token_prec(t[k1]) >= top_precedence(b)->0);
    if k1 < k2 {
        assert(token_prec(t[k2]) > top_precedence(a)->0);
    } else if k2 < k1 {
        assert(token_prec(t[k1]) > top_precedence(b)->0);
    }
}

/// A well-shaped tree is determined by the tokens it spells: two
/// well-shaped trees that spell the same tokens group the same way. Every
/// tree the parser returns is well-shaped and spells the tokens it read, so
/// re-parsing the tokens that a parsed tree spells can only give back a tree
/// of the same shape.
pub proof fn lemma_spelling_determines_shape(a: AstExpr, b: AstExpr)
    requires
        well_shaped(a),
        well_shaped(b),
        expr_tokens(a) == expr_tokens(b),
    ensures
        same_shape(a, b),
    decreases a,
{
    let t = expr_tokens(a);
    match (a._type, b._type) {
        (AstExprType::Binary(x), AstExprType::Binary(y)) => {
            lemma_same_split(a, b);
            lemma_top_split(a);
            lemma_top_split(b);
            lemma_spelling_determines_shape(*x.left, *y.left);
            lemma_spelling_determines_shape(*x.right, *y.right);
        },
        (AstExprType::Parenthesized(x), AstExprType::Parenthesized(y)) => {
            assert(expr_tokens(*x.expr) =~= t.subrange(1, t.len() - 1));
            assert(expr_tokens(*y.expr) =~= t.subrange(1, t.len() - 1));
            lemma_spelling_determines_shape(*x.expr, *y.expr);
        },
        (AstExprType::Binary(x), _) => {
            lemma_top_split(a);
            lemma_top_ops(b);
        },
        (_, AstExprType::Binary(y)) => {
            lemma_top_split(b);
            lemma_top_ops(a);
        },
        _ => {
            assert(t[0] == expr_tokens(b)[0]);
        },
    }
}

/// An expression's tokens start with a number or `(`, end with a number or
/// `)`, hold no end-of-input token, and after a number or `)` comes an
/// operator or `)`.
pub proof fn lemma_token_order(e: AstExpr)
    ensures
        ({
            let t = expr_tokens(e);
            &&& t.len() >= 1
            &&& t.last() is Dynamic64 || t.last() == TDType::RPAREN
            &&& forall|i: int| 0 <= i < t.len() ==> #[trigger] t[i] != TDType::EOF
            &&& forall|i: int|
                0 <= i < t.len() - 1 && (#[trigger] t[i] is Dynamic64 || t[i] == TDType::RPAREN) ==> (
                operator_of(t[i + 1]) is Some || t[i + 1] == TDType::RPAREN)
        }),
    decreases e,
{
    let t = expr_tokens(e);
    match e._type {
        AstExprType::Constant64(_) => {},
        AstExprType::Binary(b) => {
            let l = expr_tokens(*b.left);
            let r = expr_tokens(*b.right);
            lemma_token_order(*b.left);
            lemma_token_order(*b.right);
            assert forall|i: int| 0 <= i < t.len() implies #[trigger] t[i] != TDType::EOF by {
                if i < l.len() {
                    assert(t[i] == l[i]);
                } else if i > l.len() {
                    assert(t[i] == r[i - l.len() - 1]);
                }
            }
            assert forall|i: int|
                0 <= i < t.len() - 1 && (#[trigger] t[i] is Dynamic64 || t[i] == TDType::RPAREN) implies (
                operator_of(t[i + 1]) is Some || t[i + 1] == TDType::RPAREN) by {
                if i < l.len() - 1 {
                    assert(t[i] == l[i] && t[i + 1] == l[i + 1]);
                } else if i == l.len() - 1 {
                    assert(t[i] == l.last());
                } else if i > l.len() {
                    let k = i - l.len() - 1;
                    assert(t[i] == r[k] && t[i + 1] == r[k + 1]);
                }
            }
            assert(t.last() == r.last());
        },
        AstExprType::Parenthesized(g) => {
            let x = expr_tokens(*g.expr);
            lemma_token_order(*g.expr);
            assert forall|i: int| 0 <= i < t.len() implies #[trigger] t[i] != TDType::EOF by {
                if 1 <= i <= x.len() {
                    assert(t[i] == x[i - 1]);
                }
            }
            assert forall|i: int|
                0 <= i < t.len() - 1 && (#[trigger] t[i] is Dynamic64 || t[i] == TDType::RPAREN) implies (
                operator_of(t[i + 1]) is Some || t[i + 1] == TDType::RPAREN) by {
                if 1 <= i < x.len() {
                    assert(t[i] == x[i - 1] && t[i + 1] == x[i]);
                } else if i == x.len() {
                    assert(t[i] == x.last());
                } else {
                    assert(t[0] == TDType::LPAREN);
                }
            }
        },
    }
}

/// Parsing, printing and parsing again keeps the grouping. Spell a
/// well-shaped tree `e` as tokens and end them with end of input: `e` is
/// spelled at the start, so reading a statement there succeeds; and any
/// well-shaped tree `r` that spells the first `f` tokens with no operator
/// after it (which is what reading a statement returns) spells all of `e`'s
/// tokens and has the shape of `e`.
pub proof fn lemma_reparse_keeps_shape(e: AstExpr, r: AstExpr, f: int)
    requires
        well_shaped(e),
        well_shaped(r),
        0 <= f <= expr_tokens(e).len() + 1,
        expr_tokens(r) == (expr_tokens(e) + seq![TDType::EOF]).subrange(0, f),
        stops_at(expr_tokens(e) + seq![TDType::EOF], f, 0),
    ensures
        spelled_at(expr_tokens(e) + seq![TDType::EOF], 0, e, 0),
        f == expr_tokens(e).len(),
        same_shape(e, r),
{
    let te = expr_tokens(e);
    let types = te + seq![TDType::EOF];
    let m = te.len() as int;
    lemma_token_order(e);
    lemma_token_order(r);
    lemma_balanced(e);
    lemma_balanced(r);
    assert(types.subrange(0, m) =~= te);
    assert(f != m + 1) by {
        if f == m + 1 {
            assert(expr_tokens(r)[m] == TDType::EOF);
        }
    }
    assert(f >= m) by {
        if f < m {
            let tr = expr_tokens(r);
            assert(tr.last() == te[f - 1]);
            assert(te[f - 1] is Dynamic64 || te[f - 1] == TDType::RPAREN);
            assert(types[f] == te[f]);
            assert(te[f] == TDType::RPAREN);
            assert(te.subrange(0, f) =~= tr);
            assert(te.subrange(0, f + 1).drop_last() =~= te.subrange(0, f));
            assert(depth(te.subrange(0, f + 1)) >= 0);
        }
    }
    assert(expr_tokens(r) =~= te);
    lemma_spelling_determines_shape(e, r);
}

} // verus!
