use vstd::prelude::*;
use crate::ast::{expr_tokens, well_shaped, AstBinaryOperationType, AstExpr, AstExprType};
use crate::lexer::{
    digit_run_end, digit_value, digits_value, is_digit_char, is_whitespace_char, lex_step, TDType,
};
use crate::parser::{lex_from, prepend, spelled_at, stops_at};
use crate::printer::{digit_text, nat_text};
use crate::shape::{lemma_reparse_keeps_shape, same_shape};

verus! {

/// The character that writes an operator.
pub open spec fn op_char(t: AstBinaryOperationType) -> char {
    match t {
        AstBinaryOperationType::Add => '+',
        AstBinaryOperationType::Sub => '-',
        AstBinaryOperationType::Mul => '*',
        AstBinaryOperationType::Div => '/',
    }
}

/// Every number in the tree is non-negative, so the tree can be written as
/// source text.
pub open spec fn nonneg(e: AstExpr) -> bool
    decreases e,
{
    match e._type {
        AstExprType::Constant64(c) => c.number >= 0,
        AstExprType::Binary(b) => nonneg(*b.left) && nonneg(*b.right),
        AstExprType::Parenthesized(g) => nonneg(*g.expr),
    }
}

/// A tree written as source text: numbers in decimal, a space on each side
/// of an operator, and a group in parentheses.
pub open spec fn expr_text(e: AstExpr) -> Seq<char>
    decreases e,
{
    match e._type {
        AstExprType::Constant64(c) => nat_text(c.number as nat),
        AstExprType::Binary(b) => expr_text(*b.left) + seq![' ', op_char(b.operator._type), ' ']
            + expr_text(*b.right),
        AstExprType::Parenthesized(g) => seq!['('] + expr_text(*g.expr) + seq![')'],
    }
}

pub open spec fn types_of(xs: Seq<(TDType, int, int)>) -> Seq<TDType> {
    xs.map_values(|x: (TDType, int, int)| x.0)
}

/// The token types a lexing result holds, if it succeeded.
pub open spec fn lexed_types(r: Result<Seq<(TDType, int, int)>, crate::lexer::LexError>) -> Option<
    Seq<TDType>,
> {
    match r {
        Ok(xs) => Some(types_of(xs)),
        Err(_) => None,
    }
}

pub open spec fn after_types(pre: Seq<TDType>, r: Option<Seq<TDType>>) -> Option<Seq<TDType>> {
    match r {
        Some(x) => Some(pre + x),
        None => None,
    }
}

proof fn lemma_prepend_types(
    pre: Seq<(TDType, int, int)>,
    r: Result<Seq<(TDType, int, int)>, crate::lexer::LexError>,
)
    ensures
        lexed_types(prepend(pre, r)) == after_types(types_of(pre), lexed_types(r)),
{
    match r {
        Ok(rest) => {
            assert(types_of(pre + rest) =~= types_of(pre) + types_of(rest));
        },
        Err(_) => {},
    }
}

proof fn lemma_digit_text(d: nat)
    requires
        d < 10,
    ensures
        digit_text(d).len() == 1,
        is_digit_char(digit_text(d)[0]),
        digit_value(digit_text(d)[0]) == d,
{
    reveal_strlit("0");
    reveal_strlit("1");
    reveal_strlit("2");
    reveal_strlit("3");
    reveal_strlit("4");
    reveal_strlit("5");
    reveal_strlit("6");
    reveal_strlit("7");
    reveal_strlit("8");
    reveal_strlit("9");
}

proof fn lemma_nat_text(n: nat)
    ensures
        nat_text(n).len() >= 1,
        forall|i: int| 0 <= i < nat_text(n).len() ==> is_digit_char(#[trigger] nat_text(n)[i]),
        digits_value(nat_text(n)) == n,
    decreases n,
{
    if n < 10 {
        lemma_digit_text(n);
        assert(nat_text(n).drop_last() =~= Seq::<char>::empty());
        assert(digits_value(Seq::<char>::empty()) == 0);
        assert(nat_text(n).last() == nat_text(n)[0]);
    } else {
        let a = nat_text(n / 10);
        let b = digit_text(n % 10);
        lemma_nat_text(n / 10);
        lemma_digit_text(n % 10);
        let t = nat_text(n);
        assert(t == a + b);
        assert(t.drop_last() =~= a);
        assert(t.last() == b[0]);
        assert forall|i: int| 0 <= i < t.len() implies is_digit_char(#[trigger] t[i]) by {
            if i < a.len() {
                assert(t[i] == a[i]);
            }
        }
        assert(digits_value(t) == digits_value(a) * 10 + digit_value(b[0]));
        assert(n == (n / 10) * 10 + n % 10);
    }
}

proof fn lemma_run_end(s: Seq<char>, p: int, k: int)
    requires
        0 <= p <= k <= s.len(),
        forall|i: int| p <= i < k ==> is_digit_char(#[trigger] s[i]),
        k < s.len() ==> !is_digit_char(s[k]),
    ensures
        digit_run_end(s, p) == k,
    decreases k - p,
{
    if p < k {
        lemma_run_end(s, p + 1, k);
    }
}

/// A single character that is an operator, a parenthesis or a space lexes
/// on its own.
proof fn lemma_lex_one(s: Seq<char>, p: int, pre: Seq<TDType>)
    requires
        0 <= p < s.len(),
        !is_digit_char(s[p]),
        s[p] == ' ' ==> pre == Seq::<TDType>::empty(),
        s[p] == '+' ==> pre == seq![TDType::PLUS],
        s[p] == '-' ==> pre == seq![TDType::MINUS],
        s[p] == '*' ==> pre == seq![TDType::ASTERISK],
        s[p] == '/' ==> pre == seq![TDType::SLASH],
        s[p] == '(' ==> pre == seq![TDType::LPAREN],
        s[p] == ')' ==> pre == seq![TDType::RPAREN],
        s[p] == ' ' || s[p] == '+' || s[p] == '-' || s[p] == '*' || s[p] == '/' || s[p] == '('
            || s[p] == ')',
    ensures
        lexed_types(lex_from(s, p)) == after_types(pre, lexed_types(lex_from(s, p + 1))),
{
    let (step, q) = lex_step(s, p);
    let x = step->Some_0->Ok_0;
    if x.0 == TDType::WS {
        lemma_prepend_types(Seq::empty(), lex_from(s, p + 1));
        assert(types_of(Seq::<(TDType, int, int)>::empty()) =~= Seq::<TDType>::empty());
    } else {
        lemma_prepend_types(seq![x], lex_from(s, p + 1));
        assert(types_of(seq![x]) =~= seq![x.0]);
    }
}

/// The text of a tree lexes to exactly the tree's tokens, when no digit
/// follows it.
#[verifier::rlimit(100)]
#[verifier::spinoff_prover]
proof fn lemma_lex_text(s: Seq<char>, p: int, e: AstExpr)
    requires
        nonneg(e),
        0 <= p,
        p + expr_text(e).len() <= s.len(),
        s.subrange(p, p + expr_text(e).len()) == expr_text(e),
        p + expr_text(e).len() < s.len() ==> !is_digit_char(s[p + expr_text(e).len()]),
    ensures
        lexed_types(lex_from(s, p)) == after_types(
            expr_tokens(e),
            lexed_types(lex_from(s, p + expr_text(e).len())),
        ),
    decreases e,
{
    let t = expr_text(e);
    let k = p + t.len();
    assert forall|i: int| 0 <= i < t.len() implies s[p + i] == #[trigger] t[i] by {
        assert(s.subrange(p, k)[i] == s[p + i]);
    }
    match e._type {
        AstExprType::Constant64(c) => {
            let n = c.number as nat;
            lemma_nat_text(n);
            assert forall|i: int| p <= i < k implies is_digit_char(#[trigger] s[i]) by {
                assert(s[p + (i - p)] == t[i - p]);
            }
            lemma_run_end(s, p, k);
            assert(s.subrange(p, k) =~= t);
            assert(is_digit_char(s[p]) && s[p] == t[0]);
            let x = (TDType::Dynamic64(c.number), p, k);
            assert(lex_step(s, p) == (
                Some(Ok::<(TDType, int, int), crate::lexer::LexError>(x)),
                k,
            ));
            lemma_prepend_types(seq![x], lex_from(s, k));
            assert(types_of(seq![x]) =~= seq![x.0]);
        },
        AstExprType::Binary(b) => {
            let tl = expr_text(*b.left);
            let tr = expr_text(*b.right);
            let o = b.operator._type;
            let mid = p + tl.len();
            assert(s.subrange(p, mid) =~= tl);
            assert(s[mid] == ' ' && s[mid + 1] == op_char(o) && s[mid + 2] == ' ') by {
                assert(s[p + tl.len()] == t[tl.len() as int]);
                assert(s[p + tl.len() + 1] == t[tl.len() + 1int]);
                assert(s[p + tl.len() + 2] == t[tl.len() + 2int]);
            }
            assert forall|i: int| 0 <= i < tr.len() implies s.subrange(mid + 3, k)[i] == #[trigger] tr[i] by {
                assert(t[tl.len() + 3 + i] == tr[i]);
                assert(s[p + (tl.len() + 3 + i)] == t[tl.len() + 3 + i]);
            }
            assert(s.subrange(mid + 3, k) =~= tr);
            lemma_lex_text(s, p, *b.left);
            lemma_lex_one(s, mid, Seq::empty());
            lemma_lex_one(s, mid + 1, seq![crate::ast::op_token_type(o)]);
            lemma_lex_one(s, mid + 2, Seq::empty());
            lemma_lex_text(s, mid + 3, *b.right);
            match lexed_types(lex_from(s, k)) {
                Some(rest) => {
                    assert(expr_tokens(e) + rest =~= expr_tokens(*b.left) + (Seq::<TDType>::empty()
                        + (seq![crate::ast::op_token_type(o)] + (Seq::<TDType>::empty() + (
                    expr_tokens(*b.right) + rest)))));
                },
                None => {},
            }
        },
        AstExprType::Parenthesized(g) => {
            let tx = expr_text(*g.expr);
            assert(s[p] == t[0]);
            assert forall|i: int| 0 <= i < tx.len() implies s.subrange(p + 1, p + 1 + tx.len())[i]
                == #[trigger] tx[i] by {
                assert(t[1 + i] == tx[i]);
                assert(s[p + (1 + i)] == t[1 + i]);
            }
            assert(s.subrange(p + 1, p + 1 + tx.len()) =~= tx);
            assert(s[p + 1 + tx.len()] == t[tx.len() + 1int]);
            lemma_lex_one(s, p, seq![TDType::LPAREN]);
            lemma_lex_text(s, p + 1, *g.expr);
            lemma_lex_one(s, p + 1 + tx.len(), seq![TDType::RPAREN]);
            match lexed_types(lex_from(s, k)) {
                Some(rest) => {
                    assert(expr_tokens(e) + rest =~= seq![TDType::LPAREN] + (expr_tokens(*g.expr)
                        + (seq![TDType::RPAREN] + rest)));
                },
                None => {},
            }
        },
    }
}

/// Writing a tree with non-negative numbers as source text and lexing that
/// text gives back exactly the tree's tokens, then end of input.
pub proof fn lemma_text_lexes_to_tokens(e: AstExpr)
    requires
        nonneg(e),
    ensures
        lexed_types(lex_from(expr_text(e), 0)) == Some(expr_tokens(e) + seq![TDType::EOF]),
{
    let s = expr_text(e);
    assert(s.subrange(0, s.len() as int) =~= s);
    lemma_lex_text(s, 0, e);
    let x = (TDType::EOF, s.len() as int, s.len() as int);
    assert(lex_from(s, s.len() + 1int) == Ok::<Seq<(TDType, int, int)>, crate::lexer::LexError>(
        Seq::empty(),
    ));
    lemma_prepend_types(seq![x], lex_from(s, s.len() + 1int));
    assert(types_of(seq![x]) =~= seq![TDType::EOF]);
    assert(seq![TDType::EOF] + Seq::<TDType>::empty() =~= seq![TDType::EOF]);
}

/// Parsing, printing as text and parsing again keeps the grouping. Write a
/// well-shaped tree `e` with non-negative numbers as source text: lexing the
/// text gives `e`'s tokens and then end of input, and `e` is spelled at their
/// start, so reading a statement from them succeeds. Any well-shaped tree `r`
/// that spells the first `f` of those tokens with no operator after it
/// (which is what reading a statement returns) spells all of `e`'s tokens,
/// so the next read finds end of input, and `r` has the shape of `e`.
pub proof fn lemma_text_round_trip(e: AstExpr, r: AstExpr, f: int)
    requires
        well_shaped(e),
        nonneg(e),
        well_shaped(r),
        0 <= f <= expr_tokens(e).len() + 1,
        expr_tokens(r) == (expr_tokens(e) + seq![TDType::EOF]).subrange(0, f),
        stops_at(expr_tokens(e) + seq![TDType::EOF], f, 0),
    ensures
        lexed_types(lex_from(expr_text(e), 0)) == Some(expr_tokens(e) + seq![TDType::EOF]),
        spelled_at(expr_tokens(e) + seq![TDType::EOF], 0, e, 0),
        f == expr_tokens(e).len(),
        (expr_tokens(e) + seq![TDType::EOF])[f] == TDType::EOF,
        same_shape(e, r),
{
    lemma_text_lexes_to_tokens(e);
    lemma_reparse_keeps_shape(e, r, f);
}

} // verus!
