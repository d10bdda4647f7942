use vstd::prelude::*;
use crate::ast::{
    expr_tokens, op_precedence, stmt_expr, top_precedence, well_shaped, AstBinaryOperationType,
    AstBinaryOperator, AstExpr, AstStmt,
};
use crate::lexer::{lex_step, token_text, AsciiSpan, LexError, TDLexer, TDToken, TDType};
use crate::shape::{depth, left_depth, lemma_balanced, lemma_spine, lemma_token_order, spine};

verus! {

/// Why a statement could not be read.
#[derive(Debug, PartialEq, Eq, Clone, Copy, Structural)]
pub enum ParseError {
    /// An operand (a number or `(`) was needed; the token at `index` stood there.
    ExpectedOperand { index: usize },
    /// A group was opened; the token at `index` does not close it.
    ExpectedRightParen { index: usize },
    /// The tokens ran out.
    UnexpectedEnd,
}

pub open spec fn token_types(ts: Seq<TDToken>) -> Seq<TDType> {
    ts.map_values(|t: TDToken| t._type)
}

/// The tokens of `s` from offset `p` on, each as its type, start and end,
/// whitespace left out; or the first lexical error.
pub open spec fn lex_from(s: Seq<char>, p: int) -> Result<Seq<(TDType, int, int)>, LexError>
    decreases s.len() + 1 - p,
{
    let (step, q) = lex_step(s, p);
    match step {
        None => Ok(Seq::empty()),
        Some(Err(e)) => Err(e),
        Some(Ok(x)) => if q <= p || p > s.len() || q > s.len() + 1 {
            Ok(Seq::empty())
        } else {
            prepend(if x.0 == TDType::WS { Seq::empty() } else { seq![x] }, lex_from(s, q))
        },
    }
}

pub open spec fn prepend(
    pre: Seq<(TDType, int, int)>,
    r: Result<Seq<(TDType, int, int)>, LexError>,
) -> Result<Seq<(TDType, int, int)>, LexError> {
    match r {
        Ok(rest) => Ok(pre + rest),
        Err(e) => Err(e),
    }
}

/// A lexed stream holds no whitespace, and ends with its one end-of-input
/// token.
pub proof fn lemma_lex_from_ends(s: Seq<char>, p: int)
    requires
        0 <= p <= s.len(),
    ensures
        match lex_from(s, p) {
            Ok(xs) => xs.len() >= 1 && xs.last().0 == TDType::EOF && (forall|i: int|
                0 <= i < xs.len() ==> (#[trigger] xs[i]).0 != TDType::WS) && (forall|i: int|
                0 <= i < xs.len() - 1 ==> (#[trigger] xs[i]).0 != TDType::EOF),
            Err(_) => true,
        },
    decreases s.len() + 1 - p,
{
    let (step, q) = lex_step(s, p);
    if p == s.len() {
        assert(lex_from(s, q) == Ok::<Seq<(TDType, int, int)>, LexError>(Seq::empty()));
        assert(seq![step->Some_0->Ok_0] + Seq::<(TDType, int, int)>::empty() =~= seq![
            step->Some_0->Ok_0,
        ]);
    } else {
        crate::lexer::lemma_digit_run(s, p + 1);
        if step is Some && step->Some_0 is Ok {
            let x = step->Some_0->Ok_0;
            assert(q <= s.len());
            lemma_lex_from_ends(s, q);
            match lex_from(s, q) {
                Ok(rest) => {
                    if x.0 != TDType::WS {
                        let xs = seq![x] + rest;
                        assert forall|i: int| 0 <= i < xs.len() implies (#[trigger] xs[i]).0
                            != TDType::WS by {
                            if i > 0 {
                                assert(xs[i] == rest[i - 1]);
                            }
                        }
                        assert forall|i: int| 0 <= i < xs.len() - 1 implies (#[trigger] xs[i]).0
                            != TDType::EOF by {
                            if i > 0 {
                                assert(xs[i] == rest[i - 1]);
                            }
                        }
                        assert(xs.last() == rest.last());
                    } else {
                        assert(Seq::<(TDType, int, int)>::empty() + rest =~= rest);
                    }
                },
                Err(_) => {},
            }
        }
    }
}

/// Token `t` is the token of `s` described by `x`: its type, its span, and
/// the text it carries.
pub open spec fn token_is(s: Seq<char>, t: TDToken, x: (TDType, int, int)) -> bool {
    &&& t._type == x.0
    &&& t.lexeme.start == x.1
    &&& t.lexeme.end == x.2
    &&& t.lexeme.literal@ == token_text(s, x.0, x.1, x.2)
}

/// `ts` holds exactly the tokens `xs` describe, in order.
pub open spec fn tokens_are(s: Seq<char>, ts: Seq<TDToken>, xs: Seq<(TDType, int, int)>) -> bool {
    ts.len() == xs.len() && forall|i: int| 0 <= i < ts.len() ==> token_is(s, #[trigger] ts[i], xs[i])
}

/// The operator a token type spells, if any.
pub open spec fn operator_of(ty: TDType) -> Option<AstBinaryOperationType> {
    match ty {
        TDType::PLUS => Some(AstBinaryOperationType::Add),
        TDType::MINUS => Some(AstBinaryOperationType::Sub),
        TDType::ASTERISK => Some(AstBinaryOperationType::Mul),
        TDType::SLASH => Some(AstBinaryOperationType::Div),
        _ => None,
    }
}

/// The operator at index `i` of `types`, if one stands there.
pub open spec fn op_at(types: Seq<TDType>, i: int) -> Option<AstBinaryOperationType> {
    if 0 <= i < types.len() {
        operator_of(types[i])
    } else {
        None
    }
}

/// An operator that binds no tighter than `min` (or none at all) stands at `i`.
pub open spec fn stops_at(types: Seq<TDType>, i: int, min: u8) -> bool {
    match op_at(types, i) {
        Some(t) => op_precedence(t) <= min,
        None => true,
    }
}

/// A number or a group whose tokens stand in `types` from `c` on.
pub open spec fn operand_at(types: Seq<TDType>, c: int, e: AstExpr) -> bool {
    let m = expr_tokens(e).len() as int;
    &&& well_shaped(e)
    &&& top_precedence(e) is None
    &&& 0 <= c && c + m <= types.len()
    &&& types.subrange(c, c + m) == expr_tokens(e)
}

/// A well-shaped expression whose operators all bind tighter than `min`
/// stands in `types` from `c` on, and no operator tighter than `min`
/// follows it.
pub open spec fn spelled_at(types: Seq<TDType>, c: int, e: AstExpr, min: u8) -> bool {
    let m = expr_tokens(e).len() as int;
    &&& well_shaped(e)
    &&& match top_precedence(e) {
        Some(q) => q > min,
        None => true,
    }
    &&& 0 <= c && c + m <= types.len()
    &&& types.subrange(c, c + m) == expr_tokens(e)
    &&& stops_at(types, c + m, min)
}

/// What reading one statement at index `c` of `types` gives, with the
/// cursor at `after` afterwards. At the end of input: nothing, and the
/// cursor stays. Otherwise the cursor moves forward, and the statement is
/// read exactly when a well-shaped expression is spelled at `c`: then it is
/// a well-shaped tree that spells the tokens read, and no operator follows.
/// A token that cannot start an operand is reported where it stands.
pub open spec fn reads_statement(
    types: Seq<TDType>,
    c: int,
    r: Option<Result<AstStmt, ParseError>>,
    after: int,
) -> bool {
    if c >= types.len() || types[c] == TDType::EOF {
        r is None && after == c
    } else {
        &&& c < after <= types.len()
        &&& match r {
            Some(Ok(stmt)) => well_shaped(stmt_expr(stmt)) && expr_tokens(stmt_expr(stmt))
                == types.subrange(c, after) && stops_at(types, after, 0),
            Some(Err(_)) => true,
            None => false,
        }
        &&& (exists|e: AstExpr| spelled_at(types, c, e, 0)) <==> (r matches Some(Ok(_)))
        &&& !(types[c] is Dynamic64) && types[c] != TDType::LPAREN ==> r == Some(
            Err::<AstStmt, ParseError>(ParseError::ExpectedOperand { index: c as usize }),
        ) && after == c + 1
        &&& forall|x: AstExpr|
            #[trigger] group_unclosed(types, c, x) ==> r == Some(
                Err::<AstStmt, ParseError>(group_error(types, c, x)),
            ) && after == c + 1 + expr_tokens(x).len()
    }
}

/// A group opens at `c` and an expression is spelled inside it, but no `)`
/// follows that expression.
pub open spec fn group_unclosed(types: Seq<TDType>, c: int, x: AstExpr) -> bool {
    let k = c + 1 + expr_tokens(x).len();
    &&& 0 <= c < types.len()
    &&& types[c] == TDType::LPAREN
    &&& spelled_at(types, c + 1, x, 0)
    &&& !(k < types.len() && types[k] == TDType::RPAREN)
}

/// The error for such a group: the token that stands where `)` belongs, or
/// the end of the tokens.
pub open spec fn group_error(types: Seq<TDType>, c: int, x: AstExpr) -> ParseError {
    let k = c + 1 + expr_tokens(x).len();
    if k < types.len() {
        ParseError::ExpectedRightParen { index: k as usize }
    } else {
        ParseError::UnexpectedEnd
    }
}

proof fn lemma_spelled_not_shorter(types: Seq<TDType>, c: int, x: AstExpr, y: AstExpr)
    requires
        spelled_at(types, c, x, 0),
        spelled_at(types, c, y, 0),
    ensures
        expr_tokens(x).len() >= expr_tokens(y).len(),
{
    let tx = expr_tokens(x);
    let ty = expr_tokens(y);
    let m = tx.len() as int;
    if m < ty.len() {
        lemma_token_order(x);
        lemma_token_order(y);
        lemma_balanced(x);
        lemma_balanced(y);
        assert(ty.subrange(0, m) =~= tx) by {
            assert(types.subrange(c, c + m) =~= types.subrange(c, c + ty.len()).subrange(0, m));
        }
        assert(tx.last() == ty[m - 1]);
        assert(ty[m - 1] is Dynamic64 || ty[m - 1] == TDType::RPAREN);
        assert(types[c + m] == ty[m]) by {
            assert(types.subrange(c, c + ty.len())[m] == types[c + m]);
        }
        assert(ty[m] == TDType::RPAREN);
        assert(ty.subrange(0, m + 1).drop_last() =~= ty.subrange(0, m));
        assert(depth(ty.subrange(0, m + 1)) >= 0);
    }
}

/// Two expressions spelled at the same place, with no tighter operator
/// after either, spell the same number of tokens.
pub proof fn lemma_spelled_same_length(types: Seq<TDType>, c: int, x: AstExpr, y: AstExpr)
    requires
        spelled_at(types, c, x, 0),
        spelled_at(types, c, y, 0),
    ensures
        expr_tokens(x).len() == expr_tokens(y).len(),
{
    lemma_spelled_not_shorter(types, c, x, y);
    lemma_spelled_not_shorter(types, c, y, x);
}

proof fn lemma_first_operand(types: Seq<TDType>, c: int, e: AstExpr, min: u8)
    requires
        spelled_at(types, c, e, min),
    ensures
        operand_at(types, c, spine(e, left_depth(e))),
{
    let s = expr_tokens(spine(e, left_depth(e)));
    let m = expr_tokens(e).len() as int;
    lemma_spine(e, left_depth(e));
    assert(types.subrange(c, c + s.len()) =~= types.subrange(c, c + m).subrange(0, s.len() as int));
}

/// One round of precedence climbing, seen from the tree it reads: below
/// the node `d - 1` steps down the left edge, its operator stands right
/// after its left operand, binds tighter than `min`, and its right operand
/// is spelled next at that operator's precedence.
proof fn lemma_climb_step(types: Seq<TDType>, c: int, e: AstExpr, min: u8, d: nat)
    requires
        spelled_at(types, c, e, min),
        0 < d <= left_depth(e),
    ensures
        ({
            let p = spine(e, (d - 1) as nat);
            let b = p._type->Binary_0;
            let cur = c + expr_tokens(spine(e, d)).len();
            &&& p._type is Binary
            &&& op_at(types, cur) == Some(b.operator._type)
            &&& op_precedence(b.operator._type) > min
            &&& spelled_at(types, cur + 1, *b.right, op_precedence(b.operator._type))
            &&& cur + 1 + expr_tokens(*b.right).len() == c + expr_tokens(p).len()
        }),
{
    let te = expr_tokens(e);
    let m = te.len() as int;
    let p = spine(e, (d - 1) as nat);
    lemma_spine(e, (d - 1) as nat);
    lemma_spine(e, d);
    let b = p._type->Binary_0;
    let tp = expr_tokens(p);
    let tl = expr_tokens(*b.left);
    let ta = expr_tokens(*b.right);
    let o = b.operator._type;
    let cur = c + tl.len();
    assert(types.subrange(c, c + tp.len()) =~= te.subrange(0, tp.len() as int));
    assert(types[cur] == tp[tl.len() as int]);
    assert(types.subrange(cur + 1, cur + 1 + ta.len()) =~= tp.subrange(
        tl.len() + 1int,
        tp.len() as int,
    ));
    assert(tp.subrange(tl.len() + 1int, tp.len() as int) =~= ta);
    if d >= 2 {
        let g = spine(e, (d - 2) as nat);
        lemma_spine(e, (d - 2) as nat);
        let tg = expr_tokens(g);
        assert(types.subrange(c, c + tg.len()) =~= te.subrange(0, tg.len() as int));
        assert(types[c + tp.len()] == tg[tp.len() as int]);
    }
}

/// Reads statements from a token sequence with whitespace removed.
pub struct TDParser {
    pub tokens: Vec<TDToken>,
    pub current: usize,
}

impl TDParser {
    pub fn new() -> (r: Self)
        ensures
            r.tokens@.len() == 0,
            r.current == 0,
    {
        Self { tokens: Vec::new(), current: 0 }
    }

    /// Lexes `buffer` to its end, dropping whitespace; fails with the first
    /// lexical error.
    pub fn from_source(buffer: &str) -> (r: Result<Self, LexError>)
        requires
            buffer@.len() < usize::MAX,
        ensures
            match r {
                Ok(p) => p.current == 0 && match lex_from(buffer@, 0) {
                    Ok(xs) => tokens_are(buffer@, p.tokens@, xs),
                    Err(_) => false,
                } && p.tokens@.len() >= 1 && p.tokens@.last()._type == TDType::EOF && (forall|
                    i: int,
                | 0 <= i < p.tokens@.len() ==> (#[trigger] p.tokens@[i])._type != TDType::WS) && (
                forall|i: int|
                    0 <= i < p.tokens@.len() - 1 ==> (#[trigger] p.tokens@[i])._type
                        != TDType::EOF),
                Err(e) => lex_from(buffer@, 0) == Err::<Seq<(TDType, int, int)>, LexError>(e),
            },
    {
        let ghost s = buffer@;
        let mut lexer = TDLexer::new(buffer);
        let mut tokens: Vec<TDToken> = Vec::new();
        let ghost mut pre: Seq<(TDType, int, int)> = Seq::empty();
        proof {
            match lex_from(s, 0) {
                Ok(rest) => {
                    assert(pre + rest =~= rest);
                },
                Err(_) => {},
            }
        }
        loop
            invariant
                lexer.source@ == s,
                s == buffer@,
                s.len() < usize::MAX,
                lexer.current_pos <= s.len() + 1,
                tokens_are(s, tokens@, pre),
                lex_from(s, 0) == prepend(pre, lex_from(s, lexer.current_pos as int)),
            ensures
                tokens_are(s, tokens@, pre),
                lex_from(s, 0) == Ok::<Seq<(TDType, int, int)>, LexError>(pre),
            decreases s.len() + 1 - lexer.current_pos,
        {
            let ghost p = lexer.current_pos as int;
            let ghost x = lex_step(s, p).0->Some_0->Ok_0;
            match lexer.next_token() {
                None => {
                    proof {
                        assert(pre + Seq::<(TDType, int, int)>::empty() =~= pre);
                    }
                    break;
                },
                Some(Err(e)) => {
                    proof {
                        assert(lex_from(s, p) == Err::<Seq<(TDType, int, int)>, LexError>(e));
                    }
                    return Err(e);
                },
                Some(Ok(token)) => {
                    let q = lexer.current_pos;
                    proof {
                        if p < s.len() {
                            crate::lexer::lemma_digit_run(s, p + 1);
                        }
                        assert(p < q <= s.len() + 1);
                        assert(token_is(s, token, x));
                    }
                    if token._type != TDType::WS {
                        tokens.push(token);
                        proof {
                            let old_pre = pre;
                            pre = pre.push(x);
                            assert(tokens_are(s, tokens@, pre)) by {
                                assert forall|i: int| 0 <= i < tokens@.len() implies token_is(
                                    s,
                                    #[trigger] tokens@[i],
                                    pre[i],
                                ) by {
                                    if i < old_pre.len() {
                                        assert(pre[i] == old_pre[i]);
                                    }
                                }
                            }
                            match lex_from(s, q as int) {
                                Ok(rest) => {
                                    assert(old_pre + (seq![x] + rest) =~= pre + rest);
                                },
                                Err(_) => {},
                            }
                        }
                    } else {
                        proof {
                            match lex_from(s, q as int) {
                                Ok(rest) => {
                                    assert(pre + (Seq::<(TDType, int, int)>::empty() + rest) =~= pre
                                        + rest);
                                },
                                Err(_) => {},
                            }
                        }
                    }
                },
            }
        }
        proof {
            lemma_lex_from_ends(s, 0);
            assert(tokens@.last() == tokens@[tokens@.len() - 1]);
        }
        Ok(Self { tokens, current: 0 })
    }

    /// The next statement; `None` once the end-of-input token (or the end of
    /// the tokens) is reached. A statement that fails still moves the cursor
    /// forward.
    pub fn next_statement(&mut self) -> (r: Option<Result<AstStmt, ParseError>>)
        ensures
            final(self).tokens == old(self).tokens,
            reads_statement(
                token_types(old(self).tokens@),
                old(self).current as int,
                r,
                final(self).current as int,
            ),
    {
        self.parse_statement()
    }

    fn parse_statement(&mut self) -> (r: Option<Result<AstStmt, ParseError>>)
        ensures
            final(self).tokens == old(self).tokens,
            reads_statement(
                token_types(old(self).tokens@),
                old(self).current as int,
                r,
                final(self).current as int,
            ),
    {
        if self.current >= self.tokens.len() {
            return None;
        }
        if self.tokens[self.current]._type == TDType::EOF {
            return None;
        }
        let ghost types = token_types(self.tokens@);
        let ghost c = self.current as int;
        let ghost target = if exists|e: AstExpr| spelled_at(types, c, e, 0) {
            Some(choose|e: AstExpr| spelled_at(types, c, e, 0))
        } else {
            None
        };
        match self.parse_expression(Ghost(target)) {
            Ok(e) => {
                proof {
                    assert(spelled_at(types, c, e, 0));
                }
                Some(Ok(AstStmt::expr(e)))
            },
            Err(x) => Some(Err(x)),
        }
    }

    fn parse_expression(&mut self, Ghost(target): Ghost<Option<AstExpr>>) -> (r: Result<AstExpr, ParseError>)
        requires
            old(self).current <= old(self).tokens@.len(),
        ensures
            final(self).tokens == old(self).tokens,
            final(self).current <= final(self).tokens@.len(),
            old(self).current <= final(self).current,
            old(self).current < old(self).tokens@.len() ==> old(self).current < final(self).current,
            r is Ok ==> old(self).current < final(self).current,
            match r {
                Ok(e) => well_shaped(e) && expr_tokens(e) == token_types(old(self).tokens@).subrange(
                    old(self).current as int,
                    final(self).current as int,
                ) && stops_at(token_types(old(self).tokens@), final(self).current as int, 0),
                Err(_) => true,
            },
            match target {
                Some(e) => spelled_at(token_types(old(self).tokens@), old(self).current as int, e, 0)
                    ==> r is Ok && final(self).current == old(self).current + expr_tokens(e).len(),
                None => true,
            },
            ({
                let types = token_types(old(self).tokens@);
                let c = old(self).current as int;
                &&& c < types.len() && !(types[c] is Dynamic64) && types[c] != TDType::LPAREN ==> r
                    == Err::<AstExpr, ParseError>(ParseError::ExpectedOperand { index: c as usize })
                    && final(self).current == c + 1
                &&& forall|x: AstExpr|
                    #[trigger] group_unclosed(types, c, x) ==> r == Err::<AstExpr, ParseError>(
                        group_error(types, c, x),
                    ) && final(self).current == c + 1 + expr_tokens(x).len()
            }),
        decreases old(self).tokens@.len() - old(self).current, 2int,
    {
        self.parse_binary_op(0, Ghost(target))
    }

    /// Precedence climbing: reads an operand, then folds in every operator
    /// that binds tighter than `min_prec`, each with its right operand read
    /// at the operator's own precedence.
    fn parse_binary_op(&mut self, min_prec: u8, Ghost(target): Ghost<Option<AstExpr>>) -> (r: Result<
        AstExpr,
        ParseError,
    >)
        requires
            old(self).current <= old(self).tokens@.len(),
        ensures
            final(self).tokens == old(self).tokens,
            final(self).current <= final(self).tokens@.len(),
            old(self).current <= final(self).current,
            old(self).current < old(self).tokens@.len() ==> old(self).current < final(self).current,
            r is Ok ==> old(self).current < final(self).current,
            match r {
                Ok(e) => well_shaped(e) && expr_tokens(e) == token_types(old(self).tokens@).subrange(
                    old(self).current as int,
                    final(self).current as int,
                ) && stops_at(token_types(old(self).tokens@), final(self).current as int, min_prec)
                    && match top_precedence(e) {
                    Some(q) => q > min_prec,
                    None => true,
                },
                Err(_) => true,
            },
            match target {
                Some(e) => spelled_at(token_types(old(self).tokens@), old(self).current as int, e, min_prec)
                    ==> r is Ok && final(self).current == old(self).current + expr_tokens(e).len(),
                None => true,
            },
            ({
                let types = token_types(old(self).tokens@);
                let c = old(self).current as int;
                &&& c < types.len() && !(types[c] is Dynamic64) && types[c] != TDType::LPAREN ==> r
                    == Err::<AstExpr, ParseError>(ParseError::ExpectedOperand { index: c as usize })
                    && final(self).current == c + 1
                &&& forall|x: AstExpr|
                    #[trigger] group_unclosed(types, c, x) ==> r == Err::<AstExpr, ParseError>(
                        group_error(types, c, x),
                    ) && final(self).current == c + 1 + expr_tokens(x).len()
            }),
        decreases old(self).tokens@.len() - old(self).current, 1int,
    {
        let ghost types = token_types(self.tokens@);
        let start = self.current;
        let n = self.tokens.len();
        let ghost w = target is Some && spelled_at(types, start as int, target->0, min_prec);
        let ghost e = target->0;
        let ghost mut d: nat = left_depth(e);
        proof {
            if w {
                lemma_first_operand(types, start as int, e, min_prec);
            }
        }
        let mut left = match self.parse_primary(
            Ghost(if w { Some(spine(e, d)) } else { None }),
        ) {
            Ok(e) => e,
            Err(x) => return Err(x),
        };
        loop
            invariant
                self.tokens == old(self).tokens,
                types == token_types(self.tokens@),
                start == old(self).current,
                n == self.tokens@.len(),
                start < self.current <= self.tokens@.len(),
                well_shaped(left),
                expr_tokens(left) == types.subrange(start as int, self.current as int),
                match top_precedence(left) {
                    Some(q) => q > min_prec && stops_at(types, self.current as int, q),
                    None => true,
                },
                types[start as int] is Dynamic64 || types[start as int] == TDType::LPAREN,
                forall|x: AstExpr| !(#[trigger] group_unclosed(types, start as int, x)),
                e == target->0,
                w == (target is Some && spelled_at(types, start as int, e, min_prec)),
                w ==> spelled_at(types, start as int, e, min_prec) && d <= left_depth(e)
                    && self.current == start + expr_tokens(spine(e, d)).len(),
            ensures
                self.tokens == old(self).tokens,
                start < self.current <= self.tokens@.len(),
                well_shaped(left),
                expr_tokens(left) == types.subrange(start as int, self.current as int),
                stops_at(types, self.current as int, min_prec),
                match top_precedence(left) {
                    Some(q) => q > min_prec,
                    None => true,
                },
                w ==> self.current == start + expr_tokens(e).len(),
            decreases self.tokens@.len() - self.current,
        {
            proof {
                if w && d > 0 {
                    lemma_climb_step(types, start as int, e, min_prec, d);
                }
            }
            let operator = match self.parse_operator() {
                Some(op) => op,
                None => break,
            };
            let prec = operator.precedence();
            if prec <= min_prec {
                break;
            }
            let c = self.current;
            proof {
                assert(op_at(types, c as int) is Some);
                assert(types.len() == self.tokens@.len());
            }
            self.current = c + 1;
            let ghost sub = if w {
                Some(*spine(e, (d - 1) as nat)._type->Binary_0.right)
            } else {
                None
            };
            proof {
                if w {
                    assert(spine(e, 0) == e);
                    assert(d > 0);
                    assert(spelled_at(types, c + 1, sub->0, prec));
                }
            }
            let right = match self.parse_binary_op(prec, Ghost(sub)) {
                Ok(r) => r,
                Err(x) => return Err(x),
            };
            proof {
                assert(types.subrange(start as int, self.current as int) =~= types.subrange(
                    start as int,
                    c as int,
                ) + seq![types[c as int]] + types.subrange(c + 1, self.current as int));
            }
            left = AstExpr::binary(operator, left, right);
            proof {
                if w {
                    d = (d - 1) as nat;
                }
            }
        }
        Ok(left)
    }

    /// The operator at the cursor, carrying a copy of its token; the cursor
    /// stays.
    fn parse_operator(&self) -> (r: Option<AstBinaryOperator>)
        ensures
            match op_at(token_types(self.tokens@), self.current as int) {
                Some(t) => r is Some && r->0._type == t && r->0.token == self.tokens@[self.current as int],
                None => r is None,
            },
    {
        if self.current >= self.tokens.len() {
            return None;
        }
        let token = &self.tokens[self.current];
        let type_ = match token._type {
            TDType::PLUS => AstBinaryOperationType::Add,
            TDType::MINUS => AstBinaryOperationType::Sub,
            TDType::ASTERISK => AstBinaryOperationType::Mul,
            TDType::SLASH => AstBinaryOperationType::Div,
            _ => return None,
        };
        let copy = TDToken::new(
            token._type,
            AsciiSpan::new(token.lexeme.start, token.lexeme.end, token.lexeme.literal.clone()),
        );
        Some(AstBinaryOperator { _type: type_, token: copy })
    }

    /// A number, or a group: `(`, an expression, `)`.
    fn parse_primary(&mut self, Ghost(target): Ghost<Option<AstExpr>>) -> (r: Result<AstExpr, ParseError>)
        requires
            old(self).current <= old(self).tokens@.len(),
        ensures
            final(self).tokens == old(self).tokens,
            final(self).current <= final(self).tokens@.len(),
            old(self).current <= final(self).current,
            old(self).current < old(self).tokens@.len() ==> old(self).current < final(self).current,
            r is Ok ==> old(self).current < final(self).current,
            match r {
                Ok(e) => well_shaped(e) && top_precedence(e) is None && expr_tokens(e)
                    == token_types(old(self).tokens@).subrange(
                    old(self).current as int,
                    final(self).current as int,
                ),
                Err(_) => true,
            },
            match target {
                Some(e) => operand_at(token_types(old(self).tokens@), old(self).current as int, e)
                    ==> r is Ok && final(self).current == old(self).current + expr_tokens(e).len(),
                None => true,
            },
            ({
                let types = token_types(old(self).tokens@);
                let c = old(self).current as int;
                &&& c < types.len() && !(types[c] is Dynamic64) && types[c] != TDType::LPAREN ==> r
                    == Err::<AstExpr, ParseError>(ParseError::ExpectedOperand { index: c as usize })
                    && final(self).current == c + 1
                &&& forall|x: AstExpr|
                    #[trigger] group_unclosed(types, c, x) ==> r == Err::<AstExpr, ParseError>(
                        group_error(types, c, x),
                    ) && final(self).current == c + 1 + expr_tokens(x).len()
            }),
        decreases old(self).tokens@.len() - old(self).current, 0int,
    {
        let ghost types = token_types(self.tokens@);
        let ghost w = target is Some && operand_at(types, self.current as int, target->0);
        let ghost e = target->0;
        proof {
            if w {
                lemma_balanced(e);
                assert(types[self.current as int] == expr_tokens(e)[0]);
            }
        }
        if self.current >= self.tokens.len() {
            return Err(ParseError::UnexpectedEnd);
        }
        let idx = self.current;
        self.current = idx + 1;
        match self.tokens[idx]._type {
            TDType::Dynamic64(n) => {
                let e = AstExpr::constant_64(n);
                proof {
                    assert(types.subrange(idx as int, idx + 1) =~= seq![types[idx as int]]);
                }
                Ok(e)
            },
            TDType::LPAREN => {
                let ghost c1 = idx + 1;
                let ghost has_inner = w || exists|y: AstExpr| spelled_at(types, c1, y, 0);
                let ghost x = if w {
                    *e._type->Parenthesized_0.expr
                } else {
                    choose|y: AstExpr| spelled_at(types, c1, y, 0)
                };
                proof {
                    if w {
                        let te = expr_tokens(e);
                        let tx = expr_tokens(x);
                        assert(types.subrange(idx + 1, idx + 1 + tx.len()) =~= te.subrange(
                            1,
                            tx.len() + 1int,
                        ));
                        assert(te.subrange(1, tx.len() + 1int) =~= tx);
                        assert(types[idx + 1 + tx.len()] == te[tx.len() + 1int]);
                        assert(spelled_at(types, idx + 1, x, 0));
                    }
                }
                let inner = match self.parse_expression(
                    Ghost(if has_inner { Some(x) } else { None }),
                ) {
                    Ok(e) => e,
                    Err(x) => return Err(x),
                };
                let close = self.current;
                proof {
                    assert forall|y: AstExpr| #[trigger]
                        group_unclosed(types, idx as int, y) implies close == idx + 1
                        + expr_tokens(y).len() by {
                        lemma_spelled_same_length(types, idx + 1, x, y);
                    }
                }
                if close >= self.tokens.len() {
                    return Err(ParseError::UnexpectedEnd);
                }
                if self.tokens[close]._type != TDType::RPAREN {
                    return Err(ParseError::ExpectedRightParen { index: close });
                }
                self.current = close + 1;
                proof {
                    assert(types.subrange(idx as int, close + 1) =~= seq![types[idx as int]]
                        + types.subrange(idx + 1, close as int) + seq![types[close as int]]);
                }
                Ok(AstExpr::parenthesized(inner))
            },
            _ => Err(ParseError::ExpectedOperand { index: idx }),
        }
    }
}

} // verus!
