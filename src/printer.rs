use vstd::prelude::*;
use crate::ast::{stmt_expr, AstExpr, AstExprType, AstStmt, AstStmtType};

verus! {

/// The text of one decimal digit.
pub open spec fn digit_text(d: nat) -> Seq<char> {
    if d == 0 {
        "0"@
    } else if d == 1 {
        "1"@
    } else if d == 2 {
        "2"@
    } else if d == 3 {
        "3"@
    } else if d == 4 {
        "4"@
    } else if d == 5 {
        "5"@
    } else if d == 6 {
        "6"@
    } else if d == 7 {
        "7"@
    } else if d == 8 {
        "8"@
    } else {
        "9"@
    }
}

/// The decimal text of a natural number, without leading zeros.
pub open spec fn nat_text(n: nat) -> Seq<char>
    decreases n,
{
    if n < 10 {
        digit_text(n)
    } else {
        nat_text(n / 10) + digit_text(n % 10)
    }
}

/// The decimal text of an integer, with a leading `-` when negative.
pub open spec fn int_text(n: int) -> Seq<char> {
    if n < 0 {
        "-"@ + nat_text((-n) as nat)
    } else {
        nat_text(n as nat)
    }
}

pub open spec fn lines_view(v: Seq<String>) -> Seq<Seq<char>> {
    v.map_values(|s: String| s@)
}

/// The dump of an expression whose `expr:` line carries the prefix `p`:
/// each nesting level indents by two spaces.
pub open spec fn expr_lines(e: AstExpr, p: Seq<char>) -> Seq<Seq<char>>
    decreases e,
{
    let q = p + "  "@;
    seq![p + "expr:"@] + match e._type {
        AstExprType::Constant64(c) => seq![q + "const ["@ + int_text(c.number as int) + "]"@],
        AstExprType::Binary(b) => seq![q + "binop ["@ + b.operator.token.lexeme.literal@ + "]:"@]
            + expr_lines(*b.left, q + "  "@) + expr_lines(*b.right, q + "  "@),
        AstExprType::Parenthesized(g) => seq![q + "group:"@] + expr_lines(*g.expr, q + "  "@),
    }
}

pub open spec fn stmt_lines(s: AstStmt, p: Seq<char>) -> Seq<Seq<char>> {
    seq![p + "stmt:"@] + expr_lines(stmt_expr(s), p + "  "@)
}

/// The dump of a program: each statement's lines, in order, unindented.
pub open spec fn program_lines(stmts: Seq<AstStmt>) -> Seq<Seq<char>>
    decreases stmts.len(),
{
    if stmts.len() == 0 {
        Seq::empty()
    } else {
        program_lines(stmts.drop_last()) + stmt_lines(stmts.last(), Seq::empty())
    }
}

fn digit_str(d: u64) -> (r: &'static str)
    requires
        d < 10,
    ensures
        r@ == digit_text(d as nat),
{
    if d == 0 {
        "0"
    } else if d == 1 {
        "1"
    } else if d == 2 {
        "2"
    } else if d == 3 {
        "3"
    } else if d == 4 {
        "4"
    } else if d == 5 {
        "5"
    } else if d == 6 {
        "6"
    } else if d == 7 {
        "7"
    } else if d == 8 {
        "8"
    } else {
        "9"
    }
}

fn append_digits(n: u64, s: &mut String)
    ensures
        final(s)@ == old(s)@ + nat_text(n as nat),
    decreases n,
{
    if n >= 10 {
        append_digits(n / 10, s);
    }
    s.append(digit_str(n % 10));
    proof {
        if n < 10 {
            assert(n % 10 == n);
        } else {
            assert(old(s)@ + nat_text(n as nat) =~= old(s)@ + nat_text((n / 10) as nat)
                + digit_text((n % 10) as nat));
        }
    }
}

/// Appends the decimal text of `n` to `s`.
fn append_int(n: i64, s: &mut String)
    ensures
        final(s)@ == old(s)@ + int_text(n as int),
{
    if n < 0 {
        s.append("-");
        let m: u64 = ((-(n + 1)) as u64) + 1;
        append_digits(m, s);
        proof {
            assert(old(s)@ + ("-"@ + nat_text(m as nat)) =~= old(s)@ + "-"@ + nat_text(m as nat));
        }
    } else {
        append_digits(n as u64, s);
    }
}

/// Writes the indented dump of a tree, one line per node.
pub struct AstPrinter {
    indent: String,
    lines: Vec<String>,
}

impl AstPrinter {
    fn print_with_indent(&mut self, text: &str)
        ensures
            final(self).indent == old(self).indent,
            lines_view(final(self).lines@) == lines_view(old(self).lines@).push(
                old(self).indent@ + text@,
            ),
    {
        let mut line = self.indent.clone();
        line.append(text);
        self.lines.push(line);
        proof {
            assert(lines_view(self.lines@) =~= lines_view(old(self).lines@).push(
                old(self).indent@ + text@,
            ));
        }
    }

    fn visit_constant(&mut self, number: i64)
        ensures
            final(self).indent == old(self).indent,
            lines_view(final(self).lines@) == lines_view(old(self).lines@).push(
                old(self).indent@ + "const ["@ + int_text(number as int) + "]"@,
            ),
    {
        let mut line = self.indent.clone();
        line.append("const [");
        append_int(number, &mut line);
        line.append("]");
        self.lines.push(line);
        proof {
            assert(lines_view(self.lines@) =~= lines_view(old(self).lines@).push(
                old(self).indent@ + "const ["@ + int_text(number as int) + "]"@,
            ));
        }
    }

    fn deeper(&mut self)
        ensures
            final(self).lines == old(self).lines,
            final(self).indent@ == old(self).indent@ + "  "@,
    {
        self.indent.append("  ");
    }

    fn visit_expr(&mut self, expr: &AstExpr)
        ensures
            final(self).indent == old(self).indent,
            lines_view(final(self).lines@) == lines_view(old(self).lines@) + expr_lines(
                *expr,
                old(self).indent@,
            ),
        decreases expr,
    {
        let ghost v0 = lines_view(self.lines@);
        let ghost p = self.indent@;
        let saved = self.indent.clone();
        self.print_with_indent("expr:");
        self.deeper();
        let ghost v1 = lines_view(self.lines@);
        match &expr._type {
            AstExprType::Constant64(c) => {
                self.visit_constant(c.number);
            },
            AstExprType::Binary(b) => {
                let mut head = self.indent.clone();
                head.append("binop [");
                head.append(b.operator.token.lexeme.literal.as_str());
                head.append("]:");
                self.lines.push(head);
                self.deeper();
                let ghost v2 = lines_view(self.lines@);
                self.visit_expr(&b.left);
                self.visit_expr(&b.right);
                proof {
                    assert(v2 =~= v1.push(p + "  "@ + "binop ["@ + b.operator.token.lexeme.literal@ + "]:"@));
                }
            },
            AstExprType::Parenthesized(g) => {
                self.print_with_indent("group:");
                self.deeper();
                self.visit_expr(&g.expr);
            },
        }
        self.indent = saved;
        proof {
            assert(lines_view(self.lines@) =~= v0 + expr_lines(*expr, p));
        }
    }

    fn visit_stmt(&mut self, stmt: &AstStmt)
        ensures
            final(self).indent == old(self).indent,
            lines_view(final(self).lines@) == lines_view(old(self).lines@) + stmt_lines(
                *stmt,
                old(self).indent@,
            ),
    {
        let ghost v0 = lines_view(self.lines@);
        let saved = self.indent.clone();
        self.print_with_indent("stmt:");
        self.deeper();
        match &stmt._type {
            AstStmtType::Expr(e) => self.visit_expr(e),
        }
        self.indent = saved;
        proof {
            assert(lines_view(self.lines@) =~= v0 + stmt_lines(*stmt, old(self).indent@));
        }
    }

    /// The dump of the statements, in order.
    pub fn print_statements(stmts: &Vec<AstStmt>) -> (r: Vec<String>)
        ensures
            lines_view(r@) == program_lines(stmts@),
    {
        let mut printer = AstPrinter { indent: String::new(), lines: Vec::new() };
        let mut i: usize = 0;
        proof {
            assert(lines_view(printer.lines@) =~= program_lines(stmts@.subrange(0, 0)));
        }
        while i < stmts.len()
            invariant
                i <= stmts@.len(),
                printer.indent@ == Seq::<char>::empty(),
                lines_view(printer.lines@) == program_lines(stmts@.subrange(0, i as int)),
            decreases stmts@.len() - i,
        {
            printer.visit_stmt(&stmts[i]);
            proof {
                assert(stmts@.subrange(0, i + 1).drop_last() =~= stmts@.subrange(0, i as int));
            }
            i = i + 1;
        }
        proof {
            assert(stmts@.subrange(0, i as int) =~= stmts@);
        }
        printer.lines
    }
}

} // verus!
