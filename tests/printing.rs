use tdcalc::ast::{Ast, AstExpr, AstExprType, AstStmt, AstStmtType};
use tdcalc::parser::TDParser;

fn parse(src: &str) -> Ast {
    let mut parser = TDParser::from_source(src).unwrap();
    let mut ast = Ast::new();
    while let Some(stmt) = parser.next_statement() {
        ast.add_stmt(stmt.unwrap());
    }
    ast
}

#[test]
fn dump_of_a_sum() {
    let lines = parse("1 + 20").visualize();
    assert_eq!(
        lines,
        vec![
            "stmt:",
            "  expr:",
            "    binop [+]:",
            "      expr:",
            "        const [1]",
            "      expr:",
            "        const [20]",
        ]
    );
}

#[test]
fn dump_shows_groups() {
    let lines = parse("(3) * 4").visualize();
    assert_eq!(
        lines,
        vec![
            "stmt:",
            "  expr:",
            "    binop [*]:",
            "      expr:",
            "        group:",
            "          expr:",
            "            const [3]",
            "      expr:",
            "        const [4]",
        ]
    );
}

#[test]
fn dump_of_two_statements() {
    let lines = parse("7 8").visualize();
    assert_eq!(
        lines,
        vec!["stmt:", "  expr:", "    const [7]", "stmt:", "  expr:", "    const [8]"]
    );
}

#[test]
fn dump_of_negative_and_extreme_constants() {
    let mut ast = Ast::new();
    ast.add_stmt(AstStmt::expr(AstExpr::constant_64(-45)));
    ast.add_stmt(AstStmt::expr(AstExpr::parenthesized(AstExpr::constant_64(i64::MIN))));
    ast.add_stmt(AstStmt::expr(AstExpr::constant_64(0)));
    let lines = ast.visualize();
    assert_eq!(lines[2], "    const [-45]");
    assert_eq!(lines[7], "        const [-9223372036854775808]");
    assert_eq!(lines[10], "    const [0]");
}

#[test]
fn empty_program_dumps_nothing() {
    assert!(Ast::new().visualize().is_empty());
}

fn spell(e: &AstExpr, out: &mut String) {
    match &e._type {
        AstExprType::Constant64(c) => out.push_str(&c.number.to_string()),
        AstExprType::Binary(b) => {
            spell(&b.left, out);
            out.push(' ');
            out.push_str(&b.operator.token.lexeme.literal);
            out.push(' ');
            spell(&b.right, out);
        }
        AstExprType::Parenthesized(g) => {
            out.push('(');
            spell(&g.expr, out);
            out.push(')');
        }
    }
}

#[test]
fn reparsing_the_spelled_tree_keeps_its_shape() {
    let src = "(1 + 2) * 3 - 4 / 5 - (6 - (7 * 8)) + 9";
    let first = parse(src);
    let mut text = String::new();
    let AstStmtType::Expr(e) = &first.statements[0]._type;
    spell(e, &mut text);
    assert_eq!(text, "(1 + 2) * 3 - 4 / 5 - (6 - (7 * 8)) + 9");
    let second = parse(&text);
    assert_eq!(first.statements.len(), 1);
    assert_eq!(second.statements.len(), 1);
    assert_eq!(first.visualize(), second.visualize());
}

#[test]
fn dump_of_a_division() {
    assert_eq!(
        parse("7 / 2").visualize(),
        vec![
            "stmt:",
            "  expr:",
            "    binop [/]:",
            "      expr:",
            "        const [7]",
            "      expr:",
            "        const [2]",
        ]
    );
}
