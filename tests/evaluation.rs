use tdcalc::ast::{Ast, AstBinaryOperationType, AstExprType, AstStmtType};
use tdcalc::evaluator::{EvalError, TDEvaluator};
use tdcalc::lexer::TDType;
use tdcalc::parser::{ParseError, TDParser};

fn parse(src: &str) -> Ast {
    let mut parser = TDParser::from_source(src).unwrap();
    let mut ast = Ast::new();
    while let Some(stmt) = parser.next_statement() {
        ast.add_stmt(stmt.unwrap());
    }
    ast
}

fn run(src: &str) -> Result<i64, EvalError> {
    let ast = parse(src);
    let mut evaluator = TDEvaluator::new();
    let results = ast.visit(&mut evaluator);
    results.last().cloned().unwrap()
}

#[test]
fn subtraction_is_left_associative() {
    assert_eq!(run("8 - 4 - 2"), Ok(2));
    let ast = parse("8 - 4 - 2");
    assert_eq!(ast.statements.len(), 1);
    let AstStmtType::Expr(e) = &ast.statements[0]._type;
    match &e._type {
        AstExprType::Binary(b) => {
            assert_eq!(b.operator._type, AstBinaryOperationType::Sub);
            assert_eq!(b.operator.token.lexeme.start, 6);
            assert!(matches!(b.left._type, AstExprType::Binary(_)));
            assert!(matches!(b.right._type, AstExprType::Constant64(_)));
        }
        _ => panic!("expected a binary node"),
    }
}

#[test]
fn multiplication_binds_tighter() {
    assert_eq!(run("2 + 3 * 4"), Ok(14));
    let ast = parse("2 + 3 * 4");
    let AstStmtType::Expr(e) = &ast.statements[0]._type;
    match &e._type {
        AstExprType::Binary(b) => {
            assert_eq!(b.operator._type, AstBinaryOperationType::Add);
            assert_eq!(b.operator.precedence(), 1);
            assert!(matches!(b.right._type, AstExprType::Binary(_)));
        }
        _ => panic!("expected a binary node"),
    }
}

#[test]
fn grouping_overrides_precedence() {
    assert_eq!(run("(2 + 3) * 4"), Ok(20));
}

#[test]
fn grouped_products() {
    assert_eq!(run("(8 + 4) * (9 * 2)"), Ok(216));
}

#[test]
fn division_truncates_toward_zero() {
    assert_eq!(run("7 / 2"), Ok(3));
    assert_eq!(run("(0 - 7) / 2"), Ok(-3));
    assert_eq!(run("0 - 7 / 2"), Ok(-3));
}

#[test]
fn division_by_zero_is_reported() {
    assert_eq!(run("5 / 0"), Err(EvalError::DivisionByZero { start: 2, end: 3 }));
}

#[test]
fn overflow_is_reported() {
    assert_eq!(
        run("9223372036854775807 + 1"),
        Err(EvalError::Overflow { start: 20, end: 21 })
    );
    assert_eq!(run("(0 - 9223372036854775807 - 1) / (0 - 1)").is_err(), true);
    assert_eq!(run("0 - 9223372036854775807 - 1"), Ok(i64::MIN));
}

#[test]
fn each_statement_gets_a_result_and_the_last_is_kept() {
    let ast = parse("1 + 1 5 / 0 3 * 3");
    assert_eq!(ast.statements.len(), 3);
    let mut evaluator = TDEvaluator::new();
    let results = ast.visit(&mut evaluator);
    assert_eq!(results[0], Ok(2));
    assert_eq!(results[1], Err(EvalError::DivisionByZero { start: 8, end: 9 }));
    assert_eq!(results[2], Ok(9));
    assert_eq!(evaluator.last_const, Some(9));
}

#[test]
fn failing_last_statement_leaves_nothing() {
    let ast = parse("4 1 / 0");
    let mut evaluator = TDEvaluator::new();
    let _ = ast.visit(&mut evaluator);
    assert_eq!(evaluator.last_const, None);
}

#[test]
fn empty_program_has_no_statements() {
    let ast = parse("   ");
    assert_eq!(ast.statements.len(), 0);
    let mut evaluator = TDEvaluator::new();
    assert!(ast.visit(&mut evaluator).is_empty());
    assert_eq!(evaluator.last_const, None);
}

#[test]
fn unclosed_group_is_a_parse_error() {
    let mut parser = TDParser::from_source("(1 + 2").unwrap();
    assert!(matches!(parser.next_statement(), Some(Err(ParseError::ExpectedRightParen { index: 4 }))));
}

#[test]
fn missing_operand_is_a_parse_error() {
    let mut parser = TDParser::from_source("+ 1").unwrap();
    assert!(matches!(parser.next_statement(), Some(Err(ParseError::ExpectedOperand { index: 0 }))));
    assert!(parser.current > 0);
    let mut parser = TDParser::from_source("1 +").unwrap();
    assert!(matches!(parser.next_statement(), Some(Err(ParseError::ExpectedOperand { index: 2 }))));
}

#[test]
fn empty_parser_has_no_statements() {
    let mut parser = TDParser::new();
    assert!(parser.next_statement().is_none());
}

#[test]
fn lexical_error_stops_parser_construction() {
    assert!(TDParser::from_source("1 + x").is_err());
}

#[test]
fn parser_keeps_token_spans_and_text() {
    let parser = TDParser::from_source("1 + 2").unwrap();
    assert_eq!(parser.current, 0);
    assert_eq!(parser.tokens.len(), 4);
    let expect = [(TDType::Dynamic64(1), 0, 1, "1"), (TDType::PLUS, 2, 3, "+"), (TDType::Dynamic64(2), 4, 5, "2")];
    for (i, (ty, a, b, text)) in expect.iter().enumerate() {
        assert_eq!(parser.tokens[i]._type, *ty);
        assert_eq!(parser.tokens[i].lexeme.start, *a);
        assert_eq!(parser.tokens[i].lexeme.end, *b);
        assert_eq!(parser.tokens[i].lexeme.literal, *text);
    }
    assert_eq!(parser.tokens[3]._type, TDType::EOF);
    assert_eq!(parser.tokens[3].lexeme.start, 5);
    assert_eq!(parser.tokens[3].lexeme.end, 5);
}

#[test]
fn group_left_open_reports_the_end_token() {
    let mut parser = TDParser::from_source("(2").unwrap();
    assert!(matches!(parser.next_statement(), Some(Err(ParseError::ExpectedRightParen { index: 2 }))));
    assert_eq!(parser.current, 2);
    assert!(parser.next_statement().is_none());
}
