use yuukei::ast::{
    BinaryOp, ComparisonOp, Expr, LiteralValue, NumberLiteral, StringMatchOp, TimeOfDay, UnaryOp,
};
use yuukei::expr::{parse_arith_tokens, parse_condition_tokens, parse_literal, ExprToken, ExprTokenKind};
use yuukei::number::{parse_i64_radix, parse_number};
use yuukei::span::{Span, Spanned};
use yuukei::variable::VariableRef;

fn at(position: usize) -> Span {
    Span::new(position * 3, position * 3 + 2, 1, position + 1)
}

fn tok(kind: ExprTokenKind, position: usize) -> ExprToken {
    ExprToken { kind, span: at(position) }
}

fn op(text: &str, position: usize) -> ExprToken {
    tok(ExprTokenKind::Op(text.to_owned()), position)
}

fn number(text: &str, position: usize) -> ExprToken {
    tok(ExprTokenKind::Number(text.to_owned()), position)
}

fn ident(text: &str, position: usize) -> ExprToken {
    tok(ExprTokenKind::Ident(text.to_owned()), position)
}

fn integer(value: i64, position: usize) -> Expr {
    Expr::Value(Spanned::new(LiteralValue::Number(NumberLiteral::Integer(value)), at(position)))
}

fn local(name: &str, position: usize) -> Expr {
    Expr::Variable(VariableRef::EventLocal { name: Spanned::new(name.to_owned(), at(position)) })
}

fn time(hour: u8, minute: u8, position: usize) -> TimeOfDay {
    TimeOfDay { hour, minute, span: at(position) }
}

fn code_of(result: Result<Expr, yuukei::diagnostic::DaihonDiagnostic>) -> (String, Span) {
    let diagnostic = result.unwrap_err();
    (diagnostic.code.clone(), diagnostic.labels[0].span)
}

#[test]
fn comparison_of_variable_and_number() {
    let tokens = vec![ident("好感度", 0), op(">=", 1), number("10", 2)];
    let expr = parse_condition_tokens(tokens).unwrap();
    assert_eq!(
        expr,
        Expr::Comparison {
            left: Box::new(local("好感度", 0)),
            op: ComparisonOp::Gte,
            right: Box::new(integer(10, 2)),
            span: at(0).join(at(2)),
        }
    );
}

#[test]
fn postfix_comparison_negated_by_denai() {
    let tokens = vec![ident("好感度", 0), number("10", 1), op("以上", 2), op("でない", 3)];
    let expr = parse_condition_tokens(tokens).unwrap();
    let inner = Expr::PostfixComparison {
        left: Box::new(local("好感度", 0)),
        value: Box::new(integer(10, 1)),
        op: ComparisonOp::Gte,
        span: at(0).join(at(1)),
    };
    assert_eq!(
        expr,
        Expr::Not { expr: Box::new(inner), span: at(0).join(at(1)).join(at(3)) }
    );
}

#[test]
fn text_matches_after_their_value() {
    let expected = [
        ("を含む", StringMatchOp::Contains),
        ("で始まる", StringMatchOp::StartsWith),
        ("で終わる", StringMatchOp::EndsWith),
    ];
    for (word, expected_op) in expected {
        let tokens = vec![
            ident("入力#ファイル名", 0),
            tok(ExprTokenKind::String("レポート".to_owned()), 1),
            op(word, 2),
        ];
        match parse_condition_tokens(tokens).unwrap() {
            Expr::StringMatch { left, value, op, .. } => {
                assert_eq!(op, expected_op);
                assert_eq!(
                    *left,
                    Expr::Variable(VariableRef::Input {
                        name: Spanned::new("ファイル名".to_owned(), at(0)),
                    })
                );
                assert_eq!(
                    *value,
                    Expr::Value(Spanned::new(LiteralValue::String("レポート".to_owned()), at(1)))
                );
            },
            other => panic!("expected a text match, got {other:?}"),
        }
    }
}

#[test]
fn time_ranges_with_and_without_a_start() {
    let tokens = vec![
        tok(ExprTokenKind::Time(time(9, 0, 0)), 0),
        op("~", 1),
        tok(ExprTokenKind::Time(time(12, 0, 2)), 2),
    ];
    assert_eq!(
        parse_condition_tokens(tokens).unwrap(),
        Expr::TimeRange {
            start: Some(time(9, 0, 0)),
            end: Some(time(12, 0, 2)),
            span: at(0).join(at(2)),
        }
    );
    let tokens = vec![op("~", 0), tok(ExprTokenKind::Time(time(22, 30, 1)), 1)];
    assert_eq!(
        parse_condition_tokens(tokens).unwrap(),
        Expr::TimeRange { start: None, end: Some(time(22, 30, 1)), span: at(1) }
    );
}

#[test]
fn multiplication_binds_tighter_than_addition() {
    let tokens = vec![number("1", 0), op("+", 1), number("2", 2), op("*", 3), number("3", 4)];
    let product = Expr::Binary {
        left: Box::new(integer(2, 2)),
        op: BinaryOp::Multiply,
        right: Box::new(integer(3, 4)),
        span: at(2).join(at(4)),
    };
    assert_eq!(
        parse_arith_tokens(tokens).unwrap(),
        Expr::Binary {
            left: Box::new(integer(1, 0)),
            op: BinaryOp::Add,
            right: Box::new(product),
            span: at(0).join(at(4)),
        }
    );
}

#[test]
fn conjunction_binds_tighter_than_disjunction() {
    let tokens = vec![
        tok(ExprTokenKind::Bool(true), 0),
        op("または", 1),
        tok(ExprTokenKind::Bool(false), 2),
        op("かつ", 3),
        ident("x", 4),
    ];
    match parse_condition_tokens(tokens).unwrap() {
        Expr::Binary { op: BinaryOp::Or, right, .. } => {
            assert!(matches!(*right, Expr::Binary { op: BinaryOp::And, .. }));
        },
        other => panic!("expected a disjunction, got {other:?}"),
    }
}

#[test]
fn signs_and_parenthesized_conditions() {
    let tokens = vec![
        op("-", 0),
        tok(ExprTokenKind::LParen, 1),
        number("4", 2),
        op("%", 3),
        number("3", 4),
        tok(ExprTokenKind::RParen, 5),
    ];
    let inner = Expr::Binary {
        left: Box::new(integer(4, 2)),
        op: BinaryOp::Modulo,
        right: Box::new(integer(3, 4)),
        span: at(2).join(at(4)),
    };
    // A parenthesis holds a whole condition, so the sum inside is taken for its truth.
    let inner_span = at(2).join(at(4));
    let truthy = Expr::Truthy { expr: Box::new(inner), span: inner_span };
    assert_eq!(
        parse_arith_tokens(tokens).unwrap(),
        Expr::Unary { op: UnaryOp::Minus, expr: Box::new(truthy), span: at(0).join(inner_span) }
    );
}

#[test]
fn ranges_between_values() {
    let tokens = vec![ident("x", 0), number("1", 1), op("~", 2), number("5", 3)];
    assert_eq!(
        parse_condition_tokens(tokens).unwrap(),
        Expr::Range {
            left: Box::new(local("x", 0)),
            start: Some(Box::new(integer(1, 1))),
            end: Some(Box::new(integer(5, 3))),
            span: at(0).join(at(3)),
        }
    );
    let tokens = vec![ident("x", 0), op("~", 1), number("5", 2)];
    assert_eq!(
        parse_condition_tokens(tokens).unwrap(),
        Expr::Range {
            left: Box::new(local("x", 0)),
            start: None,
            end: Some(Box::new(integer(5, 2))),
            span: at(2),
        }
    );
}

#[test]
fn a_lone_value_is_taken_for_its_truth() {
    let tokens = vec![ident("_一時", 0)];
    assert_eq!(
        parse_condition_tokens(tokens).unwrap(),
        Expr::Truthy {
            expr: Box::new(Expr::Variable(VariableRef::Temporary {
                name: Spanned::new("_一時".to_owned(), at(0)),
            })),
            span: at(0),
        }
    );
}

#[test]
fn decimal_numbers_keep_their_text() {
    let tokens = vec![number("1.5", 0)];
    assert_eq!(
        parse_arith_tokens(tokens).unwrap(),
        Expr::Value(Spanned::new(
            LiteralValue::Number(NumberLiteral::Decimal("1.5".to_owned())),
            at(0)
        ))
    );
}

#[test]
fn each_expression_error_has_its_code() {
    assert_eq!(code_of(parse_arith_tokens(vec![])), ("E-DHN-SYN-062".to_owned(), Span::empty()));
    assert_eq!(
        code_of(parse_arith_tokens(vec![number("0xZZ", 0)])),
        ("E-DHN-SYN-063".to_owned(), at(0))
    );
    assert_eq!(
        code_of(parse_arith_tokens(vec![tok(ExprTokenKind::LParen, 0), number("1", 1)])),
        ("E-DHN-SYN-064".to_owned(), at(0))
    );
    assert_eq!(
        code_of(parse_arith_tokens(vec![tok(ExprTokenKind::RParen, 0)])),
        ("E-DHN-SYN-065".to_owned(), at(0))
    );
    assert_eq!(
        code_of(parse_condition_tokens(vec![number("1", 0), tok(ExprTokenKind::RParen, 1)])),
        ("E-DHN-SYN-060".to_owned(), at(1))
    );
    assert_eq!(
        code_of(parse_arith_tokens(vec![number("1", 0), number("2", 1)])),
        ("E-DHN-SYN-061".to_owned(), at(1))
    );
}

#[test]
fn numbers_read_in_their_radix() {
    assert_eq!(parse_number("42"), Some(NumberLiteral::Integer(42)));
    assert_eq!(parse_number("０ｘ１Ｆ"), Some(NumberLiteral::Integer(31)));
    assert_eq!(parse_number("0o17"), Some(NumberLiteral::Integer(15)));
    assert_eq!(parse_number("0b101"), Some(NumberLiteral::Integer(5)));
    assert_eq!(parse_number("9223372036854775807"), Some(NumberLiteral::Integer(i64::MAX)));
    assert_eq!(parse_number("9223372036854775808"), None);
    assert_eq!(parse_number("0x"), None);
    assert_eq!(parse_number("1.2.3"), None);
    assert_eq!(parse_number("２.５"), Some(NumberLiteral::Decimal("2.5".to_owned())));
    assert_eq!(parse_number("1.5e3"), Some(NumberLiteral::Decimal("1.5e3".to_owned())));
    let min: Vec<char> = "-8000000000000000".chars().collect();
    assert_eq!(parse_i64_radix(&min, 16), Some(i64::MIN));
    assert_eq!(parse_i64_radix(&['+'], 10), None);
}

#[test]
fn literals_written_on_their_own() {
    let span = Span::empty();
    assert_eq!(parse_literal("はい", span), Some(LiteralValue::Boolean(true)));
    assert_eq!(parse_literal("いいえ", span), Some(LiteralValue::Boolean(false)));
    assert_eq!(parse_literal("１２", span), Some(LiteralValue::Number(NumberLiteral::Integer(12))));
    assert_eq!(parse_literal("「「やあ」」", span), Some(LiteralValue::String("やあ".to_owned())));
    assert_eq!(parse_literal("やあ", span), None);
}
