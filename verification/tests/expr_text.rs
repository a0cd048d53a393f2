use yuukei::ast::{BinaryOp, ComparisonOp, Expr, FuncArg, LiteralValue, NumberLiteral, TimeOfDay};
use yuukei::diagnostic::DaihonDiagnostic;
use yuukei::expr::{ExprToken, ExprTokenKind};
use yuukei::expr_text::{
    expr_tokens, parse_arith_expr, parse_condition_expr, parse_func_arg, parse_function_content,
};
use yuukei::span::{Span, Spanned};
use yuukei::variable::VariableRef;

fn base() -> Span {
    Span::new(100, 200, 3, 5)
}

fn kinds(tokens: &[ExprToken]) -> Vec<ExprTokenKind> {
    tokens
        .iter()
        .map(|t| match &t.kind {
            ExprTokenKind::Number(s) => ExprTokenKind::Number(s.clone()),
            ExprTokenKind::String(s) => ExprTokenKind::String(s.clone()),
            ExprTokenKind::Bool(b) => ExprTokenKind::Bool(*b),
            ExprTokenKind::Ident(s) => ExprTokenKind::Ident(s.clone()),
            ExprTokenKind::Function(f) => ExprTokenKind::Ident(format!("＜{}＞", f.name.value)),
            ExprTokenKind::Time(t) => ExprTokenKind::Time(*t),
            ExprTokenKind::Op(s) => ExprTokenKind::Op(s.clone()),
            ExprTokenKind::LParen => ExprTokenKind::LParen,
            ExprTokenKind::RParen => ExprTokenKind::RParen,
        })
        .collect()
}

fn error_of<T: std::fmt::Debug>(result: Result<T, DaihonDiagnostic>) -> (String, String, Span) {
    let diagnostic = result.unwrap_err();
    (diagnostic.code.clone(), diagnostic.message.clone(), diagnostic.labels[0].span)
}

#[test]
fn tokens_of_a_comparison_with_spans() {
    let tokens = expr_tokens("好感度 >= 10", base()).unwrap();
    assert_eq!(
        kinds(&tokens),
        vec![
            ExprTokenKind::Ident("好感度".to_owned()),
            ExprTokenKind::Op(">=".to_owned()),
            ExprTokenKind::Number("10".to_owned()),
        ]
    );
    assert_eq!(tokens[0].span, Span::new(100, 109, 3, 5));
    assert_eq!(tokens[1].span, Span::new(110, 112, 3, 9));
    assert_eq!(tokens[2].span, Span::new(113, 115, 3, 12));
}

#[test]
fn full_width_signs_are_normalized() {
    let tokens = expr_tokens("（はい）＝＝ いいえ", base()).unwrap();
    assert_eq!(
        kinds(&tokens),
        vec![
            ExprTokenKind::LParen,
            ExprTokenKind::Bool(true),
            ExprTokenKind::RParen,
            ExprTokenKind::Op("==".to_owned()),
            ExprTokenKind::Bool(false),
        ]
    );
}

#[test]
fn dialogue_strings_and_operator_words() {
    let tokens = expr_tokens("名前 「ユ」」ウ」を含む", base()).unwrap();
    assert_eq!(
        kinds(&tokens),
        vec![
            ExprTokenKind::Ident("名前".to_owned()),
            ExprTokenKind::String("ユ」ウ".to_owned()),
            ExprTokenKind::Op("を含む".to_owned()),
        ]
    );
}

#[test]
fn embedded_calls_are_left_out_of_dialogue_text() {
    let tokens = expr_tokens("「A＜名前＞B」", base()).unwrap();
    assert_eq!(kinds(&tokens), vec![ExprTokenKind::String("AB".to_owned())]);
}

#[test]
fn function_calls_are_one_token() {
    let tokens = expr_tokens("＜乱数 1 「＞」＞ > 5", base()).unwrap();
    assert_eq!(
        kinds(&tokens),
        vec![
            ExprTokenKind::Ident("＜乱数＞".to_owned()),
            ExprTokenKind::Op(">".to_owned()),
            ExprTokenKind::Number("5".to_owned()),
        ]
    );
}

#[test]
fn numbers_times_and_radix_prefixes() {
    let tokens = expr_tokens("0x1F 1.5 ０７：０５ 全体#回数", base()).unwrap();
    assert_eq!(
        kinds(&tokens),
        vec![
            ExprTokenKind::Number("0x1F".to_owned()),
            ExprTokenKind::Number("1.5".to_owned()),
            ExprTokenKind::Time(TimeOfDay { hour: 7, minute: 5, span: tokens[2].span }),
            ExprTokenKind::Ident("全体#回数".to_owned()),
        ]
    );
}

#[test]
fn time_out_of_the_day_is_refused() {
    let (code, _, span) = error_of(expr_tokens("25:00", base()));
    assert_eq!(code, "E-DHN-SYN-067");
    assert_eq!(span, Span::new(100, 105, 3, 5));
}

#[test]
fn stray_character_is_refused() {
    let (code, message, span) = error_of(expr_tokens("a $", base()));
    assert_eq!(code, "E-DHN-SYN-066");
    assert_eq!(message, "式の中で使用できない文字「$」があります。");
    assert_eq!(span, Span::new(102, 103, 3, 7));
}

#[test]
fn unclosed_dialogue_and_call_are_refused() {
    let (code, _, span) = error_of(expr_tokens("「abc", base()));
    assert_eq!(code, "E-DHN-LEX-001");
    assert_eq!(span, Span::new(100, 106, 3, 5));
    let (code, _, _) = error_of(expr_tokens("＜abc", base()));
    assert_eq!(code, "E-DHN-LEX-002");
    let (code, _, span) = error_of(expr_tokens("x ＜＞", base()));
    assert_eq!(code, "E-DHN-SYN-050");
    assert_eq!(span, Span::new(102, 108, 3, 7));
}

#[test]
fn condition_text_is_read() {
    let expr = parse_condition_expr("回数 >= 3", base()).unwrap();
    match expr {
        Expr::Comparison { left, op, right, .. } => {
            assert_eq!(op, ComparisonOp::Gte);
            assert_eq!(
                *left,
                Expr::Variable(VariableRef::EventLocal {
                    name: Spanned::new("回数".to_owned(), Span::new(100, 106, 3, 5)),
                })
            );
            assert_eq!(
                *right,
                Expr::Value(Spanned::new(
                    LiteralValue::Number(NumberLiteral::Integer(3)),
                    Span::new(110, 111, 3, 11),
                ))
            );
        },
        other => panic!("unexpected {other:?}"),
    }
}

#[test]
fn arithmetic_text_is_read_with_precedence() {
    let expr = parse_arith_expr("1 + 2 * 3", base()).unwrap();
    match expr {
        Expr::Binary { op: BinaryOp::Add, right, .. } => {
            assert!(matches!(*right, Expr::Binary { op: BinaryOp::Multiply, .. }));
        },
        other => panic!("unexpected {other:?}"),
    }
}

#[test]
fn trailing_tokens_are_reported() {
    let (code, _, _) = error_of(parse_arith_expr("1 2", base()));
    assert_eq!(code, "E-DHN-SYN-061");
    let (code, _, _) = error_of(parse_condition_expr("はい いいえ", base()));
    assert_eq!(code, "E-DHN-SYN-060");
}

#[test]
fn function_content_names_and_arguments() {
    let call = parse_function_content("乱数 1 最大=10 単語", base()).unwrap();
    assert_eq!(call.name.value, "乱数");
    assert_eq!(call.span, base());
    assert_eq!(call.positional.len(), 2);
    assert_eq!(
        call.positional[1],
        FuncArg::BareWord(Spanned::new("単語".to_owned(), base()))
    );
    assert_eq!(call.named.len(), 1);
    assert_eq!(call.named[0].0, "最大");
    assert_eq!(
        call.named[0].1,
        FuncArg::Expr(Expr::Value(Spanned::new(
            LiteralValue::Number(NumberLiteral::Integer(10)),
            base(),
        )))
    );
}

#[test]
fn empty_function_content_is_refused() {
    let (code, message, _) = error_of(parse_function_content("   ", base()));
    assert_eq!(code, "E-DHN-SYN-050");
    assert_eq!(message, "関数名が空です。");
}

#[test]
fn function_arguments_of_each_kind() {
    assert!(matches!(
        parse_func_arg("（1 + 2）", base()).unwrap(),
        FuncArg::Expr(Expr::Binary { op: BinaryOp::Add, .. })
    ));
    assert_eq!(
        parse_func_arg("「こん」」にちは」", base()).unwrap(),
        FuncArg::Expr(Expr::Value(Spanned::new(LiteralValue::String("こん」にちは".to_owned()), base())))
    );
    assert_eq!(
        parse_func_arg("はい", base()).unwrap(),
        FuncArg::Expr(Expr::Value(Spanned::new(LiteralValue::Boolean(true), base())))
    );
    assert!(matches!(
        parse_func_arg("＜時刻＞", base()).unwrap(),
        FuncArg::Expr(Expr::FunctionCall(_))
    ));
    assert_eq!(
        parse_func_arg(" ｍｏｄｅ ", base()).unwrap(),
        FuncArg::BareWord(Spanned::new("mode".to_owned(), base()))
    );
    let (code, _, _) = error_of(parse_func_arg("（1 +）", base()));
    assert_eq!(code, "E-DHN-SYN-062");
}
