use yuukei::ast::{BinaryOp, ComparisonOp, DialoguePart, DisplayPart, Expr, JumpTarget, Stmt};
use yuukei::diagnostic::DaihonDiagnostic;
use yuukei::span::Span;
use yuukei::statement::{
    parse_assignment, parse_display_line, parse_single_action, parse_stmt_from_line,
    split_condition_prefix, split_paren_expr, DaihonParser,
};
use yuukei::syntax::{logical_lines, LogicalLine};
use yuukei::variable::VariableRef;

fn line(text: &str) -> LogicalLine {
    LogicalLine { text: text.to_owned(), span: Span::new(40, 40 + text.len(), 7, 1) }
}

#[test]
fn display_line_of_dialogue_and_call() {
    let mut diagnostics: Vec<DaihonDiagnostic> = Vec::new();
    let display = parse_display_line(&line("  「こんにちは」 ＜表情 笑顔＞ "), &mut diagnostics).unwrap();
    assert!(diagnostics.is_empty());
    assert_eq!(display.parts.len(), 2);
    match &display.parts[0] {
        DisplayPart::Dialogue(d) => {
            assert_eq!(d.span, Span::new(42, 63, 7, 3));
            match &d.parts[0] {
                DialoguePart::Text(t) => assert_eq!(t.value, "こんにちは"),
                other => panic!("unexpected {other:?}"),
            }
        },
        other => panic!("unexpected {other:?}"),
    }
    match &display.parts[1] {
        DisplayPart::FunctionCall(f) => {
            assert_eq!(f.name.value, "表情");
            assert_eq!(f.span, Span::new(64, 83, 7, 11));
        },
        other => panic!("unexpected {other:?}"),
    }
    assert_eq!(display.span, Span::new(42, 83, 7, 3));
}

#[test]
fn other_text_is_no_display_line() {
    let mut diagnostics: Vec<DaihonDiagnostic> = Vec::new();
    assert!(parse_display_line(&line("「a」 地の文"), &mut diagnostics).is_none());
    assert!(parse_display_line(&line("   "), &mut diagnostics).is_none());
    assert!(diagnostics.is_empty());
}

#[test]
fn unclosed_dialogue_in_display_line_is_reported() {
    let mut diagnostics: Vec<DaihonDiagnostic> = Vec::new();
    assert!(parse_display_line(&line("「閉じない"), &mut diagnostics).is_none());
    assert_eq!(diagnostics.len(), 1);
    assert_eq!(diagnostics[0].code, "E-DHN-LEX-001");
}

#[test]
fn assignment_of_scoped_variable() {
    let mut diagnostics: Vec<DaihonDiagnostic> = Vec::new();
    let assignment = parse_assignment(&line("全体#起動回数 = 全体#起動回数 + 1"), &mut diagnostics).unwrap();
    assert!(diagnostics.is_empty());
    assert!(matches!(assignment.target, VariableRef::Global { .. }));
    assert!(matches!(assignment.value, Expr::Binary { op: BinaryOp::Add, .. }));
    assert_eq!(assignment.span, line("全体#起動回数 = 全体#起動回数 + 1").span);
}

#[test]
fn line_without_assignment_sign_is_no_assignment() {
    let mut diagnostics: Vec<DaihonDiagnostic> = Vec::new();
    assert!(parse_assignment(&line("a >= 1"), &mut diagnostics).is_none());
    assert!(parse_assignment(&line("「x=1」"), &mut diagnostics).is_none());
    assert!(diagnostics.is_empty());
}

#[test]
fn assignment_with_unreadable_value_is_reported() {
    let mut diagnostics: Vec<DaihonDiagnostic> = Vec::new();
    assert!(parse_assignment(&line("a = 1 +"), &mut diagnostics).is_none());
    assert_eq!(diagnostics.len(), 1);
    assert_eq!(diagnostics[0].code, "E-DHN-SYN-062");
}

#[test]
fn condition_in_parentheses_and_rest() {
    let (condition, rest) = split_paren_expr(" （好感度 >= 10） なら：", Span::new(0, 0, 1, 1)).unwrap();
    assert!(matches!(condition, Expr::Comparison { op: ComparisonOp::Gte, .. }));
    assert_eq!(rest, " なら：");
    assert!(split_paren_expr("好感度 >= 10", Span::new(0, 0, 1, 1)).is_none());
    assert!(split_paren_expr("（好感度 >= ", Span::new(0, 0, 1, 1)).is_none());
    assert!(split_paren_expr("（1 +）", Span::new(0, 0, 1, 1)).is_none());
}

#[test]
fn condition_prefix_needs_the_marker() {
    let (condition, rest) = split_condition_prefix("※（はい）→おわり", Span::new(0, 0, 1, 1)).unwrap();
    assert!(matches!(condition, Expr::Truthy { .. } | Expr::Value(_)));
    assert_eq!(rest, "→おわり");
    assert!(split_condition_prefix("（はい）→おわり", Span::new(0, 0, 1, 1)).is_none());
}

#[test]
fn single_action_jump_display_and_assignment() {
    let mut diagnostics: Vec<DaihonDiagnostic> = Vec::new();
    let jump = parse_single_action(&line(" →おわり"), &mut diagnostics).unwrap();
    assert_eq!(jump, Stmt::Jump(JumpTarget::EndEvent { span: line(" →おわり").span }));
    let display = parse_single_action(&line("「a」"), &mut diagnostics).unwrap();
    assert!(matches!(display, Stmt::Display(_)));
    assert!(diagnostics.is_empty());
    let assignment = parse_single_action(&line("x = 2"), &mut diagnostics).unwrap();
    assert!(matches!(assignment, Stmt::Assignment(_)));
    assert!(diagnostics.is_empty());
}

#[test]
fn single_action_with_two_parts_is_reported() {
    let mut diagnostics: Vec<DaihonDiagnostic> = Vec::new();
    let display = parse_single_action(&line("「a」「b」"), &mut diagnostics).unwrap();
    assert!(matches!(display, Stmt::Display(_)));
    assert_eq!(diagnostics.len(), 1);
    assert_eq!(diagnostics[0].code, "E-DHN-SEM-034");
    assert_eq!(
        diagnostics[0].help.as_deref(),
        Some("複数の表示や関数を条件付きにしたい場合はブロック記法を使ってください。")
    );
}

#[test]
fn single_action_that_is_nothing_gives_nothing() {
    let mut diagnostics: Vec<DaihonDiagnostic> = Vec::new();
    assert!(parse_single_action(&line("ただの文"), &mut diagnostics).is_none());
    assert!(diagnostics.is_empty());
}

fn parser_over(source: &str, index: usize) -> (DaihonParser, LogicalLine) {
    let lines = logical_lines(source);
    let first = LogicalLine { text: lines[0].text.clone(), span: lines[0].span };
    (DaihonParser { lines, index, diagnostics: Vec::new() }, first)
}

#[test]
fn conditional_block_with_alternative_and_else() {
    let source = "※（好感度 >= 10）なら：\n「やあ」\n※あるいは（好感度 >= 5）：\n「ふむ」\n※それ以外：\n「…」\nおわり\n「後」";
    let (mut parser, first) = parser_over(source, 1);
    let stmt = parser.parse_conditional_from_first_line(&first).unwrap();
    assert!(parser.diagnostics.is_empty());
    assert_eq!(parser.index, 7);
    match stmt {
        Stmt::Conditional(block) => {
            assert!(!block.one_line);
            assert_eq!(block.span, first.span);
            assert_eq!(block.branches.len(), 2);
            assert!(matches!(block.branches[0].condition, Expr::Comparison { op: ComparisonOp::Gte, .. }));
            assert_eq!(block.branches[0].statements.len(), 1);
            assert_eq!(block.branches[1].statements.len(), 1);
            assert_eq!(block.else_branch.as_ref().unwrap().len(), 1);
        },
        other => panic!("unexpected {other:?}"),
    }
}

#[test]
fn conditional_block_without_end_is_reported() {
    let (mut parser, first) = parser_over("※（はい）：\n「a」", 1);
    let stmt = parser.parse_conditional_from_first_line(&first).unwrap();
    assert_eq!(parser.index, 2);
    assert_eq!(parser.diagnostics.len(), 1);
    assert_eq!(parser.diagnostics[0].code, "E-DHN-SYN-042");
    match stmt {
        Stmt::Conditional(block) => assert_eq!(block.branches[0].statements.len(), 1),
        other => panic!("unexpected {other:?}"),
    }
}

#[test]
fn one_line_conditional_holds_its_action() {
    let (mut parser, first) = parser_over("※（はい）→おわり", 1);
    let stmt = parser.parse_conditional_from_first_line(&first).unwrap();
    assert!(parser.diagnostics.is_empty());
    assert_eq!(parser.index, 1);
    match stmt {
        Stmt::Conditional(block) => {
            assert!(block.one_line);
            assert!(block.else_branch.is_none());
            assert!(matches!(block.branches[0].statements[0], Stmt::Jump(JumpTarget::EndEvent { .. })));
        },
        other => panic!("unexpected {other:?}"),
    }
}

#[test]
fn alternative_outside_a_block_is_reported() {
    let (mut parser, first) = parser_over("※あるいは（はい）：", 1);
    assert!(parser.parse_conditional_from_first_line(&first).is_none());
    assert_eq!(parser.diagnostics.len(), 1);
    assert_eq!(parser.diagnostics[0].code, "E-DHN-SYN-040");
    assert_eq!(parser.index, 1);
}

#[test]
fn else_after_else_and_stray_lines_are_reported() {
    let source = "※（はい）：\n「a」\n※それ以外：\n「b」\n※それ以外：\n「c」\nおわり";
    let (mut parser, first) = parser_over(source, 1);
    let stmt = parser.parse_conditional_from_first_line(&first).unwrap();
    assert_eq!(parser.index, 7);
    assert_eq!(parser.diagnostics.len(), 1);
    assert_eq!(parser.diagnostics[0].code, "E-DHN-SEM-033");
    match stmt {
        Stmt::Conditional(block) => assert_eq!(block.else_branch.as_ref().unwrap().len(), 1),
        other => panic!("unexpected {other:?}"),
    }
}

#[test]
fn statement_lines_jump_and_unreadable() {
    let (mut parser, first) = parser_over("→シーン2", 1);
    let stmt = parse_stmt_from_line(&first, &mut parser).unwrap();
    match stmt {
        Stmt::Jump(JumpTarget::Scene { name }) => assert_eq!(name.value, "シーン2"),
        other => panic!("unexpected {other:?}"),
    }
    assert!(parser.diagnostics.is_empty());
    let (mut parser, first) = parser_over("ただの文", 1);
    assert!(parse_stmt_from_line(&first, &mut parser).is_none());
    assert_eq!(parser.diagnostics.len(), 1);
    assert_eq!(parser.diagnostics[0].code, "E-DHN-SYN-031");
    assert_eq!(parser.index, 1);
}

#[test]
fn branch_statements_stop_at_the_end_line() {
    let (mut parser, _) = parser_over("「a」\n\nx = 1\nおわり\n「b」", 0);
    let statements = parser.parse_stmt_list_until_branch_end();
    assert_eq!(statements.len(), 2);
    assert!(matches!(statements[0], Stmt::Display(_)));
    assert!(matches!(statements[1], Stmt::Assignment(_)));
    assert_eq!(parser.index, 3);
    assert!(parser.diagnostics.is_empty());
}

#[test]
fn scene_statements_stop_at_the_next_scene() {
    let (mut parser, _) = parser_over("「a」\nおわり\n\n→シーン2\n### 次\n「b」", 0);
    let statements = parser.parse_stmt_list_until_scene();
    assert_eq!(statements.len(), 2);
    assert!(matches!(statements[0], Stmt::Display(_)));
    assert!(matches!(statements[1], Stmt::Jump(JumpTarget::Scene { .. })));
    assert_eq!(parser.index, 4);
    assert_eq!(parser.diagnostics.len(), 1);
    assert_eq!(parser.diagnostics[0].code, "E-DHN-SYN-030");
}

#[test]
fn precondition_lines_end_the_event() {
    let (parser, first) = parser_over("※（はい）→おわり", 0);
    let pre = parser.parse_precondition_line(&first).unwrap();
    assert_eq!(pre.span, first.span);
    assert!(matches!(*pre.action, Stmt::Jump(JumpTarget::EndEvent { .. })));
    let (parser, first) = parser_over("※（はい）→シーン2", 0);
    assert!(parser.parse_precondition_line(&first).is_none());
    let (parser, first) = parser_over("「はい」", 0);
    assert!(parser.parse_precondition_line(&first).is_none());
}

#[test]
fn blank_lines_are_skipped_and_sections_found() {
    let (mut parser, _) = parser_over("\n  \n前提条件：\n※（はい）→おわり", 0);
    parser.skip_empty();
    assert_eq!(parser.index, 2);
    assert!(parser.current_is_section("前提条件"));
    assert!(!parser.current_is_section("初期値"));
    parser.index = 4;
    assert!(!parser.current_is_section("前提条件"));
}

#[test]
fn statements_are_read_one_line_at_a_time() {
    let (mut parser, _) = parser_over("「a」\n→おわり", 0);
    assert!(matches!(parser.parse_stmt(), Some(Stmt::Display(_))));
    assert_eq!(parser.index, 1);
    assert!(matches!(parser.parse_stmt(), Some(Stmt::Jump(JumpTarget::EndEvent { .. }))));
    assert_eq!(parser.index, 2);
    assert!(parser.parse_stmt().is_none());
    assert_eq!(parser.index, 2);
}
