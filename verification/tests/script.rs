use yuukei::ast::{BinaryOp, ComparisonOp, DisplayPart, Expr, FuncArg, JumpTarget, Stmt};
use yuukei::lexer::lexes_to_end;
use yuukei::script::parse_script;
use yuukei::variable::VariableRef;

#[test]
fn parser_ignores_line_and_trailing_comments() {
    for source in [
        "## t\n$$ c\n### s\n「a」\n",
        "## t\n＄＄ c\n### s\n「a」\n",
        "## t\n### s\n$$ c\n「a」\n",
        "## t\n### s\n＄＄ c\n「a」\n",
        "## t\n### s\n好感度=1 $$ c\n「a」\n",
        "## t\n### s\n好感度=1 ＄＄ c",
    ] {
        parse_script(source).unwrap_or_else(|diagnostics| {
            panic!("expected comments to parse, got diagnostics: {diagnostics:?}")
        });
    }
}

#[test]
fn parser_reads_scoped_variables_and_dialogue_embed() {
    let script = parse_script(
        r#"
## 会話
### 通常
全体#起動回数=全体#起動回数 + 1
住人#ミカ#機嫌=「良い」
関係#ミカ#ユーザー#好感度=10
「こんにちは＜入力#ユーザー名＞さん」
"#,
    )
    .unwrap();

    assert!(matches!(
        &script.event.scenes[0].statements[0],
        Stmt::Assignment(assignment) if matches!(assignment.target, VariableRef::Global { .. })
    ));
    assert!(matches!(
        &script.event.scenes[0].statements[1],
        Stmt::Assignment(assignment) if matches!(assignment.target, VariableRef::Resident { .. })
    ));
    assert!(matches!(
        &script.event.scenes[0].statements[2],
        Stmt::Assignment(assignment) if matches!(assignment.target, VariableRef::Relation { .. })
    ));
}

#[test]
fn parser_accepts_fullwidth_arithmetic_operators_in_assignments_and_conditions() {
    let script = parse_script(
        r#"
## 全角演算
初期値:
好感度=5
### 通常
条件:（好感度 ＊ 2 >= 10）
好感度=好感度＋1
差=好感度－2
積=好感度＊2
商=好感度／2
余=好感度％2
「ok」
"#,
    )
    .unwrap();

    match script.event.scenes[0].metadata.condition.as_ref().unwrap() {
        Expr::Comparison { left, op, .. } => {
            assert_eq!(*op, ComparisonOp::Gte);
            assert!(matches!(
                left.as_ref(),
                Expr::Binary {
                    op: BinaryOp::Multiply,
                    ..
                }
            ));
        }
        other => panic!("expected comparison, got {other:?}"),
    }
    let expected = [
        BinaryOp::Add,
        BinaryOp::Subtract,
        BinaryOp::Multiply,
        BinaryOp::Divide,
        BinaryOp::Modulo,
    ];
    for (statement, expected_op) in script.event.scenes[0]
        .statements
        .iter()
        .take(expected.len())
        .zip(expected)
    {
        match statement {
            Stmt::Assignment(assignment) => {
                assert!(matches!(
                    assignment.value,
                    Expr::Binary {
                        op,
                        ..
                    } if op == expected_op
                ));
            }
            other => panic!("expected assignment, got {other:?}"),
        }
    }
}

#[test]
fn parser_accepts_wave_dash_and_fullwidth_tilde_ranges() {
    for separator in ["〜", "～"] {
        let script = parse_script(&format!(
            r#"
## 範囲
### 時刻
条件: 9:00{separator}12:00
「ok」
"#
        ))
        .unwrap();

        match script.event.scenes[0].metadata.condition.as_ref().unwrap() {
            Expr::TimeRange { start, end, .. } => {
                assert_eq!(start.as_ref().map(|time| time.hour), Some(9));
                assert_eq!(start.as_ref().map(|time| time.minute), Some(0));
                assert_eq!(end.as_ref().map(|time| time.hour), Some(12));
                assert_eq!(end.as_ref().map(|time| time.minute), Some(0));
            }
            other => panic!("expected time range, got {other:?}"),
        }
    }
}

#[test]
fn parser_splits_dialogue_embeds_before_following_scene_metadata() {
    let script = parse_script(
        r#"
## 生活
### 起動
合図: ＠app.startup
「起動：＜入力#時間帯＞」
### 接続
合図: ＠surface.attach
「ここにいます。」
"#,
    )
    .unwrap();

    assert_eq!(script.event.scenes.len(), 2);
    assert_eq!(
        script.event.scenes[0].metadata.signals[0].name.value,
        "app.startup"
    );
    assert_eq!(
        script.event.scenes[1].metadata.signals[0].name.value,
        "surface.attach"
    );
}

#[test]
fn scene_header_fields_are_read() {
    let script = parse_script(
        r#"
## 起動
前提条件:
※（好感度 < 0）→おわり
初期値:
好感度=10
### クリック反応
合図: ＠クリック または @ダブルクリック かつ
条件:※（好感度 10 以上）
優先度: -20
重み: 3
クールダウン: 30分
話者: ミカ
ミカ: 「こんにちは」＜表情 笑顔＞
"#,
    )
    .unwrap();
    assert_eq!(script.event.name.value, "起動");
    assert_eq!(script.event.preconditions.len(), 1);
    assert!(matches!(*script.event.preconditions[0].action, Stmt::Jump(JumpTarget::EndEvent { .. })));
    assert_eq!(script.event.defaults.len(), 1);
    let scene = &script.event.scenes[0];
    assert_eq!(scene.name.value, "クリック反応");
    let names: Vec<&str> = scene.metadata.signals.iter().map(|s| s.name.value.as_str()).collect();
    assert_eq!(names, vec!["クリック", "ダブルクリック かつ"]);
    assert!(scene.metadata.raw.signal_used_and);
    assert!(scene.metadata.raw.condition_had_marker);
    assert!(scene.metadata.condition.is_some());
    assert_eq!(scene.metadata.priority, -20);
    assert_eq!(scene.metadata.weight, 3);
    assert_eq!(scene.metadata.cooldown, Some(1800));
    assert_eq!(scene.metadata.speaker.as_ref().unwrap().value, "ミカ");
    match &scene.statements[0] {
        Stmt::SpeakerDisplay { speaker, display } => {
            assert_eq!(speaker.value, "ミカ");
            match &display.parts[1] {
                DisplayPart::FunctionCall(call) => {
                    assert!(matches!(call.positional[0], FuncArg::BareWord(_)));
                }
                _ => panic!("expected function call"),
            }
        }
        _ => panic!("expected speaker display"),
    }
    assert_eq!(scene.span.start, scene.name.span.start);
    assert_eq!(script.span, script.event.span);
}

#[test]
fn misspelled_keys_are_noted_and_bad_weights_read_as_zero() {
    let script = parse_script("## e\n### s\n合頭: x\n重み: たくさん\n優先度: 9999999999\n「a」").unwrap();
    let meta = &script.event.scenes[0].metadata;
    assert_eq!(meta.raw.unknown_metadata_keys.len(), 1);
    assert_eq!(meta.raw.unknown_metadata_keys[0].value, "合頭");
    assert_eq!(meta.weight, 0);
    assert_eq!(meta.priority, 0);
}

#[test]
fn scripts_without_header_or_scene_are_refused() {
    let empty = parse_script("\n\n").unwrap_err();
    assert_eq!(empty.len(), 1);
    assert_eq!(empty[0].code, "E-DHN-SYN-001");
    let no_header = parse_script("「a」\n### s").unwrap_err();
    assert_eq!(no_header[0].code, "E-DHN-SYN-001");
    assert!(no_header[0].help.is_some());
    let no_scene = parse_script("## e\n").unwrap_err();
    assert_eq!(no_scene.len(), 1);
    assert_eq!(no_scene[0].code, "E-DHN-SEM-003");
    let empty_names = parse_script("##\n###\n「a」").unwrap_err();
    let codes: Vec<&str> = empty_names.iter().map(|d| d.code.as_str()).collect();
    assert_eq!(codes, vec!["E-DHN-SEM-001", "E-DHN-SEM-004"]);
}

#[test]
fn section_lines_of_the_wrong_kind_are_reported() {
    let errors = parse_script("## e\n前提条件:\n「a」\n初期値:\n「b」\n### s\n「c」").unwrap_err();
    let codes: Vec<&str> = errors.iter().map(|d| d.code.as_str()).collect();
    assert_eq!(codes, vec!["E-DHN-SYN-010", "E-DHN-SYN-011"]);
}

#[test]
fn lexing_problems_are_reported_first() {
    let source = "## e\n### s\n＜表情";
    assert!(lexes_to_end(source));
    let errors = parse_script(source).unwrap_err();
    assert_eq!(errors.last().unwrap().code, "E-DHN-LEX-002");
}
