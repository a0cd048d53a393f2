use std::cmp::Ordering;

use yuukei::ast::{time_in_range, ComparisonOp, JumpTarget, SystemEvent, TimeOfDay};
use yuukei::diagnostic::{has_errors, DaihonDiagnostic, DaihonRuntimeError, Severity};
use yuukei::function::{
    ArgKind, CallArg, CallShape, FunctionRegistry, FunctionSpec, ParamSpec, ParamType,
    ValidationMode,
};
use yuukei::runtime::{
    comparison_holds, generation_outcome, resolve_jump, jump_flow, parse_interpret_choices, plan_generation,
    plan_interpretation, resolve_interpretation, ControlFlow, GenerateOutcome, GeneratePlan,
    GeneratedDialogue, InterpretHandler, InterpretPlan, InterpretRequest, NoopInterpretHandler,
    UNKNOWN_INTERPRETATION,
};
use yuukei::span::{Span, Spanned};
use yuukei::validate::{
    validate_assignment_target, validate_jump, validate_scene_names, validate_variable_ref,
};
use yuukei::value::ValueType;
use yuukei::variable::{
    builtin_time_value, check_assignable, BuiltinTimeValue, CalendarTime, VariableRef,
};

fn span(start: usize, end: usize) -> Span {
    Span::new(start, end, 1, start + 1)
}

fn name(value: &str, start: usize) -> Spanned<String> {
    Spanned::new(value.to_string(), span(start, start + value.len()))
}

fn spec(name: &str, return_type: Option<ValueType>) -> FunctionSpec {
    FunctionSpec {
        name: name.to_string(),
        positional: vec![ParamSpec {
            name: None,
            ty: ParamType::String,
            required: true,
        }],
        named: Vec::new(),
        return_type,
    }
}

#[test]
fn registry_reads_back_what_was_registered() {
    let mut registry = FunctionRegistry::new();
    assert_eq!(registry.mode(), ValidationMode::Strict);
    assert!(!registry.contains("笑顔"));
    registry.register(spec("笑顔", None));
    registry.register(spec("解釈", Some(ValueType::String)));
    assert!(registry.contains("笑顔"));
    assert_eq!(registry.get("解釈").unwrap().return_type, Some(ValueType::String));
    assert!(registry.get("泣き顔").is_none());
}

#[test]
fn registering_a_name_again_replaces_its_signature() {
    let mut registry = FunctionRegistry::new();
    registry.register(spec("play", None));
    registry.register(spec("play", Some(ValueType::Number)));
    assert_eq!(registry.specs().len(), 1);
    assert_eq!(registry.get("play").unwrap().return_type, Some(ValueType::Number));
}

#[test]
fn registry_lists_signatures_in_name_order() {
    let mut registry = FunctionRegistry::new();
    for name in ["zeta", "alpha", "mid", "alpha2"] {
        registry.register(spec(name, None));
    }
    let names: Vec<&str> = registry.specs().iter().map(|s| s.name.as_str()).collect();
    assert_eq!(names, vec!["alpha", "alpha2", "mid", "zeta"]);
}

#[test]
fn registry_mode_can_be_changed_without_touching_signatures() {
    let mut registry = FunctionRegistry::permissive();
    assert_eq!(registry.mode(), ValidationMode::Permissive);
    registry.register(spec("a", None));
    registry.set_mode(ValidationMode::Strict);
    assert_eq!(registry.mode(), ValidationMode::Strict);
    assert!(registry.contains("a"));
    assert_eq!(FunctionRegistry::default().mode(), ValidationMode::Strict);
    assert_eq!(ValidationMode::default(), ValidationMode::Strict);
}

#[test]
fn variable_display_names_follow_their_scope() {
    let global = VariableRef::Global { name: name("天気", 0) };
    assert_eq!(global.display_name(), "全体#天気");
    let input = VariableRef::Input { name: name("発言", 0) };
    assert_eq!(input.display_name(), "入力#発言");
    assert!(input.is_read_only());
    assert!(!global.is_read_only());
    let resident = VariableRef::Resident {
        actor: name("ミカ", 0),
        name: name("好感度", 10),
    };
    assert_eq!(resident.display_name(), "住人#ミカ#好感度");
    let relation = VariableRef::Relation {
        subject: name("a", 0),
        object: name("b", 2),
        name: name("c", 4),
    };
    assert_eq!(relation.display_name(), "関係#a#b#c");
    let local = VariableRef::EventLocal { name: name("好感度", 0) };
    assert_eq!(local.display_name(), "好感度");
    let temporary = VariableRef::Temporary { name: name("_一時", 0) };
    assert_eq!(temporary.display_name(), "_一時");
}

#[test]
fn unsupported_references_join_their_parts_with_hashes() {
    let two = VariableRef::Unsupported {
        scope: name("端末", 0),
        parts: vec![name("電池", 3), name("残量", 6)],
    };
    assert_eq!(two.display_name(), "端末#電池#残量");
    let none = VariableRef::Unsupported {
        scope: name("端末", 0),
        parts: vec![],
    };
    assert_eq!(none.display_name(), "端末");
    let empty_part = VariableRef::Unsupported {
        scope: name("x", 0),
        parts: vec![name("", 2)],
    };
    assert_eq!(empty_part.display_name(), "x");
}

#[test]
fn reference_spans_cover_every_part() {
    let resident = VariableRef::Resident {
        actor: Spanned::new("a".to_string(), Span::new(5, 6, 1, 6)),
        name: Spanned::new("b".to_string(), Span::new(7, 9, 1, 8)),
    };
    assert_eq!(resident.span(), Span::new(5, 9, 1, 6));
    let unsupported = VariableRef::Unsupported {
        scope: Spanned::new("s".to_string(), Span::new(10, 11, 2, 1)),
        parts: vec![
            Spanned::new("p".to_string(), Span::new(3, 4, 1, 4)),
            Spanned::new("q".to_string(), Span::new(12, 20, 2, 3)),
        ],
    };
    assert_eq!(unsupported.span(), Span::new(3, 20, 1, 4));
    assert_eq!(Span::empty(), Span::new(0, 0, 0, 0));
}

#[test]
fn system_events_and_jump_targets_keep_their_spans() {
    let event = SystemEvent::new("クリック", Span::empty());
    assert_eq!(event.name.value, "クリック");
    assert_eq!(event.name.span, Span::empty());
    let end = JumpTarget::EndEvent { span: span(1, 2) };
    assert_eq!(end.span(), span(1, 2));
    let scene = JumpTarget::Scene { name: name("夜", 4) };
    assert_eq!(scene.span(), span(4, 7));
    assert_eq!(jump_flow(&end), ControlFlow::EndEvent);
    assert_eq!(jump_flow(&JumpTarget::EndScene { span: span(0, 1) }), ControlFlow::EndScene);
    assert_eq!(jump_flow(&scene), ControlFlow::JumpScene("夜".to_string()));
}

fn time(hour: u8, minute: u8) -> TimeOfDay {
    TimeOfDay {
        hour,
        minute,
        span: Span::empty(),
    }
}

#[test]
fn time_of_day_counts_minutes_since_midnight() {
    assert_eq!(time(0, 0).total_minutes(), 0);
    assert_eq!(time(22, 30).total_minutes(), 1350);
    assert_eq!(time(255, 255).total_minutes(), 15555);
}

#[test]
fn overnight_time_ranges_wrap_past_midnight() {
    let start = Some(time(22, 0));
    let end = Some(time(2, 0));
    assert!(time_in_range(90, start, end));
    assert!(time_in_range(23 * 60, start, end));
    assert!(!time_in_range(12 * 60, start, end));
    assert!(time_in_range(9 * 60, Some(time(9, 0)), Some(time(17, 0))));
    assert!(!time_in_range(8 * 60, Some(time(9, 0)), Some(time(17, 0))));
    assert!(time_in_range(0, None, None));
    assert!(time_in_range(600, Some(time(9, 0)), None));
    assert!(!time_in_range(600, None, Some(time(9, 0))));
}

#[test]
fn comparisons_follow_the_ordering_of_their_operands() {
    assert!(comparison_holds(Some(Ordering::Equal), ComparisonOp::Eq));
    assert!(comparison_holds(Some(Ordering::Less), ComparisonOp::Lte));
    assert!(!comparison_holds(Some(Ordering::Greater), ComparisonOp::Lt));
    assert!(comparison_holds(Some(Ordering::Greater), ComparisonOp::Ne));
    assert!(comparison_holds(Some(Ordering::Equal), ComparisonOp::Gte));
    assert!(!comparison_holds(None, ComparisonOp::Ne));
    assert!(!comparison_holds(None, ComparisonOp::Eq));
}

#[test]
fn interpretation_choices_are_split_trimmed_and_kept_when_not_empty() {
    assert_eq!(parse_interpret_choices("はい/いいえ"), vec!["はい", "いいえ"]);
    assert_eq!(
        parse_interpret_choices(" a | b ／c、d,e，f "),
        vec!["a", "b", "c", "d", "e", "f"]
    );
    assert_eq!(parse_interpret_choices("||  /"), Vec::<String>::new());
    assert_eq!(parse_interpret_choices(""), Vec::<String>::new());
    assert_eq!(parse_interpret_choices("一つ"), vec!["一つ"]);
}

#[test]
fn interpretation_replies_outside_the_choices_become_unknown() {
    let choices = vec!["はい".to_string(), "いいえ".to_string()];
    assert_eq!(resolve_interpretation(&choices, Some(" はい ")), "はい");
    assert_eq!(resolve_interpretation(&choices, Some("不明")), "不明");
    assert_eq!(resolve_interpretation(&choices, Some("たぶん")), UNKNOWN_INTERPRETATION);
    assert_eq!(resolve_interpretation(&choices, None), UNKNOWN_INTERPRETATION);
}

fn args(values: &[&str]) -> Vec<String> {
    values.iter().map(|v| v.to_string()).collect()
}

#[test]
fn interpretation_calls_are_planned_from_their_arguments_and_the_limit() {
    let call = args(&["うん、行ける", "お出かけOK？", "はい/いいえ"]);
    assert_eq!(
        plan_interpretation(0, &call, 0, 4),
        InterpretPlan::Ask(InterpretRequest {
            input_text: "うん、行ける".to_string(),
            question: "お出かけOK？".to_string(),
            choices: vec!["はい".to_string(), "いいえ".to_string()],
        })
    );
    assert_eq!(plan_interpretation(0, &call, 1, 1), InterpretPlan::LimitReached);
    assert_eq!(plan_interpretation(1, &call, 0, 4), InterpretPlan::Malformed);
    assert_eq!(plan_interpretation(0, &args(&["a", "b"]), 0, 4), InterpretPlan::Malformed);
    assert_eq!(
        plan_interpretation(0, &args(&["a", "b", " / "]), 0, 4),
        InterpretPlan::NoChoices
    );
}

#[test]
fn generation_calls_fall_back_when_nothing_usable_is_generated() {
    let call = args(&["一回目", "一回目fallback"]);
    assert_eq!(
        plan_generation(0, &call, Some("ミカ"), 1, 1),
        GeneratePlan::LimitReached {
            fallback: Some("一回目fallback".to_string())
        }
    );
    match plan_generation(0, &call, Some("ミカ"), 0, 1) {
        GeneratePlan::Ask { request, fallback } => {
            assert_eq!(request.instruction, "一回目");
            assert_eq!(request.speaker_id.as_deref(), Some("ミカ"));
            assert_eq!(fallback.as_deref(), Some("一回目fallback"));
        }
        other => panic!("unexpected plan {other:?}"),
    }
    assert_eq!(plan_generation(0, &Vec::new(), None, 0, 1), GeneratePlan::Malformed);
    match plan_generation(0, &args(&["x", "  "]), None, 0, 1) {
        GeneratePlan::Ask { fallback, request } => {
            assert_eq!(fallback, None);
            assert_eq!(request.speaker_id, None);
        }
        other => panic!("unexpected plan {other:?}"),
    }

    let generated = GeneratedDialogue {
        text: "寄り道も楽しみ。".to_string(),
        expression: None,
        motion: None,
    };
    assert_eq!(
        generation_outcome(Some(generated.clone()), None),
        GenerateOutcome::ShowGenerated(generated)
    );
    let blank = GeneratedDialogue {
        text: "  ".to_string(),
        expression: None,
        motion: None,
    };
    assert_eq!(
        generation_outcome(Some(blank), Some("楽しみだなあ".to_string())),
        GenerateOutcome::ShowFallback("楽しみだなあ".to_string())
    );
    assert_eq!(generation_outcome(None, None), GenerateOutcome::ShowNothing);
}

#[test]
fn the_noop_handler_reads_everything_as_unknown() {
    let mut handler = NoopInterpretHandler;
    let request = InterpretRequest {
        input_text: "x".to_string(),
        question: "y".to_string(),
        choices: vec!["a".to_string()],
    };
    assert_eq!(handler.interpret(request).unwrap(), "不明");
}

#[test]
fn diagnostics_carry_code_message_span_and_help() {
    let error = DaihonDiagnostic::error("E-1", "bad", span(1, 2)).with_help("fix it");
    assert_eq!(error.severity, Severity::Error);
    assert_eq!(error.help.as_deref(), Some("fix it"));
    let warning = DaihonDiagnostic::warning("W-1", "hmm", span(0, 1)).with_label(span(3, 4), "here");
    assert_eq!(warning.labels.len(), 2);
    assert_eq!(warning.labels[1].message.as_deref(), Some("here"));
    assert!(has_errors(&[warning.clone(), error.clone()]));
    assert!(!has_errors(&[warning.clone()]));
    assert!(!has_errors(&[]));
    let runtime = DaihonRuntimeError::new("E-RUN", "failed", span(0, 0));
    assert_eq!(runtime.message, "failed");
    assert_eq!(runtime.diagnostic.code, "E-RUN");
    let wrapped = DaihonRuntimeError::from_diagnostic(warning);
    assert_eq!(wrapped.message, "hmm");
}

#[test]
fn unsupported_variable_scopes_are_reported_by_scope() {
    let device = VariableRef::Unsupported {
        scope: name("端末", 0),
        parts: vec![name("電池", 3)],
    };
    let diagnostic = validate_variable_ref(&device).unwrap();
    assert_eq!(diagnostic.code, "E-DHN-SEM-021");
    assert_eq!(diagnostic.message, "端末#電池 はDaihon完成版では使用できません。");
    let other_event = VariableRef::Unsupported {
        scope: name("別イベント", 0),
        parts: vec![name("x", 6)],
    };
    assert_eq!(validate_variable_ref(&other_event).unwrap().code, "E-DHN-SEM-022");
    let odd = VariableRef::Unsupported {
        scope: name("謎", 0),
        parts: vec![name("a", 2), name("b", 4)],
    };
    let diagnostic = validate_variable_ref(&odd).unwrap();
    assert_eq!(diagnostic.code, "E-DHN-SEM-023");
    assert_eq!(diagnostic.message, "謎#a#b は使用できない変数スコープです。");
    assert!(validate_variable_ref(&VariableRef::Global { name: name("x", 0) }).is_none());
}

#[test]
fn assigning_to_an_input_variable_is_refused() {
    let input = VariableRef::Input { name: name("発言", 0) };
    let problems = validate_assignment_target(&input);
    assert_eq!(problems.len(), 1);
    assert_eq!(problems[0].code, "E-DHN-SEM-020");
    assert_eq!(problems[0].message, "入力#発言 には代入できません。");
    assert!(validate_assignment_target(&VariableRef::Global { name: name("x", 0) }).is_empty());
}

#[test]
fn jumps_must_name_a_scene_of_the_event() {
    let scenes = vec!["朝".to_string(), "夜".to_string()];
    assert!(validate_jump(&JumpTarget::Scene { name: name("夜", 0) }, &scenes).is_none());
    let missing = validate_jump(&JumpTarget::Scene { name: name("昼", 5) }, &scenes).unwrap();
    assert_eq!(missing.code, "E-DHN-SEM-006");
    assert_eq!(missing.message, "ジャンプ先シーン「昼」が存在しません。");
    assert_eq!(missing.labels[0].span, span(5, 8));
    assert!(validate_jump(&JumpTarget::EndEvent { span: span(0, 1) }, &Vec::new()).is_none());
}

#[test]
fn scene_names_must_be_present_and_distinct() {
    let event = name("起動", 0);
    let scenes = vec![name("朝", 10), name(" ", 20), name("朝", 30), name("朝", 40)];
    let problems = validate_scene_names(&event, span(0, 50), &scenes);
    let codes: Vec<&str> = problems.iter().map(|d| d.code.as_str()).collect();
    assert_eq!(codes, vec!["E-DHN-SEM-004", "E-DHN-SEM-005", "E-DHN-SEM-005"]);
    assert_eq!(problems[1].labels[1].span, span(10, 13));
    assert_eq!(problems[2].labels[1].span, span(30, 33));
    assert_eq!(problems[1].message, "シーン名「朝」が重複しています。");

    let empty = validate_scene_names(&name("  ", 0), span(0, 9), &Vec::new());
    let codes: Vec<&str> = empty.iter().map(|d| d.code.as_str()).collect();
    assert_eq!(codes, vec!["E-DHN-SEM-001", "E-DHN-SEM-003"]);
}

#[test]
fn builtin_time_variables_read_the_clock() {
    let now = CalendarTime {
        year: 2026,
        month: 6,
        day: 27,
        weekday_from_monday: 6,
        hour: 1,
        minute: 30,
        second: 5,
        millisecond: 250,
    };
    let local = |n: &str| VariableRef::EventLocal { name: name(n, 0) };
    assert_eq!(builtin_time_value(&local("年"), &now), Some(BuiltinTimeValue::Integer(2026)));
    assert_eq!(builtin_time_value(&local("週"), &now), Some(BuiltinTimeValue::Integer(4)));
    assert_eq!(
        builtin_time_value(&local("曜日"), &now),
        Some(BuiltinTimeValue::Text("土".to_string()))
    );
    assert_eq!(builtin_time_value(&local("ミリ秒"), &now), Some(BuiltinTimeValue::Integer(250)));
    assert_eq!(builtin_time_value(&local("好感度"), &now), None);
    assert_eq!(
        builtin_time_value(&VariableRef::Global { name: name("年", 0) }, &now),
        None
    );
}

fn param(name: &str, ty: ParamType, required: bool) -> ParamSpec {
    ParamSpec {
        name: Some(name.to_string()),
        ty,
        required,
    }
}

fn checking_registry() -> FunctionRegistry {
    let mut registry = FunctionRegistry::new();
    registry.register(FunctionSpec {
        name: "笑顔".to_string(),
        positional: vec![],
        named: Vec::new(),
        return_type: None,
    });
    registry.register(FunctionSpec {
        name: "ランダム".to_string(),
        positional: vec![
            param("min", ParamType::Number, true),
            param("max", ParamType::Number, true),
        ],
        named: Vec::new(),
        return_type: Some(ValueType::Number),
    });
    registry.register(FunctionSpec {
        name: "再生".to_string(),
        positional: vec![param("名前", ParamType::String, false)],
        named: vec![
            ("速さ".to_string(), param("速さ", ParamType::Number, false)),
            ("音量".to_string(), param("音量", ParamType::Number, true)),
        ],
        return_type: None,
    });
    registry
}

fn call(name: &str, positional: Vec<ArgKind>, named: Vec<(&str, ArgKind)>) -> CallShape {
    CallShape {
        name: Spanned::new(name.to_string(), span(0, 3)),
        positional: positional
            .into_iter()
            .enumerate()
            .map(|(index, kind)| CallArg {
                kind,
                span: span(10 + index, 11 + index),
            })
            .collect(),
        named: named
            .into_iter()
            .map(|(name, kind)| {
                (
                    name.to_string(),
                    CallArg {
                        kind,
                        span: span(20, 21),
                    },
                )
            })
            .collect(),
        span: span(0, 30),
    }
}

fn codes(diagnostics: &[DaihonDiagnostic]) -> Vec<&str> {
    diagnostics.iter().map(|d| d.code.as_str()).collect()
}

#[test]
fn validator_checks_function_registry() {
    let registry = checking_registry();
    let as_value = registry.validate_call(&call("笑顔", vec![], vec![]), true);
    assert_eq!(codes(&as_value), vec!["E-DHN-SEM-047"]);
    let unknown = registry.validate_call(&call("未知", vec![], vec![]), false);
    assert_eq!(codes(&unknown), vec!["E-DHN-SEM-040"]);
    assert_eq!(unknown[0].message, "未知の関数「未知」です。");
    let few = registry.validate_call(&call("ランダム", vec![ArgKind::Number], vec![]), false);
    assert_eq!(codes(&few), vec!["E-DHN-SEM-041"]);
    assert_eq!(few[0].message, "関数「ランダム」の位置引数が不足しています。最低2個必要です。");
}

#[test]
fn call_arguments_are_checked_against_parameter_types() {
    let registry = checking_registry();
    let wrong = registry.validate_call(
        &call("ランダム", vec![ArgKind::Number, ArgKind::String, ArgKind::Number], vec![]),
        true,
    );
    assert_eq!(codes(&wrong), vec!["E-DHN-SEM-042", "E-DHN-SEM-043"]);
    assert_eq!(wrong[0].message, "関数「ランダム」の位置引数が多すぎます。最大2個です。");
    assert_eq!(wrong[1].message, "関数「ランダム」の2番目の引数は Number が必要です。");
    assert_eq!(wrong[1].labels[0].span, span(11, 12));
    let fine = registry.validate_call(
        &call("再生", vec![ArgKind::BareWord], vec![("音量", ArgKind::Number)]),
        false,
    );
    assert!(fine.is_empty());
}

#[test]
fn named_arguments_must_be_known_typed_and_present_when_required() {
    let registry = checking_registry();
    let problems = registry.validate_call(
        &call(
            "再生",
            vec![ArgKind::Boolean],
            vec![("速さ", ArgKind::String), ("音色", ArgKind::Number)],
        ),
        false,
    );
    assert_eq!(
        codes(&problems),
        vec!["E-DHN-SEM-043", "E-DHN-SEM-044", "E-DHN-SEM-045", "E-DHN-SEM-046"]
    );
    assert_eq!(problems[1].message, "関数「再生」の名前付き引数「速さ」は Number が必要です。");
    assert_eq!(problems[2].message, "関数「再生」に「音色」という名前付き引数はありません。");
    assert_eq!(problems[3].message, "関数「再生」の名前付き引数「音量」が不足しています。");
}

#[test]
fn permissive_registries_let_unknown_functions_through() {
    let registry = FunctionRegistry::permissive();
    assert!(registry.validate_call(&call("未知", vec![], vec![]), true).is_empty());
}

#[test]
fn variables_keep_the_type_of_their_value() {
    let reference = VariableRef::Global { name: name("天気", 0) };
    assert!(check_assignable(&reference, ValueType::String, ValueType::String).is_ok());
    assert!(check_assignable(&reference, ValueType::Nothing, ValueType::Number).is_ok());
    assert!(check_assignable(&reference, ValueType::Number, ValueType::Nothing).is_ok());
    let error = check_assignable(&reference, ValueType::Number, ValueType::String).unwrap_err();
    assert_eq!(error.diagnostic.code, "E-DHN-RUN-020");
    assert_eq!(
        error.message,
        "全体#天気 は既に Number 型です。String 型の値は代入できません。"
    );
}

#[test]
fn jumps_go_to_the_named_scene_within_the_limit() {
    let scenes = vec!["朝".to_string(), "夜".to_string(), "夜".to_string()];
    assert_eq!(resolve_jump(&scenes, "夜", 1, 1000, span(0, 1)).unwrap(), 1);
    let missing = resolve_jump(&scenes, "昼", 1, 1000, span(0, 1)).unwrap_err();
    assert_eq!(missing.diagnostic.code, "E-DHN-RUN-031");
    assert_eq!(missing.message, "ジャンプ先シーン「昼」が見つかりません。");
    let looping = resolve_jump(&scenes, "朝", 1001, 1000, span(0, 1)).unwrap_err();
    assert_eq!(looping.diagnostic.code, "E-DHN-RUN-030");
}

#[test]
fn registering_again_replaces_and_keeps_the_count() {
    let mut registry = FunctionRegistry::new();
    registry.register(spec("表情", None));
    registry.register(spec("乱数", Some(ValueType::Number)));
    assert_eq!(registry.specs().len(), 2);
    registry.register(spec("表情", Some(ValueType::String)));
    assert_eq!(registry.specs().len(), 2);
    assert_eq!(registry.get("表情").unwrap().return_type, Some(ValueType::String));
}

#[test]
fn call_shape_reads_argument_kinds_from_a_call() {
    let call = yuukei::expr_text::parse_function_content("表情 笑顔 3 「やあ」 (1 + 2) 強さ=はい", span(0, 10)).unwrap();
    let shape = yuukei::function::call_shape(&call);
    assert_eq!(shape.name.value, "表情");
    let kinds: Vec<ArgKind> = shape.positional.iter().map(|a| a.kind).collect();
    assert_eq!(kinds, vec![ArgKind::BareWord, ArgKind::Number, ArgKind::String, ArgKind::Expr]);
    assert_eq!(shape.named.len(), 1);
    assert_eq!(shape.named[0].0, "強さ");
    assert_eq!(shape.named[0].1.kind, ArgKind::Boolean);
    let _ = CallArg { kind: ArgKind::Expr, span: span(0, 1) };
    let _: Option<CallShape> = None;
}
