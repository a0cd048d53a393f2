use yuukei::span::Span;
use yuukei::syntax::{
    char_levenshtein, find_assignment_index, is_known_metadata_key, is_scene_header,
    is_section_start, logical_lines, parse_header, parse_jump, LogicalLine, metadata_key_maybe_typo, normalize_line_head, parse_duration,
    parse_time, parse_variable_ref, split_function_args, split_metadata_line, strip_wrapped_paren,
    suggest_metadata_key, trim_condition_wrapper, trim_nara, relative_span, span_for_substr,
    split_speaker_prefix,
};
use yuukei::ast::JumpTarget;
use yuukei::variable::VariableRef;

#[test]
fn logical_lines_keep_dialogue_line_breaks_and_cut_comments() {
    let source = "## 起動\n### 挨拶\n「こんにちは\nさようなら」\n好感度=1 $$ メモ\n";
    let lines = logical_lines(source);
    let texts: Vec<&str> = lines.iter().map(|line| line.text.as_str()).collect();
    assert_eq!(
        texts,
        vec!["## 起動", "### 挨拶", "「こんにちは\nさようなら」", "好感度=1 "]
    );
    for (index, line) in lines.iter().enumerate() {
        assert_eq!(&source[line.span.start..line.span.end], line.text);
        assert_eq!(line.span.line, index + 1);
        assert_eq!(line.span.column, 1);
    }
}

#[test]
fn logical_lines_treat_crlf_as_one_break_and_drop_an_empty_tail() {
    let lines = logical_lines("a\r\nb\r\n");
    let texts: Vec<&str> = lines.iter().map(|line| line.text.as_str()).collect();
    assert_eq!(texts, vec!["a", "b"]);
    assert_eq!(lines[1].span, Span::new(3, 4, 2, 1));
    let lines = logical_lines("x\n\ny");
    let texts: Vec<&str> = lines.iter().map(|line| line.text.as_str()).collect();
    assert_eq!(texts, vec!["x", "", "y"]);
    assert!(logical_lines("").is_empty());
}

#[test]
fn logical_lines_keep_function_calls_and_fullwidth_comments() {
    let source = "＜笑顔\n「引数」＞\nつぎ ＄＄ 全角コメント\n$$ 行全体";
    let lines = logical_lines(source);
    let texts: Vec<&str> = lines.iter().map(|line| line.text.as_str()).collect();
    assert_eq!(texts, vec!["＜笑顔\n「引数」＞", "つぎ "]);
}

#[test]
fn function_arguments_split_at_blanks_outside_brackets() {
    assert_eq!(
        split_function_args("「お出かけ OK？」 (入力#発言)  ＜笑顔 大＞　三"),
        vec!["「お出かけ OK？」", "(入力#発言)", "＜笑顔 大＞", "三"]
    );
    assert_eq!(split_function_args("   "), Vec::<String>::new());
    assert_eq!(split_function_args("a\tb"), vec!["a", "b"]);
}

#[test]
fn assignments_are_found_outside_strings_and_comparisons() {
    assert_eq!(find_assignment_index("好感度=1"), Some("好感度".len()));
    assert_eq!(find_assignment_index("a == b"), Some(3));
    assert_eq!(find_assignment_index("a==b"), Some(2));
    assert_eq!(find_assignment_index("a != b"), None);
    assert_eq!(find_assignment_index("a <= b"), None);
    assert_eq!(find_assignment_index("「x=1」"), None);
    assert_eq!(find_assignment_index("＜f a=1＞"), None);
    assert_eq!(find_assignment_index("x ＝ 2"), Some(2));
    assert_eq!(find_assignment_index("(a=b) c=d"), Some(7));
}

#[test]
fn edit_distances_count_characters() {
    assert_eq!(char_levenshtein("", ""), 0);
    assert_eq!(char_levenshtein("kitten", "sitting"), 3);
    assert_eq!(char_levenshtein("優先度", "優先"), 1);
    assert_eq!(char_levenshtein("条件", "条件"), 0);
    assert_eq!(char_levenshtein("", "abc"), 3);
}

#[test]
fn metadata_keys_and_their_likely_misspellings() {
    assert!(is_known_metadata_key("合図"));
    assert!(is_known_metadata_key("初期値"));
    assert!(!is_known_metadata_key("合い図"));
    assert!(metadata_key_maybe_typo("優先", "優先度"));
    assert!(!metadata_key_maybe_typo("先度", "優先度"));
    assert_eq!(suggest_metadata_key("優先"), Some("優先度".to_string()));
    assert_eq!(suggest_metadata_key("クールダン"), Some("クールダウン".to_string()));
    assert_eq!(suggest_metadata_key("全然違う"), None);
    assert_eq!(suggest_metadata_key(""), None);
}

#[test]
fn variable_references_are_read_by_scope() {
    let span = Span::new(0, 9, 1, 1);
    match parse_variable_ref(" 全体＃天気 ", span) {
        VariableRef::Global { name } => {
            assert_eq!(name.value, "天気");
            assert_eq!(name.span, span);
        }
        other => panic!("unexpected {other:?}"),
    }
    assert!(matches!(parse_variable_ref("_一時", span), VariableRef::Temporary { .. }));
    assert!(matches!(parse_variable_ref("好感度", span), VariableRef::EventLocal { .. }));
    assert!(matches!(parse_variable_ref("入力#発言", span), VariableRef::Input { .. }));
    assert!(matches!(parse_variable_ref("住人#ミカ#好感度", span), VariableRef::Resident { .. }));
    assert!(matches!(parse_variable_ref("関係#a#b#c", span), VariableRef::Relation { .. }));
    match parse_variable_ref("端末#電池#残量", span) {
        VariableRef::Unsupported { scope, parts } => {
            assert_eq!(scope.value, "端末");
            assert_eq!(parts.len(), 2);
            assert_eq!(parts[1].value, "残量");
        }
        other => panic!("unexpected {other:?}"),
    }
    assert_eq!(parse_variable_ref("全体#天気", span).display_name(), "全体#天気");
}

#[test]
fn times_of_day_are_checked_against_the_clock() {
    let span = Span::new(0, 5, 1, 1);
    let time = parse_time("22:30", span).unwrap();
    assert_eq!((time.hour, time.minute), (22, 30));
    let time = parse_time("２：０５", span).unwrap();
    assert_eq!((time.hour, time.minute), (2, 5));
    assert_eq!(parse_time("24:00", span).unwrap_err().code, "E-DHN-SYN-067");
    assert!(parse_time("12:60", span).is_err());
    assert!(parse_time("12", span).is_err());
    assert!(parse_time("a:b", span).is_err());
}

#[test]
fn durations_are_read_in_seconds() {
    assert_eq!(parse_duration("30秒"), Some(30));
    assert_eq!(parse_duration(" 5分 "), Some(300));
    assert_eq!(parse_duration("2時間"), Some(7200));
    assert_eq!(parse_duration("1日"), Some(86400));
    assert_eq!(parse_duration("10 s"), Some(10));
    assert_eq!(parse_duration("３ｍ"), Some(180));
    assert_eq!(parse_duration("5年"), None);
    assert_eq!(parse_duration("秒"), None);
}

#[test]
fn line_heads_sections_and_metadata() {
    assert_eq!(normalize_line_head("  ＃＃＃ 場面 "), "### 場面");
    assert!(is_scene_header("＃＃＃ 場面"));
    assert!(!is_scene_header("## 起動"));
    assert!(is_section_start("前提条件："));
    assert!(is_section_start(" 初期値:"));
    assert!(!is_section_start("条件:"));
    assert_eq!(
        split_metadata_line("優先度 : 20"),
        Some(("優先度".to_string(), " 20".to_string()))
    );
    assert_eq!(split_metadata_line("なし"), None);
}

#[test]
fn wrapping_parentheses_are_removed_once() {
    assert_eq!(strip_wrapped_paren(" （好感度 10 以上） "), Some("好感度 10 以上".to_string()));
    assert_eq!(strip_wrapped_paren("(a)(b)"), Some("a)(b".to_string()));
    assert_eq!(strip_wrapped_paren("a"), None);
    assert_eq!(trim_condition_wrapper(" ((x)) "), "(x)");
    assert_eq!(trim_condition_wrapper(" x "), "x");
}

#[test]
fn headers_give_their_trimmed_name_and_the_line_span() {
    let span = Span::new(0, 12, 1, 1);
    let line = LogicalLine {
        text: "  ＃＃＃ 挨拶 ".to_string(),
        span,
    };
    let scene = parse_header(&line, "###").unwrap();
    assert_eq!(scene.value, "挨拶");
    assert_eq!(scene.span, span);
    let event = parse_header(&line, "##").unwrap();
    assert_eq!(event.value, "# 挨拶");
    let plain = LogicalLine {
        text: "「こんにちは」".to_string(),
        span,
    };
    assert!(parse_header(&plain, "##").is_none());
}

#[test]
fn jumps_end_the_event_or_scene_or_name_a_scene() {
    let span = Span::new(0, 3, 1, 1);
    assert_eq!(parse_jump("→おわり", span), JumpTarget::EndEvent { span });
    assert_eq!(parse_jump(" →→シーンおわり ", span), JumpTarget::EndScene { span });
    match parse_jump("→ 夜", span) {
        JumpTarget::Scene { name } => {
            assert_eq!(name.value, "夜");
            assert_eq!(name.span, span);
        }
        other => panic!("unexpected {other:?}"),
    }
}

#[test]
fn trim_nara_removes_the_opening_nara() {
    assert_eq!(trim_nara("なら 「はい」"), "「はい」");
    assert_eq!(trim_nara("ならなら  x"), "x");
    assert_eq!(trim_nara("それなら"), "それなら");
}

#[test]
fn relative_spans_count_characters_for_columns() {
    let base = Span::new(10, 40, 3, 5);
    let text = "あいう=1";
    // "あいう" takes nine bytes; byte 9 is the fourth character.
    assert_eq!(relative_span(base, text, 9, 10), Span::new(19, 20, 3, 8));
    // A byte inside a character moves the column by the byte count itself.
    assert_eq!(relative_span(base, text, 1, 2), Span::new(11, 12, 3, 6));
}

#[test]
fn span_for_substr_finds_the_first_occurrence() {
    let line = LogicalLine { text: "好感度=好感度+1".to_owned(), span: Span::new(100, 122, 4, 1) };
    assert_eq!(span_for_substr(&line, "好感度+1"), Span::new(110, 121, 4, 5));
    assert_eq!(span_for_substr(&line, ""), line.span);
    assert_eq!(span_for_substr(&line, "無い"), Span::new(100, 106, 4, 1));
}

#[test]
fn speaker_prefixes_are_cut_at_the_colon() {
    assert_eq!(
        split_speaker_prefix("ユウ: 「こんにちは」"),
        Some(("ユウ".to_owned(), " 「こんにちは」".to_owned()))
    );
    assert_eq!(split_speaker_prefix("条件: はい"), None);
    assert_eq!(split_speaker_prefix(" : 「x」"), None);
    assert_eq!(split_speaker_prefix("「x」"), None);
    // The full-width colon shrinks to one byte when normalized, so the cut falls inside
    // the speaker's name and is refused.
    assert_eq!(split_speaker_prefix("ユウ：「x」"), None);
}
