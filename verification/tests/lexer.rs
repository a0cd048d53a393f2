use yuukei::diagnostic::Severity;
use yuukei::lexer::lex_source;
use yuukei::token::TokenKind;

#[test]
fn lexer_preserves_dialogue_comments_and_reports_unclosed() {
    let tokens = lex_source("## イベント\n### 場面\n「$$ コメントじゃない」＜笑顔＞\n").unwrap();
    assert!(tokens.iter().any(|token| {
        token.kind == TokenKind::DialogueText && token.original.contains("$$ コメントじゃない")
    }));

    let diagnostics = lex_source("## イベント\n### 場面\n「閉じない").unwrap_err();
    assert_eq!(diagnostics[0].code, "E-DHN-LEX-001");

    let diagnostics = lex_source("## イベント\n### 場面\n＜閉じない").unwrap_err();
    assert_eq!(diagnostics[0].code, "E-DHN-LEX-002");
}

#[test]
fn lexer_reads_headers_dialogue_and_function_calls_in_order() {
    let tokens = lex_source("## 起動\n### 挨拶\n「こんにちは」\n").unwrap();
    let kinds: Vec<TokenKind> = tokens.iter().map(|token| token.kind).collect();
    assert_eq!(kinds[0], TokenKind::EventHeader);
    assert!(kinds.contains(&TokenKind::SceneHeader));
    assert!(kinds.contains(&TokenKind::DialogueOpen));
    assert!(kinds.contains(&TokenKind::DialogueClose));
    for pair in tokens.windows(2) {
        assert!(pair[0].span.end <= pair[1].span.start);
    }
    let text = tokens
        .iter()
        .find(|token| token.kind == TokenKind::DialogueText)
        .unwrap();
    assert_eq!(text.original, "こんにちは");
}

#[test]
fn lexer_token_spans_point_into_the_source() {
    let source = "## 起動\n### 挨拶\n好感度=10\n";
    let tokens = lex_source(source).unwrap();
    for token in &tokens {
        assert_eq!(&source[token.span.start..token.span.end], token.original);
        assert!(token.span.line >= 1);
        assert!(token.span.column >= 1);
    }
    assert!(tokens
        .iter()
        .any(|token| token.kind == TokenKind::Number && token.original == "10"));
}

#[test]
fn lexer_errors_are_all_errors_and_end_with_the_unclosed_call() {
    let diagnostics = lex_source("## イベント\n### 場面\n＜笑顔").unwrap_err();
    assert!(!diagnostics.is_empty());
    assert!(diagnostics
        .iter()
        .all(|diagnostic| diagnostic.severity == Severity::Error));
    assert_eq!(diagnostics.last().unwrap().code, "E-DHN-LEX-002");
}

#[test]
fn lexing_comes_to_the_end_except_on_a_lone_bracket_in_dialogue() {
    assert!(yuukei::lexer::lexes_to_end("## a\n### b\n「こんにちは」\n"));
    assert!(yuukei::lexer::lexes_to_end("「閉じない"));
    assert!(!yuukei::lexer::lexes_to_end("「a「b」"));
}
