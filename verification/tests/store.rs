use yuukei::span::{Span, Spanned};
use yuukei::value::{DaihonNumber, DaihonValue, ValueType};
use yuukei::history::{InMemorySceneHistory, Timestamp};
use yuukei::variable::{InMemoryVariableStore, VariableRef};

fn named(text: &str) -> Spanned<String> {
    Spanned::new(text.to_owned(), Span::new(0, text.len(), 1, 1))
}

fn local(text: &str) -> VariableRef {
    VariableRef::EventLocal { name: named(text) }
}

fn number(value: i64) -> DaihonValue {
    DaihonValue::Number(DaihonNumber::Integer(value))
}

#[test]
fn a_value_given_is_read_back() {
    let mut store = InMemoryVariableStore::new();
    assert!(!store.is_defined(&local("好感度")));
    store.set_value(&local("好感度"), number(3)).unwrap();
    assert!(store.is_defined(&local("好感度")));
    assert_eq!(store.get_value(&local("好感度")).unwrap(), number(3));
    let global = VariableRef::Global { name: named("天気") };
    store.set_value(&global, DaihonValue::String("晴れ".to_owned())).unwrap();
    assert_eq!(store.get_value(&global).unwrap(), DaihonValue::String("晴れ".to_owned()));
    let keys: Vec<&str> = store.values().iter().map(|(k, _)| k.as_str()).collect();
    assert_eq!(keys, vec!["全体#天気", "好感度"]);
}

#[test]
fn a_variable_keeps_its_type() {
    let mut store = InMemoryVariableStore::new();
    store.set_value(&local("x"), number(1)).unwrap();
    let error = store.set_value(&local("x"), DaihonValue::Boolean(true)).unwrap_err();
    assert_eq!(error.diagnostic.code, "E-DHN-RUN-020");
    assert_eq!(error.message, "x は既に Number 型です。Boolean 型の値は代入できません。");
    assert_eq!(store.get_value(&local("x")).unwrap(), number(1));
    store.set_value(&local("x"), DaihonValue::Nothing).unwrap();
    store.set_value(&local("x"), DaihonValue::Boolean(true)).unwrap();
    assert_eq!(store.get_value(&local("x")).unwrap().value_type(), ValueType::Boolean);
}

#[test]
fn inputs_are_read_only() {
    let store = InMemoryVariableStore::new().with_input("発言".to_owned(), DaihonValue::String("やあ".to_owned()));
    let input = VariableRef::Input { name: named("発言") };
    assert_eq!(store.get_value(&input).unwrap(), DaihonValue::String("やあ".to_owned()));
    let mut store = store;
    let error = store.set_value(&input, number(1)).unwrap_err();
    assert_eq!(error.diagnostic.code, "E-DHN-RUN-013");
    assert_eq!(error.message, "入力#発言 には代入できません。");
    let error = store.set_default_value(&input, number(1)).unwrap_err();
    assert_eq!(error.diagnostic.code, "E-DHN-RUN-014");
    let missing = VariableRef::Input { name: named("無い") };
    let error = store.get_value(&missing).unwrap_err();
    assert_eq!(error.diagnostic.code, "E-DHN-RUN-010");
    assert_eq!(error.message, "入力#無い は渡されていません。");
}

#[test]
fn starting_values_do_not_replace_values() {
    let mut store = InMemoryVariableStore::new();
    store.set_default_value(&local("回数"), number(0)).unwrap();
    assert_eq!(store.get_value(&local("回数")).unwrap(), number(0));
    store.set_value(&local("回数"), number(5)).unwrap();
    store.set_default_value(&local("回数"), number(0)).unwrap();
    assert_eq!(store.get_value(&local("回数")).unwrap(), number(5));
}

#[test]
fn temporaries_are_forgotten() {
    let mut store = InMemoryVariableStore::new();
    let temporary = VariableRef::Temporary { name: named("_一時") };
    store.set_value(&temporary, number(1)).unwrap();
    store.set_value(&local("残る"), number(2)).unwrap();
    store.clear_temporary_variables();
    assert!(!store.is_defined(&temporary));
    assert_eq!(store.get_value(&local("残る")).unwrap(), number(2));
    let error = store.get_value(&temporary).unwrap_err();
    assert_eq!(error.diagnostic.code, "E-DHN-RUN-012");
    assert_eq!(error.message, "_一時 はまだ定義されていません。");
}

#[test]
fn unsupported_scopes_cannot_be_read() {
    let store = InMemoryVariableStore::new();
    let reference = VariableRef::Unsupported { scope: named("端末"), parts: vec![named("名前")] };
    let error = store.get_value(&reference).unwrap_err();
    assert_eq!(error.diagnostic.code, "E-DHN-RUN-011");
    assert!(!store.is_defined(&reference));
}

#[test]
fn scene_history_gives_back_the_last_run() {
    use_history();
}

fn use_history() {
    let mut history = InMemorySceneHistory::new();
    let first = Timestamp { seconds: 1_700_000_000, nanos: 5, offset_seconds: 32_400 };
    let second = Timestamp { seconds: 1_700_000_600, nanos: 0, offset_seconds: 32_400 };
    assert_eq!(history.last_executed_at("起動", "挨拶"), None);
    history.record_executed("起動", "挨拶", first);
    history.record_executed("起動", "雑談", second);
    assert_eq!(history.last_executed_at("起動", "挨拶"), Some(first));
    assert_eq!(history.last_executed_at("起動", "雑談"), Some(second));
    history.record_executed("起動", "挨拶", second);
    assert_eq!(history.last_executed_at("起動", "挨拶"), Some(second));
    assert_eq!(history.last_executed_at("終了", "挨拶"), None);
}
