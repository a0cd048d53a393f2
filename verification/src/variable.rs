use vstd::prelude::*;
use crate::span::{Span, Spanned};
use crate::diagnostic::DaihonRuntimeError;
use crate::text::str_is;
use crate::diagnostic::Severity;
use crate::textmap::{entries_map, keys_ascending, underscored, TextMap};
use crate::value::{DaihonValue, ValueType};

verus! {

/// A reference to a Daihon variable, by scope.
#[derive(Clone, Debug, PartialEq, Eq, Hash, PartialOrd, Ord)]
pub enum VariableRef {
    EventLocal { name: Spanned<String> },
    Temporary { name: Spanned<String> },
    Global { name: Spanned<String> },
    Input { name: Spanned<String> },
    Resident { actor: Spanned<String>, name: Spanned<String> },
    Relation { subject: Spanned<String>, object: Spanned<String>, name: Spanned<String> },
    Unsupported { scope: Spanned<String>, parts: Vec<Spanned<String>> },
}

/// `start` joined, left to right, with the span of every part.
pub open spec fn join_spans(start: Span, parts: Seq<Spanned<String>>) -> Span
    decreases parts.len(),
{
    if parts.len() == 0 {
        start
    } else {
        join_spans(start, parts.drop_last()).spec_join(parts.last().span)
    }
}

/// The texts of the parts.
pub open spec fn part_texts(parts: Seq<Spanned<String>>) -> Seq<Seq<char>> {
    parts.map_values(|p: Spanned<String>| p.value@)
}

/// The texts joined with `#` between neighbours.
pub open spec fn hash_joined(texts: Seq<Seq<char>>) -> Seq<char>
    decreases texts.len(),
{
    if texts.len() == 0 {
        Seq::empty()
    } else if texts.len() == 1 {
        texts[0]
    } else {
        hash_joined(texts.drop_last()) + "#"@ + texts.last()
    }
}

impl VariableRef {
    /// The source span that the reference covers.
    pub open spec fn spec_span(&self) -> Span {
        match self {
            VariableRef::EventLocal { name } => name.span,
            VariableRef::Temporary { name } => name.span,
            VariableRef::Global { name } => name.span,
            VariableRef::Input { name } => name.span,
            VariableRef::Resident { actor, name } => actor.span.spec_join(name.span),
            VariableRef::Relation { subject, object, name } =>
                subject.span.spec_join(object.span).spec_join(name.span),
            VariableRef::Unsupported { scope, parts } => join_spans(scope.span, parts@),
        }
    }

    /// The name under which the variable is shown and stored.
    pub open spec fn spec_display_name(&self) -> Seq<char> {
        match self {
            VariableRef::EventLocal { name } => name.value@,
            VariableRef::Temporary { name } => name.value@,
            VariableRef::Global { name } => "全体#"@ + name.value@,
            VariableRef::Input { name } => "入力#"@ + name.value@,
            VariableRef::Resident { actor, name } => "住人#"@ + actor.value@ + "#"@ + name.value@,
            VariableRef::Relation { subject, object, name } =>
                "関係#"@ + subject.value@ + "#"@ + object.value@ + "#"@ + name.value@,
            VariableRef::Unsupported { scope, parts } => {
                let rest = hash_joined(part_texts(parts@));
                if rest.len() == 0 {
                    scope.value@
                } else {
                    scope.value@ + "#"@ + rest
                }
            },
        }
    }

    /// The source span that the reference covers.
    pub fn span(&self) -> (s: Span)
        ensures
            s == self.spec_span(),
    {
        match self {
            VariableRef::EventLocal { name } => name.span,
            VariableRef::Temporary { name } => name.span,
            VariableRef::Global { name } => name.span,
            VariableRef::Input { name } => name.span,
            VariableRef::Resident { actor, name } => actor.span.join(name.span),
            VariableRef::Relation { subject, object, name } =>
                subject.span.join(object.span).join(name.span),
            VariableRef::Unsupported { scope, parts } => {
                let mut span = scope.span;
                let mut i: usize = 0;
                while i < parts.len()
                    invariant
                        i <= parts@.len(),
                        span == join_spans(scope.span, parts@.take(i as int)),
                    decreases parts@.len() - i,
                {
                    proof {
                        assert(parts@.take(i as int + 1).drop_last() =~= parts@.take(i as int));
                    }
                    span = span.join(parts[i].span);
                    i += 1;
                }
                proof {
                    assert(parts@.take(parts@.len() as int) =~= parts@);
                }
                span
            },
        }
    }

    /// The name under which the variable is shown and stored.
    pub fn display_name(&self) -> (s: String)
        ensures
            s@ == self.spec_display_name(),
    {
        match self {
            VariableRef::EventLocal { name } => name.value.clone(),
            VariableRef::Temporary { name } => name.value.clone(),
            VariableRef::Global { name } => {
                let mut s = "全体#".to_owned();
                s.append(name.value.as_str());
                s
            },
            VariableRef::Input { name } => {
                let mut s = "入力#".to_owned();
                s.append(name.value.as_str());
                s
            },
            VariableRef::Resident { actor, name } => {
                let mut s = "住人#".to_owned();
                s.append(actor.value.as_str());
                s.append("#");
                s.append(name.value.as_str());
                s
            },
            VariableRef::Relation { subject, object, name } => {
                let mut s = "関係#".to_owned();
                s.append(subject.value.as_str());
                s.append("#");
                s.append(object.value.as_str());
                s.append("#");
                s.append(name.value.as_str());
                s
            },
            VariableRef::Unsupported { scope, parts } => {
                let rest = hash_join_parts(parts);
                if rest.as_str().unicode_len() == 0 {
                    scope.value.clone()
                } else {
                    let mut s = scope.value.clone();
                    s.append("#");
                    s.append(rest.as_str());
                    s
                }
            },
        }
    }

    /// Only input variables are read-only.
    pub fn is_read_only(&self) -> (b: bool)
        ensures
            b == (self is Input),
    {
        match self {
            VariableRef::Input { .. } => true,
            _ => false,
        }
    }
}

/// The texts of the parts joined with `#`.
fn hash_join_parts(parts: &Vec<Spanned<String>>) -> (s: String)
    ensures
        s@ == hash_joined(part_texts(parts@)),
{
    let mut s = String::new();
    let mut i: usize = 0;
    while i < parts.len()
        invariant
            i <= parts@.len(),
            s@ == hash_joined(part_texts(parts@.take(i as int))),
        decreases parts@.len() - i,
    {
        let ghost before = part_texts(parts@.take(i as int));
        proof {
            let after = part_texts(parts@.take(i as int + 1));
            assert(after.drop_last() =~= before);
            assert(after.last() == parts@[i as int].value@);
            assert(after.len() == i + 1);
            if i == 0 {
                assert(before.len() == 0);
                assert(s@ =~= Seq::<char>::empty());
            }
        }
        if i > 0 {
            s.append("#");
        }
        s.append(parts[i].value.as_str());
        proof {
            if i == 0 {
                assert(s@ =~= parts@[0].value@);
            }
        }
        i += 1;
    }
    proof {
        assert(parts@.take(parts@.len() as int) =~= parts@);
    }
    s
}

} // verus!
verus! {

/// The clock reading that the built-in time variables are read from.
#[derive(Clone, Copy, Debug, PartialEq, Eq)]
pub struct CalendarTime {
    pub year: i32,
    pub month: u32,
    pub day: u32,
    pub weekday_from_monday: u32,
    pub hour: u32,
    pub minute: u32,
    pub second: u32,
    pub millisecond: u32,
}

/// The value of a built-in time variable: a number, or the name of the weekday.
#[derive(Clone, Debug, PartialEq, Eq)]
pub enum BuiltinTimeValue {
    Integer(i64),
    Text(String),
}

/// The one-character name of a weekday numbered from Monday (1) on.
pub open spec fn weekday_name(n: u32) -> Seq<char> {
    if n == 1 {
        "月"@
    } else if n == 2 {
        "火"@
    } else if n == 3 {
        "水"@
    } else if n == 4 {
        "木"@
    } else if n == 5 {
        "金"@
    } else if n == 6 {
        "土"@
    } else {
        "日"@
    }
}

/// The number a built-in time variable of the given name reads from the clock, if it is one
/// that reads a number: 年, 月, 日, 週 (the week of the month, from 1), 時, 分, 秒, ミリ秒.
pub open spec fn builtin_time_number(name: Seq<char>, now: CalendarTime) -> Option<int> {
    if name == "年"@ {
        Some(now.year as int)
    } else if name == "月"@ {
        Some(now.month as int)
    } else if name == "日"@ {
        Some(now.day as int)
    } else if name == "週"@ {
        Some((now.day - 1) / 7 + 1)
    } else if name == "時"@ {
        Some(now.hour as int)
    } else if name == "分"@ {
        Some(now.minute as int)
    } else if name == "秒"@ {
        Some(now.second as int)
    } else if name == "ミリ秒"@ {
        Some(now.millisecond as int)
    } else {
        None
    }
}

/// The value of a built-in time variable: event-local names only; 曜日 gives the weekday's
/// name, the others the number `builtin_time_number` reads; any other reference has none.
pub fn builtin_time_value(reference: &VariableRef, now: &CalendarTime) -> (r: Option<BuiltinTimeValue>)
    requires
        now.day >= 1,
    ensures
        match reference {
            VariableRef::EventLocal { name } => if name.value@ == "曜日"@ {
                r matches Some(BuiltinTimeValue::Text(t)) && t@ == weekday_name(now.weekday_from_monday)
            } else {
                match builtin_time_number(name.value@, *now) {
                    Some(n) => r == Some(BuiltinTimeValue::Integer(n as i64)),
                    None => r is None,
                }
            },
            _ => r is None,
        },
{
    let name = match reference {
        VariableRef::EventLocal { name } => name.value.as_str(),
        _ => {
            return None;
        },
    };
    if str_is(name, "曜日") {
        let day = match now.weekday_from_monday {
            1 => "月",
            2 => "火",
            3 => "水",
            4 => "木",
            5 => "金",
            6 => "土",
            _ => "日",
        };
        return Some(BuiltinTimeValue::Text(day.to_owned()));
    }
    if str_is(name, "年") {
        Some(BuiltinTimeValue::Integer(now.year as i64))
    } else if str_is(name, "月") {
        Some(BuiltinTimeValue::Integer(now.month as i64))
    } else if str_is(name, "日") {
        Some(BuiltinTimeValue::Integer(now.day as i64))
    } else if str_is(name, "週") {
        Some(BuiltinTimeValue::Integer(((now.day - 1) / 7 + 1) as i64))
    } else if str_is(name, "時") {
        Some(BuiltinTimeValue::Integer(now.hour as i64))
    } else if str_is(name, "分") {
        Some(BuiltinTimeValue::Integer(now.minute as i64))
    } else if str_is(name, "秒") {
        Some(BuiltinTimeValue::Integer(now.second as i64))
    } else if str_is(name, "ミリ秒") {
        Some(BuiltinTimeValue::Integer(now.millisecond as i64))
    } else {
        None
    }
}

} // verus!
verus! {

/// The name of a value type as messages show it.
pub open spec fn value_type_label(ty: ValueType) -> Seq<char> {
    match ty {
        ValueType::Nothing => "None"@,
        ValueType::Number => "Number"@,
        ValueType::String => "String"@,
        ValueType::Boolean => "Boolean"@,
    }
}

fn value_type_label_exec(ty: ValueType) -> (s: &'static str)
    ensures
        s@ == value_type_label(ty),
{
    match ty {
        ValueType::Nothing => "None",
        ValueType::Number => "Number",
        ValueType::String => "String",
        ValueType::Boolean => "Boolean",
    }
}

/// A variable that holds a value of one type cannot be given a value of another; the empty
/// value fits any variable and any variable may be emptied.
pub open spec fn assignable(existing: ValueType, value: ValueType) -> bool {
    existing == ValueType::Nothing || value == ValueType::Nothing || existing == value
}

/// Checks that a variable holding a value of type `existing` may be given a value of type
/// `value`; otherwise the error names the variable and both types.
pub fn check_assignable(reference: &VariableRef, existing: ValueType, value: ValueType)
    -> (r: Result<(), DaihonRuntimeError>)
    ensures
        assignable(existing, value) ==> r is Ok,
        !assignable(existing, value) ==> (r matches Err(e) && e.diagnostic.code@ == "E-DHN-RUN-020"@
            && e.message@ == reference.spec_display_name() + " は既に "@ + value_type_label(existing)
            + " 型です。"@ + value_type_label(value) + " 型の値は代入できません。"@
            && e.diagnostic.labels@.len() == 1 && e.diagnostic.labels@[0].span == reference.spec_span()),
{
    if existing != ValueType::Nothing && value != ValueType::Nothing && existing != value {
        let mut message = reference.display_name();
        message.append(" は既に ");
        message.append(value_type_label_exec(existing));
        message.append(" 型です。");
        message.append(value_type_label_exec(value));
        message.append(" 型の値は代入できません。");
        return Err(DaihonRuntimeError::new("E-DHN-RUN-020", message.as_str(), reference.span()));
    }
    Ok(())
}

} // verus!
verus! {

/// `e` is the error with the given code and message, pointing at `span`.
pub open spec fn runtime_error_is(e: DaihonRuntimeError, code: Seq<char>, message: Seq<char>, span: Span) -> bool {
    &&& e.message@ == message
    &&& e.diagnostic.severity == Severity::Error
    &&& e.diagnostic.code@ == code
    &&& e.diagnostic.message@ == message
    &&& e.diagnostic.labels@.len() == 1
    &&& e.diagnostic.labels@[0].span == span
}

/// Script variables held in memory by their display names, beside the input values a run
/// was given, by name.
pub struct InMemoryVariableStore {
    values: TextMap<DaihonValue>,
    input_values: TextMap<DaihonValue>,
}

/// The value a store with the variables `values` and the inputs `inputs` holds for a
/// reference, if it holds one: inputs by name, other variables by display name, and nothing
/// for a reference of an unsupported scope.
pub open spec fn stored_value(
    values: Map<Seq<char>, DaihonValue>,
    inputs: Map<Seq<char>, DaihonValue>,
    reference: VariableRef,
) -> Option<DaihonValue> {
    match reference {
        VariableRef::Input { name } => if inputs.dom().contains(name.value@) {
            Some(inputs[name.value@])
        } else {
            None
        },
        VariableRef::Unsupported { .. } => None,
        _ => {
            let key = reference.spec_display_name();
            if values.dom().contains(key) {
                Some(values[key])
            } else {
                None
            }
        },
    }
}

impl InMemoryVariableStore {
    /// The script variables by display name.
    pub closed spec fn spec_values(&self) -> Map<Seq<char>, DaihonValue> {
        self.values@
    }

    /// The input values by name.
    pub closed spec fn spec_inputs(&self) -> Map<Seq<char>, DaihonValue> {
        self.input_values@
    }

    /// The store's invariant.
    pub closed spec fn wf(&self) -> bool {
        self.values.wf() && self.input_values.wf()
    }

    /// An empty store.
    pub fn new() -> (s: InMemoryVariableStore)
        ensures
            s.wf(),
            s.spec_values() == Map::<Seq<char>, DaihonValue>::empty(),
            s.spec_inputs() == Map::<Seq<char>, DaihonValue>::empty(),
    {
        InMemoryVariableStore { values: TextMap::new(), input_values: TextMap::new() }
    }

    /// The store with the input `name` set to `value`.
    pub fn with_input(self, name: String, value: DaihonValue) -> (s: InMemoryVariableStore)
        requires
            self.wf(),
        ensures
            s.wf(),
            s.spec_inputs() == self.spec_inputs().insert(name@, value),
            s.spec_values() == self.spec_values(),
    {
        let mut s = self;
        s.input_values.insert(name, value);
        s
    }

    /// The script variables in name order.
    pub fn values(&self) -> (v: &[(String, DaihonValue)])
        requires
            self.wf(),
        ensures
            keys_ascending(v@),
            entries_map(v@) == self.spec_values(),
    {
        proof {
            self.values.lemma_entries_are_view();
        }
        self.values.as_slice()
    }

    /// The key a variable is stored under: its display name.
    fn key(reference: &VariableRef) -> (k: String)
        ensures
            k@ == reference.spec_display_name(),
    {
        reference.display_name()
    }

    /// A variable holding `existing` may be given `value` only when their types agree or one
    /// of them is the empty value.
    fn check_type(reference: &VariableRef, existing: &DaihonValue, value: &DaihonValue) -> (r: Result<
        (),
        DaihonRuntimeError,
    >)
        ensures
            assignable(existing.spec_value_type(), value.spec_value_type()) ==> r is Ok,
            !assignable(existing.spec_value_type(), value.spec_value_type()) ==> (r matches Err(e)
                && e.diagnostic.code@ == "E-DHN-RUN-020"@ && e.message@ == reference.spec_display_name()
                + " は既に "@ + value_type_label(existing.spec_value_type()) + " 型です。"@
                + value_type_label(value.spec_value_type()) + " 型の値は代入できません。"@
                && e.diagnostic.labels@.len() == 1 && e.diagnostic.labels@[0].span == reference.spec_span()),
    {
        check_assignable(reference, existing.value_type(), value.value_type())
    }

    /// Whether the store holds a value for the reference.
    pub fn is_defined(&self, reference: &VariableRef) -> (b: bool)
        requires
            self.wf(),
        ensures
            b == stored_value(self.spec_values(), self.spec_inputs(), *reference) is Some,
    {
        match reference {
            VariableRef::Input { name } => self.input_values.contains_key(name.value.as_str()),
            VariableRef::Unsupported { .. } => false,
            _ => self.values.contains_key(Self::key(reference).as_str()),
        }
    }

    /// The value the store holds for the reference; an input that was not given, a
    /// reference of an unsupported scope, and a variable not yet defined are errors.
    pub fn get_value(&self, reference: &VariableRef) -> (r: Result<DaihonValue, DaihonRuntimeError>)
        requires
            self.wf(),
        ensures
            match stored_value(self.spec_values(), self.spec_inputs(), *reference) {
                Some(v) => r == Ok::<DaihonValue, DaihonRuntimeError>(v),
                None => r matches Err(e) && match *reference {
                    VariableRef::Input { name } => runtime_error_is(
                        e,
                        "E-DHN-RUN-010"@,
                        "入力#"@ + name.value@ + " は渡されていません。"@,
                        name.span,
                    ),
                    VariableRef::Unsupported { .. } => runtime_error_is(
                        e,
                        "E-DHN-RUN-011"@,
                        reference.spec_display_name() + " は使用できない変数スコープです。"@,
                        reference.spec_span(),
                    ),
                    _ => runtime_error_is(
                        e,
                        "E-DHN-RUN-012"@,
                        reference.spec_display_name() + " はまだ定義されていません。"@,
                        reference.spec_span(),
                    ),
                },
            },
    {
        match reference {
            VariableRef::Input { name } => match self.input_values.get(name.value.as_str()) {
                Some(v) => Ok(v.copied()),
                None => {
                    let mut message = "入力#".to_owned();
                    message.append(name.value.as_str());
                    message.append(" は渡されていません。");
                    Err(DaihonRuntimeError::new("E-DHN-RUN-010", message.as_str(), name.span))
                },
            },
            VariableRef::Unsupported { .. } => {
                let mut message = reference.display_name();
                message.append(" は使用できない変数スコープです。");
                Err(DaihonRuntimeError::new("E-DHN-RUN-011", message.as_str(), reference.span()))
            },
            _ => match self.values.get(Self::key(reference).as_str()) {
                Some(v) => Ok(v.copied()),
                None => {
                    let mut message = reference.display_name();
                    message.append(" はまだ定義されていません。");
                    Err(DaihonRuntimeError::new("E-DHN-RUN-012", message.as_str(), reference.span()))
                },
            },
        }
    }

    /// Gives the variable `value`. An input cannot be given a value, and a variable that
    /// holds a value keeps its type (see `assignable`); on an error nothing changes.
    pub fn set_value(&mut self, reference: &VariableRef, value: DaihonValue) -> (r: Result<
        (),
        DaihonRuntimeError,
    >)
        requires
            old(self).wf(),
        ensures
            final(self).wf(),
            final(self).spec_inputs() == old(self).spec_inputs(),
            ({
                let key = reference.spec_display_name();
                let values = old(self).spec_values();
                if reference is Input {
                    &&& r matches Err(e) && runtime_error_is(
                        e,
                        "E-DHN-RUN-013"@,
                        key + " には代入できません。"@,
                        reference.spec_span(),
                    )
                    &&& final(self).spec_values() == values
                } else if values.dom().contains(key) && !assignable(
                    values[key].spec_value_type(),
                    value.spec_value_type(),
                ) {
                    &&& r matches Err(e) && e.diagnostic.code@ == "E-DHN-RUN-020"@ && e.message@
                        == key + " は既に "@ + value_type_label(values[key].spec_value_type())
                        + " 型です。"@ + value_type_label(value.spec_value_type())
                        + " 型の値は代入できません。"@ && e.diagnostic.labels@.len() == 1
                        && e.diagnostic.labels@[0].span == reference.spec_span()
                    &&& final(self).spec_values() == values
                } else {
                    &&& r is Ok
                    &&& final(self).spec_values() == values.insert(key, value)
                }
            }),
    {
        if reference.is_read_only() {
            let mut message = reference.display_name();
            message.append(" には代入できません。");
            return Err(DaihonRuntimeError::new("E-DHN-RUN-013", message.as_str(), reference.span()));
        }
        let key = Self::key(reference);
        if let Some(existing) = self.values.get(key.as_str()) {
            if let Err(e) = Self::check_type(reference, existing, &value) {
                return Err(e);
            }
        }
        self.values.insert(key, value);
        Ok(())
    }

    /// Gives the variable `value` unless it already holds one. An input cannot be given a
    /// starting value; on that error nothing changes.
    pub fn set_default_value(&mut self, reference: &VariableRef, value: DaihonValue) -> (r: Result<
        (),
        DaihonRuntimeError,
    >)
        requires
            old(self).wf(),
        ensures
            final(self).wf(),
            final(self).spec_inputs() == old(self).spec_inputs(),
            ({
                let key = reference.spec_display_name();
                let values = old(self).spec_values();
                if reference is Input {
                    &&& r matches Err(e) && runtime_error_is(
                        e,
                        "E-DHN-RUN-014"@,
                        key + " は読み取り専用なので初期値を設定できません。"@,
                        reference.spec_span(),
                    )
                    &&& final(self).spec_values() == values
                } else {
                    &&& r is Ok
                    &&& final(self).spec_values() == if values.dom().contains(key) {
                        values
                    } else {
                        values.insert(key, value)
                    }
                }
            }),
    {
        if reference.is_read_only() {
            let mut message = reference.display_name();
            message.append(" は読み取り専用なので初期値を設定できません。");
            return Err(DaihonRuntimeError::new("E-DHN-RUN-014", message.as_str(), reference.span()));
        }
        let key = Self::key(reference);
        self.values.insert_if_absent(key, value);
        Ok(())
    }

    /// Forgets every variable whose name starts with `_`; the others keep their values.
    pub fn clear_temporary_variables(&mut self)
        requires
            old(self).wf(),
        ensures
            final(self).wf(),
            final(self).spec_inputs() == old(self).spec_inputs(),
            forall|k: Seq<char>| #[trigger] final(self).spec_values().dom().contains(k) <==> (old(
                self,
            ).spec_values().dom().contains(k) && !underscored(k)),
            forall|k: Seq<char>| #[trigger] final(self).spec_values().dom().contains(k)
                ==> final(self).spec_values()[k] == old(self).spec_values()[k],
    {
        self.values.remove_underscored();
    }
}


/// A value given to a variable is what reading the variable gives afterwards (for every
/// reference but an input, which cannot be given a value, and one of an unsupported scope,
/// which can never be read).
pub proof fn lemma_set_then_get(
    values: Map<Seq<char>, DaihonValue>,
    inputs: Map<Seq<char>, DaihonValue>,
    reference: VariableRef,
    value: DaihonValue,
)
    requires
        !(reference is Input),
        !(reference is Unsupported),
    ensures
        stored_value(values.insert(reference.spec_display_name(), value), inputs, reference) == Some(
            value,
        ),
{
}

/// Giving a starting value leaves a variable that already holds one as it was.
pub proof fn lemma_default_keeps_value(
    values: Map<Seq<char>, DaihonValue>,
    inputs: Map<Seq<char>, DaihonValue>,
    reference: VariableRef,
    value: DaihonValue,
)
    requires
        !(reference is Input),
        stored_value(values, inputs, reference) is Some,
    ensures
        ({
            let key = reference.spec_display_name();
            let after = if values.dom().contains(key) {
                values
            } else {
                values.insert(key, value)
            };
            stored_value(after, inputs, reference) == stored_value(values, inputs, reference)
        }),
{
}

/// Forgetting the temporary variables forgets exactly those whose names start with `_`:
/// a temporary variable is no longer held afterwards, and every other variable keeps
/// its value.
pub proof fn lemma_clear_temporaries(
    before: Map<Seq<char>, DaihonValue>,
    after: Map<Seq<char>, DaihonValue>,
    inputs: Map<Seq<char>, DaihonValue>,
    reference: VariableRef,
)
    requires
        forall|k: Seq<char>| #[trigger] after.dom().contains(k) <==> (before.dom().contains(k)
            && !underscored(k)),
        forall|k: Seq<char>| #[trigger] after.dom().contains(k) ==> after[k] == before[k],
        match reference {
            VariableRef::Temporary { name } => underscored(name.value@),
            _ => true,
        },
    ensures
        reference is Temporary ==> stored_value(after, inputs, reference) is None,
        !(reference is Temporary) && !underscored(reference.spec_display_name())
            ==> stored_value(after, inputs, reference) == stored_value(before, inputs, reference),
{
}

} // verus!
