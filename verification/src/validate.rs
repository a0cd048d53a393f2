use vstd::prelude::*;

use crate::ast::JumpTarget;
use crate::diagnostic::{DaihonDiagnostic, DiagnosticLabel, Severity};
use crate::span::{Span, Spanned};
use crate::text::{chars_eq, chars_of, opt_view, spec_trim, string_views, strings_contain, trim_chars};
use crate::variable::VariableRef;

verus! {

/// A diagnostic as plain values.
pub struct DiagnosticView {
    pub severity: Severity,
    pub code: Seq<char>,
    pub message: Seq<char>,
    pub labels: Seq<(Span, Option<Seq<char>>)>,
    pub help: Option<Seq<char>>,
}

/// A diagnostic as plain values.
pub open spec fn diagnostic_view(d: DaihonDiagnostic) -> DiagnosticView {
    DiagnosticView {
        severity: d.severity,
        code: d.code@,
        message: d.message@,
        labels: d.labels@.map_values(|l: DiagnosticLabel| (l.span, opt_view(l.message))),
        help: opt_view(d.help),
    }
}

/// A list of diagnostics as plain values.
pub open spec fn diagnostic_views(v: Seq<DaihonDiagnostic>) -> Seq<DiagnosticView> {
    v.map_values(|d: DaihonDiagnostic| diagnostic_view(d))
}

/// An error with one unlabeled span.
pub open spec fn error_view(code: Seq<char>, message: Seq<char>, span: Span, help: Option<Seq<char>>)
    -> DiagnosticView {
    DiagnosticView { severity: Severity::Error, code, message, labels: seq![(span, None)], help }
}

/// The problem with a variable reference, if it uses a scope that scripts may not use.
pub open spec fn spec_variable_ref_problem(reference: VariableRef) -> Option<DiagnosticView> {
    match reference {
        VariableRef::Unsupported { scope, parts } => {
            let display = reference.spec_display_name();
            let span = reference.spec_span();
            Some(
                if scope.value@ == "端末"@ {
                    error_view("E-DHN-SEM-021"@, display + " はDaihon完成版では使用できません。"@, span,
                        Some("端末情報を渡したい場合は 入力#名前 を使ってください。"@))
                } else if scope.value@ == "世界"@ {
                    error_view("E-DHN-SEM-021"@, display + " はDaihon完成版では使用できません。"@, span,
                        Some("環境情報を渡したい場合は 入力#名前 を使ってください。"@))
                } else if parts@.len() == 1 {
                    error_view("E-DHN-SEM-022"@, "イベント名#変数名 による他イベント参照は使用できません。"@,
                        span, Some("共有したい状態は 全体#名前 を使ってください。"@))
                } else {
                    error_view("E-DHN-SEM-023"@, display + " は使用できない変数スコープです。"@, span,
                        Some("採用スコープは name, _name, 全体#name, 入力#name, 住人#actor#name, 関係#a#b#name です。"@))
                },
            )
        },
        _ => None,
    }
}

/// The error for a reference to a variable scope that scripts may not use, if it is one.
pub fn validate_variable_ref(reference: &VariableRef) -> (r: Option<DaihonDiagnostic>)
    ensures
        match spec_variable_ref_problem(*reference) {
            Some(v) => r matches Some(d) && diagnostic_view(d) == v,
            None => r is None,
        },
{
    match reference {
        VariableRef::Unsupported { scope, parts } => {
            let display = reference.display_name();
            let span = reference.span();
            let d = if chars_eq(chars_of(scope.value.as_str()).as_slice(), chars_of("端末").as_slice()) {
                let mut message = display;
                message.append(" はDaihon完成版では使用できません。");
                DaihonDiagnostic::error("E-DHN-SEM-021", message.as_str(), span).with_help(
                    "端末情報を渡したい場合は 入力#名前 を使ってください。")
            } else if chars_eq(chars_of(scope.value.as_str()).as_slice(), chars_of("世界").as_slice()) {
                let mut message = display;
                message.append(" はDaihon完成版では使用できません。");
                DaihonDiagnostic::error("E-DHN-SEM-021", message.as_str(), span).with_help(
                    "環境情報を渡したい場合は 入力#名前 を使ってください。")
            } else if parts.len() == 1 {
                DaihonDiagnostic::error("E-DHN-SEM-022", "イベント名#変数名 による他イベント参照は使用できません。",
                    span).with_help("共有したい状態は 全体#名前 を使ってください。")
            } else {
                let mut message = display;
                message.append(" は使用できない変数スコープです。");
                DaihonDiagnostic::error("E-DHN-SEM-023", message.as_str(), span).with_help(
                    "採用スコープは name, _name, 全体#name, 入力#name, 住人#actor#name, 関係#a#b#name です。")
            };
            proof {
                assert(diagnostic_view(d).labels =~= seq![(span, None::<Seq<char>>)]);
            }
            Some(d)
        },
        _ => None,
    }
}

} // verus!
verus! {

/// The error for a jump to a scene that the event does not have, if it is one.
pub open spec fn spec_jump_problem(jump: JumpTarget, scenes: Seq<Seq<char>>) -> Option<DiagnosticView> {
    match jump {
        JumpTarget::Scene { name } => if scenes.contains(name.value@) {
            None
        } else {
            Some(error_view("E-DHN-SEM-006"@, "ジャンプ先シーン「"@ + name.value@ + "」が存在しません。"@,
                name.span, None))
        },
        _ => None,
    }
}

/// The error for a jump to a scene that is not among `scenes`, if it is one.
pub fn validate_jump(jump: &JumpTarget, scenes: &Vec<String>) -> (r: Option<DaihonDiagnostic>)
    ensures
        match spec_jump_problem(*jump, string_views(scenes@)) {
            Some(v) => r matches Some(d) && diagnostic_view(d) == v,
            None => r is None,
        },
{
    match jump {
        JumpTarget::Scene { name } => {
            if strings_contain(scenes, name.value.as_str()) {
                None
            } else {
                let mut message = "ジャンプ先シーン「".to_owned();
                message.append(name.value.as_str());
                message.append("」が存在しません。");
                let d = DaihonDiagnostic::error("E-DHN-SEM-006", message.as_str(), name.span);
                proof {
                    assert(diagnostic_view(d).labels =~= seq![(name.span, None::<Seq<char>>)]);
                }
                Some(d)
            }
        },
        _ => None,
    }
}

/// The errors for the target of an assignment: its scope's problem, if any, then the
/// refusal to assign to an input variable.
pub open spec fn spec_assignment_target_problems(target: VariableRef) -> Seq<DiagnosticView> {
    let scope = match spec_variable_ref_problem(target) {
        Some(v) => seq![v],
        None => Seq::empty(),
    };
    let read_only = if target is Input {
        seq![error_view("E-DHN-SEM-020"@, target.spec_display_name() + " には代入できません。"@,
            target.spec_span(), Some("入力はTauri側から渡される読み取り専用の値です。"@))]
    } else {
        Seq::empty()
    };
    scope + read_only
}

/// The errors for the target of an assignment.
pub fn validate_assignment_target(target: &VariableRef) -> (r: Vec<DaihonDiagnostic>)
    ensures
        diagnostic_views(r@) == spec_assignment_target_problems(*target),
{
    let mut out: Vec<DaihonDiagnostic> = Vec::new();
    match validate_variable_ref(target) {
        Some(d) => out.push(d),
        None => {},
    }
    if target.is_read_only() {
        let mut message = target.display_name();
        message.append(" には代入できません。");
        let d = DaihonDiagnostic::error("E-DHN-SEM-020", message.as_str(), target.span()).with_help(
            "入力はTauri側から渡される読み取り専用の値です。");
        proof {
            assert(diagnostic_view(d).labels =~= seq![(target.spec_span(), None::<Seq<char>>)]);
        }
        out.push(d);
    }
    proof {
        assert(diagnostic_views(out@) =~= spec_assignment_target_problems(*target));
    }
    out
}

/// The span of the latest scene before position `i` with the same name as scene `i`.
pub open spec fn previous_span(names: Seq<Spanned<String>>, name: Seq<char>, i: int) -> Option<Span>
    decreases i,
{
    if i <= 0 {
        None
    } else if names[i - 1].value@ == name {
        Some(names[i - 1].span)
    } else {
        previous_span(names, name, i - 1)
    }
}

/// The errors for scene `i`: an empty name, and a name that an earlier scene already has
/// (pointing at the latest earlier definition).
pub open spec fn scene_name_problems(names: Seq<Spanned<String>>, i: int) -> Seq<DiagnosticView> {
    let n = names[i];
    let empty = if spec_trim(n.value@).len() == 0 {
        seq![error_view("E-DHN-SEM-004"@, "シーン名が空です。"@, n.span, None)]
    } else {
        Seq::empty()
    };
    let duplicate = match previous_span(names, n.value@, i) {
        Some(p) => seq![DiagnosticView {
            severity: Severity::Error,
            code: "E-DHN-SEM-005"@,
            message: "シーン名「"@ + n.value@ + "」が重複しています。"@,
            labels: seq![(n.span, None), (p, Some("最初の定義はここです。"@))],
            help: None,
        }],
        None => Seq::empty(),
    };
    empty + duplicate
}

/// The errors for the first `k` scenes, in order.
pub open spec fn scenes_name_problems(names: Seq<Spanned<String>>, k: int) -> Seq<DiagnosticView>
    decreases k,
{
    if k <= 0 {
        Seq::empty()
    } else {
        scenes_name_problems(names, k - 1) + scene_name_problems(names, k - 1)
    }
}

/// The errors in an event's names: an empty event name, each scene's name problems in
/// order, and an event without scenes.
pub open spec fn spec_name_problems(event_name: Spanned<String>, event_span: Span,
    names: Seq<Spanned<String>>) -> Seq<DiagnosticView> {
    let event = if spec_trim(event_name.value@).len() == 0 {
        seq![error_view("E-DHN-SEM-001"@, "イベント名が空です。"@, event_name.span, None)]
    } else {
        Seq::empty()
    };
    let none = if names.len() == 0 {
        seq![error_view("E-DHN-SEM-003"@, "シーンが1つもありません。"@, event_span, None)]
    } else {
        Seq::empty()
    };
    event + scenes_name_problems(names, names.len() as int) + none
}

/// Whether the text is empty once trimmed.
fn is_blank(s: &String) -> (b: bool)
    ensures
        b == (spec_trim(s@).len() == 0),
{
    let c = chars_of(s.as_str());
    let t = trim_chars(c.as_slice());
    t.len() == 0
}

/// The span of the latest scene before position `i` named `name`.
fn find_previous_span(names: &Vec<Spanned<String>>, name: &String, i: usize) -> (r: Option<Span>)
    requires
        i <= names@.len(),
    ensures
        r == previous_span(names@, name@, i as int),
{
    let key = chars_of(name.as_str());
    let mut j: usize = i;
    while j > 0
        invariant
            j <= i <= names@.len(),
            key@ == name@,
            previous_span(names@, name@, i as int) == previous_span(names@, name@, j as int),
        decreases j,
    {
        let other = chars_of(names[j - 1].value.as_str());
        if chars_eq(other.as_slice(), key.as_slice()) {
            return Some(names[j - 1].span);
        }
        j -= 1;
    }
    None
}

/// The errors in an event's name and its scenes' names.
pub fn validate_scene_names(event_name: &Spanned<String>, event_span: Span,
    names: &Vec<Spanned<String>>) -> (r: Vec<DaihonDiagnostic>)
    ensures
        diagnostic_views(r@) == spec_name_problems(*event_name, event_span, names@),
{
    let mut out: Vec<DaihonDiagnostic> = Vec::new();
    if is_blank(&event_name.value) {
        let d = DaihonDiagnostic::error("E-DHN-SEM-001", "イベント名が空です。", event_name.span);
        proof {
            assert(diagnostic_view(d).labels =~= seq![(event_name.span, None::<Seq<char>>)]);
        }
        out.push(d);
    }
    let ghost head = diagnostic_views(out@);
    proof {
        assert(head =~= if spec_trim(event_name.value@).len() == 0 {
            seq![error_view("E-DHN-SEM-001"@, "イベント名が空です。"@, event_name.span, None)]
        } else {
            Seq::<DiagnosticView>::empty()
        });
        assert(diagnostic_views(out@) =~= head + scenes_name_problems(names@, 0));
    }
    let mut i: usize = 0;
    while i < names.len()
        invariant
            i <= names@.len(),
            diagnostic_views(out@) == head + scenes_name_problems(names@, i as int),
        decreases names@.len() - i,
    {
        let ghost before = out@;
        let n = &names[i];
        if is_blank(&n.value) {
            let d = DaihonDiagnostic::error("E-DHN-SEM-004", "シーン名が空です。", n.span);
            proof {
                assert(diagnostic_view(d).labels =~= seq![(n.span, None::<Seq<char>>)]);
            }
            out.push(d);
        }
        let ghost mid = out@;
        match find_previous_span(names, &n.value, i) {
            Some(p) => {
                let mut message = "シーン名「".to_owned();
                message.append(n.value.as_str());
                message.append("」が重複しています。");
                let d = DaihonDiagnostic::error("E-DHN-SEM-005", message.as_str(), n.span).with_label(
                    p, "最初の定義はここです。");
                proof {
                    assert(d.labels@ =~= seq![d.labels@[0], d.labels@[1]]);
                    assert(diagnostic_view(d).labels =~= seq![(n.span, None::<Seq<char>>), (p,
                        Some("最初の定義はここです。"@))]);
                }
                out.push(d);
            },
            None => {},
        }
        proof {
            assert(diagnostic_views(out@) =~= diagnostic_views(before) + scene_name_problems(names@, i as int));
            assert(diagnostic_views(out@) =~= head + scenes_name_problems(names@, i as int + 1));
        }
        i += 1;
    }
    if names.len() == 0 {
        let d = DaihonDiagnostic::error("E-DHN-SEM-003", "シーンが1つもありません。", event_span);
        proof {
            assert(diagnostic_view(d).labels =~= seq![(event_span, None::<Seq<char>>)]);
        }
        out.push(d);
    }
    proof {
        assert(diagnostic_views(out@) =~= spec_name_problems(*event_name, event_span, names@));
    }
    out
}

} // verus!
verus! {

/// Adding a diagnostic adds its view.
pub proof fn lemma_views_push(v: Seq<DaihonDiagnostic>, d: DaihonDiagnostic)
    ensures
        diagnostic_views(v.push(d)) == diagnostic_views(v).push(diagnostic_view(d)),
{
    assert(diagnostic_views(v.push(d)) =~= diagnostic_views(v).push(diagnostic_view(d)));
}

} // verus!
