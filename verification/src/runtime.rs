use std::cmp::Ordering;

use vstd::prelude::*;
use crate::ast::{ComparisonOp, JumpTarget};
use crate::diagnostic::DaihonRuntimeError;
use crate::span::Span;
use crate::text::{chars_eq, chars_of, opt_view, spec_trim, string_of, string_views, trim_chars};

verus! {

/// The function through which a script asks for an interpretation of free text.
pub const INTERPRET_FUNCTION_NAME: &'static str = "解釈";

/// The function through which a script asks for a generated line.
pub const GENERATE_FUNCTION_NAME: &'static str = "生成";

/// The interpretation given when none of the choices applies.
pub const UNKNOWN_INTERPRETATION: &'static str = "不明";

/// How many interpretations one dispatch may ask for by default.
pub const DEFAULT_MAX_INTERPRETATIONS_PER_DISPATCH: usize = 4;

/// How many generated lines one dispatch may ask for by default.
pub const DEFAULT_MAX_GENERATIONS_PER_DISPATCH: usize = 4;

/// A line produced by a generator, with optional expression and motion.
#[derive(Clone, Debug, PartialEq, Eq)]
pub struct GeneratedDialogue {
    pub text: String,
    pub expression: Option<String>,
    pub motion: Option<String>,
}

/// A request to classify free text as one of the given choices.
#[derive(Clone, Debug, PartialEq, Eq)]
pub struct InterpretRequest {
    pub input_text: String,
    pub question: String,
    pub choices: Vec<String>,
}

/// A request to generate a line from an instruction.
#[derive(Clone, Debug, PartialEq, Eq)]
pub struct GenerateRequest {
    pub instruction: String,
    pub speaker_id: Option<String>,
}

/// Answers interpretation and generation requests on behalf of a running script.
pub trait InterpretHandler {
    /// The choice that the input text was read as.
    fn interpret(&mut self, request: InterpretRequest) -> Result<String, DaihonRuntimeError>;

    /// A generated line, or none.
    fn generate(&mut self, request: GenerateRequest) -> Result<Option<GeneratedDialogue>, DaihonRuntimeError> {
        Ok(None)
    }
}

/// A handler that reads every input as the unknown interpretation and generates nothing.
#[derive(Debug, Default)]
pub struct NoopInterpretHandler;

impl InterpretHandler for NoopInterpretHandler {
    fn interpret(&mut self, request: InterpretRequest) -> (r: Result<String, DaihonRuntimeError>)
        ensures
            r matches Ok(s) && s@ == UNKNOWN_INTERPRETATION@,
    {
        Ok(UNKNOWN_INTERPRETATION.to_owned())
    }
}

/// How execution continues after a statement.
#[derive(Clone, Debug, PartialEq, Eq)]
pub enum ControlFlow {
    Continue,
    EndScene,
    EndEvent,
    JumpScene(String),
}

/// The control flow that a jump line produces.
pub fn jump_flow(target: &JumpTarget) -> (f: ControlFlow)
    ensures
        match target {
            JumpTarget::EndEvent { .. } => f is EndEvent,
            JumpTarget::EndScene { .. } => f is EndScene,
            JumpTarget::Scene { name } => f matches ControlFlow::JumpScene(s) && s@ == name.value@,
        },
{
    match target {
        JumpTarget::EndEvent { .. } => ControlFlow::EndEvent,
        JumpTarget::EndScene { .. } => ControlFlow::EndScene,
        JumpTarget::Scene { name } => ControlFlow::JumpScene(name.value.clone()),
    }
}

/// Whether two values that compared as `ordering` satisfy `op`; values that cannot be
/// compared satisfy no comparison.
pub open spec fn comparison_satisfied(ordering: Option<Ordering>, op: ComparisonOp) -> bool {
    match ordering {
        None => false,
        Some(o) => match op {
            ComparisonOp::Eq => o == Ordering::Equal,
            ComparisonOp::Ne => o != Ordering::Equal,
            ComparisonOp::Lt => o == Ordering::Less,
            ComparisonOp::Lte => o == Ordering::Less || o == Ordering::Equal,
            ComparisonOp::Gt => o == Ordering::Greater,
            ComparisonOp::Gte => o == Ordering::Greater || o == Ordering::Equal,
        },
    }
}

/// Whether two values that compared as `ordering` satisfy `op`.
pub fn comparison_holds(ordering: Option<Ordering>, op: ComparisonOp) -> (b: bool)
    ensures
        b == comparison_satisfied(ordering, op),
{
    match ordering {
        None => false,
        Some(o) => {
            let less = match o {
                Ordering::Less => true,
                _ => false,
            };
            let equal = match o {
                Ordering::Equal => true,
                _ => false,
            };
            let greater = match o {
                Ordering::Greater => true,
                _ => false,
            };
            match op {
                ComparisonOp::Eq => equal,
                ComparisonOp::Ne => !equal,
                ComparisonOp::Lt => less,
                ComparisonOp::Lte => less || equal,
                ComparisonOp::Gt => greater,
                ComparisonOp::Gte => greater || equal,
            }
        },
    }
}

/// Each comparison operator and its negation split comparable values between them.
pub proof fn lemma_comparison_negations(o: Ordering)
    ensures
        comparison_satisfied(Some(o), ComparisonOp::Eq) != comparison_satisfied(Some(o), ComparisonOp::Ne),
        comparison_satisfied(Some(o), ComparisonOp::Lt) != comparison_satisfied(Some(o), ComparisonOp::Gte),
        comparison_satisfied(Some(o), ComparisonOp::Gt) != comparison_satisfied(Some(o), ComparisonOp::Lte),
{
}

/// A character that separates interpretation choices.
pub open spec fn is_choice_separator(c: char) -> bool {
    c == '|' || c == '/' || c == '／' || c == '、' || c == ',' || c == '，'
}

/// Whether the character separates interpretation choices.
fn choice_separator(c: char) -> (b: bool)
    ensures
        b == is_choice_separator(c),
{
    c == '|' || c == '/' || c == '／' || c == '、' || c == ',' || c == '，'
}

/// The text cut at every separator: `n` separators give `n + 1` pieces.
pub open spec fn split_choices(s: Seq<char>) -> Seq<Seq<char>>
    decreases s.len(),
{
    if s.len() == 0 {
        seq![Seq::<char>::empty()]
    } else {
        let pieces = split_choices(s.drop_last());
        if is_choice_separator(s.last()) {
            pieces.push(Seq::<char>::empty())
        } else {
            pieces.update(pieces.len() - 1, pieces.last().push(s.last()))
        }
    }
}

/// The pieces trimmed of surrounding whitespace, dropping those left empty.
pub open spec fn kept_choices(pieces: Seq<Seq<char>>) -> Seq<Seq<char>>
    decreases pieces.len(),
{
    if pieces.len() == 0 {
        Seq::empty()
    } else {
        let rest = kept_choices(pieces.drop_last());
        let t = spec_trim(pieces.last());
        if t.len() == 0 {
            rest
        } else {
            rest.push(t)
        }
    }
}

/// The choices listed in an interpretation argument.
pub open spec fn spec_interpret_choices(s: Seq<char>) -> Seq<Seq<char>> {
    kept_choices(split_choices(s))
}

proof fn lemma_split_nonempty(s: Seq<char>)
    ensures
        split_choices(s).len() >= 1,
    decreases s.len(),
{
    if s.len() > 0 {
        lemma_split_nonempty(s.drop_last());
    }
}

/// The choices in an interpretation argument: the text is cut at `|`, `/`, `／`, `、`,
/// `,` and `，`, each piece is trimmed, and empty pieces are dropped.
pub fn parse_interpret_choices(text: &str) -> (choices: Vec<String>)
    ensures
        string_views(choices@) == spec_interpret_choices(text@),
{
    let cs = chars_of(text);
    let mut out: Vec<String> = Vec::new();
    let mut cur: Vec<char> = Vec::new();
    let mut i: usize = 0;
    proof {
        assert(cs@.take(0) =~= Seq::<char>::empty());
    }
    while i < cs.len()
        invariant
            cs@ == text@,
            i <= cs@.len(),
            split_choices(cs@.take(i as int)).len() >= 1,
            split_choices(cs@.take(i as int)).last() == cur@,
            string_views(out@) == kept_choices(split_choices(cs@.take(i as int)).drop_last()),
        decreases cs@.len() - i,
    {
        let c = cs[i];
        let ghost before = split_choices(cs@.take(i as int));
        proof {
            assert(cs@.take(i as int + 1).drop_last() =~= cs@.take(i as int));
            assert(cs@.take(i as int + 1).last() == c);
        }
        if choice_separator(c) {
            let t = trim_chars(cur.as_slice());
            if t.len() > 0 {
                let s = string_of(t.as_slice());
                out.push(s);
            }
            cur = Vec::new();
            proof {
                let after = split_choices(cs@.take(i as int + 1));
                assert(after == before.push(Seq::<char>::empty()));
                assert(after.drop_last() =~= before);
                assert(before.drop_last().push(before.last()) =~= before);
                assert(string_views(out@) =~= kept_choices(after.drop_last()));
                assert(cur@ =~= after.last());
            }
        } else {
            cur.push(c);
            proof {
                let after = split_choices(cs@.take(i as int + 1));
                assert(after == before.update(before.len() - 1, before.last().push(c)));
                assert(after.drop_last() =~= before.drop_last());
                assert(cur@ =~= after.last());
            }
        }
        i += 1;
    }
    let t = trim_chars(cur.as_slice());
    if t.len() > 0 {
        let s = string_of(t.as_slice());
        out.push(s);
    }
    proof {
        let all = split_choices(cs@.take(i as int));
        assert(cs@.take(i as int) =~= text@);
        assert(all.drop_last().push(all.last()) =~= all);
        assert(string_views(out@) =~= kept_choices(all));
    }
    out
}

/// The interpretation kept from a handler's reply: the trimmed reply where it is one of
/// the choices or the unknown interpretation itself, otherwise (and where the handler
/// failed) the unknown interpretation.
pub open spec fn spec_resolve_interpretation(choices: Seq<Seq<char>>, reply: Option<Seq<char>>)
    -> Seq<char> {
    match reply {
        Some(r) => {
            let t = spec_trim(r);
            if t == UNKNOWN_INTERPRETATION@ || choices.contains(t) {
                t
            } else {
                UNKNOWN_INTERPRETATION@
            }
        },
        None => UNKNOWN_INTERPRETATION@,
    }
}

/// The interpretation kept from a handler's reply (`None` where the handler failed).
pub fn resolve_interpretation(choices: &Vec<String>, reply: Option<&str>) -> (s: String)
    ensures
        s@ == spec_resolve_interpretation(string_views(choices@), match reply {
            Some(r) => Some(r@),
            None => None,
        }),
{
    match reply {
        None => UNKNOWN_INTERPRETATION.to_owned(),
        Some(r) => {
            let rc = chars_of(r);
            let t = trim_chars(rc.as_slice());
            let unknown = chars_of(UNKNOWN_INTERPRETATION);
            if chars_eq(t.as_slice(), unknown.as_slice()) {
                return string_of(t.as_slice());
            }
            let mut i: usize = 0;
            while i < choices.len()
                invariant
                    i <= choices@.len(),
                    reply == Some(r),
                    t@ == spec_trim(r@),
                    forall|k: int| 0 <= k < i ==> #[trigger] choices@[k]@ != t@,
                decreases choices@.len() - i,
            {
                let candidate = chars_of(choices[i].as_str());
                if chars_eq(candidate.as_slice(), t.as_slice()) {
                    proof {
                        assert(string_views(choices@).len() == choices@.len());
                        assert(string_views(choices@)[i as int] == t@);
                        assert(string_views(choices@).contains(t@));
                    }
                    return string_of(t.as_slice());
                }
                i += 1;
            }
            proof {
                if string_views(choices@).contains(t@) {
                    let k = choose|k: int| 0 <= k < string_views(choices@).len()
                        && string_views(choices@)[k] == t@;
                    assert(choices@[k]@ == t@);
                }
            }
            UNKNOWN_INTERPRETATION.to_owned()
        },
    }
}

/// What a call of the interpretation function does before any handler is asked.
#[derive(Clone, Debug, PartialEq, Eq)]
pub enum InterpretPlan {
    /// The call is malformed: the result is the unknown interpretation, nothing is counted.
    Malformed,
    /// The dispatch has used up its interpretations: a warning, and the unknown interpretation.
    LimitReached,
    /// The call counts, but lists no choices: the unknown interpretation.
    NoChoices,
    /// The call counts and the handler is asked.
    Ask(InterpretRequest),
}

/// The plan for a call of the interpretation function with `named_count` named arguments and
/// the given positional arguments (as text), when `count` of `max` interpretations are used.
pub fn plan_interpretation(named_count: usize, args: &Vec<String>, count: usize, max: usize)
    -> (p: InterpretPlan)
    ensures
        named_count > 0 || args@.len() < 3 ==> p is Malformed,
        named_count == 0 && args@.len() >= 3 && count >= max ==> p is LimitReached,
        named_count == 0 && args@.len() >= 3 && count < max ==> {
            let choices = spec_interpret_choices(args@[2]@);
            &&& choices.len() == 0 ==> p is NoChoices
            &&& choices.len() > 0 ==> (p matches InterpretPlan::Ask(request)
                && request.input_text@ == args@[0]@
                && request.question@ == args@[1]@
                && string_views(request.choices@) == choices)
        },
{
    if named_count > 0 || args.len() < 3 {
        return InterpretPlan::Malformed;
    }
    if count >= max {
        return InterpretPlan::LimitReached;
    }
    let choices = parse_interpret_choices(args[2].as_str());
    if choices.len() == 0 {
        return InterpretPlan::NoChoices;
    }
    InterpretPlan::Ask(InterpretRequest {
        input_text: args[0].clone(),
        question: args[1].clone(),
        choices,
    })
}

/// What a call of the generation function does before any handler is asked.
#[derive(Clone, Debug, PartialEq, Eq)]
pub enum GeneratePlan {
    /// The call is malformed: nothing is shown and nothing is counted.
    Malformed,
    /// The dispatch has used up its generations: a warning, and the fallback line if any.
    LimitReached { fallback: Option<String> },
    /// The call counts and the handler is asked; the fallback line stands in for a failure.
    Ask { request: GenerateRequest, fallback: Option<String> },
}

/// The fallback line: the second positional argument, where it is not blank.
pub open spec fn spec_generation_fallback(args: Seq<String>) -> Option<Seq<char>> {
    if args.len() >= 2 && spec_trim(args[1]@).len() > 0 {
        Some(args[1]@)
    } else {
        None
    }
}

/// The plan for a call of the generation function with `named_count` named arguments and the
/// given positional arguments (as text), spoken by `speaker`, when `count` of `max`
/// generations are used.
pub fn plan_generation(named_count: usize, args: &Vec<String>, speaker: Option<&str>,
    count: usize, max: usize) -> (p: GeneratePlan)
    ensures
        named_count > 0 || args@.len() == 0 ==> p is Malformed,
        named_count == 0 && args@.len() > 0 && count >= max ==> (p matches
            GeneratePlan::LimitReached { fallback } && opt_view(fallback)
            == spec_generation_fallback(args@)),
        named_count == 0 && args@.len() > 0 && count < max ==> (p matches
            GeneratePlan::Ask { request, fallback } && opt_view(fallback)
            == spec_generation_fallback(args@) && request.instruction@ == args@[0]@
            && opt_view(request.speaker_id) == match speaker {
                Some(s) => Some(s@),
                None => None,
            }),
{
    if named_count > 0 || args.len() == 0 {
        return GeneratePlan::Malformed;
    }
    let mut fallback: Option<String> = None;
    if args.len() >= 2 {
        let second = chars_of(args[1].as_str());
        let trimmed = trim_chars(second.as_slice());
        if trimmed.len() > 0 {
            fallback = Some(args[1].clone());
        }
    }
    if count >= max {
        return GeneratePlan::LimitReached { fallback };
    }
    let speaker_id = match speaker {
        Some(s) => Some(s.to_owned()),
        None => None,
    };
    GeneratePlan::Ask {
        request: GenerateRequest { instruction: args[0].clone(), speaker_id },
        fallback,
    }
}

/// What is shown after a generation request was answered.
#[derive(Clone, Debug, PartialEq, Eq)]
pub enum GenerateOutcome {
    ShowGenerated(GeneratedDialogue),
    ShowFallback(String),
    ShowNothing,
}

/// What is shown after a generation request: the generated line where one came back with
/// text that is not blank, otherwise the fallback line if there is one. `reply` is `None`
/// where the handler failed or generated nothing.
pub fn generation_outcome(reply: Option<GeneratedDialogue>, fallback: Option<String>)
    -> (o: GenerateOutcome)
    ensures
        match reply {
            Some(d) if spec_trim(d.text@).len() > 0 => o == GenerateOutcome::ShowGenerated(d),
            _ => match fallback {
                Some(f) => o matches GenerateOutcome::ShowFallback(s) && s@ == f@,
                None => o is ShowNothing,
            },
        },
{
    match reply {
        Some(d) => {
            let text = chars_of(d.text.as_str());
            let trimmed = trim_chars(text.as_slice());
            if trimmed.len() > 0 {
                return GenerateOutcome::ShowGenerated(d);
            }
        },
        None => {},
    }
    match fallback {
        Some(f) => GenerateOutcome::ShowFallback(f),
        None => GenerateOutcome::ShowNothing,
    }
}

} // verus!
verus! {

/// The first position of a name in a list.
pub open spec fn first_position(names: Seq<Seq<char>>, name: Seq<char>) -> Option<int>
    decreases names.len(),
{
    if names.len() == 0 {
        None
    } else if names[0] == name {
        Some(0)
    } else {
        match first_position(names.drop_first(), name) {
            Some(i) => Some(i + 1),
            None => None,
        }
    }
}

/// Where a jump sends a run: `jumps` counts this jump among those of the run so far; past
/// `max_jumps` the run stops as a likely endless loop, and otherwise it goes on at the first
/// scene of the target's name, if the event has one. Errors point at `span`, the scene
/// that jumped.
pub fn resolve_jump(scene_names: &Vec<String>, target: &str, jumps: usize, max_jumps: usize,
    span: Span) -> (r: Result<usize, DaihonRuntimeError>)
    ensures
        jumps > max_jumps ==> (r matches Err(e) && e.diagnostic.code@ == "E-DHN-RUN-030"@
            && e.message@ == "ジャンプ回数が上限を超えました。無限ループの可能性があります。"@
            && e.diagnostic.labels@[0].span == span),
        jumps <= max_jumps ==> match first_position(string_views(scene_names@), target@) {
            Some(i) => r == Ok::<usize, DaihonRuntimeError>(i as usize),
            None => r matches Err(e) && e.diagnostic.code@ == "E-DHN-RUN-031"@ && e.message@
                == "ジャンプ先シーン「"@ + target@ + "」が見つかりません。"@ && e.diagnostic.labels@[0].span
                == span,
        },
{
    if jumps > max_jumps {
        return Err(DaihonRuntimeError::new("E-DHN-RUN-030",
            "ジャンプ回数が上限を超えました。無限ループの可能性があります。", span));
    }
    let key = chars_of(target);
    let ghost names = string_views(scene_names@);
    let mut i: usize = 0;
    proof {
        assert(names.skip(0) =~= names);
    }
    while i < scene_names.len()
        invariant
            jumps <= max_jumps,
            key@ == target@,
            names == string_views(scene_names@),
            i <= scene_names@.len(),
            names.len() == scene_names@.len(),
            first_position(names, target@) == match first_position(names.skip(i as int), target@) {
                Some(k) => Some(k + i),
                None => None,
            },
        decreases scene_names@.len() - i,
    {
        let name = chars_of(scene_names[i].as_str());
        proof {
            assert(names.skip(i as int)[0] == names[i as int]);
            assert(names[i as int] == scene_names@[i as int]@);
            assert(names.skip(i as int).drop_first() =~= names.skip(i + 1));
        }
        if chars_eq(name.as_slice(), key.as_slice()) {
            return Ok(i);
        }
        i += 1;
    }
    let mut message = "ジャンプ先シーン「".to_owned();
    message.append(target);
    message.append("」が見つかりません。");
    Err(DaihonRuntimeError::new("E-DHN-RUN-031", message.as_str(), span))
}

} // verus!
