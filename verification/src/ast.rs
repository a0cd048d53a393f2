use vstd::prelude::*;
use crate::span::{Span, Spanned};
use crate::variable::VariableRef;

verus! {

/// A system signal that can start a scene.
#[derive(Clone, Debug, PartialEq, Eq, Hash, PartialOrd, Ord)]
pub struct SystemEvent {
    pub name: Spanned<String>,
}

impl SystemEvent {
    /// A signal of the given name read at `span`.
    pub fn new(name: &str, span: Span) -> (e: SystemEvent)
        ensures
            e.name.value@ == name@,
            e.name.span == span,
    {
        SystemEvent { name: Spanned::new(name.to_owned(), span) }
    }
}

/// The scene header fields as they were written, before interpretation.
#[derive(Clone, Debug, Default, PartialEq, Eq)]
pub struct SceneMetadataRaw {
    pub signal_text: Option<Spanned<String>>,
    pub signal_used_and: bool,
    pub condition_had_marker: bool,
    pub priority_text: Option<Spanned<String>>,
    pub weight_text: Option<Spanned<String>>,
    pub cooldown_text: Option<Spanned<String>>,
    pub condition_text: Option<Spanned<String>>,
    pub unknown_metadata_keys: Vec<Spanned<String>>,
}

/// What a scene header says: the signals that start the scene, its condition, priority,
/// weight, cooldown in seconds and speaker, and the fields as written.
#[derive(Debug, PartialEq, Eq)]
pub struct SceneMetadata {
    pub signals: Vec<SystemEvent>,
    pub condition: Option<Expr>,
    pub priority: i32,
    pub weight: u32,
    pub cooldown: Option<u64>,
    pub speaker: Option<Spanned<String>>,
    pub raw: SceneMetadataRaw,
}

/// A scene: its name, header and statements.
#[derive(Debug, PartialEq, Eq)]
pub struct Scene {
    pub name: Spanned<String>,
    pub metadata: SceneMetadata,
    pub statements: Vec<Stmt>,
    pub span: Span,
}

/// An event: its name, preconditions, starting values and scenes.
#[derive(Debug, PartialEq, Eq)]
pub struct Event {
    pub name: Spanned<String>,
    pub preconditions: Vec<ConditionalStmt>,
    pub defaults: Vec<Assignment>,
    pub scenes: Vec<Scene>,
    pub span: Span,
}

/// A whole script: one event.
#[derive(Debug, PartialEq, Eq)]
pub struct Script {
    pub event: Event,
    pub span: Span,
}

/// Where a jump line sends the script.
#[derive(Clone, Debug, PartialEq, Eq)]
pub enum JumpTarget {
    EndEvent { span: Span },
    EndScene { span: Span },
    Scene { name: Spanned<String> },
}

impl JumpTarget {
    /// The span of the jump target.
    pub open spec fn spec_span(&self) -> Span {
        match self {
            JumpTarget::EndEvent { span } => *span,
            JumpTarget::EndScene { span } => *span,
            JumpTarget::Scene { name } => name.span,
        }
    }

    /// The span of the jump target.
    pub fn span(&self) -> (s: Span)
        ensures
            s == self.spec_span(),
    {
        match self {
            JumpTarget::EndEvent { span } => *span,
            JumpTarget::EndScene { span } => *span,
            JumpTarget::Scene { name } => name.span,
        }
    }
}

/// A statement of a scene.
#[derive(Debug, PartialEq, Eq)]
pub enum Stmt {
    Display(DisplayLine),
    SpeakerDisplay { speaker: Spanned<String>, display: DisplayLine },
    Assignment(Box<Assignment>),
    Jump(JumpTarget),
    Conditional(ConditionalBlock),
}

/// A precondition: a condition and what happens when it holds.
#[derive(Debug, PartialEq, Eq)]
pub struct ConditionalStmt {
    pub condition: Expr,
    pub action: Box<Stmt>,
    pub span: Span,
}

/// A conditional block: branches tried in order, and what runs when none holds.
#[derive(Debug, PartialEq, Eq)]
pub struct ConditionalBlock {
    pub branches: Vec<ConditionalBranch>,
    pub else_branch: Option<Vec<Stmt>>,
    pub span: Span,
    pub one_line: bool,
}

/// One branch of a conditional block.
#[derive(Debug, PartialEq, Eq)]
pub struct ConditionalBranch {
    pub condition: Expr,
    pub statements: Vec<Stmt>,
    pub span: Span,
}

/// An assignment of a value to a variable.
#[derive(Debug, PartialEq, Eq)]
pub struct Assignment {
    pub target: VariableRef,
    pub value: Expr,
    pub span: Span,
}

/// A line of dialogue strings and function calls shown in order.
#[derive(Debug, PartialEq, Eq)]
pub struct DisplayLine {
    pub parts: Vec<DisplayPart>,
    pub span: Span,
}

/// One thing shown by a display line.
#[derive(Debug, PartialEq, Eq)]
pub enum DisplayPart {
    Dialogue(Dialogue),
    FunctionCall(FunctionCall),
}

impl DisplayPart {
    /// The span of the part.
    pub open spec fn spec_span(&self) -> Span {
        match self {
            DisplayPart::Dialogue(d) => d.span,
            DisplayPart::FunctionCall(f) => f.span,
        }
    }

    /// The span of the part.
    pub fn span(&self) -> (s: Span)
        ensures
            s == self.spec_span(),
    {
        match self {
            DisplayPart::Dialogue(d) => d.span,
            DisplayPart::FunctionCall(f) => f.span,
        }
    }
}

/// The span of a statement: its display line, its speaker through its display line, its
/// assignment, its jump target, or its conditional block.
pub open spec fn spec_stmt_span(stmt: Stmt) -> Span {
    match stmt {
        Stmt::Display(display) => display.span,
        Stmt::SpeakerDisplay { speaker, display } => speaker.span.spec_join(display.span),
        Stmt::Assignment(assignment) => assignment.span,
        Stmt::Jump(jump) => jump.spec_span(),
        Stmt::Conditional(block) => block.span,
    }
}

/// The span of a statement, as `spec_stmt_span` says.
pub fn stmt_span(stmt: &Stmt) -> (s: Span)
    ensures
        s == spec_stmt_span(*stmt),
{
    match stmt {
        Stmt::Display(display) => display.span,
        Stmt::SpeakerDisplay { speaker, display } => speaker.span.join(display.span),
        Stmt::Assignment(assignment) => assignment.span,
        Stmt::Jump(jump) => jump.span(),
        Stmt::Conditional(block) => block.span,
    }
}

/// A prefix operator on numbers.
#[derive(Clone, Copy, Debug, PartialEq, Eq, Structural)]
pub enum UnaryOp {
    Plus,
    Minus,
}

/// An infix operator.
#[derive(Clone, Copy, Debug, PartialEq, Eq, Structural)]
pub enum BinaryOp {
    Add,
    Subtract,
    Multiply,
    Divide,
    Modulo,
    And,
    Or,
}

/// A comparison operator.
#[derive(Clone, Copy, Debug, PartialEq, Eq, Structural)]
pub enum ComparisonOp {
    Eq,
    Ne,
    Lt,
    Lte,
    Gt,
    Gte,
}

/// A time of day written in a script.
#[derive(Clone, Copy, Debug, PartialEq, Eq, Structural)]
pub struct TimeOfDay {
    pub hour: u8,
    pub minute: u8,
    pub span: Span,
}

impl TimeOfDay {
    /// Minutes since midnight.
    pub open spec fn spec_total_minutes(self) -> int {
        self.hour * 60 + self.minute
    }

    /// Minutes since midnight.
    pub fn total_minutes(self) -> (m: i32)
        ensures
            m == self.spec_total_minutes(),
    {
        (self.hour as i32) * 60 + (self.minute as i32)
    }
}

/// Whether a time (in minutes since midnight) lies in the range `start..=end`, where a
/// range whose start comes after its end wraps past midnight and an open end is unbounded.
pub open spec fn spec_time_in_range(current: int, start: Option<TimeOfDay>, end: Option<TimeOfDay>)
    -> bool {
    match (start, end) {
        (Some(s), Some(e)) => {
            let from = s.spec_total_minutes();
            let to = e.spec_total_minutes();
            if from <= to {
                from <= current <= to
            } else {
                current >= from || current <= to
            }
        },
        (Some(s), None) => current >= s.spec_total_minutes(),
        (None, Some(e)) => current <= e.spec_total_minutes(),
        (None, None) => true,
    }
}

/// Whether a time (in minutes since midnight) lies in the range written in a time condition.
pub fn time_in_range(current: i32, start: Option<TimeOfDay>, end: Option<TimeOfDay>) -> (b: bool)
    ensures
        b == spec_time_in_range(current as int, start, end),
{
    match (start, end) {
        (Some(s), Some(e)) => {
            let from = s.total_minutes();
            let to = e.total_minutes();
            if from <= to {
                current >= from && current <= to
            } else {
                current >= from || current <= to
            }
        },
        (Some(s), None) => current >= s.total_minutes(),
        (None, Some(e)) => current <= e.total_minutes(),
        (None, None) => true,
    }
}

/// A range that wraps past midnight holds exactly the times outside the range between its
/// end and its start.
pub proof fn lemma_wrapped_range_complements(current: int, start: TimeOfDay, end: TimeOfDay)
    requires
        start.spec_total_minutes() > end.spec_total_minutes(),
    ensures
        spec_time_in_range(current, Some(start), Some(end)) <==> !(end.spec_total_minutes()
            < current < start.spec_total_minutes()),
{
}

/// What a time condition means: a range whose start comes no later than its end holds
/// exactly the minutes from its start to its end, both included (the times both of its
/// open-ended halves hold); a range whose start comes after its end holds the times at or
/// after its start or at or before its end (the times either half holds); an open start or
/// end leaves that side unbounded. Minutes count `hour * 60 + minute`.
pub proof fn lemma_time_range_meaning(current: int, start: TimeOfDay, end: TimeOfDay)
    ensures
        spec_time_in_range(current, Some(start), None) <==> current >= start.hour * 60 + start.minute,
        spec_time_in_range(current, None, Some(end)) <==> current <= end.hour * 60 + end.minute,
        spec_time_in_range(current, None, None),
        start.hour * 60 + start.minute <= end.hour * 60 + end.minute ==> (spec_time_in_range(
            current,
            Some(start),
            Some(end),
        ) <==> (start.hour * 60 + start.minute <= current && current <= end.hour * 60 + end.minute)),
        start.hour * 60 + start.minute <= end.hour * 60 + end.minute ==> (spec_time_in_range(
            current,
            Some(start),
            Some(end),
        ) <==> (spec_time_in_range(current, Some(start), None) && spec_time_in_range(current, None, Some(end)))),
        start.hour * 60 + start.minute > end.hour * 60 + end.minute ==> (spec_time_in_range(
            current,
            Some(start),
            Some(end),
        ) <==> (spec_time_in_range(current, Some(start), None) || spec_time_in_range(current, None, Some(end)))),
        start.hour * 60 + start.minute <= end.hour * 60 + end.minute && current > end.hour * 60 + end.minute
            ==> !spec_time_in_range(current, Some(start), Some(end)),
{
}

/// How a condition matches text against a value.
#[derive(Clone, Copy, Debug, PartialEq, Eq, Structural)]
pub enum StringMatchOp {
    Contains,
    StartsWith,
    EndsWith,
}

/// A number written in an expression: an integer, or a number with a fractional
/// part kept as its normalized decimal text (digits, `.`, digits), the text the
/// floating-point value it stands for is read from.
#[derive(Clone, Debug, PartialEq, Eq)]
pub enum NumberLiteral {
    Integer(i64),
    Decimal(String),
}

/// A literal value written in an expression.
#[derive(Clone, Debug, PartialEq, Eq)]
pub enum LiteralValue {
    Number(NumberLiteral),
    String(String),
    Boolean(bool),
}

/// A function call written in a script: its name, positional arguments and
/// named arguments (ordered by name, each name once).
#[derive(Debug, PartialEq, Eq)]
pub struct FunctionCall {
    pub name: Spanned<String>,
    pub positional: Vec<FuncArg>,
    pub named: Vec<(String, FuncArg)>,
    pub span: Span,
}

/// A dialogue string: its text and the function calls embedded in it, in order.
#[derive(Debug, PartialEq, Eq)]
pub struct Dialogue {
    pub parts: Vec<DialoguePart>,
    pub span: Span,
}

/// A piece of a dialogue string: text, or an embedded function call.
#[derive(Debug, PartialEq, Eq)]
pub enum DialoguePart {
    Text(Spanned<String>),
    Embed(FunctionCall),
}

/// An argument of a function call: a bare word or an expression.
#[derive(Debug, PartialEq, Eq)]
pub enum FuncArg {
    BareWord(Spanned<String>),
    Expr(Expr),
}

/// An expression of a condition or an assignment.
#[derive(Debug, PartialEq, Eq)]
pub enum Expr {
    Value(Spanned<LiteralValue>),
    Variable(VariableRef),
    FunctionCall(FunctionCall),
    Not { expr: Box<Expr>, span: Span },
    Unary { op: UnaryOp, expr: Box<Expr>, span: Span },
    Binary { left: Box<Expr>, op: BinaryOp, right: Box<Expr>, span: Span },
    Truthy { expr: Box<Expr>, span: Span },
    Comparison { left: Box<Expr>, op: ComparisonOp, right: Box<Expr>, span: Span },
    PostfixComparison { left: Box<Expr>, value: Box<Expr>, op: ComparisonOp, span: Span },
    StringMatch { left: Box<Expr>, value: Box<Expr>, op: StringMatchOp, span: Span },
    Range { left: Box<Expr>, start: Option<Box<Expr>>, end: Option<Box<Expr>>, span: Span },
    TimeRange { start: Option<TimeOfDay>, end: Option<TimeOfDay>, span: Span },
}

impl Expr {
    /// The source span of the expression.
    pub open spec fn spec_span(&self) -> Span {
        match self {
            Expr::Value(value) => value.span,
            Expr::Variable(reference) => reference.spec_span(),
            Expr::FunctionCall(function) => function.span,
            Expr::Not { span, .. } => *span,
            Expr::Unary { span, .. } => *span,
            Expr::Binary { span, .. } => *span,
            Expr::Truthy { span, .. } => *span,
            Expr::Comparison { span, .. } => *span,
            Expr::PostfixComparison { span, .. } => *span,
            Expr::StringMatch { span, .. } => *span,
            Expr::Range { span, .. } => *span,
            Expr::TimeRange { span, .. } => *span,
        }
    }

    /// The source span of the expression.
    pub fn span(&self) -> (s: Span)
        ensures
            s == self.spec_span(),
    {
        match self {
            Expr::Value(value) => value.span,
            Expr::Variable(reference) => reference.span(),
            Expr::FunctionCall(function) => function.span,
            Expr::Not { span, .. } => *span,
            Expr::Unary { span, .. } => *span,
            Expr::Binary { span, .. } => *span,
            Expr::Truthy { span, .. } => *span,
            Expr::Comparison { span, .. } => *span,
            Expr::PostfixComparison { span, .. } => *span,
            Expr::StringMatch { span, .. } => *span,
            Expr::Range { span, .. } => *span,
            Expr::TimeRange { span, .. } => *span,
        }
    }
}

} // verus!
