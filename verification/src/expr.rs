use vstd::prelude::*;

use crate::ast::{
    BinaryOp, ComparisonOp, Expr, FunctionCall, LiteralValue, NumberLiteral, StringMatchOp,
    TimeOfDay, UnaryOp,
};
use crate::lexer::{normalize_chars, normalize_seq};
use crate::number::{number_view, parse_number, spec_parse_number, NumberView};
use crate::syntax::{is_lit, leading_count};
use crate::text::{chars_of, string_of};
use crate::span::{Span, Spanned};
use crate::syntax::{parse_variable_ref, parsed_variable_is};
use crate::diagnostic::DaihonDiagnostic;
use crate::text::str_is;
use crate::validate::{DiagnosticView, diagnostic_view, error_view};

verus! {

// ---------------------------------------------------------------------------
// Expression tokens
// ---------------------------------------------------------------------------

/// What an expression token is.
#[derive(Debug, PartialEq, Eq)]
pub enum ExprTokenKind {
    Number(String),
    String(String),
    Bool(bool),
    Ident(String),
    Function(FunctionCall),
    Time(TimeOfDay),
    Op(String),
    LParen,
    RParen,
}

/// A token of an expression with its span.
#[derive(Debug, PartialEq, Eq)]
pub struct ExprToken {
    pub kind: ExprTokenKind,
    pub span: Span,
}

/// What a token is, as plain values; a function call's contents are left out.
pub enum KindView {
    Number(Seq<char>),
    Text(Seq<char>),
    Bool(bool),
    Ident(Seq<char>),
    Function,
    Time(TimeOfDay),
    Op(Seq<char>),
    LParen,
    RParen,
}

/// A token as plain values.
pub struct TokenView {
    pub kind: KindView,
    pub span: Span,
}

/// A token as plain values.
pub open spec fn token_view(t: ExprToken) -> TokenView {
    TokenView {
        kind: match t.kind {
            ExprTokenKind::Number(s) => KindView::Number(s@),
            ExprTokenKind::String(s) => KindView::Text(s@),
            ExprTokenKind::Bool(b) => KindView::Bool(b),
            ExprTokenKind::Ident(s) => KindView::Ident(s@),
            ExprTokenKind::Function(_) => KindView::Function,
            ExprTokenKind::Time(time) => KindView::Time(time),
            ExprTokenKind::Op(s) => KindView::Op(s@),
            ExprTokenKind::LParen => KindView::LParen,
            ExprTokenKind::RParen => KindView::RParen,
        },
        span: t.span,
    }
}

/// Tokens as plain values.
pub open spec fn token_views(s: Seq<ExprToken>) -> Seq<TokenView> {
    s.map_values(|t: ExprToken| token_view(t))
}

/// The token at `i` is the operator `op`.
pub open spec fn op_at(t: Seq<TokenView>, i: int, op: Seq<char>) -> bool {
    0 <= i < t.len() && match t[i].kind {
        KindView::Op(s) => s == op,
        _ => false,
    }
}

/// The token at `i` is a time.
pub open spec fn time_at(t: Seq<TokenView>, i: int) -> bool {
    0 <= i < t.len() && t[i].kind is Time
}

/// The token at `i` closes a parenthesis.
pub open spec fn close_at(t: Seq<TokenView>, i: int) -> bool {
    0 <= i < t.len() && t[i].kind is RParen
}

/// The comparison operator at `i`, if one is there.
pub open spec fn comparison_op_at(t: Seq<TokenView>, i: int) -> Option<ComparisonOp> {
    if op_at(t, i, "="@) || op_at(t, i, "=="@) {
        Some(ComparisonOp::Eq)
    } else if op_at(t, i, "!="@) {
        Some(ComparisonOp::Ne)
    } else if op_at(t, i, "<"@) {
        Some(ComparisonOp::Lt)
    } else if op_at(t, i, "<="@) {
        Some(ComparisonOp::Lte)
    } else if op_at(t, i, ">"@) {
        Some(ComparisonOp::Gt)
    } else if op_at(t, i, ">="@) {
        Some(ComparisonOp::Gte)
    } else {
        None
    }
}

/// The comparison written after its value (`未満`, `以下`, `以上`, `超える`) at `i`, if any.
pub open spec fn postfix_op_at(t: Seq<TokenView>, i: int) -> Option<ComparisonOp> {
    if op_at(t, i, "未満"@) {
        Some(ComparisonOp::Lt)
    } else if op_at(t, i, "以下"@) {
        Some(ComparisonOp::Lte)
    } else if op_at(t, i, "以上"@) {
        Some(ComparisonOp::Gte)
    } else if op_at(t, i, "超える"@) {
        Some(ComparisonOp::Gt)
    } else {
        None
    }
}

/// The text match (`を含む`, `で始まる`, `で終わる`) at `i`, if any.
pub open spec fn string_match_op_at(t: Seq<TokenView>, i: int) -> Option<StringMatchOp> {
    if op_at(t, i, "を含む"@) {
        Some(StringMatchOp::Contains)
    } else if op_at(t, i, "で始まる"@) {
        Some(StringMatchOp::StartsWith)
    } else if op_at(t, i, "で終わる"@) {
        Some(StringMatchOp::EndsWith)
    } else {
        None
    }
}

/// The token at `i` is `かつ` or `または`.
pub open spec fn logical_at(t: Seq<TokenView>, i: int) -> bool {
    op_at(t, i, "かつ"@) || op_at(t, i, "または"@)
}

/// The token at `i` can start the value of a postfix comparison, text match or range.
pub open spec fn value_start_at(t: Seq<TokenView>, i: int) -> bool {
    0 <= i < t.len() && match t[i].kind {
        KindView::Number(_) | KindView::Text(_) | KindView::Bool(_) | KindView::Ident(_)
        | KindView::Function | KindView::LParen => true,
        _ => false,
    }
}

// ---------------------------------------------------------------------------
// The grammar
// ---------------------------------------------------------------------------

/// The shape of a parsed expression; leaves, operators and times are token positions.
#[derive(Debug, PartialEq, Eq)]
pub enum Node {
    /// A number, string, truth value, variable or function call.
    Leaf(usize),
    /// An expression negated by the `でない` at the given position.
    Not(Box<Node>, usize),
    /// A sign operator at the given position applied to an expression.
    Unary(UnaryOp, usize, Box<Node>),
    Binary(Box<Node>, BinaryOp, Box<Node>),
    Truthy(Box<Node>),
    Comparison(Box<Node>, ComparisonOp, Box<Node>),
    Postfix(Box<Node>, Box<Node>, ComparisonOp),
    StringMatch(Box<Node>, Box<Node>, StringMatchOp),
    Range(Box<Node>, Option<Box<Node>>, Option<Box<Node>>),
    /// A time, `~`, and an optional end time, by the positions of the times.
    TimeRange(usize, Option<usize>),
    /// `~` and an end time, by the position of the time.
    OpenTimeRange(usize),
}

/// Why an expression could not be read, with the position of the token concerned.
#[derive(Debug, PartialEq, Eq)]
pub enum ExprError {
    /// The expression ends where a value is needed.
    Truncated,
    /// A number that cannot be read.
    BadNumber(usize),
    /// A parenthesis that is not closed.
    MissingClose(usize),
    /// A token where a value or variable is needed.
    ExpectedValue(usize),
}

/// What reading from a position gives: the shape and where reading stopped, or an error.
pub type Parsed = Result<(Node, int), ExprError>;

/// A disjunction of conjunctions, joined by `または`.
pub open spec fn spec_or(t: Seq<TokenView>, i: int) -> Parsed
    decreases t.len() - i, 60int,
{
    match spec_and(t, i) {
        Ok((n, j)) => if i <= j <= t.len() {
            or_rest(t, n, j)
        } else {
            Ok((n, j))
        },
        Err(e) => Err(e),
    }
}

/// More `または` operands after `left`, read from `j`.
pub open spec fn or_rest(t: Seq<TokenView>, left: Node, j: int) -> Parsed
    decreases t.len() - j, 59int,
{
    if op_at(t, j, "または"@) {
        match spec_and(t, j + 1) {
            Ok((r, k)) => {
                let n = Node::Binary(Box::new(left), BinaryOp::Or, Box::new(r));
                if j < k <= t.len() {
                    or_rest(t, n, k)
                } else {
                    Ok((n, k))
                }
            },
            Err(e) => Err(e),
        }
    } else {
        Ok((left, j))
    }
}

/// A conjunction of conditions, joined by `かつ`.
pub open spec fn spec_and(t: Seq<TokenView>, i: int) -> Parsed
    decreases t.len() - i, 58int,
{
    match spec_primary(t, i) {
        Ok((n, j)) => if i <= j <= t.len() {
            and_rest(t, n, j)
        } else {
            Ok((n, j))
        },
        Err(e) => Err(e),
    }
}

/// More `かつ` operands after `left`, read from `j`.
pub open spec fn and_rest(t: Seq<TokenView>, left: Node, j: int) -> Parsed
    decreases t.len() - j, 57int,
{
    if op_at(t, j, "かつ"@) {
        match spec_primary(t, j + 1) {
            Ok((r, k)) => {
                let n = Node::Binary(Box::new(left), BinaryOp::And, Box::new(r));
                if j < k <= t.len() {
                    and_rest(t, n, k)
                } else {
                    Ok((n, k))
                }
            },
            Err(e) => Err(e),
        }
    } else {
        Ok((left, j))
    }
}

/// A condition followed by any number of `でない`.
pub open spec fn spec_primary(t: Seq<TokenView>, i: int) -> Parsed
    decreases t.len() - i, 56int,
{
    match spec_base(t, i) {
        Ok((n, j)) => if i <= j <= t.len() {
            not_rest(t, n, j)
        } else {
            Ok((n, j))
        },
        Err(e) => Err(e),
    }
}

/// The `でない` after `inner`, read from `j`.
pub open spec fn not_rest(t: Seq<TokenView>, inner: Node, j: int) -> Parsed
    decreases t.len() - j, 55int,
{
    if op_at(t, j, "でない"@) {
        not_rest(t, Node::Not(Box::new(inner), j as usize), j + 1)
    } else {
        Ok((inner, j))
    }
}

/// A single condition: a time range, or a value compared, matched, ranged or taken
/// for its truth.
pub open spec fn spec_base(t: Seq<TokenView>, i: int) -> Parsed
    decreases t.len() - i, 54int,
{
    if time_at(t, i) && op_at(t, i + 1, "~"@) {
        if time_at(t, i + 2) {
            Ok((Node::TimeRange(i as usize, Some((i + 2) as usize)), i + 3))
        } else {
            Ok((Node::TimeRange(i as usize, None), i + 2))
        }
    } else if op_at(t, i, "~"@) && time_at(t, i + 1) {
        Ok((Node::OpenTimeRange((i + 1) as usize), i + 2))
    } else if op_at(t, i, "~"@) {
        base_value(t, i + 1)
    } else {
        base_value(t, i)
    }
}

/// A condition that starts with a value, read from `i`.
pub open spec fn base_value(t: Seq<TokenView>, i: int) -> Parsed
    decreases t.len() - i, 53int,
{
    match spec_add_sub(t, i) {
        Ok((left, j)) => if i <= j <= t.len() {
            base_tail(t, left, j)
        } else {
            Ok((Node::Truthy(Box::new(left)), j))
        },
        Err(e) => Err(e),
    }
}

/// What follows the value `left` of a condition, read from `j`.
pub open spec fn base_tail(t: Seq<TokenView>, left: Node, j: int) -> Parsed
    decreases t.len() - j, 52int,
{
    match comparison_op_at(t, j) {
        Some(op) => match spec_add_sub(t, j + 1) {
            Ok((r, m)) => Ok((Node::Comparison(Box::new(left), op, Box::new(r)), m)),
            Err(e) => Err(e),
        },
        None => if op_at(t, j, "~"@) {
            match range_end(t, j + 1) {
                Ok((end, m)) => Ok((Node::Range(Box::new(left), None, end), m)),
                Err(x) => Err(x),
            }
        } else if value_start_at(t, j) {
            value_tail(t, left, j)
        } else {
            Ok((Node::Truthy(Box::new(left)), j))
        },
    }
}

/// The optional end of a range after its `~`, read from `j`: a value unless the
/// tokens end or `かつ`/`または` comes next.
pub open spec fn range_end(t: Seq<TokenView>, j: int) -> Result<(Option<Box<Node>>, int), ExprError>
    decreases t.len() - j, 49int,
{
    if j < t.len() && !logical_at(t, j) {
        match spec_add_sub(t, j) {
            Ok((e, m)) => Ok((Some(Box::new(e)), m)),
            Err(x) => Err(x),
        }
    } else {
        Ok((None, j))
    }
}

/// A condition whose value `left` is followed by a second value from `j`: a range from
/// it, a comparison or text match written after it; otherwise `left` alone is the
/// condition and reading goes back to `j`.
pub open spec fn value_tail(t: Seq<TokenView>, left: Node, j: int) -> Parsed
    decreases t.len() - j, 51int,
{
    match spec_add_sub(t, j) {
        Ok((v, m)) => if j <= m {
            if op_at(t, m, "~"@) {
                match range_end(t, m + 1) {
                    Ok((end, q)) => Ok((Node::Range(Box::new(left), Some(Box::new(v)), end), q)),
                    Err(x) => Err(x),
                }
            } else {
                match postfix_op_at(t, m) {
                    Some(op) => Ok((Node::Postfix(Box::new(left), Box::new(v), op), m + 1)),
                    None => match string_match_op_at(t, m) {
                        Some(op) => Ok((Node::StringMatch(Box::new(left), Box::new(v), op), m + 1)),
                        None => Ok((Node::Truthy(Box::new(left)), j)),
                    },
                }
            }
        } else {
            Ok((Node::Truthy(Box::new(left)), j))
        },
        Err(_) => Ok((Node::Truthy(Box::new(left)), j)),
    }
}

/// A sum or difference of products.
pub open spec fn spec_add_sub(t: Seq<TokenView>, i: int) -> Parsed
    decreases t.len() - i, 31int,
{
    match spec_mul_div(t, i) {
        Ok((n, j)) => if i <= j <= t.len() {
            add_rest(t, n, j)
        } else {
            Ok((n, j))
        },
        Err(e) => Err(e),
    }
}

/// The additive operator at `j`, if any.
pub open spec fn additive_op_at(t: Seq<TokenView>, j: int) -> Option<BinaryOp> {
    if op_at(t, j, "+"@) {
        Some(BinaryOp::Add)
    } else if op_at(t, j, "-"@) {
        Some(BinaryOp::Subtract)
    } else {
        None
    }
}

/// More terms after `left`, read from `j`.
pub open spec fn add_rest(t: Seq<TokenView>, left: Node, j: int) -> Parsed
    decreases t.len() - j, 30int,
{
    match additive_op_at(t, j) {
        Some(op) => match spec_mul_div(t, j + 1) {
            Ok((r, k)) => {
                let n = Node::Binary(Box::new(left), op, Box::new(r));
                if j < k <= t.len() {
                    add_rest(t, n, k)
                } else {
                    Ok((n, k))
                }
            },
            Err(e) => Err(e),
        },
        None => Ok((left, j)),
    }
}

/// A product, quotient or remainder of signed values.
pub open spec fn spec_mul_div(t: Seq<TokenView>, i: int) -> Parsed
    decreases t.len() - i, 29int,
{
    match spec_unary(t, i) {
        Ok((n, j)) => if i <= j <= t.len() {
            mul_rest(t, n, j)
        } else {
            Ok((n, j))
        },
        Err(e) => Err(e),
    }
}

/// The multiplicative operator at `j`, if any.
pub open spec fn multiplicative_op_at(t: Seq<TokenView>, j: int) -> Option<BinaryOp> {
    if op_at(t, j, "*"@) {
        Some(BinaryOp::Multiply)
    } else if op_at(t, j, "/"@) {
        Some(BinaryOp::Divide)
    } else if op_at(t, j, "%"@) {
        Some(BinaryOp::Modulo)
    } else {
        None
    }
}

/// More factors after `left`, read from `j`.
pub open spec fn mul_rest(t: Seq<TokenView>, left: Node, j: int) -> Parsed
    decreases t.len() - j, 28int,
{
    match multiplicative_op_at(t, j) {
        Some(op) => match spec_unary(t, j + 1) {
            Ok((r, k)) => {
                let n = Node::Binary(Box::new(left), op, Box::new(r));
                if j < k <= t.len() {
                    mul_rest(t, n, k)
                } else {
                    Ok((n, k))
                }
            },
            Err(e) => Err(e),
        },
        None => Ok((left, j)),
    }
}

/// A value with any number of leading `+` and `-` signs.
pub open spec fn spec_unary(t: Seq<TokenView>, i: int) -> Parsed
    decreases t.len() - i, 27int,
{
    if op_at(t, i, "+"@) || op_at(t, i, "-"@) {
        let op = if op_at(t, i, "+"@) {
            UnaryOp::Plus
        } else {
            UnaryOp::Minus
        };
        match spec_unary(t, i + 1) {
            Ok((n, j)) => Ok((Node::Unary(op, i as usize, Box::new(n)), j)),
            Err(e) => Err(e),
        }
    } else {
        spec_atom(t, i)
    }
}

/// A single value: a literal, variable or function call, or a parenthesized condition.
pub open spec fn spec_atom(t: Seq<TokenView>, i: int) -> Parsed
    decreases t.len() - i, 26int,
{
    if i < 0 || i >= t.len() {
        Err(ExprError::Truncated)
    } else {
        match t[i].kind {
            KindView::Number(s) => if spec_parse_number(s) is Some {
                Ok((Node::Leaf(i as usize), i + 1))
            } else {
                Err(ExprError::BadNumber(i as usize))
            },
            KindView::Text(_) | KindView::Bool(_) | KindView::Ident(_) | KindView::Function => Ok(
                (Node::Leaf(i as usize), i + 1),
            ),
            KindView::LParen => match spec_or(t, i + 1) {
                Ok((n, j)) => if close_at(t, j) {
                    Ok((n, j + 1))
                } else {
                    Err(ExprError::MissingClose(i as usize))
                },
                Err(e) => Err(e),
            },
            _ => Err(ExprError::ExpectedValue(i as usize)),
        }
    }
}


// ---------------------------------------------------------------------------
// Every read moves forward and uses each token once
// ---------------------------------------------------------------------------

/// The token positions a shape uses, left to right.
pub open spec fn leaves(n: Node) -> Seq<int>
    decreases n,
{
    match n {
        Node::Leaf(k) => seq![k as int],
        Node::Not(a, k) => leaves(*a).push(k as int),
        Node::Unary(_, k, a) => seq![k as int] + leaves(*a),
        Node::Binary(a, _, b) => leaves(*a) + leaves(*b),
        Node::Truthy(a) => leaves(*a),
        Node::Comparison(a, _, b) => leaves(*a) + leaves(*b),
        Node::Postfix(a, v, _) => leaves(*a) + leaves(*v),
        Node::StringMatch(a, v, _) => leaves(*a) + leaves(*v),
        Node::Range(a, s, e) => leaves(*a) + match s {
            Some(b) => leaves(*b),
            None => Seq::empty(),
        } + match e {
            Some(b) => leaves(*b),
            None => Seq::empty(),
        },
        Node::TimeRange(k, e) => seq![k as int] + match e {
            Some(m) => seq![m as int],
            None => Seq::empty(),
        },
        Node::OpenTimeRange(k) => seq![k as int],
    }
}

/// `s` rises strictly and stays within `lo..hi`.
pub open spec fn placed(s: Seq<int>, lo: int, hi: int) -> bool {
    &&& forall|a: int, b: int| 0 <= a < b < s.len() ==> #[trigger] s[a] < #[trigger] s[b]
    &&& forall|a: int| 0 <= a < s.len() ==> lo <= #[trigger] s[a] < hi
}

/// Placed sequences side by side make one placed sequence.
pub proof fn lemma_placed_concat(s1: Seq<int>, s2: Seq<int>, lo: int, mid: int, hi: int)
    requires
        placed(s1, lo, mid),
        placed(s2, mid, hi),
        lo <= mid <= hi,
    ensures
        placed(s1 + s2, lo, hi),
{
    let s = s1 + s2;
    assert forall|a: int, b: int| 0 <= a < b < s.len() implies #[trigger] s[a] < #[trigger] s[b] by {
        if b < s1.len() {
            assert(s[a] == s1[a] && s[b] == s1[b]);
        } else if a < s1.len() {
            assert(s[a] == s1[a] && s[b] == s2[b - s1.len()]);
        } else {
            assert(s[a] == s2[a - s1.len()] && s[b] == s2[b - s1.len()]);
        }
    }
    assert forall|a: int| 0 <= a < s.len() implies lo <= #[trigger] s[a] < hi by {
        if a < s1.len() {
            assert(s[a] == s1[a]);
        } else {
            assert(s[a] == s2[a - s1.len()]);
        }
    }
}

/// A placed sequence stays placed in a wider range.
pub proof fn lemma_placed_widen(s: Seq<int>, lo: int, hi: int, lo2: int, hi2: int)
    requires
        placed(s, lo, hi),
        lo2 <= lo,
        hi <= hi2,
    ensures
        placed(s, lo2, hi2),
{
}

/// A single position is placed around it.
pub proof fn lemma_placed_one(k: int)
    ensures
        placed(seq![k], k, k + 1),
{
}

/// The token at `k` can stand as a value of its own; a number must be readable.
pub open spec fn leaf_token(t: Seq<TokenView>, k: int) -> bool {
    0 <= k < t.len() && match t[k].kind {
        KindView::Number(s) => spec_parse_number(s) is Some,
        KindView::Text(_) | KindView::Bool(_) | KindView::Ident(_) | KindView::Function => true,
        _ => false,
    }
}

/// Every leaf of the shape is a value token and every time of a time range is a time token.
pub open spec fn node_valid(n: Node, t: Seq<TokenView>) -> bool
    decreases n,
{
    match n {
        Node::Leaf(k) => leaf_token(t, k as int),
        Node::Not(a, _) => node_valid(*a, t),
        Node::Unary(_, _, a) => node_valid(*a, t),
        Node::Binary(a, _, b) => node_valid(*a, t) && node_valid(*b, t),
        Node::Truthy(a) => node_valid(*a, t),
        Node::Comparison(a, _, b) => node_valid(*a, t) && node_valid(*b, t),
        Node::Postfix(a, v, _) => node_valid(*a, t) && node_valid(*v, t),
        Node::StringMatch(a, v, _) => node_valid(*a, t) && node_valid(*v, t),
        Node::Range(a, s, e) => node_valid(*a, t) && match s {
            Some(b) => node_valid(*b, t),
            None => true,
        } && match e {
            Some(b) => node_valid(*b, t),
            None => true,
        },
        Node::TimeRange(k, e) => time_at(t, k as int) && match e {
            Some(m) => time_at(t, m as int),
            None => true,
        },
        Node::OpenTimeRange(k) => time_at(t, k as int),
    }
}

/// An error points at a token that is there.
pub open spec fn error_in(e: ExprError, t: Seq<TokenView>) -> bool {
    match e {
        ExprError::Truncated => true,
        ExprError::BadNumber(k) => k < t.len(),
        ExprError::MissingClose(k) => k < t.len(),
        ExprError::ExpectedValue(k) => k < t.len(),
    }
}

/// What every read from `i` gives: a successful one stops after `i` and within the
/// tokens, and its shape uses positions from `i` up to where it stopped, each once, in
/// order; a failed one points at a token that is there.
pub open spec fn read_ok(t: Seq<TokenView>, i: int, r: Parsed) -> bool {
    &&& r matches Ok((n, j)) ==> i < j <= t.len() && placed(leaves(n), i, j) && node_valid(n, t)
    &&& r matches Err(e) ==> error_in(e, t)
}

/// What every successful continuation after a shape placed in `lo..j` gives.
pub open spec fn rest_ok(t: Seq<TokenView>, lo: int, j: int, r: Parsed) -> bool {
    &&& r matches Ok((n, k)) ==> j <= k <= t.len() && placed(leaves(n), lo, k) && node_valid(n, t)
    &&& r matches Err(e) ==> error_in(e, t)
}


/// A disjunction read from `i` moves forward and uses its tokens once each.
pub proof fn lemma_or(t: Seq<TokenView>, i: int)
    requires
        0 <= i <= t.len(),
        t.len() <= usize::MAX,
    ensures
        read_ok(t, i, spec_or(t, i)),
    decreases t.len() - i, 60int,
{
    lemma_and(t, i);
    if let Ok((n, j)) = spec_and(t, i) {
        if i <= j <= t.len() {
            lemma_or_rest(t, n, i, j);
        }
    }
}

proof fn lemma_or_rest(t: Seq<TokenView>, left: Node, lo: int, j: int)
    requires
        0 <= lo <= j <= t.len(),
        t.len() <= usize::MAX,
        placed(leaves(left), lo, j),
        node_valid(left, t),
    ensures
        rest_ok(t, lo, j, or_rest(t, left, j)),
    decreases t.len() - j, 59int,
{
    if op_at(t, j, "または"@) {
        lemma_and(t, j + 1);
        if let Ok((r, k)) = spec_and(t, j + 1) {
            lemma_placed_widen(leaves(left), lo, j, lo, j + 1);
            lemma_placed_concat(leaves(left), leaves(r), lo, j + 1, k);
            let n = Node::Binary(Box::new(left), BinaryOp::Or, Box::new(r));
            assert(leaves(n) == leaves(left) + leaves(r));
            if j < k <= t.len() {
                lemma_or_rest(t, n, lo, k);
            }
        }
    }
}

proof fn lemma_and(t: Seq<TokenView>, i: int)
    requires
        0 <= i <= t.len(),
        t.len() <= usize::MAX,
    ensures
        read_ok(t, i, spec_and(t, i)),
    decreases t.len() - i, 58int,
{
    lemma_primary(t, i);
    if let Ok((n, j)) = spec_primary(t, i) {
        if i <= j <= t.len() {
            lemma_and_rest(t, n, i, j);
        }
    }
}

proof fn lemma_and_rest(t: Seq<TokenView>, left: Node, lo: int, j: int)
    requires
        0 <= lo <= j <= t.len(),
        t.len() <= usize::MAX,
        placed(leaves(left), lo, j),
        node_valid(left, t),
    ensures
        rest_ok(t, lo, j, and_rest(t, left, j)),
    decreases t.len() - j, 57int,
{
    if op_at(t, j, "かつ"@) {
        lemma_primary(t, j + 1);
        if let Ok((r, k)) = spec_primary(t, j + 1) {
            lemma_placed_widen(leaves(left), lo, j, lo, j + 1);
            lemma_placed_concat(leaves(left), leaves(r), lo, j + 1, k);
            let n = Node::Binary(Box::new(left), BinaryOp::And, Box::new(r));
            assert(leaves(n) == leaves(left) + leaves(r));
            if j < k <= t.len() {
                lemma_and_rest(t, n, lo, k);
            }
        }
    }
}

proof fn lemma_primary(t: Seq<TokenView>, i: int)
    requires
        0 <= i <= t.len(),
        t.len() <= usize::MAX,
    ensures
        read_ok(t, i, spec_primary(t, i)),
    decreases t.len() - i, 56int,
{
    lemma_base(t, i);
    if let Ok((n, j)) = spec_base(t, i) {
        if i <= j <= t.len() {
            lemma_not_rest(t, n, i, j);
        }
    }
}

proof fn lemma_not_rest(t: Seq<TokenView>, inner: Node, lo: int, j: int)
    requires
        0 <= lo <= j <= t.len(),
        t.len() <= usize::MAX,
        placed(leaves(inner), lo, j),
        node_valid(inner, t),
    ensures
        rest_ok(t, lo, j, not_rest(t, inner, j)),
    decreases t.len() - j, 55int,
{
    if op_at(t, j, "でない"@) {
        let n = Node::Not(Box::new(inner), j as usize);
        lemma_placed_one(j);
        lemma_placed_concat(leaves(inner), seq![j], lo, j, j + 1);
        assert(leaves(n) =~= leaves(inner) + seq![j]);
        lemma_not_rest(t, n, lo, j + 1);
    }
}

proof fn lemma_base(t: Seq<TokenView>, i: int)
    requires
        0 <= i <= t.len(),
        t.len() <= usize::MAX,
    ensures
        read_ok(t, i, spec_base(t, i)),
    decreases t.len() - i, 54int,
{
    if time_at(t, i) && op_at(t, i + 1, "~"@) {
        if time_at(t, i + 2) {
            assert(leaves(Node::TimeRange(i as usize, Some((i + 2) as usize))) =~= seq![i, i + 2]);
        } else {
            assert(leaves(Node::TimeRange(i as usize, None)) =~= seq![i]);
        }
    } else if op_at(t, i, "~"@) && time_at(t, i + 1) {
    } else if op_at(t, i, "~"@) {
        lemma_base_value(t, i + 1);
        if let Ok((n, j)) = base_value(t, i + 1) {
            lemma_placed_widen(leaves(n), i + 1, j, i, j);
        }
    } else {
        lemma_base_value(t, i);
    }
}

proof fn lemma_base_value(t: Seq<TokenView>, i: int)
    requires
        0 <= i <= t.len(),
        t.len() <= usize::MAX,
    ensures
        read_ok(t, i, base_value(t, i)),
    decreases t.len() - i, 53int,
{
    lemma_add_sub(t, i);
    if let Ok((left, j)) = spec_add_sub(t, i) {
        if i <= j <= t.len() {
            lemma_base_tail(t, left, i, j);
        }
    }
}

/// The positions an optional shape uses.
pub open spec fn opt_leaves(n: Option<Box<Node>>) -> Seq<int> {
    match n {
        Some(b) => leaves(*b),
        None => Seq::empty(),
    }
}

proof fn lemma_base_tail(t: Seq<TokenView>, left: Node, lo: int, j: int)
    requires
        0 <= lo <= j <= t.len(),
        t.len() <= usize::MAX,
        placed(leaves(left), lo, j),
        node_valid(left, t),
    ensures
        rest_ok(t, lo, j, base_tail(t, left, j)),
    decreases t.len() - j, 52int,
{
    lemma_placed_widen(leaves(left), lo, j, lo, j + 1);
    match comparison_op_at(t, j) {
        Some(op) => {
            lemma_add_sub(t, j + 1);
            if let Ok((r, m)) = spec_add_sub(t, j + 1) {
                lemma_placed_concat(leaves(left), leaves(r), lo, j + 1, m);
            }
        },
        None => if op_at(t, j, "~"@) {
            lemma_range_end(t, j + 1);
            if let Ok((end, m)) = range_end(t, j + 1) {
                lemma_placed_concat(leaves(left), opt_leaves(end), lo, j + 1, m);
                assert(leaves(Node::Range(Box::new(left), None, end)) =~= leaves(left) + opt_leaves(end));
            }
        } else if value_start_at(t, j) {
            lemma_value_tail(t, left, lo, j);
        },
    }
}

proof fn lemma_range_end(t: Seq<TokenView>, j: int)
    requires
        0 <= j <= t.len(),
        t.len() <= usize::MAX,
    ensures
        range_end(t, j) matches Ok((e, m)) ==> j <= m <= t.len() && placed(opt_leaves(e), j, m)
            && match e {
            Some(b) => node_valid(*b, t),
            None => true,
        },
        range_end(t, j) matches Err(x) ==> error_in(x, t),
    decreases t.len() - j, 49int,
{
    if j < t.len() && !logical_at(t, j) {
        lemma_add_sub(t, j);
    }
}

proof fn lemma_value_tail(t: Seq<TokenView>, left: Node, lo: int, j: int)
    requires
        0 <= lo <= j <= t.len(),
        t.len() <= usize::MAX,
        placed(leaves(left), lo, j),
        node_valid(left, t),
    ensures
        rest_ok(t, lo, j, value_tail(t, left, j)),
    decreases t.len() - j, 51int,
{
    lemma_add_sub(t, j);
    if let Ok((v, m)) = spec_add_sub(t, j) {
        lemma_placed_concat(leaves(left), leaves(v), lo, j, m);
        lemma_placed_widen(leaves(left) + leaves(v), lo, m, lo, m + 1);
        if op_at(t, m, "~"@) {
            lemma_range_end(t, m + 1);
            if let Ok((end, q)) = range_end(t, m + 1) {
                lemma_placed_concat(leaves(left) + leaves(v), opt_leaves(end), lo, m + 1, q);
                assert(leaves(Node::Range(Box::new(left), Some(Box::new(v)), end))
                    =~= leaves(left) + leaves(v) + opt_leaves(end));
            }
        }
    }
}

proof fn lemma_add_sub(t: Seq<TokenView>, i: int)
    requires
        0 <= i <= t.len(),
        t.len() <= usize::MAX,
    ensures
        read_ok(t, i, spec_add_sub(t, i)),
    decreases t.len() - i, 31int,
{
    lemma_mul_div(t, i);
    if let Ok((n, j)) = spec_mul_div(t, i) {
        if i <= j <= t.len() {
            lemma_add_rest(t, n, i, j);
        }
    }
}

proof fn lemma_add_rest(t: Seq<TokenView>, left: Node, lo: int, j: int)
    requires
        0 <= lo <= j <= t.len(),
        t.len() <= usize::MAX,
        placed(leaves(left), lo, j),
        node_valid(left, t),
    ensures
        rest_ok(t, lo, j, add_rest(t, left, j)),
    decreases t.len() - j, 30int,
{
    if let Some(op) = additive_op_at(t, j) {
        lemma_mul_div(t, j + 1);
        if let Ok((r, k)) = spec_mul_div(t, j + 1) {
            lemma_placed_widen(leaves(left), lo, j, lo, j + 1);
            lemma_placed_concat(leaves(left), leaves(r), lo, j + 1, k);
            let n = Node::Binary(Box::new(left), op, Box::new(r));
            assert(leaves(n) == leaves(left) + leaves(r));
            if j < k <= t.len() {
                lemma_add_rest(t, n, lo, k);
            }
        }
    }
}

proof fn lemma_mul_div(t: Seq<TokenView>, i: int)
    requires
        0 <= i <= t.len(),
        t.len() <= usize::MAX,
    ensures
        read_ok(t, i, spec_mul_div(t, i)),
    decreases t.len() - i, 29int,
{
    lemma_unary(t, i);
    if let Ok((n, j)) = spec_unary(t, i) {
        if i <= j <= t.len() {
            lemma_mul_rest(t, n, i, j);
        }
    }
}

proof fn lemma_mul_rest(t: Seq<TokenView>, left: Node, lo: int, j: int)
    requires
        0 <= lo <= j <= t.len(),
        t.len() <= usize::MAX,
        placed(leaves(left), lo, j),
        node_valid(left, t),
    ensures
        rest_ok(t, lo, j, mul_rest(t, left, j)),
    decreases t.len() - j, 28int,
{
    if let Some(op) = multiplicative_op_at(t, j) {
        lemma_unary(t, j + 1);
        if let Ok((r, k)) = spec_unary(t, j + 1) {
            lemma_placed_widen(leaves(left), lo, j, lo, j + 1);
            lemma_placed_concat(leaves(left), leaves(r), lo, j + 1, k);
            let n = Node::Binary(Box::new(left), op, Box::new(r));
            assert(leaves(n) == leaves(left) + leaves(r));
            if j < k <= t.len() {
                lemma_mul_rest(t, n, lo, k);
            }
        }
    }
}

proof fn lemma_unary(t: Seq<TokenView>, i: int)
    requires
        0 <= i <= t.len(),
        t.len() <= usize::MAX,
    ensures
        read_ok(t, i, spec_unary(t, i)),
    decreases t.len() - i, 27int,
{
    if op_at(t, i, "+"@) || op_at(t, i, "-"@) {
        lemma_unary(t, i + 1);
        if let Ok((n, j)) = spec_unary(t, i + 1) {
            lemma_placed_one(i);
            lemma_placed_concat(seq![i], leaves(n), i, i + 1, j);
            let op = if op_at(t, i, "+"@) {
                UnaryOp::Plus
            } else {
                UnaryOp::Minus
            };
            assert(leaves(Node::Unary(op, i as usize, Box::new(n))) =~= seq![i] + leaves(n));
        }
    } else {
        lemma_atom(t, i);
    }
}

proof fn lemma_atom(t: Seq<TokenView>, i: int)
    requires
        0 <= i <= t.len(),
        t.len() <= usize::MAX,
    ensures
        read_ok(t, i, spec_atom(t, i)),
    decreases t.len() - i, 26int,
{
    if 0 <= i < t.len() {
        lemma_placed_one(i);
        assert(leaves(Node::Leaf(i as usize)) =~= seq![i]);
        if t[i].kind is LParen {
            lemma_or(t, i + 1);
            if let Ok((n, j)) = spec_or(t, i + 1) {
                lemma_placed_widen(leaves(n), i + 1, j, i, j + 1);
            }
        }
    }
}


// ---------------------------------------------------------------------------
// Reading the shape
// ---------------------------------------------------------------------------

/// `r` and the stopping position `index` are what the read `p` describes.
pub open spec fn parsed_as(r: Result<Node, ExprError>, index: int, p: Parsed) -> bool {
    match p {
        Ok((n, j)) => r == Ok::<Node, ExprError>(n) && index == j,
        Err(e) => r == Err::<Node, ExprError>(e),
    }
}

/// A cursor over the tokens of one expression.
pub struct ExprStream {
    pub tokens: Vec<ExprToken>,
    pub index: usize,
}

impl ExprStream {
    /// Whether the token at `k` is the operator `op`.
    fn op_is(&self, k: usize, op: &str) -> (r: bool)
        ensures
            r == op_at(token_views(self.tokens@), k as int, op@),
    {
        if k < self.tokens.len() {
            match &self.tokens[k].kind {
                ExprTokenKind::Op(s) => str_is(s.as_str(), op),
                _ => false,
            }
        } else {
            false
        }
    }

    /// Whether the token at `k` is a time.
    fn time_is(&self, k: usize) -> (r: bool)
        ensures
            r == time_at(token_views(self.tokens@), k as int),
    {
        k < self.tokens.len() && matches!(self.tokens[k].kind, ExprTokenKind::Time(_))
    }

    /// Whether the token at `k` can start a value.
    fn value_start_is(&self, k: usize) -> (r: bool)
        ensures
            r == value_start_at(token_views(self.tokens@), k as int),
    {
        if k < self.tokens.len() {
            match &self.tokens[k].kind {
                ExprTokenKind::Number(_) | ExprTokenKind::String(_) | ExprTokenKind::Bool(_)
                | ExprTokenKind::Ident(_) | ExprTokenKind::Function(_) | ExprTokenKind::LParen => true,
                _ => false,
            }
        } else {
            false
        }
    }

    /// Whether the current token is `かつ` or `または`.
    fn peek_is_logical(&self) -> (r: bool)
        ensures
            r == logical_at(token_views(self.tokens@), self.index as int),
    {
        self.op_is(self.index, "かつ") || self.op_is(self.index, "または")
    }

    /// Consumes the operator `op` if it is the current token.
    fn consume_op(&mut self, op: &str) -> (r: bool)
        ensures
            final(self).tokens == old(self).tokens,
            r == op_at(token_views(old(self).tokens@), old(self).index as int, op@),
            final(self).index == if r {
                old(self).index + 1
            } else {
                old(self).index as int
            },
    {
        if self.op_is(self.index, op) {
            assert(token_views(self.tokens@).len() == self.tokens.len());
            self.index += 1;
            true
        } else {
            false
        }
    }

    /// Consumes a comparison operator if one is the current token.
    fn consume_comparison_op(&mut self) -> (r: Option<ComparisonOp>)
        ensures
            final(self).tokens == old(self).tokens,
            r == comparison_op_at(token_views(old(self).tokens@), old(self).index as int),
            final(self).index == if r is Some {
                old(self).index + 1
            } else {
                old(self).index as int
            },
    {
        let k = self.index;
        let op = if self.op_is(k, "=") || self.op_is(k, "==") {
            Some(ComparisonOp::Eq)
        } else if self.op_is(k, "!=") {
            Some(ComparisonOp::Ne)
        } else if self.op_is(k, "<") {
            Some(ComparisonOp::Lt)
        } else if self.op_is(k, "<=") {
            Some(ComparisonOp::Lte)
        } else if self.op_is(k, ">") {
            Some(ComparisonOp::Gt)
        } else if self.op_is(k, ">=") {
            Some(ComparisonOp::Gte)
        } else {
            None
        };
        if op.is_some() {
            assert(token_views(self.tokens@).len() == self.tokens.len());
            self.index += 1;
        }
        op
    }

    /// Consumes a comparison written after its value if one is the current token.
    fn consume_postfix_op(&mut self) -> (r: Option<ComparisonOp>)
        ensures
            final(self).tokens == old(self).tokens,
            r == postfix_op_at(token_views(old(self).tokens@), old(self).index as int),
            final(self).index == if r is Some {
                old(self).index + 1
            } else {
                old(self).index as int
            },
    {
        let k = self.index;
        let op = if self.op_is(k, "未満") {
            Some(ComparisonOp::Lt)
        } else if self.op_is(k, "以下") {
            Some(ComparisonOp::Lte)
        } else if self.op_is(k, "以上") {
            Some(ComparisonOp::Gte)
        } else if self.op_is(k, "超える") {
            Some(ComparisonOp::Gt)
        } else {
            None
        };
        if op.is_some() {
            assert(token_views(self.tokens@).len() == self.tokens.len());
            self.index += 1;
        }
        op
    }

    /// Consumes a text match if one is the current token.
    fn consume_string_match_op(&mut self) -> (r: Option<StringMatchOp>)
        ensures
            final(self).tokens == old(self).tokens,
            r == string_match_op_at(token_views(old(self).tokens@), old(self).index as int),
            final(self).index == if r is Some {
                old(self).index + 1
            } else {
                old(self).index as int
            },
    {
        let k = self.index;
        let op = if self.op_is(k, "を含む") {
            Some(StringMatchOp::Contains)
        } else if self.op_is(k, "で始まる") {
            Some(StringMatchOp::StartsWith)
        } else if self.op_is(k, "で終わる") {
            Some(StringMatchOp::EndsWith)
        } else {
            None
        };
        if op.is_some() {
            assert(token_views(self.tokens@).len() == self.tokens.len());
            self.index += 1;
        }
        op
    }
}


impl ExprStream {
    /// Reads conditions joined by `または`.
    fn parse_or(&mut self) -> (r: Result<Node, ExprError>)
        requires
            old(self).index <= old(self).tokens@.len(),
        ensures
            final(self).tokens == old(self).tokens,
            final(self).index <= final(self).tokens@.len(),
            parsed_as(r, final(self).index as int, spec_or(token_views(old(self).tokens@), old(self).index as int)),
        decreases self.tokens@.len() - self.index, 60int,
    {
        proof {
            assert(token_views(self.tokens@).len() == self.tokens.len());
            lemma_and(token_views(self.tokens@), self.index as int);
        }
        let expr = match self.parse_and() {
            Ok(n) => n,
            Err(e) => return Err(e),
        };
        self.parse_or_rest(expr)
    }

    /// Reads further `または` operands after `left`.
    fn parse_or_rest(&mut self, left: Node) -> (r: Result<Node, ExprError>)
        requires
            old(self).index <= old(self).tokens@.len(),
        ensures
            final(self).tokens == old(self).tokens,
            final(self).index <= final(self).tokens@.len(),
            parsed_as(r, final(self).index as int, or_rest(token_views(old(self).tokens@), left, old(self).index as int)),
        decreases self.tokens@.len() - self.index, 59int,
    {
        let j = self.index;
        if !self.consume_op("または") {
            return Ok(left);
        }
        proof {
            assert(token_views(self.tokens@).len() == self.tokens.len());
            lemma_and(token_views(self.tokens@), j + 1);
        }
        let right = match self.parse_and() {
            Ok(n) => n,
            Err(e) => return Err(e),
        };
        self.parse_or_rest(Node::Binary(Box::new(left), BinaryOp::Or, Box::new(right)))
    }

    /// Reads conditions joined by `かつ`.
    fn parse_and(&mut self) -> (r: Result<Node, ExprError>)
        requires
            old(self).index <= old(self).tokens@.len(),
        ensures
            final(self).tokens == old(self).tokens,
            final(self).index <= final(self).tokens@.len(),
            parsed_as(r, final(self).index as int, spec_and(token_views(old(self).tokens@), old(self).index as int)),
        decreases self.tokens@.len() - self.index, 58int,
    {
        proof {
            assert(token_views(self.tokens@).len() == self.tokens.len());
            lemma_primary(token_views(self.tokens@), self.index as int);
        }
        let expr = match self.parse_condition_primary() {
            Ok(n) => n,
            Err(e) => return Err(e),
        };
        self.parse_and_rest(expr)
    }

    /// Reads further `かつ` operands after `left`.
    fn parse_and_rest(&mut self, left: Node) -> (r: Result<Node, ExprError>)
        requires
            old(self).index <= old(self).tokens@.len(),
        ensures
            final(self).tokens == old(self).tokens,
            final(self).index <= final(self).tokens@.len(),
            parsed_as(r, final(self).index as int, and_rest(token_views(old(self).tokens@), left, old(self).index as int)),
        decreases self.tokens@.len() - self.index, 57int,
    {
        let j = self.index;
        if !self.consume_op("かつ") {
            return Ok(left);
        }
        proof {
            assert(token_views(self.tokens@).len() == self.tokens.len());
            lemma_primary(token_views(self.tokens@), j + 1);
        }
        let right = match self.parse_condition_primary() {
            Ok(n) => n,
            Err(e) => return Err(e),
        };
        self.parse_and_rest(Node::Binary(Box::new(left), BinaryOp::And, Box::new(right)))
    }

    /// Reads terms joined by `+` and `-`.
    fn parse_add_sub(&mut self) -> (r: Result<Node, ExprError>)
        requires
            old(self).index <= old(self).tokens@.len(),
        ensures
            final(self).tokens == old(self).tokens,
            final(self).index <= final(self).tokens@.len(),
            parsed_as(r, final(self).index as int, spec_add_sub(token_views(old(self).tokens@), old(self).index as int)),
        decreases self.tokens@.len() - self.index, 31int,
    {
        proof {
            assert(token_views(self.tokens@).len() == self.tokens.len());
            lemma_mul_div(token_views(self.tokens@), self.index as int);
        }
        let expr = match self.parse_mul_div() {
            Ok(n) => n,
            Err(e) => return Err(e),
        };
        self.parse_add_rest(expr)
    }

    /// Reads further terms after `left`.
    fn parse_add_rest(&mut self, left: Node) -> (r: Result<Node, ExprError>)
        requires
            old(self).index <= old(self).tokens@.len(),
        ensures
            final(self).tokens == old(self).tokens,
            final(self).index <= final(self).tokens@.len(),
            parsed_as(r, final(self).index as int, add_rest(token_views(old(self).tokens@), left, old(self).index as int)),
        decreases self.tokens@.len() - self.index, 30int,
    {
        let j = self.index;
        let op = if self.consume_op("+") {
            BinaryOp::Add
        } else if self.consume_op("-") {
            BinaryOp::Subtract
        } else {
            return Ok(left);
        };
        proof {
            assert(token_views(self.tokens@).len() == self.tokens.len());
            lemma_mul_div(token_views(self.tokens@), j + 1);
        }
        let right = match self.parse_mul_div() {
            Ok(n) => n,
            Err(e) => return Err(e),
        };
        self.parse_add_rest(Node::Binary(Box::new(left), op, Box::new(right)))
    }

    /// Reads factors joined by `*`, `/` and `%`.
    fn parse_mul_div(&mut self) -> (r: Result<Node, ExprError>)
        requires
            old(self).index <= old(self).tokens@.len(),
        ensures
            final(self).tokens == old(self).tokens,
            final(self).index <= final(self).tokens@.len(),
            parsed_as(r, final(self).index as int, spec_mul_div(token_views(old(self).tokens@), old(self).index as int)),
        decreases self.tokens@.len() - self.index, 29int,
    {
        proof {
            assert(token_views(self.tokens@).len() == self.tokens.len());
            lemma_unary(token_views(self.tokens@), self.index as int);
        }
        let expr = match self.parse_unary() {
            Ok(n) => n,
            Err(e) => return Err(e),
        };
        self.parse_mul_rest(expr)
    }

    /// Reads further factors after `left`.
    fn parse_mul_rest(&mut self, left: Node) -> (r: Result<Node, ExprError>)
        requires
            old(self).index <= old(self).tokens@.len(),
        ensures
            final(self).tokens == old(self).tokens,
            final(self).index <= final(self).tokens@.len(),
            parsed_as(r, final(self).index as int, mul_rest(token_views(old(self).tokens@), left, old(self).index as int)),
        decreases self.tokens@.len() - self.index, 28int,
    {
        let j = self.index;
        let op = if self.consume_op("*") {
            BinaryOp::Multiply
        } else if self.consume_op("/") {
            BinaryOp::Divide
        } else if self.consume_op("%") {
            BinaryOp::Modulo
        } else {
            return Ok(left);
        };
        proof {
            assert(token_views(self.tokens@).len() == self.tokens.len());
            lemma_unary(token_views(self.tokens@), j + 1);
        }
        let right = match self.parse_unary() {
            Ok(n) => n,
            Err(e) => return Err(e),
        };
        self.parse_mul_rest(Node::Binary(Box::new(left), op, Box::new(right)))
    }

    /// Reads a condition followed by any number of `でない`.
    fn parse_condition_primary(&mut self) -> (r: Result<Node, ExprError>)
        requires
            old(self).index <= old(self).tokens@.len(),
        ensures
            final(self).tokens == old(self).tokens,
            final(self).index <= final(self).tokens@.len(),
            parsed_as(r, final(self).index as int, spec_primary(token_views(old(self).tokens@), old(self).index as int)),
        decreases self.tokens@.len() - self.index, 56int,
    {
        proof {
            assert(token_views(self.tokens@).len() == self.tokens.len());
            lemma_base(token_views(self.tokens@), self.index as int);
        }
        let expr = match self.parse_condition_primary_base() {
            Ok(n) => n,
            Err(e) => return Err(e),
        };
        self.parse_not_rest(expr)
    }

    /// Applies each `でない` that follows to `inner`.
    fn parse_not_rest(&mut self, inner: Node) -> (r: Result<Node, ExprError>)
        requires
            old(self).index <= old(self).tokens@.len(),
        ensures
            final(self).tokens == old(self).tokens,
            final(self).index <= final(self).tokens@.len(),
            parsed_as(r, final(self).index as int, not_rest(token_views(old(self).tokens@), inner, old(self).index as int)),
        decreases self.tokens@.len() - self.index, 55int,
    {
        let j = self.index;
        if !self.consume_op("でない") {
            return Ok(inner);
        }
        self.parse_not_rest(Node::Not(Box::new(inner), j))
    }

    /// Reads a value with any number of leading signs.
    fn parse_unary(&mut self) -> (r: Result<Node, ExprError>)
        requires
            old(self).index <= old(self).tokens@.len(),
        ensures
            final(self).tokens == old(self).tokens,
            final(self).index <= final(self).tokens@.len(),
            parsed_as(r, final(self).index as int, spec_unary(token_views(old(self).tokens@), old(self).index as int)),
        decreases self.tokens@.len() - self.index, 27int,
    {
        let i = self.index;
        let op = if self.consume_op("+") {
            UnaryOp::Plus
        } else if self.consume_op("-") {
            UnaryOp::Minus
        } else {
            return self.parse_atom();
        };
        let expr = match self.parse_unary() {
            Ok(n) => n,
            Err(e) => return Err(e),
        };
        Ok(Node::Unary(op, i, Box::new(expr)))
    }

    /// Reads a single value, or a parenthesized condition.
    fn parse_atom(&mut self) -> (r: Result<Node, ExprError>)
        requires
            old(self).index <= old(self).tokens@.len(),
        ensures
            final(self).tokens == old(self).tokens,
            final(self).index <= final(self).tokens@.len(),
            parsed_as(r, final(self).index as int, spec_atom(token_views(old(self).tokens@), old(self).index as int)),
        decreases self.tokens@.len() - self.index, 26int,
    {
        if self.index >= self.tokens.len() {
            return Err(ExprError::Truncated);
        }
        let i = self.index;
        self.index += 1;
        if matches!(self.tokens[i].kind, ExprTokenKind::LParen) {
            let expr = match self.parse_or() {
                Ok(n) => n,
                Err(e) => return Err(e),
            };
            let j = self.index;
            if j < self.tokens.len() && matches!(self.tokens[j].kind, ExprTokenKind::RParen) {
                self.index += 1;
                return Ok(expr);
            }
            return Err(ExprError::MissingClose(i));
        }
        match &self.tokens[i].kind {
            ExprTokenKind::Number(value) => {
                if parse_number(value.as_str()).is_some() {
                    Ok(Node::Leaf(i))
                } else {
                    Err(ExprError::BadNumber(i))
                }
            },
            ExprTokenKind::String(_) | ExprTokenKind::Bool(_) | ExprTokenKind::Ident(_)
            | ExprTokenKind::Function(_) => Ok(Node::Leaf(i)),
            _ => Err(ExprError::ExpectedValue(i)),
        }
    }
}


impl ExprStream {
    /// Reads a single condition: a time range, or a condition that starts with a value.
    fn parse_condition_primary_base(&mut self) -> (r: Result<Node, ExprError>)
        requires
            old(self).index <= old(self).tokens@.len(),
        ensures
            final(self).tokens == old(self).tokens,
            final(self).index <= final(self).tokens@.len(),
            parsed_as(r, final(self).index as int, spec_base(token_views(old(self).tokens@), old(self).index as int)),
        decreases self.tokens@.len() - self.index, 54int,
    {
        let i = self.index;
        let ghost t = token_views(self.tokens@);
        assert(t.len() == self.tokens.len());
        if self.time_is(i) && self.op_is(i + 1, "~") {
            if self.time_is(i + 2) {
                self.index = i + 3;
                return Ok(Node::TimeRange(i, Some(i + 2)));
            }
            self.index = i + 2;
            return Ok(Node::TimeRange(i, None));
        }
        if self.op_is(i, "~") {
            self.index = i + 1;
            if self.time_is(i + 1) {
                self.index = i + 2;
                return Ok(Node::OpenTimeRange(i + 1));
            }
            assert(spec_base(t, i as int) == base_value(t, i + 1));
        } else {
            assert(spec_base(t, i as int) == base_value(t, i as int));
        }
        self.parse_condition_value()
    }

    /// Reads a condition that starts with a value.
    fn parse_condition_value(&mut self) -> (r: Result<Node, ExprError>)
        requires
            old(self).index <= old(self).tokens@.len(),
        ensures
            final(self).tokens == old(self).tokens,
            final(self).index <= final(self).tokens@.len(),
            parsed_as(r, final(self).index as int, base_value(token_views(old(self).tokens@), old(self).index as int)),
        decreases self.tokens@.len() - self.index, 53int,
    {
        proof {
            assert(token_views(self.tokens@).len() == self.tokens.len());
            lemma_add_sub(token_views(self.tokens@), self.index as int);
        }
        let left = match self.parse_add_sub() {
            Ok(n) => n,
            Err(e) => return Err(e),
        };
        self.parse_value_tail(left)
    }

    /// What follows the value `left` of a condition.
    fn parse_value_tail(&mut self, left: Node) -> (r: Result<Node, ExprError>)
        requires
            old(self).index <= old(self).tokens@.len(),
        ensures
            final(self).tokens == old(self).tokens,
            final(self).index <= final(self).tokens@.len(),
            parsed_as(r, final(self).index as int, base_tail(token_views(old(self).tokens@), left, old(self).index as int)),
        decreases self.tokens@.len() - self.index, 52int,
    {
        let j = self.index;
        if let Some(op) = self.consume_comparison_op() {
            let right = match self.parse_add_sub() {
                Ok(n) => n,
                Err(e) => return Err(e),
            };
            return Ok(Node::Comparison(Box::new(left), op, Box::new(right)));
        }
        if self.consume_op("~") {
            let end = match self.parse_range_end() {
                Ok(end) => end,
                Err(e) => return Err(e),
            };
            return Ok(Node::Range(Box::new(left), None, end));
        }
        if self.value_start_is(j) {
            return self.parse_second_value(left);
        }
        Ok(Node::Truthy(Box::new(left)))
    }

    /// The optional end of a range, after its `~`.
    fn parse_range_end(&mut self) -> (r: Result<Option<Box<Node>>, ExprError>)
        requires
            old(self).index <= old(self).tokens@.len(),
        ensures
            final(self).tokens == old(self).tokens,
            final(self).index <= final(self).tokens@.len(),
            match range_end(token_views(old(self).tokens@), old(self).index as int) {
                Ok((e, m)) => r == Ok::<Option<Box<Node>>, ExprError>(e) && final(self).index == m,
                Err(x) => r == Err::<Option<Box<Node>>, ExprError>(x),
            },
        decreases self.tokens@.len() - self.index, 49int,
    {
        if self.index < self.tokens.len() && !self.peek_is_logical() {
            match self.parse_add_sub() {
                Ok(n) => Ok(Some(Box::new(n))),
                Err(e) => Err(e),
            }
        } else {
            Ok(None)
        }
    }

    /// A second value after the value `left`: a range from it, or a comparison or text
    /// match written after it; otherwise `left` is taken for its truth and the second
    /// value is read again later.
    fn parse_second_value(&mut self, left: Node) -> (r: Result<Node, ExprError>)
        requires
            old(self).index <= old(self).tokens@.len(),
        ensures
            final(self).tokens == old(self).tokens,
            final(self).index <= final(self).tokens@.len(),
            parsed_as(r, final(self).index as int, value_tail(token_views(old(self).tokens@), left, old(self).index as int)),
        decreases self.tokens@.len() - self.index, 51int,
    {
        let j = self.index;
        proof {
            assert(token_views(self.tokens@).len() == self.tokens.len());
            lemma_add_sub(token_views(self.tokens@), j as int);
        }
        if let Ok(value) = self.parse_add_sub() {
            if self.consume_op("~") {
                let end = match self.parse_range_end() {
                    Ok(end) => end,
                    Err(e) => return Err(e),
                };
                return Ok(Node::Range(Box::new(left), Some(Box::new(value)), end));
            }
            if let Some(op) = self.consume_postfix_op() {
                return Ok(Node::Postfix(Box::new(left), Box::new(value), op));
            }
            if let Some(op) = self.consume_string_match_op() {
                return Ok(Node::StringMatch(Box::new(left), Box::new(value), op));
            }
        }
        self.index = j;
        Ok(Node::Truthy(Box::new(left)))
    }
}


// ---------------------------------------------------------------------------
// Building the expression
// ---------------------------------------------------------------------------

/// The time a time token carries.
pub open spec fn time_of(tok: ExprToken) -> TimeOfDay {
    match tok.kind {
        ExprTokenKind::Time(time) => time,
        _ => TimeOfDay { hour: 0, minute: 0, span: tok.span },
    }
}

/// `e` is the expression the value token `tok` stands for: a literal with the token's
/// span, the variable its name refers to, or the function call it holds.
pub open spec fn leaf_denotes(e: Expr, tok: ExprToken) -> bool {
    match tok.kind {
        ExprTokenKind::Number(s) => match e {
            Expr::Value(v) => v.span == tok.span && match v.value {
                LiteralValue::Number(n) => spec_parse_number(s@) == Some(number_view(n)),
                _ => false,
            },
            _ => false,
        },
        ExprTokenKind::String(s) => match e {
            Expr::Value(v) => v.span == tok.span && match v.value {
                LiteralValue::String(x) => x@ == s@,
                _ => false,
            },
            _ => false,
        },
        ExprTokenKind::Bool(b) => match e {
            Expr::Value(v) => v.span == tok.span && v.value == LiteralValue::Boolean(b),
            _ => false,
        },
        ExprTokenKind::Ident(name) => match e {
            Expr::Variable(r) => parsed_variable_is(r, name@, tok.span),
            _ => false,
        },
        ExprTokenKind::Function(c) => e == Expr::FunctionCall(c),
        _ => false,
    }
}

/// The span of an optional expression, or `otherwise`.
pub open spec fn span_or(e: Option<Box<Expr>>, otherwise: Span) -> Span {
    match e {
        Some(b) => b.spec_span(),
        None => otherwise,
    }
}

/// `e` is the expression the shape `n` over the tokens `t` stands for. A compound
/// expression spans its parts; a negation also its `でない`, a sign its operator; a range
/// without a start spans its end (its value when it has none), a range with a start
/// spans from its value to its end (or start); a time range spans its times.
pub open spec fn denotes(e: Expr, n: Node, t: Seq<ExprToken>) -> bool
    decreases n,
{
    match n {
        Node::Leaf(k) => leaf_denotes(e, t[k as int]),
        Node::Not(a, k) => match e {
            Expr::Not { expr, span } => denotes(*expr, *a, t) && span == expr.spec_span().spec_join(
                t[k as int].span,
            ),
            _ => false,
        },
        Node::Unary(op, k, a) => match e {
            Expr::Unary { op: o, expr, span } => o == op && denotes(*expr, *a, t) && span
                == t[k as int].span.spec_join(expr.spec_span()),
            _ => false,
        },
        Node::Binary(a, op, b) => match e {
            Expr::Binary { left, op: o, right, span } => o == op && denotes(*left, *a, t)
                && denotes(*right, *b, t) && span == left.spec_span().spec_join(right.spec_span()),
            _ => false,
        },
        Node::Truthy(a) => match e {
            Expr::Truthy { expr, span } => denotes(*expr, *a, t) && span == expr.spec_span(),
            _ => false,
        },
        Node::Comparison(a, op, b) => match e {
            Expr::Comparison { left, op: o, right, span } => o == op && denotes(*left, *a, t)
                && denotes(*right, *b, t) && span == left.spec_span().spec_join(right.spec_span()),
            _ => false,
        },
        Node::Postfix(a, v, op) => match e {
            Expr::PostfixComparison { left, value, op: o, span } => o == op && denotes(
                *left,
                *a,
                t,
            ) && denotes(*value, *v, t) && span == left.spec_span().spec_join(value.spec_span()),
            _ => false,
        },
        Node::StringMatch(a, v, op) => match e {
            Expr::StringMatch { left, value, op: o, span } => o == op && denotes(*left, *a, t)
                && denotes(*value, *v, t) && span == left.spec_span().spec_join(value.spec_span()),
            _ => false,
        },
        Node::Range(a, s, en) => match e {
            Expr::Range { left, start, end, span } => denotes(*left, *a, t) && match (s, start) {
                (Some(sn), Some(se)) => denotes(*se, *sn, t) && span == left.spec_span().spec_join(
                    span_or(end, se.spec_span()),
                ),
                (None, None) => span == span_or(end, left.spec_span()),
                _ => false,
            } && match (en, end) {
                (Some(x), Some(y)) => denotes(*y, *x, t),
                (None, None) => true,
                _ => false,
            },
            _ => false,
        },
        Node::TimeRange(k, en) => {
            let first = t[k as int];
            match en {
                Some(m) => e == Expr::TimeRange {
                    start: Some(time_of(first)),
                    end: Some(time_of(t[m as int])),
                    span: first.span.spec_join(time_of(t[m as int]).span),
                },
                None => e == Expr::TimeRange {
                    start: Some(time_of(first)),
                    end: None,
                    span: first.span.spec_join(first.span),
                },
            }
        },
        Node::OpenTimeRange(k) => e == Expr::TimeRange {
            start: None,
            end: Some(time_of(t[k as int])),
            span: t[k as int].span,
        },
    }
}

/// The two halves of a placed sequence are placed, and every position of the first
/// comes before every position of the second.
pub proof fn lemma_placed_split(s1: Seq<int>, s2: Seq<int>, lo: int, hi: int)
    requires
        placed(s1 + s2, lo, hi),
    ensures
        placed(s1, lo, hi),
        placed(s2, lo, hi),
        forall|a: int, b: int| 0 <= a < s1.len() && 0 <= b < s2.len() ==> #[trigger] s1[a] < #[trigger] s2[b],
{
    let s = s1 + s2;
    assert forall|a: int, b: int| 0 <= a < b < s1.len() implies #[trigger] s1[a] < #[trigger] s1[b] by {
        assert(s[a] == s1[a] && s[b] == s1[b]);
    }
    assert forall|a: int| 0 <= a < s1.len() implies lo <= #[trigger] s1[a] < hi by {
        assert(s[a] == s1[a]);
    }
    assert forall|a: int, b: int| 0 <= a < b < s2.len() implies #[trigger] s2[a] < #[trigger] s2[b] by {
        assert(s[a + s1.len()] == s2[a] && s[b + s1.len()] == s2[b]);
    }
    assert forall|a: int| 0 <= a < s2.len() implies lo <= #[trigger] s2[a] < hi by {
        assert(s[a + s1.len()] == s2[a]);
    }
    assert forall|a: int, b: int| 0 <= a < s1.len() && 0 <= b < s2.len() implies #[trigger] s1[a]
        < #[trigger] s2[b] by {
        assert(s[a] == s1[a] && s[b + s1.len()] == s2[b]);
    }
}

/// The tokens still in `slots` at the positions `ks` are the tokens of `t` there.
pub open spec fn holds(slots: Seq<ExprToken>, t: Seq<ExprToken>, ks: Seq<int>) -> bool {
    forall|a: int| 0 <= a < ks.len() ==> slots[#[trigger] ks[a]] == t[ks[a]]
}

/// `after` is `before` except at the positions `ks`.
pub open spec fn same_except(before: Seq<ExprToken>, after: Seq<ExprToken>, ks: Seq<int>) -> bool {
    &&& after.len() == before.len()
    &&& forall|j: int| 0 <= j < before.len() && !ks.contains(j) ==> #[trigger] after[j] == before[j]
}

/// Takes the token at `k` out of `slots`, leaving a placeholder.
fn take_token(slots: &mut Vec<ExprToken>, k: usize) -> (tok: ExprToken)
    requires
        k < old(slots)@.len(),
    ensures
        tok == old(slots)@[k as int],
        same_except(old(slots)@, final(slots)@, seq![k as int]),
{
    let mut other = ExprToken { kind: ExprTokenKind::LParen, span: Span::empty() };
    std::mem::swap(&mut slots[k], &mut other);
    proof {
        assert(seq![k as int][0] == k);
    }
    other
}


/// Every position of `a` comes before every position of `b`.
pub open spec fn before_all(a: Seq<int>, b: Seq<int>) -> bool {
    forall|x: int, y: int| 0 <= x < a.len() && 0 <= y < b.len() ==> #[trigger] a[x] < #[trigger] b[y]
}

/// Holding the tokens of two lists is holding those of each.
proof fn lemma_holds_split(slots: Seq<ExprToken>, t: Seq<ExprToken>, a: Seq<int>, b: Seq<int>)
    requires
        holds(slots, t, a + b),
    ensures
        holds(slots, t, a),
        holds(slots, t, b),
{
    assert forall|x: int| 0 <= x < a.len() implies slots[#[trigger] a[x]] == t[a[x]] by {
        assert((a + b)[x] == a[x]);
    }
    assert forall|x: int| 0 <= x < b.len() implies slots[#[trigger] b[x]] == t[b[x]] by {
        assert((a + b)[x + a.len()] == b[x]);
    }
}

/// Taking the tokens at `a` leaves those at the later positions `b` in place.
proof fn lemma_holds_after(
    before: Seq<ExprToken>,
    mid: Seq<ExprToken>,
    t: Seq<ExprToken>,
    a: Seq<int>,
    b: Seq<int>,
)
    requires
        holds(before, t, b),
        same_except(before, mid, a),
        before_all(a, b),
        forall|y: int| 0 <= y < b.len() ==> 0 <= #[trigger] b[y] < before.len(),
    ensures
        holds(mid, t, b),
{
    assert forall|y: int| 0 <= y < b.len() implies mid[#[trigger] b[y]] == t[b[y]] by {
        if a.contains(b[y]) {
            let x = choose|x: int| 0 <= x < a.len() && a[x] == b[y];
            assert(a[x] < b[y]);
        }
    }
}

/// Taking at `a` and then at `b` takes at both.
proof fn lemma_same_except_join(
    before: Seq<ExprToken>,
    mid: Seq<ExprToken>,
    after: Seq<ExprToken>,
    a: Seq<int>,
    b: Seq<int>,
)
    requires
        same_except(before, mid, a),
        same_except(mid, after, b),
    ensures
        same_except(before, after, a + b),
{
    assert forall|j: int| 0 <= j < before.len() && !(a + b).contains(j) implies #[trigger] after[j]
        == before[j] by {
        if a.contains(j) {
            let x = choose|x: int| 0 <= x < a.len() && a[x] == j;
            assert((a + b)[x] == j);
        }
        if b.contains(j) {
            let x = choose|x: int| 0 <= x < b.len() && b[x] == j;
            assert((a + b)[x + a.len()] == j);
        }
    }
}

/// Taking nothing changes nothing.
proof fn lemma_same_except_none(s: Seq<ExprToken>)
    ensures
        same_except(s, s, Seq::empty()),
{
}


/// A placed list of two parts gives each part placed, the first before the second, and
/// the held tokens of each.
proof fn lemma_parts(slots: Seq<ExprToken>, t: Seq<ExprToken>, a: Seq<int>, b: Seq<int>)
    requires
        placed(a + b, 0, t.len() as int),
        holds(slots, t, a + b),
    ensures
        placed(a, 0, t.len() as int),
        placed(b, 0, t.len() as int),
        before_all(a, b),
        holds(slots, t, a),
        holds(slots, t, b),
{
    lemma_placed_split(a, b, 0, t.len() as int);
    lemma_holds_split(slots, t, a, b);
}

/// The token a leaf stands on, as an expression.
fn build_leaf(tok: ExprToken) -> (e: Expr)
    requires
        match tok.kind {
            ExprTokenKind::Number(s) => spec_parse_number(s@) is Some,
            ExprTokenKind::String(_) | ExprTokenKind::Bool(_) | ExprTokenKind::Ident(_)
            | ExprTokenKind::Function(_) => true,
            _ => false,
        },
    ensures
        leaf_denotes(e, tok),
{
    let span = tok.span;
    match tok.kind {
        ExprTokenKind::Number(s) => match parse_number(s.as_str()) {
            Some(n) => Expr::Value(Spanned::new(LiteralValue::Number(n), span)),
            None => unreached(),
        },
        ExprTokenKind::String(s) => Expr::Value(Spanned::new(LiteralValue::String(s), span)),
        ExprTokenKind::Bool(b) => Expr::Value(Spanned::new(LiteralValue::Boolean(b), span)),
        ExprTokenKind::Ident(name) => Expr::Variable(parse_variable_ref(name.as_str(), span)),
        ExprTokenKind::Function(c) => Expr::FunctionCall(c),
        _ => unreached(),
    }
}

/// The time a time token carries.
fn token_time(tok: ExprToken) -> (time: TimeOfDay)
    requires
        tok.kind is Time,
    ensures
        time == time_of(tok),
{
    match tok.kind {
        ExprTokenKind::Time(time) => time,
        _ => unreached(),
    }
}

/// Builds the expression the shape `node` stands for, taking its tokens out of `slots`.
fn build(node: Node, slots: &mut Vec<ExprToken>, Ghost(t): Ghost<Seq<ExprToken>>) -> (e: Expr)
    requires
        old(slots)@.len() == t.len(),
        node_valid(node, token_views(t)),
        placed(leaves(node), 0, t.len() as int),
        holds(old(slots)@, t, leaves(node)),
    ensures
        denotes(e, node, t),
        same_except(old(slots)@, final(slots)@, leaves(node)),
    decreases node, 1int,
{
    if matches!(node, Node::Binary(..) | Node::Comparison(..) | Node::Postfix(..) | Node::StringMatch(..)) {
        return build_pair(node, slots, Ghost(t));
    }
    if matches!(node, Node::Range(..)) {
        return build_range(node, slots, Ghost(t));
    }
    let ghost n0 = node;
    let ghost s0 = slots@;
    match node {
        Node::Leaf(k) => {
            proof {
                assert(leaves(n0)[0] == k);
            }
            let tok = take_token(slots, k);
            build_leaf(tok)
        },
        Node::Not(a, k) => {
            let ghost la = leaves(*a);
            proof {
                assert(leaves(n0) =~= la + seq![k as int]);
                lemma_parts(s0, t, la, seq![k as int]);
            }
            let inner = build(*a, slots, Ghost(t));
            let ghost s1 = slots@;
            proof {
                lemma_holds_after(s0, s1, t, la, seq![k as int]);
                assert(seq![k as int][0] == k);
            }
            let tok = take_token(slots, k);
            proof {
                lemma_same_except_join(s0, s1, slots@, la, seq![k as int]);
            }
            let span = inner.span().join(tok.span);
            Expr::Not { expr: Box::new(inner), span }
        },
        Node::Unary(op, k, a) => {
            let ghost la = leaves(*a);
            proof {
                lemma_parts(s0, t, seq![k as int], la);
                assert(seq![k as int][0] == k);
            }
            let tok = take_token(slots, k);
            let ghost s1 = slots@;
            proof {
                lemma_holds_after(s0, s1, t, seq![k as int], la);
            }
            let inner = build(*a, slots, Ghost(t));
            proof {
                lemma_same_except_join(s0, s1, slots@, seq![k as int], la);
            }
            let span = tok.span.join(inner.span());
            Expr::Unary { op, expr: Box::new(inner), span }
        },
        Node::Truthy(a) => {
            let inner = build(*a, slots, Ghost(t));
            let span = inner.span();
            Expr::Truthy { expr: Box::new(inner), span }
        },
        Node::Binary(..) | Node::Comparison(..) | Node::Postfix(..) | Node::StringMatch(..)
        | Node::Range(..) => unreached(),
        Node::TimeRange(k, end) => {
            proof {
                assert(leaves(n0)[0] == k);
            }
            let first = take_token(slots, k);
            let span = first.span;
            let start = token_time(first);
            match end {
                Some(m) => {
                    let ghost s1 = slots@;
                    proof {
                        assert(leaves(n0) =~= seq![k as int, m as int]);
                        assert(leaves(n0)[1] == m);
                        assert(!seq![k as int].contains(m as int)) by {
                            assert(leaves(n0)[0] < leaves(n0)[1]);
                        }
                    }
                    let last = take_token(slots, m);
                    proof {
                        lemma_same_except_join(s0, s1, slots@, seq![k as int], seq![m as int]);
                        assert(seq![k as int] + seq![m as int] =~= leaves(n0));
                    }
                    let finish = token_time(last);
                    Expr::TimeRange { start: Some(start), end: Some(finish), span: span.join(finish.span) }
                },
                None => {
                    proof {
                        assert(leaves(n0) =~= seq![k as int]);
                    }
                    Expr::TimeRange { start: Some(start), end: None, span: span.join(span) }
                },
            }
        },
        Node::OpenTimeRange(k) => {
            proof {
                assert(leaves(n0)[0] == k);
            }
            let tok = take_token(slots, k);
            let span = tok.span;
            let finish = token_time(tok);
            Expr::TimeRange { start: None, end: Some(finish), span }
        },
    }
}

/// Which expression of two parts a shape stands for, with its operator.
enum PairForm {
    Binary(BinaryOp),
    Comparison(ComparisonOp),
    Postfix(ComparisonOp),
    StringMatch(StringMatchOp),
}

/// Builds an expression of two parts side by side: an operation, a comparison or a
/// text match.
fn build_pair(node: Node, slots: &mut Vec<ExprToken>, Ghost(t): Ghost<Seq<ExprToken>>) -> (e: Expr)
    requires
        node is Binary || node is Comparison || node is Postfix || node is StringMatch,
        old(slots)@.len() == t.len(),
        node_valid(node, token_views(t)),
        placed(leaves(node), 0, t.len() as int),
        holds(old(slots)@, t, leaves(node)),
    ensures
        denotes(e, node, t),
        same_except(old(slots)@, final(slots)@, leaves(node)),
    decreases node, 0int,
{
    let ghost s0 = slots@;
    let ghost n0 = node;
    let (a, b, form) = match node {
        Node::Binary(a, op, b) => (a, b, PairForm::Binary(op)),
        Node::Comparison(a, op, b) => (a, b, PairForm::Comparison(op)),
        Node::Postfix(a, v, op) => (a, v, PairForm::Postfix(op)),
        Node::StringMatch(a, v, op) => (a, v, PairForm::StringMatch(op)),
        _ => unreached(),
    };
    let ghost la = leaves(*a);
    let ghost lb = leaves(*b);
    proof {
        assert(leaves(n0) == la + lb);
        lemma_parts(s0, t, la, lb);
    }
    let first = build(*a, slots, Ghost(t));
    let ghost s1 = slots@;
    proof {
        lemma_holds_after(s0, s1, t, la, lb);
    }
    let second = build(*b, slots, Ghost(t));
    proof {
        lemma_same_except_join(s0, s1, slots@, la, lb);
    }
    let span = first.span().join(second.span());
    match form {
        PairForm::Binary(op) => Expr::Binary { left: Box::new(first), op, right: Box::new(second), span },
        PairForm::Comparison(op) => Expr::Comparison {
            left: Box::new(first),
            op,
            right: Box::new(second),
            span,
        },
        PairForm::Postfix(op) => Expr::PostfixComparison {
            left: Box::new(first),
            value: Box::new(second),
            op,
            span,
        },
        PairForm::StringMatch(op) => Expr::StringMatch {
            left: Box::new(first),
            value: Box::new(second),
            op,
            span,
        },
    }
}

/// Builds a range from the shapes of its value, optional start and optional end.
fn build_range(node: Node, slots: &mut Vec<ExprToken>, Ghost(t): Ghost<Seq<ExprToken>>) -> (e: Expr)
    requires
        node is Range,
        old(slots)@.len() == t.len(),
        node_valid(node, token_views(t)),
        placed(leaves(node), 0, t.len() as int),
        holds(old(slots)@, t, leaves(node)),
    ensures
        denotes(e, node, t),
        same_except(old(slots)@, final(slots)@, leaves(node)),
    decreases node, 0int,
{
    let ghost n0 = node;
    let (a, start, end) = match node {
        Node::Range(a, start, end) => (*a, start, end),
        _ => unreached(),
    };
    let ghost s0 = slots@;
    let ghost la = leaves(a);
    let ghost ls = opt_leaves(start);
    let ghost le = opt_leaves(end);
    proof {
        assert(leaves(n0) =~= la + ls + le);
        lemma_parts(s0, t, la + ls, le);
        lemma_parts(s0, t, la, ls);
    }
    let left = build(a, slots, Ghost(t));
    let ghost s1 = slots@;
    proof {
        lemma_holds_after(s0, s1, t, la, ls);
        assert forall|x: int, y: int| 0 <= x < la.len() && 0 <= y < le.len() implies #[trigger] la[x]
            < #[trigger] le[y] by {
            assert((la + ls)[x] == la[x]);
        }
        lemma_holds_after(s0, s1, t, la, le);
    }
    let first = match start {
        Some(b) => Some(Box::new(build(*b, slots, Ghost(t)))),
        None => None,
    };
    let ghost s2 = slots@;
    proof {
        if ls.len() == 0 {
            assert(s2 =~= s1);
        }
        lemma_same_except_join(s0, s1, s2, la, ls);
        lemma_holds_after(s0, s2, t, la + ls, le);
    }
    let last = match end {
        Some(b) => Some(Box::new(build(*b, slots, Ghost(t)))),
        None => None,
    };
    proof {
        lemma_same_except_join(s0, s2, slots@, la + ls, le);
    }
    let span = match &first {
        Some(v) => left.span().join(
            match &last {
                Some(x) => x.span(),
                None => v.span(),
            },
        ),
        None => match &last {
            Some(x) => x.span(),
            None => left.span(),
        },
    };
    Expr::Range { left: Box::new(left), start: first, end: last, span }
}


// ---------------------------------------------------------------------------
// Reading whole expressions
// ---------------------------------------------------------------------------

/// The diagnostic for an expression that could not be read.
pub open spec fn error_diagnostic(e: ExprError, t: Seq<TokenView>) -> DiagnosticView {
    match e {
        ExprError::Truncated => error_view(
            "E-DHN-SYN-062"@,
            "式が途中で終わっています。"@,
            Span { start: 0, end: 0, line: 0, column: 0 },
            None,
        ),
        ExprError::BadNumber(k) => error_view(
            "E-DHN-SYN-063"@,
            "数値を読み取れませんでした。"@,
            t[k as int].span,
            None,
        ),
        ExprError::MissingClose(k) => error_view(
            "E-DHN-SYN-064"@,
            "閉じ括弧がありません。"@,
            t[k as int].span,
            None,
        ),
        ExprError::ExpectedValue(k) => error_view(
            "E-DHN-SYN-065"@,
            "ここには値または変数が必要です。"@,
            t[k as int].span,
            None,
        ),
    }
}

/// What reading all of the tokens `t` gives: the shape of a condition (`condition`) or of
/// an arithmetic expression, or the diagnostic for what could not be read, including
/// tokens left over after the expression.
pub open spec fn spec_read_expression(t: Seq<TokenView>, condition: bool) -> Result<Node, DiagnosticView> {
    let r = if condition {
        spec_or(t, 0)
    } else {
        spec_add_sub(t, 0)
    };
    match r {
        Ok((n, j)) => if j < t.len() {
            if condition {
                Err(error_view("E-DHN-SYN-060"@, "条件式の末尾に解釈できない要素があります。"@, t[j].span, None))
            } else {
                Err(error_view("E-DHN-SYN-061"@, "式の末尾に解釈できない要素があります。"@, t[j].span, None))
            }
        } else {
            Ok(n)
        },
        Err(e) => Err(error_diagnostic(e, t)),
    }
}

/// An error with one span as a diagnostic.
pub(crate) fn syntax_error(code: &str, message: &str, span: Span) -> (d: DaihonDiagnostic)
    ensures
        diagnostic_view(d) == error_view(code@, message@, span, None),
{
    let d = DaihonDiagnostic::error(code, message, span);
    proof {
        assert(diagnostic_view(d).labels =~= seq![(span, None::<Seq<char>>)]);
    }
    d
}

/// The diagnostic for an expression that could not be read.
fn expr_error_diagnostic(e: ExprError, tokens: &Vec<ExprToken>) -> (d: DaihonDiagnostic)
    requires
        error_in(e, token_views(tokens@)),
    ensures
        diagnostic_view(d) == error_diagnostic(e, token_views(tokens@)),
{
    match e {
        ExprError::Truncated => syntax_error("E-DHN-SYN-062", "式が途中で終わっています。", Span::empty()),
        ExprError::BadNumber(k) => syntax_error("E-DHN-SYN-063", "数値を読み取れませんでした。", tokens[k].span),
        ExprError::MissingClose(k) => syntax_error("E-DHN-SYN-064", "閉じ括弧がありません。", tokens[k].span),
        ExprError::ExpectedValue(k) => syntax_error(
            "E-DHN-SYN-065",
            "ここには値または変数が必要です。",
            tokens[k].span,
        ),
    }
}

/// Reads all of `tokens` as a condition, or as an arithmetic expression.
pub(crate) fn parse_expression_tokens(tokens: Vec<ExprToken>, condition: bool) -> (r: Result<Expr, DaihonDiagnostic>)
    ensures
        match spec_read_expression(token_views(tokens@), condition) {
            Ok(n) => r matches Ok(e) && denotes(e, n, tokens@),
            Err(d) => r matches Err(x) && diagnostic_view(x) == d,
        },
{
    let ghost t = tokens@;
    let mut stream = ExprStream { tokens, index: 0 };
    proof {
        assert(token_views(t).len() == stream.tokens.len());
        lemma_or(token_views(t), 0);
        lemma_add_sub(token_views(t), 0);
    }
    let read = if condition {
        stream.parse_or()
    } else {
        stream.parse_add_sub()
    };
    let node = match read {
        Ok(n) => n,
        Err(e) => return Err(expr_error_diagnostic(e, &stream.tokens)),
    };
    if stream.index < stream.tokens.len() {
        let span = stream.tokens[stream.index].span;
        return Err(
            if condition {
                syntax_error("E-DHN-SYN-060", "条件式の末尾に解釈できない要素があります。", span)
            } else {
                syntax_error("E-DHN-SYN-061", "式の末尾に解釈できない要素があります。", span)
            },
        );
    }
    let mut slots = stream.tokens;
    let e = build(node, &mut slots, Ghost(t));
    Ok(e)
}

/// Reads all of `tokens` as a condition: conditions joined by `または` and `かつ`, each
/// a time range or a value compared, matched, ranged, negated by `でない` or taken for
/// its truth. Fails, with the diagnostic `spec_read_expression` gives, where the tokens
/// do not form one condition.
pub fn parse_condition_tokens(tokens: Vec<ExprToken>) -> (r: Result<Expr, DaihonDiagnostic>)
    ensures
        match spec_read_expression(token_views(tokens@), true) {
            Ok(n) => r matches Ok(e) && denotes(e, n, tokens@),
            Err(d) => r matches Err(x) && diagnostic_view(x) == d,
        },
{
    parse_expression_tokens(tokens, true)
}

/// Reads all of `tokens` as an arithmetic expression of values joined by `+ - * / %`
/// and signs. Fails, with the diagnostic `spec_read_expression` gives, where the tokens
/// do not form one expression.
pub fn parse_arith_tokens(tokens: Vec<ExprToken>) -> (r: Result<Expr, DaihonDiagnostic>)
    ensures
        match spec_read_expression(token_views(tokens@), false) {
            Ok(n) => r matches Ok(e) && denotes(e, n, tokens@),
            Err(d) => r matches Err(x) && diagnostic_view(x) == d,
        },
{
    parse_expression_tokens(tokens, false)
}


// ---------------------------------------------------------------------------
// Literals written on their own
// ---------------------------------------------------------------------------

/// A literal value as plain values.
pub enum LiteralView {
    Number(NumberView),
    Text(Seq<char>),
    Boolean(bool),
}

/// A literal value as plain values.
pub open spec fn literal_view(v: LiteralValue) -> LiteralView {
    match v {
        LiteralValue::Number(n) => LiteralView::Number(number_view(n)),
        LiteralValue::String(s) => LiteralView::Text(s@),
        LiteralValue::Boolean(b) => LiteralView::Boolean(b),
    }
}

/// The number of `c` characters that `s` ends with.
pub open spec fn trailing_count(s: Seq<char>, c: char) -> nat
    decreases s.len(),
{
    if s.len() > 0 && s.last() == c {
        1 + trailing_count(s.drop_last(), c)
    } else {
        0
    }
}

/// What a literal written as `text` is: `はい` and `いいえ` (normalized) are truth values,
/// a readable number is a number, and a text starting with `「` is the text between its
/// leading `「`s and trailing `」`s.
pub open spec fn spec_parse_literal(text: Seq<char>) -> Option<LiteralView> {
    let n = normalize_seq(text);
    if n == "はい"@ {
        Some(LiteralView::Boolean(true))
    } else if n == "いいえ"@ {
        Some(LiteralView::Boolean(false))
    } else {
        match spec_parse_number(n) {
            Some(v) => Some(LiteralView::Number(v)),
            None => if text.len() > 0 && text[0] == '\u{300C}' {
                let inner = text.skip(leading_count(text, '\u{300C}') as int);
                Some(LiteralView::Text(inner.take(inner.len() - trailing_count(inner, '\u{300D}'))))
            } else {
                None
            },
        }
    }
}

/// The number of `c` characters at the end of `v`.
fn trailing_run(v: &[char], c: char) -> (n: usize)
    ensures
        n == trailing_count(v@, c),
        n <= v@.len(),
{
    let mut n: usize = 0;
    proof {
        assert(v@.take(v@.len() as int) =~= v@);
    }
    while n < v.len() && v[v.len() - 1 - n] == c
        invariant
            n <= v@.len(),
            trailing_count(v@, c) == n + trailing_count(v@.take(v@.len() - n), c),
        decreases v@.len() - n,
    {
        proof {
            let t = v@.take(v@.len() - n);
            assert(t.last() == v@[v@.len() - 1 - n]);
            assert(t.drop_last() =~= v@.take(v@.len() - n - 1));
        }
        n += 1;
    }
    proof {
        if n < v@.len() {
            assert(v@.take(v@.len() - n).last() == v@[v@.len() - 1 - n]);
        }
    }
    n
}

/// Reads a literal written on its own, as `spec_parse_literal` describes.
pub fn parse_literal(text: &str, span: Span) -> (r: Option<LiteralValue>)
    ensures
        match r {
            Some(v) => spec_parse_literal(text@) == Some(literal_view(v)),
            None => spec_parse_literal(text@) is None,
        },
{
    let raw = chars_of(text);
    let n = normalize_chars(raw.as_slice());
    if is_lit(n.as_slice(), "はい") {
        return Some(LiteralValue::Boolean(true));
    }
    if is_lit(n.as_slice(), "いいえ") {
        return Some(LiteralValue::Boolean(false));
    }
    let normalized = string_of(n.as_slice());
    if let Some(v) = parse_number(normalized.as_str()) {
        return Some(LiteralValue::Number(v));
    }
    if raw.len() > 0 && raw[0] == '\u{300C}' {
        let mut start: usize = 0;
        proof {
            assert(raw@.skip(0) =~= raw@);
        }
        while start < raw.len() && raw[start] == '\u{300C}'
            invariant
                start <= raw@.len(),
                leading_count(raw@, '\u{300C}') == start + leading_count(raw@.skip(start as int), '\u{300C}'),
            decreases raw@.len() - start,
        {
            proof {
                assert(raw@.skip(start as int)[0] == raw@[start as int]);
                assert(raw@.skip(start as int).drop_first() =~= raw@.skip(start + 1));
            }
            start += 1;
        }
        proof {
            if start < raw@.len() {
                assert(raw@.skip(start as int)[0] == raw@[start as int]);
            }
        }
        let mut inner: Vec<char> = Vec::new();
        let mut i: usize = start;
        while i < raw.len()
            invariant
                start <= i <= raw@.len(),
                inner@ == raw@.subrange(start as int, i as int),
            decreases raw@.len() - i,
        {
            inner.push(raw[i]);
            proof {
                assert(raw@.subrange(start as int, i + 1) =~= raw@.subrange(start as int, i as int).push(raw@[i as int]));
            }
            i += 1;
        }
        let cut = trailing_run(inner.as_slice(), '\u{300D}');
        let mut kept: Vec<char> = Vec::new();
        let mut j: usize = 0;
        while j < inner.len() - cut
            invariant
                cut <= inner@.len(),
                j <= inner@.len() - cut,
                kept@ == inner@.take(j as int),
            decreases inner@.len() - cut - j,
        {
            kept.push(inner[j]);
            proof {
                assert(inner@.take(j + 1) =~= inner@.take(j as int).push(inner@[j as int]));
            }
            j += 1;
        }
        proof {
            assert(inner@ =~= raw@.skip(start as int));
        }
        return Some(LiteralValue::String(string_of(kept.as_slice())));
    }
    let _ = span;
    None
}

} // verus!
