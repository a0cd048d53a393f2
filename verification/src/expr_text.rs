use vstd::prelude::*;
use vstd::utf8::char_is_scalar;

use crate::ast::{Dialogue, DialoguePart, Expr, FuncArg, FunctionCall, LiteralValue, TimeOfDay};
use crate::diagnostic::DaihonDiagnostic;
use crate::expr::{
    denotes, literal_view, parse_expression_tokens, parse_literal, spec_parse_literal,
    spec_read_expression, syntax_error, token_view, token_views, ExprToken, ExprTokenKind,
    KindView, LiteralView, Node, TokenView,
};
use crate::lexer::{
    char_is_digit, char_is_identifier_start, class_has, is_digit, is_identifier_start,
    lemma_pos_byte_is_encoding, lemma_pos_monotone, normalize_char, normalize_char_exec,
    normalize_chars, normalize_seq, pos_at, run_end, utf8_width, CharClass,
};
use crate::runtime::kept_choices;
use crate::span::{Span, Spanned};
use crate::syntax::{
    arg_pieces, assignment_from, assignment_index, byte_offsets, is_lit, lemma_assignment_range,
    parse_time, spec_function_args, spec_parse_time, spec_strip_wrapped_paren, split_function_args,
    strip_wrapped_paren, ArgScan, AssignScan,
};
use crate::text::{
    char_is_whitespace, chars_of, is_whitespace, push_char, spec_trim, string_of, string_views,
    trim_chars,
};
use crate::textmap::{entries_map, keys_ascending, TextMap};
use crate::validate::{diagnostic_view, error_view, DiagnosticView};

verus! {

// ---------------------------------------------------------------------------
// Spans of character ranges
// ---------------------------------------------------------------------------

/// The span of characters `a..b` of `src`, a text that starts at `base`: byte offsets from
/// the text's start, the line of the text, and the column moved on by `a` characters.
pub open spec fn chars_span(base: Span, src: Seq<char>, a: int, b: int) -> Span {
    Span {
        start: (base.start + pos_at(src, a).0) as usize,
        end: (base.start + pos_at(src, b).0) as usize,
        line: base.line,
        column: (base.column + a) as usize,
    }
}

// ---------------------------------------------------------------------------
// What reading a text gives
// ---------------------------------------------------------------------------

/// The outcome of reading a text: a value, a diagnostic, or no outcome at all for a text
/// the reader is not defined on: a named argument or an assignment whose `=` is the
/// full-width `＝`, whose value is cut out one byte after the sign, inside the sign's own
/// encoding. (The readers also give no outcome where a nested read would not move on,
/// which never happens: every string, call, number and word read takes a character.)
pub enum Parsed<T> {
    Done(T),
    Failed(DiagnosticView),
    Undefined,
}

/// `prefix` in front of the tokens that `rest` read, or what went wrong in `rest`.
pub open spec fn prepend(prefix: Seq<TokenView>, rest: Parsed<Seq<TokenView>>) -> Parsed<Seq<TokenView>> {
    match rest {
        Parsed::Done(ts) => Parsed::Done(prefix + ts),
        Parsed::Failed(d) => Parsed::Failed(d),
        Parsed::Undefined => Parsed::Undefined,
    }
}

// ---------------------------------------------------------------------------
// Where a function call and a dialogue string end
// ---------------------------------------------------------------------------

/// The index of the `＞` that closes a function call, scanning from `i` at nesting `depth`,
/// inside a `「」` string when `quoted` (where `」」` stands for one `」`).
pub open spec fn call_close(src: Seq<char>, i: int, depth: int, quoted: bool) -> Option<int>
    decreases src.len() - i,
{
    if i < 0 || i >= src.len() {
        None
    } else {
        let c = src[i];
        if quoted {
            if c == '」' {
                if i + 1 < src.len() && src[i + 1] == '」' {
                    call_close(src, i + 2, depth, true)
                } else {
                    call_close(src, i + 1, depth, false)
                }
            } else {
                call_close(src, i + 1, depth, true)
            }
        } else if c == '「' {
            call_close(src, i + 1, depth, true)
        } else if c == '＜' {
            call_close(src, i + 1, depth + 1, false)
        } else if c == '＞' {
            if depth - 1 == 0 {
                Some(i)
            } else {
                call_close(src, i + 1, depth - 1, false)
            }
        } else {
            call_close(src, i + 1, depth, false)
        }
    }
}

/// A closing `＞` lies at or after the scan's start and inside the text.
pub proof fn lemma_call_close_range(src: Seq<char>, i: int, depth: int, quoted: bool)
    ensures
        call_close(src, i, depth, quoted) matches Some(j) ==> i <= j < src.len() && src[j] == '＞',
    decreases src.len() - i,
{
    if 0 <= i < src.len() {
        let c = src[i];
        if quoted {
            if c == '」' {
                if i + 1 < src.len() && src[i + 1] == '」' {
                    lemma_call_close_range(src, i + 2, depth, true);
                } else {
                    lemma_call_close_range(src, i + 1, depth, false);
                }
            } else {
                lemma_call_close_range(src, i + 1, depth, true);
            }
        } else if c == '「' {
            lemma_call_close_range(src, i + 1, depth, true);
        } else if c == '＜' {
            lemma_call_close_range(src, i + 1, depth + 1, false);
        } else if c == '＞' {
            if depth - 1 != 0 {
                lemma_call_close_range(src, i + 1, depth - 1, false);
            }
        } else {
            lemma_call_close_range(src, i + 1, depth, false);
        }
    }
}

// ---------------------------------------------------------------------------
// Numbers, operators and words inside expressions
// ---------------------------------------------------------------------------

/// A number written with a `0x`, `0o` or `0b` radix prefix starts at `i`.
pub open spec fn radix_prefixed(src: Seq<char>, i: int) -> bool {
    0 <= i && i + 1 < src.len() && src[i] == '0' && (src[i + 1] == 'x' || src[i + 1] == 'o'
        || src[i + 1] == 'b')
}

/// Where a decimal number or a time starting at `i` ends: digits, at most one `:`, and at
/// most one `.` before any `:` (half or full width).
pub open spec fn decimal_end(src: Seq<char>, i: int, colon: bool, dot: bool) -> int
    decreases src.len() - i,
{
    if i < 0 || i >= src.len() {
        i
    } else if is_digit(src[i]) {
        decimal_end(src, i + 1, colon, dot)
    } else if (src[i] == ':' || src[i] == '：') && !colon {
        decimal_end(src, i + 1, true, dot)
    } else if (src[i] == '.' || src[i] == '．') && !dot && !colon {
        decimal_end(src, i + 1, colon, true)
    } else {
        i
    }
}

/// Where the number or time starting at `i` ends.
pub open spec fn number_end(src: Seq<char>, i: int) -> int {
    if radix_prefixed(src, i) {
        run_end(src, i + 2, CharClass::AsciiAlnum)
    } else {
        decimal_end(src, i, false, false)
    }
}

/// A character that starts an operator, after normalizing.
pub open spec fn is_op_char(n: char) -> bool {
    n == '+' || n == '-' || n == '*' || n == '/' || n == '%' || n == '~' || n == '=' || n == '<'
        || n == '>' || n == '!'
}

/// Two normalized characters that form one operator: `==`, `!=`, `<=`, `>=`.
pub open spec fn is_op_pair(n: char, m: char) -> bool {
    m == '=' && (n == '=' || n == '!' || n == '<' || n == '>')
}

/// Where the operator starting at `i` ends.
pub open spec fn op_end(src: Seq<char>, i: int) -> int {
    if i + 1 < src.len() && is_op_pair(normalize_char(src[i]), normalize_char(src[i + 1])) {
        i + 2
    } else {
        i + 1
    }
}

/// A word spelled as an operator in expressions.
pub open spec fn is_op_word(w: Seq<char>) -> bool {
    ||| w == "かつ"@
    ||| w == "または"@
    ||| w == "未満"@
    ||| w == "以下"@
    ||| w == "以上"@
    ||| w == "超える"@
    ||| w == "でない"@
    ||| w == "を含む"@
    ||| w == "で始まる"@
    ||| w == "で終わる"@
}

/// What a normalized word is as a token: a truth value, an operator word or a name.
pub open spec fn word_kind(w: Seq<char>) -> KindView {
    if w == "はい"@ {
        KindView::Bool(true)
    } else if w == "いいえ"@ {
        KindView::Bool(false)
    } else if is_op_word(w) {
        KindView::Op(w)
    } else {
        KindView::Ident(w)
    }
}

/// The diagnostic for a character that cannot stand in an expression.
pub open spec fn bad_char_error(c: char, span: Span) -> DiagnosticView {
    error_view(
        "E-DHN-SYN-066"@,
        "式の中で使用できない文字「"@ + seq![c] + "」があります。"@,
        span,
        None,
    )
}

/// The diagnostic for a time outside 0:00 to 23:59.
pub open spec fn bad_time_error(span: Span) -> DiagnosticView {
    error_view("E-DHN-SYN-067"@, "時刻は 0:00 から 23:59 の範囲で指定してください。"@, span, None)
}

/// The diagnostic for a function call with no closing `＞`.
pub open spec fn unclosed_call_error(span: Span) -> DiagnosticView {
    error_view("E-DHN-LEX-002"@, "関数呼び出しが閉じられていません。"@, span, None)
}

/// The diagnostic for a dialogue string with no closing `」`.
pub open spec fn unclosed_dialogue_error(span: Span) -> DiagnosticView {
    error_view("E-DHN-LEX-001"@, "セリフが閉じられていません。"@, span, None)
}

/// The diagnostic for a function call with no name.
pub open spec fn empty_call_error(span: Span) -> DiagnosticView {
    error_view("E-DHN-SYN-050"@, "関数名が空です。"@, span, None)
}

/// The assignment scan's state at the start of a text.
pub open spec fn assign_start() -> AssignScan {
    AssignScan { dialogue: false, paren: 0, function: 0 }
}

// ---------------------------------------------------------------------------
// Reading, all levels at once
// ---------------------------------------------------------------------------
//
// Each function below reads a text of some length; a nested call or argument is read
// from a shorter text, or from the same text at a lower level, or further on in the same
// text. The `decreases` measures say exactly this.

/// Reading the function call whose `＜` is at `s`: where it ends (the index after its
/// `＞`), or what went wrong in it.
pub open spec fn spec_call_at(src: Seq<char>, s: int, base: Span) -> Parsed<int>
    decreases src.len(), 1nat, 0nat,
{
    match call_close(src, s + 1, 1, false) {
        None => Parsed::Failed(unclosed_call_error(chars_span(base, src, s, src.len() as int))),
        Some(j) => if 0 <= s < j < src.len() {
            match spec_content(src.subrange(s + 1, j), chars_span(base, src, s, j + 1)) {
                Parsed::Done(_) => Parsed::Done(j + 1),
                Parsed::Failed(d) => Parsed::Failed(d),
                Parsed::Undefined => Parsed::Undefined,
            }
        } else {
            Parsed::Undefined
        },
    }
}

/// Reading a dialogue string opened at `s`, from `i` on, having read the text `text`: the
/// whole text (embedded calls left out, doubled brackets read as one) and the index after
/// its closing `」`, or what went wrong.
pub open spec fn spec_dialogue_from(src: Seq<char>, i: int, s: int, base: Span, text: Seq<char>)
    -> Parsed<(Seq<char>, int)>
    decreases src.len(), 2nat, src.len() - i,
{
    if i < 0 || i >= src.len() {
        Parsed::Failed(unclosed_dialogue_error(chars_span(base, src, s, src.len() as int)))
    } else {
        let c = src[i];
        let doubled = i + 1 < src.len() && src[i + 1] == c;
        if c == '」' {
            if doubled {
                spec_dialogue_from(src, i + 2, s, base, text.push(c))
            } else {
                Parsed::Done((text, i + 1))
            }
        } else if (c == '「' || c == '＞') && doubled {
            spec_dialogue_from(src, i + 2, s, base, text.push(c))
        } else if c == '＜' {
            if doubled {
                spec_dialogue_from(src, i + 2, s, base, text.push(c))
            } else {
                match spec_call_at(src, i, base) {
                    Parsed::Done(e) => if i < e <= src.len() {
                        spec_dialogue_from(src, e, s, base, text)
                    } else {
                        Parsed::Undefined
                    },
                    Parsed::Failed(d) => Parsed::Failed(d),
                    Parsed::Undefined => Parsed::Undefined,
                }
            }
        } else {
            spec_dialogue_from(src, i + 1, s, base, text.push(c))
        }
    }
}

/// The tokens of `src` from `i` on, or what went wrong first.
pub open spec fn spec_tokens_from(src: Seq<char>, i: int, base: Span) -> Parsed<Seq<TokenView>>
    decreases src.len(), 3nat, src.len() - i,
{
    if i < 0 || i >= src.len() {
        Parsed::Done(Seq::empty())
    } else {
        let c = src[i];
        let n = normalize_char(c);
        if is_whitespace(c) || c == '\u{3000}' {
            spec_tokens_from(src, i + 1, base)
        } else if c == '「' {
            match spec_dialogue_from(src, i + 1, i, base, Seq::empty()) {
                Parsed::Done((t, e)) => if i < e <= src.len() {
                    prepend(
                        seq![TokenView { kind: KindView::Text(t), span: chars_span(base, src, i, e) }],
                        spec_tokens_from(src, e, base),
                    )
                } else {
                    Parsed::Undefined
                },
                Parsed::Failed(d) => Parsed::Failed(d),
                Parsed::Undefined => Parsed::Undefined,
            }
        } else if c == '＜' {
            match spec_call_at(src, i, base) {
                Parsed::Done(e) => if i < e <= src.len() {
                    prepend(
                        seq![TokenView { kind: KindView::Function, span: chars_span(base, src, i, e) }],
                        spec_tokens_from(src, e, base),
                    )
                } else {
                    Parsed::Undefined
                },
                Parsed::Failed(d) => Parsed::Failed(d),
                Parsed::Undefined => Parsed::Undefined,
            }
        } else if c == '(' || c == '（' {
            prepend(
                seq![TokenView { kind: KindView::LParen, span: chars_span(base, src, i, i + 1) }],
                spec_tokens_from(src, i + 1, base),
            )
        } else if c == ')' || c == '）' {
            prepend(
                seq![TokenView { kind: KindView::RParen, span: chars_span(base, src, i, i + 1) }],
                spec_tokens_from(src, i + 1, base),
            )
        } else if is_op_char(n) {
            let e = op_end(src, i);
            prepend(
                seq![TokenView {
                    kind: KindView::Op(normalize_seq(src.subrange(i, e))),
                    span: chars_span(base, src, i, e),
                }],
                spec_tokens_from(src, e, base),
            )
        } else if is_digit(c) {
            let e = number_end(src, i);
            let t = normalize_seq(src.subrange(i, e));
            let span = chars_span(base, src, i, e);
            if !(i < e <= src.len()) {
                Parsed::Undefined
            } else if t.contains(':') {
                match spec_parse_time(t) {
                    Some((h, m)) => prepend(
                        seq![TokenView {
                            kind: KindView::Time(TimeOfDay { hour: h as u8, minute: m as u8, span }),
                            span,
                        }],
                        spec_tokens_from(src, e, base),
                    ),
                    None => Parsed::Failed(bad_time_error(span)),
                }
            } else {
                prepend(
                    seq![TokenView { kind: KindView::Number(t), span }],
                    spec_tokens_from(src, e, base),
                )
            }
        } else if is_identifier_start(c) {
            let e = run_end(src, i + 1, CharClass::IdentifierOrHash);
            if !(i < e <= src.len()) {
                Parsed::Undefined
            } else {
                prepend(
                    seq![TokenView {
                        kind: word_kind(normalize_seq(src.subrange(i, e))),
                        span: chars_span(base, src, i, e),
                    }],
                    spec_tokens_from(src, e, base),
                )
            }
        } else {
            Parsed::Failed(bad_char_error(c, chars_span(base, src, i, i + 1)))
        }
    }
}

/// Reading all of `text` as an arithmetic expression (`condition` false) or a condition:
/// the shape read over the tokens, or what went wrong first.
pub open spec fn spec_expression_text(text: Seq<char>, span: Span, condition: bool) -> Parsed<Node>
    decreases text.len(), 4nat, 0nat,
{
    match spec_tokens_from(text, 0, span) {
        Parsed::Done(ts) => match spec_read_expression(ts, condition) {
            Ok(n) => Parsed::Done(n),
            Err(d) => Parsed::Failed(d),
        },
        Parsed::Failed(d) => Parsed::Failed(d),
        Parsed::Undefined => Parsed::Undefined,
    }
}

/// What one argument of a function call is read as.
pub enum ArgView {
    /// An arithmetic expression written in parentheses: the text inside and its shape.
    Paren(Seq<char>, Node),
    /// A dialogue string, by its text.
    Text(Seq<char>),
    /// A literal value.
    Literal(LiteralView),
    /// A nested function call, by its content.
    Call(Seq<char>),
    /// A bare word, normalized.
    Bare(Seq<char>),
}

/// Reading one argument of a function call, or what went wrong in it: an arithmetic
/// expression in parentheses, a dialogue string, a literal, a nested call, or a bare word.
pub open spec fn spec_func_arg(text: Seq<char>, span: Span) -> Parsed<ArgView>
    decreases text.len(), 5nat, 0nat,
{
    let t = spec_trim(text);
    proof {
        lemma_trim_shorter(text);
    }
    match spec_strip_wrapped_paren(t) {
        Some(inner) => {
            proof {
                lemma_trim_shorter(inner);
                lemma_trim_shorter(t);
                let t2 = spec_trim(t);
                assert(t2.len() >= 2) by {
                    if t2.len() == 1 {
                        assert(t2[0] == t2.last());
                    }
                }
                assert(inner.len() < t.len());
            }
            match spec_expression_text(spec_trim(inner), span, false) {
                Parsed::Done(n) => Parsed::Done(ArgView::Paren(spec_trim(inner), n)),
                Parsed::Failed(d) => Parsed::Failed(d),
                Parsed::Undefined => Parsed::Undefined,
            }
        },
        None => if t.len() > 0 && t[0] == '「' {
            match spec_dialogue_from(t, 1, 0, span, Seq::empty()) {
                Parsed::Done((x, _)) => Parsed::Done(ArgView::Text(x)),
                Parsed::Failed(d) => Parsed::Failed(d),
                Parsed::Undefined => Parsed::Undefined,
            }
        } else if spec_parse_literal(t) is Some {
            Parsed::Done(ArgView::Literal(spec_parse_literal(t)->Some_0))
        } else if t.len() > 0 && t[0] == '＜' {
            match spec_call_at(t, 0, span) {
                Parsed::Done(e) => Parsed::Done(ArgView::Call(t.subrange(1, e - 1))),
                Parsed::Failed(d) => Parsed::Failed(d),
                Parsed::Undefined => Parsed::Undefined,
            }
        } else {
            Parsed::Done(ArgView::Bare(normalize_seq(t)))
        },
    }
}

/// `a` is the argument read as `v`, found at `span`.
pub open spec fn arg_matches(a: FuncArg, v: ArgView, span: Span) -> bool {
    match v {
        ArgView::Paren(inner, n) => a matches FuncArg::Expr(e) && read_from(e, n, inner, span),
        _ => plain_arg_matches(a, v, span),
    }
}

/// `a` is the argument read as `v`, found at `span`, where `v` is no parenthesized
/// expression: a dialogue string, a literal, a call by its name, or a bare word.
pub open spec fn plain_arg_matches(a: FuncArg, v: ArgView, span: Span) -> bool {
    match v {
        ArgView::Paren(_, _) => false,
        ArgView::Text(x) => {
            &&& a matches FuncArg::Expr(Expr::Value(sv))
            &&& sv.span == span
            &&& literal_view(sv.value) == LiteralView::Text(x)
        },
        ArgView::Literal(lv) => {
            &&& a matches FuncArg::Expr(Expr::Value(sv))
            &&& sv.span == span
            &&& literal_view(sv.value) == lv
        },
        ArgView::Call(content) => {
            &&& a matches FuncArg::Expr(Expr::FunctionCall(f))
            &&& f.name.value@ == spec_call_name(content)
        },
        ArgView::Bare(w) => {
            &&& a matches FuncArg::BareWord(sw)
            &&& sw.span == span
            &&& sw.value@ == w
        },
    }
}

/// As `arg_matches`, a parenthesized argument being only some expression.
pub open spec fn arg_matches_outer(a: FuncArg, v: ArgView, span: Span) -> bool {
    match v {
        ArgView::Paren(_, _) => a is Expr,
        _ => plain_arg_matches(a, v, span),
    }
}

/// The value text of a named argument, whose `=` is at `e`.
pub open spec fn named_value(arg: Seq<char>, e: int) -> Seq<char> {
    spec_trim(arg.subrange(e + 1, arg.len() as int))
}

/// The arguments of a function call as read: positional ones in order, named ones by
/// name (a later one of the same name replaces an earlier one).
pub struct CallArgs {
    pub positional: Seq<ArgView>,
    pub named: Map<Seq<char>, ArgView>,
}

/// No arguments.
pub open spec fn no_args() -> CallArgs {
    CallArgs { positional: Seq::empty(), named: Map::empty() }
}

/// The arguments `front` followed by those that `rest` read, or what went wrong in `rest`.
pub open spec fn join_args(front: CallArgs, rest: Parsed<CallArgs>) -> Parsed<CallArgs> {
    match rest {
        Parsed::Done(r) => Parsed::Done(
            CallArgs {
                positional: front.positional + r.positional,
                named: front.named.union_prefer_right(r.named),
            },
        ),
        Parsed::Failed(d) => Parsed::Failed(d),
        Parsed::Undefined => Parsed::Undefined,
    }
}

/// The name of a named argument, whose `=` is at `e`.
pub open spec fn named_key(arg: Seq<char>, e: int) -> Seq<char> {
    normalize_seq(spec_trim(arg.subrange(0, e)))
}

/// Reading the arguments of a call's content from the `k`-th on: each positional
/// argument, and the value of each named one, in order.
pub open spec fn spec_args_from(content: Seq<char>, k: int, span: Span) -> Parsed<CallArgs>
    decreases content.len(), 6nat, spec_function_args(content).len() - k,
{
    let args = spec_function_args(content);
    if k < 0 || k >= args.len() {
        Parsed::Done(no_args())
    } else {
        let a = args[k];
        proof {
            lemma_args_within(content, k);
        }
        match assignment_from(a, 0, assign_start()) {
            Some(e) => if !(0 <= e < a.len()) || a[e] == '＝' {
                Parsed::Undefined
            } else {
                proof {
                    lemma_trim_shorter(a.subrange(e + 1, a.len() as int));
                }
                match spec_func_arg(named_value(a, e), span) {
                    Parsed::Done(v) => join_args(
                        CallArgs { positional: Seq::empty(), named: map![named_key(a, e) => v] },
                        spec_args_from(content, k + 1, span),
                    ),
                    Parsed::Failed(d) => Parsed::Failed(d),
                    Parsed::Undefined => Parsed::Undefined,
                }
            },
            None => {
                proof {
                    lemma_trim_shorter(a);
                }
                match spec_func_arg(spec_trim(a), span) {
                    Parsed::Done(v) => join_args(
                        CallArgs { positional: seq![v], named: Map::empty() },
                        spec_args_from(content, k + 1, span),
                    ),
                    Parsed::Failed(d) => Parsed::Failed(d),
                    Parsed::Undefined => Parsed::Undefined,
                }
            },
        }
    }
}

/// Reading the content of a function call (between `＜` and `＞`): a name and arguments.
pub open spec fn spec_content(content: Seq<char>, span: Span) -> Parsed<CallArgs>
    decreases content.len(), 7nat, 0nat,
{
    if spec_function_args(content).len() == 0 {
        Parsed::Failed(empty_call_error(span))
    } else {
        spec_args_from(content, 1, span)
    }
}

/// The name of the function called by `content`.
pub open spec fn spec_call_name(content: Seq<char>) -> Seq<char> {
    normalize_seq(spec_trim(spec_function_args(content)[0]))
}

// ---------------------------------------------------------------------------
// Lengths
// ---------------------------------------------------------------------------

/// Trimming never lengthens a text.
pub proof fn lemma_trim_shorter(s: Seq<char>)
    ensures
        spec_trim(s).len() <= s.len(),
{
    crate::text::lemma_trim_len(s);
}

/// Every argument of a call's content is at most as long as the content.
pub proof fn lemma_args_within(content: Seq<char>, k: int)
    requires
        0 <= k < spec_function_args(content).len(),
    ensures
        spec_function_args(content)[k].len() <= content.len(),
{
    lemma_pieces_within(content, 0, ArgScan { string: false, paren: 0, function: 0 }, Seq::empty());
    lemma_kept_within(
        arg_pieces(content, 0, ArgScan { string: false, paren: 0, function: 0 }, Seq::empty()),
        content.len() as int,
    );
}

/// The raw pieces from `i` on are no longer than the current piece and the rest of the text.
proof fn lemma_pieces_within(src: Seq<char>, i: int, s: ArgScan, piece: Seq<char>)
    requires
        0 <= i <= src.len(),
    ensures
        forall|k: int| 0 <= k < arg_pieces(src, i, s, piece).len() ==>
            #[trigger] arg_pieces(src, i, s, piece)[k].len() <= piece.len() + src.len() - i,
    decreases src.len() - i,
{
    let all = arg_pieces(src, i, s, piece);
    if i < src.len() {
        let (t, split) = crate::syntax::arg_step(src[i], s);
        if split {
            lemma_pieces_within(src, i + 1, t, Seq::empty());
            let rest = arg_pieces(src, i + 1, t, Seq::empty());
            assert(all == seq![piece] + rest);
            assert forall|k: int| 0 <= k < all.len() implies #[trigger] all[k].len() <= piece.len()
                + src.len() - i by {
                if k > 0 {
                    assert(all[k] == rest[k - 1]);
                } else {
                    assert(all[k] == piece);
                }
            }
        } else {
            lemma_pieces_within(src, i + 1, t, piece.push(src[i]));
            assert(all == arg_pieces(src, i + 1, t, piece.push(src[i])));
        }
    } else {
        assert(all == seq![piece]);
    }
}

/// Kept pieces are no longer than the longest raw piece.
proof fn lemma_kept_within(pieces: Seq<Seq<char>>, n: int)
    requires
        forall|k: int| 0 <= k < pieces.len() ==> #[trigger] pieces[k].len() <= n,
    ensures
        forall|k: int| 0 <= k < kept_choices(pieces).len() ==> #[trigger] kept_choices(pieces)[k].len() <= n,
    decreases pieces.len(),
{
    if pieces.len() > 0 {
        let init = pieces.drop_last();
        assert forall|k: int| 0 <= k < init.len() implies #[trigger] init[k].len() <= n by {
            assert(init[k] == pieces[k]);
        }
        lemma_kept_within(init, n);
        lemma_trim_shorter(pieces.last());
        assert(pieces.last() == pieces[pieces.len() - 1]);
        let rest = kept_choices(init);
        let t = spec_trim(pieces.last());
        if t.len() != 0 {
            assert(kept_choices(pieces) == rest.push(t));
            assert forall|k: int| 0 <= k < kept_choices(pieces).len() implies #[trigger] kept_choices(
                pieces,
            )[k].len() <= n by {
                if k < rest.len() {
                    assert(kept_choices(pieces)[k] == rest[k]);
                }
            }
        } else {
            assert(kept_choices(pieces) == rest);
        }
    }
}

// ---------------------------------------------------------------------------
// Room for spans and counters
// ---------------------------------------------------------------------------

/// Room for the spans of a text of `n` characters read at `base` (each character takes at
/// most four bytes), and for the reader's counters.
pub open spec fn text_room(base: Span, n: int) -> bool {
    base.start + 4 * n < usize::MAX && base.column + n <= usize::MAX && n <= i32::MAX
}

/// `off` holds the byte offset of every character position of `src`, the end included.
pub open spec fn offsets_of(off: Seq<usize>, src: Seq<char>) -> bool {
    &&& off.len() == src.len() + 1
    &&& forall|k: int| 0 <= k <= src.len() ==> #[trigger] off[k] == pos_at(src, k).0
}

/// A character takes at most four bytes.
proof fn lemma_width_at_most_four(c: char)
    ensures
        utf8_width(c) <= 4,
{
    char_is_scalar(c);
}

/// The first `k` characters take at most `4 * k` bytes.
pub proof fn lemma_pos_at_most_four(src: Seq<char>, k: int)
    requires
        0 <= k <= src.len(),
    ensures
        pos_at(src, k).0 <= 4 * k,
    decreases k,
{
    if k > 0 {
        lemma_pos_at_most_four(src, k - 1);
        lemma_width_at_most_four(src[k - 1]);
    }
}

/// The byte offsets of every character position of `src`.
pub(crate) fn offsets(src: &Vec<char>) -> (off: Vec<usize>)
    requires
        4 * src@.len() < usize::MAX,
    ensures
        offsets_of(off@, src@),
{
    proof {
        lemma_pos_at_most_four(src@, src@.len() as int);
        lemma_pos_byte_is_encoding(src@, src@.len() as int);
        assert(src@.take(src@.len() as int) =~= src@);
    }
    byte_offsets(src)
}

/// The span of characters `a..b` of `src`, a text read at `base`.
pub(crate) fn span_of(base: Span, off: &Vec<usize>, Ghost(src): Ghost<Seq<char>>, a: usize, b: usize) -> (sp: Span)
    requires
        offsets_of(off@, src),
        a <= b <= src.len(),
        text_room(base, src.len() as int),
    ensures
        sp == chars_span(base, src, a as int, b as int),
{
    proof {
        lemma_pos_at_most_four(src, b as int);
        lemma_pos_monotone(src, a as int, b as int);
    }
    Span::new(base.start + off[a], base.start + off[b], base.line, base.column + a)
}

/// The characters `a..b` of `v`.
pub(crate) fn sub_chars(v: &Vec<char>, a: usize, b: usize) -> (r: Vec<char>)
    requires
        a <= b <= v@.len(),
    ensures
        r@ == v@.subrange(a as int, b as int),
{
    let mut r: Vec<char> = Vec::new();
    let mut k: usize = a;
    while k < b
        invariant
            a <= k <= b,
            b <= v@.len(),
            r@ == v@.subrange(a as int, k as int),
        decreases b - k,
    {
        r.push(v[k]);
        proof {
            assert(v@.subrange(a as int, k + 1) =~= v@.subrange(a as int, k as int).push(v@[k as int]));
        }
        k += 1;
    }
    r
}

/// Appends the characters of `t` to `s`.
pub(crate) fn push_text(s: &mut String, t: &str)
    ensures
        final(s)@ == old(s)@ + t@,
{
    let cs = chars_of(t);
    let mut k: usize = 0;
    while k < cs.len()
        invariant
            k <= cs@.len(),
            cs@ == t@,
            s@ == old(s)@ + cs@.take(k as int),
        decreases cs@.len() - k,
    {
        push_char(s, cs[k]);
        proof {
            assert(cs@.take(k + 1) =~= cs@.take(k as int).push(cs@[k as int]));
        }
        k += 1;
    }
    proof {
        assert(cs@.take(cs@.len() as int) =~= cs@);
    }
}

/// Whether `v` holds `c`.
fn chars_hold(v: &Vec<char>, c: char) -> (r: bool)
    ensures
        r == v@.contains(c),
{
    let mut k: usize = 0;
    while k < v.len()
        invariant
            k <= v@.len(),
            forall|j: int| 0 <= j < k ==> v@[j] != c,
        decreases v@.len() - k,
    {
        if v[k] == c {
            return true;
        }
        k += 1;
    }
    false
}

// ---------------------------------------------------------------------------
// Diagnostics
// ---------------------------------------------------------------------------

/// The diagnostic for a character that cannot stand in an expression.
fn bad_char_diagnostic(c: char, span: Span) -> (d: DaihonDiagnostic)
    ensures
        diagnostic_view(d) == bad_char_error(c, span),
{
    let mut m = String::new();
    push_text(&mut m, "式の中で使用できない文字「");
    push_char(&mut m, c);
    push_text(&mut m, "」があります。");
    proof {
        assert(m@ == "式の中で使用できない文字「"@ + seq![c] + "」があります。"@);
    }
    syntax_error("E-DHN-SYN-066", m.as_str(), span)
}

/// A diagnostic with one span and no notes, as plain values.
pub(crate) proof fn lemma_single_error_view(d: DaihonDiagnostic)
    requires
        d.severity == crate::diagnostic::Severity::Error,
        d.labels@.len() == 1,
        d.labels@[0].message is None,
        d.help is None,
    ensures
        diagnostic_view(d) == error_view(d.code@, d.message@, d.labels@[0].span, None),
{
    assert(diagnostic_view(d).labels =~= seq![(d.labels@[0].span, None::<Seq<char>>)]);
}

// ---------------------------------------------------------------------------
// Dialogue text and call reading
// ---------------------------------------------------------------------------

/// The text of a dialogue string's parts, embedded calls left out.
pub open spec fn dialogue_text(parts: Seq<DialoguePart>) -> Seq<char>
    decreases parts.len(),
{
    if parts.len() == 0 {
        Seq::empty()
    } else {
        dialogue_text(parts.drop_last()) + part_text(parts.last())
    }
}

/// The text of one part of a dialogue string.
pub open spec fn part_text(p: DialoguePart) -> Seq<char> {
    match p {
        DialoguePart::Text(t) => t.value@,
        DialoguePart::Embed(_) => Seq::empty(),
    }
}

proof fn lemma_dialogue_text_push(parts: Seq<DialoguePart>, p: DialoguePart)
    ensures
        dialogue_text(parts.push(p)) == dialogue_text(parts) + part_text(p),
{
    assert(parts.push(p).drop_last() =~= parts);
}

/// The text of a dialogue string, embedded calls left out.
pub(crate) fn dialogue_string(d: &Dialogue) -> (s: String)
    ensures
        s@ == dialogue_text(d.parts@),
{
    let mut s = String::new();
    let mut k: usize = 0;
    proof {
        assert(d.parts@.take(0) =~= Seq::<DialoguePart>::empty());
    }
    while k < d.parts.len()
        invariant
            k <= d.parts@.len(),
            s@ == dialogue_text(d.parts@.take(k as int)),
        decreases d.parts@.len() - k,
    {
        match &d.parts[k] {
            DialoguePart::Text(t) => push_text(&mut s, t.value.as_str()),
            DialoguePart::Embed(_) => {},
        }
        proof {
            assert(d.parts@.take(k + 1) =~= d.parts@.take(k as int).push(d.parts@[k as int]));
            lemma_dialogue_text_push(d.parts@.take(k as int), d.parts@[k as int]);
        }
        k += 1;
    }
    proof {
        assert(d.parts@.take(d.parts@.len() as int) =~= d.parts@);
    }
    s
}

/// What a function call read from `content` at `span` holds: the name and the span.
pub open spec fn call_read(f: FunctionCall, content: Seq<char>, span: Span) -> bool {
    &&& f.name.value@ == spec_call_name(content)
    &&& f.name.span == span
    &&& f.span == span
}

/// The call `f` is the one its content `content`, found at `span`, reads as: its name and
/// span, and its arguments.
pub open spec fn call_is_read(f: FunctionCall, content: Seq<char>, span: Span) -> bool {
    &&& call_read(f, content, span)
    &&& spec_content(content, span) matches Parsed::Done(c)
    &&& args_match(f, c, span)
}

/// A function token of `src`, read at `base`, holds the call its text reads as: the token
/// spans characters `a..b`, and its call is what the content between them reads as.
pub open spec fn call_token_read(t: ExprToken, src: Seq<char>, base: Span) -> bool {
    t.kind matches ExprTokenKind::Function(f) ==> exists|a: int, b: int|
        #![trigger chars_span(base, src, a, b)]
        0 <= a < b <= src.len() && t.span == chars_span(base, src, a, b) && call_is_read(
            f,
            src.subrange(a + 1, b - 1),
            t.span,
        )
}

/// As `call_token_read`, parenthesized arguments of the call being only some expression.
pub open spec fn call_token_read_outer(t: ExprToken, src: Seq<char>, base: Span) -> bool {
    t.kind matches ExprTokenKind::Function(f) ==> exists|a: int, b: int|
        #![trigger chars_span(base, src, a, b)]
        0 <= a < b <= src.len() && t.span == chars_span(base, src, a, b) && call_read(
            f,
            src.subrange(a + 1, b - 1),
            t.span,
        ) && (spec_content(src.subrange(a + 1, b - 1), t.span) matches Parsed::Done(c)
            && args_match_outer(f, c, t.span))
}

/// As `calls_read`, parenthesized arguments of calls being only some expression.
pub open spec fn calls_read_outer(ts: Seq<ExprToken>, src: Seq<char>, base: Span) -> bool {
    forall|k: int| 0 <= k < ts.len() ==> #[trigger] call_token_read_outer(ts[k], src, base)
}

/// Calls read are read with parenthesized arguments taken as any expression.
proof fn lemma_calls_read_outer(ts: Seq<ExprToken>, src: Seq<char>, base: Span)
    requires
        calls_read(ts, src, base),
    ensures
        calls_read_outer(ts, src, base),
{
    assert forall|k: int| 0 <= k < ts.len() implies #[trigger] call_token_read_outer(ts[k], src, base) by {
        assert(call_token_read(ts[k], src, base));
        if let ExprTokenKind::Function(f) = ts[k].kind {
            let (a, b) = choose|a: int, b: int| #![trigger chars_span(base, src, a, b)]
                0 <= a < b <= src.len() && ts[k].span == chars_span(base, src, a, b) && call_is_read(
                    f,
                    src.subrange(a + 1, b - 1),
                    ts[k].span,
                );
            let c = spec_content(src.subrange(a + 1, b - 1), ts[k].span)->Done_0;
            lemma_args_match_outer(f, c, ts[k].span);
            assert(chars_span(base, src, a, b) == ts[k].span);
        }
    }
}

/// Every function token of `ts` holds the call its text reads as.
pub open spec fn calls_read(ts: Seq<ExprToken>, src: Seq<char>, base: Span) -> bool {
    forall|k: int| 0 <= k < ts.len() ==> #[trigger] call_token_read(ts[k], src, base)
}

/// The arguments of `f` are those read as `c`, found at `span`: positional ones in order,
/// named ones by name in key order.
pub open spec fn args_match(f: FunctionCall, c: CallArgs, span: Span) -> bool {
    &&& f.positional@.len() == c.positional.len()
    &&& forall|i: int| 0 <= i < c.positional.len() ==> #[trigger] arg_matches(f.positional@[i], c.positional[i], span)
    &&& keys_ascending(f.named@)
    &&& entries_map(f.named@).dom() == c.named.dom()
    &&& forall|k: Seq<char>| #[trigger] c.named.contains_key(k) ==> arg_matches(entries_map(f.named@)[k], c.named[k], span)
}

/// As `args_match`, each parenthesized argument being only some expression.
pub open spec fn args_match_outer(f: FunctionCall, c: CallArgs, span: Span) -> bool {
    &&& f.positional@.len() == c.positional.len()
    &&& forall|i: int| 0 <= i < c.positional.len() ==> #[trigger] arg_matches_outer(f.positional@[i], c.positional[i], span)
    &&& keys_ascending(f.named@)
    &&& entries_map(f.named@).dom() == c.named.dom()
    &&& forall|k: Seq<char>| #[trigger] c.named.contains_key(k) ==> arg_matches_outer(entries_map(f.named@)[k], c.named[k], span)
}

/// The arguments that match also match with parenthesized ones taken as any expression.
proof fn lemma_args_match_outer(f: FunctionCall, c: CallArgs, span: Span)
    requires
        args_match(f, c, span),
    ensures
        args_match_outer(f, c, span),
{
    assert forall|i: int| 0 <= i < c.positional.len() implies #[trigger] arg_matches_outer(f.positional@[i], c.positional[i], span) by {
        assert(arg_matches(f.positional@[i], c.positional[i], span));
    }
    assert forall|k: Seq<char>| #[trigger] c.named.contains_key(k) implies arg_matches_outer(entries_map(f.named@)[k], c.named[k], span) by {
        assert(arg_matches(entries_map(f.named@)[k], c.named[k], span));
    }
}

/// Joining no arguments in front changes nothing.
proof fn lemma_join_nothing(rest: Parsed<CallArgs>)
    ensures
        join_args(no_args(), rest) == rest,
{
    if let Parsed::Done(r) = rest {
        assert(Seq::<ArgView>::empty() + r.positional =~= r.positional);
        assert(Map::<Seq<char>, ArgView>::empty().union_prefer_right(r.named) =~= r.named);
    }
}

/// Joining in two steps is joining once.
proof fn lemma_join_step(acc: CallArgs, front: CallArgs, rest: Parsed<CallArgs>)
    ensures
        join_args(acc, join_args(front, rest)) == join_args(
            CallArgs {
                positional: acc.positional + front.positional,
                named: acc.named.union_prefer_right(front.named),
            },
            rest,
        ),
{
    if let Parsed::Done(r) = rest {
        assert(acc.positional + (front.positional + r.positional) =~= (acc.positional
            + front.positional) + r.positional);
        assert(acc.named.union_prefer_right(front.named.union_prefer_right(r.named))
            =~= acc.named.union_prefer_right(front.named).union_prefer_right(r.named));
    }
}

/// Prepending in two steps is prepending once.
proof fn lemma_prepend_step(a: Seq<TokenView>, t: TokenView, rest: Parsed<Seq<TokenView>>)
    ensures
        prepend(a, prepend(seq![t], rest)) == prepend(a.push(t), rest),
{
    match rest {
        Parsed::Done(ts) => {
            assert(a + (seq![t] + ts) =~= a.push(t) + ts);
        },
        _ => {},
    }
}

/// Adding a token whose call, if any, is read keeps every call read.
proof fn lemma_calls_read_push(v: Seq<ExprToken>, t: ExprToken, src: Seq<char>, base: Span)
    requires
        calls_read(v, src, base),
        !(t.kind is Function) || call_token_read(t, src, base),
    ensures
        calls_read(v.push(t), src, base),
{
    assert forall|k: int| 0 <= k < v.push(t).len() implies #[trigger] call_token_read(v.push(t)[k], src, base) by {
        if k < v.len() {
            assert(v.push(t)[k] == v[k]);
        }
    }
}

/// Token views of a list with one more token.
proof fn lemma_views_push(v: Seq<ExprToken>, t: ExprToken)
    ensures
        token_views(v.push(t)) == token_views(v).push(token_view(t)),
{
    assert(token_views(v.push(t)) =~= token_views(v).push(token_view(t)));
}

// ---------------------------------------------------------------------------
// Reading function calls, dialogue strings and expressions
// ---------------------------------------------------------------------------

/// Reads the function call whose `＜` is at `s`, as `spec_call_at` says: the call and the
/// index after its closing `＞`.
#[verifier::rlimit(80)]
#[verifier::spinoff_prover]
pub(crate) fn parse_function_call_at(src: &Vec<char>, off: &Vec<usize>, s: usize, base: Span) -> (r: Result<(FunctionCall, usize), DaihonDiagnostic>)
    requires
        s < src@.len(),
        offsets_of(off@, src@),
        text_room(base, src@.len() as int),
        !(spec_call_at(src@, s as int, base) is Undefined),
    ensures
        match spec_call_at(src@, s as int, base) {
            Parsed::Done(e) => r matches Ok((f, e2)) && e2 == e && s < e <= src@.len()
                && call_is_read(f, src@.subrange(s + 1, e - 1), chars_span(base, src@, s as int, e)),
            Parsed::Failed(d) => r matches Err(x) && diagnostic_view(x) == d,
            Parsed::Undefined => true,
        },
    decreases src@.len(), 1nat,
{
    let ghost g = src@;
    let mut i: usize = s + 1;
    let mut depth: usize = 1;
    let mut quoted = false;
    while i < src.len()
        invariant
            g == src@,
            s < g.len(),
            offsets_of(off@, g),
            text_room(base, g.len() as int),
            !(spec_call_at(g, s as int, base) is Undefined),
            s + 1 <= i <= g.len(),
            1 <= depth <= i,
            call_close(g, s + 1, 1, false) == call_close(g, i as int, depth as int, quoted),
        decreases g.len() - i,
    {
        let c = src[i];
        if quoted {
            if c == '」' {
                if i + 1 < src.len() && src[i + 1] == '」' {
                    i = i + 2;
                    continue;
                }
                quoted = false;
            }
            i = i + 1;
        } else if c == '「' {
            quoted = true;
            i = i + 1;
        } else if c == '＜' {
            depth = depth + 1;
            i = i + 1;
        } else if c == '＞' {
            if depth == 1 {
                let j = i;
                let content = sub_chars(src, s + 1, j);
                let span = span_of(base, off, Ghost(g), s, j + 1);
                proof {
                    lemma_pos_at_most_four(g, s as int);
                }
                let r = parse_function_content_chars(&content, span);
                return match r {
                    Ok(f) => Ok((f, j + 1)),
                    Err(d) => Err(d),
                };
            }
            depth = depth - 1;
            i = i + 1;
        } else {
            i = i + 1;
        }
    }
    let span = span_of(base, off, Ghost(g), s, src.len());
    Err(syntax_error("E-DHN-LEX-002", "関数呼び出しが閉じられていません。", span))
}

/// Reads the dialogue string whose `「` is at `s`, as `spec_dialogue_from` says: the string
/// and the index after its closing `」`.
#[verifier::rlimit(80)]
#[verifier::spinoff_prover]
pub(crate) fn parse_dialogue_at(src: &Vec<char>, off: &Vec<usize>, s: usize, base: Span) -> (r: Result<(Dialogue, usize), DaihonDiagnostic>)
    requires
        s < src@.len(),
        offsets_of(off@, src@),
        text_room(base, src@.len() as int),
        !(spec_dialogue_from(src@, s + 1, s as int, base, Seq::empty()) is Undefined),
    ensures
        match spec_dialogue_from(src@, s + 1, s as int, base, Seq::empty()) {
            Parsed::Done((t, e)) => r matches Ok((d, e2)) && e2 == e && s < e <= src@.len()
                && dialogue_text(d.parts@) == t && d.span == chars_span(base, src@, s as int, e),
            Parsed::Failed(x) => r matches Err(y) && diagnostic_view(y) == x,
            Parsed::Undefined => true,
        },
    decreases src@.len(), 2nat,
{
    let ghost g = src@;
    let mut parts: Vec<DialoguePart> = Vec::new();
    let mut text: Vec<char> = Vec::new();
    let mut text_start: usize = s + 1;
    let mut i: usize = s + 1;
    proof {
        assert(dialogue_text(parts@) + text@ =~= Seq::<char>::empty());
    }
    while i < src.len()
        invariant
            g == src@,
            s < g.len(),
            offsets_of(off@, g),
            text_room(base, g.len() as int),
            s + 1 <= text_start <= i <= g.len(),
            spec_dialogue_from(g, s + 1, s as int, base, Seq::empty()) == spec_dialogue_from(
                g,
                i as int,
                s as int,
                base,
                dialogue_text(parts@) + text@,
            ),
            !(spec_dialogue_from(g, i as int, s as int, base, dialogue_text(parts@) + text@) is Undefined),
        decreases g.len() - i,
    {
        let ghost acc = dialogue_text(parts@) + text@;
        let c = src[i];
        let doubled = i + 1 < src.len() && src[i + 1] == c;
        if c == '」' && !doubled {
            if text.len() > 0 {
                let piece = Spanned::new(string_of(text.as_slice()), span_of(base, off, Ghost(g), text_start, i));
                let ghost before = parts@;
                parts.push(DialoguePart::Text(piece));
                proof {
                    lemma_dialogue_text_push(before, DialoguePart::Text(piece));
                }
            }
            let end = i + 1;
            let span = span_of(base, off, Ghost(g), s, end);
            return Ok((Dialogue { parts, span }, end));
        } else if (c == '」' || c == '「' || c == '＞' || c == '＜') && doubled {
            text.push(c);
            proof {
                assert(dialogue_text(parts@) + text@ =~= acc.push(c));
            }
            i = i + 2;
        } else if c == '＜' {
            if text.len() > 0 {
                let piece = Spanned::new(string_of(text.as_slice()), span_of(base, off, Ghost(g), text_start, i));
                let ghost before = parts@;
                parts.push(DialoguePart::Text(piece));
                text = Vec::new();
                proof {
                    lemma_dialogue_text_push(before, DialoguePart::Text(piece));
                    assert(dialogue_text(parts@) + text@ =~= acc);
                }
            }
            match parse_function_call_at(src, off, i, base) {
                Ok((f, e)) => {
                    let ghost before = parts@;
                    parts.push(DialoguePart::Embed(f));
                    proof {
                        lemma_dialogue_text_push(before, DialoguePart::Embed(f));
                        assert(dialogue_text(parts@) + text@ =~= acc);
                    }
                    i = e;
                    text_start = e;
                },
                Err(x) => {
                    return Err(x);
                },
            }
        } else {
            text.push(c);
            proof {
                assert(dialogue_text(parts@) + text@ =~= acc.push(c));
            }
            i = i + 1;
        }
    }
    let span = span_of(base, off, Ghost(g), s, src.len());
    Err(syntax_error("E-DHN-LEX-001", "セリフが閉じられていません。", span))
}

/// Reads the content of a function call (between `＜` and `＞`), as `spec_content` says:
/// the name, then each argument, positional or named.
#[verifier::rlimit(100)]
#[verifier::spinoff_prover]
fn parse_function_content_chars(content: &Vec<char>, span: Span) -> (r: Result<FunctionCall, DaihonDiagnostic>)
    requires
        text_room(span, content@.len() as int),
        !(spec_content(content@, span) is Undefined),
    ensures
        match spec_content(content@, span) {
            Parsed::Done(c) => r matches Ok(f) && call_read(f, content@, span) && args_match(f, c, span),
            Parsed::Failed(d) => r matches Err(x) && diagnostic_view(x) == d,
            Parsed::Undefined => true,
        },
    decreases content@.len(), 7nat,
{
    let text = string_of(content.as_slice());
    let args = split_function_args(text.as_str());
    if args.len() == 0 {
        return Err(syntax_error("E-DHN-SYN-050", "関数名が空です。", span));
    }
    proof {
        assert(string_views(args@)[0] == args@[0]@);
    }
    let first = chars_of(args[0].as_str());
    let name_chars = normalize_chars(trim_chars(first.as_slice()).as_slice());
    let name = string_of(name_chars.as_slice());
    let mut positional: Vec<FuncArg> = Vec::new();
    let mut named: TextMap<FuncArg> = TextMap::new();
    let ghost mut pv: Seq<ArgView> = Seq::empty();
    let ghost mut nv: Map<Seq<char>, ArgView> = Map::empty();
    let mut k: usize = 1;
    proof {
        lemma_join_nothing(spec_args_from(content@, 1, span));
    }
    while k < args.len()
        invariant
            1 <= k <= args@.len(),
            string_views(args@) == spec_function_args(content@),
            text_room(span, content@.len() as int),
            spec_content(content@, span) == join_args(
                CallArgs { positional: pv, named: nv },
                spec_args_from(content@, k as int, span),
            ),
            !(spec_args_from(content@, k as int, span) is Undefined),
            positional@.len() == pv.len(),
            forall|i: int| 0 <= i < pv.len() ==> #[trigger] arg_matches(positional@[i], pv[i], span),
            named.wf(),
            named@.dom() == nv.dom(),
            forall|key: Seq<char>| #[trigger] nv.contains_key(key) ==> arg_matches(named@[key], nv[key], span),
        decreases args@.len() - k,
    {
        let a = chars_of(args[k].as_str());
        proof {
            assert(string_views(args@)[k as int] == args@[k as int]@);
            lemma_args_within(content@, k as int);
            lemma_assignment_range(a@, 0, assign_start());
        }
        let ghost rest = spec_args_from(content@, k + 1, span);
        match assignment_index(&a) {
            Some(e) => {
                let key = normalize_chars(trim_chars(sub_chars(&a, 0, e).as_slice()).as_slice());
                let tail = sub_chars(&a, e + 1, a.len());
                let value = trim_chars(tail.as_slice());
                proof {
                    lemma_trim_shorter(tail@);
                }
                match parse_func_arg_chars(&value, span) {
                    Ok(v) => {
                        let ghost view = spec_func_arg(value@, span)->Done_0;
                        let ghost front = CallArgs { positional: Seq::empty(), named: map![key@ => view] };
                        proof {
                            lemma_join_step(CallArgs { positional: pv, named: nv }, front, rest);
                            assert(pv + front.positional =~= pv);
                            assert(nv.union_prefer_right(front.named) =~= nv.insert(key@, view));
                        }
                        named.insert(string_of(key.as_slice()), v);
                        proof {
                            nv = nv.insert(key@, view);
                            assert(named@.dom() =~= nv.dom());
                        }
                    },
                    Err(d) => {
                        return Err(d);
                    },
                }
            },
            None => {
                let value = trim_chars(a.as_slice());
                proof {
                    lemma_trim_shorter(a@);
                }
                match parse_func_arg_chars(&value, span) {
                    Ok(v) => {
                        let ghost view = spec_func_arg(value@, span)->Done_0;
                        let ghost front = CallArgs { positional: seq![view], named: Map::empty() };
                        proof {
                            lemma_join_step(CallArgs { positional: pv, named: nv }, front, rest);
                            assert(nv.union_prefer_right(front.named) =~= nv);
                        }
                        let ghost before = positional@;
                        let ghost old_pv = pv;
                        positional.push(v);
                        proof {
                            pv = pv + seq![view];
                            assert forall|i: int| 0 <= i < pv.len() implies #[trigger] arg_matches(
                                positional@[i],
                                pv[i],
                                span,
                            ) by {
                                if i < old_pv.len() {
                                    assert(positional@[i] == before[i]);
                                    assert(pv[i] == old_pv[i]);
                                    assert(arg_matches(before[i], old_pv[i], span));
                                }
                            }
                        }
                    },
                    Err(d) => {
                        return Err(d);
                    },
                }
            },
        }
        k += 1;
    }
    proof {
        named.lemma_entries_are_view();
        assert(pv + Seq::<ArgView>::empty() =~= pv);
        assert(nv.union_prefer_right(Map::<Seq<char>, ArgView>::empty()) =~= nv);
    }
    Ok(FunctionCall { name: Spanned::new(name, span), positional, named: named.into_entries(), span })
}

/// Reads one argument of a function call, as `spec_func_arg` says: an arithmetic
/// expression in parentheses, a dialogue string, a literal, a nested call, or a bare word.
#[verifier::rlimit(80)]
#[verifier::spinoff_prover]
fn parse_func_arg_chars(text: &Vec<char>, span: Span) -> (r: Result<FuncArg, DaihonDiagnostic>)
    requires
        text_room(span, text@.len() as int),
        !(spec_func_arg(text@, span) is Undefined),
    ensures
        match spec_func_arg(text@, span) {
            Parsed::Done(v) => r matches Ok(a) && arg_matches(a, v, span),
            Parsed::Failed(d) => r matches Err(x) && diagnostic_view(x) == d,
            Parsed::Undefined => true,
        },
    decreases text@.len(), 5nat,
{
    let t = trim_chars(text.as_slice());
    proof {
        lemma_trim_shorter(text@);
    }
    let ts = string_of(t.as_slice());
    match strip_wrapped_paren(ts.as_str()) {
        Some(inner) => {
            let ic = chars_of(inner.as_str());
            let it = trim_chars(ic.as_slice());
            proof {
                lemma_trim_shorter(ic@);
                lemma_trim_shorter(t@);
                let t2 = spec_trim(t@);
                assert(t2.len() >= 2) by {
                    if t2.len() == 1 {
                        assert(t2[0] == t2.last());
                    }
                }
            }
            match parse_expression_chars(&it, span, false) {
                Ok(e) => Ok(FuncArg::Expr(e)),
                Err(d) => Err(d),
            }
        },
        None => {
            if t.len() > 0 && t[0] == '「' {
                let off = offsets(&t);
                match parse_dialogue_at(&t, &off, 0, span) {
                    Ok((d, _)) => {
                        let value = dialogue_string(&d);
                        Ok(FuncArg::Expr(Expr::Value(Spanned::new(LiteralValue::String(value), span))))
                    },
                    Err(x) => Err(x),
                }
            } else {
                match parse_literal(ts.as_str(), span) {
                    Some(v) => Ok(FuncArg::Expr(Expr::Value(Spanned::new(v, span)))),
                    None => {
                        if t.len() > 0 && t[0] == '＜' {
                            let off = offsets(&t);
                            match parse_function_call_at(&t, &off, 0, span) {
                                Ok((f, _)) => Ok(FuncArg::Expr(Expr::FunctionCall(f))),
                                Err(x) => Err(x),
                            }
                        } else {
                            let word = normalize_chars(t.as_slice());
                            Ok(FuncArg::BareWord(Spanned::new(string_of(word.as_slice()), span)))
                        }
                    },
                }
            }
        },
    }
}

/// Reads all of `text` as a condition (`condition`) or an arithmetic expression, as
/// `spec_expression_text` says.
#[verifier::rlimit(80)]
#[verifier::spinoff_prover]
pub(crate) fn parse_expression_chars(text: &Vec<char>, span: Span, condition: bool) -> (r: Result<Expr, DaihonDiagnostic>)
    requires
        text_room(span, text@.len() as int),
        !(spec_expression_text(text@, span, condition) is Undefined),
    ensures
        match spec_expression_text(text@, span, condition) {
            Parsed::Done(n) => r matches Ok(e) && read_from(e, n, text@, span),
            Parsed::Failed(d) => r matches Err(x) && diagnostic_view(x) == d,
            Parsed::Undefined => true,
        },
    decreases text@.len(), 4nat,
{
    let off = offsets(text);
    let tokens = match expr_tokens_chars(text, &off, span) {
        Ok(v) => v,
        Err(x) => {
            return Err(x);
        },
    };
    let ghost ts = tokens@;
    let r = parse_expression_tokens(tokens, condition);
    proof {
        if r is Ok {
            if let Ok(n) = spec_read_expression(token_views(ts), condition) {
                let e = r->Ok_0;
                assert(read_from(e, n, text@, span)) by {
                    reveal(read_from);
                    lemma_tokens_witness(e, n, ts, text@, span);
                }
            }
        }
    }
    r
}

/// `e` is read from `text`, written at `span`: the text's tokens are read, and `e` stands
/// for the shape `n` over tokens of those kinds and spans whose calls are the ones their
/// text reads as (a call's parenthesized arguments each being some expression).
#[verifier::opaque]
pub open spec fn read_from(e: Expr, n: Node, text: Seq<char>, span: Span) -> bool {
    &&& spec_tokens_from(text, 0, span) matches Parsed::Done(tv)
    &&& exists|ts: Seq<ExprToken>| token_views(ts) == tv && calls_read_outer(ts, text, span) && #[trigger] denotes(e, n, ts)
}

/// Tokens that an expression denotes the shape over are a witness that some do.
proof fn lemma_tokens_witness(e: Expr, n: Node, ts: Seq<ExprToken>, text: Seq<char>, span: Span)
    requires
        denotes(e, n, ts),
        calls_read(ts, text, span),
    ensures
        exists|t: Seq<ExprToken>| token_views(t) == token_views(ts) && calls_read_outer(t, text, span) && #[trigger] denotes(e, n, t),
{
    lemma_calls_read_outer(ts, text, span);
}

/// Where the operator starting at `i` ends.
fn op_end_exec(src: &Vec<char>, i: usize) -> (e: usize)
    requires
        i < src@.len(),
    ensures
        e == op_end(src@, i as int),
        i < e <= src@.len(),
{
    if src.len() - i > 1 {
        let n = normalize_char_exec(src[i]);
        let m = normalize_char_exec(src[i + 1]);
        if m == '=' && (n == '=' || n == '!' || n == '<' || n == '>') {
            return i + 2;
        }
    }
    i + 1
}

/// Where the run of `class` characters starting at `i` ends.
fn run_end_exec(src: &Vec<char>, i: usize, class: CharClass) -> (e: usize)
    requires
        i <= src@.len(),
    ensures
        e == run_end(src@, i as int, class),
        i <= e <= src@.len(),
{
    let mut k = i;
    while k < src.len() && class_has(class, src[k])
        invariant
            i <= k <= src@.len(),
            run_end(src@, i as int, class) == run_end(src@, k as int, class),
        decreases src@.len() - k,
    {
        k += 1;
    }
    k
}

/// Where the number or time starting at `i` ends.
fn number_end_exec(src: &Vec<char>, i: usize) -> (e: usize)
    requires
        i < src@.len(),
        is_digit(src@[i as int]),
    ensures
        e == number_end(src@, i as int),
        i < e <= src@.len(),
{
    if src.len() - i > 1 && src[i] == '0' && (src[i + 1] == 'x' || src[i + 1] == 'o' || src[i + 1]
        == 'b') {
        return run_end_exec(src, i + 2, CharClass::AsciiAlnum);
    }
    let mut k = i;
    let mut colon = false;
    let mut dot = false;
    while k < src.len() && decimal_goes_on(src[k], colon, dot)
        invariant
            i <= k <= src@.len(),
            decimal_end(src@, i as int, false, false) == decimal_end(src@, k as int, colon, dot),
            k == i ==> !colon && !dot && is_digit(src@[i as int]),
        decreases src@.len() - k,
    {
        let c = src[k];
        if (c == ':' || c == '：') && !char_is_digit(c) && !colon {
            colon = true;
        } else if (c == '.' || c == '．') && !char_is_digit(c) && !dot && !colon {
            dot = true;
        }
        k += 1;
    }
    k
}

/// Whether the decimal scan in the state `(colon, dot)` goes on past `c`.
fn decimal_goes_on(c: char, colon: bool, dot: bool) -> (r: bool)
    ensures
        r == (is_digit(c) || ((c == ':' || c == '：') && !colon) || ((c == '.' || c == '．') && !dot
            && !colon)),
{
    char_is_digit(c) || ((c == ':' || c == '：') && !colon) || ((c == '.' || c == '．') && !dot && !colon)
}

/// The token a normalized word makes.
fn word_token(w: &Vec<char>) -> (k: ExprTokenKind)
    ensures
        token_view(ExprToken { kind: k, span: Span { start: 0, end: 0, line: 0, column: 0 } }).kind
            == word_kind(w@),
{
    if is_lit(w.as_slice(), "はい") {
        ExprTokenKind::Bool(true)
    } else if is_lit(w.as_slice(), "いいえ") {
        ExprTokenKind::Bool(false)
    } else if is_lit(w.as_slice(), "かつ") || is_lit(w.as_slice(), "または") || is_lit(w.as_slice(), "未満")
        || is_lit(w.as_slice(), "以下") || is_lit(w.as_slice(), "以上") || is_lit(w.as_slice(), "超える")
        || is_lit(w.as_slice(), "でない") || is_lit(w.as_slice(), "を含む") || is_lit(w.as_slice(), "で始まる")
        || is_lit(w.as_slice(), "で終わる") {
        ExprTokenKind::Op(string_of(w.as_slice()))
    } else {
        ExprTokenKind::Ident(string_of(w.as_slice()))
    }
}

/// The tokens of an expression text, as `spec_tokens_from` says: dialogue strings,
/// function calls, parentheses, operators, numbers, times and words, blanks skipped.
#[verifier::rlimit(80)]
#[verifier::spinoff_prover]
fn expr_tokens_chars(src: &Vec<char>, off: &Vec<usize>, base: Span) -> (r: Result<Vec<ExprToken>, DaihonDiagnostic>)
    requires
        offsets_of(off@, src@),
        text_room(base, src@.len() as int),
        !(spec_tokens_from(src@, 0, base) is Undefined),
    ensures
        match spec_tokens_from(src@, 0, base) {
            Parsed::Done(ts) => r matches Ok(v) && token_views(v@) == ts && calls_read(v@, src@, base),
            Parsed::Failed(d) => r matches Err(x) && diagnostic_view(x) == d,
            Parsed::Undefined => true,
        },
    decreases src@.len(), 3nat,
{
    let ghost g = src@;
    let mut tokens: Vec<ExprToken> = Vec::new();
    let mut i: usize = 0;
    proof {
        assert(token_views(tokens@) =~= Seq::<TokenView>::empty());
        assert(prepend(Seq::empty(), spec_tokens_from(g, 0, base)) == spec_tokens_from(g, 0, base)) by {
            match spec_tokens_from(g, 0, base) {
                Parsed::Done(ts) => {
                    assert(Seq::<TokenView>::empty() + ts =~= ts);
                },
                _ => {},
            }
        }
    }
    while i < src.len()
        invariant
            g == src@,
            offsets_of(off@, g),
            text_room(base, g.len() as int),
            i <= g.len(),
            spec_tokens_from(g, 0, base) == prepend(token_views(tokens@), spec_tokens_from(g, i as int, base)),
            !(spec_tokens_from(g, i as int, base) is Undefined),
            calls_read(tokens@, g, base),
        decreases g.len() - i,
    {
        let c = src[i];
        let n = normalize_char_exec(c);
        let ghost before = tokens@;
        if char_is_whitespace(c) || c == '\u{3000}' {
            i = i + 1;
        } else if c == '「' {
            match parse_dialogue_at(src, off, i, base) {
                Ok((d, e)) => {
                    let value = dialogue_string(&d);
                    let span = span_of(base, off, Ghost(g), i, e);
                    let tok = ExprToken { kind: ExprTokenKind::String(value), span };
                    tokens.push(tok);
                    proof {
                        lemma_calls_read_push(before, tok, g, base);
                        lemma_views_push(before, tok);
                        lemma_prepend_step(token_views(before), token_view(tok), spec_tokens_from(g, e as int, base));
                    }
                    i = e;
                },
                Err(x) => {
                    return Err(x);
                },
            }
        } else if c == '＜' {
            match parse_function_call_at(src, off, i, base) {
                Ok((f, e)) => {
                    let span = span_of(base, off, Ghost(g), i, e);
                    let tok = ExprToken { kind: ExprTokenKind::Function(f), span };
                    let ghost tv = token_view(tok);
                    proof {
                        assert(call_token_read(tok, g, base)) by {
                            assert(span == chars_span(base, g, i as int, e as int));
                        }
                    }
                    tokens.push(tok);
                    proof {
                        lemma_calls_read_push(before, tok, g, base);
                        lemma_views_push(before, tok);
                        lemma_prepend_step(token_views(before), tv, spec_tokens_from(g, e as int, base));
                    }
                    i = e;
                },
                Err(x) => {
                    return Err(x);
                },
            }
        } else if c == '(' || c == '（' || c == ')' || c == '）' {
            let span = span_of(base, off, Ghost(g), i, i + 1);
            let kind = if c == '(' || c == '（' {
                ExprTokenKind::LParen
            } else {
                ExprTokenKind::RParen
            };
            let tok = ExprToken { kind, span };
            tokens.push(tok);
            proof {
                lemma_calls_read_push(before, tok, g, base);
                lemma_views_push(before, tok);
                lemma_prepend_step(token_views(before), token_view(tok), spec_tokens_from(g, i + 1, base));
            }
            i = i + 1;
        } else if n == '+' || n == '-' || n == '*' || n == '/' || n == '%' || n == '~' || n == '='
            || n == '<' || n == '>' || n == '!' {
            let e = op_end_exec(src, i);
            let word = normalize_chars(sub_chars(src, i, e).as_slice());
            let span = span_of(base, off, Ghost(g), i, e);
            let tok = ExprToken { kind: ExprTokenKind::Op(string_of(word.as_slice())), span };
            tokens.push(tok);
            proof {
                lemma_calls_read_push(before, tok, g, base);
                lemma_views_push(before, tok);
                lemma_prepend_step(token_views(before), token_view(tok), spec_tokens_from(g, e as int, base));
            }
            i = e;
        } else if char_is_digit(c) {
            let e = number_end_exec(src, i);
            let word = normalize_chars(sub_chars(src, i, e).as_slice());
            let span = span_of(base, off, Ghost(g), i, e);
            let kind = if chars_hold(&word, ':') {
                match parse_time(string_of(word.as_slice()).as_str(), span) {
                    Ok(time) => ExprTokenKind::Time(time),
                    Err(x) => {
                        proof {
                            lemma_single_error_view(x);
                        }
                        return Err(x);
                    },
                }
            } else {
                ExprTokenKind::Number(string_of(word.as_slice()))
            };
            let tok = ExprToken { kind, span };
            tokens.push(tok);
            proof {
                lemma_calls_read_push(before, tok, g, base);
                lemma_views_push(before, tok);
                lemma_prepend_step(token_views(before), token_view(tok), spec_tokens_from(g, e as int, base));
            }
            i = e;
        } else if char_is_identifier_start(c) {
            let e = run_end_exec(src, i + 1, CharClass::IdentifierOrHash);
            let word = normalize_chars(sub_chars(src, i, e).as_slice());
            let span = span_of(base, off, Ghost(g), i, e);
            let tok = ExprToken { kind: word_token(&word), span };
            tokens.push(tok);
            proof {
                lemma_calls_read_push(before, tok, g, base);
                lemma_views_push(before, tok);
                lemma_prepend_step(token_views(before), token_view(tok), spec_tokens_from(g, e as int, base));
            }
            i = e;
        } else {
            let span = span_of(base, off, Ghost(g), i, i + 1);
            return Err(bad_char_diagnostic(c, span));
        }
    }
    proof {
        assert(token_views(tokens@) + Seq::<TokenView>::empty() =~= token_views(tokens@));
    }
    Ok(tokens)
}

// ---------------------------------------------------------------------------
// Reading texts
// ---------------------------------------------------------------------------

/// The tokens of the expression text `text` written at `base_span`, as `spec_tokens_from`
/// says, or the first diagnostic: an unclosed dialogue string or call, a call that cannot
/// be read, a time outside the day, or a character no token starts with.
pub fn expr_tokens(text: &str, base_span: Span) -> (r: Result<Vec<ExprToken>, DaihonDiagnostic>)
    requires
        text_room(base_span, text@.len() as int),
        !(spec_tokens_from(text@, 0, base_span) is Undefined),
    ensures
        match spec_tokens_from(text@, 0, base_span) {
            Parsed::Done(ts) => r matches Ok(v) && token_views(v@) == ts && calls_read(v@, text@, base_span),
            Parsed::Failed(d) => r matches Err(x) && diagnostic_view(x) == d,
            Parsed::Undefined => true,
        },
{
    let cs = chars_of(text);
    let off = offsets(&cs);
    expr_tokens_chars(&cs, &off, base_span)
}

/// Reads `text`, written at `span`, as a condition: its tokens read by
/// `spec_read_expression`. Fails with the first diagnostic of the tokens or of the reading.
pub fn parse_condition_expr(text: &str, span: Span) -> (r: Result<Expr, DaihonDiagnostic>)
    requires
        text_room(span, text@.len() as int),
        !(spec_expression_text(text@, span, true) is Undefined),
    ensures
        match spec_expression_text(text@, span, true) {
            Parsed::Done(n) => r matches Ok(e) && read_from(e, n, text@, span),
            Parsed::Failed(d) => r matches Err(x) && diagnostic_view(x) == d,
            Parsed::Undefined => true,
        },
{
    let cs = chars_of(text);
    parse_expression_chars(&cs, span, true)
}

/// Reads `text`, written at `span`, as an arithmetic expression: its tokens read by
/// `spec_read_expression`. Fails with the first diagnostic of the tokens or of the reading.
pub fn parse_arith_expr(text: &str, span: Span) -> (r: Result<Expr, DaihonDiagnostic>)
    requires
        text_room(span, text@.len() as int),
        !(spec_expression_text(text@, span, false) is Undefined),
    ensures
        match spec_expression_text(text@, span, false) {
            Parsed::Done(n) => r matches Ok(e) && read_from(e, n, text@, span),
            Parsed::Failed(d) => r matches Err(x) && diagnostic_view(x) == d,
            Parsed::Undefined => true,
        },
{
    let cs = chars_of(text);
    parse_expression_chars(&cs, span, false)
}

/// Reads the content of a function call (the text between `＜` and `＞`) found at `span`:
/// its name, then its positional and named arguments, as `spec_content` says.
pub fn parse_function_content(content: &str, span: Span) -> (r: Result<FunctionCall, DaihonDiagnostic>)
    requires
        text_room(span, content@.len() as int),
        !(spec_content(content@, span) is Undefined),
    ensures
        match spec_content(content@, span) {
            Parsed::Done(c) => r matches Ok(f) && call_read(f, content@, span) && args_match(f, c, span),
            Parsed::Failed(d) => r matches Err(x) && diagnostic_view(x) == d,
            Parsed::Undefined => true,
        },
{
    let cs = chars_of(content);
    parse_function_content_chars(&cs, span)
}

/// Reads one argument of a function call found at `span`, as `spec_func_arg` says.
pub fn parse_func_arg(text: &str, span: Span) -> (r: Result<FuncArg, DaihonDiagnostic>)
    requires
        text_room(span, text@.len() as int),
        !(spec_func_arg(text@, span) is Undefined),
    ensures
        match spec_func_arg(text@, span) {
            Parsed::Done(v) => r matches Ok(a) && arg_matches(a, v, span),
            Parsed::Failed(d) => r matches Err(x) && diagnostic_view(x) == d,
            Parsed::Undefined => true,
        },
{
    let cs = chars_of(text);
    parse_func_arg_chars(&cs, span)
}

} // verus!
