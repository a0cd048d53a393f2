use vstd::prelude::*;
use vstd::utf8::encode_utf8;

use crate::ast::{
    Assignment, ConditionalBlock, ConditionalBranch, ConditionalStmt, DisplayLine, DisplayPart, Expr,
    JumpTarget, Stmt,
};
use crate::diagnostic::DaihonDiagnostic;
use crate::expr::Node;
use crate::expr_text::{
    call_read, chars_span, dialogue_text, lemma_pos_at_most_four, lemma_trim_shorter, offsets,
    offsets_of, parse_dialogue_at, parse_expression_chars, parse_function_call_at, read_from,
    span_of, spec_call_at, spec_dialogue_from, spec_expression_text, sub_chars, text_room, Parsed,
};
use crate::lexer::{
    lemma_pos_byte_is_encoding, normalize_char, normalize_char_exec, normalize_chars, normalize_seq,
};
use crate::span::{Span, Spanned};
use crate::expr::syntax_error;
use crate::syntax::{
    assignment_from, assignment_index, find_from, jump_target_text, lemma_assignment_range,
    lemma_boundary_at, line_head, parse_jump, parse_variable_ref, parsed_variable_is, piece_span,
    span_for_substr, spec_is_known_metadata_key, spec_span_for_substr, spec_split_metadata_line,
    spec_split_speaker_prefix, spec_trim_nara, AssignScan, LogicalLine, nara_count,
    is_known_metadata_key, is_lit, is_scene_header, normalize_line_head, split_metadata_line, split_speaker_prefix,
    trim_nara,
};
use crate::text::{
    char_is_whitespace, chars_eq, chars_of, chars_start_with, is_whitespace, leading_ws, seq_starts_with,
    spec_trim, string_of, trim_chars,
};
use crate::validate::{
    diagnostic_view, diagnostic_views, error_view, lemma_views_push, DiagnosticView,
};

verus! {

// ---------------------------------------------------------------------------
// Display lines
// ---------------------------------------------------------------------------

/// One part of a display line as read: a dialogue string by its text, or a function call
/// by its content, each with its span.
pub enum PartView {
    Dialogue(Seq<char>, Span),
    Call(Seq<char>, Span),
}

/// The span of a part as read.
pub open spec fn part_view_span(p: PartView) -> Span {
    match p {
        PartView::Dialogue(_, span) => span,
        PartView::Call(_, span) => span,
    }
}

/// The part `v` in front of the parts that `rest` read, or what went wrong in `rest`.
pub open spec fn cons_part(v: PartView, rest: Parsed<Option<Seq<PartView>>>) -> Parsed<Option<Seq<PartView>>> {
    match rest {
        Parsed::Done(Some(ps)) => Parsed::Done(Some(seq![v] + ps)),
        other => other,
    }
}

/// The parts in front of those that `rest` read.
pub open spec fn prefix_parts(front: Seq<PartView>, rest: Parsed<Option<Seq<PartView>>>) -> Parsed<Option<Seq<PartView>>> {
    match rest {
        Parsed::Done(Some(ps)) => Parsed::Done(Some(front + ps)),
        other => other,
    }
}

/// Reading the parts of a display line from `i` on: blanks are skipped, each `「` starts
/// a dialogue string and each `＜` a function call; any other character makes the line no
/// display line at all (`Done(None)`).
pub open spec fn spec_display_from(src: Seq<char>, i: int, base: Span) -> Parsed<Option<Seq<PartView>>>
    decreases src.len() - i,
{
    if i < 0 || i >= src.len() {
        Parsed::Done(Some(Seq::empty()))
    } else {
        let c = src[i];
        if is_whitespace(c) {
            spec_display_from(src, i + 1, base)
        } else if c == '「' {
            match spec_dialogue_from(src, i + 1, i, base, Seq::empty()) {
                Parsed::Done((t, e)) => if i < e <= src.len() {
                    cons_part(PartView::Dialogue(t, chars_span(base, src, i, e)), spec_display_from(src, e, base))
                } else {
                    Parsed::Undefined
                },
                Parsed::Failed(d) => Parsed::Failed(d),
                Parsed::Undefined => Parsed::Undefined,
            }
        } else if c == '＜' {
            match spec_call_at(src, i, base) {
                Parsed::Done(e) => if i < e <= src.len() {
                    cons_part(
                        PartView::Call(src.subrange(i + 1, e - 1), chars_span(base, src, i, e)),
                        spec_display_from(src, e, base),
                    )
                } else {
                    Parsed::Undefined
                },
                Parsed::Failed(d) => Parsed::Failed(d),
                Parsed::Undefined => Parsed::Undefined,
            }
        } else {
            Parsed::Done(None)
        }
    }
}

/// The part `p` is the one read as `v`.
pub open spec fn part_matches(p: DisplayPart, v: PartView) -> bool {
    match v {
        PartView::Dialogue(t, span) => p matches DisplayPart::Dialogue(d) && dialogue_text(d.parts@)
            == t && d.span == span,
        PartView::Call(content, span) => p matches DisplayPart::FunctionCall(f) && call_read(
            f,
            content,
            span,
        ),
    }
}

/// Joining the spans of `ps` onto `acc`, in order.
pub open spec fn join_part_spans(acc: Span, ps: Seq<PartView>) -> Span
    decreases ps.len(),
{
    if ps.len() == 0 {
        acc
    } else {
        join_part_spans(acc.spec_join(part_view_span(ps[0])), ps.drop_first())
    }
}

/// The span of a display line read as `ps`: the first part's span joined with every part's.
pub open spec fn display_span(ps: Seq<PartView>) -> Span {
    join_part_spans(part_view_span(ps[0]), ps)
}

/// Joining onto `acc` the spans of `ps` and then of `q` joins `q`'s span last.
proof fn lemma_join_part_spans_push(acc: Span, ps: Seq<PartView>, q: PartView)
    ensures
        join_part_spans(acc, ps.push(q)) == join_part_spans(acc, ps).spec_join(part_view_span(q)),
    decreases ps.len(),
{
    if ps.len() == 0 {
        assert(ps.push(q).drop_first() =~= Seq::<PartView>::empty());
        assert(ps.push(q)[0] == q);
        assert(join_part_spans(acc.spec_join(part_view_span(q)), Seq::<PartView>::empty())
            == acc.spec_join(part_view_span(q)));
    } else {
        assert(ps.push(q).drop_first() =~= ps.drop_first().push(q));
        assert(ps.push(q)[0] == ps[0]);
        lemma_join_part_spans_push(acc.spec_join(part_view_span(ps[0])), ps.drop_first(), q);
    }
}

/// A line of dialogue strings and function calls, as `spec_display_from` reads it from the
/// start: the line with its parts and their joined span; nothing, and no diagnostic, when
/// the line holds another character or no part; nothing, with the diagnostic added, when a
/// string or call cannot be read.
#[verifier::rlimit(80)]
#[verifier::spinoff_prover]
pub fn parse_display_line(line: &LogicalLine, diagnostics: &mut Vec<DaihonDiagnostic>) -> (r: Option<DisplayLine>)
    requires
        text_room(line.span, line.text@.len() as int),
        !(spec_display_from(line.text@, 0, line.span) is Undefined),
    ensures
        match spec_display_from(line.text@, 0, line.span) {
            Parsed::Done(Some(ps)) => if ps.len() == 0 {
                r is None && final(diagnostics)@ == old(diagnostics)@
            } else {
                &&& r matches Some(dl)
                &&& dl.parts@.len() == ps.len()
                &&& forall|k: int| 0 <= k < ps.len() ==> #[trigger] part_matches(dl.parts@[k], ps[k])
                &&& dl.span == display_span(ps)
                &&& final(diagnostics)@ == old(diagnostics)@
            },
            Parsed::Done(None) => r is None && final(diagnostics)@ == old(diagnostics)@,
            Parsed::Failed(d) => {
                &&& r is None
                &&& final(diagnostics)@.len() == old(diagnostics)@.len() + 1
                &&& final(diagnostics)@.take(old(diagnostics)@.len() as int) == old(diagnostics)@
                &&& diagnostic_view(final(diagnostics)@.last()) == d
            },
            Parsed::Undefined => true,
        },
{
    let src = chars_of(line.text.as_str());
    let ghost g = src@;
    let base = line.span;
    let off = offsets(&src);
    let mut parts: Vec<DisplayPart> = Vec::new();
    let ghost mut views: Seq<PartView> = Seq::empty();
    let mut i: usize = 0;
    proof {
        assert(prefix_parts(views, spec_display_from(g, 0, base)) == spec_display_from(g, 0, base)) by {
            if let Parsed::Done(Some(ps)) = spec_display_from(g, 0, base) {
                assert(views + ps =~= ps);
            }
        }
    }
    while i < src.len()
        invariant
            g == src@,
            g == line.text@,
            base == line.span,
            offsets_of(off@, g),
            text_room(base, g.len() as int),
            i <= g.len(),
            spec_display_from(g, 0, base) == prefix_parts(views, spec_display_from(g, i as int, base)),
            !(spec_display_from(g, i as int, base) is Undefined),
            parts@.len() == views.len(),
            forall|k: int| 0 <= k < views.len() ==> #[trigger] part_matches(parts@[k], views[k]),
            diagnostics@ == old(diagnostics)@,
        decreases g.len() - i,
    {
        let c = src[i];
        if char_is_whitespace(c) {
            i = i + 1;
        } else if c == '「' {
            match parse_dialogue_at(&src, &off, i, base) {
                Ok((d, e)) => {
                    let ghost v = PartView::Dialogue(dialogue_text(d.parts@), chars_span(base, g, i as int, e as int));
                    let ghost before = parts@;
                    parts.push(DisplayPart::Dialogue(d));
                    proof {
                        assert(prefix_parts(views, cons_part(v, spec_display_from(g, e as int, base)))
                            == prefix_parts(views.push(v), spec_display_from(g, e as int, base))) by {
                            if let Parsed::Done(Some(ps)) = spec_display_from(g, e as int, base) {
                                assert(views + (seq![v] + ps) =~= views.push(v) + ps);
                            }
                        }
                        let old_views = views;
                        views = views.push(v);
                        assert forall|k: int| 0 <= k < views.len() implies #[trigger] part_matches(parts@[k], views[k]) by {
                            if k < old_views.len() {
                                assert(parts@[k] == before[k]);
                            }
                        }
                    }
                    i = e;
                },
                Err(x) => {
                    diagnostics.push(x);
                    return None;
                },
            }
        } else if c == '＜' {
            match parse_function_call_at(&src, &off, i, base) {
                Ok((f, e)) => {
                    let ghost v = PartView::Call(g.subrange(i + 1, e - 1), chars_span(base, g, i as int, e as int));
                    let ghost before = parts@;
                    parts.push(DisplayPart::FunctionCall(f));
                    proof {
                        assert(prefix_parts(views, cons_part(v, spec_display_from(g, e as int, base)))
                            == prefix_parts(views.push(v), spec_display_from(g, e as int, base))) by {
                            if let Parsed::Done(Some(ps)) = spec_display_from(g, e as int, base) {
                                assert(views + (seq![v] + ps) =~= views.push(v) + ps);
                            }
                        }
                        let old_views = views;
                        views = views.push(v);
                        assert forall|k: int| 0 <= k < views.len() implies #[trigger] part_matches(parts@[k], views[k]) by {
                            if k < old_views.len() {
                                assert(parts@[k] == before[k]);
                            }
                        }
                    }
                    i = e;
                },
                Err(x) => {
                    diagnostics.push(x);
                    return None;
                },
            }
        } else {
            return None;
        }
    }
    proof {
        assert(views + Seq::<PartView>::empty() =~= views);
    }
    if parts.len() == 0 {
        return None;
    }
    let mut span = parts[0].span();
    let mut k: usize = 0;
    proof {
        assert(views.take(0) =~= Seq::<PartView>::empty());
        assert(part_matches(parts@[0], views[0]));
        assert(join_part_spans(part_view_span(views[0]), views.take(0)) == part_view_span(views[0]));
    }
    while k < parts.len()
        invariant
            parts@.len() == views.len(),
            views.len() > 0,
            forall|j: int| 0 <= j < views.len() ==> #[trigger] part_matches(parts@[j], views[j]),
            k <= views.len(),
            span == join_part_spans(part_view_span(views[0]), views.take(k as int)),
        decreases views.len() - k,
    {
        proof {
            assert(part_matches(parts@[k as int], views[k as int]));
            assert(part_matches(parts@[0], views[0]));
            lemma_join_part_spans_push(part_view_span(views[0]), views.take(k as int), views[k as int]);
            assert(views.take(k + 1) =~= views.take(k as int).push(views[k as int]));
        }
        span = span.join(parts[k].span());
        k += 1;
    }
    proof {
        assert(views.take(views.len() as int) =~= views);
    }
    Some(DisplayLine { parts, span })
}

// ---------------------------------------------------------------------------
// Conditions written in parentheses
// ---------------------------------------------------------------------------

/// The index of the `)` (half or full width) that brings the nesting back to zero, scanning
/// from `i` at nesting `depth`.
pub open spec fn paren_close(t: Seq<char>, i: int, depth: int) -> Option<int>
    decreases t.len() - i,
{
    if i < 0 || i >= t.len() {
        None
    } else {
        let n = normalize_char(t[i]);
        if n == '(' {
            paren_close(t, i + 1, depth + 1)
        } else if n == ')' {
            if depth - 1 == 0 {
                Some(i)
            } else {
                paren_close(t, i + 1, depth - 1)
            }
        } else {
            paren_close(t, i + 1, depth)
        }
    }
}

/// A closing parenthesis found from `i` lies at or after `i` inside the text.
proof fn lemma_paren_close_range(t: Seq<char>, i: int, depth: int)
    ensures
        paren_close(t, i, depth) matches Some(j) ==> i <= j < t.len(),
    decreases t.len() - i,
{
    if 0 <= i < t.len() {
        let n = normalize_char(t[i]);
        if n == '(' {
            lemma_paren_close_range(t, i + 1, depth + 1);
        } else if n == ')' {
            if depth - 1 != 0 {
                lemma_paren_close_range(t, i + 1, depth - 1);
            }
        } else {
            lemma_paren_close_range(t, i + 1, depth);
        }
    }
}

/// Reading a condition written in parentheses at the start of `text` (after blanks): the
/// text inside, the shape read from it, and the text after the closing parenthesis; nothing
/// when the text does not start with `(` or `（`, the parenthesis is not closed, or the
/// condition cannot be read.
pub open spec fn spec_split_paren(text: Seq<char>, span: Span) -> Parsed<Option<(Seq<char>, Node, Seq<char>)>> {
    let t = text.skip(leading_ws(text) as int);
    if t.len() == 0 || (t[0] != '（' && t[0] != '(') {
        Parsed::Done(None)
    } else {
        match paren_close(t, 0, 0) {
            None => Parsed::Done(None),
            Some(j) => if 0 < j < t.len() {
                let inner = t.subrange(1, j);
                match spec_expression_text(inner, span, true) {
                    Parsed::Done(n) => Parsed::Done(Some((inner, n, t.skip(j + 1)))),
                    Parsed::Failed(_) => Parsed::Done(None),
                    Parsed::Undefined => Parsed::Undefined,
                }
            } else {
                Parsed::Done(None)
            },
        }
    }
}

/// The condition read as `split`, if any, is `r`.
pub open spec fn split_matches(r: Option<(Expr, String)>, split: Option<(Seq<char>, Node, Seq<char>)>, span: Span) -> bool {
    match split {
        Some((inner, n, rest)) => r matches Some((e, s)) && read_from(e, n, inner, span) && s@ == rest,
        None => r is None,
    }
}

/// The number of blanks `v` starts with.
fn leading_blanks(v: &Vec<char>) -> (n: usize)
    ensures
        n == leading_ws(v@),
        n <= v@.len(),
{
    let mut n: usize = 0;
    proof {
        assert(v@.skip(0) =~= v@);
    }
    while n < v.len() && char_is_whitespace(v[n])
        invariant
            n <= v@.len(),
            leading_ws(v@) == n + leading_ws(v@.skip(n as int)),
        decreases v@.len() - n,
    {
        proof {
            assert(v@.skip(n as int).drop_first() =~= v@.skip(n + 1));
        }
        n += 1;
    }
    n
}

/// Reads a condition written in parentheses at the start of `text`, as `spec_split_paren`
/// says: the condition and the text after it.
#[verifier::rlimit(60)]
#[verifier::spinoff_prover]
pub fn split_paren_expr(text: &str, span: Span) -> (r: Option<(Expr, String)>)
    requires
        text_room(span, text@.len() as int),
        !(spec_split_paren(text@, span) is Undefined),
    ensures
        spec_split_paren(text@, span) matches Parsed::Done(split) && split_matches(r, split, span),
{
    let cs = chars_of(text);
    let a = leading_blanks(&cs);
    let t = sub_chars(&cs, a, cs.len());
    proof {
        assert(t@ =~= cs@.skip(a as int));
    }
    if t.len() == 0 || (t[0] != '（' && t[0] != '(') {
        return None;
    }
    proof {
        lemma_paren_close_range(t@, 0, 0);
    }
    match find_paren_close(&t) {
        Some(j) => {
            if j == 0 {
                return None;
            }
            let inner = sub_chars(&t, 1, j);
            let rest = sub_chars(&t, j + 1, t.len());
            proof {
                assert(rest@ =~= t@.skip(j + 1));
            }
            match parse_expression_chars(&inner, span, true) {
                Ok(e) => Some((e, string_of(rest.as_slice()))),
                Err(_) => None,
            }
        },
        None => None,
    }
}

/// Where the parenthesis opening `t` is closed, as `paren_close` finds it.
fn find_paren_close(t: &Vec<char>) -> (r: Option<usize>)
    requires
        t@.len() <= i32::MAX,
    ensures
        match paren_close(t@, 0, 0) {
            Some(j) => r == Some(j as usize),
            None => r is None,
        },
{
    let mut depth: i32 = 0;
    let mut j: usize = 0;
    while j < t.len()
        invariant
            t@.len() <= i32::MAX,
            j <= t@.len(),
            -(j as int) <= depth <= j,
            paren_close(t@, 0, 0) == paren_close(t@, j as int, depth as int),
        decreases t@.len() - j,
    {
        let n = normalize_char_exec(t[j]);
        if n == '(' {
            depth = depth + 1;
        } else if n == ')' {
            if depth == 1 {
                return Some(j);
            }
            depth = depth - 1;
        }
        j += 1;
    }
    None
}

/// Reading a condition marked `※` and written in parentheses at the start of `text`.
pub open spec fn spec_split_condition_prefix(text: Seq<char>, span: Span) -> Parsed<Option<(Seq<char>, Node, Seq<char>)>> {
    let t = text.skip(leading_ws(text) as int);
    if t.len() > 0 && t[0] == '※' {
        spec_split_paren(t.skip(1), span)
    } else {
        Parsed::Done(None)
    }
}

/// Reads a condition marked `※` and written in parentheses at the start of `text`, as
/// `spec_split_condition_prefix` says: the condition and the text after it.
pub fn split_condition_prefix(text: &str, span: Span) -> (r: Option<(Expr, String)>)
    requires
        text_room(span, text@.len() as int),
        !(spec_split_condition_prefix(text@, span) is Undefined),
    ensures
        spec_split_condition_prefix(text@, span) matches Parsed::Done(split) && split_matches(r, split, span),
{
    let cs = chars_of(text);
    let a = leading_blanks(&cs);
    if a < cs.len() && cs[a] == '※' {
        let rest = sub_chars(&cs, a + 1, cs.len());
        proof {
            assert(rest@ =~= cs@.skip(a as int).skip(1));
        }
        split_paren_expr(string_of(rest.as_slice()).as_str(), span)
    } else {
        None
    }
}

// ---------------------------------------------------------------------------
// Assignments
// ---------------------------------------------------------------------------

/// Room for a line's spans and for the spans of pieces found in it.
pub open spec fn line_room(line: LogicalLine) -> bool {
    text_room(line.span, 2 * line.text@.len() as int)
}

/// An occurrence found from `k` on lies at or after `k` and fits in the text.
proof fn lemma_find_from_range(s: Seq<char>, needle: Seq<char>, k: int)
    ensures
        find_from(s, needle, k) matches Some(j) ==> k <= j && j + needle.len() <= s.len(),
    decreases s.len() - k,
{
    if !(k < 0 || k + needle.len() > s.len()) && !seq_starts_with(s.skip(k), needle) && k < s.len() {
        lemma_find_from_range(s, needle, k + 1);
    }
}

/// The span of a piece of a line has room for the piece.
pub(crate) proof fn lemma_substr_room(line: LogicalLine, needle: Seq<char>)
    requires
        line_room(line),
        needle.len() <= line.text@.len(),
    ensures
        text_room(spec_span_for_substr(line, needle), needle.len() as int),
        text_room(spec_span_for_substr(line, needle), 2 * needle.len() as int),
        encode_utf8(line.text@).len() < usize::MAX,
        line.span.start + encode_utf8(line.text@).len() + encode_utf8(needle).len() < usize::MAX,
        line.span.column + line.text@.len() <= usize::MAX,
{
    let text = line.text@;
    lemma_pos_at_most_four(text, text.len() as int);
    lemma_pos_byte_is_encoding(text, text.len() as int);
    assert(text.take(text.len() as int) =~= text);
    lemma_pos_at_most_four(needle, needle.len() as int);
    lemma_pos_byte_is_encoding(needle, needle.len() as int);
    assert(needle.take(needle.len() as int) =~= needle);
    if needle.len() > 0 {
        lemma_find_from_range(text, needle, 0);
        match find_from(text, needle, 0) {
            Some(k) => {
                lemma_pos_at_most_four(text, k);
                lemma_boundary_at(text, k);
            },
            None => {
                lemma_boundary_at(text, 0);
            },
        }
    }
}

/// Reading an assignment line: where its assignment `=` is (none: no assignment), the
/// trimmed target text and its span, the trimmed value text and its span, and the shape
/// read from the value, or the diagnostic for a value that cannot be read. Not defined on a
/// full-width `＝`: the value is cut out one byte after the sign, inside its encoding.
pub open spec fn spec_assignment(text: Seq<char>, span: Span) -> Parsed<Option<(Seq<char>, Span, Seq<char>, Span, Node)>> {
    match assignment_from(text, 0, AssignScan { dialogue: false, paren: 0, function: 0 }) {
        None => Parsed::Done(None),
        Some(e) => if !(0 <= e < text.len()) || text[e] == '＝' {
            Parsed::Undefined
        } else {
            let left = text.subrange(0, e);
            let value = spec_trim(text.subrange(e + 1, text.len() as int));
            let target_span = piece_span(text, span, left);
            let value_span = piece_span(text, span, value);
            match spec_expression_text(value, value_span, false) {
                Parsed::Done(n) => Parsed::Done(Some((spec_trim(left), target_span, value, value_span, n))),
                Parsed::Failed(d) => Parsed::Failed(d),
                Parsed::Undefined => Parsed::Undefined,
            }
        },
    }
}

/// Reads an assignment line, as `spec_assignment` says: the assignment of the value read
/// to the target read, spanning the line; nothing, and no diagnostic, for a line with no
/// assignment `=`; nothing, with the diagnostic added, for a value that cannot be read.
#[verifier::rlimit(60)]
#[verifier::spinoff_prover]
pub fn parse_assignment(line: &LogicalLine, diagnostics: &mut Vec<DaihonDiagnostic>) -> (r: Option<Assignment>)
    requires
        line_room(*line),
        !(spec_assignment(line.text@, line.span) is Undefined),
    ensures
        match spec_assignment(line.text@, line.span) {
            Parsed::Done(None) => r is None && final(diagnostics)@ == old(diagnostics)@,
            Parsed::Done(Some((target, target_span, value, value_span, n))) => {
                &&& r matches Some(a)
                &&& parsed_variable_is(a.target, target, target_span)
                &&& read_from(a.value, n, value, value_span)
                &&& a.span == line.span
                &&& final(diagnostics)@ == old(diagnostics)@
            },
            Parsed::Failed(d) => {
                &&& r is None
                &&& final(diagnostics)@.len() == old(diagnostics)@.len() + 1
                &&& final(diagnostics)@.take(old(diagnostics)@.len() as int) == old(diagnostics)@
                &&& diagnostic_view(final(diagnostics)@.last()) == d
            },
            Parsed::Undefined => true,
        },
{
    let cs = chars_of(line.text.as_str());
    proof {
        lemma_assignment_range(cs@, 0, AssignScan { dialogue: false, paren: 0, function: 0 });
    }
    let e = match assignment_index(&cs) {
        Some(e) => e,
        None => {
            return None;
        },
    };
    let left = sub_chars(&cs, 0, e);
    let right = sub_chars(&cs, e + 1, cs.len());
    let value = trim_chars(right.as_slice());
    let target = trim_chars(left.as_slice());
    proof {
        lemma_trim_shorter(right@);
        lemma_substr_room(*line, left@);
        lemma_substr_room(*line, value@);
    }
    let left_text = string_of(left.as_slice());
    let value_text = string_of(value.as_slice());
    let target_span = span_for_substr(line, left_text.as_str());
    let target_ref = parse_variable_ref(string_of(target.as_slice()).as_str(), target_span);
    let value_span = span_for_substr(line, value_text.as_str());
    match parse_expression_chars(&value, value_span, false) {
        Ok(v) => Some(Assignment { target: target_ref, value: v, span: line.span }),
        Err(d) => {
            diagnostics.push(d);
            proof {
                assert(diagnostics@.take(old(diagnostics)@.len() as int) =~= old(diagnostics)@);
            }
            None
        },
    }
}

// ---------------------------------------------------------------------------
// Statements as read
// ---------------------------------------------------------------------------

/// A statement as read from lines.
pub enum StmtView {
    /// A display line, by its parts.
    Display(Seq<PartView>),
    /// A display line with a speaker: the trimmed speaker, its span, and the parts.
    SpeakerDisplay(Seq<char>, Span, Seq<PartView>),
    /// An assignment, by what `spec_assignment` reads, spanning the line's span.
    Assign((Seq<char>, Span, Seq<char>, Span, Node), Span),
    /// A jump, by the trimmed jump text and the line's span.
    Jump(Seq<char>, Span),
    /// A conditional block: its branches, its `※それ以外` statements, its span, and whether
    /// it was written on one line.
    Conditional(Seq<BranchView>, Option<Seq<StmtView>>, Span, bool),
}

/// A branch of a conditional block as read: the condition (the text inside its
/// parentheses, the shape read, and the span it was read at), its statements and its span.
pub struct BranchView {
    pub condition: (Seq<char>, Node, Span),
    pub statements: Seq<StmtView>,
    pub span: Span,
}

/// The statement `s` is the one read as `v`.
pub open spec fn stmt_matches(s: Stmt, v: StmtView) -> bool
    decreases v,
{
    match v {
        StmtView::Display(ps) => s matches Stmt::Display(dl) && display_matches(dl, ps),
        StmtView::SpeakerDisplay(name, sp, ps) => {
            &&& s matches Stmt::SpeakerDisplay { speaker, display }
            &&& speaker.value@ == name
            &&& speaker.span == sp
            &&& display_matches(display, ps)
        },
        StmtView::Assign(parts, span) => {
            &&& s matches Stmt::Assignment(a)
            &&& parsed_variable_is(a.target, parts.0, parts.1)
            &&& read_from(a.value, parts.4, parts.2, parts.3)
            &&& a.span == span
        },
        StmtView::Jump(text, span) => s matches Stmt::Jump(j) && jump_read(j, text, span),
        StmtView::Conditional(bs, eb, span, one_line) => {
            &&& s matches Stmt::Conditional(block)
            &&& block.span == span
            &&& block.one_line == one_line
            &&& block.branches@.len() == bs.len()
            &&& forall|k: int| #![trigger bs[k]] 0 <= k < bs.len() ==> branch_matches(block.branches@[k], bs[k])
            &&& match eb {
                None => block.else_branch is None,
                Some(es) => block.else_branch matches Some(ss) && stmts_match(ss@, es),
            }
        },
    }
}

/// The branch `b` is the one read as `v`.
pub open spec fn branch_matches(b: ConditionalBranch, v: BranchView) -> bool
    decreases v,
{
    &&& read_from(b.condition, v.condition.1, v.condition.0, v.condition.2)
    &&& b.span == v.span
    &&& stmts_match(b.statements@, v.statements)
}

/// The statements `ss` are those read as `vs`, in order.
pub open spec fn stmts_match(ss: Seq<Stmt>, vs: Seq<StmtView>) -> bool
    decreases vs,
{
    &&& ss.len() == vs.len()
    &&& forall|k: int| #![trigger vs[k]] 0 <= k < vs.len() ==> stmt_matches(ss[k], vs[k])
}

/// The statement `r` is the one read as `v`, if one was read.
pub open spec fn opt_stmt_matches(r: Option<Stmt>, v: Option<StmtView>) -> bool {
    match v {
        Some(sv) => r matches Some(s) && stmt_matches(s, sv),
        None => r is None,
    }
}

// ---------------------------------------------------------------------------
// The action of a one-line conditional
// ---------------------------------------------------------------------------

/// `j` is the jump target that the jump line `text` names at `span`.
pub open spec fn jump_read(j: JumpTarget, text: Seq<char>, span: Span) -> bool {
    let target = jump_target_text(text);
    if target == "おわり"@ {
        j == (JumpTarget::EndEvent { span })
    } else if target == "シーンおわり"@ {
        j == (JumpTarget::EndScene { span })
    } else {
        j matches JumpTarget::Scene { name } && name.value@ == target && name.span == span
    }
}

/// The diagnostic for a one-line conditional with more than one action.
pub open spec fn many_actions_error(span: Span) -> DiagnosticView {
    error_view(
        "E-DHN-SEM-034"@,
        "条件付き1行記法ではアクションは1つだけです。"@,
        span,
        Some("複数の表示や関数を条件付きにしたい場合はブロック記法を使ってください。"@),
    )
}

/// The display line `dl` is the one read as `ps`.
pub open spec fn display_matches(dl: DisplayLine, ps: Seq<PartView>) -> bool {
    &&& dl.parts@.len() == ps.len()
    &&& forall|k: int| 0 <= k < ps.len() ==> #[trigger] part_matches(dl.parts@[k], ps[k])
    &&& dl.span == display_span(ps)
}

/// Reading a line as an assignment after the diagnostics `ds`: the assignment, if one was
/// read, and all diagnostics; no outcome where the assignment reader is not defined.
pub open spec fn then_assignment(text: Seq<char>, span: Span, ds: Seq<DiagnosticView>) -> Option<(Option<StmtView>, Seq<DiagnosticView>)> {
    match spec_assignment(text, span) {
        Parsed::Done(Some(parts)) => Some((Some(StmtView::Assign(parts, span)), ds)),
        Parsed::Done(None) => Some((None, ds)),
        Parsed::Failed(d) => Some((None, ds.push(d))),
        Parsed::Undefined => None,
    }
}

/// Reading the action of a one-line conditional from `text` written at `span`: a jump, a
/// display line (with a diagnostic when it shows more than one part), or an assignment;
/// the action, if any, and the diagnostics added.
pub open spec fn spec_single_action(text: Seq<char>, span: Span) -> Option<(Option<StmtView>, Seq<DiagnosticView>)> {
    let t = spec_trim(text);
    if t.len() > 0 && t[0] == '→' {
        Some((Some(StmtView::Jump(t, span)), Seq::empty()))
    } else {
        match spec_display_from(text, 0, span) {
            Parsed::Done(Some(ps)) => if ps.len() > 0 {
                Some((
                    Some(StmtView::Display(ps)),
                    if ps.len() > 1 {
                        seq![many_actions_error(display_span(ps))]
                    } else {
                        Seq::empty()
                    },
                ))
            } else {
                then_assignment(text, span, Seq::empty())
            },
            Parsed::Done(None) => then_assignment(text, span, Seq::empty()),
            Parsed::Failed(d) => then_assignment(text, span, seq![d]),
            Parsed::Undefined => None,
        }
    }
}

/// Reads the action of a one-line conditional, as `spec_single_action` says.
#[verifier::rlimit(80)]
#[verifier::spinoff_prover]
pub fn parse_single_action(line: &LogicalLine, diagnostics: &mut Vec<DaihonDiagnostic>) -> (r: Option<Stmt>)
    requires
        line_room(*line),
        spec_single_action(line.text@, line.span) is Some,
    ensures
        spec_single_action(line.text@, line.span) matches Some((v, ds)) && opt_stmt_matches(r, v)
            && diagnostic_views(final(diagnostics)@) == diagnostic_views(old(diagnostics)@) + ds,
{
    let cs = chars_of(line.text.as_str());
    let t = trim_chars(cs.as_slice());
    let ghost before = diagnostics@;
    if t.len() > 0 && t[0] == '→' {
        let text = string_of(t.as_slice());
        let r = Some(Stmt::Jump(parse_jump(text.as_str(), line.span)));
        proof {
            assert(diagnostic_views(before) + Seq::<DiagnosticView>::empty() =~= diagnostic_views(before));
        }
        return r;
    }
    match parse_display_line(line, diagnostics) {
        Some(display) => {
            let ghost ps = spec_display_from(line.text@, 0, line.span)->Done_0->Some_0;
            if display.parts.len() > 1 {
                let d = DaihonDiagnostic::error(
                    "E-DHN-SEM-034",
                    "条件付き1行記法ではアクションは1つだけです。",
                    display.span,
                ).with_help("複数の表示や関数を条件付きにしたい場合はブロック記法を使ってください。");
                proof {
                    assert(diagnostic_view(d).labels =~= seq![(display.span, None::<Seq<char>>)]);
                }
                diagnostics.push(d);
                proof {
                    lemma_views_push(before, d);
                    assert(diagnostic_views(before).push(diagnostic_view(d)) =~= diagnostic_views(before)
                        + seq![many_actions_error(display_span(ps))]);
                }
            } else {
                proof {
                    assert(diagnostic_views(before) + Seq::<DiagnosticView>::empty() =~= diagnostic_views(before));
                }
            }
            Some(Stmt::Display(display))
        },
        None => {
            let ghost ds: Seq<DiagnosticView> = match spec_display_from(line.text@, 0, line.span) {
                Parsed::Failed(x) => seq![x],
                _ => Seq::empty(),
            };
            proof {
                if let Parsed::Failed(x) = spec_display_from(line.text@, 0, line.span) {
                    assert(diagnostics@ =~= before.push(diagnostics@.last()));
                    lemma_views_push(before, diagnostics@.last());
                } else {
                    assert(diagnostic_views(before) + ds =~= diagnostic_views(before));
                }
            }
            let ghost middle = diagnostics@;
            let r = match parse_assignment(line, diagnostics) {
                Some(a) => Some(Stmt::Assignment(Box::new(a))),
                None => None,
            };
            proof {
                if let Parsed::Failed(x) = spec_assignment(line.text@, line.span) {
                    assert(diagnostics@ =~= middle.push(diagnostics@.last()));
                    lemma_views_push(middle, diagnostics@.last());
                    assert(diagnostic_views(before) + ds.push(x) =~= diagnostic_views(before) + ds + seq![x]);
                } else {
                    assert(diagnostic_views(diagnostics@) =~= diagnostic_views(middle));
                }
            }
            r
        },
    }
}

// ---------------------------------------------------------------------------
// Statements over lines
// ---------------------------------------------------------------------------

/// What reading from a line on gives: the value, the index of the next line to read, and
/// the diagnostics added, in order.
pub struct Reading<T> {
    pub value: T,
    pub next: int,
    pub diags: Seq<DiagnosticView>,
}

/// A statement read, or none.
pub open spec fn read_stmt(v: Option<StmtView>, next: int, diags: Seq<DiagnosticView>) -> Option<Reading<Option<StmtView>>> {
    Some(Reading { value: v, next, diags })
}

/// The statements read, in a list.
pub open spec fn stmt_list(v: Option<StmtView>) -> Seq<StmtView> {
    match v {
        Some(s) => seq![s],
        None => Seq::empty(),
    }
}

/// The diagnostic for a speaker in front of something that is no display line.
pub open spec fn speaker_error(span: Span) -> DiagnosticView {
    error_view("E-DHN-SEM-060"@, "話者prefixを付けられるのは表示列だけです。"@, span, None)
}

/// The line looks like a metadata line that a script knows.
pub open spec fn metadata_like(text: Seq<char>) -> bool {
    spec_split_metadata_line(line_head(text)) matches Some((key, _)) && spec_is_known_metadata_key(key)
}

/// The diagnostic for a line with `text` written at `span` that is no statement.
pub open spec fn unreadable_stmt_error(text: Seq<char>, span: Span) -> DiagnosticView {
    error_view(
        "E-DHN-SYN-031"@,
        "文として解釈できませんでした。"@,
        span,
        Some(
            if metadata_like(text) {
                "合図・条件などのメタデータ行はシーン見出しの直後にまとめて書いてください。"@
            } else {
                "セリフは 「」 で囲んでください。地の文(裸のテキスト行)は書けません。セリフ、関数呼び出し、代入、ジャンプ、条件ブロックのいずれかを書いてください。"@
            },
        ),
    )
}

/// The diagnostic for `※あるいは` or `※それ以外` outside a conditional block.
pub open spec fn stray_branch_error(span: Span) -> DiagnosticView {
    error_view("E-DHN-SYN-040"@, "※あるいは / ※それ以外 は、直前の条件ブロックの中でだけ使えます。"@, span, None)
}

/// The diagnostic for a conditional whose condition cannot be read.
pub open spec fn unreadable_condition_error(span: Span) -> DiagnosticView {
    error_view("E-DHN-SYN-041"@, "条件式を読み取れませんでした。"@, span, None)
}

/// The diagnostic for a conditional block without `おわり`.
pub open spec fn missing_end_error(span: Span) -> DiagnosticView {
    error_view("E-DHN-SYN-042"@, "条件ブロックの おわり が不足しています。"@, span, None)
}

/// The diagnostic for `※あるいは` after `※それ以外`.
pub open spec fn branch_after_else_error(span: Span) -> DiagnosticView {
    error_view("E-DHN-SEM-032"@, "※それ以外 の後に ※あるいは は書けません。"@, span, None)
}

/// The diagnostic for a `※あるいは` whose condition cannot be read.
pub open spec fn unreadable_branch_error(span: Span) -> DiagnosticView {
    error_view("E-DHN-SYN-043"@, "※あるいは の条件式を読み取れませんでした。"@, span, None)
}

/// The diagnostic for a `※あるいは` without `:`.
pub open spec fn branch_colon_error(span: Span) -> DiagnosticView {
    error_view("E-DHN-SYN-044"@, "※あるいは はブロック記法で : が必要です。"@, span, None)
}

/// The diagnostic for a second `※それ以外`.
pub open spec fn second_else_error(span: Span) -> DiagnosticView {
    error_view("E-DHN-SEM-033"@, "※それ以外 が複数あります。"@, span, None)
}

/// The diagnostic for a line that ends no branch of a conditional block.
pub open spec fn unreadable_end_error(span: Span) -> DiagnosticView {
    error_view("E-DHN-SYN-045"@, "条件ブロックの終端を読み取れませんでした。"@, span, None)
}

/// The diagnostic for a one-line conditional without a readable action.
pub open spec fn no_action_error(span: Span) -> DiagnosticView {
    error_view("E-DHN-SYN-046"@, "条件付き1行記法のアクションを読み取れませんでした。"@, span, None)
}

/// The text left after removing every leading `c`.
pub open spec fn strip_all_char(s: Seq<char>, c: char) -> Seq<char>
    decreases s.len(),
{
    if s.len() > 0 && s[0] == c {
        strip_all_char(s.drop_first(), c)
    } else {
        s
    }
}

/// The text left after removing every leading repetition of `p`.
pub open spec fn strip_all_prefix(s: Seq<char>, p: Seq<char>) -> Seq<char>
    decreases s.len(),
{
    if p.len() > 0 && seq_starts_with(s, p) && p.len() <= s.len() {
        strip_all_prefix(s.skip(p.len() as int), p)
    } else {
        s
    }
}

/// The condition text of a `※あるいは` line.
pub open spec fn branch_condition_text(text: Seq<char>) -> Seq<char> {
    strip_all_prefix(strip_all_char(spec_trim(text), '※'), "あるいは"@)
}

/// The rest after a condition opens a block (it starts with `:` once `なら` is dropped).
pub open spec fn opens_block(rest: Seq<char>) -> bool {
    seq_starts_with(normalize_seq(spec_trim_nara(spec_trim(rest))), seq![':'])
}

/// Reading a line whose trimmed text splits into the speaker prefix `speaker` and `rest`:
/// the display line after the speaker, with the trimmed speaker and its span; with no
/// display line there, nothing and the diagnostic that only display lines take a speaker.
#[verifier::opaque]
pub open spec fn spec_speaker_stmt(text: Seq<char>, span: Span, speaker: Seq<char>, rest: Seq<char>) -> Option<(Option<StmtView>, Seq<DiagnosticView>)> {
    let speaker_span = piece_span(text, span, speaker);
    let rest_span = piece_span(text, span, rest);
    match spec_display_from(spec_trim(rest), 0, rest_span) {
        Parsed::Done(Some(ps)) => if ps.len() > 0 {
            Some((Some(StmtView::SpeakerDisplay(spec_trim(speaker), speaker_span, ps)), Seq::empty()))
        } else {
            Some((None, seq![speaker_error(speaker_span)]))
        },
        Parsed::Done(None) => Some((None, seq![speaker_error(speaker_span)])),
        Parsed::Failed(d) => Some((None, seq![d, speaker_error(speaker_span)])),
        Parsed::Undefined => None,
    }
}

/// Reading a line with neither a speaker nor a mark in front: a display line, else an
/// assignment, else nothing and the diagnostic that the line is no statement (after the
/// diagnostics of the display line and the assignment that could not be read).
#[verifier::opaque]
pub open spec fn spec_bare_stmt(text: Seq<char>, span: Span) -> Option<(Option<StmtView>, Seq<DiagnosticView>)> {
    let ds: Seq<DiagnosticView> = match spec_display_from(text, 0, span) {
        Parsed::Failed(d) => seq![d],
        _ => Seq::empty(),
    };
    match spec_display_from(text, 0, span) {
        Parsed::Done(Some(ps)) if ps.len() > 0 => Some((Some(StmtView::Display(ps)), Seq::empty())),
        Parsed::Undefined => None,
        _ => match then_assignment(text, span, ds) {
            Some((Some(v), ds2)) => Some((Some(v), ds2)),
            Some((None, ds2)) => Some((None, ds2.push(unreadable_stmt_error(text, span)))),
            None => None,
        },
    }
}

/// Reading a statement that is no conditional from a line with `text` written at `span`:
/// a jump, a display line with a speaker, a display line, or an assignment; the statement,
/// if any, and the diagnostics added. No outcome where a reader it uses is not defined.
#[verifier::opaque]
pub open spec fn spec_plain_stmt(text: Seq<char>, span: Span) -> Option<(Option<StmtView>, Seq<DiagnosticView>)> {
    let t = spec_trim(text);
    if t.len() > 0 && t[0] == '→' {
        Some((Some(StmtView::Jump(t, span)), Seq::empty()))
    } else {
        match spec_split_speaker_prefix(t) {
            Some((speaker, rest)) => spec_speaker_stmt(text, span, speaker, rest),
            None => spec_bare_stmt(text, span),
        }
    }
}

/// Reading the statement on a line with `text` written at `span`, the lines before `i`
/// having been read: a conditional (marked `※`), or a statement on the line alone.
pub open spec fn spec_stmt_from_line(lines: Seq<LogicalLine>, text: Seq<char>, span: Span, i: int) -> Option<Reading<Option<StmtView>>>
    decreases lines.len() + 1 - i, 4nat,
{
    let t = spec_trim(text);
    if t.len() > 0 && t[0] == '※' {
        spec_conditional(lines, text, span, i)
    } else {
        match spec_plain_stmt(text, span) {
            Some((v, ds)) => read_stmt(v, i, ds),
            None => None,
        }
    }
}

/// The condition marked `※` that opens a conditional line, as read.
#[verifier::opaque]
pub open spec fn opening_condition(text: Seq<char>, span: Span) -> Parsed<Option<(Seq<char>, Node, Seq<char>)>> {
    spec_split_condition_prefix(text, span)
}

/// The condition of a `※あるいは` line, as read.
#[verifier::opaque]
pub open spec fn branch_condition(text: Seq<char>, span: Span) -> Parsed<Option<(Seq<char>, Node, Seq<char>)>> {
    spec_split_paren(branch_condition_text(text), span)
}

/// The action text of a one-line conditional: the rest after its condition, trimmed and
/// without `なら`.
pub open spec fn action_text(rest: Seq<char>) -> Seq<char> {
    spec_trim_nara(spec_trim(rest))
}

/// Reading a one-line conditional whose first line has `first_text` written at
/// `first_span`, its condition read as `inner` and `node` with `rest` after it: the
/// conditional with its single action, or nothing and the diagnostic that no action could
/// be read (after those of the action's reading).
#[verifier::opaque]
pub open spec fn spec_one_line(first_text: Seq<char>, first_span: Span, inner: Seq<char>, node: Node, rest: Seq<char>) -> Option<(Option<StmtView>, Seq<DiagnosticView>)> {
    let action = action_text(rest);
    match spec_single_action(action, piece_span(first_text, first_span, action)) {
        Some((Some(a), ds)) => Some((
            Some(StmtView::Conditional(
                seq![BranchView { condition: (inner, node, first_span), statements: seq![a], span: first_span }],
                None,
                first_span,
                true,
            )),
            ds,
        )),
        Some((None, ds)) => Some((None, ds.push(no_action_error(first_span)))),
        None => None,
    }
}

/// Reading a conditional block from line `i` on, its first line written at `first_span`
/// with the condition read as `inner` and `node`: the first branch's statements, then the
/// rest of the block.
pub open spec fn block_start(lines: Seq<LogicalLine>, i: int, first_span: Span, inner: Seq<char>, node: Node) -> Option<Reading<Option<StmtView>>>
    decreases lines.len() + 1 - i, 2nat,
{
    match spec_branch_list(lines, i) {
        Some(r) => if i <= r.next <= lines.len() + 1 {
            spec_branch_loop(
                lines,
                r.next,
                first_span,
                seq![BranchView { condition: (inner, node, first_span), statements: r.value, span: first_span }],
                None,
                r.diags,
            )
        } else {
            None
        },
        None => None,
    }
}

/// Reading a conditional whose first line has `first_text` written at `first_span`, the
/// lines before `i` having been read: a block (`:` after the condition) read up to its
/// `おわり`, or a one-line conditional with its single action.
pub open spec fn spec_conditional(lines: Seq<LogicalLine>, first_text: Seq<char>, first_span: Span, i: int) -> Option<Reading<Option<StmtView>>>
    decreases lines.len() + 1 - i, 3nat,
{
    let n = line_head(first_text);
    if seq_starts_with(n, "※あるいは"@) || seq_starts_with(n, "※それ以外"@) {
        read_stmt(None, i, seq![stray_branch_error(first_span)])
    } else {
        match opening_condition(first_text, first_span) {
            Parsed::Done(None) => read_stmt(None, i, seq![unreadable_condition_error(first_span)]),
            Parsed::Done(Some((inner, node, rest))) => if opens_block(rest) {
                block_start(lines, i, first_span, inner, node)
            } else {
                match spec_one_line(first_text, first_span, inner, node, rest) {
                    Some((v, ds)) => read_stmt(v, i, ds),
                    None => None,
                }
            },
            _ => None,
        }
    }
}

/// Reading the rest of a conditional block from line `j` on, having read `branches`, the
/// `※それ以外` statements `else_branch` and the diagnostics `diags`.
pub open spec fn spec_branch_loop(
    lines: Seq<LogicalLine>,
    j: int,
    first_span: Span,
    branches: Seq<BranchView>,
    else_branch: Option<Seq<StmtView>>,
    diags: Seq<DiagnosticView>,
) -> Option<Reading<Option<StmtView>>>
    decreases lines.len() + 1 - j, 0nat,
{
    let block = StmtView::Conditional(branches, else_branch, first_span, false);
    if j < 0 || j >= lines.len() {
        read_stmt(Some(block), j, diags.push(missing_end_error(first_span)))
    } else {
        let line = lines[j];
        let n = line_head(line.text@);
        if n == "おわり"@ {
            read_stmt(Some(block), j + 1, diags)
        } else if seq_starts_with(n, "※あるいは"@) {
            let d1 = if else_branch is Some {
                diags.push(branch_after_else_error(line.span))
            } else {
                diags
            };
            match branch_condition(line.text@, line.span) {
                Parsed::Done(None) => spec_branch_loop(
                    lines,
                    j + 1,
                    first_span,
                    branches,
                    else_branch,
                    d1.push(unreadable_branch_error(line.span)),
                ),
                Parsed::Done(Some((inner, node, rest))) => {
                    let d2 = if opens_block(rest) {
                        d1
                    } else {
                        d1.push(branch_colon_error(line.span))
                    };
                    match spec_branch_list(lines, j + 1) {
                        Some(r) => if j + 1 <= r.next <= lines.len() + 1 {
                            spec_branch_loop(
                                lines,
                                r.next,
                                first_span,
                                branches.push(BranchView { condition: (inner, node, line.span), statements: r.value, span: line.span }),
                                else_branch,
                                d2 + r.diags,
                            )
                        } else {
                            None
                        },
                        None => None,
                    }
                },
                _ => None,
            }
        } else if seq_starts_with(n, "※それ以外"@) {
            let d1 = if else_branch is Some {
                diags.push(second_else_error(line.span))
            } else {
                diags
            };
            match spec_branch_list(lines, j + 1) {
                Some(r) => if j + 1 <= r.next <= lines.len() + 1 {
                    spec_branch_loop(lines, r.next, first_span, branches, Some(r.value), d1 + r.diags)
                } else {
                    None
                },
                None => None,
            }
        } else {
            spec_branch_loop(lines, j + 1, first_span, branches, else_branch, diags.push(unreadable_end_error(line.span)))
        }
    }
}

/// The line ends a branch: `おわり`, `※あるいは` or `※それ以外`.
pub open spec fn ends_branch(line: LogicalLine) -> bool {
    let n = line_head(line.text@);
    n == "おわり"@ || seq_starts_with(n, "※あるいは"@) || seq_starts_with(n, "※それ以外"@)
}

/// The lines to read after a statement read up to `next` (a line that gives no statement
/// skips the line after it too).
pub open spec fn after_stmt(r: Reading<Option<StmtView>>) -> int {
    if r.value is Some {
        r.next
    } else {
        r.next + 1
    }
}

/// Reading the statements of a branch from line `i` on, up to a line that ends the branch
/// (`おわり`, `※あるいは`, `※それ以外`) or the last line; blank lines are skipped, and a
/// line that gives no statement skips the line after it too.
pub open spec fn spec_branch_list(lines: Seq<LogicalLine>, i: int) -> Option<Reading<Seq<StmtView>>>
    decreases lines.len() + 1 - i, 1nat,
{
    if i < 0 || i >= lines.len() || ends_branch(lines[i]) {
        Some(Reading { value: Seq::empty(), next: i, diags: Seq::empty() })
    } else if spec_trim(lines[i].text@).len() == 0 {
        spec_branch_list(lines, i + 1)
    } else {
        match spec_stmt_from_line(lines, lines[i].text@, lines[i].span, i + 1) {
            Some(r) => {
                let next = after_stmt(r);
                if i + 1 <= next <= lines.len() + 1 {
                    match spec_branch_list(lines, next) {
                        Some(r2) => Some(Reading { value: stmt_list(r.value) + r2.value, next: r2.next, diags: r.diags + r2.diags }),
                        None => None,
                    }
                } else {
                    None
                }
            },
            None => None,
        }
    }
}

// ---------------------------------------------------------------------------
// Reading statements from lines
// ---------------------------------------------------------------------------

/// Every line has room for its spans, and there is room to count past the last line.
pub open spec fn lines_room(lines: Seq<LogicalLine>) -> bool {
    &&& lines.len() + 2 < usize::MAX
    &&& forall|k: int| 0 <= k < lines.len() ==> #[trigger] line_room(lines[k])
}

/// The statement reader: the lines, the index of the next line to read, and the
/// diagnostics so far.
pub struct DaihonParser {
    pub lines: Vec<LogicalLine>,
    pub index: usize,
    pub diagnostics: Vec<DaihonDiagnostic>,
}

/// What a reading left behind: the same lines, the index moved to `rd.next`, and the
/// reading's diagnostics added.
pub open spec fn read_into<T>(before: DaihonParser, after: DaihonParser, rd: Reading<T>) -> bool {
    &&& after.lines@ == before.lines@
    &&& after.index == rd.next
    &&& diagnostic_views(after.diagnostics@) == diagnostic_views(before.diagnostics@) + rd.diags
}

/// `なら` runs take two characters each.
proof fn lemma_nara_count_bound(s: Seq<char>)
    ensures
        2 * nara_count(s) <= s.len(),
    decreases s.len(),
{
    if s.len() >= 2 && seq_starts_with(s, seq!['な', 'ら']) {
        lemma_nara_count_bound(s.skip(2));
    }
}

/// Dropping an opening `なら` never lengthens a text.
pub(crate) proof fn lemma_trim_nara_shorter(s: Seq<char>)
    ensures
        spec_trim_nara(s).len() <= s.len(),
{
    lemma_nara_count_bound(s);
    let t = s.skip((2 * nara_count(s)) as int);
    crate::text::lemma_leading_ws_bound(t);
}

/// A copy of a line.
pub(crate) fn copy_line(l: &LogicalLine) -> (r: LogicalLine)
    ensures
        r.text@ == l.text@,
        r.span == l.span,
{
    let cs = chars_of(l.text.as_str());
    LogicalLine { text: string_of(cs.as_slice()), span: l.span }
}

/// Adds an error with one span and no help.
pub(crate) fn push_error(diagnostics: &mut Vec<DaihonDiagnostic>, code: &str, message: &str, span: Span)
    ensures
        diagnostic_views(final(diagnostics)@) == diagnostic_views(old(diagnostics)@).push(
            error_view(code@, message@, span, None),
        ),
{
    let d = syntax_error(code, message, span);
    let ghost before = diagnostics@;
    diagnostics.push(d);
    proof {
        lemma_views_push(before, d);
    }
}

/// A list that grew by one element at its end, as views.
pub(crate) proof fn lemma_grew_by_one(before: Seq<DaihonDiagnostic>, after: Seq<DaihonDiagnostic>)
    requires
        after.len() == before.len() + 1,
        after.take(before.len() as int) == before,
    ensures
        diagnostic_views(after) == diagnostic_views(before).push(diagnostic_view(after.last())),
{
    assert(after =~= before.push(after.last()));
    lemma_views_push(before, after.last());
}

/// Whether the normalized head `n` starts with `p`.
fn head_starts(n: &Vec<char>, p: &str) -> (r: bool)
    ensures
        r == seq_starts_with(n@, p@),
{
    let pc = chars_of(p);
    chars_start_with(n.as_slice(), pc.as_slice())
}

/// Whether the line ends a branch.
fn line_ends_branch(line: &LogicalLine) -> (r: bool)
    ensures
        r == ends_branch(*line),
{
    let n = chars_of(normalize_line_head(line.text.as_str()).as_str());
    is_lit(n.as_slice(), "おわり") || head_starts(&n, "※あるいは") || head_starts(&n, "※それ以外")
}

/// Whether the rest after a condition opens a block, as `opens_block` says.
fn rest_opens_block(rest: &str) -> (r: bool)
    ensures
        r == opens_block(rest@),
{
    let t = trim_chars(chars_of(rest).as_slice());
    let n = trim_nara(string_of(t.as_slice()).as_str());
    let nc = normalize_chars(chars_of(n.as_str()).as_slice());
    let r = nc.len() > 0 && nc[0] == ':';
    proof {
        assert(seq![':'].len() == 1);
        if nc@.len() > 0 {
            assert(nc@.subrange(0, 1) =~= seq![nc@[0]]);
            if !r {
                assert(nc@.subrange(0, 1)[0] != seq![':'][0]);
            }
        }
    }
    r
}

/// The condition text of a `※あるいは` line, as `branch_condition_text` says.
fn branch_text(text: &str) -> (r: String)
    ensures
        r@ == branch_condition_text(text@),
{
    let t = trim_chars(chars_of(text).as_slice());
    let mut a: usize = 0;
    proof {
        assert(t@.skip(0) =~= t@);
    }
    while a < t.len() && t[a] == '※'
        invariant
            a <= t@.len(),
            strip_all_char(t@, '※') == strip_all_char(t@.skip(a as int), '※'),
        decreases t@.len() - a,
    {
        proof {
            assert(t@.skip(a as int).drop_first() =~= t@.skip(a + 1));
        }
        a += 1;
    }
    let mut u = sub_chars(&t, a, t.len());
    proof {
        assert(u@ =~= t@.skip(a as int));
    }
    let p = chars_of("あるいは");
    while u.len() >= p.len() && chars_start_with(u.as_slice(), p.as_slice())
        invariant
            p@ == "あるいは"@,
            strip_all_char(t@, '※') == strip_all_char(t@.skip(a as int), '※'),
            strip_all_prefix(strip_all_char(t@, '※'), p@) == strip_all_prefix(u@, p@),
        decreases u@.len(),
    {
        proof {
            assert(p@.len() == 4) by {
                reveal_strlit("あるいは");
            }
        }
        u = sub_chars(&u, p.len(), u.len());
    }
    proof {
        reveal_strlit("あるいは");
    }
    string_of(u.as_slice())
}

/// Reads a line whose trimmed text splits into the speaker prefix `speaker` and `rest`,
/// as `spec_speaker_stmt` says.
#[verifier::rlimit(60)]
#[verifier::spinoff_prover]
fn speaker_stmt(line: &LogicalLine, speaker: &String, rest: &String, diagnostics: &mut Vec<DaihonDiagnostic>) -> (r: Option<Stmt>)
    requires
        line_room(*line),
        speaker@.len() <= line.text@.len(),
        rest@.len() <= line.text@.len(),
        spec_speaker_stmt(line.text@, line.span, speaker@, rest@) is Some,
    ensures
        spec_speaker_stmt(line.text@, line.span, speaker@, rest@) matches Some((v, ds)) && opt_stmt_matches(r, v)
            && diagnostic_views(final(diagnostics)@) == diagnostic_views(old(diagnostics)@) + ds,
{
    proof {
        reveal(spec_speaker_stmt);
    }
    let ghost before = diagnostics@;
    proof {
        lemma_substr_room(*line, speaker@);
        lemma_substr_room(*line, rest@);
    }
    let speaker_span = span_for_substr(line, speaker.as_str());
    let rest_chars = chars_of(rest.as_str());
    let rest_trimmed = trim_chars(rest_chars.as_slice());
    proof {
        lemma_trim_shorter(rest_chars@);
    }
    let rest_line = LogicalLine { text: string_of(rest_trimmed.as_slice()), span: span_for_substr(line, rest.as_str()) };
    match parse_display_line(&rest_line, diagnostics) {
        Some(display) => {
            let sc = chars_of(speaker.as_str());
            let name = string_of(trim_chars(sc.as_slice()).as_slice());
            proof {
                assert(diagnostic_views(diagnostics@) =~= diagnostic_views(before) + Seq::<DiagnosticView>::empty());
            }
            Some(Stmt::SpeakerDisplay { speaker: Spanned::new(name, speaker_span), display })
        },
        None => {
            proof {
                if let Parsed::Failed(d) = spec_display_from(rest_line.text@, 0, rest_line.span) {
                    lemma_grew_by_one(before, diagnostics@);
                }
            }
            push_error(diagnostics, "E-DHN-SEM-060", "話者prefixを付けられるのは表示列だけです。", speaker_span);
            proof {
                if let Parsed::Failed(d) = spec_display_from(rest_line.text@, 0, rest_line.span) {
                    assert(diagnostic_views(before).push(d).push(speaker_error(speaker_span))
                        =~= diagnostic_views(before) + seq![d, speaker_error(speaker_span)]);
                } else {
                    assert(diagnostic_views(before).push(speaker_error(speaker_span))
                        =~= diagnostic_views(before) + seq![speaker_error(speaker_span)]);
                }
            }
            None
        },
    }
}

/// Reads a line with neither a speaker nor a mark in front, as `spec_bare_stmt` says.
#[verifier::rlimit(60)]
#[verifier::spinoff_prover]
fn bare_stmt(line: &LogicalLine, diagnostics: &mut Vec<DaihonDiagnostic>) -> (r: Option<Stmt>)
    requires
        line_room(*line),
        spec_bare_stmt(line.text@, line.span) is Some,
    ensures
        spec_bare_stmt(line.text@, line.span) matches Some((v, ds)) && opt_stmt_matches(r, v)
            && diagnostic_views(final(diagnostics)@) == diagnostic_views(old(diagnostics)@) + ds,
{
    proof {
        reveal(spec_bare_stmt);
    }
    let ghost before = diagnostics@;
    match parse_display_line(line, diagnostics) {
        Some(display) => {
            proof {
                assert(diagnostic_views(diagnostics@) =~= diagnostic_views(before) + Seq::<DiagnosticView>::empty());
            }
            return Some(Stmt::Display(display));
        },
        None => {},
    }
    let ghost ds: Seq<DiagnosticView> = match spec_display_from(line.text@, 0, line.span) {
        Parsed::Failed(d) => seq![d],
        _ => Seq::empty(),
    };
    proof {
        if let Parsed::Failed(d) = spec_display_from(line.text@, 0, line.span) {
            lemma_grew_by_one(before, diagnostics@);
            assert(diagnostic_views(before).push(d) =~= diagnostic_views(before) + ds);
        } else {
            assert(diagnostic_views(diagnostics@) =~= diagnostic_views(before) + ds);
        }
    }
    let ghost middle = diagnostics@;
    match parse_assignment(line, diagnostics) {
        Some(a) => {
            proof {
                assert(diagnostic_views(diagnostics@) =~= diagnostic_views(before) + ds);
            }
            return Some(Stmt::Assignment(Box::new(a)));
        },
        None => {},
    }
    let ghost ds2: Seq<DiagnosticView> = match spec_assignment(line.text@, line.span) {
        Parsed::Failed(d) => ds.push(d),
        _ => ds,
    };
    proof {
        if let Parsed::Failed(d) = spec_assignment(line.text@, line.span) {
            lemma_grew_by_one(middle, diagnostics@);
            assert(diagnostic_views(before) + ds + seq![d] =~= diagnostic_views(before) + ds2);
            assert(diagnostic_views(middle).push(d) =~= diagnostic_views(before) + ds2);
        }
    }
    let head = normalize_line_head(line.text.as_str());
    let metadata = match split_metadata_line(head.as_str()) {
        Some((key, _)) => is_known_metadata_key(key.as_str()),
        None => false,
    };
    let help = if metadata {
        "合図・条件などのメタデータ行はシーン見出しの直後にまとめて書いてください。"
    } else {
        "セリフは 「」 で囲んでください。地の文(裸のテキスト行)は書けません。セリフ、関数呼び出し、代入、ジャンプ、条件ブロックのいずれかを書いてください。"
    };
    let d = DaihonDiagnostic::error("E-DHN-SYN-031", "文として解釈できませんでした。", line.span).with_help(help);
    proof {
        assert(diagnostic_view(d).labels =~= seq![(line.span, None::<Seq<char>>)]);
    }
    let ghost b2 = diagnostics@;
    diagnostics.push(d);
    proof {
        lemma_views_push(b2, d);
        assert(diagnostic_views(before) + ds2.push(unreadable_stmt_error(line.text@, line.span))
            =~= (diagnostic_views(before) + ds2).push(unreadable_stmt_error(line.text@, line.span)));
    }
    None
}

/// Reads a statement that is no conditional, as `spec_plain_stmt` says.
#[verifier::rlimit(40)]
fn plain_stmt(line: &LogicalLine, diagnostics: &mut Vec<DaihonDiagnostic>) -> (r: Option<Stmt>)
    requires
        line_room(*line),
        spec_plain_stmt(line.text@, line.span) is Some,
    ensures
        spec_plain_stmt(line.text@, line.span) matches Some((v, ds)) && opt_stmt_matches(r, v)
            && diagnostic_views(final(diagnostics)@) == diagnostic_views(old(diagnostics)@) + ds,
{
    proof {
        reveal(spec_plain_stmt);
    }
    let cs = chars_of(line.text.as_str());
    let t = trim_chars(cs.as_slice());
    proof {
        lemma_trim_shorter(cs@);
    }
    if t.len() > 0 && t[0] == '→' {
        let text = string_of(t.as_slice());
        proof {
            assert(diagnostic_views(diagnostics@) + Seq::<DiagnosticView>::empty() =~= diagnostic_views(diagnostics@));
        }
        return Some(Stmt::Jump(parse_jump(text.as_str(), line.span)));
    }
    let ts = string_of(t.as_slice());
    proof {
        lemma_pos_at_most_four(t@, t@.len() as int);
        lemma_pos_byte_is_encoding(t@, t@.len() as int);
        assert(t@.take(t@.len() as int) =~= t@);
    }
    match split_speaker_prefix(ts.as_str()) {
        Some((speaker, rest)) => {
            proof {
                assert(speaker@.len() <= t@.len());
                assert(rest@.len() <= t@.len());
            }
            speaker_stmt(line, &speaker, &rest, diagnostics)
        },
        None => bare_stmt(line, diagnostics),
    }
}

/// Reads the statement on `line`, as `spec_stmt_from_line` says: the statement, if any,
/// with the parser moved past what it read and the diagnostics of what could not be read.
#[verifier::rlimit(40)]
pub fn parse_stmt_from_line(line: &LogicalLine, parser: &mut DaihonParser) -> (r: Option<Stmt>)
    requires
        line_room(*line),
        lines_room(old(parser).lines@),
        old(parser).index <= old(parser).lines@.len(),
        spec_stmt_from_line(old(parser).lines@, line.text@, line.span, old(parser).index as int) is Some,
    ensures
        spec_stmt_from_line(old(parser).lines@, line.text@, line.span, old(parser).index as int) matches Some(rd)
            && opt_stmt_matches(r, rd.value) && read_into(*old(parser), *final(parser), rd),
    decreases old(parser).lines@.len() + 1 - old(parser).index, 5nat,
{
    let cs = chars_of(line.text.as_str());
    let t = trim_chars(cs.as_slice());
    if t.len() > 0 && t[0] == '※' {
        return parser.parse_conditional_from_first_line(line);
    }
    plain_stmt(line, &mut parser.diagnostics)
}

/// The statements of a branch from line `i` on, when line `i` ends the branch or there is
/// none: no statement, no diagnostic, nothing read.
proof fn lemma_list_stop(lines: Seq<LogicalLine>, i: int)
    requires
        i < 0 || i >= lines.len() || ends_branch(lines[i]),
    ensures
        spec_branch_list(lines, i) == Some(Reading { value: Seq::<StmtView>::empty(), next: i, diags: Seq::<DiagnosticView>::empty() }),
{
}

/// The statements of a branch from a blank line `i` on are those from line `i + 1` on.
proof fn lemma_list_blank(lines: Seq<LogicalLine>, i: int)
    requires
        0 <= i < lines.len(),
        !ends_branch(lines[i]),
        spec_trim(lines[i].text@).len() == 0,
    ensures
        spec_branch_list(lines, i) == spec_branch_list(lines, i + 1),
{
}

/// The statements of a branch from a line `i` that is read as a statement: what that line
/// gives, then the statements after it.
proof fn lemma_list_stmt(lines: Seq<LogicalLine>, i: int)
    requires
        0 <= i < lines.len(),
        !ends_branch(lines[i]),
        spec_trim(lines[i].text@).len() != 0,
        spec_branch_list(lines, i) is Some,
    ensures
        spec_stmt_from_line(lines, lines[i].text@, lines[i].span, i + 1) is Some,
        i + 1 <= after_stmt(spec_stmt_from_line(lines, lines[i].text@, lines[i].span, i + 1)->Some_0) <= lines.len() + 1,
        spec_branch_list(lines, after_stmt(spec_stmt_from_line(lines, lines[i].text@, lines[i].span, i + 1)->Some_0)) is Some,
        ({
            let r = spec_stmt_from_line(lines, lines[i].text@, lines[i].span, i + 1)->Some_0;
            let r2 = spec_branch_list(lines, after_stmt(r))->Some_0;
            spec_branch_list(lines, i) == Some(Reading { value: stmt_list(r.value) + r2.value, next: r2.next, diags: r.diags + r2.diags })
        }),
{
}

impl DaihonParser {
    /// Reads the statements of a branch, as `spec_branch_list` says.
    #[verifier::rlimit(60)]
    #[verifier::spinoff_prover]
    pub fn parse_stmt_list_until_branch_end(&mut self) -> (r: Vec<Stmt>)
        requires
            lines_room(old(self).lines@),
            old(self).index <= old(self).lines@.len() + 1,
            spec_branch_list(old(self).lines@, old(self).index as int) is Some,
        ensures
            spec_branch_list(old(self).lines@, old(self).index as int) matches Some(rd) && stmts_match(r@, rd.value)
                && read_into(*old(self), *final(self), rd),
        decreases old(self).lines@.len() + 1 - old(self).index, 2nat,
    {
        let ghost lines = self.lines@;
        let ghost i0 = self.index as int;
        let ghost start = self.diagnostics@;
        let mut statements: Vec<Stmt> = Vec::new();
        let ghost mut views: Seq<StmtView> = Seq::empty();
        let ghost mut added: Seq<DiagnosticView> = Seq::empty();
        proof {
            assert(diagnostic_views(start) + added =~= diagnostic_views(start));
            let rd = spec_branch_list(lines, i0)->Some_0;
            assert(views + rd.value =~= rd.value);
            assert(added + rd.diags =~= rd.diags);
        }
        while self.index < self.lines.len() && !line_ends_branch(&self.lines[self.index])
            invariant
                self.lines@ == lines,
                lines == old(self).lines@,
                i0 == old(self).index,
                lines_room(lines),
                i0 <= self.index <= lines.len() + 1,
                spec_branch_list(lines, self.index as int) is Some,
                spec_branch_list(lines, i0) == (Some(Reading {
                    value: views + spec_branch_list(lines, self.index as int)->Some_0.value,
                    next: spec_branch_list(lines, self.index as int)->Some_0.next,
                    diags: added + spec_branch_list(lines, self.index as int)->Some_0.diags,
                })),
                stmts_match(statements@, views),
                diagnostic_views(self.diagnostics@) == diagnostic_views(start) + added,
            decreases lines.len() + 1 - self.index,
        {
            let line = copy_line(&self.lines[self.index]);
            let ghost i = self.index as int;
            let ghost rest_list = spec_branch_list(lines, i)->Some_0;
            proof {
                assert(line_room(lines[i]));
            }
            let lc = chars_of(line.text.as_str());
            if trim_chars(lc.as_slice()).len() == 0 {
                proof {
                    lemma_list_blank(lines, i);
                }
                self.index = self.index + 1;
            } else {
                proof {
                    lemma_list_stmt(lines, i);
                }
                self.index = self.index + 1;
                let ghost sv = statements@;
                let ghost d_call = self.diagnostics@;
                let res = parse_stmt_from_line(&line, self);
                let ghost gres = res;
                match res {
                    Some(st) => {
                        statements.push(st);
                    },
                    None => {
                        self.index = self.index + 1;
                    },
                }
                proof {
                    let r = spec_stmt_from_line(lines, line.text@, line.span, i + 1)->Some_0;
                    let r2 = spec_branch_list(lines, self.index as int)->Some_0;
                    let old_views = views;
                    views = views + stmt_list(r.value);
                    let old_added = added;
                    added = added + r.diags;
                    assert(old_views + rest_list.value =~= views + r2.value);
                    assert(old_added + rest_list.diags =~= added + r2.diags);
                    assert(diagnostic_views(self.diagnostics@) == diagnostic_views(d_call) + r.diags);
                    assert(diagnostic_views(d_call) == diagnostic_views(start) + old_added);
                    assert((diagnostic_views(start) + old_added) + r.diags =~= diagnostic_views(start) + added);
                    if let Some(st) = gres {
                        lemma_stmts_push(sv, old_views, st, r.value->Some_0);
                        assert(views =~= old_views.push(r.value->Some_0));
                    } else {
                        assert(views =~= old_views);
                    }
                }
            }
        }
        proof {
            lemma_list_stop(lines, self.index as int);
            let rd = spec_branch_list(lines, self.index as int)->Some_0;
            assert(views + rd.value =~= views);
            assert(added + rd.diags =~= added);
        }
        statements
    }
}

/// Reads a one-line conditional, as `spec_one_line` says: the conditional over
/// `condition` with its single action, or nothing and the diagnostics.
#[verifier::rlimit(60)]
#[verifier::spinoff_prover]
fn one_line_conditional(
    first_line: &LogicalLine,
    condition: Expr,
    rest: &String,
    inner: Ghost<Seq<char>>,
    node: Ghost<Node>,
    diagnostics: &mut Vec<DaihonDiagnostic>,
) -> (r: Option<Stmt>)
    requires
        line_room(*first_line),
        rest@.len() <= first_line.text@.len(),
        read_from(condition, node@, inner@, first_line.span),
        spec_one_line(first_line.text@, first_line.span, inner@, node@, rest@) is Some,
    ensures
        spec_one_line(first_line.text@, first_line.span, inner@, node@, rest@) matches Some((v, ds)) && opt_stmt_matches(r, v)
            && diagnostic_views(final(diagnostics)@) == diagnostic_views(old(diagnostics)@) + ds,
{
    proof {
        reveal(spec_one_line);
    }
    let ghost start = diagnostics@;
    let rc = chars_of(rest.as_str());
    let rt = trim_chars(rc.as_slice());
    let action = trim_nara(string_of(rt.as_slice()).as_str());
    proof {
        lemma_trim_shorter(rc@);
        lemma_trim_nara_shorter(rt@);
        lemma_substr_room(*first_line, action@);
    }
    let action_span = span_for_substr(first_line, action.as_str());
    let action_line = LogicalLine { text: action, span: action_span };
    match parse_single_action(&action_line, diagnostics) {
        Some(stmt) => {
            let mut statements: Vec<Stmt> = Vec::new();
            statements.push(stmt);
            let mut branches: Vec<ConditionalBranch> = Vec::new();
            branches.push(ConditionalBranch { condition, statements, span: first_line.span });
            let r = Some(Stmt::Conditional(ConditionalBlock { branches, else_branch: None, span: first_line.span, one_line: true }));
            proof {
                let bv = BranchView { condition: (inner@, node@, first_line.span), statements: seq![spec_single_action(action_line.text@, action_line.span)->Some_0.0->Some_0], span: first_line.span };
                assert(branch_matches(branches@[0], bv));
            }
            r
        },
        None => {
            let ghost ds = spec_single_action(action_line.text@, action_line.span)->Some_0.1;
            push_error(diagnostics, "E-DHN-SYN-046", "条件付き1行記法のアクションを読み取れませんでした。", first_line.span);
            proof {
                assert((diagnostic_views(start) + ds).push(no_action_error(first_line.span))
                    =~= diagnostic_views(start) + ds.push(no_action_error(first_line.span)));
            }
            None
        },
    }
}

impl DaihonParser {
    /// Reads a conditional whose first line is `first_line`, as `spec_conditional` says: a
    /// block read up to its `おわり`, or a one-line conditional with its single action.
    #[verifier::rlimit(60)]
    #[verifier::spinoff_prover]
    pub fn parse_conditional_from_first_line(&mut self, first_line: &LogicalLine) -> (r: Option<Stmt>)
        requires
            line_room(*first_line),
            lines_room(old(self).lines@),
            old(self).index <= old(self).lines@.len(),
            spec_conditional(old(self).lines@, first_line.text@, first_line.span, old(self).index as int) is Some,
        ensures
            spec_conditional(old(self).lines@, first_line.text@, first_line.span, old(self).index as int) matches Some(rd)
                && opt_stmt_matches(r, rd.value) && read_into(*old(self), *final(self), rd),
        decreases old(self).lines@.len() + 1 - old(self).index, 4nat,
    {
        let ghost lines = self.lines@;
        let ghost i0 = self.index as int;
        let ghost start = self.diagnostics@;
        let ghost fspan = first_line.span;
        let n = chars_of(normalize_line_head(first_line.text.as_str()).as_str());
        if head_starts(&n, "※あるいは") || head_starts(&n, "※それ以外") {
            push_error(
                &mut self.diagnostics,
                "E-DHN-SYN-040",
                "※あるいは / ※それ以外 は、直前の条件ブロックの中でだけ使えます。",
                first_line.span,
            );
            proof {
                assert(diagnostic_views(start).push(stray_branch_error(fspan)) =~= diagnostic_views(start) + seq![stray_branch_error(fspan)]);
            }
            return None;
        }
        proof {
            reveal(opening_condition);
        }
        let (condition, rest) = match split_condition_prefix(first_line.text.as_str(), first_line.span) {
            Some(v) => v,
            None => {
                push_error(&mut self.diagnostics, "E-DHN-SYN-041", "条件式を読み取れませんでした。", first_line.span);
                proof {
                    assert(diagnostic_views(start).push(unreadable_condition_error(fspan)) =~= diagnostic_views(start) + seq![unreadable_condition_error(fspan)]);
                }
                return None;
            },
        };
        let ghost split = opening_condition(first_line.text@, first_line.span)->Done_0->Some_0;
        if !rest_opens_block(rest.as_str()) {
            proof {
                lemma_split_prefix_rest_len(first_line.text@, first_line.span);
            }
            return one_line_conditional(first_line, condition, &rest, Ghost(split.0), Ghost(split.1), &mut self.diagnostics);
        }
        self.parse_block_conditional(first_line.span, condition, Ghost(split.0), Ghost(split.1))
    }

    /// Reads a conditional block from the current line on, as `block_start` says: its
    /// first branch, over `condition`, then the rest of the block up to `おわり`.
    #[verifier::rlimit(60)]
    #[verifier::spinoff_prover]
    fn parse_block_conditional(&mut self, first_span: Span, condition: Expr, inner: Ghost<Seq<char>>, node: Ghost<Node>) -> (r: Option<Stmt>)
        requires
            lines_room(old(self).lines@),
            old(self).index <= old(self).lines@.len(),
            read_from(condition, node@, inner@, first_span),
            block_start(old(self).lines@, old(self).index as int, first_span, inner@, node@) is Some,
        ensures
            block_start(old(self).lines@, old(self).index as int, first_span, inner@, node@) matches Some(rd)
                && opt_stmt_matches(r, rd.value) && read_into(*old(self), *final(self), rd),
        decreases old(self).lines@.len() + 1 - old(self).index, 3nat,
    {
        let ghost lines = self.lines@;
        let ghost i0 = self.index as int;
        let ghost start = self.diagnostics@;
        let first_statements = self.parse_stmt_list_until_branch_end();
        let ghost r1 = spec_branch_list(lines, i0)->Some_0;
        let mut branches: Vec<ConditionalBranch> = Vec::new();
        branches.push(ConditionalBranch { condition, statements: first_statements, span: first_span });
        let ghost bviews: Seq<BranchView> = seq![BranchView { condition: (inner@, node@, first_span), statements: r1.value, span: first_span }];
        proof {
            assert(branch_matches(branches@[0], bviews[0]));
        }
        self.parse_branch_loop(first_span, branches, Ghost(bviews), Ghost(start), Ghost(r1.diags))
    }
}

/// What a conditional block read so far holds: its branches and `※それ以外` statements
/// are those read as `bviews` and `eview`.
pub open spec fn block_so_far(
    branches: Seq<ConditionalBranch>,
    else_branch: Option<Vec<Stmt>>,
    bviews: Seq<BranchView>,
    eview: Option<Seq<StmtView>>,
) -> bool {
    &&& branches.len() == bviews.len()
    &&& forall|k: int| #![trigger bviews[k]] 0 <= k < bviews.len() ==> branch_matches(branches[k], bviews[k])
    &&& match eview {
        None => else_branch is None,
        Some(es) => else_branch matches Some(v) && stmts_match(v@, es),
    }
}

/// A statement read after the statements read keeps them read.
pub(crate) proof fn lemma_stmts_push(ss: Seq<Stmt>, vs: Seq<StmtView>, s: Stmt, v: StmtView)
    requires
        stmts_match(ss, vs),
        stmt_matches(s, v),
    ensures
        stmts_match(ss.push(s), vs.push(v)),
{
    assert forall|k: int| 0 <= k < vs.push(v).len() implies #[trigger] stmt_matches(ss.push(s)[k], vs.push(v)[k]) by {
        if k < vs.len() {
            assert(ss.push(s)[k] == ss[k]);
            assert(vs.push(v)[k] == vs[k]);
        }
    }
}

/// A block whose branches and `※それ以外` statements are those read is the conditional
/// block read.
proof fn lemma_block_matches(block: ConditionalBlock, bv: Seq<BranchView>, eview: Option<Seq<StmtView>>)
    requires
        block_so_far(block.branches@, block.else_branch, bv, eview),
        block.one_line == false,
    ensures
        stmt_matches(Stmt::Conditional(block), StmtView::Conditional(bv, eview, block.span, false)),
{
    assert forall|k: int| 0 <= k < bv.len() implies #[trigger] branch_matches(block.branches@[k], bv[k]) by {
        assert(block_so_far(block.branches@, block.else_branch, bv, eview));
    }
}

/// A branch read after the branches read keeps them read.
proof fn lemma_block_push(
    branches: Seq<ConditionalBranch>,
    else_branch: Option<Vec<Stmt>>,
    bviews: Seq<BranchView>,
    eview: Option<Seq<StmtView>>,
    b: ConditionalBranch,
    bv: BranchView,
)
    requires
        block_so_far(branches, else_branch, bviews, eview),
        branch_matches(b, bv),
    ensures
        block_so_far(branches.push(b), else_branch, bviews.push(bv), eview),
{
    assert forall|k: int| 0 <= k < bviews.push(bv).len() implies #[trigger] branch_matches(branches.push(b)[k], bviews.push(bv)[k]) by {
        if k < bviews.len() {
            assert(branches.push(b)[k] == branches[k]);
        }
    }
}

impl DaihonParser {
    /// Reads the rest of a conditional block, as `spec_branch_loop` says: the branches,
    /// a `※それ以外` branch, and the lines that end none of them, up to `おわり`.
    #[verifier::rlimit(100)]
    #[verifier::spinoff_prover]
    fn parse_branch_loop(
        &mut self,
        first_span: Span,
        branches: Vec<ConditionalBranch>,
        bviews: Ghost<Seq<BranchView>>,
        start: Ghost<Seq<DaihonDiagnostic>>,
        added0: Ghost<Seq<DiagnosticView>>,
    ) -> (r: Option<Stmt>)
        requires
            lines_room(old(self).lines@),
            old(self).index <= old(self).lines@.len() + 1,
            block_so_far(branches@, None, bviews@, None),
            diagnostic_views(old(self).diagnostics@) == diagnostic_views(start@) + added0@,
            spec_branch_loop(old(self).lines@, old(self).index as int, first_span, bviews@, None, added0@) is Some,
        ensures
            spec_branch_loop(old(self).lines@, old(self).index as int, first_span, bviews@, None, added0@) matches Some(rd)
                && opt_stmt_matches(r, rd.value) && final(self).lines@ == old(self).lines@ && final(self).index == rd.next
                && diagnostic_views(final(self).diagnostics@) == diagnostic_views(start@) + rd.diags,
        decreases old(self).lines@.len() + 1 - old(self).index, 1nat,
    {
        let ghost lines = self.lines@;
        let ghost j0 = self.index as int;
        let ghost target = spec_branch_loop(lines, self.index as int, first_span, bviews@, None, added0@);
        let mut branches = branches;
        let mut else_branch: Option<Vec<Stmt>> = None;
        let ghost mut bv = bviews@;
        let ghost mut eview: Option<Seq<StmtView>> = None;
        let ghost mut added = added0@;
        let mut closed = false;
        while !closed && self.index < self.lines.len()
            invariant
                self.lines@ == lines,
                lines == old(self).lines@,
                j0 == old(self).index,
                lines_room(lines),
                j0 <= self.index <= lines.len() + 1,
                target is Some,
                !closed ==> target == spec_branch_loop(lines, self.index as int, first_span, bv, eview, added),
                closed ==> target == read_stmt(Some(StmtView::Conditional(bv, eview, first_span, false)), self.index as int, added),
                block_so_far(branches@, else_branch, bv, eview),
                diagnostic_views(self.diagnostics@) == diagnostic_views(start@) + added,
            decreases lines.len() + 1 - self.index,
        {
            let line = copy_line(&self.lines[self.index]);
            let ghost j = self.index as int;
            proof {
                assert(line_room(lines[j]));
            }
            let n = chars_of(normalize_line_head(line.text.as_str()).as_str());
            if is_lit(n.as_slice(), "おわり") {
                proof {
                    assert(target == read_stmt(Some(StmtView::Conditional(bv, eview, first_span, false)), j + 1, added))
                }
                self.index = self.index + 1;
                closed = true;
            } else if head_starts(&n, "※あるいは") {
                let ghost a = alt_step(lines, j, first_span, bv, eview, added);
                self.alt_branch_step(&line, first_span, &mut branches, &else_branch, Ghost(start@), Ghost(bv), Ghost(eview), Ghost(added));
                proof {
                    bv = a.0;
                    added = a.1;
                }
            } else if head_starts(&n, "※それ以外") {
                self.index = self.index + 1;
                let ghost a0 = added;
                if else_branch.is_some() {
                    push_error(&mut self.diagnostics, "E-DHN-SEM-033", "※それ以外 が複数あります。", line.span);
                    proof {
                        added = added.push(second_else_error(line.span));
                    }
                }
                proof {
                    assert(spec_branch_list(lines, j + 1) is Some && target == (match spec_branch_list(lines, j + 1) {
                        Some(r) => if j + 1 <= r.next <= lines.len() + 1 {
                            spec_branch_loop(lines, r.next, first_span, bv, Some(r.value), added + r.diags)
                        } else {
                            None
                        },
                        None => None,
                    }))
                }
                let stmts = self.parse_stmt_list_until_branch_end();
                let ghost r = spec_branch_list(lines, j + 1)->Some_0;
                else_branch = Some(stmts);
                proof {
                    eview = Some(r.value);
                    added = added + r.diags;
                }
            } else {
                proof {
                    assert(target == spec_branch_loop(lines, j + 1, first_span, bv, eview, added.push(unreadable_end_error(line.span))))
                }
                push_error(&mut self.diagnostics, "E-DHN-SYN-045", "条件ブロックの終端を読み取れませんでした。", line.span);
                proof {
                    added = added.push(unreadable_end_error(line.span));
                }
                self.index = self.index + 1;
            }
        }
        if closed {
            proof {
                assert(target == read_stmt(Some(StmtView::Conditional(bv, eview, first_span, false)), self.index as int, added));
            }
        } else {
            proof {
                assert(target == read_stmt(Some(StmtView::Conditional(bv, eview, first_span, false)), self.index as int, added.push(missing_end_error(first_span))))
            }
            push_error(&mut self.diagnostics, "E-DHN-SYN-042", "条件ブロックの おわり が不足しています。", first_span);
            proof {
                added = added.push(missing_end_error(first_span));
            }
        }
        let block = ConditionalBlock { branches, else_branch, span: first_span, one_line: false };
        proof {
            lemma_block_matches(block, bv, eview);
        }
        Some(Stmt::Conditional(block))
    }
}

/// What reading a `※あるいは` line `j` of a conditional block gives: the branches read,
/// the diagnostics so far, and the next line to read.
pub open spec fn alt_step(
    lines: Seq<LogicalLine>,
    j: int,
    first_span: Span,
    bv: Seq<BranchView>,
    eview: Option<Seq<StmtView>>,
    added: Seq<DiagnosticView>,
) -> (Seq<BranchView>, Seq<DiagnosticView>, int) {
    let line = lines[j];
    let d1 = if eview is Some {
        added.push(branch_after_else_error(line.span))
    } else {
        added
    };
    match branch_condition(line.text@, line.span) {
        Parsed::Done(Some((inner, node, rest))) => {
            let d2 = if opens_block(rest) {
                d1
            } else {
                d1.push(branch_colon_error(line.span))
            };
            let r = spec_branch_list(lines, j + 1)->Some_0;
            (bv.push(BranchView { condition: (inner, node, line.span), statements: r.value, span: line.span }), d2 + r.diags, r.next)
        },
        _ => (bv, d1.push(unreadable_branch_error(line.span)), j + 1),
    }
}

/// The rest of a conditional block from a `※あるいは` line is the rest after it, with what
/// the line gives.
proof fn lemma_loop_alt(
    lines: Seq<LogicalLine>,
    j: int,
    first_span: Span,
    bv: Seq<BranchView>,
    eview: Option<Seq<StmtView>>,
    added: Seq<DiagnosticView>,
)
    requires
        0 <= j < lines.len(),
        line_head(lines[j].text@) != "おわり"@,
        seq_starts_with(line_head(lines[j].text@), "※あるいは"@),
        spec_branch_loop(lines, j, first_span, bv, eview, added) is Some,
    ensures
        branch_condition(lines[j].text@, lines[j].span) is Done,
        branch_condition(lines[j].text@, lines[j].span) matches Parsed::Done(Some(_)) ==> spec_branch_list(lines, j + 1) is Some,
        j < alt_step(lines, j, first_span, bv, eview, added).2 <= lines.len() + 1,
        spec_branch_loop(lines, j, first_span, bv, eview, added) == spec_branch_loop(
            lines,
            alt_step(lines, j, first_span, bv, eview, added).2,
            first_span,
            alt_step(lines, j, first_span, bv, eview, added).0,
            eview,
            alt_step(lines, j, first_span, bv, eview, added).1,
        ),
{
}

impl DaihonParser {
    /// Reads the `※あるいは` line `line`, the current line of a conditional block, as
    /// `alt_step` says: its branch is added when its condition can be read.
    #[verifier::rlimit(80)]
    #[verifier::spinoff_prover]
    fn alt_branch_step(
        &mut self,
        line: &LogicalLine,
        first_span: Span,
        branches: &mut Vec<ConditionalBranch>,
        else_branch: &Option<Vec<Stmt>>,
        start: Ghost<Seq<DaihonDiagnostic>>,
        bv: Ghost<Seq<BranchView>>,
        eview: Ghost<Option<Seq<StmtView>>>,
        added: Ghost<Seq<DiagnosticView>>,
    )
        requires
            lines_room(old(self).lines@),
            old(self).index < old(self).lines@.len(),
            line.text@ == old(self).lines@[old(self).index as int].text@,
            line.span == old(self).lines@[old(self).index as int].span,
            line_head(line.text@) != "おわり"@,
            seq_starts_with(line_head(line.text@), "※あるいは"@),
            spec_branch_loop(old(self).lines@, old(self).index as int, first_span, bv@, eview@, added@) is Some,
            block_so_far(old(branches)@, *else_branch, bv@, eview@),
            diagnostic_views(old(self).diagnostics@) == diagnostic_views(start@) + added@,
        ensures
            final(self).lines@ == old(self).lines@,
            final(self).index == alt_step(old(self).lines@, old(self).index as int, first_span, bv@, eview@, added@).2,
            old(self).index < final(self).index <= old(self).lines@.len() + 1,
            spec_branch_loop(old(self).lines@, old(self).index as int, first_span, bv@, eview@, added@) == spec_branch_loop(
                old(self).lines@,
                final(self).index as int,
                first_span,
                alt_step(old(self).lines@, old(self).index as int, first_span, bv@, eview@, added@).0,
                eview@,
                alt_step(old(self).lines@, old(self).index as int, first_span, bv@, eview@, added@).1,
            ),
            block_so_far(final(branches)@, *else_branch, alt_step(old(self).lines@, old(self).index as int, first_span, bv@, eview@, added@).0, eview@),
            diagnostic_views(final(self).diagnostics@) == diagnostic_views(start@)
                + alt_step(old(self).lines@, old(self).index as int, first_span, bv@, eview@, added@).1,
        decreases old(self).lines@.len() + 1 - old(self).index, 0nat,
    {
        let ghost lines = self.lines@;
        let ghost j = self.index as int;
        proof {
            lemma_loop_alt(lines, j, first_span, bv@, eview@, added@);
            assert(line_room(lines[j]));
        }
        self.index = self.index + 1;
        let ghost mut d = added@;
        if else_branch.is_some() {
            push_error(&mut self.diagnostics, "E-DHN-SEM-032", "※それ以外 の後に ※あるいは は書けません。", line.span);
            proof {
                d = d.push(branch_after_else_error(line.span));
            }
        }
        proof {
            reveal(branch_condition);
            lemma_branch_text_len(line.text@);
        }
        let after = branch_text(line.text.as_str());
        match split_paren_expr(after.as_str(), line.span) {
            None => {
                push_error(&mut self.diagnostics, "E-DHN-SYN-043", "※あるいは の条件式を読み取れませんでした。", line.span);
                proof {
                    assert(branch_condition(lines[j].text@, lines[j].span) == Parsed::Done(None::<(Seq<char>, Node, Seq<char>)>));
                }
            },
            Some((cond, rest)) => {
                if !rest_opens_block(rest.as_str()) {
                    push_error(&mut self.diagnostics, "E-DHN-SYN-044", "※あるいは はブロック記法で : が必要です。", line.span);
                }
                let ghost bsplit = branch_condition(line.text@, line.span)->Done_0->Some_0;
                let stmts = self.parse_stmt_list_until_branch_end();
                let ghost r = spec_branch_list(lines, j + 1)->Some_0;
                let b = ConditionalBranch { condition: cond, statements: stmts, span: line.span };
                proof {
                    let nbv = BranchView { condition: (bsplit.0, bsplit.1, line.span), statements: r.value, span: line.span };
                    assert(branch_matches(b, nbv));
                    lemma_block_push(branches@, *else_branch, bv@, eview@, b, nbv);
                    assert(self.index == r.next);
                    assert(branch_condition(lines[j].text@, lines[j].span) == Parsed::Done(Some(bsplit)));
                }
                branches.push(b);
            },
        }
    }
}

/// The text after a condition marked `※` is no longer than the line.
proof fn lemma_split_prefix_rest_len(text: Seq<char>, span: Span)
    ensures
        spec_split_condition_prefix(text, span) matches Parsed::Done(Some((_, _, rest))) ==> rest.len() <= text.len(),
{
    crate::text::lemma_leading_ws_bound(text);
    let t = text.skip(leading_ws(text) as int);
    if t.len() > 0 && t[0] == '※' {
        let u = t.skip(1);
        crate::text::lemma_leading_ws_bound(u);
    }
}

/// The condition text of a `※あるいは` line is no longer than the line.
proof fn lemma_branch_text_len(text: Seq<char>)
    ensures
        branch_condition_text(text).len() <= text.len(),
{
    crate::text::lemma_trim_len(text);
    lemma_strip_char_len(spec_trim(text), '※');
    lemma_strip_prefix_len(strip_all_char(spec_trim(text), '※'), "あるいは"@);
}

pub(crate) proof fn lemma_strip_char_len(s: Seq<char>, c: char)
    ensures
        strip_all_char(s, c).len() <= s.len(),
    decreases s.len(),
{
    if s.len() > 0 && s[0] == c {
        lemma_strip_char_len(s.drop_first(), c);
    }
}

proof fn lemma_strip_prefix_len(s: Seq<char>, p: Seq<char>)
    ensures
        strip_all_prefix(s, p).len() <= s.len(),
    decreases s.len(),
{
    if p.len() > 0 && seq_starts_with(s, p) && p.len() <= s.len() {
        lemma_strip_prefix_len(s.skip(p.len() as int), p);
    }
}


// ---------------------------------------------------------------------------
// The statements of a scene
// ---------------------------------------------------------------------------

/// The line is a scene header (`###`).
pub open spec fn scene_header(line: LogicalLine) -> bool {
    seq_starts_with(line_head(line.text@), "###"@)
}

/// The diagnostic for an `おわり` that ends no conditional block.
pub open spec fn stray_end_error(span: Span) -> DiagnosticView {
    error_view("E-DHN-SYN-030"@, "対応する条件ブロックがない おわり があります。"@, span, None)
}

/// Reading the statements of a scene from line `i` on, up to the next scene header or the
/// last line: blank lines are skipped, an `おわり` of no block is reported and skipped, and
/// a line that gives no statement skips the line after it too.
pub open spec fn spec_scene_list(lines: Seq<LogicalLine>, i: int) -> Option<Reading<Seq<StmtView>>>
    decreases lines.len() + 1 - i,
{
    if i < 0 || i >= lines.len() || scene_header(lines[i]) {
        Some(Reading { value: Seq::empty(), next: i, diags: Seq::empty() })
    } else if spec_trim(lines[i].text@).len() == 0 {
        spec_scene_list(lines, i + 1)
    } else if line_head(lines[i].text@) == "おわり"@ {
        match spec_scene_list(lines, i + 1) {
            Some(r2) => Some(Reading { value: r2.value, next: r2.next, diags: seq![stray_end_error(lines[i].span)] + r2.diags }),
            None => None,
        }
    } else {
        match spec_stmt_from_line(lines, lines[i].text@, lines[i].span, i + 1) {
            Some(r) => {
                let next = after_stmt(r);
                if i + 1 <= next <= lines.len() + 1 {
                    match spec_scene_list(lines, next) {
                        Some(r2) => Some(Reading { value: stmt_list(r.value) + r2.value, next: r2.next, diags: r.diags + r2.diags }),
                        None => None,
                    }
                } else {
                    None
                }
            },
            None => None,
        }
    }
}

/// The statements of a scene from a line `i` that is read as a statement: what that line
/// gives, then the statements after it.
proof fn lemma_scene_stmt(lines: Seq<LogicalLine>, i: int)
    requires
        0 <= i < lines.len(),
        !scene_header(lines[i]),
        spec_trim(lines[i].text@).len() != 0,
        line_head(lines[i].text@) != "おわり"@,
        spec_scene_list(lines, i) is Some,
    ensures
        spec_stmt_from_line(lines, lines[i].text@, lines[i].span, i + 1) is Some,
        i + 1 <= after_stmt(spec_stmt_from_line(lines, lines[i].text@, lines[i].span, i + 1)->Some_0) <= lines.len() + 1,
        spec_scene_list(lines, after_stmt(spec_stmt_from_line(lines, lines[i].text@, lines[i].span, i + 1)->Some_0)) is Some,
        ({
            let r = spec_stmt_from_line(lines, lines[i].text@, lines[i].span, i + 1)->Some_0;
            let r2 = spec_scene_list(lines, after_stmt(r))->Some_0;
            spec_scene_list(lines, i) == Some(Reading { value: stmt_list(r.value) + r2.value, next: r2.next, diags: r.diags + r2.diags })
        }),
{
}

impl DaihonParser {
    /// Reads the statements of a scene, as `spec_scene_list` says.
    #[verifier::rlimit(60)]
    #[verifier::spinoff_prover]
    pub fn parse_stmt_list_until_scene(&mut self) -> (r: Vec<Stmt>)
        requires
            lines_room(old(self).lines@),
            old(self).index <= old(self).lines@.len() + 1,
            spec_scene_list(old(self).lines@, old(self).index as int) is Some,
        ensures
            spec_scene_list(old(self).lines@, old(self).index as int) matches Some(rd) && stmts_match(r@, rd.value)
                && read_into(*old(self), *final(self), rd),
    {
        let ghost lines = self.lines@;
        let ghost i0 = self.index as int;
        let ghost start = self.diagnostics@;
        let mut statements: Vec<Stmt> = Vec::new();
        let ghost mut views: Seq<StmtView> = Seq::empty();
        let ghost mut added: Seq<DiagnosticView> = Seq::empty();
        proof {
            assert(diagnostic_views(start) + added =~= diagnostic_views(start));
            let rd = spec_scene_list(lines, i0)->Some_0;
            assert(views + rd.value =~= rd.value);
            assert(added + rd.diags =~= rd.diags);
        }
        while self.index < self.lines.len() && !is_scene_header(self.lines[self.index].text.as_str())
            invariant
                self.lines@ == lines,
                lines_room(lines),
                i0 <= self.index <= lines.len() + 1,
                spec_scene_list(lines, self.index as int) is Some,
                spec_scene_list(lines, i0) == (Some(Reading {
                    value: views + spec_scene_list(lines, self.index as int)->Some_0.value,
                    next: spec_scene_list(lines, self.index as int)->Some_0.next,
                    diags: added + spec_scene_list(lines, self.index as int)->Some_0.diags,
                })),
                stmts_match(statements@, views),
                diagnostic_views(self.diagnostics@) == diagnostic_views(start) + added,
            decreases lines.len() + 1 - self.index,
        {
            let line = copy_line(&self.lines[self.index]);
            let ghost i = self.index as int;
            let ghost rest_list = spec_scene_list(lines, i)->Some_0;
            proof {
                assert(line_room(lines[i]));
            }
            let lc = chars_of(line.text.as_str());
            let head = chars_of(normalize_line_head(line.text.as_str()).as_str());
            if trim_chars(lc.as_slice()).len() == 0 {
                self.index = self.index + 1;
            } else if is_lit(head.as_slice(), "おわり") {
                push_error(&mut self.diagnostics, "E-DHN-SYN-030", "対応する条件ブロックがない おわり があります。", line.span);
                self.index = self.index + 1;
                proof {
                    let r2 = spec_scene_list(lines, i + 1)->Some_0;
                    let old_added = added;
                    added = added.push(stray_end_error(line.span));
                    assert(old_added + rest_list.diags =~= added + r2.diags);
                    assert(views + rest_list.value =~= views + r2.value);
                }
            } else {
                proof {
                    lemma_scene_stmt(lines, i);
                }
                self.index = self.index + 1;
                let ghost sv = statements@;
                let ghost d_call = self.diagnostics@;
                let res = parse_stmt_from_line(&line, self);
                let ghost gres = res;
                match res {
                    Some(st) => {
                        statements.push(st);
                    },
                    None => {
                        self.index = self.index + 1;
                    },
                }
                proof {
                    let r = spec_stmt_from_line(lines, line.text@, line.span, i + 1)->Some_0;
                    let r2 = spec_scene_list(lines, self.index as int)->Some_0;
                    let old_views = views;
                    views = views + stmt_list(r.value);
                    let old_added = added;
                    added = added + r.diags;
                    assert(old_views + rest_list.value =~= views + r2.value);
                    assert(old_added + rest_list.diags =~= added + r2.diags);
                    assert(diagnostic_views(self.diagnostics@) == diagnostic_views(d_call) + r.diags);
                    assert((diagnostic_views(start) + old_added) + r.diags =~= diagnostic_views(start) + added);
                    if let Some(st) = gres {
                        lemma_stmts_push(sv, old_views, st, r.value->Some_0);
                        assert(views =~= old_views.push(r.value->Some_0));
                    } else {
                        assert(views =~= old_views);
                    }
                }
            }
        }
        proof {
            let rd = spec_scene_list(lines, self.index as int)->Some_0;
            assert(rd.value =~= Seq::<StmtView>::empty());
            assert(views + rd.value =~= views);
            assert(added + rd.diags =~= added);
        }
        statements
    }
}


// ---------------------------------------------------------------------------
// Preconditions of an event
// ---------------------------------------------------------------------------

/// The line is a precondition: marked `※`, its condition read, and `→おわり` after it.
pub open spec fn is_precondition(text: Seq<char>, span: Span) -> bool {
    let h = line_head(text);
    &&& h.len() > 0
    &&& h[0] == '※'
    &&& spec_split_condition_prefix(text, span) matches Parsed::Done(Some((_, _, rest)))
    &&& line_head(rest) == "→おわり"@
}

impl DaihonParser {
    /// Reads a precondition line: the condition read from it, ending the event when it
    /// holds, spanning the line; nothing for a line that is no precondition.
    pub fn parse_precondition_line(&self, line: &LogicalLine) -> (r: Option<ConditionalStmt>)
        requires
            line_room(*line),
            line_head(line.text@).len() > 0 && line_head(line.text@)[0] == '※' ==> !(spec_split_condition_prefix(
                line.text@,
                line.span,
            ) is Undefined),
        ensures
            r is Some <==> is_precondition(line.text@, line.span),
            r matches Some(c) ==> (spec_split_condition_prefix(line.text@, line.span) matches Parsed::Done(
                Some((inner, node, _)),
            ) && read_from(c.condition, node, inner, line.span) && *c.action == (Stmt::Jump(
                JumpTarget::EndEvent { span: line.span },
            )) && c.span == line.span),
    {
        let head = chars_of(normalize_line_head(line.text.as_str()).as_str());
        if !(head.len() > 0 && head[0] == '※') {
            return None;
        }
        let (condition, rest) = match split_condition_prefix(line.text.as_str(), line.span) {
            Some(v) => v,
            None => {
                return None;
            },
        };
        let rest_head = chars_of(normalize_line_head(rest.as_str()).as_str());
        if !is_lit(rest_head.as_slice(), "→おわり") {
            return None;
        }
        Some(ConditionalStmt {
            condition,
            action: Box::new(Stmt::Jump(JumpTarget::EndEvent { span: line.span })),
            span: line.span,
        })
    }
}


// ---------------------------------------------------------------------------
// Moving over lines
// ---------------------------------------------------------------------------

/// The first line from `i` on that is not blank (or the end).
pub open spec fn skip_blank(lines: Seq<LogicalLine>, i: int) -> int
    decreases lines.len() - i,
{
    if 0 <= i < lines.len() && spec_trim(lines[i].text@).len() == 0 {
        skip_blank(lines, i + 1)
    } else {
        i
    }
}

/// The current line opens the section named `key`: its normalized head is a metadata line
/// with that key.
pub open spec fn opens_section(lines: Seq<LogicalLine>, i: int, key: Seq<char>) -> bool {
    &&& 0 <= i < lines.len()
    &&& spec_split_metadata_line(line_head(lines[i].text@)) matches Some((actual, _))
    &&& actual == key
}

impl DaihonParser {
    /// Moves past blank lines, as `skip_blank` says; nothing else changes.
    pub fn skip_empty(&mut self)
        requires
            old(self).index <= old(self).lines@.len(),
        ensures
            final(self).index == skip_blank(old(self).lines@, old(self).index as int),
            final(self).lines@ == old(self).lines@,
            final(self).diagnostics@ == old(self).diagnostics@,
    {
        while self.index < self.lines.len() && trim_chars(chars_of(self.lines[self.index].text.as_str()).as_slice()).len() == 0
            invariant
                self.index <= self.lines@.len(),
                self.lines@ == old(self).lines@,
                self.diagnostics@ == old(self).diagnostics@,
                skip_blank(self.lines@, self.index as int) == skip_blank(old(self).lines@, old(self).index as int),
            decreases self.lines@.len() - self.index,
        {
            self.index = self.index + 1;
        }
    }

    /// Whether the current line opens the section named `key`, as `opens_section` says.
    pub fn current_is_section(&self, key: &str) -> (r: bool)
        ensures
            r == opens_section(self.lines@, self.index as int, key@),
    {
        if self.index >= self.lines.len() {
            return false;
        }
        let head = normalize_line_head(self.lines[self.index].text.as_str());
        match split_metadata_line(head.as_str()) {
            Some((actual, _)) => {
                let a = chars_of(actual.as_str());
                let k = chars_of(key);
                chars_eq(a.as_slice(), k.as_slice())
            },
            None => false,
        }
    }

    /// Reads the statement on the current line, as `spec_stmt_from_line` says for the line
    /// after it; nothing is read past the last line.
    pub fn parse_stmt(&mut self) -> (r: Option<Stmt>)
        requires
            lines_room(old(self).lines@),
            old(self).index <= old(self).lines@.len(),
            old(self).index < old(self).lines@.len() ==> spec_stmt_from_line(
                old(self).lines@,
                old(self).lines@[old(self).index as int].text@,
                old(self).lines@[old(self).index as int].span,
                old(self).index + 1,
            ) is Some,
        ensures
            old(self).index >= old(self).lines@.len() ==> r is None && *final(self) == *old(self),
            old(self).index < old(self).lines@.len() ==> (spec_stmt_from_line(
                old(self).lines@,
                old(self).lines@[old(self).index as int].text@,
                old(self).lines@[old(self).index as int].span,
                old(self).index + 1,
            ) matches Some(rd) && opt_stmt_matches(r, rd.value) && final(self).lines@ == old(self).lines@
                && final(self).index == rd.next && diagnostic_views(final(self).diagnostics@) == diagnostic_views(
                old(self).diagnostics@,
            ) + rd.diags),
    {
        if self.index >= self.lines.len() {
            return None;
        }
        let line = copy_line(&self.lines[self.index]);
        proof {
            assert(line_room(self.lines@[self.index as int]));
        }
        self.index = self.index + 1;
        parse_stmt_from_line(&line, self)
    }
}

} // verus!
