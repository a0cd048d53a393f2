use vstd::prelude::*;
use vstd::utf8::*;

use crate::lexer::{char_len_utf8, lemma_pos_bounded, lemma_pos_byte_is_encoding, lemma_pos_monotone, pos_at, utf8_width};
use crate::span::Span;
use crate::runtime::kept_choices;
use crate::ast::{JumpTarget, TimeOfDay};
use crate::diagnostic::{DaihonDiagnostic, Severity};
use crate::lexer::{normalize_char, normalize_char_exec, normalize_chars, normalize_seq};
use crate::span::Spanned;
use crate::text::{all_ascii_digits, char_is_whitespace, is_whitespace, chars_eq, chars_of, chars_start_with, leading_ws, seq_starts_with, digits_value, is_ascii_digit, opt_view, parse_u64, parse_unsigned, range_string, spec_trim, str_is, string_of, string_views, trim_chars, unsigned_body};
use crate::variable::VariableRef;

verus! {

// ---------------------------------------------------------------------------
// Logical lines
// ---------------------------------------------------------------------------

/// A line of a script as the parser reads it: line breaks inside a dialogue or a function
/// call do not end it, and a `$$` (or `＄＄`) comment is cut off.
#[derive(Clone, Debug, PartialEq, Eq)]
pub struct LogicalLine {
    pub text: String,
    pub span: Span,
}

/// Where the line splitter is: inside a dialogue, how deep inside function calls, inside a
/// string of a function call; where a comment cut the current line; where the current line
/// starts (a character index); and the number of the current logical line.
pub struct LineScan {
    pub dialogue: bool,
    pub depth: nat,
    pub fstring: bool,
    pub cut: Option<int>,
    pub start: int,
    pub line: nat,
}

/// The characters `a` then `b` start at `i`.
pub open spec fn at_pair(src: Seq<char>, i: int, a: char, b: char) -> bool {
    0 <= i && i + 1 < src.len() && src[i] == a && src[i + 1] == b
}

/// The character after `i` is `c`.
pub open spec fn next_is(src: Seq<char>, i: int, c: char) -> bool {
    0 <= i && i + 1 < src.len() && src[i + 1] == c
}

/// A line break character.
pub open spec fn is_line_break(c: char) -> bool {
    c == '\n' || c == '\r'
}

/// Outside any dialogue, function call and string.
pub open spec fn quiet(s: LineScan) -> bool {
    !s.dialogue && !s.fstring && s.depth == 0
}

/// The first line break at or after `i`, or the end.
pub open spec fn comment_end(src: Seq<char>, i: int) -> int
    decreases src.len() - i,
{
    if i < 0 || i >= src.len() || is_line_break(src[i]) {
        i
    } else {
        comment_end(src, i + 1)
    }
}

/// The splitter's flags after reading the character at `i`.
pub open spec fn flags_after(src: Seq<char>, i: int, s: LineScan) -> LineScan {
    let c = src[i];
    if s.dialogue {
        if s.depth > 0 {
            if s.fstring {
                if c == '」' { LineScan { fstring: false, ..s } } else { s }
            } else if c == '「' {
                LineScan { fstring: true, ..s }
            } else if c == '＜' {
                LineScan { depth: s.depth + 1, ..s }
            } else if c == '＞' {
                LineScan { depth: (s.depth - 1) as nat, ..s }
            } else {
                s
            }
        } else if c == '＜' && !next_is(src, i, '＜') {
            LineScan { depth: s.depth + 1, ..s }
        } else if c == '」' {
            LineScan { dialogue: false, ..s }
        } else {
            s
        }
    } else if s.fstring {
        if c == '」' && !next_is(src, i, '」') { LineScan { fstring: false, ..s } } else { s }
    } else if s.depth > 0 {
        if c == '「' {
            LineScan { fstring: true, ..s }
        } else if c == '＜' {
            LineScan { depth: s.depth + 1, ..s }
        } else if c == '＞' {
            LineScan { depth: (s.depth - 1) as nat, ..s }
        } else {
            s
        }
    } else if c == '「' {
        LineScan { dialogue: true, ..s }
    } else if c == '＜' {
        LineScan { depth: s.depth + 1, ..s }
    } else {
        s
    }
}

/// One step of the splitter at character `i`: where it continues, its new state, and the
/// line it ends, as (first character, character after its text, line number).
pub open spec fn line_step(src: Seq<char>, i: int, s: LineScan) -> (int, LineScan, Option<(int, int, nat)>) {
    if quiet(s) && (at_pair(src, i, '$', '$') || at_pair(src, i, '＄', '＄')) {
        let cut = match s.cut {
            Some(c) => c,
            None => i,
        };
        (comment_end(src, i), LineScan { cut: Some(cut), ..s }, None)
    } else if s.dialogue && s.depth > 0 && s.fstring && src[i] == '」' && next_is(src, i, '」') {
        (i + 2, s, None)
    } else if s.dialogue && s.depth == 0 && ((src[i] == '」' && next_is(src, i, '」')) || (src[i]
        == '「' && next_is(src, i, '「'))) {
        (i + 2, s, None)
    } else {
        let t = flags_after(src, i, s);
        if is_line_break(src[i]) && quiet(t) {
            let end = match t.cut {
                Some(x) => x,
                None => i,
            };
            let next = if src[i] == '\r' && next_is(src, i, '\n') { i + 2 } else { i + 1 };
            (next, LineScan { cut: None, start: next, line: t.line + 1, ..t }, Some((t.start, end, t.line)))
        } else {
            (i + 1, t, None)
        }
    }
}

/// The line left when the text ends, unless it is empty.
pub open spec fn last_line(src: Seq<char>, s: LineScan) -> Seq<(int, int, nat)> {
    let end = match s.cut {
        Some(x) => x,
        None => src.len() as int,
    };
    if s.start < end {
        seq![(s.start, end, s.line)]
    } else {
        Seq::empty()
    }
}

/// The lines the splitter ends from character `i` on.
pub open spec fn line_walk(src: Seq<char>, i: int, s: LineScan) -> Seq<(int, int, nat)>
    decreases src.len() - i,
{
    if i < 0 || i >= src.len() {
        last_line(src, s)
    } else {
        let (j, t, e) = line_step(src, i, s);
        if j <= i || j > src.len() {
            Seq::empty()
        } else {
            let rest = line_walk(src, j, t);
            match e {
                Some(l) => seq![l] + rest,
                None => rest,
            }
        }
    }
}

/// The splitter's state at the start of a text.
pub open spec fn initial_scan() -> LineScan {
    LineScan { dialogue: false, depth: 0, fstring: false, cut: None, start: 0, line: 1 }
}

/// The logical lines of a text, as (first character, character after the text, line number).
pub open spec fn spec_logical_lines(src: Seq<char>) -> Seq<(int, int, nat)> {
    line_walk(src, 0, initial_scan())
}

/// A logical line as text and span: the text between its characters, bytes counted in
/// UTF-8, its logical line number, and column 1.
pub open spec fn line_of(src: Seq<char>, r: (int, int, nat)) -> (Seq<char>, Span) {
    (
        src.subrange(r.0, r.1),
        Span {
            start: pos_at(src, r.0).0 as usize,
            end: pos_at(src, r.1).0 as usize,
            line: r.2 as usize,
            column: 1,
        },
    )
}

/// A logical line as text and span.
pub open spec fn line_view(l: LogicalLine) -> (Seq<char>, Span) {
    (l.text@, l.span)
}

/// The splitter's state is consistent at character `i`.
pub open spec fn scan_ok(src: Seq<char>, i: int, s: LineScan) -> bool {
    &&& 0 <= s.start <= i <= src.len()
    &&& s.depth <= i
    &&& 1 <= s.line <= i + 1
    &&& match s.cut {
        Some(c) => s.start <= c <= i,
        None => true,
    }
}

proof fn lemma_comment_end(src: Seq<char>, i: int)
    requires
        0 <= i <= src.len(),
    ensures
        i <= comment_end(src, i) <= src.len(),
        forall|k: int| i <= k < comment_end(src, i) ==> !#[trigger] is_line_break(src[k]),
    decreases src.len() - i,
{
    if i < src.len() && !is_line_break(src[i]) {
        lemma_comment_end(src, i + 1);
    }
}

/// Every step moves forward and keeps the state consistent; every line it ends lies between
/// the current line start and the step's end.
proof fn lemma_step_ok(src: Seq<char>, i: int, s: LineScan)
    requires
        0 <= i < src.len(),
        scan_ok(src, i, s),
    ensures
        ({
            let (j, t, e) = line_step(src, i, s);
            &&& i < j <= src.len()
            &&& scan_ok(src, j, t)
            &&& (e matches Some(l) ==> s.start == l.0 && l.0 <= l.1 <= i && t.start == j)
            &&& (e is None ==> t.start == s.start)
        }),
{
    if quiet(s) && (at_pair(src, i, '$', '$') || at_pair(src, i, '＄', '＄')) {
        lemma_comment_end(src, i);
        lemma_comment_end(src, i + 2);
        assert(!is_line_break(src[i]));
        assert(!is_line_break(src[i + 1]));
        assert(comment_end(src, i) == comment_end(src, i + 1));
        assert(comment_end(src, i + 1) == comment_end(src, i + 2));
    }
}

/// The lines ended from `i` on lie after the current line start, in order.
proof fn lemma_walk_ordered(src: Seq<char>, i: int, s: LineScan)
    requires
        scan_ok(src, i, s),
    ensures
        forall|k: int| 0 <= k < line_walk(src, i, s).len() ==> s.start <= #[trigger] line_walk(
            src, i, s)[k].0 <= line_walk(src, i, s)[k].1 <= src.len(),
        forall|k: int, m: int| 0 <= k < m < line_walk(src, i, s).len() ==> #[trigger] line_walk(
            src, i, s)[k].1 <= #[trigger] line_walk(src, i, s)[m].0,
    decreases src.len() - i,
{
    if 0 <= i < src.len() {
        let (j, t, e) = line_step(src, i, s);
        lemma_step_ok(src, i, s);
        lemma_walk_ordered(src, j, t);
        let rest = line_walk(src, j, t);
        if let Some(l) = e {
            assert(line_walk(src, i, s) == seq![l] + rest);
            assert forall|k: int, m: int| 0 <= k < m < line_walk(src, i, s).len() implies
                #[trigger] line_walk(src, i, s)[k].1 <= #[trigger] line_walk(src, i, s)[m].0 by {
                if k == 0 {
                    assert(line_walk(src, i, s)[m] == rest[m - 1]);
                } else {
                    assert(line_walk(src, i, s)[k] == rest[k - 1]);
                    assert(line_walk(src, i, s)[m] == rest[m - 1]);
                }
            }
            assert forall|k: int| 0 <= k < line_walk(src, i, s).len() implies s.start
                <= #[trigger] line_walk(src, i, s)[k].0 <= line_walk(src, i, s)[k].1 <= src.len() by {
                if k > 0 {
                    assert(line_walk(src, i, s)[k] == rest[k - 1]);
                }
            }
        }
    }
}

/// The logical lines lie inside the text, in order and without overlapping.
pub proof fn lemma_logical_lines_ordered(src: Seq<char>)
    ensures
        forall|k: int| 0 <= k < spec_logical_lines(src).len() ==> 0 <= #[trigger] spec_logical_lines(
            src)[k].0 <= spec_logical_lines(src)[k].1 <= src.len(),
        forall|k: int, m: int| 0 <= k < m < spec_logical_lines(src).len() ==> #[trigger] spec_logical_lines(
            src)[k].1 <= #[trigger] spec_logical_lines(src)[m].0,
{
    lemma_walk_ordered(src, 0, initial_scan());
}

} // verus!
verus! {

/// The splitter's state held in machine integers.
pub open spec fn scan_of(dialogue: bool, depth: usize, fstring: bool, cut: Option<usize>, start: usize,
    line: usize) -> LineScan {
    LineScan {
        dialogue,
        depth: depth as nat,
        fstring,
        cut: match cut {
            Some(c) => Some(c as int),
            None => None,
        },
        start: start as int,
        line: line as nat,
    }
}

/// Logical lines as texts and spans.
pub open spec fn line_views(v: Seq<LogicalLine>) -> Seq<(Seq<char>, Span)> {
    v.map_values(|l: LogicalLine| line_view(l))
}

/// Line ranges as texts and spans.
pub open spec fn ranges_as_lines(src: Seq<char>, v: Seq<(int, int, nat)>) -> Seq<(Seq<char>, Span)> {
    v.map_values(|r: (int, int, nat)| line_of(src, r))
}

/// The UTF-8 byte offset of every character position, the end included.
pub(crate) fn byte_offsets(cs: &Vec<char>) -> (v: Vec<usize>)
    requires
        encode_utf8(cs@).len() < usize::MAX,
    ensures
        v@.len() == cs@.len() + 1,
        forall|k: int| 0 <= k <= cs@.len() ==> #[trigger] v@[k] == pos_at(cs@, k).0,
{
    let mut v: Vec<usize> = Vec::new();
    let mut acc: usize = 0;
    v.push(0);
    let mut i: usize = 0;
    while i < cs.len()
        invariant
            encode_utf8(cs@).len() < usize::MAX,
            i <= cs@.len(),
            v@.len() == i + 1,
            acc == pos_at(cs@, i as int).0,
            forall|k: int| 0 <= k <= i ==> #[trigger] v@[k] == pos_at(cs@, k).0,
        decreases cs@.len() - i,
    {
        proof {
            lemma_pos_bounded(cs@, i + 1);
        }
        acc = acc + char_len_utf8(cs[i]);
        v.push(acc);
        i += 1;
    }
    v
}

/// The logical lines of a script: the text is cut at line breaks (`\r\n` counting as one)
/// that stand outside dialogues, function calls and their strings; a `$$` or `＄＄` there
/// cuts the rest of its line off as a comment; a last line that is empty is dropped. Each
/// line's span gives its UTF-8 byte range, its logical line number, and column 1.
pub fn logical_lines(source: &str) -> (lines: Vec<LogicalLine>)
    requires
        encode_utf8(source@).len() < usize::MAX,
    ensures
        line_views(lines@) == ranges_as_lines(source@, spec_logical_lines(source@)),
{
    let cs = chars_of(source);
    let offs = byte_offsets(&cs);
    let n = cs.len();
    let ghost src = cs@;
    let mut lines: Vec<LogicalLine> = Vec::new();
    let mut dialogue = false;
    let mut depth: usize = 0;
    let mut fstring = false;
    let mut cut: Option<usize> = None;
    let mut start: usize = 0;
    let mut line: usize = 1;
    let mut i: usize = 0;
    proof {
        assert(ranges_as_lines(src, spec_logical_lines(src)) =~= line_views(lines@) + ranges_as_lines(
            src, line_walk(src, 0, scan_of(dialogue, depth, fstring, cut, start, line))));
        lemma_pos_bounded(src, n as int);
        lemma_pos_monotone(src, 0, n as int);
    }
    while i < n
        invariant
            n < usize::MAX,
            src == cs@,
            src == source@,
            n == src.len(),
            encode_utf8(src).len() < usize::MAX,
            offs@.len() == n + 1,
            forall|k: int| 0 <= k <= n ==> #[trigger] offs@[k] == pos_at(src, k).0,
            scan_ok(src, i as int, scan_of(dialogue, depth, fstring, cut, start, line)),
            ranges_as_lines(src, spec_logical_lines(src)) == line_views(lines@) + ranges_as_lines(
                src, line_walk(src, i as int, scan_of(dialogue, depth, fstring, cut, start, line))),
        decreases n - i,
    {
        let ghost s = scan_of(dialogue, depth, fstring, cut, start, line);
        let ghost step = line_step(src, i as int, s);
        proof {
            lemma_step_ok(src, i as int, s);
        }
        let ghost before = lines@;
        let c = cs[i];
        let has_next = i + 1 < n;
        if !dialogue && !fstring && depth == 0 && has_next && ((c == '$' && cs[i + 1] == '$') || (c
            == '＄' && cs[i + 1] == '＄')) {
            if cut.is_none() {
                cut = Some(i);
            }
            let mut k = i;
            while k < n && cs[k] != '\n' && cs[k] != '\r'
                invariant
                    src == cs@,
                    n == src.len(),
                    i <= k <= n,
                    comment_end(src, k as int) == comment_end(src, i as int),
                decreases n - k,
            {
                k += 1;
            }
            i = k;
        } else if dialogue && depth > 0 && fstring && c == '」' && has_next && cs[i + 1] == '」' {
            i = i + 2;
        } else if dialogue && depth == 0 && has_next && ((c == '」' && cs[i + 1] == '」') || (c == '「'
            && cs[i + 1] == '「')) {
            i = i + 2;
        } else {
            if dialogue {
                if depth > 0 {
                    if fstring {
                        if c == '」' {
                            fstring = false;
                        }
                    } else if c == '「' {
                        fstring = true;
                    } else if c == '＜' {
                        depth = depth + 1;
                    } else if c == '＞' {
                        depth = depth - 1;
                    }
                } else if c == '＜' && !(has_next && cs[i + 1] == '＜') {
                    depth = depth + 1;
                } else if c == '」' {
                    dialogue = false;
                }
            } else if fstring {
                if c == '」' && !(has_next && cs[i + 1] == '」') {
                    fstring = false;
                }
            } else if depth > 0 {
                if c == '「' {
                    fstring = true;
                } else if c == '＜' {
                    depth = depth + 1;
                } else if c == '＞' {
                    depth = depth - 1;
                }
            } else if c == '「' {
                dialogue = true;
            } else if c == '＜' {
                depth = depth + 1;
            }
            proof {
                assert(scan_of(dialogue, depth, fstring, cut, start, line) == flags_after(src, i as int, s));
            }
            if (c == '\n' || c == '\r') && !dialogue && !fstring && depth == 0 {
                let end = match cut {
                    Some(x) => x,
                    None => i,
                };
                let text = range_string(&cs, start, end);
                let span = Span::new(offs[start], offs[end], line, 1);
                lines.push(LogicalLine { text, span });
                let next = if c == '\r' && has_next && cs[i + 1] == '\n' {
                    i + 2
                } else {
                    i + 1
                };
                i = next;
                start = next;
                line = line + 1;
                cut = None;
            } else {
                i = i + 1;
            }
        }
        proof {
            let (j, t, e) = step;
            assert(i as int == j);
            assert(scan_of(dialogue, depth, fstring, cut, start, line) == t);
            let walk_here = line_walk(src, j, t);
            match e {
                Some(l) => {
                    assert(lines@ == before.push(lines@.last()));
                    assert(line_view(lines@.last()) == line_of(src, l));
                    assert(line_views(lines@) =~= line_views(before) + seq![line_of(src, l)]);
                    assert(ranges_as_lines(src, seq![l] + walk_here) =~= seq![line_of(src, l)]
                        + ranges_as_lines(src, walk_here));
                },
                None => {
                    assert(lines@ == before);
                },
            }
        }
    }
    let end = match cut {
        Some(x) => x,
        None => n,
    };
    let ghost before = lines@;
    if start < end {
        let text = range_string(&cs, start, end);
        let span = Span::new(offs[start], offs[end], line, 1);
        lines.push(LogicalLine { text, span });
        proof {
            assert(line_views(lines@) =~= line_views(before) + seq![line_view(lines@.last())]);
        }
    }
    proof {
        let s = scan_of(dialogue, depth, fstring, cut, start, line);
        assert(line_walk(src, i as int, s) == last_line(src, s));
        assert(line_views(lines@) =~= ranges_as_lines(src, spec_logical_lines(src)));
    }
    lines
}

} // verus!
verus! {

// ---------------------------------------------------------------------------
// Function arguments
// ---------------------------------------------------------------------------

/// Where the argument splitter is: inside a string, how deep in parentheses and in
/// function calls (either may go negative on unbalanced input).
pub struct ArgScan {
    pub string: bool,
    pub paren: int,
    pub function: int,
}

/// A character that separates arguments outside brackets.
pub open spec fn is_arg_space(c: char) -> bool {
    c == ' ' || c == '\t' || c == '　'
}

/// The splitter's state after the character `c`, and whether `c` ends an argument.
pub open spec fn arg_step(c: char, s: ArgScan) -> (ArgScan, bool) {
    if s.string {
        (if c == '」' { ArgScan { string: false, ..s } } else { s }, false)
    } else if c == '「' {
        (ArgScan { string: true, ..s }, false)
    } else if c == '（' || c == '(' {
        (ArgScan { paren: s.paren + 1, ..s }, false)
    } else if c == '）' || c == ')' {
        (ArgScan { paren: s.paren - 1, ..s }, false)
    } else if c == '＜' {
        (ArgScan { function: s.function + 1, ..s }, false)
    } else if c == '＞' {
        (ArgScan { function: s.function - 1, ..s }, false)
    } else if is_arg_space(c) && s.paren == 0 && s.function == 0 {
        (s, true)
    } else {
        (s, false)
    }
}

/// The raw pieces of `src[i..]`, the first one continuing `piece`.
pub open spec fn arg_pieces(src: Seq<char>, i: int, s: ArgScan, piece: Seq<char>) -> Seq<Seq<char>>
    decreases src.len() - i,
{
    if i < 0 || i >= src.len() {
        seq![piece]
    } else {
        let (t, split) = arg_step(src[i], s);
        if split {
            seq![piece] + arg_pieces(src, i + 1, t, Seq::empty())
        } else {
            arg_pieces(src, i + 1, t, piece.push(src[i]))
        }
    }
}

/// The arguments of a function call's content: it is cut at blanks outside strings,
/// parentheses and nested calls; each piece is trimmed and empty pieces are dropped.
pub open spec fn spec_function_args(src: Seq<char>) -> Seq<Seq<char>> {
    kept_choices(arg_pieces(src, 0, ArgScan { string: false, paren: 0, function: 0 }, Seq::empty()))
}

/// One piece is kept trimmed, unless nothing is left of it.
proof fn lemma_kept_single(p: Seq<char>)
    ensures
        kept_choices(seq![p]) == if spec_trim(p).len() == 0 {
            Seq::<Seq<char>>::empty()
        } else {
            seq![spec_trim(p)]
        },
{
    assert(seq![p].drop_last() =~= Seq::<Seq<char>>::empty());
    assert(kept_choices(Seq::<Seq<char>>::empty()) == Seq::<Seq<char>>::empty());
    assert(seq![p].last() == p);
    assert(Seq::<Seq<char>>::empty().push(spec_trim(p)) =~= seq![spec_trim(p)]);
}

/// Keeping the trimmed, non-empty pieces distributes over joining piece lists.
proof fn lemma_kept_append(a: Seq<Seq<char>>, b: Seq<Seq<char>>)
    ensures
        kept_choices(a + b) == kept_choices(a) + kept_choices(b),
    decreases b.len(),
{
    if b.len() == 0 {
        assert(a + b =~= a);
        assert(kept_choices(a) + kept_choices(b) =~= kept_choices(a));
    } else {
        assert((a + b).drop_last() =~= a + b.drop_last());
        lemma_kept_append(a, b.drop_last());
        let t = spec_trim(b.last());
        if t.len() == 0 {
        } else {
            assert(kept_choices(a) + kept_choices(b.drop_last()).push(t) =~= (kept_choices(a)
                + kept_choices(b.drop_last())).push(t));
        }
    }
}

/// The arguments in a function call's content, split at blanks outside strings,
/// parentheses and nested calls, each trimmed, empty ones dropped.
pub fn split_function_args(content: &str) -> (args: Vec<String>)
    requires
        content@.len() <= i32::MAX,
    ensures
        string_views(args@) == spec_function_args(content@),
{
    let cs = chars_of(content);
    let ghost src = cs@;
    let mut args: Vec<String> = Vec::new();
    let mut cur: Vec<char> = Vec::new();
    let mut string = false;
    let mut paren: i32 = 0;
    let mut function: i32 = 0;
    let mut i: usize = 0;
    while i < cs.len()
        invariant
            src == cs@,
            src == content@,
            src.len() <= i32::MAX,
            i <= src.len(),
            -(i as int) <= paren <= i,
            -(i as int) <= function <= i,
            spec_function_args(src) == string_views(args@) + kept_choices(arg_pieces(src, i as int,
                ArgScan { string, paren: paren as int, function: function as int }, cur@)),
        decreases src.len() - i,
    {
        let c = cs[i];
        let ghost s = ArgScan { string, paren: paren as int, function: function as int };
        let ghost old_cur = cur@;
        let ghost before = args@;
        if string {
            if c == '」' {
                string = false;
            }
            cur.push(c);
        } else if c == '「' {
            string = true;
            cur.push(c);
        } else if c == '（' || c == '(' {
            paren = paren + 1;
            cur.push(c);
        } else if c == '）' || c == ')' {
            paren = paren - 1;
            cur.push(c);
        } else if c == '＜' {
            function = function + 1;
            cur.push(c);
        } else if c == '＞' {
            function = function - 1;
            cur.push(c);
        } else if (c == ' ' || c == '\t' || c == '　') && paren == 0 && function == 0 {
            let t = trim_chars(cur.as_slice());
            if t.len() > 0 {
                args.push(string_of(t.as_slice()));
            }
            cur = Vec::new();
            proof {
                let rest = arg_pieces(src, i + 1, s, Seq::empty());
                lemma_kept_append(seq![old_cur], rest);
                lemma_kept_single(old_cur);
                assert(string_views(args@) =~= string_views(before) + kept_choices(seq![old_cur]));
                assert(string_views(args@) + kept_choices(rest) =~= string_views(before)
                    + kept_choices(seq![old_cur] + rest));
            }
        } else {
            cur.push(c);
        }
        i += 1;
    }
    let t = trim_chars(cur.as_slice());
    let ghost before = args@;
    if t.len() > 0 {
        args.push(string_of(t.as_slice()));
    }
    proof {
        lemma_kept_single(cur@);
        assert(string_views(args@) =~= string_views(before) + kept_choices(seq![cur@]));
    }
    args
}

// ---------------------------------------------------------------------------
// Assignments
// ---------------------------------------------------------------------------

/// Where the assignment finder is: inside a dialogue string, how deep in parentheses and
/// in function calls.
pub struct AssignScan {
    pub dialogue: bool,
    pub paren: int,
    pub function: int,
}

/// The `=` at `i` (half or full width) is an assignment's: at the outer level and not part
/// of `!=`, `<=`, `>=` or `==`.
pub open spec fn assignment_at(src: Seq<char>, i: int, s: AssignScan) -> bool {
    &&& !s.dialogue
    &&& (src[i] == '=' || src[i] == '＝')
    &&& s.paren == 0
    &&& s.function == 0
    &&& !(i > 0 && (src[i - 1] == '!' || src[i - 1] == '<' || src[i - 1] == '>'))
    &&& !next_is(src, i, '=')
}

/// The finder's state after the character at `i`.
pub open spec fn assign_step(c: char, s: AssignScan) -> AssignScan {
    if s.dialogue {
        if c == '」' { AssignScan { dialogue: false, ..s } } else { s }
    } else if c == '「' {
        AssignScan { dialogue: true, ..s }
    } else if c == '＜' {
        AssignScan { function: s.function + 1, ..s }
    } else if c == '＞' {
        AssignScan { function: s.function - 1, ..s }
    } else if c == '(' || c == '（' {
        AssignScan { paren: s.paren + 1, ..s }
    } else if c == ')' || c == '）' {
        AssignScan { paren: s.paren - 1, ..s }
    } else {
        s
    }
}

/// The character index of the first assignment `=` from `i` on.
pub open spec fn assignment_from(src: Seq<char>, i: int, s: AssignScan) -> Option<int>
    decreases src.len() - i,
{
    if i < 0 || i >= src.len() {
        None
    } else if assignment_at(src, i, s) {
        Some(i)
    } else {
        assignment_from(src, i + 1, assign_step(src[i], s))
    }
}

/// The first assignment `=` from `i` on lies at or after `i`, inside the text, and is an `=`.
pub proof fn lemma_assignment_range(src: Seq<char>, i: int, s: AssignScan)
    ensures
        assignment_from(src, i, s) matches Some(k) ==> 0 <= i <= k < src.len() && (src[k] == '='
            || src[k] == '＝'),
    decreases src.len() - i,
{
    if 0 <= i < src.len() && !assignment_at(src, i, s) {
        lemma_assignment_range(src, i + 1, assign_step(src[i], s));
    }
}

/// The character index of the first assignment `=` of a line (half or full width) that
/// stands outside dialogue strings, parentheses and function calls and is not part of
/// `!=`, `<=`, `>=` or `==`.
pub(crate) fn assignment_index(cs: &Vec<char>) -> (r: Option<usize>)
    requires
        cs@.len() <= i32::MAX,
    ensures
        match assignment_from(cs@, 0, AssignScan { dialogue: false, paren: 0, function: 0 }) {
            Some(i) => r == Some(i as usize),
            None => r is None,
        },
{
    let ghost src = cs@;
    let mut dialogue = false;
    let mut paren: i32 = 0;
    let mut function: i32 = 0;
    let mut i: usize = 0;
    while i < cs.len()
        invariant
            src == cs@,
            src.len() <= i32::MAX,
            i <= src.len(),
            -(i as int) <= paren <= i,
            -(i as int) <= function <= i,
            assignment_from(src, 0, AssignScan { dialogue: false, paren: 0, function: 0 })
                == assignment_from(src, i as int, AssignScan { dialogue, paren: paren as int, function: function as int }),
        decreases src.len() - i,
    {
        let c = cs[i];
        if !dialogue && (c == '=' || c == '＝') && paren == 0 && function == 0 {
            let after_op = i > 0 && (cs[i - 1] == '!' || cs[i - 1] == '<' || cs[i - 1] == '>');
            let doubled = i + 1 < cs.len() && cs[i + 1] == '=';
            if !after_op && !doubled {
                return Some(i);
            }
        }
        if dialogue {
            if c == '」' {
                dialogue = false;
            }
        } else if c == '「' {
            dialogue = true;
        } else if c == '＜' {
            function = function + 1;
        } else if c == '＞' {
            function = function - 1;
        } else if c == '(' || c == '（' {
            paren = paren + 1;
        } else if c == ')' || c == '）' {
            paren = paren - 1;
        }
        i += 1;
    }
    None
}

/// The byte offset of the first assignment `=` of a line (half or full width) that stands
/// outside dialogue strings, parentheses and function calls and is not part of `!=`, `<=`,
/// `>=` or `==`.
pub fn find_assignment_index(text: &str) -> (r: Option<usize>)
    requires
        encode_utf8(text@).len() < usize::MAX,
        text@.len() <= i32::MAX,
    ensures
        match assignment_from(text@, 0, AssignScan { dialogue: false, paren: 0, function: 0 }) {
            Some(i) => r == Some(pos_at(text@, i).0 as usize),
            None => r is None,
        },
{
    let cs = chars_of(text);
    match assignment_index(&cs) {
        Some(i) => {
            proof {
                lemma_assignment_range(cs@, 0, AssignScan { dialogue: false, paren: 0, function: 0 });
            }
            let off = byte_offsets(&cs);
            Some(off[i])
        },
        None => None,
    }
}

} // verus!
verus! {

// ---------------------------------------------------------------------------
// Metadata keys
// ---------------------------------------------------------------------------

/// The smaller of two numbers.
pub open spec fn min_nat(a: nat, b: nat) -> nat {
    if a <= b { a } else { b }
}

/// The edit distance between two character sequences: the fewest single-character
/// insertions, deletions and substitutions that turn one into the other.
pub open spec fn edit_distance(a: Seq<char>, b: Seq<char>) -> nat
    decreases a.len() + b.len(),
{
    if a.len() == 0 {
        b.len()
    } else if b.len() == 0 {
        a.len()
    } else {
        min_nat(
            min_nat(edit_distance(a.drop_last(), b) + 1, edit_distance(a, b.drop_last()) + 1),
            edit_distance(a.drop_last(), b.drop_last()) + if a.last() == b.last() { 0nat } else { 1nat },
        )
    }
}

proof fn lemma_edit_distance_bounded(a: Seq<char>, b: Seq<char>)
    ensures
        edit_distance(a, b) <= a.len() + b.len(),
    decreases a.len() + b.len(),
{
    if a.len() > 0 && b.len() > 0 {
        lemma_edit_distance_bounded(a.drop_last(), b);
    }
}

/// The edit distance between two strings, counted in characters.
pub fn char_levenshtein(left: &str, right: &str) -> (d: usize)
    requires
        left@.len() + right@.len() < usize::MAX,
    ensures
        d == edit_distance(left@, right@),
{
    let a = chars_of(left);
    let b = chars_of(right);
    let m = b.len();
    let mut previous: Vec<usize> = Vec::new();
    let mut j: usize = 0;
    while j <= m
        invariant
            m == b@.len(),
            m < usize::MAX,
            j <= m + 1,
            previous@.len() == j,
            forall|k: int| 0 <= k < j ==> #[trigger] previous@[k] == edit_distance(Seq::<char>::empty(), b@.take(k)),
        decreases m + 1 - j,
    {
        previous.push(j);
        j += 1;
    }
    let mut i: usize = 0;
    while i < a.len()
        invariant
            a@ == left@,
            b@ == right@,
            m == b@.len(),
            a@.len() + m < usize::MAX,
            i <= a@.len(),
            previous@.len() == m + 1,
            forall|k: int| 0 <= k <= m ==> #[trigger] previous@[k] == edit_distance(a@.take(i as int), b@.take(k)),
        decreases a@.len() - i,
    {
        let ghost ai = a@.take(i as int);
        let ghost ai1 = a@.take(i as int + 1);
        proof {
            assert(ai1.drop_last() =~= ai);
            assert(ai1.last() == a@[i as int]);
            assert(b@.take(0) =~= Seq::<char>::empty());
        }
        let mut current: Vec<usize> = Vec::new();
        current.push(i + 1);
        let mut k: usize = 0;
        while k < m
            invariant
                a@ == left@,
                b@ == right@,
                m == b@.len(),
                a@.len() + m < usize::MAX,
                i < a@.len(),
                ai == a@.take(i as int),
                ai1 == a@.take(i as int + 1),
                ai1.drop_last() == ai,
                ai1.last() == a@[i as int],
                previous@.len() == m + 1,
                forall|x: int| 0 <= x <= m ==> #[trigger] previous@[x] == edit_distance(ai, b@.take(x)),
                k <= m,
                current@.len() == k + 1,
                forall|x: int| 0 <= x <= k ==> #[trigger] current@[x] == edit_distance(ai1, b@.take(x)),
            decreases m - k,
        {
            let ghost bk1 = b@.take(k as int + 1);
            proof {
                assert(bk1.drop_last() =~= b@.take(k as int));
                assert(bk1.last() == b@[k as int]);
                lemma_edit_distance_bounded(ai, bk1);
                lemma_edit_distance_bounded(ai1, b@.take(k as int));
                lemma_edit_distance_bounded(ai, b@.take(k as int));
            }
            let cost: usize = if a[i] != b[k] { 1 } else { 0 };
            let delete = previous[k + 1] + 1;
            let insert = current[k] + 1;
            let substitute = previous[k] + cost;
            let best = if delete <= insert { delete } else { insert };
            let best = if best <= substitute { best } else { substitute };
            current.push(best);
            proof {
                assert(current@[k as int + 1] == edit_distance(ai1, bk1));
            }
            k += 1;
        }
        previous = current;
        i += 1;
    }
    proof {
        assert(a@.take(a@.len() as int) =~= a@);
        assert(b@.take(m as int) =~= b@);
    }
    previous[m]
}

/// The keys a scene header may hold.
pub open spec fn is_scene_metadata_key(key: Seq<char>) -> bool {
    key == "合図"@ || key == "条件"@ || key == "優先度"@ || key == "重み"@ || key == "クールダウン"@
        || key == "話者"@
}

/// The metadata keys a script knows: the scene keys and the event sections.
pub open spec fn spec_is_known_metadata_key(key: Seq<char>) -> bool {
    is_scene_metadata_key(key) || key == "前提条件"@ || key == "初期値"@
}

/// Whether the key is a metadata key that scripts know.
pub fn is_known_metadata_key(key: &str) -> (b: bool)
    ensures
        b == spec_is_known_metadata_key(key@),
{
    str_is(key, "合図") || str_is(key, "条件") || str_is(key, "優先度") || str_is(key, "重み")
        || str_is(key, "クールダウン") || str_is(key, "話者") || str_is(key, "前提条件")
        || str_is(key, "初期値")
}

/// The value may be a misspelling of the candidate key: it starts with the same character
/// and is within one edit of a key of up to three characters, or three edits of a longer one.
pub open spec fn maybe_typo(value: Seq<char>, candidate: Seq<char>) -> bool {
    &&& value.len() > 0
    &&& candidate.len() > 0
    &&& value[0] == candidate[0]
    &&& edit_distance(value, candidate) <= if candidate.len() <= 3 { 1nat } else { 3nat }
}

/// Whether the value may be a misspelling of the candidate key.
pub fn metadata_key_maybe_typo(value: &str, candidate: &str) -> (b: bool)
    requires
        value@.len() + candidate@.len() < usize::MAX,
    ensures
        b == maybe_typo(value@, candidate@),
{
    let v = chars_of(value);
    let c = chars_of(candidate);
    if v.len() == 0 || c.len() == 0 || v[0] != c[0] {
        return false;
    }
    let limit: usize = if c.len() <= 3 { 1 } else { 3 };
    char_levenshtein(value, candidate) <= limit
}

/// The scene keys in the order suggestions are tried.
pub open spec fn suggestion_keys() -> Seq<Seq<char>> {
    seq!["合図"@, "条件"@, "優先度"@, "重み"@, "クールダウン"@, "話者"@]
}

/// The first scene key, in suggestion order, that the key may be a misspelling of.
pub open spec fn first_suggestion(key: Seq<char>, keys: Seq<Seq<char>>) -> Option<Seq<char>>
    decreases keys.len(),
{
    if keys.len() == 0 {
        None
    } else if maybe_typo(key, keys[0]) {
        Some(keys[0])
    } else {
        first_suggestion(key, keys.drop_first())
    }
}

/// The scene key that a misspelled key probably meant, if any.
pub fn suggest_metadata_key(key: &str) -> (r: Option<String>)
    requires
        key@.len() + 10 < usize::MAX,
    ensures
        opt_view(r) == first_suggestion(key@, suggestion_keys()),
{
    let keys: [&str; 6] = ["合図", "条件", "優先度", "重み", "クールダウン", "話者"];
    let ghost spec_keys = suggestion_keys();
    proof {
        reveal_strlit("合図");
        reveal_strlit("条件");
        reveal_strlit("優先度");
        reveal_strlit("重み");
        reveal_strlit("クールダウン");
        reveal_strlit("話者");
        assert(spec_keys.skip(0) =~= spec_keys);
    }
    let mut i: usize = 0;
    while i < 6
        invariant
            key@.len() + 10 < usize::MAX,
            spec_keys == suggestion_keys(),
            forall|k: int| 0 <= k < 6 ==> #[trigger] keys@[k]@ == spec_keys[k],
            forall|k: int| 0 <= k < 6 ==> (#[trigger] keys@[k])@.len() <= 6,
            i <= 6,
            first_suggestion(key@, spec_keys) == first_suggestion(key@, spec_keys.skip(i as int)),
        decreases 6 - i,
    {
        let candidate = keys[i];
        proof {
            assert(spec_keys.skip(i as int)[0] == spec_keys[i as int]);
            assert(spec_keys.skip(i as int).drop_first() =~= spec_keys.skip(i + 1));
        }
        if metadata_key_maybe_typo(key, candidate) {
            return Some(candidate.to_owned());
        }
        i += 1;
    }
    None
}

} // verus!
verus! {

// ---------------------------------------------------------------------------
// Splitting, variables, times and durations
// ---------------------------------------------------------------------------

/// The text cut at every `sep`: `n` separators give `n + 1` pieces.
pub open spec fn split_at_char(s: Seq<char>, sep: char) -> Seq<Seq<char>>
    decreases s.len(),
{
    if s.len() == 0 {
        seq![Seq::<char>::empty()]
    } else {
        let pieces = split_at_char(s.drop_last(), sep);
        if s.last() == sep {
            pieces.push(Seq::<char>::empty())
        } else {
            pieces.update(pieces.len() - 1, pieces.last().push(s.last()))
        }
    }
}

proof fn lemma_split_at_char_nonempty(s: Seq<char>, sep: char)
    ensures
        split_at_char(s, sep).len() >= 1,
    decreases s.len(),
{
    if s.len() > 0 {
        lemma_split_at_char_nonempty(s.drop_last(), sep);
    }
}

/// The pieces of `v` between the `sep` characters.
pub fn split_chars(v: &[char], sep: char) -> (pieces: Vec<Vec<char>>)
    ensures
        pieces@.map_values(|p: Vec<char>| p@) == split_at_char(v@, sep),
{
    let mut pieces: Vec<Vec<char>> = Vec::new();
    let mut cur: Vec<char> = Vec::new();
    let mut i: usize = 0;
    proof {
        assert(v@.take(0) =~= Seq::<char>::empty());
    }
    while i < v.len()
        invariant
            i <= v@.len(),
            split_at_char(v@.take(i as int), sep).len() >= 1,
            split_at_char(v@.take(i as int), sep).last() == cur@,
            pieces@.map_values(|p: Vec<char>| p@) == split_at_char(v@.take(i as int), sep).drop_last(),
        decreases v@.len() - i,
    {
        let c = v[i];
        let ghost before = split_at_char(v@.take(i as int), sep);
        let ghost old_pieces = pieces@;
        proof {
            assert(v@.take(i as int + 1).drop_last() =~= v@.take(i as int));
            assert(v@.take(i as int + 1).last() == c);
        }
        if c == sep {
            let ghost old_cur = cur@;
            let done = cur;
            pieces.push(done);
            cur = Vec::new();
            proof {
                let after = split_at_char(v@.take(i as int + 1), sep);
                assert(after == before.push(Seq::<char>::empty()));
                assert(pieces@.map_values(|p: Vec<char>| p@) =~= old_pieces.map_values(|p: Vec<char>| p@).push(old_cur));
                assert(before.drop_last().push(before.last()) =~= before);
                assert(pieces@.map_values(|p: Vec<char>| p@) =~= before);
                assert(after.drop_last() =~= before);
            }
        } else {
            cur.push(c);
            proof {
                let after = split_at_char(v@.take(i as int + 1), sep);
                assert(after == before.update(before.len() - 1, before.last().push(c)));
                assert(after.drop_last() =~= before.drop_last());
            }
        }
        i += 1;
    }
    let ghost before = split_at_char(v@.take(i as int), sep);
    pieces.push(cur);
    proof {
        assert(v@.take(i as int) =~= v@);
        assert(pieces@.map_values(|p: Vec<char>| p@) =~= before.drop_last().push(before.last()));
        assert(before.drop_last().push(before.last()) =~= before);
    }
    pieces
}

/// The parts of a variable reference: the text trimmed, normalized and cut at `#`.
pub open spec fn variable_parts(text: Seq<char>) -> Seq<Seq<char>> {
    split_at_char(normalize_seq(spec_trim(text)), '#')
}

/// `v` is a spanned text with the given text and span.
pub open spec fn spanned_is(v: Spanned<String>, text: Seq<char>, span: Span) -> bool {
    v.value@ == text && v.span == span
}

/// What a variable reference written as `text` refers to: a single part is an event-local
/// name (temporary when it starts with `_`); `全体#x`, `入力#x`, `住人#a#x` and
/// `関係#a#b#x` name the other scopes; anything else is an unsupported scope. Every part
/// carries the span of the whole reference.
pub open spec fn parsed_variable_is(r: VariableRef, text: Seq<char>, span: Span) -> bool {
    let p = variable_parts(text);
    if p.len() == 1 {
        if p[0].len() > 0 && p[0][0] == '_' {
            r matches VariableRef::Temporary { name } && spanned_is(name, p[0], span)
        } else {
            r matches VariableRef::EventLocal { name } && spanned_is(name, p[0], span)
        }
    } else if p.len() == 2 && p[0] == "全体"@ {
        r matches VariableRef::Global { name } && spanned_is(name, p[1], span)
    } else if p.len() == 2 && p[0] == "入力"@ {
        r matches VariableRef::Input { name } && spanned_is(name, p[1], span)
    } else if p.len() == 3 && p[0] == "住人"@ {
        r matches VariableRef::Resident { actor, name } && spanned_is(actor, p[1], span)
            && spanned_is(name, p[2], span)
    } else if p.len() == 4 && p[0] == "関係"@ {
        r matches VariableRef::Relation { subject, object, name } && spanned_is(subject, p[1], span)
            && spanned_is(object, p[2], span) && spanned_is(name, p[3], span)
    } else {
        r matches VariableRef::Unsupported { scope, parts } && spanned_is(scope, p[0], span)
            && parts@.len() == p.len() - 1 && forall|k: int| 0 <= k < parts@.len() ==> spanned_is(
            #[trigger] parts@[k], p[k + 1], span)
    }
}

/// The text of a character vector with a span.
fn spanned_chars(v: &Vec<char>, span: Span) -> (r: Spanned<String>)
    ensures
        spanned_is(r, v@, span),
{
    Spanned::new(string_of(v.as_slice()), span)
}

/// Reads a variable reference; every part gets the span of the whole reference.
pub fn parse_variable_ref(text: &str, span: Span) -> (r: VariableRef)
    ensures
        parsed_variable_is(r, text@, span),
{
    let raw = chars_of(text);
    let trimmed = trim_chars(raw.as_slice());
    let normalized = normalize_chars(trimmed.as_slice());
    let parts = split_chars(normalized.as_slice(), '#');
    let ghost p = variable_parts(text@);
    proof {
        lemma_split_at_char_nonempty(normalized@, '#');
        assert(parts@.map_values(|x: Vec<char>| x@) == p);
        assert forall|k: int| 0 <= k < parts@.len() implies #[trigger] parts@[k]@ == p[k] by {
            assert(parts@.map_values(|x: Vec<char>| x@)[k] == parts@[k]@);
        }
        reveal_strlit("全体");
        reveal_strlit("入力");
        reveal_strlit("住人");
        reveal_strlit("関係");
    }
    let n = parts.len();
    if n == 1 {
        let first = &parts[0];
        if first.len() > 0 && first[0] == '_' {
            return VariableRef::Temporary { name: spanned_chars(first, span) };
        }
        return VariableRef::EventLocal { name: spanned_chars(first, span) };
    }
    let scope = &parts[0];
    if n == 2 && chars_eq(scope.as_slice(), chars_of("全体").as_slice()) {
        return VariableRef::Global { name: spanned_chars(&parts[1], span) };
    }
    if n == 2 && chars_eq(scope.as_slice(), chars_of("入力").as_slice()) {
        return VariableRef::Input { name: spanned_chars(&parts[1], span) };
    }
    if n == 3 && chars_eq(scope.as_slice(), chars_of("住人").as_slice()) {
        return VariableRef::Resident {
            actor: spanned_chars(&parts[1], span),
            name: spanned_chars(&parts[2], span),
        };
    }
    if n == 4 && chars_eq(scope.as_slice(), chars_of("関係").as_slice()) {
        return VariableRef::Relation {
            subject: spanned_chars(&parts[1], span),
            object: spanned_chars(&parts[2], span),
            name: spanned_chars(&parts[3], span),
        };
    }
    let mut rest: Vec<Spanned<String>> = Vec::new();
    let mut k: usize = 1;
    while k < n
        invariant
            n == parts@.len(),
            1 <= k <= n,
            rest@.len() == k - 1,
            forall|x: int| 0 <= x < parts@.len() ==> #[trigger] parts@[x]@ == p[x],
            forall|x: int| 0 <= x < rest@.len() ==> spanned_is(#[trigger] rest@[x], p[x + 1], span),
        decreases n - k,
    {
        rest.push(spanned_chars(&parts[k], span));
        k += 1;
    }
    VariableRef::Unsupported { scope: spanned_chars(scope, span), parts: rest }
}

/// The hour and minute written as `h:m` (after normalization), where both read as unsigned
/// integers and name a time of day.
pub open spec fn spec_parse_time(text: Seq<char>) -> Option<(nat, nat)> {
    let p = split_at_char(normalize_seq(text), ':');
    if p.len() >= 2 {
        match (parse_unsigned(p[0]), parse_unsigned(p[1])) {
            (Some(h), Some(m)) => if h <= 23 && m <= 59 { Some((h, m)) } else { None },
            _ => None,
        }
    } else {
        None
    }
}

/// Reads a time of day `h:m`; anything outside 0:00 to 23:59 is an error.
pub fn parse_time(text: &str, span: Span) -> (r: Result<TimeOfDay, DaihonDiagnostic>)
    ensures
        match spec_parse_time(text@) {
            Some((h, m)) => r matches Ok(t) && t.hour == h && t.minute == m && t.span == span,
            None => r matches Err(d) && d.severity == Severity::Error && d.code@ == "E-DHN-SYN-067"@
                && d.message@ == "時刻は 0:00 から 23:59 の範囲で指定してください。"@ && d.labels@.len() == 1
                && d.labels@[0].span == span && d.labels@[0].message is None && d.help is None,
        },
{
    let raw = chars_of(text);
    let normalized = normalize_chars(raw.as_slice());
    let parts = split_chars(normalized.as_slice(), ':');
    proof {
        assert(parts@.map_values(|x: Vec<char>| x@) == split_at_char(normalize_seq(text@), ':'));
    }
    if parts.len() >= 2 {
        proof {
            assert(parts@.map_values(|x: Vec<char>| x@)[0] == parts@[0]@);
            assert(parts@.map_values(|x: Vec<char>| x@)[1] == parts@[1]@);
        }
        let hour = parse_u64(parts[0].as_slice());
        let minute = parse_u64(parts[1].as_slice());
        match (hour, minute) {
            (Some(h), Some(m)) => {
                if h <= 23 && m <= 59 {
                    return Ok(TimeOfDay { hour: h as u8, minute: m as u8, span });
                }
            },
            _ => {},
        }
    }
    Err(DaihonDiagnostic::error("E-DHN-SYN-067", "時刻は 0:00 から 23:59 の範囲で指定してください。", span))
}

/// The number of ASCII digits that `s` starts with.
pub open spec fn leading_digits(s: Seq<char>) -> nat
    decreases s.len(),
{
    if s.len() > 0 && is_ascii_digit(s[0]) {
        1 + leading_digits(s.drop_first())
    } else {
        0
    }
}

/// Seconds per unit of a duration, for the units a cooldown may use.
pub open spec fn unit_seconds(unit: Seq<char>) -> Option<nat> {
    if unit == "秒"@ || unit == "s"@ {
        Some(1)
    } else if unit == "分"@ || unit == "m"@ {
        Some(60)
    } else if unit == "時間"@ || unit == "h"@ {
        Some(3600)
    } else if unit == "日"@ || unit == "d"@ {
        Some(86400)
    } else {
        None
    }
}

/// The number and the seconds per unit of a duration such as `30秒` or `2h`: the trimmed,
/// normalized text starts with ASCII digits, and the rest, trimmed, is a known unit.
pub open spec fn duration_parts(text: Seq<char>) -> Option<(nat, nat)> {
    let s = normalize_seq(spec_trim(text));
    let d = leading_digits(s);
    if d == 0 {
        None
    } else {
        match unit_seconds(spec_trim(s.skip(d as int))) {
            Some(f) => Some((digits_value(s.take(d as int)), f)),
            None => None,
        }
    }
}

/// The length of a duration in seconds (values that do not fit in 64 bits read as none).
pub open spec fn spec_parse_duration(text: Seq<char>) -> Option<nat> {
    match duration_parts(text) {
        Some((v, f)) => if v <= u64::MAX { Some(v * f) } else { None },
        None => None,
    }
}

proof fn lemma_leading_digits(s: Seq<char>)
    ensures
        leading_digits(s) <= s.len(),
        forall|k: int| 0 <= k < leading_digits(s) ==> is_ascii_digit(#[trigger] s[k]),
        leading_digits(s) < s.len() ==> !is_ascii_digit(s[leading_digits(s) as int]),
    decreases s.len(),
{
    if s.len() > 0 && is_ascii_digit(s[0]) {
        lemma_leading_digits(s.drop_first());
        assert forall|k: int| 0 <= k < leading_digits(s) implies is_ascii_digit(#[trigger] s[k]) by {
            if k > 0 {
                assert(s[k] == s.drop_first()[k - 1]);
            }
        }
    }
}

/// Digits followed by a text that starts with no digit: the digits are the leading digits.
proof fn lemma_leading_digits_concat(ds: Seq<char>, u: Seq<char>)
    requires
        all_ascii_digits(ds),
        u.len() == 0 || !is_ascii_digit(u[0]),
    ensures
        leading_digits(ds + u) == ds.len(),
    decreases ds.len(),
{
    if ds.len() > 0 {
        assert((ds + u).drop_first() =~= ds.drop_first() + u);
        lemma_leading_digits_concat(ds.drop_first(), u);
    } else {
        assert(ds + u =~= u);
    }
}

/// A text with no blank at either end is its own trimmed form.
proof fn lemma_trim_unblanked(s: Seq<char>)
    requires
        s.len() > 0,
        !is_whitespace(s[0]),
        !is_whitespace(s.last()),
    ensures
        spec_trim(s) == s,
{
    assert(leading_ws(s) == 0);
    assert(s.skip(0) =~= s);
    assert(crate::text::trailing_ws(s) == 0);
    assert(s.take(s.len() as int) =~= s);
}

/// Digits followed by a unit read as the digits' value and the unit's seconds.
proof fn lemma_duration_of(ds: Seq<char>, u: Seq<char>)
    requires
        ds.len() > 0,
        all_ascii_digits(ds),
        u.len() > 0,
        !is_ascii_digit(u[0]),
        !is_whitespace(u[0]),
        !is_whitespace(u.last()),
        normalize_seq(u) == u,
    ensures
        duration_parts(ds + u) == (match unit_seconds(u) {
            Some(f) => Some((digits_value(ds), f)),
            None => None,
        }),
{
    let s0 = ds + u;
    assert(is_ascii_digit(ds[0]));
    assert(s0[0] == ds[0]);
    assert(s0.last() == u.last());
    lemma_trim_unblanked(s0);
    assert forall|i: int| 0 <= i < s0.len() implies #[trigger] normalize_char(s0[i]) == s0[i] by {
        if i < ds.len() {
            assert(is_ascii_digit(ds[i]));
        } else {
            assert(s0[i] == u[i - ds.len()]);
            assert(normalize_seq(u)[i - ds.len()] == u[i - ds.len()]);
        }
    }
    assert(normalize_seq(s0) =~= s0);
    lemma_leading_digits_concat(ds, u);
    assert(s0.take(ds.len() as int) =~= ds);
    assert(s0.skip(ds.len() as int) =~= u);
    lemma_trim_unblanked(u);
}

/// Each spelling of a unit names its own length in seconds.
#[verifier::spinoff_prover]
proof fn lemma_unit_table()
    ensures
        unit_seconds("秒"@) == Some(1nat),
        unit_seconds("s"@) == Some(1nat),
        unit_seconds("分"@) == Some(60nat),
        unit_seconds("m"@) == Some(60nat),
        unit_seconds("時間"@) == Some(3600nat),
        unit_seconds("h"@) == Some(3600nat),
        unit_seconds("日"@) == Some(86400nat),
        unit_seconds("d"@) == Some(86400nat),
{
    reveal_strlit("秒");
    reveal_strlit("s");
    reveal_strlit("分");
    reveal_strlit("m");
    reveal_strlit("時間");
    reveal_strlit("h");
    reveal_strlit("日");
    reveal_strlit("d");
    let units: Seq<Seq<char>> = seq!["秒"@, "s"@, "分"@, "m"@, "時間"@, "h"@, "日"@, "d"@];
    assert forall|i: int, j: int| 0 <= i < j < 8 implies units[i] != units[j] by {
        if units[i] == units[j] {
            assert(units[i][0] == units[j][0]);
        }
    }
    assert(units[0] == "秒"@);
    assert(units[1] == "s"@);
    assert(units[2] == "分"@);
    assert(units[3] == "m"@);
    assert(units[4] == "時間"@);
    assert(units[5] == "h"@);
    assert(units[6] == "日"@);
    assert(units[7] == "d"@);
}

/// Digits and `秒` or `s` read as that many seconds.
#[verifier::spinoff_prover]
proof fn lemma_duration_seconds(ds: Seq<char>)
    requires
        ds.len() > 0,
        all_ascii_digits(ds),
        digits_value(ds) <= u64::MAX,
    ensures
        spec_parse_duration(ds + "秒"@) == Some(digits_value(ds)),
        spec_parse_duration(ds + "s"@) == Some(digits_value(ds)),
{
    reveal_strlit("秒");
    reveal_strlit("s");
    assert(normalize_seq("秒"@) =~= "秒"@);
    assert(normalize_seq("s"@) =~= "s"@);
    lemma_unit_table();
    lemma_duration_of(ds, "秒"@);
    lemma_duration_of(ds, "s"@);
}

/// Digits and `分` or `m` read as that many minutes.
#[verifier::spinoff_prover]
proof fn lemma_duration_minutes(ds: Seq<char>)
    requires
        ds.len() > 0,
        all_ascii_digits(ds),
        digits_value(ds) <= u64::MAX,
    ensures
        spec_parse_duration(ds + "分"@) == Some(digits_value(ds) * 60),
        spec_parse_duration(ds + "m"@) == Some(digits_value(ds) * 60),
{
    reveal_strlit("分");
    reveal_strlit("m");
    assert(normalize_seq("分"@) =~= "分"@);
    assert(normalize_seq("m"@) =~= "m"@);
    lemma_unit_table();
    lemma_duration_of(ds, "分"@);
    lemma_duration_of(ds, "m"@);
}

/// Digits and `時間` or `h` read as that many hours.
#[verifier::spinoff_prover]
proof fn lemma_duration_hours(ds: Seq<char>)
    requires
        ds.len() > 0,
        all_ascii_digits(ds),
        digits_value(ds) <= u64::MAX,
    ensures
        spec_parse_duration(ds + "時間"@) == Some(digits_value(ds) * 3600),
        spec_parse_duration(ds + "h"@) == Some(digits_value(ds) * 3600),
{
    reveal_strlit("時間");
    reveal_strlit("h");
    assert(normalize_seq("時間"@) =~= "時間"@);
    assert(normalize_seq("h"@) =~= "h"@);
    lemma_unit_table();
    lemma_duration_of(ds, "時間"@);
    lemma_duration_of(ds, "h"@);
}

/// Digits and `日` or `d` read as that many days.
#[verifier::spinoff_prover]
proof fn lemma_duration_days(ds: Seq<char>)
    requires
        ds.len() > 0,
        all_ascii_digits(ds),
        digits_value(ds) <= u64::MAX,
    ensures
        spec_parse_duration(ds + "日"@) == Some(digits_value(ds) * 86400),
        spec_parse_duration(ds + "d"@) == Some(digits_value(ds) * 86400),
{
    reveal_strlit("日");
    reveal_strlit("d");
    assert(normalize_seq("日"@) =~= "日"@);
    assert(normalize_seq("d"@) =~= "d"@);
    lemma_unit_table();
    lemma_duration_of(ds, "日"@);
    lemma_duration_of(ds, "d"@);
}

/// What a cooldown such as `30分` means: digits and a unit read as that many units in
/// seconds, each unit's length fixed on its own: a second (`秒`, `s`) is 1, a minute
/// (`分`, `m`) 60, an hour (`時間`, `h`) 3600 and a day (`日`, `d`) 86400; the two
/// spellings of a unit give the same duration.
pub proof fn lemma_duration_units(ds: Seq<char>)
    requires
        ds.len() > 0,
        all_ascii_digits(ds),
        digits_value(ds) <= u64::MAX,
    ensures
        spec_parse_duration(ds + "秒"@) == Some(digits_value(ds)),
        spec_parse_duration(ds + "s"@) == Some(digits_value(ds)),
        spec_parse_duration(ds + "分"@) == Some(digits_value(ds) * 60),
        spec_parse_duration(ds + "m"@) == Some(digits_value(ds) * 60),
        spec_parse_duration(ds + "時間"@) == Some(digits_value(ds) * 3600),
        spec_parse_duration(ds + "h"@) == Some(digits_value(ds) * 3600),
        spec_parse_duration(ds + "日"@) == Some(digits_value(ds) * 86400),
        spec_parse_duration(ds + "d"@) == Some(digits_value(ds) * 86400),
        spec_parse_duration(ds + "h"@) == spec_parse_duration(ds + "時間"@),
        spec_parse_duration(ds + "m"@) == spec_parse_duration(ds + "分"@),
        spec_parse_duration(ds + "d"@) == spec_parse_duration(ds + "日"@),
        spec_parse_duration(ds + "s"@) == spec_parse_duration(ds + "秒"@),
{
    lemma_duration_seconds(ds);
    lemma_duration_minutes(ds);
    lemma_duration_hours(ds);
    lemma_duration_days(ds);
}

/// Digits followed by any other word are no duration: only the eight spellings above name
/// a unit.
pub proof fn lemma_duration_unknown_unit(ds: Seq<char>, u: Seq<char>)
    requires
        ds.len() > 0,
        all_ascii_digits(ds),
        u.len() > 0,
        !is_ascii_digit(u[0]),
        !is_whitespace(u[0]),
        !is_whitespace(u.last()),
        normalize_seq(u) == u,
        u != "秒"@,
        u != "s"@,
        u != "分"@,
        u != "m"@,
        u != "時間"@,
        u != "h"@,
        u != "日"@,
        u != "d"@,
    ensures
        spec_parse_duration(ds + u) is None,
{
    lemma_duration_of(ds, u);
}

/// Reads a duration such as `30秒`, `5分`, `2時間`, `1日` or `10s` into seconds.
pub fn parse_duration(text: &str) -> (r: Option<u64>)
    requires
        spec_parse_duration(text@) matches Some(secs) ==> secs <= u64::MAX,
    ensures
        match spec_parse_duration(text@) {
            Some(secs) => r == Some(secs as u64),
            None => r is None,
        },
{
    let raw = chars_of(text);
    let trimmed = trim_chars(raw.as_slice());
    let s = normalize_chars(trimmed.as_slice());
    let ghost sv = normalize_seq(spec_trim(text@));
    proof {
        lemma_leading_digits(sv);
        assert(sv.skip(0) =~= sv);
    }
    let mut d: usize = 0;
    while d < s.len() && '0' <= s[d] && s[d] <= '9'
        invariant
            s@ == sv,
            d <= sv.len(),
            d <= leading_digits(sv),
            leading_digits(sv) == d + leading_digits(sv.skip(d as int)),
        decreases sv.len() - d,
    {
        proof {
            assert(sv.skip(d as int)[0] == sv[d as int]);
            assert(sv.skip(d as int).drop_first() =~= sv.skip(d + 1));
        }
        d += 1;
    }
    proof {
        if d < sv.len() {
            assert(sv.skip(d as int)[0] == sv[d as int]);
        }
        assert(leading_digits(sv) == d);
    }
    if d == 0 {
        return None;
    }
    let digits: Vec<char> = slice_to_vec(s.as_slice(), 0, d);
    let value = match parse_u64(digits.as_slice()) {
        Some(v) => v,
        None => {
            proof {
                assert(unsigned_body(digits@) == digits@);
                assert(all_ascii_digits(digits@));
            }
            return None;
        },
    };
    proof {
        assert(digits@ =~= sv.take(d as int));
        assert(unsigned_body(digits@) == digits@);
        assert(all_ascii_digits(digits@));
    }
    let tail = slice_to_vec(s.as_slice(), d, s.len());
    let unit = trim_chars(tail.as_slice());
    proof {
        assert(tail@ =~= sv.skip(d as int));
    }
    let u = unit.as_slice();
    proof {
        assert(u@ == spec_trim(sv.skip(d as int)));
        assert(value == digits_value(sv.take(d as int)));
        assert(duration_parts(text@) == match unit_seconds(u@) {
            Some(f) => Some((value as nat, f)),
            None => None::<(nat, nat)>,
        });
    }
    match unit_factor(u) {
        Some(f) => {
            proof {
                assert(spec_parse_duration(text@) == Some((value as nat) * (f as nat)));
            }
            Some(value * f)
        },
        None => None,
    }
}

/// Seconds per unit of a duration unit.
fn unit_factor(u: &[char]) -> (f: Option<u64>)
    ensures
        match unit_seconds(u@) {
            Some(x) => f == Some(x as u64),
            None => f is None,
        },
{
    proof {
        reveal_strlit("秒");
        reveal_strlit("s");
        reveal_strlit("分");
        reveal_strlit("m");
        reveal_strlit("時間");
        reveal_strlit("h");
        reveal_strlit("日");
        reveal_strlit("d");
    }
    if is_lit(u, "秒") || is_lit(u, "s") {
        Some(1)
    } else if is_lit(u, "分") || is_lit(u, "m") {
        Some(60)
    } else if is_lit(u, "時間") || is_lit(u, "h") {
        Some(3600)
    } else if is_lit(u, "日") || is_lit(u, "d") {
        Some(86400)
    } else {
        None
    }
}

/// The characters `v[a..b]`.
pub(crate) fn slice_to_vec(v: &[char], a: usize, b: usize) -> (r: Vec<char>)
    requires
        a <= b <= v@.len(),
    ensures
        r@ == v@.subrange(a as int, b as int),
{
    let mut r: Vec<char> = Vec::new();
    let mut k: usize = a;
    while k < b
        invariant
            a <= k <= b <= v@.len(),
            r@ == v@.subrange(a as int, k as int),
        decreases b - k,
    {
        r.push(v[k]);
        proof {
            assert(v@.subrange(a as int, k + 1) =~= v@.subrange(a as int, k as int).push(v@[k as int]));
        }
        k += 1;
    }
    r
}

/// Whether the characters are exactly the literal's.
pub(crate) fn is_lit(w: &[char], lit: &str) -> (r: bool)
    ensures
        r == (w@ == lit@),
{
    let l = chars_of(lit);
    chars_eq(w, l.as_slice())
}

} // verus!
verus! {

// ---------------------------------------------------------------------------
// Line heads and wrappers
// ---------------------------------------------------------------------------

/// A line's head as the parser compares it: trimmed and normalized.
pub open spec fn line_head(text: Seq<char>) -> Seq<char> {
    normalize_seq(spec_trim(text))
}

/// A line's head, trimmed and normalized.
pub fn normalize_line_head(text: &str) -> (r: String)
    ensures
        r@ == line_head(text@),
{
    let raw = chars_of(text);
    let trimmed = trim_chars(raw.as_slice());
    let n = normalize_chars(trimmed.as_slice());
    string_of(n.as_slice())
}

/// Whether the line opens the event's preconditions or defaults section.
pub fn is_section_start(text: &str) -> (b: bool)
    ensures
        b == (seq_starts_with(line_head(text@), "前提条件:"@) || seq_starts_with(line_head(text@),
            "初期値:"@)),
{
    let head = normalize_line_head(text);
    let h = chars_of(head.as_str());
    let a = chars_of("前提条件:");
    let b = chars_of("初期値:");
    chars_start_with(h.as_slice(), a.as_slice()) || chars_start_with(h.as_slice(), b.as_slice())
}

/// Whether the line is a scene header.
pub fn is_scene_header(text: &str) -> (b: bool)
    ensures
        b == seq_starts_with(line_head(text@), "###"@),
{
    let head = normalize_line_head(text);
    let h = chars_of(head.as_str());
    let a = chars_of("###");
    chars_start_with(h.as_slice(), a.as_slice())
}

/// The position of the first `c` in `s`.
pub open spec fn first_index_of(s: Seq<char>, c: char) -> Option<int> {
    if exists|i: int| 0 <= i < s.len() && s[i] == c {
        Some(choose|i: int| 0 <= i < s.len() && s[i] == c && forall|j: int| 0 <= j < i ==> s[j] != c)
    } else {
        None
    }
}

/// A metadata line's key (trimmed) and value, cut at its first `:`.
pub open spec fn spec_split_metadata_line(s: Seq<char>) -> Option<(Seq<char>, Seq<char>)> {
    match first_index_of(s, ':') {
        Some(k) => Some((spec_trim(s.take(k)), s.skip(k + 1))),
        None => None,
    }
}

/// A normalized metadata line's key (trimmed) and value, cut at its first `:`.
pub fn split_metadata_line(normalized_line: &str) -> (r: Option<(String, String)>)
    ensures
        match spec_split_metadata_line(normalized_line@) {
            Some((k, v)) => r matches Some(p) && p.0@ == k && p.1@ == v,
            None => r is None,
        },
{
    let s = chars_of(normalized_line);
    let mut i: usize = 0;
    while i < s.len()
        invariant
            s@ == normalized_line@,
            i <= s@.len(),
            forall|j: int| 0 <= j < i ==> s@[j] != ':',
        decreases s@.len() - i,
    {
        if s[i] == ':' {
            let key_chars = slice_to_vec(s.as_slice(), 0, i);
            let key = trim_chars(key_chars.as_slice());
            let rest = slice_to_vec(s.as_slice(), i + 1, s.len());
            proof {
                let w = choose|k: int| 0 <= k < s@.len() && s@[k] == ':' && forall|j: int| 0 <= j < k ==> s@[j] != ':';
                assert(0 <= i < s@.len() && s@[i as int] == ':' && forall|j: int| 0 <= j < i ==> s@[j] != ':');
                if w < i {
                    assert(false);
                } else if w > i {
                    assert(s@[i as int] != ':');
                }
                assert(key_chars@ =~= s@.take(i as int));
                assert(rest@ =~= s@.skip(i + 1));
            }
            return Some((string_of(key.as_slice()), string_of(rest.as_slice())));
        }
        i += 1;
    }
    None
}

/// The text inside a pair of wrapping parentheses (half or full width), once trimmed.
pub open spec fn spec_strip_wrapped_paren(text: Seq<char>) -> Option<Seq<char>> {
    let t = spec_trim(text);
    if t.len() > 0 && normalize_char(t[0]) == '(' && normalize_char(t.last()) == ')' {
        Some(t.subrange(1, t.len() - 1))
    } else {
        None
    }
}

/// The text inside wrapping parentheses, if the trimmed text is wrapped in a pair.
pub fn strip_wrapped_paren(text: &str) -> (r: Option<String>)
    ensures
        opt_view(r) == spec_strip_wrapped_paren(text@),
{
    let raw = chars_of(text);
    let t = trim_chars(raw.as_slice());
    let n = t.len();
    if n > 0 && normalize_char_exec(t[0]) == '(' && normalize_char_exec(t[n - 1]) == ')' {
        proof {
            if n == 1 {
                assert(normalize_char(t@[0]) != ')');
            }
        }
        let inner = slice_to_vec(t.as_slice(), 1, n - 1);
        Some(string_of(inner.as_slice()))
    } else {
        None
    }
}

/// A condition with surrounding blanks and one pair of wrapping parentheses removed.
pub open spec fn spec_trim_condition_wrapper(text: Seq<char>) -> Seq<char> {
    match spec_strip_wrapped_paren(spec_trim(text)) {
        Some(inner) => inner,
        None => spec_trim(text),
    }
}

/// A condition with surrounding blanks and one pair of wrapping parentheses removed.
pub fn trim_condition_wrapper(text: &str) -> (r: String)
    ensures
        r@ == spec_trim_condition_wrapper(text@),
{
    let raw = chars_of(text);
    let t = trim_chars(raw.as_slice());
    let trimmed = string_of(t.as_slice());
    match strip_wrapped_paren(trimmed.as_str()) {
        Some(inner) => inner,
        None => trimmed,
    }
}

} // verus!
verus! {

// ---------------------------------------------------------------------------
// Headers and jumps
// ---------------------------------------------------------------------------

/// The number of `c` characters that `s` starts with.
pub open spec fn leading_count(s: Seq<char>, c: char) -> nat
    decreases s.len(),
{
    if s.len() > 0 && s[0] == c {
        1 + leading_count(s.drop_first(), c)
    } else {
        0
    }
}

/// `s` without its leading whitespace, as `str::trim_start` returns it.
pub open spec fn spec_trim_start(s: Seq<char>) -> Seq<char> {
    s.skip(leading_ws(s) as int)
}

/// The character is `c` (or, with `c` absent, whitespace).
fn run_char(ch: char, c: Option<char>) -> (b: bool)
    ensures
        b == match c {
            Some(x) => ch == x,
            None => is_whitespace(ch),
        },
{
    match c {
        Some(x) => ch == x,
        None => char_is_whitespace(ch),
    }
}

/// The number of characters at the start of `v` that are `c` (or, with `c` absent, whitespace).
fn leading_run(v: &[char], c: Option<char>) -> (n: usize)
    ensures
        match c {
            Some(x) => n == leading_count(v@, x),
            None => n == leading_ws(v@),
        },
        n <= v@.len(),
{
    let mut n: usize = 0;
    proof {
        assert(v@.skip(0) =~= v@);
    }
    while n < v.len() && run_char(v[n], c)
        invariant
            n <= v@.len(),
            match c {
                Some(x) => leading_count(v@, x) == n + leading_count(v@.skip(n as int), x),
                None => leading_ws(v@) == n + leading_ws(v@.skip(n as int)),
            },
        decreases v@.len() - n,
    {
        proof {
            assert(v@.skip(n as int)[0] == v@[n as int]);
            assert(v@.skip(n as int).drop_first() =~= v@.skip(n + 1));
        }
        n += 1;
    }
    proof {
        if n < v@.len() {
            assert(v@.skip(n as int)[0] == v@[n as int]);
        }
    }
    n
}

/// The name in a header line: the line, its leading blanks removed and normalized, starts
/// with the marker; the rest, trimmed, is the name, spanning the whole line.
pub open spec fn spec_parse_header(text: Seq<char>, marker: Seq<char>) -> Option<Seq<char>> {
    let n = normalize_seq(spec_trim_start(text));
    if seq_starts_with(n, marker) {
        Some(spec_trim(n.skip(marker.len() as int)))
    } else {
        None
    }
}

/// The name of a header line (`##` for an event, `###` for a scene), spanning the line.
pub fn parse_header(line: &LogicalLine, marker: &str) -> (r: Option<Spanned<String>>)
    ensures
        match spec_parse_header(line.text@, marker@) {
            Some(name) => r matches Some(s) && s.value@ == name && s.span == line.span,
            None => r is None,
        },
{
    let raw = chars_of(line.text.as_str());
    let skip = leading_run(raw.as_slice(), None);
    let rest = slice_to_vec(raw.as_slice(), skip, raw.len());
    let normalized = normalize_chars(rest.as_slice());
    let m = chars_of(marker);
    proof {
        assert(rest@ =~= spec_trim_start(line.text@));
    }
    if !chars_start_with(normalized.as_slice(), m.as_slice()) {
        return None;
    }
    let tail = slice_to_vec(normalized.as_slice(), m.len(), normalized.len());
    let name = trim_chars(tail.as_slice());
    proof {
        assert(tail@ =~= normalized@.skip(m@.len() as int));
    }
    Some(Spanned::new(string_of(name.as_slice()), line.span))
}

/// The target a jump line names: the text trimmed, leading `→` removed, normalized and
/// trimmed again.
pub open spec fn jump_target_text(text: Seq<char>) -> Seq<char> {
    let t = spec_trim(text);
    spec_trim(normalize_seq(t.skip(leading_count(t, '→') as int)))
}

/// Where a jump line sends the script: `おわり` ends the event, `シーンおわり` ends the
/// scene, and anything else names a scene.
pub fn parse_jump(text: &str, span: Span) -> (r: JumpTarget)
    ensures
        jump_target_text(text@) == "おわり"@ ==> r == (JumpTarget::EndEvent { span }),
        jump_target_text(text@) == "シーンおわり"@ ==> r == (JumpTarget::EndScene { span }),
        jump_target_text(text@) != "おわり"@ && jump_target_text(text@) != "シーンおわり"@ ==> (r matches
            JumpTarget::Scene { name } && name.value@ == jump_target_text(text@) && name.span == span),
{
    let raw = chars_of(text);
    let t = trim_chars(raw.as_slice());
    let arrows = leading_run(t.as_slice(), Some('→'));
    let rest = slice_to_vec(t.as_slice(), arrows, t.len());
    let normalized = normalize_chars(rest.as_slice());
    let target = trim_chars(normalized.as_slice());
    proof {
        assert(rest@ =~= t@.skip(arrows as int));
        reveal_strlit("おわり");
        reveal_strlit("シーンおわり");
        assert("おわり"@.len() != "シーンおわり"@.len());
    }
    if is_lit(target.as_slice(), "おわり") {
        JumpTarget::EndEvent { span }
    } else if is_lit(target.as_slice(), "シーンおわり") {
        JumpTarget::EndScene { span }
    } else {
        JumpTarget::Scene { name: Spanned::new(string_of(target.as_slice()), span) }
    }
}


/// The number of `なら` that `s` starts with, one after another.
pub open spec fn nara_count(s: Seq<char>) -> nat
    decreases s.len(),
{
    if s.len() >= 2 && seq_starts_with(s, seq!['な', 'ら']) {
        1 + nara_count(s.skip(2))
    } else {
        0
    }
}

/// `text` without the `なら` that opens the rest of a conditional line: when its normalized
/// form starts with `なら`, every leading `なら` and then the leading whitespace go.
pub open spec fn spec_trim_nara(text: Seq<char>) -> Seq<char> {
    if seq_starts_with(normalize_seq(text), seq!['な', 'ら']) {
        spec_trim_start(text.skip((2 * nara_count(text)) as int))
    } else {
        text
    }
}

/// `text` without the `なら` that opens it, as `spec_trim_nara` describes.
pub fn trim_nara(text: &str) -> (r: String)
    ensures
        r@ == spec_trim_nara(text@),
{
    let raw = chars_of(text);
    let normalized = normalize_chars(raw.as_slice());
    if !chars_start_with(normalized.as_slice(), &['な', 'ら']) {
        return text.to_owned();
    }
    let mut k: usize = 0;
    proof {
        assert(raw@.skip(0) =~= raw@);
    }
    while k < raw.len() && raw.len() - k >= 2 && raw[k] == 'な' && raw[k + 1] == 'ら'
        invariant
            k <= raw@.len(),
            nara_count(raw@) * 2 == k + 2 * nara_count(raw@.skip(k as int)),
        decreases raw@.len() - k,
    {
        proof {
            let rest = raw@.skip(k as int);
            assert(rest.subrange(0, 2) =~= seq!['な', 'ら']);
            assert(rest.skip(2) =~= raw@.skip(k + 2));
        }
        k += 2;
    }
    proof {
        let rest = raw@.skip(k as int);
        if rest.len() >= 2 && seq_starts_with(rest, seq!['な', 'ら']) {
            assert(rest.subrange(0, 2)[0] == raw@[k as int]);
            assert(rest.subrange(0, 2)[1] == raw@[k + 1]);
        }
    }
    let mut rest: Vec<char> = Vec::new();
    let mut i: usize = k;
    while i < raw.len()
        invariant
            k <= i <= raw@.len(),
            rest@ == raw@.subrange(k as int, i as int),
        decreases raw@.len() - i,
    {
        rest.push(raw[i]);
        proof {
            assert(raw@.subrange(k as int, i + 1) =~= raw@.subrange(k as int, i as int).push(raw@[i as int]));
        }
        i += 1;
    }
    proof {
        assert(rest@ =~= raw@.skip(k as int));
    }
    let cut = leading_run(rest.as_slice(), None);
    let mut out: Vec<char> = Vec::new();
    let mut j: usize = cut;
    while j < rest.len()
        invariant
            cut <= j <= rest@.len(),
            out@ == rest@.subrange(cut as int, j as int),
        decreases rest@.len() - j,
    {
        out.push(rest[j]);
        proof {
            assert(rest@.subrange(cut as int, j + 1) =~= rest@.subrange(cut as int, j as int).push(rest@[j as int]));
        }
        j += 1;
    }
    proof {
        assert(out@ =~= rest@.skip(cut as int));
    }
    string_of(out.as_slice())
}


// ---------------------------------------------------------------------------
// Spans inside a line
// ---------------------------------------------------------------------------

/// The number of characters of `src` that take exactly the first `b` bytes of its UTF-8
/// encoding, when byte `b` falls between two characters.
pub open spec fn chars_before_byte(src: Seq<char>, b: int) -> Option<int> {
    if exists|k: int| #[trigger] ends_at_byte(src, k, b) {
        Some(choose|k: int| #[trigger] ends_at_byte(src, k, b))
    } else {
        None
    }
}

/// The first `k` characters of `src` take exactly `b` bytes.
pub open spec fn ends_at_byte(src: Seq<char>, k: int, b: int) -> bool {
    0 <= k <= src.len() && pos_at(src, k).0 == b
}

/// The character column, counted from 0, of byte `b` of `src`: the characters before it
/// when it falls between two characters, else `b` itself.
pub open spec fn column_offset(src: Seq<char>, b: int) -> int {
    match chars_before_byte(src, b) {
        Some(k) => k,
        None => b,
    }
}

/// The span of bytes `start..end` of `src`, a text that starts at `base`.
pub open spec fn spec_relative_span(base: Span, src: Seq<char>, start: int, end: int) -> Span {
    Span {
        start: (base.start + start) as usize,
        end: (base.start + end) as usize,
        line: base.line,
        column: (base.column + column_offset(src, start)) as usize,
    }
}

/// Distinct character counts take distinct byte counts.
proof fn lemma_pos_injective(src: Seq<char>, a: int, b: int)
    requires
        0 <= a <= src.len(),
        0 <= b <= src.len(),
        a != b,
    ensures
        pos_at(src, a).0 != pos_at(src, b).0,
{
    if a < b {
        lemma_pos_monotone(src, a, b);
    } else {
        lemma_pos_monotone(src, b, a);
    }
}

/// How many characters of `cs` take exactly its first `b` bytes, if any do.
fn char_index_of_byte(cs: &Vec<char>, b: usize) -> (r: Option<usize>)
    requires
        encode_utf8(cs@).len() < usize::MAX,
    ensures
        match r {
            Some(k) => chars_before_byte(cs@, b as int) == Some(k as int),
            None => chars_before_byte(cs@, b as int) is None,
        },
{
    let mut k: usize = 0;
    let mut byte: usize = 0;
    while k < cs.len() && byte < b
        invariant
            encode_utf8(cs@).len() < usize::MAX,
            k <= cs@.len(),
            byte == pos_at(cs@, k as int).0,
            forall|j: int| 0 <= j < k ==> #[trigger] pos_at(cs@, j).0 < b,
        decreases cs@.len() - k,
    {
        proof {
            lemma_pos_bounded(cs@, k + 1);
        }
        byte = byte + char_len_utf8(cs[k]);
        k += 1;
    }
    if byte == b {
        proof {
            assert(ends_at_byte(cs@, k as int, b as int));
            let w = choose|j: int| #[trigger] ends_at_byte(cs@, j, b as int);
            if w != k {
                lemma_pos_injective(cs@, w, k as int);
            }
        }
        Some(k)
    } else {
        proof {
            assert forall|j: int| !#[trigger] ends_at_byte(cs@, j, b as int) by {
                if j > k && j <= cs@.len() {
                    lemma_pos_monotone(cs@, k as int, j);
                }
            }
        }
        None
    }
}

/// The span of bytes `start..end` of `source`, a text that starts at `base`: offsets are
/// shifted by the base's, the line is the base's, and the column moves by the characters
/// before `start` (by `start` when it does not fall between characters).
pub fn relative_span(base: Span, source: &str, start: usize, end: usize) -> (s: Span)
    requires
        encode_utf8(source@).len() < usize::MAX,
        base.start + start <= usize::MAX,
        base.start + end <= usize::MAX,
        base.column + column_offset(source@, start as int) <= usize::MAX,
    ensures
        s == spec_relative_span(base, source@, start as int, end as int),
{
    let cs = chars_of(source);
    let offset = match char_index_of_byte(&cs, start) {
        Some(k) => k,
        None => start,
    };
    Span::new(base.start + start, base.start + end, base.line, base.column + offset)
}


/// The first position at or after `k` where `needle` occurs in `s`.
pub open spec fn find_from(s: Seq<char>, needle: Seq<char>, k: int) -> Option<int>
    decreases s.len() - k,
{
    if k < 0 || k + needle.len() > s.len() {
        None
    } else if seq_starts_with(s.skip(k), needle) {
        Some(k)
    } else if k >= s.len() {
        None
    } else {
        find_from(s, needle, k + 1)
    }
}

/// The span of the first occurrence of `needle` in `text`, a line written at `span` (of its
/// start when `needle` is absent), or `span` for an empty `needle`.
pub open spec fn piece_span(text: Seq<char>, span: Span, needle: Seq<char>) -> Span {
    if needle.len() == 0 {
        span
    } else {
        let offset: int = match find_from(text, needle, 0) {
            Some(k) => pos_at(text, k).0 as int,
            None => 0,
        };
        spec_relative_span(span, text, offset, offset + encode_utf8(needle).len())
    }
}

/// The span of the first occurrence of `needle` in a line (of its start when `needle` is
/// absent), or the line's span for an empty `needle`.
pub open spec fn spec_span_for_substr(line: LogicalLine, needle: Seq<char>) -> Span {
    piece_span(line.text@, line.span, needle)
}

/// A byte count that ends `k` characters falls between characters there.
pub(crate) proof fn lemma_boundary_at(src: Seq<char>, k: int)
    requires
        0 <= k <= src.len(),
    ensures
        chars_before_byte(src, pos_at(src, k).0 as int) == Some(k),
{
    assert(ends_at_byte(src, k, pos_at(src, k).0 as int));
    let w = choose|j: int| #[trigger] ends_at_byte(src, j, pos_at(src, k).0 as int);
    if w != k {
        lemma_pos_injective(src, w, k);
    }
}

/// Whether `needle` occurs in `t` at `k`.
fn occurs_at(t: &[char], needle: &[char], k: usize) -> (r: bool)
    requires
        k + needle@.len() <= t@.len(),
    ensures
        r == seq_starts_with(t@.skip(k as int), needle@),
{
    let mut j: usize = 0;
    assert(t@.len() == t.len());
    while j < needle.len()
        invariant
            k + needle@.len() <= t@.len(),
            t@.len() <= usize::MAX,
            j <= needle@.len(),
            forall|x: int| 0 <= x < j ==> t@[k + x] == needle@[x],
        decreases needle@.len() - j,
    {
        if t[k + j] != needle[j] {
            proof {
                assert(t@.skip(k as int).subrange(0, needle@.len() as int)[j as int] == t@[k + j]);
            }
            return false;
        }
        j += 1;
    }
    proof {
        assert(t@.skip(k as int).subrange(0, needle@.len() as int) =~= needle@);
    }
    true
}

/// The span of `needle` within a line: of its first occurrence, of the line's start when it
/// does not occur, or the whole line's for an empty `needle`.
pub fn span_for_substr(line: &LogicalLine, needle: &str) -> (s: Span)
    requires
        encode_utf8(line.text@).len() < usize::MAX,
        line.span.start + encode_utf8(line.text@).len() + encode_utf8(needle@).len() < usize::MAX,
        line.span.column + line.text@.len() <= usize::MAX,
    ensures
        s == spec_span_for_substr(*line, needle@),
{
    let n = chars_of(needle);
    if n.len() == 0 {
        return line.span;
    }
    let t = chars_of(line.text.as_str());
    let widths = byte_offsets(&t);
    let mut k: usize = 0;
    let mut found: Option<usize> = None;
    while k < t.len() && n.len() <= t.len() - k
        invariant_except_break
            found is None,
        invariant
            t@ == line.text@,
            n@ == needle@,
            n@.len() > 0,
            k <= t@.len(),
            find_from(t@, n@, 0) == find_from(t@, n@, k as int),
        ensures
            found matches Some(f) ==> f == k && find_from(t@, n@, 0) == Some(k as int),
            found is None ==> find_from(t@, n@, 0) is None,
        decreases t@.len() - k,
    {
        if occurs_at(t.as_slice(), n.as_slice(), k) {
            found = Some(k);
            break;
        }
        k += 1;
    }
    let offset: usize = match found {
        Some(k) => widths[k],
        None => 0,
    };
    proof {
        match found {
            Some(k) => {
                assert(find_from(t@, n@, 0) == Some(k as int));
                lemma_boundary_at(t@, k as int);
                lemma_pos_bounded(t@, k as int);
            },
            None => {
                assert(find_from(t@, n@, 0) is None);
                lemma_boundary_at(t@, 0);
            },
        }
        lemma_pos_byte_is_encoding(n@, n@.len() as int);
        assert(n@.take(n@.len() as int) =~= n@);
        lemma_pos_bounded(n@, n@.len() as int);
    }
    let nbytes = byte_offsets(&n)[n.len()];
    relative_span(line.span, line.text.as_str(), offset, offset + nbytes)
}


/// Normalizing a character never makes its UTF-8 encoding longer.
proof fn lemma_normalize_width(c: char)
    ensures
        utf8_width(normalize_char(c)) <= utf8_width(c),
{
    char_is_scalar(c);
    char_is_scalar(normalize_char(c));
    if normalize_char(c) != c {
        assert((normalize_char(c) as u32) <= 0x7F);
    }
}

/// Normalizing a text never moves a character to a later byte.
proof fn lemma_normalize_pos(s: Seq<char>, k: int)
    requires
        0 <= k <= s.len(),
    ensures
        pos_at(normalize_seq(s), k).0 <= pos_at(s, k).0,
    decreases k,
{
    if k > 0 {
        lemma_normalize_pos(s, k - 1);
        lemma_normalize_width(s[k - 1]);
        assert(normalize_seq(s)[k - 1] == normalize_char(s[k - 1]));
    }
}

/// The words that start metadata lines, which never name a speaker.
pub open spec fn is_metadata_word(key: Seq<char>) -> bool {
    ||| key == "合図"@
    ||| key == "条件"@
    ||| key == "優先度"@
    ||| key == "重み"@
    ||| key == "クールダウン"@
    ||| key == "話者"@
    ||| key == "前提条件"@
    ||| key == "初期値"@
}

/// A `話者: 台詞` line cut at its first colon (`:` or `：`): the speaker part and the rest.
/// The cut is made at the byte where the colon stands in the normalized text, so a text
/// whose full-width characters before the colon move that byte off a character boundary
/// (or onto a different character) is cut there or not at all; a speaker part that is empty
/// when trimmed, or a metadata word, is no speaker.
pub open spec fn spec_split_speaker_prefix(text: Seq<char>) -> Option<(Seq<char>, Seq<char>)> {
    let n = normalize_seq(text);
    match first_index_of(n, ':') {
        None => None,
        Some(c) => {
            let b = pos_at(n, c).0 as int;
            match (chars_before_byte(text, b), chars_before_byte(text, b + 1)) {
                (Some(kl), Some(kr)) => {
                    let key = spec_trim(text.take(kl));
                    if key.len() == 0 || is_metadata_word(key) {
                        None
                    } else {
                        Some((text.take(kl), text.skip(kr)))
                    }
                },
                _ => None,
            }
        },
    }
}

/// Splits a speaker prefix off a display line, as `spec_split_speaker_prefix` describes.
pub fn split_speaker_prefix(text: &str) -> (r: Option<(String, String)>)
    requires
        encode_utf8(text@).len() < usize::MAX - 1,
    ensures
        match spec_split_speaker_prefix(text@) {
            Some((left, right)) => r matches Some(p) && p.0@ == left && p.1@ == right,
            None => r is None,
        },
{
    let t = chars_of(text);
    let n = normalize_chars(t.as_slice());
    let mut c: usize = 0;
    while c < n.len() && n[c] != ':'
        invariant
            c <= n@.len(),
            forall|j: int| 0 <= j < c ==> n@[j] != ':',
        decreases n@.len() - c,
    {
        c += 1;
    }
    if c >= n.len() {
        return None;
    }
    proof {
        let w = choose|k: int| 0 <= k < n@.len() && n@[k] == ':' && forall|j: int| 0 <= j < k ==> n@[j] != ':';
        assert(0 <= c < n@.len() && n@[c as int] == ':' && forall|j: int| 0 <= j < c ==> n@[j] != ':');
        if w < c {
            assert(false);
        } else if w > c {
            assert(n@[c as int] != ':');
        }
        lemma_normalize_pos(t@, t@.len() as int);
        lemma_pos_byte_is_encoding(t@, t@.len() as int);
        assert(t@.take(t@.len() as int) =~= t@);
        lemma_pos_byte_is_encoding(n@, n@.len() as int);
        assert(n@.take(n@.len() as int) =~= n@);
        lemma_pos_bounded(n@, c as int);
    }
    let b = byte_offsets(&n)[c];
    let kl = match char_index_of_byte(&t, b) {
        Some(k) => k,
        None => return None,
    };
    let kr = match char_index_of_byte(&t, b + 1) {
        Some(k) => k,
        None => return None,
    };
    proof {
        lemma_pos_bounded(t@, kl as int);
        lemma_pos_bounded(t@, kr as int);
        assert(ends_at_byte(t@, kl as int, b as int));
        assert(ends_at_byte(t@, kr as int, b + 1));
    }
    let left = slice_to_vec(t.as_slice(), 0, kl);
    let key = trim_chars(left.as_slice());
    if key.len() == 0 || is_lit(key.as_slice(), "合図") || is_lit(key.as_slice(), "条件") || is_lit(
        key.as_slice(),
        "優先度",
    ) || is_lit(key.as_slice(), "重み") || is_lit(key.as_slice(), "クールダウン") || is_lit(
        key.as_slice(),
        "話者",
    ) || is_lit(key.as_slice(), "前提条件") || is_lit(key.as_slice(), "初期値") {
        return None;
    }
    let right = slice_to_vec(t.as_slice(), kr, t.len());
    proof {
        assert(left@ =~= t@.take(kl as int));
        assert(right@ =~= t@.skip(kr as int));
    }
    Some((string_of(left.as_slice()), string_of(right.as_slice())))
}

} // verus!
