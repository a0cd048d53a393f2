use vstd::prelude::*;

use crate::ast::{
    spec_stmt_span, stmt_span, Assignment, ConditionalStmt, Event, JumpTarget, Scene, SceneMetadata,
    SceneMetadataRaw, Script, Stmt, SystemEvent,
};
use crate::diagnostic::DaihonDiagnostic;
use crate::expr::Node;
use crate::expr_text::{read_from, spec_expression_text, Parsed};
use crate::diagnostic::Severity;
use crate::lexer::{lex_char_errors, lex_final_mode, lex_source, lex_terminates, normalize_seq, Mode};
use vstd::utf8::encode_utf8;
use crate::span::{Span, Spanned};
use crate::statement::strip_all_char;
use crate::statement::{
    copy_line, display_span, is_precondition, lemma_substr_room, line_room, lines_room, opens_section,
    push_error, read_into, skip_blank, spec_assignment, spec_scene_list, spec_split_condition_prefix,
    stmt_matches, stmts_match, DaihonParser, Reading, StmtView,
};
use crate::syntax::{
    find_from, line_head, line_views, logical_lines, normalize_line_head, ranges_as_lines, spec_logical_lines, parsed_variable_is, piece_span, span_for_substr, split_metadata_line,
    suggest_metadata_key, LogicalLine,
};
use crate::text::{
    all_ascii_digits, chars_of, digits_value, leading_ws, parse_u64, parse_unsigned, seq_starts_with, spec_trim,
    str_is, string_of, trim_chars,
};
use crate::validate::{diagnostic_view, diagnostic_views, error_view, DiagnosticView};

verus! {

// ---------------------------------------------------------------------------
// Texts split at a separator
// ---------------------------------------------------------------------------

/// An occurrence found from `k` on lies at or after `k` and fits in the text.
pub proof fn lemma_find_range(s: Seq<char>, needle: Seq<char>, k: int)
    ensures
        find_from(s, needle, k) matches Some(i) ==> k <= i && i + needle.len() <= s.len()
            && s.subrange(i, i + needle.len()) == needle,
    decreases s.len() - k,
{
    if !(k < 0 || k + needle.len() > s.len()) && !crate::text::seq_starts_with(s.skip(k), needle) && k
        < s.len() {
        lemma_find_range(s, needle, k + 1);
    }
    if find_from(s, needle, k) == Some(k) {
        assert(s.subrange(k, k + needle.len()) =~= s.skip(k).subrange(0, needle.len() as int));
    }
}

/// The pieces of `s` between the occurrences of `sep`, found from the left (the whole
/// text when `sep` does not occur).
pub open spec fn split_items(s: Seq<char>, sep: Seq<char>) -> Seq<Seq<char>>
    decreases s.len(),
{
    match find_from(s, sep, 0) {
        Some(k) => if sep.len() > 0 {
            proof {
                lemma_find_range(s, sep, 0);
            }
            seq![s.take(k)] + split_items(s.skip(k + sep.len()), sep)
        } else {
            seq![s]
        },
        None => seq![s],
    }
}

/// The first occurrence of `sep` in `s`, as `find_from` says.
fn find_sep(s: &[char], sep: &[char]) -> (r: Option<usize>)
    requires
        sep@.len() > 0,
    ensures
        r matches Some(k) ==> k + sep@.len() <= s@.len(),
        r == (match find_from(s@, sep@, 0) {
            Some(k) => Some(k as usize),
            None => None::<usize>,
        }),
{
    let mut k: usize = 0;
    while k < s.len() && sep.len() <= s.len() - k
        invariant
            k <= s@.len(),
            find_from(s@, sep@, 0) == find_from(s@, sep@, k as int),
        decreases s@.len() - k,
    {
        let mut j: usize = 0;
        let mut same = true;
        while j < sep.len()
            invariant
                k + sep@.len() <= s@.len(),
                s@.len() == s.len(),
                j <= sep@.len(),
                same == (forall|m: int| 0 <= m < j ==> s@[k + m] == sep@[m]),
            decreases sep@.len() - j,
        {
            if s[k + j] != sep[j] {
                same = false;
            }
            j += 1;
        }
        proof {
            assert(same == crate::text::seq_starts_with(s@.skip(k as int), sep@)) by {
                if same {
                    assert(s@.skip(k as int).subrange(0, sep@.len() as int) =~= sep@);
                } else {
                    let m = choose|m: int| 0 <= m < sep@.len() && s@[k + m] != sep@[m];
                    assert(s@.skip(k as int).subrange(0, sep@.len() as int)[m] != sep@[m]);
                }
            }
        }
        if same {
            return Some(k);
        }
        k += 1;
    }
    None
}

/// Copies `s[a..b]`.
fn piece(s: &Vec<char>, a: usize, b: usize) -> (r: Vec<char>)
    requires
        a <= b <= s@.len(),
    ensures
        r@ == s@.subrange(a as int, b as int),
{
    let mut r: Vec<char> = Vec::new();
    let mut i = a;
    while i < b
        invariant
            a <= i <= b <= s@.len(),
            r@ == s@.subrange(a as int, i as int),
        decreases b - i,
    {
        r.push(s[i]);
        proof {
            assert(s@.subrange(a as int, i + 1) =~= s@.subrange(a as int, i as int).push(s@[i as int]));
        }
        i += 1;
    }
    r
}

/// The pieces of `s` between the occurrences of `sep`, as `split_items` says.
fn split_on(s: &Vec<char>, sep: &Vec<char>) -> (r: Vec<Vec<char>>)
    requires
        sep@.len() > 0,
    ensures
        r@.map_values(|v: Vec<char>| v@) == split_items(s@, sep@),
{
    let mut items: Vec<Vec<char>> = Vec::new();
    let mut rest = piece(s, 0, s.len());
    proof {
        assert(rest@ =~= s@);
        assert(items@.map_values(|v: Vec<char>| v@) + split_items(rest@, sep@) =~= split_items(s@, sep@));
    }
    loop
        invariant
            sep@.len() > 0,
            items@.map_values(|v: Vec<char>| v@) + split_items(rest@, sep@) == split_items(s@, sep@),
        decreases rest@.len(),
    {
        match find_sep(rest.as_slice(), sep.as_slice()) {
            Some(k) => {
                proof {
                    lemma_find_range(rest@, sep@, 0);
                }
                let n = rest.len();
                let front = piece(&rest, 0, k);
                let back = piece(&rest, k + sep.len(), n);
                let ghost old_items = items@;
                let ghost old_rest = rest@;
                items.push(front);
                rest = back;
                proof {
                    assert(front@ =~= old_rest.take(k as int));
                    assert(back@ =~= old_rest.skip(k + sep@.len()));
                    assert(items@.map_values(|v: Vec<char>| v@) =~= old_items.map_values(|v: Vec<char>| v@).push(
                        front@,
                    ));
                    assert(items@.map_values(|v: Vec<char>| v@) + split_items(rest@, sep@) =~= old_items.map_values(
                        |v: Vec<char>| v@,
                    ) + split_items(old_rest, sep@));
                }
            },
            None => {
                let ghost old_items = items@;
                let ghost last = rest@;
                items.push(rest);
                proof {
                    assert(items@.map_values(|v: Vec<char>| v@) =~= old_items.map_values(|v: Vec<char>| v@) + seq![
                        last,
                    ]);
                }
                return items;
            },
        }
    }
}

/// `s` without every leading `c`, as `strip_all_char` says.
fn strip_leading(s: &Vec<char>, c: char) -> (r: Vec<char>)
    ensures
        r@ == strip_all_char(s@, c),
{
    let mut a: usize = 0;
    proof {
        assert(s@.skip(0) =~= s@);
    }
    while a < s.len() && s[a] == c
        invariant
            a <= s@.len(),
            strip_all_char(s@, c) == strip_all_char(s@.skip(a as int), c),
        decreases s@.len() - a,
    {
        proof {
            assert(s@.skip(a as int).drop_first() =~= s@.skip(a + 1));
        }
        a += 1;
    }
    let r = piece(s, a, s.len());
    proof {
        assert(r@ =~= s@.skip(a as int));
    }
    r
}

// ---------------------------------------------------------------------------
// Signals
// ---------------------------------------------------------------------------

/// The signal a piece of a `合図` value names: trimmed, without its leading `@` and `＠`
/// marks, trimmed again and normalized.
pub open spec fn signal_name(item: Seq<char>) -> Seq<char> {
    normalize_seq(spec_trim(strip_all_char(strip_all_char(spec_trim(item), '@'), '＠')))
}

/// The signals the pieces `items` name, in order, blank pieces left out, each spanning
/// `span`.
pub open spec fn signals_of(items: Seq<Seq<char>>, span: Span) -> Seq<(Seq<char>, Span)>
    decreases items.len(),
{
    if items.len() == 0 {
        Seq::empty()
    } else if spec_trim(items[0]).len() == 0 {
        signals_of(items.drop_first(), span)
    } else {
        seq![(signal_name(items[0]), span)] + signals_of(items.drop_first(), span)
    }
}

/// The name and span of a signal.
pub open spec fn signal_views(v: Seq<SystemEvent>) -> Seq<(Seq<char>, Span)> {
    v.map_values(|e: SystemEvent| (e.name.value@, e.name.span))
}

/// Reads the signals of a `合図` value: the pieces between `または`, as `signals_of` says.
fn read_signals(value: &Vec<char>, span: Span) -> (r: Vec<SystemEvent>)
    ensures
        signal_views(r@) == signals_of(split_items(value@, "または"@), span),
{
    let sep = chars_of("または");
    proof {
        reveal_strlit("または");
    }
    let items = split_on(value, &sep);
    let ghost all = items@.map_values(|v: Vec<char>| v@);
    let mut signals: Vec<SystemEvent> = Vec::new();
    let mut i: usize = 0;
    proof {
        assert(all.skip(0) =~= all);
        assert(signal_views(signals@) + signals_of(all.skip(0), span) =~= signals_of(all, span));
    }
    while i < items.len()
        invariant
            i <= items@.len(),
            all == items@.map_values(|v: Vec<char>| v@),
            all == split_items(value@, sep@),
            sep@ == "または"@,
            signal_views(signals@) + signals_of(all.skip(i as int), span) == signals_of(all, span),
        decreases items@.len() - i,
    {
        let t = trim_chars(items[i].as_slice());
        let ghost before = signals@;
        proof {
            assert(all.skip(i as int).drop_first() =~= all.skip(i + 1));
            assert(all.skip(i as int)[0] == items@[i as int]@);
        }
        if t.len() > 0 {
            let a = strip_leading(&t, '@');
            let b = strip_leading(&a, '＠');
            let c = trim_chars(b.as_slice());
            let n = crate::lexer::normalize_chars(c.as_slice());
            let name = string_of(n.as_slice());
            signals.push(SystemEvent::new(name.as_str(), span));
            proof {
                assert(signal_views(signals@) =~= signal_views(before).push((signal_name(all[i as int]), span)));
                assert(signal_views(before).push((signal_name(all[i as int]), span)) + signals_of(all.skip(i + 1), span)
                    =~= signal_views(before) + signals_of(all.skip(i as int), span));
            }
        }
        i += 1;
    }
    proof {
        assert(all.skip(i as int) =~= Seq::<Seq<char>>::empty());
        assert(signal_views(signals@) + Seq::<(Seq<char>, Span)>::empty() =~= signal_views(signals@));
    }
    signals
}

// ---------------------------------------------------------------------------
// Numbers in a scene header
// ---------------------------------------------------------------------------

/// A signed 32-bit integer as written: an optional sign, then decimal digits; none for
/// anything else or a value out of range.
pub open spec fn spec_parse_i32(s: Seq<char>) -> Option<int> {
    if s.len() > 0 && s[0] == '-' {
        let body = s.drop_first();
        if body.len() > 0 && all_ascii_digits(body) && digits_value(body) <= 0x8000_0000 {
            Some(-(digits_value(body) as int))
        } else {
            None
        }
    } else {
        match parse_unsigned(s) {
            Some(n) => if n <= i32::MAX {
                Some(n as int)
            } else {
                None
            },
            None => None,
        }
    }
}

/// Reads a signed 32-bit integer, as `spec_parse_i32` says.
pub fn parse_i32(s: &[char]) -> (r: Option<i32>)
    ensures
        match spec_parse_i32(s@) {
            Some(v) => r == Some(v as i32),
            None => r is None,
        },
{
    if s.len() > 0 && s[0] == '-' {
        let body = crate::syntax::slice_to_vec(s, 1, s.len());
        proof {
            assert(body@ =~= s@.drop_first());
        }
        if body.len() == 0 || body[0] == '+' {
            proof {
                if body@.len() > 0 {
                    assert(!crate::text::is_ascii_digit(body@[0]));
                }
            }
            return None;
        }
        match parse_u64(body.as_slice()) {
            Some(n) => {
                proof {
                    assert(crate::text::unsigned_body(body@) == body@);
                }
                if n <= 0x8000_0000 {
                    let v: i64 = 0 - (n as i64);
                    Some(v as i32)
                } else {
                    None
                }
            },
            None => {
                proof {
                    assert(crate::text::unsigned_body(body@) == body@);
                }
                None
            },
        }
    } else {
        match parse_u64(s) {
            Some(n) => if n <= 0x7fff_ffff {
                Some(n as i32)
            } else {
                None
            },
            None => None,
        }
    }
}

// ---------------------------------------------------------------------------
// Scene headers as read
// ---------------------------------------------------------------------------

/// A text with its span.
pub open spec fn spanned_view(s: Spanned<String>) -> (Seq<char>, Span) {
    (s.value@, s.span)
}

/// An optional text with its span.
pub open spec fn opt_spanned_view(s: Option<Spanned<String>>) -> Option<(Seq<char>, Span)> {
    match s {
        Some(x) => Some(spanned_view(x)),
        None => None,
    }
}

/// Texts with their spans.
pub open spec fn spanned_views(v: Seq<Spanned<String>>) -> Seq<(Seq<char>, Span)> {
    v.map_values(|x: Spanned<String>| spanned_view(x))
}

/// The scene header fields as written.
pub struct RawView {
    pub signal_text: Option<(Seq<char>, Span)>,
    pub signal_used_and: bool,
    pub condition_had_marker: bool,
    pub priority_text: Option<(Seq<char>, Span)>,
    pub weight_text: Option<(Seq<char>, Span)>,
    pub cooldown_text: Option<(Seq<char>, Span)>,
    pub condition_text: Option<(Seq<char>, Span)>,
    pub unknown_keys: Seq<(Seq<char>, Span)>,
}

/// The fields of `r` as written.
pub open spec fn raw_view(r: SceneMetadataRaw) -> RawView {
    RawView {
        signal_text: opt_spanned_view(r.signal_text),
        signal_used_and: r.signal_used_and,
        condition_had_marker: r.condition_had_marker,
        priority_text: opt_spanned_view(r.priority_text),
        weight_text: opt_spanned_view(r.weight_text),
        cooldown_text: opt_spanned_view(r.cooldown_text),
        condition_text: opt_spanned_view(r.condition_text),
        unknown_keys: spanned_views(r.unknown_metadata_keys@),
    }
}

/// A scene header as read: signals, the condition (its text, shape and span), priority,
/// weight, cooldown in seconds, speaker, and the fields as written.
pub struct MetaView {
    pub signals: Seq<(Seq<char>, Span)>,
    pub condition: Option<(Seq<char>, Node, Span)>,
    pub priority: int,
    pub weight: int,
    pub cooldown: Option<int>,
    pub speaker: Option<(Seq<char>, Span)>,
    pub raw: RawView,
}

/// `m` is the scene header read as `v`.
pub open spec fn meta_matches(m: SceneMetadata, v: MetaView) -> bool {
    &&& signal_views(m.signals@) == v.signals
    &&& match v.condition {
        None => m.condition is None,
        Some((t, n, sp)) => m.condition matches Some(e) && read_from(e, n, t, sp),
    }
    &&& m.priority == v.priority
    &&& m.weight == v.weight
    &&& (match m.cooldown {
        Some(c) => Some(c as int),
        None => None,
    }) == v.cooldown
    &&& opt_spanned_view(m.speaker) == v.speaker
    &&& raw_view(m.raw) == v.raw
}

/// A header with no field: no signal or condition, priority 0, weight 1.
pub open spec fn default_meta() -> MetaView {
    MetaView {
        signals: Seq::empty(),
        condition: None,
        priority: 0,
        weight: 1,
        cooldown: None,
        speaker: None,
        raw: RawView {
            signal_text: None,
            signal_used_and: false,
            condition_had_marker: false,
            priority_text: None,
            weight_text: None,
            cooldown_text: None,
            condition_text: None,
            unknown_keys: Seq::empty(),
        },
    }
}

/// The keys a scene header takes.
pub open spec fn scene_key(k: Seq<char>) -> bool {
    k == "合図"@ || k == "条件"@ || k == "優先度"@ || k == "重み"@ || k == "クールダウン"@ || k == "話者"@
}

/// The condition text of a `条件` value: trimmed, its leading `※` marks dropped, and
/// without the parentheses around it.
pub open spec fn condition_text_of(value: Seq<char>) -> Seq<char> {
    crate::syntax::spec_trim_condition_wrapper(strip_all_char(spec_trim(value), '※'))
}

/// The value opens with `※` after its leading blanks.
pub open spec fn marked_condition(value: Seq<char>) -> bool {
    let u = value.skip(leading_ws(value) as int);
    u.len() > 0 && u[0] == '※'
}

/// Reading the header line of key `key` (a scene key) with value `value` at `vspan`
/// into `v`: the header after it and the diagnostics added; nothing where a reader it
/// uses is not defined.
pub open spec fn meta_step(key: Seq<char>, value: Seq<char>, vspan: Span, v: MetaView) -> Option<
    (MetaView, Seq<DiagnosticView>),
> {
    let t = spec_trim(value);
    let raw = v.raw;
    if key == "合図"@ {
        Some((
            MetaView {
                signals: v.signals + signals_of(split_items(value, "または"@), vspan),
                raw: RawView {
                    signal_text: Some((t, vspan)),
                    signal_used_and: find_from(value, "かつ"@, 0) is Some,
                    ..raw
                },
                ..v
            },
            Seq::empty(),
        ))
    } else if key == "条件"@ {
        let raw2 = RawView {
            condition_had_marker: marked_condition(value),
            condition_text: Some((t, vspan)),
            ..raw
        };
        let ct = condition_text_of(value);
        match spec_expression_text(ct, vspan, true) {
            Parsed::Done(n) => Some((MetaView { condition: Some((ct, n, vspan)), raw: raw2, ..v }, Seq::empty())),
            Parsed::Failed(d) => Some((MetaView { raw: raw2, ..v }, seq![d])),
            Parsed::Undefined => None,
        }
    } else if key == "優先度"@ {
        Some((
            MetaView {
                priority: match spec_parse_i32(normalize_seq(t)) {
                    Some(p) => p,
                    None => v.priority,
                },
                raw: RawView { priority_text: Some((t, vspan)), ..raw },
                ..v
            },
            Seq::empty(),
        ))
    } else if key == "重み"@ {
        Some((
            MetaView {
                weight: match parse_unsigned(normalize_seq(t)) {
                    Some(w) => if w <= u32::MAX {
                        w as int
                    } else {
                        0
                    },
                    None => 0,
                },
                raw: RawView { weight_text: Some((t, vspan)), ..raw },
                ..v
            },
            Seq::empty(),
        ))
    } else if key == "クールダウン"@ {
        match crate::syntax::spec_parse_duration(t) {
            Some(secs) => if secs <= u64::MAX {
                Some((
                    MetaView { cooldown: Some(secs as int), raw: RawView { cooldown_text: Some((t, vspan)), ..raw }, ..v },
                    Seq::empty(),
                ))
            } else {
                None
            },
            None => Some((
                MetaView { cooldown: None, raw: RawView { cooldown_text: Some((t, vspan)), ..raw }, ..v },
                Seq::empty(),
            )),
        }
    } else {
        Some((MetaView { speaker: Some((t, vspan)), ..v }, Seq::empty()))
    }
}


/// A `条件` value's condition text is no longer than the value.
proof fn lemma_condition_text_len(value: Seq<char>)
    ensures
        condition_text_of(value).len() <= value.len(),
{
    crate::text::lemma_trim_len(value);
    crate::statement::lemma_strip_char_len(spec_trim(value), '※');
    let u = strip_all_char(spec_trim(value), '※');
    crate::text::lemma_trim_len(u);
    crate::text::lemma_trim_len(spec_trim(u));
}

/// The number of leading blanks of `s`, as `leading_ws` says.
fn leading_blanks(s: &Vec<char>) -> (n: usize)
    ensures
        n == leading_ws(s@),
        n <= s@.len(),
{
    let mut k: usize = 0;
    proof {
        assert(s@.skip(0) =~= s@);
    }
    while k < s.len() && crate::text::char_is_whitespace(s[k])
        invariant
            k <= s@.len(),
            leading_ws(s@) == k + leading_ws(s@.skip(k as int)),
        decreases s@.len() - k,
    {
        proof {
            assert(s@.skip(k as int).drop_first() =~= s@.skip(k + 1));
        }
        k += 1;
    }
    k
}

/// Reads a scene header line of key `key` (a scene key) and value `value` at `vspan`
/// into `meta`, as `meta_step` says.
#[verifier::rlimit(60)]
#[verifier::spinoff_prover]
fn apply_header_field(
    meta: &mut SceneMetadata,
    key: &str,
    value: &str,
    vspan: Span,
    diagnostics: &mut Vec<DaihonDiagnostic>,
    v: Ghost<MetaView>,
)
    requires
        meta_matches(*old(meta), v@),
        scene_key(key@),
        crate::expr_text::text_room(vspan, value@.len() as int),
        meta_step(key@, value@, vspan, v@) is Some,
    ensures
        meta_step(key@, value@, vspan, v@) matches Some((v2, ds)) && meta_matches(*final(meta), v2)
            && diagnostic_views(final(diagnostics)@) == diagnostic_views(old(diagnostics)@) + ds,
{
    let ghost before = diagnostics@;
    let vc = chars_of(value);
    let t = trim_chars(vc.as_slice());
    let ts = string_of(t.as_slice());
    proof {
        assert(diagnostic_views(before) + Seq::<DiagnosticView>::empty() =~= diagnostic_views(before));
    }
    if str_is(key, "合図") {
        let kc = chars_of("かつ");
        proof {
            reveal_strlit("かつ");
        }
        let and = find_sep(vc.as_slice(), kc.as_slice()).is_some();
        let mut signals = read_signals(&vc, vspan);
        let ghost old_signals = meta.signals@;
        meta.raw.signal_used_and = and;
        meta.raw.signal_text = Some(Spanned::new(ts, vspan));
        meta.signals.append(&mut signals);
        proof {
            assert(signal_views(meta.signals@) =~= signal_views(old_signals) + signals_of(split_items(value@, "または"@), vspan));
        }
    } else if str_is(key, "条件") {
        let lead = leading_blanks(&vc);
        let marked = lead < vc.len() && vc[lead] == '※';
        proof {
            if lead < vc@.len() {
                assert(vc@.skip(lead as int)[0] == vc@[lead as int]);
            }
        }
        meta.raw.condition_had_marker = marked;
        meta.raw.condition_text = Some(Spanned::new(ts, vspan));
        let stripped = strip_leading(&t, '※');
        let ct = crate::syntax::trim_condition_wrapper(string_of(stripped.as_slice()).as_str());
        proof {
            lemma_condition_text_len(value@);
        }
        match crate::expr_text::parse_condition_expr(ct.as_str(), vspan) {
            Ok(e) => {
                meta.condition = Some(e);
            },
            Err(d) => {
                diagnostics.push(d);
                proof {
                    crate::validate::lemma_views_push(before, d);
                    assert(diagnostic_views(before).push(diagnostic_view(d)) =~= diagnostic_views(before) + seq![diagnostic_view(d)]);
                }
            },
        }
    } else if str_is(key, "優先度") {
        meta.raw.priority_text = Some(Spanned::new(ts, vspan));
        let n = crate::lexer::normalize_chars(t.as_slice());
        match parse_i32(n.as_slice()) {
            Some(p) => {
                meta.priority = p;
            },
            None => {},
        }
    } else if str_is(key, "重み") {
        meta.raw.weight_text = Some(Spanned::new(ts, vspan));
        let n = crate::lexer::normalize_chars(t.as_slice());
        meta.weight = match parse_u64(n.as_slice()) {
            Some(w) => if w <= 0xffff_ffff {
                w as u32
            } else {
                0
            },
            None => 0,
        };
    } else if str_is(key, "クールダウン") {
        let cooldown = crate::syntax::parse_duration(ts.as_str());
        meta.raw.cooldown_text = Some(Spanned::new(ts, vspan));
        meta.cooldown = cooldown;
    } else {
        meta.speaker = Some(Spanned::new(ts, vspan));
    }
}


/// A key and value cut from a line's head are no longer than the line.
proof fn lemma_header_pieces(text: Seq<char>)
    ensures
        crate::syntax::spec_split_metadata_line(line_head(text)) matches Some((k, v)) ==> k.len() <= text.len()
            && v.len() <= text.len(),
{
    crate::text::lemma_trim_len(text);
    let n = line_head(text);
    assert(n.len() <= text.len());
    lemma_split_pieces(n);
}

/// A key and value cut from a text are no longer than it.
proof fn lemma_split_pieces(n: Seq<char>)
    ensures
        crate::syntax::spec_split_metadata_line(n) matches Some((k, v)) ==> k.len() <= n.len() && v.len() <= n.len(),
{
    lemma_colon_index(n);
    if let Some(k) = crate::syntax::first_index_of(n, ':') {
        crate::text::lemma_trim_len(n.take(k));
    }
}

/// The first `:` lies inside the text.
proof fn lemma_colon_index(n: Seq<char>)
    ensures
        crate::syntax::first_index_of(n, ':') matches Some(k) ==> 0 <= k < n.len(),
{
    if exists|i: int| 0 <= i < n.len() && n[i] == ':' {
        let w = choose|i: int| 0 <= i < n.len() && n[i] == ':';
        lemma_first_witness(n, ':', w);
    }
}

/// Where `c` occurs, it has a first occurrence.
proof fn lemma_first_witness(n: Seq<char>, c: char, w: int)
    requires
        0 <= w < n.len(),
        n[w] == c,
    ensures
        exists|i: int| 0 <= i < n.len() && n[i] == c && forall|j: int| 0 <= j < i ==> n[j] != c,
    decreases w,
{
    if exists|j: int| 0 <= j < w && n[j] == c {
        let j = choose|j: int| 0 <= j < w && n[j] == c;
        lemma_first_witness(n, c, j);
    } else {
        assert(0 <= w < n.len() && n[w] == c && forall|j: int| 0 <= j < w ==> n[j] != c);
    }
}

/// Reading scene header lines from line `i` on into `v`, after the diagnostics `ds`: lines
/// of a scene key are read in; a line whose key may be a misspelled scene key is noted and
/// skipped; any other line ends the header. The header, the line after it, and all
/// diagnostics; nothing where a reader it uses is not defined.
pub open spec fn spec_meta(lines: Seq<LogicalLine>, i: int, v: MetaView, ds: Seq<DiagnosticView>) -> Option<
    (MetaView, int, Seq<DiagnosticView>),
>
    decreases lines.len() - i,
{
    if i < 0 || i >= lines.len() {
        Some((v, i, ds))
    } else {
        let text = lines[i].text@;
        let span = lines[i].span;
        match crate::syntax::spec_split_metadata_line(line_head(text)) {
            None => Some((v, i, ds)),
            Some((key, value)) => if !scene_key(key) {
                if crate::syntax::first_suggestion(key, crate::syntax::suggestion_keys()) is Some {
                    spec_meta(
                        lines,
                        i + 1,
                        MetaView { raw: RawView { unknown_keys: v.raw.unknown_keys.push((key, piece_span(text, span, key))), ..v.raw }, ..v },
                        ds,
                    )
                } else {
                    Some((v, i, ds))
                }
            } else {
                match meta_step(key, value, piece_span(text, span, value), v) {
                    Some((v2, d2)) => spec_meta(lines, i + 1, v2, ds + d2),
                    None => None,
                }
            },
        }
    }
}

/// Whether `key` is a scene key.
fn is_scene_key(key: &str) -> (b: bool)
    ensures
        b == scene_key(key@),
{
    str_is(key, "合図") || str_is(key, "条件") || str_is(key, "優先度") || str_is(key, "重み") || str_is(
        key,
        "クールダウン",
    ) || str_is(key, "話者")
}

/// A header with no field.
fn empty_metadata() -> (m: SceneMetadata)
    ensures
        meta_matches(m, default_meta()),
{
    let m = SceneMetadata {
        signals: Vec::new(),
        condition: None,
        priority: 0,
        weight: 1,
        cooldown: None,
        speaker: None,
        raw: SceneMetadataRaw {
            signal_text: None,
            signal_used_and: false,
            condition_had_marker: false,
            priority_text: None,
            weight_text: None,
            cooldown_text: None,
            condition_text: None,
            unknown_metadata_keys: Vec::new(),
        },
    };
    proof {
        assert(signal_views(m.signals@) =~= Seq::<(Seq<char>, Span)>::empty());
        assert(spanned_views(m.raw.unknown_metadata_keys@) =~= Seq::<(Seq<char>, Span)>::empty());
    }
    m
}

impl DaihonParser {
    /// Reads the header lines of a scene from the current line on, as `spec_meta` says
    /// from a header with no field.
    #[verifier::rlimit(80)]
    #[verifier::spinoff_prover]
    pub fn parse_scene_metadata(&mut self) -> (m: SceneMetadata)
        requires
            lines_room(old(self).lines@),
            old(self).index <= old(self).lines@.len(),
            spec_meta(old(self).lines@, old(self).index as int, default_meta(), Seq::empty()) is Some,
        ensures
            spec_meta(old(self).lines@, old(self).index as int, default_meta(), Seq::empty()) matches Some(
                (v, j, ds),
            ) && meta_matches(m, v) && final(self).lines@ == old(self).lines@ && final(self).index == j
                && diagnostic_views(final(self).diagnostics@) == diagnostic_views(old(self).diagnostics@) + ds,
    {
        let ghost lines = self.lines@;
        let ghost i0 = self.index as int;
        let ghost start = self.diagnostics@;
        let ghost target = spec_meta(lines, i0, default_meta(), Seq::empty());
        let mut meta = empty_metadata();
        let ghost mut v = default_meta();
        let ghost mut added: Seq<DiagnosticView> = Seq::empty();
        let mut done = false;
        proof {
            assert(diagnostic_views(start) + added =~= diagnostic_views(start));
        }
        while !done && self.index < self.lines.len()
            invariant
                self.lines@ == lines,
                lines_room(lines),
                self.index <= lines.len(),
                target is Some,
                !done ==> target == spec_meta(lines, self.index as int, v, added),
                done ==> target == Some((v, self.index as int, added)),
                meta_matches(meta, v),
                diagnostic_views(self.diagnostics@) == diagnostic_views(start) + added,
            decreases lines.len() - self.index, if done { 0int } else { 1int },
        {
            let line = copy_line(&self.lines[self.index]);
            let ghost i = self.index as int;
            proof {
                assert(line_room(lines[i]));
                lemma_header_pieces(line.text@);
            }
            let head = normalize_line_head(line.text.as_str());
            match split_metadata_line(head.as_str()) {
                None => {
                    done = true;
                },
                Some((key, value)) => {
                    if !is_scene_key(key.as_str()) {
                        if suggest_metadata_key(key.as_str()).is_some() {
                            proof {
                                lemma_substr_room(line, key@);
                            }
                            let key_span = span_for_substr(&line, key.as_str());
                            let ghost old_keys = meta.raw.unknown_metadata_keys@;
                            meta.raw.unknown_metadata_keys.push(Spanned::new(key, key_span));
                            proof {
                                assert(spanned_views(meta.raw.unknown_metadata_keys@) =~= spanned_views(old_keys).push(
                                    (key@, key_span),
                                ));
                                v = MetaView { raw: RawView { unknown_keys: v.raw.unknown_keys.push((key@, key_span)), ..v.raw }, ..v };
                            }
                            self.index = self.index + 1;
                        } else {
                            done = true;
                        }
                    } else {
                        proof {
                            lemma_substr_room(line, value@);
                        }
                        let vspan = span_for_substr(&line, value.as_str());
                        let ghost step = meta_step(key@, value@, vspan, v).unwrap();
                        apply_header_field(&mut meta, key.as_str(), value.as_str(), vspan, &mut self.diagnostics, Ghost(v));
                        proof {
                            assert(diagnostic_views(self.diagnostics@) =~= diagnostic_views(start) + (added + step.1));
                            v = step.0;
                            added = added + step.1;
                        }
                        self.index = self.index + 1;
                    }
                },
            }
        }
        meta
    }
}


// ---------------------------------------------------------------------------
// Scenes
// ---------------------------------------------------------------------------

/// The span a statement read as `v` covers.
pub open spec fn view_span(v: StmtView) -> Span {
    match v {
        StmtView::Display(ps) => display_span(ps),
        StmtView::SpeakerDisplay(_, sp, ps) => sp.spec_join(display_span(ps)),
        StmtView::Assign(_, span) => span,
        StmtView::Jump(_, span) => span,
        StmtView::Conditional(_, _, span, _) => span,
    }
}

/// A statement read as `v` covers the span `view_span` gives.
proof fn lemma_view_span(s: Stmt, v: StmtView)
    requires
        stmt_matches(s, v),
    ensures
        spec_stmt_span(s) == view_span(v),
{
}

/// A scene as read: its name, the span of its header line, its header fields, its
/// statements and its span.
pub struct SceneView {
    pub name: Seq<char>,
    pub header_span: Span,
    pub meta: MetaView,
    pub statements: Seq<StmtView>,
    pub span: Span,
}

/// `sc` is the scene read as `v`.
pub open spec fn scene_matches(sc: Scene, v: SceneView) -> bool {
    &&& sc.name.value@ == v.name
    &&& sc.name.span == v.header_span
    &&& meta_matches(sc.metadata, v.meta)
    &&& stmts_match(sc.statements@, v.statements)
    &&& sc.span == v.span
}

/// The diagnostic for a scene that does not open with a scene header.
pub open spec fn scene_header_error(span: Span) -> DiagnosticView {
    error_view("E-DHN-SYN-020"@, "シーンヘッダーが必要です。"@, span, None)
}

/// The diagnostic for a scene with an empty name.
pub open spec fn empty_scene_name_error(span: Span) -> DiagnosticView {
    error_view("E-DHN-SEM-004"@, "シーン名が空です。"@, span, None)
}

/// Reading a scene from its header line `i`: the scene (header, header fields, and
/// statements up to the next scene) spanning from its header to its last statement (or
/// its speaker, or the header alone); nothing, and the diagnostic, for a line that is no
/// scene header.
#[verifier::opaque]
pub open spec fn spec_scene(lines: Seq<LogicalLine>, i: int) -> Option<Reading<Option<SceneView>>> {
    let h = lines[i];
    match crate::syntax::spec_parse_header(h.text@, "###"@) {
        None => Some(Reading { value: None, next: i + 1, diags: seq![scene_header_error(h.span)] }),
        Some(name) => {
            let d0 = if spec_trim(name).len() == 0 {
                seq![empty_scene_name_error(h.span)]
            } else {
                Seq::empty()
            };
            match scene_body(lines, i + 1, name, h.span) {
                Some(r) => Some(Reading { value: r.value, next: r.next, diags: d0 + r.diags }),
                None => None,
            }
        },
    }
}

/// Reading the rest of a scene named `name` whose header line, at `hspan`, comes before
/// line `i`: its header fields, then its statements up to the next scene.
#[verifier::opaque]
pub open spec fn scene_body(lines: Seq<LogicalLine>, i: int, name: Seq<char>, hspan: Span) -> Option<
    Reading<Option<SceneView>>,
> {
    match spec_meta(lines, i, default_meta(), Seq::empty()) {
        Some((m, j, dm)) => if i <= j <= lines.len() {
            match spec_scene_list(lines, j) {
                Some(r) => {
                    let end = if r.value.len() > 0 {
                        view_span(r.value.last())
                    } else {
                        match m.speaker {
                            Some((_, sp)) => sp,
                            None => hspan,
                        }
                    };
                    Some(Reading {
                        value: Some(SceneView { name, header_span: hspan, meta: m, statements: r.value, span: hspan.spec_join(end) }),
                        next: r.next,
                        diags: dm + r.diags,
                    })
                },
                None => None,
            }
        } else {
            None
        },
        None => None,
    }
}

/// The last statement read covers the span its view gives.
proof fn lemma_last_span(ss: Seq<Stmt>, vs: Seq<StmtView>)
    requires
        stmts_match(ss, vs),
        vs.len() > 0,
    ensures
        spec_stmt_span(ss[vs.len() - 1]) == view_span(vs.last()),
{
    assert(vs[vs.len() - 1] == vs.last());
    lemma_view_span(ss[vs.len() - 1], vs[vs.len() - 1]);
}

impl DaihonParser {
    /// Reads the scene whose header is the current line, as `spec_scene` says.
    #[verifier::rlimit(40)]
    pub fn parse_scene(&mut self) -> (r: Option<Scene>)
        requires
            lines_room(old(self).lines@),
            old(self).index < old(self).lines@.len(),
            spec_scene(old(self).lines@, old(self).index as int) is Some,
        ensures
            spec_scene(old(self).lines@, old(self).index as int) matches Some(rd) && read_into(*old(self), *final(self), rd)
                && match rd.value {
                Some(v) => r matches Some(sc) && scene_matches(sc, v),
                None => r is None,
            },
    {
        proof {
            reveal(spec_scene);
        }
        let ghost start = self.diagnostics@;
        let header = copy_line(&self.lines[self.index]);
        self.index = self.index + 1;
        let name = match crate::syntax::parse_header(&header, "###") {
            Some(n) => n,
            None => {
                push_error(&mut self.diagnostics, "E-DHN-SYN-020", "シーンヘッダーが必要です。", header.span);
                proof {
                    assert(diagnostic_views(start).push(scene_header_error(header.span)) =~= diagnostic_views(start) + seq![
                        scene_header_error(header.span),
                    ]);
                }
                return None;
            },
        };
        let nc = chars_of(name.value.as_str());
        let ghost d0: Seq<DiagnosticView> = Seq::empty();
        if trim_chars(nc.as_slice()).len() == 0 {
            push_error(&mut self.diagnostics, "E-DHN-SEM-004", "シーン名が空です。", header.span);
            proof {
                d0 = seq![empty_scene_name_error(header.span)];
                assert(diagnostic_views(start).push(empty_scene_name_error(header.span)) =~= diagnostic_views(start) + d0);
            }
        } else {
            proof {
                assert(diagnostic_views(start) + d0 =~= diagnostic_views(start));
            }
        }
        let ghost mid = self.diagnostics@;
        let r = self.parse_scene_body(name, header.span);
        proof {
            let rb = scene_body(old(self).lines@, old(self).index + 1, name.value@, header.span)->Some_0;
            assert(diagnostic_views(self.diagnostics@) =~= diagnostic_views(start) + (d0 + rb.diags));
        }
        r
    }

    /// Reads the rest of a scene named `name`, whose header line is at `hspan`, as
    /// `scene_body` says.
    #[verifier::rlimit(60)]
    #[verifier::spinoff_prover]
    fn parse_scene_body(&mut self, name: Spanned<String>, hspan: Span) -> (r: Option<Scene>)
        requires
            lines_room(old(self).lines@),
            old(self).index <= old(self).lines@.len(),
            name.span == hspan,
            scene_body(old(self).lines@, old(self).index as int, name.value@, hspan) is Some,
        ensures
            scene_body(old(self).lines@, old(self).index as int, name.value@, hspan) matches Some(rd) && read_into(
                *old(self),
                *final(self),
                rd,
            ) && match rd.value {
                Some(v) => r matches Some(sc) && scene_matches(sc, v),
                None => r is None,
            },
    {
        proof {
            reveal(scene_body);
        }
        let ghost lines = self.lines@;
        let ghost start = self.diagnostics@;
        let metadata = self.parse_scene_metadata();
        let ghost mr = spec_meta(lines, old(self).index as int, default_meta(), Seq::empty())->Some_0;
        let statements = self.parse_stmt_list_until_scene();
        let ghost rl = spec_scene_list(lines, mr.1)->Some_0;
        let n = statements.len();
        let end = if n > 0 {
            proof {
                lemma_last_span(statements@, rl.value);
            }
            stmt_span(&statements[n - 1])
        } else {
            match &metadata.speaker {
                Some(sp) => sp.span,
                None => hspan,
            }
        };
        proof {
            assert(diagnostic_views(self.diagnostics@) =~= diagnostic_views(start) + (mr.2 + rl.diags));
        }
        let span = hspan.join(end);
        Some(Scene { name, metadata, statements, span })
    }
}


// ---------------------------------------------------------------------------
// The event and its sections
// ---------------------------------------------------------------------------

/// A precondition as read: its condition's text, shape and span (the line's).
pub open spec fn pre_matches(c: ConditionalStmt, v: (Seq<char>, Node, Span)) -> bool {
    &&& read_from(c.condition, v.1, v.0, v.2)
    &&& *c.action == (Stmt::Jump(JumpTarget::EndEvent { span: v.2 }))
    &&& c.span == v.2
}

/// A starting value as read: what `spec_assignment` reads from the line, and its span.
pub open spec fn default_matches(a: Assignment, v: ((Seq<char>, Span, Seq<char>, Span, Node), Span)) -> bool {
    &&& parsed_variable_is(a.target, v.0.0, v.0.1)
    &&& read_from(a.value, v.0.4, v.0.2, v.0.3)
    &&& a.span == v.1
}

/// The diagnostic for a precondition section line that is no precondition.
pub open spec fn pre_error(span: Span) -> DiagnosticView {
    error_view("E-DHN-SYN-010"@, "前提条件には 条件付き →おわり だけを書けます。"@, span, None)
}

/// The diagnostic for a starting-value section line that is no assignment.
pub open spec fn default_error(span: Span) -> DiagnosticView {
    error_view("E-DHN-SYN-011"@, "初期値ブロックには代入だけを書けます。"@, span, None)
}

/// The line starts a section or a scene.
pub open spec fn ends_pre_section(text: Seq<char>) -> bool {
    seq_starts_with(line_head(text), "前提条件:"@) || seq_starts_with(line_head(text), "初期値:"@)
        || seq_starts_with(line_head(text), "###"@)
}

/// Reading the precondition section from line `i` on, up to a section or a scene: blank
/// lines are skipped, each precondition is read, and any other line is reported. The
/// preconditions, the line after the section, and all diagnostics.
#[verifier::opaque]
pub open spec fn spec_pre(lines: Seq<LogicalLine>, i: int, acc: Seq<(Seq<char>, Node, Span)>, ds: Seq<DiagnosticView>) -> Option<
    (Seq<(Seq<char>, Node, Span)>, int, Seq<DiagnosticView>),
>
    decreases lines.len() - i,
{
    if i < 0 || i >= lines.len() {
        Some((acc, i, ds))
    } else {
        let t = lines[i].text@;
        let sp = lines[i].span;
        let h = line_head(t);
        if ends_pre_section(t) {
            Some((acc, i, ds))
        } else if spec_trim(t).len() == 0 {
            spec_pre(lines, i + 1, acc, ds)
        } else if h.len() > 0 && h[0] == '※' && spec_split_condition_prefix(t, sp) is Undefined {
            None
        } else if is_precondition(t, sp) {
            let split = spec_split_condition_prefix(t, sp)->Done_0->Some_0;
            spec_pre(lines, i + 1, acc.push((split.0, split.1, sp)), ds)
        } else {
            spec_pre(lines, i + 1, acc, ds.push(pre_error(sp)))
        }
    }
}

/// Reading the starting-value section from line `i` on, up to a scene: blank lines are
/// skipped, each assignment is read, and any other line is reported (after what reading
/// it reported). The assignments, the line after the section, and all diagnostics.
#[verifier::opaque]
pub open spec fn spec_defaults(
    lines: Seq<LogicalLine>,
    i: int,
    acc: Seq<((Seq<char>, Span, Seq<char>, Span, Node), Span)>,
    ds: Seq<DiagnosticView>,
) -> Option<(Seq<((Seq<char>, Span, Seq<char>, Span, Node), Span)>, int, Seq<DiagnosticView>)>
    decreases lines.len() - i,
{
    if i < 0 || i >= lines.len() {
        Some((acc, i, ds))
    } else {
        let t = lines[i].text@;
        let sp = lines[i].span;
        if seq_starts_with(line_head(t), "###"@) {
            Some((acc, i, ds))
        } else if spec_trim(t).len() == 0 {
            spec_defaults(lines, i + 1, acc, ds)
        } else {
            match spec_assignment(t, sp) {
                Parsed::Done(Some(parts)) => spec_defaults(lines, i + 1, acc.push((parts, sp)), ds),
                Parsed::Done(None) => spec_defaults(lines, i + 1, acc, ds.push(default_error(sp))),
                Parsed::Failed(d) => spec_defaults(lines, i + 1, acc, ds.push(d).push(default_error(sp))),
                Parsed::Undefined => None,
            }
        }
    }
}

/// Reading scenes from line `i` on to the last line: blank lines are skipped, and a line
/// that is no scene header is reported and skips the line after it too. The scenes and
/// all diagnostics.
#[verifier::opaque]
pub open spec fn spec_scenes(lines: Seq<LogicalLine>, i: int, acc: Seq<SceneView>, ds: Seq<DiagnosticView>) -> Option<
    (Seq<SceneView>, Seq<DiagnosticView>),
>
    decreases lines.len() + 1 - i,
{
    if i < 0 {
        None
    } else {
        let j = skip_blank(lines, i);
        if j < 0 || j >= lines.len() {
            Some((acc, ds))
        } else {
            match spec_scene(lines, j) {
                Some(r) => {
                    let next = if r.value is Some {
                        r.next
                    } else {
                        r.next + 1
                    };
                    if i < next <= lines.len() + 1 {
                        spec_scenes(
                            lines,
                            next,
                            match r.value {
                                Some(sc) => acc.push(sc),
                                None => acc,
                            },
                            ds + r.diags,
                        )
                    } else {
                        None
                    }
                },
                None => None,
            }
        }
    }
}

/// An event as read: its name and the span of its header line, its preconditions,
/// starting values and scenes, and its span.
pub struct EventView {
    pub name: Seq<char>,
    pub name_span: Span,
    pub preconditions: Seq<(Seq<char>, Node, Span)>,
    pub defaults: Seq<((Seq<char>, Span, Seq<char>, Span, Node), Span)>,
    pub scenes: Seq<SceneView>,
    pub span: Span,
}

/// `e` is the event read as `v`.
pub open spec fn event_matches(e: Event, v: EventView) -> bool {
    &&& e.name.value@ == v.name
    &&& e.name.span == v.name_span
    &&& e.preconditions@.len() == v.preconditions.len()
    &&& forall|k: int| #![trigger v.preconditions[k]] 0 <= k < v.preconditions.len() ==> pre_matches(e.preconditions@[k], v.preconditions[k])
    &&& e.defaults@.len() == v.defaults.len()
    &&& forall|k: int| #![trigger v.defaults[k]] 0 <= k < v.defaults.len() ==> default_matches(e.defaults@[k], v.defaults[k])
    &&& e.scenes@.len() == v.scenes.len()
    &&& forall|k: int| #![trigger v.scenes[k]] 0 <= k < v.scenes.len() ==> scene_matches(e.scenes@[k], v.scenes[k])
    &&& e.span == v.span
}

/// The diagnostic for a script that does not open with an event header.
pub open spec fn no_event_header_error(span: Span) -> DiagnosticView {
    error_view(
        "E-DHN-SYN-001"@,
        "イベントヘッダーがありません。"@,
        span,
        Some("台本の先頭に ## イベント名 を書いてください。"@),
    )
}

/// The diagnostic for an event with an empty name.
pub open spec fn empty_event_name_error(span: Span) -> DiagnosticView {
    error_view("E-DHN-SEM-001"@, "イベント名が空です。"@, span, None)
}

/// The diagnostic for an event without scenes.
pub open spec fn no_scene_error(span: Span) -> DiagnosticView {
    error_view(
        "E-DHN-SEM-003"@,
        "シーンが1つもありません。"@,
        span,
        Some("### シーン名 を少なくとも1つ追加してください。"@),
    )
}

/// Reading the event of a script's lines: its header (after blank lines), an optional
/// precondition section, an optional starting-value section, and its scenes; nothing,
/// and no diagnostic, for lines that are all blank; nothing, and the diagnostic, for a
/// first line that is no event header. The event and all diagnostics.
#[verifier::opaque]
pub open spec fn spec_event(lines: Seq<LogicalLine>) -> Option<(Option<EventView>, Seq<DiagnosticView>)> {
    let i0 = skip_blank(lines, 0);
    if i0 >= lines.len() {
        Some((None, Seq::empty()))
    } else {
        let ev = lines[i0];
        match crate::syntax::spec_parse_header(ev.text@, "##"@) {
            None => Some((None, seq![no_event_header_error(ev.span)])),
            Some(name) => {
                let d0 = if spec_trim(name).len() == 0 {
                    seq![empty_event_name_error(ev.span)]
                } else {
                    Seq::empty()
                };
                let i1 = skip_blank(lines, i0 + 1);
                let pre = if opens_section(lines, i1, "前提条件"@) {
                    spec_pre(lines, i1 + 1, Seq::empty(), d0)
                } else {
                    Some((Seq::empty(), i1, d0))
                };
                match pre {
                    Some((pres, i2, d1)) => {
                        let i3 = skip_blank(lines, i2);
                        let defs = if opens_section(lines, i3, "初期値"@) {
                            spec_defaults(lines, i3 + 1, Seq::empty(), d1)
                        } else {
                            Some((Seq::empty(), i3, d1))
                        };
                        match defs {
                            Some((defaults, i4, d2)) => match spec_scenes(lines, i4, Seq::empty(), d2) {
                                Some((scenes, d3)) => {
                                    let d4 = if scenes.len() == 0 {
                                        d3.push(no_scene_error(ev.span))
                                    } else {
                                        d3
                                    };
                                    let span = ev.span.spec_join(
                                        if scenes.len() > 0 {
                                            scenes.last().span
                                        } else {
                                            ev.span
                                        },
                                    );
                                    Some((
                                        Some(EventView { name, name_span: ev.span, preconditions: pres, defaults, scenes, span }),
                                        d4,
                                    ))
                                },
                                None => None,
                            },
                            None => None,
                        }
                    },
                    None => None,
                }
            },
        }
    }
}


/// Adds an error with one span and a help text.
fn push_error_with_help(diagnostics: &mut Vec<DaihonDiagnostic>, code: &str, message: &str, span: Span, help: &str)
    ensures
        diagnostic_views(final(diagnostics)@) == diagnostic_views(old(diagnostics)@).push(
            error_view(code@, message@, span, Some(help@)),
        ),
{
    let d = DaihonDiagnostic::error(code, message, span).with_help(help);
    proof {
        assert(diagnostic_view(d).labels =~= seq![(span, None::<Seq<char>>)]);
    }
    let ghost before = diagnostics@;
    diagnostics.push(d);
    proof {
        crate::validate::lemma_views_push(before, d);
    }
}

impl DaihonParser {
    /// Reads the precondition section from the current line on, as `spec_pre` says.
    #[verifier::rlimit(60)]
    #[verifier::spinoff_prover]
    pub fn parse_precondition_section(&mut self, d0: Ghost<Seq<DiagnosticView>>) -> (r: Vec<ConditionalStmt>)
        requires
            diagnostic_views(old(self).diagnostics@) == d0@,
            lines_room(old(self).lines@),
            old(self).index <= old(self).lines@.len(),
            spec_pre(old(self).lines@, old(self).index as int, Seq::empty(), d0@) is Some,
        ensures
            final(self).index <= final(self).lines@.len(),
            spec_pre(old(self).lines@, old(self).index as int, Seq::empty(), d0@) matches Some((vs, j, ds)) && r@.len()
                == vs.len() && (forall|k: int| #![trigger vs[k]] 0 <= k < vs.len() ==> pre_matches(r@[k], vs[k]))
                && final(self).lines@ == old(self).lines@ && final(self).index == j && diagnostic_views(
                final(self).diagnostics@,
            ) == ds,
    {
        proof {
            reveal_with_fuel(spec_pre, 1);
        }
        let ghost lines = self.lines@;
        let ghost start = self.diagnostics@;
        let ghost target = spec_pre(lines, self.index as int, Seq::empty(), d0@);
        let mut pres: Vec<ConditionalStmt> = Vec::new();
        let ghost mut vs: Seq<(Seq<char>, Node, Span)> = Seq::empty();
        let ghost mut added: Seq<DiagnosticView> = d0@;
        let mut done = false;
        while !done && self.index < self.lines.len()
            invariant
                self.lines@ == lines,
                lines_room(lines),
                self.index <= lines.len(),
                target is Some,
                !done ==> target == spec_pre(lines, self.index as int, vs, added),
                done ==> target == Some((vs, self.index as int, added)),
                pres@.len() == vs.len(),
                forall|k: int| #![trigger vs[k]] 0 <= k < vs.len() ==> pre_matches(pres@[k], vs[k]),
                diagnostic_views(self.diagnostics@) == added,
            decreases lines.len() - self.index, if done { 0int } else { 1int },
        {
            proof {
                reveal_with_fuel(spec_pre, 1);
            }
            let line = copy_line(&self.lines[self.index]);
            let ghost i = self.index as int;
            proof {
                assert(line_room(lines[i]));
            }
            if crate::syntax::is_section_start(line.text.as_str()) || crate::syntax::is_scene_header(line.text.as_str()) {
                done = true;
            } else if trim_chars(chars_of(line.text.as_str()).as_slice()).len() == 0 {
                self.index = self.index + 1;
            } else {
                self.index = self.index + 1;
                let ghost old_vs = vs;
                let ghost old_added = added;
                match self.parse_precondition_line(&line) {
                    Some(c) => {
                        let ghost split = spec_split_condition_prefix(line.text@, line.span)->Done_0->Some_0;
                        pres.push(c);
                        proof {
                            vs = vs.push((split.0, split.1, line.span));
                            assert forall|k: int| #![trigger vs[k]] 0 <= k < vs.len() implies pre_matches(pres@[k], vs[k]) by {
                                if k < old_vs.len() {
                                    assert(old_vs[k] == vs[k]);
                                }
                            }
                        }
                    },
                    None => {
                        push_error(&mut self.diagnostics, "E-DHN-SYN-010", "前提条件には 条件付き →おわり だけを書けます。", line.span);
                        proof {
                            added = added.push(pre_error(line.span));

                        }
                    },
                }
            }
        }
        pres
    }

    /// Reads the starting-value section from the current line on, as `spec_defaults` says.
    #[verifier::rlimit(60)]
    #[verifier::spinoff_prover]
    pub fn parse_default_section(&mut self, d0: Ghost<Seq<DiagnosticView>>) -> (r: Vec<Assignment>)
        requires
            diagnostic_views(old(self).diagnostics@) == d0@,
            lines_room(old(self).lines@),
            old(self).index <= old(self).lines@.len(),
            spec_defaults(old(self).lines@, old(self).index as int, Seq::empty(), d0@) is Some,
        ensures
            final(self).index <= final(self).lines@.len(),
            spec_defaults(old(self).lines@, old(self).index as int, Seq::empty(), d0@) matches Some((vs, j, ds)) && r@.len()
                == vs.len() && (forall|k: int| #![trigger vs[k]] 0 <= k < vs.len() ==> default_matches(r@[k], vs[k]))
                && final(self).lines@ == old(self).lines@ && final(self).index == j && diagnostic_views(
                final(self).diagnostics@,
            ) == ds,
    {
        proof {
            reveal_with_fuel(spec_defaults, 1);
        }
        let ghost lines = self.lines@;
        let ghost start = self.diagnostics@;
        let ghost target = spec_defaults(lines, self.index as int, Seq::empty(), d0@);
        let mut defaults: Vec<Assignment> = Vec::new();
        let ghost mut vs: Seq<((Seq<char>, Span, Seq<char>, Span, Node), Span)> = Seq::empty();
        let ghost mut added: Seq<DiagnosticView> = d0@;
        let mut done = false;
        while !done && self.index < self.lines.len()
            invariant
                self.lines@ == lines,
                lines_room(lines),
                self.index <= lines.len(),
                target is Some,
                !done ==> target == spec_defaults(lines, self.index as int, vs, added),
                done ==> target == Some((vs, self.index as int, added)),
                defaults@.len() == vs.len(),
                forall|k: int| #![trigger vs[k]] 0 <= k < vs.len() ==> default_matches(defaults@[k], vs[k]),
                diagnostic_views(self.diagnostics@) == added,
            decreases lines.len() - self.index, if done { 0int } else { 1int },
        {
            proof {
                reveal_with_fuel(spec_defaults, 1);
            }
            let line = copy_line(&self.lines[self.index]);
            let ghost i = self.index as int;
            proof {
                assert(line_room(lines[i]));
            }
            if crate::syntax::is_scene_header(line.text.as_str()) {
                done = true;
            } else if trim_chars(chars_of(line.text.as_str()).as_slice()).len() == 0 {
                self.index = self.index + 1;
            } else {
                self.index = self.index + 1;
                let ghost old_vs = vs;
                let ghost old_added = added;
                let ghost before = self.diagnostics@;
                match crate::statement::parse_assignment(&line, &mut self.diagnostics) {
                    Some(a) => {
                        let ghost parts = spec_assignment(line.text@, line.span)->Done_0->Some_0;
                        defaults.push(a);
                        proof {
                            vs = vs.push((parts, line.span));
                            assert forall|k: int| #![trigger vs[k]] 0 <= k < vs.len() implies default_matches(defaults@[k], vs[k]) by {
                                if k < old_vs.len() {
                                    assert(old_vs[k] == vs[k]);
                                }
                            }
                            assert(diagnostic_views(self.diagnostics@) =~= diagnostic_views(before));
                        }
                    },
                    None => {
                        proof {
                            if let Parsed::Failed(d) = spec_assignment(line.text@, line.span) {
                                crate::statement::lemma_grew_by_one(before, self.diagnostics@);
                                added = added.push(d);
                            } else {
                                assert(diagnostic_views(self.diagnostics@) =~= diagnostic_views(before));
                            }
                        }
                        push_error(&mut self.diagnostics, "E-DHN-SYN-011", "初期値ブロックには代入だけを書けます。", line.span);
                        proof {
                            let a1 = added;
                            added = added.push(default_error(line.span));

                        }
                    },
                }
            }
        }
        defaults
    }

    /// Reads the scenes from the current line on, as `spec_scenes` says.
    #[verifier::rlimit(60)]
    #[verifier::spinoff_prover]
    pub fn parse_scene_section(&mut self, d0: Ghost<Seq<DiagnosticView>>) -> (r: Vec<Scene>)
        requires
            diagnostic_views(old(self).diagnostics@) == d0@,
            lines_room(old(self).lines@),
            old(self).index <= old(self).lines@.len(),
            spec_scenes(old(self).lines@, old(self).index as int, Seq::empty(), d0@) is Some,
        ensures
            spec_scenes(old(self).lines@, old(self).index as int, Seq::empty(), d0@) matches Some((vs, ds)) && r@.len()
                == vs.len() && (forall|k: int| #![trigger vs[k]] 0 <= k < vs.len() ==> scene_matches(r@[k], vs[k]))
                && final(self).lines@ == old(self).lines@ && diagnostic_views(final(self).diagnostics@) == ds,
    {
        proof {
            reveal_with_fuel(spec_scenes, 1);
        }
        let ghost lines = self.lines@;
        let ghost start = self.diagnostics@;
        let ghost target = spec_scenes(lines, self.index as int, Seq::empty(), d0@);
        let mut scenes: Vec<Scene> = Vec::new();
        let ghost mut vs: Seq<SceneView> = Seq::empty();
        let ghost mut added: Seq<DiagnosticView> = d0@;
        let mut done = false;
        while !done && self.index < self.lines.len()
            invariant
                self.lines@ == lines,
                lines_room(lines),
                self.index <= lines.len() + 1,
                target is Some,
                !done ==> target == spec_scenes(lines, self.index as int, vs, added),
                done ==> target == Some((vs, added)),
                scenes@.len() == vs.len(),
                forall|k: int| #![trigger vs[k]] 0 <= k < vs.len() ==> scene_matches(scenes@[k], vs[k]),
                diagnostic_views(self.diagnostics@) == added,
            decreases lines.len() + 1 - self.index, if done { 0int } else { 1int },
        {
            proof {
                reveal_with_fuel(spec_scenes, 1);
            }
            let ghost i = self.index as int;
            proof {
                lemma_skip_blank_range(lines, i);
            }
            self.skip_empty();
            if self.index >= self.lines.len() {
                done = true;
            } else {
                let ghost j = self.index as int;
                let ghost old_vs = vs;
                let ghost before = self.diagnostics@;
                let ghost rd = spec_scene(lines, j)->Some_0;
                match self.parse_scene() {
                    Some(sc) => {
                        scenes.push(sc);
                        proof {
                            vs = vs.push(rd.value->Some_0);
                            assert forall|k: int| #![trigger vs[k]] 0 <= k < vs.len() implies scene_matches(scenes@[k], vs[k]) by {
                                if k < old_vs.len() {
                                    assert(old_vs[k] == vs[k]);
                                }
                            }
                        }
                    },
                    None => {
                        self.index = self.index + 1;
                    },
                }
                proof {
                    let a1 = added;
                    added = added + rd.diags;
                    assert(diagnostic_views(self.diagnostics@) =~= a1 + rd.diags);
                    assert(skip_blank(lines, i) == j);
                    assert(spec_scenes(lines, i, old_vs, a1) == (if i < self.index <= lines.len() + 1 {
                        spec_scenes(lines, self.index as int, vs, added)
                    } else {
                        None
                    }));
                }
            }
        }
        scenes
    }
}


/// Skipping blank lines moves forward, and not past the last line.
pub proof fn lemma_skip_blank_range(lines: Seq<LogicalLine>, i: int)
    requires
        0 <= i <= lines.len(),
    ensures
        i <= skip_blank(lines, i) <= lines.len(),
    decreases lines.len() - i,
{
    if 0 <= i < lines.len() && spec_trim(lines[i].text@).len() == 0 {
        lemma_skip_blank_range(lines, i + 1);
    }
}

impl DaihonParser {
    /// Reads the event of the parser's lines from the first line on, as `spec_event` says.
    #[verifier::rlimit(80)]
    #[verifier::spinoff_prover]
    pub fn parse_script(&mut self) -> (r: Option<Script>)
        requires
            lines_room(old(self).lines@),
            old(self).index == 0,
            old(self).diagnostics@.len() == 0,
            spec_event(old(self).lines@) is Some,
        ensures
            spec_event(old(self).lines@) matches Some((ev, ds)) && diagnostic_views(final(self).diagnostics@) == ds
                && match ev {
                Some(e) => r matches Some(sc) && event_matches(sc.event, e) && sc.span == e.span,
                None => r is None,
            },
    {
        proof {
            reveal(spec_event);
        }
        let ghost lines = self.lines@;
        proof {
            assert(diagnostic_views(self.diagnostics@) =~= Seq::<DiagnosticView>::empty());
            lemma_skip_blank_range(lines, 0);
        }
        self.skip_empty();
        if self.index >= self.lines.len() {
            return None;
        }
        let ghost i0 = self.index as int;
        let event_line = copy_line(&self.lines[self.index]);
        self.index = self.index + 1;
        let event_name = match crate::syntax::parse_header(&event_line, "##") {
            Some(n) => n,
            None => {
                push_error_with_help(
                    &mut self.diagnostics,
                    "E-DHN-SYN-001",
                    "イベントヘッダーがありません。",
                    event_line.span,
                    "台本の先頭に ## イベント名 を書いてください。",
                );
                proof {
                    assert(Seq::<DiagnosticView>::empty().push(no_event_header_error(event_line.span)) =~= seq![
                        no_event_header_error(event_line.span),
                    ]);
                }
                return None;
            },
        };
        if trim_chars(chars_of(event_name.value.as_str()).as_slice()).len() == 0 {
            push_error(&mut self.diagnostics, "E-DHN-SEM-001", "イベント名が空です。", event_line.span);
            proof {
                assert(Seq::<DiagnosticView>::empty().push(empty_event_name_error(event_line.span)) =~= seq![
                    empty_event_name_error(event_line.span),
                ]);
            }
        }
        proof {
            lemma_skip_blank_range(lines, i0 + 1);
        }
        self.skip_empty();
        let preconditions = if self.current_is_section("前提条件") {
            self.index = self.index + 1;
            self.parse_precondition_section(Ghost(diagnostic_views(self.diagnostics@)))
        } else {
            Vec::new()
        };
        let ghost i2 = self.index as int;
        proof {
            lemma_skip_blank_range(lines, i2);
        }
        self.skip_empty();
        let defaults = if self.current_is_section("初期値") {
            self.index = self.index + 1;
            self.parse_default_section(Ghost(diagnostic_views(self.diagnostics@)))
        } else {
            Vec::new()
        };
        let scenes = self.parse_scene_section(Ghost(diagnostic_views(self.diagnostics@)));
        let ghost ev = spec_event(lines)->Some_0.0->Some_0;
        if scenes.len() == 0 {
            push_error_with_help(
                &mut self.diagnostics,
                "E-DHN-SEM-003",
                "シーンが1つもありません。",
                event_line.span,
                "### シーン名 を少なくとも1つ追加してください。",
            );
        }
        let n = scenes.len();
        let last = if n > 0 {
            proof {
                assert(ev.scenes.last() == ev.scenes[n - 1]);
            }
            scenes[n - 1].span
        } else {
            event_line.span
        };
        let span = event_line.span.join(last);
        Some(Script { event: Event { name: event_name, preconditions, defaults, scenes, span }, span })
    }
}

/// The lexer finishes without a diagnostic.
pub open spec fn lex_clean(src: Seq<char>) -> bool {
    lex_char_errors(src) == 0 && lex_final_mode(src) == Mode::Default
}

/// `d` is what the lexer reports about `src`: one error per disallowed character and one
/// for a dialogue or call left open at the end.
pub open spec fn lex_report(src: Seq<char>, d: Seq<DaihonDiagnostic>) -> bool {
    &&& d.len() == lex_char_errors(src) + if lex_final_mode(src) != Mode::Default {
        1int
    } else {
        0int
    }
    &&& forall|i: int| 0 <= i < d.len() ==> #[trigger] d[i].severity == Severity::Error
    &&& (lex_final_mode(src) == Mode::Dialogue || lex_final_mode(src) == Mode::FunctionString) ==> d.last().code@
        == "E-DHN-LEX-001"@
    &&& lex_final_mode(src) == Mode::Function ==> d.last().code@ == "E-DHN-LEX-002"@
}

/// The logical lines of `src`, as texts and spans.
pub open spec fn script_lines(src: Seq<char>) -> Seq<(Seq<char>, Span)> {
    ranges_as_lines(src, spec_logical_lines(src))
}

/// Every reader is defined on the logical lines of `src`, and they leave room for their
/// positions.
pub open spec fn script_readable(src: Seq<char>) -> bool {
    forall|ls: Seq<LogicalLine>| #[trigger] line_views(ls) == script_lines(src) ==> lines_room(ls) && spec_event(ls) is Some
}

/// The diagnostic for a script with no line.
pub open spec fn empty_script_error() -> DiagnosticView {
    error_view(
        "E-DHN-SYN-001"@,
        "台本が空です。## イベント名 から始めてください。"@,
        Span { start: 0, end: 0, line: 0, column: 0 },
        None,
    )
}

/// `r` is what reading the lines `ls` gives: the script of the event read when there is no
/// diagnostic; else the diagnostics (the one for an empty script when there is neither).
pub open spec fn script_outcome(r: Result<Script, Vec<DaihonDiagnostic>>, ls: Seq<LogicalLine>) -> bool {
    match spec_event(ls) {
        Some((ev, ds)) => if ds.len() == 0 {
            match ev {
                Some(e) => r matches Ok(sc) && event_matches(sc.event, e) && sc.span == e.span,
                None => r matches Err(d) && diagnostic_views(d@) == seq![empty_script_error()],
            }
        } else {
            r matches Err(d) && diagnostic_views(d@) == ds
        },
        None => true,
    }
}

/// Reads a Daihon script: what the lexer reports when it finds a problem; else the event
/// its logical lines read as, or all the diagnostics reading them gave.
pub fn parse_script(source: &str) -> (r: Result<Script, Vec<DaihonDiagnostic>>)
    requires
        encode_utf8(source@).len() < usize::MAX,
        lex_terminates(source@),
        script_readable(source@),
    ensures
        !lex_clean(source@) ==> (r matches Err(d) && lex_report(source@, d@)),
        lex_clean(source@) ==> exists|ls: Seq<LogicalLine>| #[trigger] line_views(ls) == script_lines(source@) && script_outcome(r, ls),
{
    match lex_source(source) {
        Err(d) => {
            return Err(d);
        },
        Ok(_) => {},
    }
    let lines = logical_lines(source);
    let ghost ls = lines@;
    proof {
        assert(line_views(ls) == script_lines(source@));
    }
    let mut parser = DaihonParser { lines, index: 0, diagnostics: Vec::new() };
    let script = parser.parse_script();
    if parser.diagnostics.len() == 0 {
        match script {
            Some(s) => Ok(s),
            None => {
                let mut d: Vec<DaihonDiagnostic> = Vec::new();
                let e = DaihonDiagnostic::error("E-DHN-SYN-001", "台本が空です。## イベント名 から始めてください。", Span::empty());
                proof {
                    assert(diagnostic_view(e).labels =~= seq![(Span { start: 0, end: 0, line: 0, column: 0 }, None::<Seq<char>>)]);
                }
                d.push(e);
                proof {
                    assert(diagnostic_views(d@) =~= seq![diagnostic_view(e)]);
                }
                Err(d)
            },
        }
    } else {
        Err(parser.diagnostics)
    }
}

} // verus!
