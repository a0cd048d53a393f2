use vstd::prelude::*;
use vstd::utf8::*;

use crate::diagnostic::{DaihonDiagnostic, Severity};
use crate::span::Span;
use crate::text::{char_string, opt_view, chars_of, push_char, range_string, seq_starts_with, spec_trim, string_of, trim_chars};
use crate::syntax::is_lit;
use crate::token::{Token, TokenKind};

verus! {

// ---------------------------------------------------------------------------
// Characters
// ---------------------------------------------------------------------------

/// Blank characters the lexer skips between tokens.
pub open spec fn is_space(c: char) -> bool {
    c == ' ' || c == '\t' || c == '\u{3000}'
}

/// Half-width or full-width decimal digit.
pub open spec fn is_digit(c: char) -> bool {
    ('0' <= c <= '9') || ('\u{FF10}' <= c <= '\u{FF19}')
}

/// ASCII letter.
pub open spec fn is_ascii_alpha(c: char) -> bool {
    ('a' <= c <= 'z') || ('A' <= c <= 'Z')
}

/// A character that can begin an identifier.
pub open spec fn is_identifier_start(c: char) -> bool {
    ||| c == '_'
    ||| c == '\u{FF3F}'
    ||| is_ascii_alpha(c)
    ||| ('\u{3041}' <= c <= '\u{3093}')
    ||| ('\u{30A1}' <= c <= '\u{30F3}')
    ||| ('\u{4E00}' <= c <= '\u{9FAF}')
    ||| ('\u{FF21}' <= c <= '\u{FF3A}')
    ||| ('\u{FF41}' <= c <= '\u{FF5A}')
    ||| c == '\u{30FC}'
}

/// A character that can continue an identifier.
pub open spec fn is_identifier_continue(c: char) -> bool {
    is_identifier_start(c) || is_digit(c) || c == '\u{2025}' || c == '\u{2026}' || c == '.' || c
        == '\u{30FC}'
}

/// The half-width form the lexer normalizes a character to.
pub open spec fn normalize_char(c: char) -> char {
    if c == '\u{FF1D}' {
        '='
    } else if c == '\u{FF03}' {
        '#'
    } else if c == '\u{FF1A}' {
        ':'
    } else if c == '\u{FF04}' {
        '$'
    } else if c == '\u{FF3F}' {
        '_'
    } else if c == '\u{FF01}' {
        '!'
    } else if c == '\u{FF5E}' || c == '\u{301C}' {
        '~'
    } else if c == '\u{FF0B}' {
        '+'
    } else if c == '\u{FF0D}' {
        '-'
    } else if c == '\u{FF0A}' {
        '*'
    } else if c == '\u{FF0F}' {
        '/'
    } else if c == '\u{FF05}' {
        '%'
    } else if c == '\u{FF20}' {
        '@'
    } else if c == '\u{FF0E}' {
        '.'
    } else if c == '\u{FF08}' {
        '('
    } else if c == '\u{FF09}' {
        ')'
    } else if c == '\u{3000}' {
        ' '
    } else if '\u{FF10}' <= c <= '\u{FF19}' {
        (((c as u32) - 0xFF10 + 0x30) as u8) as char
    } else if '\u{FF21}' <= c <= '\u{FF3A}' {
        (((c as u32) - 0xFF21 + 0x41) as u8) as char
    } else if '\u{FF41}' <= c <= '\u{FF5A}' {
        (((c as u32) - 0xFF41 + 0x61) as u8) as char
    } else {
        c
    }
}

/// Every character of `s` normalized.
pub open spec fn normalize_seq(s: Seq<char>) -> Seq<char> {
    s.map_values(|c: char| normalize_char(c))
}

/// Characters that start an operator token outside function calls.
pub open spec fn is_default_operator(c: char) -> bool {
    c == '=' || c == '\u{FF1D}' || c == '!' || c == '\u{FF01}' || c == '<' || c == '>' || c == '+'
        || c == '\u{FF0B}' || c == '-' || c == '\u{FF0D}' || c == '*' || c == '\u{FF0A}' || c
        == '/' || c == '\u{FF0F}' || c == '%' || c == '\u{FF05}' || c == '~' || c == '\u{FF5E}'
        || c == '\u{301C}'
}

/// Characters that start an operator token inside function calls.
pub open spec fn is_function_operator(c: char) -> bool {
    c == '=' || c == '\u{FF1D}' || c == '!' || c == '\u{FF01}' || c == '<' || c == '>' || c == '+'
        || c == '\u{FF0B}' || c == '-' || c == '\u{FF0D}' || c == '*' || c == '\u{FF0A}' || c
        == '/' || c == '\u{FF0F}' || c == '%' || c == '\u{FF05}' || c == '(' || c == '\u{FF08}'
        || c == ')' || c == '\u{FF09}'
}

/// The character classes the lexer reads maximal runs of.
#[derive(Clone, Copy)]
pub enum CharClass {
    /// Anything but a line break.
    NotLineEnd,
    /// Dialogue text: anything but `」`, `「`, `＜`, `＞`.
    DialogueText,
    /// Text of a string inside a function call: anything but `」`, `「`.
    FunctionStringText,
    /// ASCII letters and digits.
    AsciiAlnum,
    /// Identifier characters and `#`/`＃`.
    IdentifierOrHash,
}

/// Membership of a character in a run class.
pub open spec fn in_class(class: CharClass, c: char) -> bool {
    match class {
        CharClass::NotLineEnd => c != '\n' && c != '\r',
        CharClass::DialogueText => c != '\u{300D}' && c != '\u{300C}' && c != '\u{FF1C}' && c
            != '\u{FF1E}',
        CharClass::FunctionStringText => c != '\u{300D}' && c != '\u{300C}',
        CharClass::AsciiAlnum => is_ascii_alpha(c) || ('0' <= c <= '9'),
        CharClass::IdentifierOrHash => is_identifier_continue(c) || c == '#' || c == '\u{FF03}',
    }
}

/// Where the maximal run of `class` characters starting at `i` ends.
pub open spec fn run_end(src: Seq<char>, i: int, class: CharClass) -> int
    decreases src.len() - i,
{
    if i < 0 || i >= src.len() || !in_class(class, src[i]) {
        i
    } else {
        run_end(src, i + 1, class)
    }
}

// ---------------------------------------------------------------------------
// Positions
// ---------------------------------------------------------------------------

/// Number of UTF-8 bytes of `c`.
pub open spec fn utf8_width(c: char) -> nat {
    encode_scalar(c as u32).len()
}

/// Byte offset, 1-based line and 1-based character column after the first
/// `k` characters of `src`. Only `\n` starts a new line.
pub open spec fn pos_at(src: Seq<char>, k: int) -> (nat, nat, nat)
    decreases k,
{
    if k <= 0 {
        (0, 1, 1)
    } else {
        let p = pos_at(src, k - 1);
        let c = src[k - 1];
        (
            p.0 + utf8_width(c),
            if c == '\n' {
                p.1 + 1
            } else {
                p.1
            },
            if c == '\n' {
                1
            } else {
                p.2 + 1
            },
        )
    }
}

/// The byte offset after `k` characters is the length of their UTF-8 encoding.
pub proof fn lemma_pos_byte_is_encoding(src: Seq<char>, k: int)
    requires
        0 <= k <= src.len(),
    ensures
        pos_at(src, k).0 == encode_utf8(src.take(k)).len(),
    decreases k,
{
    if k > 0 {
        lemma_pos_byte_is_encoding(src, k - 1);
        assert(src.take(k) =~= src.take(k - 1).push(src[k - 1]));
        lemma_encode_push(src.take(k - 1), src[k - 1]);
    }
}

/// Encoding one more character appends its encoding.
pub proof fn lemma_encode_push(s: Seq<char>, c: char)
    ensures
        encode_utf8(s.push(c)) == encode_utf8(s) + encode_scalar(c as u32),
    decreases s.len(),
{
    if s.len() == 0 {
        let one = s.push(c);
        assert(one.drop_first() =~= Seq::<char>::empty());
        assert(one[0] == c);
        assert(encode_utf8(one) == encode_scalar(c as u32) + encode_utf8(one.drop_first()));
        assert(encode_utf8(Seq::<char>::empty()) =~= Seq::<u8>::empty());
        assert(encode_utf8(one) =~= encode_scalar(c as u32));
        assert(encode_utf8(s) =~= Seq::<u8>::empty());
    } else {
        assert(s.push(c).drop_first() =~= s.drop_first().push(c));
        lemma_encode_push(s.drop_first(), c);
        assert(encode_utf8(s.push(c)) =~= encode_utf8(s) + encode_scalar(c as u32));
    }
}

/// Positions only move forward, and each character is at least one byte.
pub proof fn lemma_pos_monotone(src: Seq<char>, a: int, b: int)
    requires
        0 <= a <= b <= src.len(),
    ensures
        pos_at(src, a).0 + (b - a) <= pos_at(src, b).0,
        pos_at(src, b).1 <= b + 1,
        pos_at(src, b).2 <= b + 1,
    decreases b,
{
    lemma_pos_line_column(src, b);
    if b > a {
        lemma_pos_monotone(src, a, b - 1);
        char_is_scalar(src[b - 1]);
    }
}

/// Line and column never exceed one more than the characters read.
pub proof fn lemma_pos_line_column(src: Seq<char>, b: int)
    requires
        0 <= b <= src.len(),
    ensures
        pos_at(src, b).1 <= b + 1,
        pos_at(src, b).2 <= b + 1,
    decreases b,
{
    if b > 0 {
        lemma_pos_line_column(src, b - 1);
    }
}

/// Every prefix is encoded in no more bytes than the whole text.
pub proof fn lemma_pos_bounded(src: Seq<char>, k: int)
    requires
        0 <= k <= src.len(),
    ensures
        pos_at(src, k).0 <= encode_utf8(src).len(),
{
    lemma_pos_monotone(src, k, src.len() as int);
    lemma_pos_byte_is_encoding(src, src.len() as int);
    assert(src.take(src.len() as int) =~= src);
}

// ---------------------------------------------------------------------------
// What each step of the lexer consumes
// ---------------------------------------------------------------------------

/// The lexer's modes.
#[derive(Clone, Copy, Debug, PartialEq, Eq)]
pub enum Mode {
    Default,
    Dialogue,
    Function,
    FunctionString,
}

/// The current mode of a mode stack.
pub open spec fn top_mode(modes: Seq<Mode>) -> Mode {
    if modes.len() == 0 {
        Mode::Default
    } else {
        modes.last()
    }
}

/// The mode stack after leaving the current mode; the bottom mode stays.
pub open spec fn popped(modes: Seq<Mode>) -> Seq<Mode> {
    if modes.len() > 1 {
        modes.drop_last()
    } else {
        modes
    }
}

/// A token the lexer emits, by its kind and the characters `start..end` it covers.
pub struct Piece {
    pub kind: TokenKind,
    pub start: int,
    pub end: int,
}

/// One step of the lexer: where it continues, the mode stack after it,
/// whether it reported a disallowed character, and the tokens it emitted.
pub struct Step {
    pub index: int,
    pub modes: Seq<Mode>,
    pub error: bool,
    pub pieces: Seq<Piece>,
}

/// `src` continues at `i` with the given characters.
pub open spec fn at_seq(src: Seq<char>, i: int, needle: Seq<char>) -> bool {
    0 <= i && seq_starts_with(src.skip(i), needle)
}

/// `src[i]` exists and is `c`.
pub open spec fn at_char(src: Seq<char>, i: int, c: char) -> bool {
    0 <= i < src.len() && src[i] == c
}

/// End of a line break at `i`: `\r\n` counts as one break.
pub open spec fn newline_end(src: Seq<char>, i: int) -> int {
    if src[i] == '\r' && at_char(src, i + 1, '\n') {
        i + 2
    } else {
        i + 1
    }
}

/// First index at or after `i` that is not a space.
pub open spec fn spaces_end(src: Seq<char>, i: int) -> int
    decreases src.len() - i,
{
    if 0 <= i < src.len() && is_space(src[i]) {
        spaces_end(src, i + 1)
    } else {
        i
    }
}

/// End of a header line whose marker has `width` characters.
pub open spec fn header_end(src: Seq<char>, i: int, width: int) -> int {
    run_end(src, spaces_end(src, i + width), CharClass::NotLineEnd)
}

/// Whether two normalized characters form a two-character comparison operator.
pub open spec fn is_two_char_operator(first: char, next: char) -> bool {
    (first == '=' && next == '=') || (first == '!' && next == '=') || (first == '<' && next == '=')
        || (first == '>' && next == '=')
}

/// End of the operator token starting at `i`.
pub open spec fn operator_end(src: Seq<char>, i: int) -> int {
    let first = src[i];
    if (first == '=' || first == '\u{FF1D}' || first == '!' || first == '\u{FF01}' || first == '<'
        || first == '>') && i + 1 < src.len() && is_two_char_operator(
        normalize_char(first),
        normalize_char(src[i + 1]),
    ) {
        i + 2
    } else {
        i + 1
    }
}

/// Scan of a number or time starting at `j`: where it ends and whether a colon was seen.
pub open spec fn number_scan(src: Seq<char>, j: int, colon: bool, dot: bool) -> (int, bool)
    decreases src.len() - j,
{
    if j < 0 || j >= src.len() {
        (j, colon)
    } else if is_digit(src[j]) {
        number_scan(src, j + 1, colon, dot)
    } else if (src[j] == ':' || src[j] == '\u{FF1A}') && !colon {
        number_scan(src, j + 1, true, dot)
    } else if (src[j] == '.' || src[j] == '\u{FF0E}') && !dot && !colon {
        number_scan(src, j + 1, colon, true)
    } else {
        (j, colon)
    }
}

/// Whether the number at `i` is a `0x`/`0o`/`0b` literal.
pub open spec fn is_radix_number(src: Seq<char>, i: int) -> bool {
    at_seq(src, i, seq!['0', 'x']) || at_seq(src, i, seq!['0', 'o']) || at_seq(
        src,
        i,
        seq!['0', 'b'],
    )
}

/// End of the number or time token at `i`.
pub open spec fn number_end(src: Seq<char>, i: int) -> int {
    if is_radix_number(src, i) {
        run_end(src, i, CharClass::AsciiAlnum)
    } else {
        number_scan(src, i, false, false).0
    }
}

/// Whether `$$` or `＄＄` starts at `i`.
pub open spec fn is_comment_start(src: Seq<char>, i: int) -> bool {
    at_seq(src, i, seq!['$', '$']) || at_seq(src, i, seq!['\u{FF04}', '\u{FF04}'])
}

/// Whether `###` or `＃＃＃` starts at `i`.
pub open spec fn is_scene_header_start(src: Seq<char>, i: int) -> bool {
    at_seq(src, i, seq!['#', '#', '#']) || at_seq(src, i, seq!['\u{FF03}', '\u{FF03}', '\u{FF03}'])
}

/// Whether `##` or `＃＃` starts at `i`.
pub open spec fn is_event_header_start(src: Seq<char>, i: int) -> bool {
    at_seq(src, i, seq!['#', '#']) || at_seq(src, i, seq!['\u{FF03}', '\u{FF03}'])
}

/// A step that consumes up to `index` and emits nothing.
pub open spec fn plain(index: int, modes: Seq<Mode>) -> Step {
    Step { index, modes, error: false, pieces: Seq::empty() }
}

/// A step that consumes up to `index` and emits one token of `kind` over `start..index`.
pub open spec fn emits(kind: TokenKind, start: int, index: int, modes: Seq<Mode>) -> Step {
    Step { index, modes, error: false, pieces: seq![Piece { kind, start, end: index }] }
}

/// Single punctuation characters that become a token of their own in the default mode.
pub open spec fn is_punct(c: char) -> bool {
    c == '\u{203B}' || c == '\u{2192}' || c == '@' || c == '\u{FF20}' || c == ':' || c
        == '\u{FF1A}' || c == '.' || c == '\u{FF0E}' || c == '(' || c == '\u{FF08}' || c == ')'
        || c == '\u{FF09}'
}

/// The kind of the token a punctuation character becomes.
pub open spec fn punct_kind(c: char) -> TokenKind {
    if c == '\u{203B}' {
        TokenKind::ConditionMarker
    } else if c == '\u{2192}' {
        TokenKind::Arrow
    } else if c == '@' || c == '\u{FF20}' {
        TokenKind::At
    } else if c == ':' || c == '\u{FF1A}' {
        TokenKind::Colon
    } else if c == '.' || c == '\u{FF0E}' {
        TokenKind::Dot
    } else {
        TokenKind::Operator
    }
}

/// Kind of the number token at `i`: a time when a colon was read.
pub open spec fn number_kind(src: Seq<char>, i: int) -> TokenKind {
    if !is_radix_number(src, i) && number_scan(src, i, false, false).1 {
        TokenKind::Time
    } else {
        TokenKind::Number
    }
}

/// The step over the word starting at `i`, whose kind comes from its normalized text.
pub open spec fn word_step(src: Seq<char>, i: int, modes: Seq<Mode>) -> Step {
    let e = run_end(src, i, CharClass::IdentifierOrHash);
    emits(word_kind(normalize_seq(src.subrange(i, e))), i, e, modes)
}

/// The step over a run of text of `class` starting at `i`; an empty run emits nothing.
pub open spec fn text_step(src: Seq<char>, i: int, modes: Seq<Mode>, class: CharClass) -> Step {
    let e = run_end(src, i, class);
    if e > i {
        emits(TokenKind::DialogueText, i, e, modes)
    } else {
        plain(e, modes)
    }
}

/// The step over a header line: its marker of `width` characters, then its name.
pub open spec fn header_step(src: Seq<char>, i: int, modes: Seq<Mode>, kind: TokenKind, width: int) -> Step {
    Step {
        index: header_end(src, i, width),
        modes,
        error: false,
        pieces: seq![
            Piece { kind, start: i, end: i + width },
            Piece { kind: TokenKind::HeaderName, start: spaces_end(src, i + width), end: header_end(src, i, width) },
        ],
    }
}

/// One step in the default mode at `i`.
pub open spec fn step_default(src: Seq<char>, i: int, modes: Seq<Mode>) -> Step {
    let c = src[i];
    if is_space(c) {
        plain(i + 1, modes)
    } else if is_comment_start(src, i) {
        plain(run_end(src, i, CharClass::NotLineEnd), modes)
    } else if c == '\n' || c == '\r' {
        emits(TokenKind::Newline, i, newline_end(src, i), modes)
    } else if is_scene_header_start(src, i) {
        header_step(src, i, modes, TokenKind::SceneHeader, 3)
    } else if is_event_header_start(src, i) {
        header_step(src, i, modes, TokenKind::EventHeader, 2)
    } else if is_punct(c) {
        emits(punct_kind(c), i, i + 1, modes)
    } else if c == '\u{300C}' {
        emits(TokenKind::DialogueOpen, i, i + 1, modes.push(Mode::Dialogue))
    } else if c == '\u{FF1C}' {
        emits(TokenKind::FunctionOpen, i, i + 1, modes.push(Mode::Function))
    } else if is_default_operator(c) {
        emits(TokenKind::Operator, i, operator_end(src, i), modes)
    } else if is_digit(c) {
        emits(number_kind(src, i), i, number_end(src, i), modes)
    } else if is_identifier_start(c) {
        word_step(src, i, modes)
    } else {
        Step { index: i + 1, modes, error: true, pieces: Seq::empty() }
    }
}

/// Whether the characters at `i` and `i + 1` are both `c` (an escape).
pub open spec fn doubled(src: Seq<char>, i: int, c: char) -> bool {
    src[i] == c && at_char(src, i + 1, c)
}

/// One step inside dialogue at `i`.
pub open spec fn step_dialogue(src: Seq<char>, i: int, modes: Seq<Mode>) -> Step {
    let c = src[i];
    if doubled(src, i, '\u{300D}') || doubled(src, i, '\u{300C}') || doubled(src, i, '\u{FF1C}')
        || doubled(src, i, '\u{FF1E}') {
        emits(TokenKind::DialogueEscape, i, i + 2, modes)
    } else if c == '\u{300D}' {
        emits(TokenKind::DialogueClose, i, i + 1, popped(modes))
    } else if c == '\u{FF1C}' {
        emits(TokenKind::FunctionOpen, i, i + 1, modes.push(Mode::Function))
    } else {
        text_step(src, i, modes, CharClass::DialogueText)
    }
}

/// One step inside a function call at `i`.
pub open spec fn step_function(src: Seq<char>, i: int, modes: Seq<Mode>) -> Step {
    let c = src[i];
    if is_space(c) {
        plain(i + 1, modes)
    } else if c == '\u{FF1E}' {
        emits(TokenKind::FunctionClose, i, i + 1, popped(modes))
    } else if c == '\u{FF1C}' {
        emits(TokenKind::FunctionOpen, i, i + 1, modes.push(Mode::Function))
    } else if c == '\u{300C}' {
        emits(TokenKind::DialogueOpen, i, i + 1, modes.push(Mode::FunctionString))
    } else if c == '\n' || c == '\r' {
        emits(TokenKind::Newline, i, newline_end(src, i), modes)
    } else if is_function_operator(c) {
        emits(TokenKind::Operator, i, operator_end(src, i), modes)
    } else if is_digit(c) {
        emits(number_kind(src, i), i, number_end(src, i), modes)
    } else if is_identifier_start(c) {
        word_step(src, i, modes)
    } else {
        Step { index: i + 1, modes, error: true, pieces: Seq::empty() }
    }
}

/// One step inside a string argument of a function call at `i`.
pub open spec fn step_function_string(src: Seq<char>, i: int, modes: Seq<Mode>) -> Step {
    let c = src[i];
    if doubled(src, i, '\u{300D}') || doubled(src, i, '\u{300C}') {
        emits(TokenKind::DialogueEscape, i, i + 2, modes)
    } else if c == '\u{300D}' {
        emits(TokenKind::DialogueClose, i, i + 1, popped(modes))
    } else {
        text_step(src, i, modes, CharClass::FunctionStringText)
    }
}

/// One step of the lexer at `i` with the given mode stack.
pub open spec fn lex_step(src: Seq<char>, i: int, modes: Seq<Mode>) -> Step {
    match top_mode(modes) {
        Mode::Default => step_default(src, i, modes),
        Mode::Dialogue => step_dialogue(src, i, modes),
        Mode::Function => step_function(src, i, modes),
        Mode::FunctionString => step_function_string(src, i, modes),
    }
}

/// The rest of a lexing run from `i`: whether every step makes progress (so
/// the run ends), how many disallowed characters it reports, and the mode
/// stack at the end of the source.
pub open spec fn lex_walk(src: Seq<char>, i: int, modes: Seq<Mode>) -> (bool, nat, Seq<Mode>)
    decreases src.len() - i,
{
    if i < 0 || i >= src.len() {
        (true, 0, modes)
    } else {
        let st = lex_step(src, i, modes);
        if st.index <= i || st.index > src.len() {
            (false, 0, modes)
        } else {
            let rest = lex_walk(src, st.index, st.modes);
            (
                rest.0,
                rest.1 + if st.error {
                    1nat
                } else {
                    0nat
                },
                rest.2,
            )
        }
    }
}

/// The tokens the rest of a lexing run from `i` emits, in order.
pub open spec fn lex_pieces(src: Seq<char>, i: int, modes: Seq<Mode>) -> Seq<Piece>
    decreases src.len() - i,
{
    if i < 0 || i >= src.len() {
        Seq::empty()
    } else {
        let st = lex_step(src, i, modes);
        if st.index <= i || st.index > src.len() {
            Seq::empty()
        } else {
            st.pieces + lex_pieces(src, st.index, st.modes)
        }
    }
}

/// The tokens lexing `src` emits.
pub open spec fn lex_tokens(src: Seq<char>) -> Seq<Piece> {
    lex_pieces(src, 0, seq![Mode::Default])
}

/// The lexer comes to the end of `src`. It does not when a lone `「` or `＞`
/// stands inside dialogue, or a lone `「` inside a string argument: there it
/// makes no progress.
pub open spec fn lex_terminates(src: Seq<char>) -> bool {
    lex_walk(src, 0, seq![Mode::Default]).0
}

/// Number of disallowed characters `src` contains.
pub open spec fn lex_char_errors(src: Seq<char>) -> nat {
    lex_walk(src, 0, seq![Mode::Default]).1
}

/// The mode the lexer is in at the end of `src`.
pub open spec fn lex_final_mode(src: Seq<char>) -> Mode {
    top_mode(lex_walk(src, 0, seq![Mode::Default]).2)
}

// ---------------------------------------------------------------------------
// What tokens say about the source
// ---------------------------------------------------------------------------

/// Token `t` covers characters `a..b` of `src`: its text is exactly those
/// characters and its span gives their byte offsets and starting position.
pub open spec fn token_covers(src: Seq<char>, t: Token, a: int, b: int) -> bool {
    &&& 0 <= a <= b <= src.len()
    &&& t.original@ == src.subrange(a, b)
    &&& t.span.start == pos_at(src, a).0
    &&& t.span.end == pos_at(src, b).0
    &&& t.span.line == pos_at(src, a).1
    &&& t.span.column == pos_at(src, a).2
}

/// Token `t` is a piece of `src`.
pub open spec fn token_in_source(src: Seq<char>, t: Token) -> bool {
    exists|a: int, b: int| token_covers(src, t, a, b)
}

/// The kind a word gets from its normalized text.
pub open spec fn word_kind(word: Seq<char>) -> TokenKind {
    if word == "はい"@ || word == "いいえ"@ {
        TokenKind::Boolean
    } else if is_keyword(word) {
        TokenKind::Keyword
    } else {
        TokenKind::Identifier
    }
}

/// The reserved words of Daihon.
pub open spec fn is_keyword(w: Seq<char>) -> bool {
    ||| w == "おわり"@
    ||| w == "シーンおわり"@
    ||| w == "未満"@
    ||| w == "以下"@
    ||| w == "以上"@
    ||| w == "超える"@
    ||| w == "かつ"@
    ||| w == "または"@
    ||| w == "でない"@
    ||| w == "を含む"@
    ||| w == "で始まる"@
    ||| w == "で終わる"@
    ||| w == "前提条件"@
    ||| w == "初期値"@
    ||| w == "合図"@
    ||| w == "条件"@
    ||| w == "なら"@
    ||| w == "あるいは"@
    ||| w == "それ以外"@
    ||| w == "優先度"@
    ||| w == "重み"@
    ||| w == "クールダウン"@
    ||| w == "頻度"@
    ||| w == "話者"@
}

/// The normalized text a token of kind `kind` with text `original` carries.
pub open spec fn expected_normalized(kind: TokenKind, original: Seq<char>) -> Option<Seq<char>> {
    match kind {
        TokenKind::HeaderName => Some(spec_trim(original)),
        TokenKind::DialogueText => Some(original),
        TokenKind::DialogueEscape => Some(original.take(1)),
        TokenKind::Newline => Some(seq!['\n']),
        TokenKind::ConditionMarker | TokenKind::Arrow | TokenKind::DialogueOpen
        | TokenKind::DialogueClose | TokenKind::FunctionOpen | TokenKind::FunctionClose => None,
        _ => Some(normalize_seq(original)),
    }
}

/// A token of kind `kind`, text `original` and normalized text `normalized`
/// carries the normalized text its kind calls for, and a word is classified
/// by its normalized text.
pub open spec fn parts_well_formed(
    kind: TokenKind,
    original: Seq<char>,
    normalized: Option<Seq<char>>,
) -> bool {
    &&& normalized == expected_normalized(kind, original)
    &&& (kind == TokenKind::Identifier || kind == TokenKind::Keyword || kind == TokenKind::Boolean)
        ==> kind == word_kind(normalize_seq(original))
}

/// The token's normalized text is the one its kind calls for, and words are
/// classified by their normalized text.
pub open spec fn token_well_formed(t: Token) -> bool {
    parts_well_formed(t.kind, t.original@, opt_view(t.normalized))
}

/// Token `t` is the token `p` describes: same kind, covering its characters,
/// with the normalized text its kind calls for.
pub open spec fn piece_matches(src: Seq<char>, t: Token, p: Piece) -> bool {
    &&& t.kind == p.kind
    &&& token_covers(src, t, p.start, p.end)
    &&& token_well_formed(t)
}

/// `tokens` are exactly the tokens `pieces` describe.
pub open spec fn realizes(src: Seq<char>, tokens: Seq<Token>, pieces: Seq<Piece>) -> bool {
    &&& tokens.len() == pieces.len()
    &&& forall|k: int| 0 <= k < pieces.len() ==> piece_matches(src, tokens[k], #[trigger] pieces[k])
}

/// `after` is `before` followed by the tokens `pieces` describe.
pub open spec fn emitted(src: Seq<char>, before: Seq<Token>, after: Seq<Token>, pieces: Seq<Piece>) -> bool {
    &&& after.len() == before.len() + pieces.len()
    &&& after.take(before.len() as int) == before
    &&& forall|k: int|
        0 <= k < pieces.len() ==> piece_matches(src, after[before.len() + k], #[trigger] pieces[k])
}

/// Emitting in two rounds emits the two lists in turn.
pub proof fn lemma_emitted_trans(
    src: Seq<char>,
    a: Seq<Token>,
    b: Seq<Token>,
    c: Seq<Token>,
    p: Seq<Piece>,
    q: Seq<Piece>,
)
    requires
        emitted(src, a, b, p),
        emitted(src, b, c, q),
    ensures
        emitted(src, a, c, p + q),
{
    assert(c.take(a.len() as int) =~= a) by {
        assert forall|k: int| 0 <= k < a.len() implies c[k] == a[k] by {
            assert(c.take(b.len() as int)[k] == b[k]);
            assert(b.take(a.len() as int)[k] == a[k]);
        }
    }
    assert forall|k: int| 0 <= k < (p + q).len() implies piece_matches(
        src,
        c[a.len() + k],
        #[trigger] (p + q)[k],
    ) by {
        if k < p.len() {
            assert(c.take(b.len() as int)[a.len() + k] == b[a.len() + k]);
            assert(piece_matches(src, b[a.len() + k], p[k]));
        } else {
            assert(piece_matches(src, c[b.len() + (k - p.len())], q[k - p.len()]));
        }
    }
}

/// Nothing emitted leaves the tokens as they were.
pub proof fn lemma_emitted_none(src: Seq<char>, a: Seq<Token>)
    ensures
        emitted(src, a, a, Seq::empty()),
{
    assert(a.take(a.len() as int) =~= a);
}

/// Tokens come in source order without overlapping.
pub open spec fn tokens_ordered(tokens: Seq<Token>) -> bool {
    forall|i: int, j: int|
        0 <= i < j < tokens.len() ==> #[trigger] tokens[i].span.end <= #[trigger] tokens[j].span.start
}

} // verus!
verus! {

// ---------------------------------------------------------------------------
// The lexer
// ---------------------------------------------------------------------------

/// A position while lexing: byte offset, line and character column.
#[derive(Clone, Copy, Debug)]
struct Cursor {
    byte: usize,
    line: usize,
    column: usize,
}

/// `c` is the position after `k` characters of `src`.
spec fn cursor_at(c: Cursor, src: Seq<char>, k: int) -> bool {
    c.byte == pos_at(src, k).0 && c.line == pos_at(src, k).1 && c.column == pos_at(src, k).2
}

/// The span from position `a` to position `b`.
spec fn span_between(src: Seq<char>, a: int, b: int) -> Span {
    Span {
        start: pos_at(src, a).0 as usize,
        end: pos_at(src, b).0 as usize,
        line: pos_at(src, a).1 as usize,
        column: pos_at(src, a).2 as usize,
    }
}

impl Cursor {
    fn span(self, end: Cursor) -> (s: Span)
        ensures
            s == (Span { start: self.byte, end: end.byte, line: self.line, column: self.column }),
    {
        Span::new(self.byte, end.byte, self.line, self.column)
    }
}

/// Number of UTF-8 bytes of `c`, as `char::len_utf8` gives it.
pub(crate) fn char_len_utf8(c: char) -> (n: usize)
    ensures
        n == utf8_width(c),
        1 <= n <= 4,
{
    proof {
        char_is_scalar(c);
    }
    let v = c as u32;
    if v <= 0x7F {
        1
    } else if v <= 0x7FF {
        2
    } else if v <= 0xFFFF {
        3
    } else {
        4
    }
}

/// Every token ends no later than byte `byte`.
spec fn tokens_end_by(tokens: Seq<Token>, byte: int) -> bool {
    forall|i: int| 0 <= i < tokens.len() ==> #[trigger] tokens[i].span.end <= byte
}

struct Lexer {
    chars: Vec<char>,
    index: usize,
    cursor: Cursor,
    tokens: Vec<Token>,
    diagnostics: Vec<DaihonDiagnostic>,
    modes: Vec<(Mode, Cursor)>,
}

impl Lexer {
    spec fn src(&self) -> Seq<char> {
        self.chars@
    }

    spec fn mode_stack(&self) -> Seq<Mode> {
        self.modes@.map_values(|p: (Mode, Cursor)| p.0)
    }

    spec fn wf(&self) -> bool {
        &&& encode_utf8(self.chars@).len() < usize::MAX
        &&& self.index <= self.chars@.len()
        &&& cursor_at(self.cursor, self.chars@, self.index as int)
        &&& self.modes@.len() >= 1
        &&& self.modes@[0].0 == Mode::Default
        &&& forall|i: int|
            0 <= i < self.tokens@.len() ==> token_in_source(self.chars@, #[trigger] self.tokens@[i])
                && token_well_formed(self.tokens@[i])
        &&& tokens_end_by(self.tokens@, self.cursor.byte as int)
        &&& tokens_ordered(self.tokens@)
        &&& forall|i: int|
            0 <= i < self.diagnostics@.len() ==> #[trigger] self.diagnostics@[i].severity
                == Severity::Error
    }

    /// Nothing but the position changed.
    spec fn same_output(&self, other: &Lexer) -> bool {
        &&& self.chars == other.chars
        &&& self.tokens == other.tokens
        &&& self.diagnostics == other.diagnostics
        &&& self.modes == other.modes
    }

    fn new(source: &str) -> (l: Lexer)
        requires
            encode_utf8(source@).len() < usize::MAX,
        ensures
            l.wf(),
            l.chars@ == source@,
            l.index == 0,
            l.tokens@.len() == 0,
            l.diagnostics@.len() == 0,
            l.mode_stack() == seq![Mode::Default],
    {
        let start = Cursor { byte: 0, line: 1, column: 1 };
        let mut modes: Vec<(Mode, Cursor)> = Vec::new();
        modes.push((Mode::Default, start));
        let l = Lexer {
            chars: chars_of(source),
            index: 0,
            cursor: start,
            tokens: Vec::new(),
            diagnostics: Vec::new(),
            modes,
        };
        proof {
            assert(l.mode_stack() =~= seq![Mode::Default]);
        }
        l
    }

    fn mode(&self) -> (m: Mode)
        requires
            self.wf(),
        ensures
            m == top_mode(self.mode_stack()),
    {
        self.modes[self.modes.len() - 1].0
    }

    fn push_mode(&mut self, mode: Mode, start: Cursor)
        requires
            old(self).wf(),
        ensures
            final(self).wf(),
            final(self).chars == old(self).chars,
            final(self).index == old(self).index,
            final(self).cursor == old(self).cursor,
            final(self).tokens == old(self).tokens,
            final(self).diagnostics == old(self).diagnostics,
            final(self).mode_stack() == old(self).mode_stack().push(mode),
    {
        self.modes.push((mode, start));
        proof {
            assert(self.mode_stack() =~= old(self).mode_stack().push(mode));
        }
    }

    fn pop_mode(&mut self)
        requires
            old(self).wf(),
        ensures
            final(self).wf(),
            final(self).chars == old(self).chars,
            final(self).index == old(self).index,
            final(self).cursor == old(self).cursor,
            final(self).tokens == old(self).tokens,
            final(self).diagnostics == old(self).diagnostics,
            final(self).mode_stack() == popped(old(self).mode_stack()),
    {
        if self.modes.len() > 1 {
            self.modes.pop();
            proof {
                assert(self.mode_stack() =~= old(self).mode_stack().drop_last());
            }
        }
    }

    fn peek(&self) -> (r: Option<char>)
        requires
            self.wf(),
        ensures
            self.index < self.chars@.len() ==> r == Some(self.chars@[self.index as int]),
            self.index >= self.chars@.len() ==> r is None,
    {
        if self.index < self.chars.len() {
            Some(self.chars[self.index])
        } else {
            None
        }
    }

    fn peek_next(&self) -> (r: Option<char>)
        requires
            self.wf(),
        ensures
            self.index + 1 < self.chars@.len() ==> r == Some(self.chars@[self.index + 1]),
            self.index + 1 >= self.chars@.len() ==> r is None,
    {
        if self.index < self.chars.len() && self.index + 1 < self.chars.len() {
            Some(self.chars[self.index + 1])
        } else {
            None
        }
    }

    fn starts_with(&self, needle: &[char]) -> (r: bool)
        requires
            self.wf(),
        ensures
            r == at_seq(self.chars@, self.index as int, needle@),
    {
        let n = needle.len();
        let len = self.chars.len();
        if n > len - self.index {
            return false;
        }
        let mut k: usize = 0;
        while k < n
            invariant
                self.wf(),
                len == self.chars@.len(),
                n == needle@.len(),
                n <= self.chars@.len() - self.index,
                k <= n,
                forall|j: int| 0 <= j < k ==> self.chars@[self.index + j] == needle@[j],
            decreases n - k,
        {
            let j: usize = self.index + k;
            if self.chars[j] != needle[k] {
                proof {
                    assert(self.chars@.skip(self.index as int)[k as int] != needle@[k as int]);
                }
                return false;
            }
            k += 1;
        }
        proof {
            assert(self.chars@.skip(self.index as int).subrange(0, n as int) =~= needle@);
        }
        true
    }

    fn advance(&mut self) -> (r: Option<char>)
        requires
            old(self).wf(),
        ensures
            final(self).wf(),
            final(self).same_output(old(self)),
            old(self).index < old(self).chars@.len() ==> r == Some(
                old(self).chars@[old(self).index as int],
            ) && final(self).index == old(self).index + 1,
            old(self).index >= old(self).chars@.len() ==> r is None && final(self).index == old(
                self,
            ).index && final(self).cursor == old(self).cursor,
    {
        if self.index >= self.chars.len() {
            return None;
        }
        let ch = self.chars[self.index];
        let ghost k = self.index as int;
        proof {
            lemma_pos_bounded(self.chars@, k + 1);
            lemma_pos_monotone(self.chars@, 0, k + 1);
        }
        self.index += 1;
        self.cursor.byte = self.cursor.byte + char_len_utf8(ch);
        if ch == '\n' {
            self.cursor.line = self.cursor.line + 1;
            self.cursor.column = 1;
        } else {
            self.cursor.column = self.cursor.column + 1;
        }
        Some(ch)
    }

    fn take_while(&mut self, class: CharClass) -> (r: (String, Span))
        requires
            old(self).wf(),
        ensures
            final(self).wf(),
            final(self).same_output(old(self)),
            final(self).index == run_end(final(self).chars@, old(self).index as int, class),
            r.0@ == final(self).chars@.subrange(old(self).index as int, final(self).index as int),
            r.1 == span_between(final(self).chars@, old(self).index as int, final(self).index as int),
            old(self).index <= final(self).index,
    {
        let start = self.cursor;
        let start_index = self.index;
        let mut text = String::new();
        while self.index < self.chars.len() && class_has(class, self.chars[self.index])
            invariant
                self.wf(),
                self.same_output(old(self)),
                start_index == old(self).index,
                start_index <= self.index,
                cursor_at(start, self.chars@, start_index as int),
                run_end(self.chars@, self.index as int, class) == run_end(
                    self.chars@,
                    start_index as int,
                    class,
                ),
                text@ == self.chars@.subrange(start_index as int, self.index as int),
            decreases self.chars@.len() - self.index,
        {
            let ch = self.chars[self.index];
            push_char(&mut text, ch);
            self.advance();
            proof {
                assert(self.chars@.subrange(start_index as int, self.index as int) =~= self.chars@.subrange(
                    start_index as int,
                    self.index - 1,
                ).push(ch));
            }
        }
        let span = start.span(self.cursor);
        (text, span)
    }

    fn emit(
        &mut self,
        kind: TokenKind,
        original: String,
        normalized: Option<String>,
        span: Span,
        Ghost(a): Ghost<int>,
        Ghost(b): Ghost<int>,
    )
        requires
            old(self).wf(),
            token_covers(
                old(self).chars@,
                Token { kind, normalized, original, span },
                a,
                b,
            ),
            parts_well_formed(kind, original@, opt_view(normalized)),
            b <= old(self).index,
            tokens_end_by(old(self).tokens@, span.start as int),
        ensures
            final(self).wf(),
            final(self).chars == old(self).chars,
            final(self).index == old(self).index,
            final(self).cursor == old(self).cursor,
            final(self).diagnostics == old(self).diagnostics,
            final(self).modes == old(self).modes,
            final(self).tokens@ == old(self).tokens@.push(Token { kind, normalized, original, span }),
            emitted(
                final(self).chars@,
                old(self).tokens@,
                final(self).tokens@,
                seq![Piece { kind, start: a, end: b }],
            ),
    {
        let ghost t = Token { kind, normalized, original, span };
        proof {
            lemma_pos_monotone(self.chars@, b, self.index as int);
            assert(token_covers(self.chars@, t, a, b));
        }
        self.tokens.push(Token::new(kind, original, normalized, span));
        proof {
            assert(self.tokens@.last() == t);
            assert forall|i: int| 0 <= i < self.tokens@.len() implies token_in_source(
                self.chars@,
                #[trigger] self.tokens@[i],
            ) && token_well_formed(self.tokens@[i]) by {
                if i == self.tokens@.len() - 1 {
                    assert(token_covers(self.chars@, self.tokens@[i], a, b));
                } else {
                    assert(self.tokens@[i] == old(self).tokens@[i]);
                }
            }
            assert forall|i: int, j: int|
                0 <= i < j < self.tokens@.len() implies #[trigger] self.tokens@[i].span.end
                <= #[trigger] self.tokens@[j].span.start by {
                if j == self.tokens@.len() - 1 {
                    assert(self.tokens@[i] == old(self).tokens@[i]);
                } else {
                    assert(self.tokens@[i] == old(self).tokens@[i]);
                    assert(self.tokens@[j] == old(self).tokens@[j]);
                }
            }
            assert forall|i: int| 0 <= i < self.tokens@.len() implies #[trigger] self.tokens@[i].span.end
                <= self.cursor.byte by {
                if i < self.tokens@.len() - 1 {
                    assert(self.tokens@[i] == old(self).tokens@[i]);
                }
            }
            assert(self.tokens@.take(old(self).tokens@.len() as int) =~= old(self).tokens@);
            let pieces = seq![Piece { kind, start: a, end: b }];
            assert(piece_matches(self.chars@, self.tokens@[old(self).tokens@.len() as int], pieces[0]));
        }
    }

    fn emit_char(&mut self, kind: TokenKind, normalized: Option<String>)
        requires
            old(self).wf(),
            old(self).index < old(self).chars@.len(),
            parts_well_formed(
                kind,
                seq![old(self).chars@[old(self).index as int]],
                opt_view(normalized),
            ),
        ensures
            final(self).wf(),
            final(self).chars == old(self).chars,
            final(self).index == old(self).index + 1,
            final(self).diagnostics == old(self).diagnostics,
            final(self).modes == old(self).modes,
            final(self).tokens@.len() == old(self).tokens@.len() + 1,
            final(self).tokens@.take(old(self).tokens@.len() as int) == old(self).tokens@,
            final(self).tokens@.last().kind == kind,
            emitted(
                final(self).chars@,
                old(self).tokens@,
                final(self).tokens@,
                seq![
                    Piece {
                        kind,
                        start: old(self).index as int,
                        end: old(self).index + 1,
                    },
                ],
            ),
    {
        let start = self.cursor;
        let ghost a = self.index as int;
        let ch = self.chars[self.index];
        self.advance();
        let span = start.span(self.cursor);
        let original = char_string(ch);
        proof {
            assert(self.chars@.subrange(a, a + 1) =~= seq![ch]);
        }
        self.emit(kind, original, normalized, span, Ghost(a), Ghost(a + 1));
        proof {
            assert(self.tokens@.take(old(self).tokens@.len() as int) =~= old(self).tokens@);
        }
    }
}

/// Whether `c` belongs to `class`.
pub(crate) fn class_has(class: CharClass, c: char) -> (r: bool)
    ensures
        r == in_class(class, c),
{
    match class {
        CharClass::NotLineEnd => c != '\n' && c != '\r',
        CharClass::DialogueText => c != '\u{300D}' && c != '\u{300C}' && c != '\u{FF1C}' && c
            != '\u{FF1E}',
        CharClass::FunctionStringText => c != '\u{300D}' && c != '\u{300C}',
        CharClass::AsciiAlnum => ('a' <= c && c <= 'z') || ('A' <= c && c <= 'Z') || ('0' <= c
            && c <= '9'),
        CharClass::IdentifierOrHash => char_is_identifier_continue(c) || c == '#' || c
            == '\u{FF03}',
    }
}

fn char_is_space(c: char) -> (r: bool)
    ensures
        r == is_space(c),
{
    c == ' ' || c == '\t' || c == '\u{3000}'
}

pub(crate) fn char_is_digit(c: char) -> (r: bool)
    ensures
        r == is_digit(c),
{
    ('0' <= c && c <= '9') || ('\u{FF10}' <= c && c <= '\u{FF19}')
}

pub(crate) fn char_is_identifier_start(c: char) -> (r: bool)
    ensures
        r == is_identifier_start(c),
{
    c == '_' || c == '\u{FF3F}' || ('a' <= c && c <= 'z') || ('A' <= c && c <= 'Z') || (
    '\u{3041}' <= c && c <= '\u{3093}') || ('\u{30A1}' <= c && c <= '\u{30F3}') || ('\u{4E00}'
        <= c && c <= '\u{9FAF}') || ('\u{FF21}' <= c && c <= '\u{FF3A}') || ('\u{FF41}' <= c && c
        <= '\u{FF5A}') || c == '\u{30FC}'
}

pub(crate) fn char_is_identifier_continue(c: char) -> (r: bool)
    ensures
        r == is_identifier_continue(c),
{
    char_is_identifier_start(c) || char_is_digit(c) || c == '\u{2025}' || c == '\u{2026}' || c
        == '.' || c == '\u{30FC}'
}

} // verus!
verus! {

/// The half-width form of `c`.
pub(crate) fn normalize_char_exec(c: char) -> (r: char)
    ensures
        r == normalize_char(c),
{
    if c == '\u{FF1D}' {
        '='
    } else if c == '\u{FF03}' {
        '#'
    } else if c == '\u{FF1A}' {
        ':'
    } else if c == '\u{FF04}' {
        '$'
    } else if c == '\u{FF3F}' {
        '_'
    } else if c == '\u{FF01}' {
        '!'
    } else if c == '\u{FF5E}' || c == '\u{301C}' {
        '~'
    } else if c == '\u{FF0B}' {
        '+'
    } else if c == '\u{FF0D}' {
        '-'
    } else if c == '\u{FF0A}' {
        '*'
    } else if c == '\u{FF0F}' {
        '/'
    } else if c == '\u{FF05}' {
        '%'
    } else if c == '\u{FF20}' {
        '@'
    } else if c == '\u{FF0E}' {
        '.'
    } else if c == '\u{FF08}' {
        '('
    } else if c == '\u{FF09}' {
        ')'
    } else if c == '\u{3000}' {
        ' '
    } else if '\u{FF10}' <= c && c <= '\u{FF19}' {
        (((c as u32) - 0xFF10 + 0x30) as u8) as char
    } else if '\u{FF21}' <= c && c <= '\u{FF3A}' {
        (((c as u32) - 0xFF21 + 0x41) as u8) as char
    } else if '\u{FF41}' <= c && c <= '\u{FF5A}' {
        (((c as u32) - 0xFF41 + 0x61) as u8) as char
    } else {
        c
    }
}

/// Every character of `v` normalized.
pub(crate) fn normalize_chars(v: &[char]) -> (r: Vec<char>)
    ensures
        r@ == normalize_seq(v@),
{
    let mut r: Vec<char> = Vec::new();
    let mut i: usize = 0;
    while i < v.len()
        invariant
            i <= v@.len(),
            r@ == normalize_seq(v@.take(i as int)),
        decreases v@.len() - i,
    {
        r.push(normalize_char_exec(v[i]));
        proof {
            assert(normalize_seq(v@.take(i + 1)) =~= normalize_seq(v@.take(i as int)).push(
                normalize_char(v@[i as int]),
            ));
        }
        i += 1;
    }
    proof {
        assert(v@.take(v@.len() as int) =~= v@);
    }
    r
}

/// The string of `text` normalized.
pub(crate) fn normalize_syntax(text: &String) -> (r: String)
    ensures
        r@ == normalize_seq(text@),
{
    let v = chars_of(text.as_str());
    let n = normalize_chars(v.as_slice());
    string_of(n.as_slice())
}

/// The kind of a word from its normalized text.
fn classify_word(w: &[char]) -> (k: TokenKind)
    ensures
        k == word_kind(w@),
{
    if is_lit(w, "はい") || is_lit(w, "いいえ") {
        TokenKind::Boolean
    } else if is_lit(w, "おわり") || is_lit(w, "シーンおわり") || is_lit(w, "未満") || is_lit(
        w,
        "以下",
    ) || is_lit(w, "以上") || is_lit(w, "超える") || is_lit(w, "かつ") || is_lit(w, "または")
        || is_lit(w, "でない") || is_lit(w, "を含む") || is_lit(w, "で始まる") || is_lit(
        w,
        "で終わる",
    ) || is_lit(w, "前提条件") || is_lit(w, "初期値") || is_lit(w, "合図") || is_lit(w, "条件")
        || is_lit(w, "なら") || is_lit(w, "あるいは") || is_lit(w, "それ以外") || is_lit(
        w,
        "優先度",
    ) || is_lit(w, "重み") || is_lit(w, "クールダウン") || is_lit(w, "頻度") || is_lit(w, "話者") {
        TokenKind::Keyword
    } else {
        TokenKind::Identifier
    }
}

impl Lexer {
    fn lex_newline(&mut self)
        requires
            old(self).wf(),
            old(self).index < old(self).chars@.len(),
            old(self).chars@[old(self).index as int] == '\n' || old(self).chars@[old(
                self,
            ).index as int] == '\r',
        ensures
            final(self).wf(),
            final(self).chars == old(self).chars,
            final(self).index == newline_end(old(self).chars@, old(self).index as int),
            final(self).diagnostics == old(self).diagnostics,
            final(self).modes == old(self).modes,
            emitted(
                final(self).chars@,
                old(self).tokens@,
                final(self).tokens@,
                seq![
                    Piece {
                        kind: TokenKind::Newline,
                        start: old(self).index as int,
                        end: newline_end(old(self).chars@, old(self).index as int),
                    },
                ],
            ),
    {
        let start = self.cursor;
        let start_index = self.index;
        if self.chars[self.index] == '\r' {
            self.advance();
            if self.index < self.chars.len() && self.chars[self.index] == '\n' {
                self.advance();
            }
        } else {
            self.advance();
        }
        let original = range_string(&self.chars, start_index, self.index);
        let normalized = char_string('\n');
        let span = start.span(self.cursor);
        self.emit(
            TokenKind::Newline,
            original,
            Some(normalized),
            span,
            Ghost(start_index as int),
            Ghost(self.index as int),
        );
    }

    fn lex_header(&mut self, kind: TokenKind, width: usize)
        requires
            old(self).wf(),
            width == 2 || width == 3,
            kind == TokenKind::EventHeader || kind == TokenKind::SceneHeader,
            old(self).index + width <= old(self).chars@.len(),
            forall|j: int|
                old(self).index <= j < old(self).index + width ==> old(self).chars@[j] == '#'
                    || old(self).chars@[j] == '\u{FF03}',
        ensures
            final(self).wf(),
            final(self).chars == old(self).chars,
            final(self).index == header_end(old(self).chars@, old(self).index as int, width as int),
            final(self).diagnostics == old(self).diagnostics,
            final(self).modes == old(self).modes,
            emitted(
                final(self).chars@,
                old(self).tokens@,
                final(self).tokens@,
                header_step(
                    old(self).chars@,
                    old(self).index as int,
                    old(self).mode_stack(),
                    kind,
                    width as int,
                ).pieces,
            ),
    {
        let start = self.cursor;
        let start_index = self.index;
        let mut k: usize = 0;
        let mut marker = String::new();
        while k < width
            invariant
                self.wf(),
                self.same_output(old(self)),
                k <= width,
                self.index == start_index + k,
                start_index == old(self).index,
                start_index + width <= self.chars@.len(),
                cursor_at(start, self.chars@, start_index as int),
                marker@ == Seq::new(k as nat, |j: int| '#'),
            decreases width - k,
        {
            self.advance();
            push_char(&mut marker, '#');
            proof {
                assert(marker@ =~= Seq::new((k + 1) as nat, |j: int| '#'));
            }
            k += 1;
        }
        let original = range_string(&self.chars, start_index, self.index);
        proof {
            assert(normalize_seq(original@) =~= marker@);
        }
        let span = start.span(self.cursor);
        self.emit(kind, original, Some(marker), span, Ghost(start_index as int), Ghost(self.index as int));
        let ghost mid = self.tokens@;
        let ghost first = seq![Piece { kind, start: start_index as int, end: start_index + width }];
        while self.index < self.chars.len() && char_is_space(self.chars[self.index])
            invariant
                self.wf(),
                self.chars == old(self).chars,
                self.tokens@ == mid,
                self.diagnostics == old(self).diagnostics,
                self.modes == old(self).modes,
                start_index + width <= self.index,
                spaces_end(self.chars@, self.index as int) == spaces_end(
                    self.chars@,
                    start_index + width,
                ),
            decreases self.chars@.len() - self.index,
        {
            self.advance();
        }
        let name_start = self.cursor;
        let name_index = self.index;
        let (name, span) = self.take_while(CharClass::NotLineEnd);
        if !name.as_str().is_empty() {
            let name_chars = chars_of(name.as_str());
            let trimmed = trim_chars(name_chars.as_slice());
            let normalized = string_of(trimmed.as_slice());
            let original = range_string(&self.chars, name_index, self.index);
            self.emit(
                TokenKind::HeaderName,
                original,
                Some(normalized),
                span,
                Ghost(name_index as int),
                Ghost(self.index as int),
            );
        } else {
            proof {
                assert(spec_trim(Seq::<char>::empty()) =~= Seq::<char>::empty());
            }
            let empty_span = name_start.span(self.cursor);
            let empty_original = String::new();
            let empty_normalized = String::new();
            proof {
                assert(name@.len() == 0);
                assert(self.index == name_index);
                assert(self.chars@.subrange(name_index as int, name_index as int) =~= Seq::<char>::empty());
            }
            self.emit(
                TokenKind::HeaderName,
                empty_original,
                Some(empty_normalized),
                empty_span,
                Ghost(name_index as int),
                Ghost(self.index as int),
            );
        }
        proof {
            let second = seq![
                Piece { kind: TokenKind::HeaderName, start: name_index as int, end: self.index as int },
            ];
            lemma_emitted_trans(self.chars@, old(self).tokens@, mid, self.tokens@, first, second);
            assert(first + second =~= header_step(
                old(self).chars@,
                old(self).index as int,
                old(self).mode_stack(),
                kind,
                width as int,
            ).pieces);
        }
    }

    fn lex_escape(&mut self, c: char)
        requires
            old(self).wf(),
            old(self).index + 1 < old(self).chars@.len(),
            old(self).chars@[old(self).index as int] == c,
            old(self).chars@[old(self).index + 1] == c,
        ensures
            final(self).wf(),
            final(self).chars == old(self).chars,
            final(self).index == old(self).index + 2,
            final(self).diagnostics == old(self).diagnostics,
            final(self).modes == old(self).modes,
            emitted(
                final(self).chars@,
                old(self).tokens@,
                final(self).tokens@,
                seq![
                    Piece {
                        kind: TokenKind::DialogueEscape,
                        start: old(self).index as int,
                        end: old(self).index + 2,
                    },
                ],
            ),
    {
        let start = self.cursor;
        let start_index = self.index;
        self.advance();
        self.advance();
        let original = range_string(&self.chars, start_index, self.index);
        let normalized = char_string(c);
        proof {
            assert(original@.take(1) =~= seq![c]);
        }
        let span = start.span(self.cursor);
        self.emit(
            TokenKind::DialogueEscape,
            original,
            Some(normalized),
            span,
            Ghost(start_index as int),
            Ghost(self.index as int),
        );
    }

    fn lex_number_or_time(&mut self)
        requires
            old(self).wf(),
            old(self).index < old(self).chars@.len(),
            is_digit(old(self).chars@[old(self).index as int]),
        ensures
            final(self).wf(),
            final(self).chars == old(self).chars,
            final(self).index == number_end(old(self).chars@, old(self).index as int),
            final(self).diagnostics == old(self).diagnostics,
            final(self).modes == old(self).modes,
            emitted(
                final(self).chars@,
                old(self).tokens@,
                final(self).tokens@,
                seq![
                    Piece {
                        kind: number_kind(old(self).chars@, old(self).index as int),
                        start: old(self).index as int,
                        end: number_end(old(self).chars@, old(self).index as int),
                    },
                ],
            ),
    {
        let start = self.cursor;
        let start_index = self.index;
        if self.starts_with(&['0', 'x']) || self.starts_with(&['0', 'o']) || self.starts_with(
            &['0', 'b'],
        ) {
            proof {
                assert(is_radix_number(self.chars@, start_index as int));
            }
            let (text, span) = self.take_while(CharClass::AsciiAlnum);
            let normalized = normalize_syntax(&text);
            let original = range_string(&self.chars, start_index, self.index);
            self.emit(
                TokenKind::Number,
                original,
                Some(normalized),
                span,
                Ghost(start_index as int),
                Ghost(self.index as int),
            );
            return ;
        }
        let mut saw_colon = false;
        let mut saw_dot = false;
        while self.index < self.chars.len()
            invariant
                self.wf(),
                self.same_output(old(self)),
                start_index == old(self).index,
                start_index <= self.index,
                !is_radix_number(self.chars@, start_index as int),
                cursor_at(start, self.chars@, start_index as int),
                number_scan(self.chars@, self.index as int, saw_colon, saw_dot) == number_scan(
                    self.chars@,
                    start_index as int,
                    false,
                    false,
                ),
            ensures
                number_scan(self.chars@, self.index as int, saw_colon, saw_dot) == (
                    self.index as int,
                    saw_colon,
                ),
            decreases self.chars@.len() - self.index,
        {
            let ch = self.chars[self.index];
            if char_is_digit(ch) {
                self.advance();
            } else if (ch == ':' || ch == '\u{FF1A}') && !saw_colon {
                saw_colon = true;
                self.advance();
            } else if (ch == '.' || ch == '\u{FF0E}') && !saw_dot && !saw_colon {
                saw_dot = true;
                self.advance();
            } else {
                break;
            }
        }
        let original = range_string(&self.chars, start_index, self.index);
        let normalized = normalize_syntax(&original);
        let kind = if saw_colon {
            TokenKind::Time
        } else {
            TokenKind::Number
        };
        let span = start.span(self.cursor);
        self.emit(kind, original, Some(normalized), span, Ghost(start_index as int), Ghost(self.index as int));
    }

    fn lex_identifier(&mut self)
        requires
            old(self).wf(),
            old(self).index < old(self).chars@.len(),
        ensures
            final(self).wf(),
            final(self).chars == old(self).chars,
            final(self).index == run_end(
                old(self).chars@,
                old(self).index as int,
                CharClass::IdentifierOrHash,
            ),
            final(self).diagnostics == old(self).diagnostics,
            final(self).modes == old(self).modes,
            emitted(
                final(self).chars@,
                old(self).tokens@,
                final(self).tokens@,
                word_step(old(self).chars@, old(self).index as int, old(self).mode_stack()).pieces,
            ),
    {
        let start_index = self.index;
        let (text, span) = self.take_while(CharClass::IdentifierOrHash);
        let text_chars = chars_of(text.as_str());
        let normalized = normalize_chars(text_chars.as_slice());
        let kind = classify_word(normalized.as_slice());
        let normalized = string_of(normalized.as_slice());
        let original = range_string(&self.chars, start_index, self.index);
        self.emit(kind, original, Some(normalized), span, Ghost(start_index as int), Ghost(self.index as int));
    }

    fn lex_operator(&mut self)
        requires
            old(self).wf(),
            old(self).index < old(self).chars@.len(),
        ensures
            final(self).wf(),
            final(self).chars == old(self).chars,
            final(self).index == operator_end(old(self).chars@, old(self).index as int),
            final(self).diagnostics == old(self).diagnostics,
            final(self).modes == old(self).modes,
            emitted(
                final(self).chars@,
                old(self).tokens@,
                final(self).tokens@,
                seq![
                    Piece {
                        kind: TokenKind::Operator,
                        start: old(self).index as int,
                        end: operator_end(old(self).chars@, old(self).index as int),
                    },
                ],
            ),
    {
        let start = self.cursor;
        let start_index = self.index;
        let first = self.chars[self.index];
        self.advance();
        if (first == '=' || first == '\u{FF1D}' || first == '!' || first == '\u{FF01}' || first
            == '<' || first == '>') && self.index < self.chars.len() {
            let next = self.chars[self.index];
            let first_norm = normalize_char_exec(first);
            let next_norm = normalize_char_exec(next);
            if (first_norm == '=' && next_norm == '=') || (first_norm == '!' && next_norm == '=')
                || (first_norm == '<' && next_norm == '=') || (first_norm == '>' && next_norm
                == '=') {
                self.advance();
            }
        }
        let original = range_string(&self.chars, start_index, self.index);
        let normalized = normalize_syntax(&original);
        let span = start.span(self.cursor);
        self.emit(
            TokenKind::Operator,
            original,
            Some(normalized),
            span,
            Ghost(start_index as int),
            Ghost(self.index as int),
        );
    }
}

} // verus!
verus! {

/// The lexer made exactly the step `lex_step` describes from the old state.
spec fn stepped(old_lexer: &Lexer, new_lexer: &Lexer) -> bool {
    let st = lex_step(old_lexer.chars@, old_lexer.index as int, old_lexer.mode_stack());
    &&& new_lexer.wf()
    &&& new_lexer.chars == old_lexer.chars
    &&& new_lexer.index == st.index
    &&& new_lexer.mode_stack() == st.modes
    &&& emitted(new_lexer.chars@, old_lexer.tokens@, new_lexer.tokens@, st.pieces)
    &&& new_lexer.diagnostics@.len() == old_lexer.diagnostics@.len() + if st.error {
        1int
    } else {
        0int
    }
}

impl Lexer {
    fn report_char(&mut self, code: &str, prefix: &str, ch: char)
        requires
            old(self).wf(),
            old(self).index < old(self).chars@.len(),
        ensures
            final(self).wf(),
            final(self).chars == old(self).chars,
            final(self).index == old(self).index + 1,
            final(self).modes == old(self).modes,
            final(self).tokens == old(self).tokens,
            final(self).diagnostics@.len() == old(self).diagnostics@.len() + 1,
    {
        let start = self.cursor;
        self.advance();
        let mut message = prefix.to_owned();
        push_char(&mut message, ch);
        message.append("」があります。");
        let span = start.span(self.cursor);
        let diagnostic = DaihonDiagnostic::error(code, message.as_str(), span);
        self.diagnostics.push(diagnostic);
        proof {
            assert forall|i: int| 0 <= i < self.diagnostics@.len() implies #[trigger] self.diagnostics@[i].severity
                == Severity::Error by {
                if i < old(self).diagnostics@.len() {
                    assert(self.diagnostics@[i] == old(self).diagnostics@[i]);
                }
            }
        }
    }

    fn lex_default(&mut self, ch: char)
        requires
            old(self).wf(),
            old(self).index < old(self).chars@.len(),
            ch == old(self).chars@[old(self).index as int],
            top_mode(old(self).mode_stack()) == Mode::Default,
        ensures
            stepped(old(self), final(self)),
    {
        proof {
            lemma_emitted_none(self.chars@, self.tokens@);
        }
        let ghost src = self.chars@;
        let ghost i = self.index as int;
        if char_is_space(ch) {
            self.advance();
            return ;
        }
        if self.starts_with(&['$', '$']) || self.starts_with(&['\u{FF04}', '\u{FF04}']) {
            self.take_while(CharClass::NotLineEnd);
            return ;
        }
        if ch == '\n' || ch == '\r' {
            self.lex_newline();
            return ;
        }
        if self.starts_with(&['#', '#', '#']) || self.starts_with(
            &['\u{FF03}', '\u{FF03}', '\u{FF03}'],
        ) {
            proof {
                assert(src.skip(i)[0] == src[i]);
                assert(src.skip(i)[1] == src[i + 1]);
                assert(src.skip(i)[2] == src[i + 2]);
            }
            self.lex_header(TokenKind::SceneHeader, 3);
            return ;
        }
        if self.starts_with(&['#', '#']) || self.starts_with(&['\u{FF03}', '\u{FF03}']) {
            proof {
                assert(src.skip(i)[0] == src[i]);
                assert(src.skip(i)[1] == src[i + 1]);
            }
            self.lex_header(TokenKind::EventHeader, 2);
            return ;
        }
        if ch == '\u{203B}' {
            self.emit_char(TokenKind::ConditionMarker, None);
        } else if ch == '\u{2192}' {
            self.emit_char(TokenKind::Arrow, None);
        } else if ch == '\u{300C}' {
            let start = self.cursor;
            self.emit_char(TokenKind::DialogueOpen, None);
            self.push_mode(Mode::Dialogue, start);
        } else if ch == '\u{FF1C}' {
            let start = self.cursor;
            self.emit_char(TokenKind::FunctionOpen, None);
            self.push_mode(Mode::Function, start);
        } else if ch == '@' || ch == '\u{FF20}' {
            let n = char_string('@');
            proof {
                assert(normalize_seq(seq![ch]) =~= seq!['@']);
            }
            self.emit_char(TokenKind::At, Some(n));
        } else if ch == ':' || ch == '\u{FF1A}' {
            let n = char_string(':');
            proof {
                assert(normalize_seq(seq![ch]) =~= seq![':']);
            }
            self.emit_char(TokenKind::Colon, Some(n));
        } else if ch == '.' || ch == '\u{FF0E}' {
            let n = char_string('.');
            proof {
                assert(normalize_seq(seq![ch]) =~= seq!['.']);
            }
            self.emit_char(TokenKind::Dot, Some(n));
        } else if ch == '(' || ch == '\u{FF08}' {
            let n = char_string('(');
            proof {
                assert(normalize_seq(seq![ch]) =~= seq!['(']);
            }
            self.emit_char(TokenKind::Operator, Some(n));
        } else if ch == ')' || ch == '\u{FF09}' {
            let n = char_string(')');
            proof {
                assert(normalize_seq(seq![ch]) =~= seq![')']);
            }
            self.emit_char(TokenKind::Operator, Some(n));
        } else if ch == '=' || ch == '\u{FF1D}' || ch == '!' || ch == '\u{FF01}' || ch == '<' || ch
            == '>' || ch == '+' || ch == '\u{FF0B}' || ch == '-' || ch == '\u{FF0D}' || ch == '*'
            || ch == '\u{FF0A}' || ch == '/' || ch == '\u{FF0F}' || ch == '%' || ch == '\u{FF05}'
            || ch == '~' || ch == '\u{FF5E}' || ch == '\u{301C}' {
            self.lex_operator();
        } else if char_is_digit(ch) {
            self.lex_number_or_time();
        } else if char_is_identifier_start(ch) {
            self.lex_identifier();
        } else {
            self.report_char("E-DHN-LEX-010", "使用できない文字「", ch);
        }
    }

    fn lex_dialogue(&mut self, ch: char)
        requires
            old(self).wf(),
            old(self).index < old(self).chars@.len(),
            ch == old(self).chars@[old(self).index as int],
            top_mode(old(self).mode_stack()) == Mode::Dialogue,
        ensures
            stepped(old(self), final(self)),
    {
        proof {
            lemma_emitted_none(self.chars@, self.tokens@);
        }
        let next = self.peek_next();
        if ch == '\u{300D}' && next == Some('\u{300D}') {
            self.lex_escape('\u{300D}');
        } else if ch == '\u{300C}' && next == Some('\u{300C}') {
            self.lex_escape('\u{300C}');
        } else if ch == '\u{FF1C}' && next == Some('\u{FF1C}') {
            self.lex_escape('\u{FF1C}');
        } else if ch == '\u{FF1E}' && next == Some('\u{FF1E}') {
            self.lex_escape('\u{FF1E}');
        } else if ch == '\u{300D}' {
            self.emit_char(TokenKind::DialogueClose, None);
            self.pop_mode();
        } else if ch == '\u{FF1C}' {
            let start = self.cursor;
            self.emit_char(TokenKind::FunctionOpen, None);
            self.push_mode(Mode::Function, start);
        } else {
            let start_index = self.index;
            let (text, span) = self.take_while(CharClass::DialogueText);
            if !text.as_str().is_empty() {
                let normalized = text.clone();
                let original = range_string(&self.chars, start_index, self.index);
                self.emit(
                    TokenKind::DialogueText,
                    original,
                    Some(normalized),
                    span,
                    Ghost(start_index as int),
                    Ghost(self.index as int),
                );
            }
        }
    }

    fn lex_function(&mut self, ch: char)
        requires
            old(self).wf(),
            old(self).index < old(self).chars@.len(),
            ch == old(self).chars@[old(self).index as int],
            top_mode(old(self).mode_stack()) == Mode::Function,
        ensures
            stepped(old(self), final(self)),
    {
        proof {
            lemma_emitted_none(self.chars@, self.tokens@);
        }
        if char_is_space(ch) {
            self.advance();
            return ;
        }
        if ch == '\u{FF1E}' {
            self.emit_char(TokenKind::FunctionClose, None);
            self.pop_mode();
        } else if ch == '\u{FF1C}' {
            let start = self.cursor;
            self.emit_char(TokenKind::FunctionOpen, None);
            self.push_mode(Mode::Function, start);
        } else if ch == '\u{300C}' {
            let start = self.cursor;
            self.emit_char(TokenKind::DialogueOpen, None);
            self.push_mode(Mode::FunctionString, start);
        } else if ch == '\n' || ch == '\r' {
            self.lex_newline();
        } else if ch == '=' || ch == '\u{FF1D}' || ch == '!' || ch == '\u{FF01}' || ch == '<' || ch
            == '>' || ch == '+' || ch == '\u{FF0B}' || ch == '-' || ch == '\u{FF0D}' || ch == '*'
            || ch == '\u{FF0A}' || ch == '/' || ch == '\u{FF0F}' || ch == '%' || ch == '\u{FF05}'
            || ch == '(' || ch == '\u{FF08}' || ch == ')' || ch == '\u{FF09}' {
            self.lex_operator();
        } else if char_is_digit(ch) {
            self.lex_number_or_time();
        } else if char_is_identifier_start(ch) {
            self.lex_identifier();
        } else {
            self.report_char("E-DHN-LEX-011", "関数呼び出し内で使用できない文字「", ch);
        }
    }

    fn lex_function_string(&mut self, ch: char)
        requires
            old(self).wf(),
            old(self).index < old(self).chars@.len(),
            ch == old(self).chars@[old(self).index as int],
            top_mode(old(self).mode_stack()) == Mode::FunctionString,
        ensures
            stepped(old(self), final(self)),
    {
        proof {
            lemma_emitted_none(self.chars@, self.tokens@);
        }
        let next = self.peek_next();
        if ch == '\u{300D}' && next == Some('\u{300D}') {
            self.lex_escape('\u{300D}');
        } else if ch == '\u{300C}' && next == Some('\u{300C}') {
            self.lex_escape('\u{300C}');
        } else if ch == '\u{300D}' {
            self.emit_char(TokenKind::DialogueClose, None);
            self.pop_mode();
        } else {
            let start_index = self.index;
            let (text, span) = self.take_while(CharClass::FunctionStringText);
            if !text.as_str().is_empty() {
                let normalized = text.clone();
                let original = range_string(&self.chars, start_index, self.index);
                self.emit(
                    TokenKind::DialogueText,
                    original,
                    Some(normalized),
                    span,
                    Ghost(start_index as int),
                    Ghost(self.index as int),
                );
            }
        }
    }
}

} // verus!
verus! {

impl Lexer {
    fn lex(&mut self)
        requires
            old(self).wf(),
            lex_walk(old(self).chars@, old(self).index as int, old(self).mode_stack()).0,
        ensures
            final(self).wf(),
            final(self).chars == old(self).chars,
            emitted(
                final(self).chars@,
                old(self).tokens@,
                final(self).tokens@,
                lex_pieces(old(self).chars@, old(self).index as int, old(self).mode_stack()),
            ),
            ({
                let w = lex_walk(old(self).chars@, old(self).index as int, old(self).mode_stack());
                let unclosed = top_mode(w.2) != Mode::Default;
                &&& final(self).diagnostics@.len() == old(self).diagnostics@.len() + w.1 + if unclosed {
                    1int
                } else {
                    0int
                }
                &&& (top_mode(w.2) == Mode::Dialogue || top_mode(w.2) == Mode::FunctionString)
                    ==> final(self).diagnostics@.last().code@ == "E-DHN-LEX-001"@
                &&& top_mode(w.2) == Mode::Function ==> final(self).diagnostics@.last().code@
                    == "E-DHN-LEX-002"@
            }),
    {
        let ghost w = lex_walk(self.chars@, self.index as int, self.mode_stack());
        let ghost d0 = self.diagnostics@.len();
        let ghost all = lex_pieces(self.chars@, self.index as int, self.mode_stack());
        let ghost mut done: Seq<Piece> = Seq::empty();
        proof {
            lemma_emitted_none(self.chars@, self.tokens@);
            assert(done + all =~= all);
        }
        while self.index < self.chars.len()
            invariant
                self.wf(),
                self.chars == old(self).chars,
                emitted(self.chars@, old(self).tokens@, self.tokens@, done),
                done + lex_pieces(self.chars@, self.index as int, self.mode_stack()) == all,
                all == lex_pieces(old(self).chars@, old(self).index as int, old(self).mode_stack()),
                lex_walk(self.chars@, self.index as int, self.mode_stack()).0,
                lex_walk(self.chars@, self.index as int, self.mode_stack()).1
                    + self.diagnostics@.len() == w.1 + d0,
                lex_walk(self.chars@, self.index as int, self.mode_stack()).2 == w.2,
            decreases self.chars@.len() - self.index,
        {
            let ch = self.chars[self.index];
            let ghost before = *self;
            match self.mode() {
                Mode::Default => self.lex_default(ch),
                Mode::Dialogue => self.lex_dialogue(ch),
                Mode::Function => self.lex_function(ch),
                Mode::FunctionString => self.lex_function_string(ch),
            }
            proof {
                assert(stepped(&before, self));
                let st = lex_step(before.chars@, before.index as int, before.mode_stack());
                lemma_emitted_trans(self.chars@, old(self).tokens@, before.tokens@, self.tokens@, done, st.pieces);
                assert(done + st.pieces + lex_pieces(self.chars@, self.index as int, self.mode_stack())
                    =~= done + lex_pieces(before.chars@, before.index as int, before.mode_stack()));
                done = done + st.pieces;
            }
        }
        proof {
            assert(done =~= all);
        }
        let top = self.modes.len() - 1;
        let (mode, start) = self.modes[top];
        let span = start.span(self.cursor);
        match mode {
            Mode::Dialogue | Mode::FunctionString => {
                let d = DaihonDiagnostic::error(
                    "E-DHN-LEX-001",
                    "セリフが閉じられていません。",
                    span,
                ).with_help("「 で始まったセリフには、対応する 」 が必要です。");
                self.diagnostics.push(d);
            },
            Mode::Function => {
                let d = DaihonDiagnostic::error(
                    "E-DHN-LEX-002",
                    "関数呼び出しが閉じられていません。",
                    span,
                ).with_help("＜ で始まった関数呼び出しには、対応する ＞ が必要です。");
                self.diagnostics.push(d);
            },
            Mode::Default => {},
        }
        proof {
            assert forall|i: int| 0 <= i < self.diagnostics@.len() implies #[trigger] self.diagnostics@[i].severity
                == Severity::Error by {
                if i < self.diagnostics@.len() - 1 {
                }
            }
        }
    }
}

/// Splits Daihon source into tokens.
///
/// Spaces, tabs and `$$`/`＄＄` comments outside dialogue are skipped; inside
/// dialogue everything is text. The source is refused, with one diagnostic
/// per disallowed character and one for an unclosed dialogue or function
/// call at the end, exactly when it holds such a character or ends inside a
/// dialogue or call. Otherwise the tokens are exactly those `lex_tokens`
/// describes: each covers its piece of the source, in order, with byte
/// offsets, 1-based line and character column, and the normalized form its
/// kind calls for.
pub fn lex_source(source: &str) -> (r: Result<Vec<Token>, Vec<DaihonDiagnostic>>)
    requires
        encode_utf8(source@).len() < usize::MAX,
        lex_terminates(source@),
    ensures
        (r is Ok) == (lex_char_errors(source@) == 0 && lex_final_mode(source@) == Mode::Default),
        r matches Ok(tokens) ==> {
            &&& realizes(source@, tokens@, lex_tokens(source@))
            &&& forall|i: int|
                0 <= i < tokens@.len() ==> token_in_source(source@, #[trigger] tokens@[i])
                    && token_well_formed(tokens@[i])
            &&& tokens_ordered(tokens@)
        },
        r matches Err(diagnostics) ==> {
            &&& diagnostics@.len() == lex_char_errors(source@) + if lex_final_mode(source@)
                != Mode::Default {
                1int
            } else {
                0int
            }
            &&& forall|i: int|
                0 <= i < diagnostics@.len() ==> #[trigger] diagnostics@[i].severity
                    == Severity::Error
            &&& (lex_final_mode(source@) == Mode::Dialogue || lex_final_mode(source@)
                == Mode::FunctionString) ==> diagnostics@.last().code@ == "E-DHN-LEX-001"@
            &&& lex_final_mode(source@) == Mode::Function ==> diagnostics@.last().code@
                == "E-DHN-LEX-002"@
        },
{
    let mut lexer = Lexer::new(source);
    lexer.lex();
    proof {
        assert forall|k: int| 0 <= k < lex_tokens(source@).len() implies piece_matches(
            source@,
            lexer.tokens@[k],
            #[trigger] lex_tokens(source@)[k],
        ) by {
            assert(lexer.tokens@[0 + k] == lexer.tokens@[k]);
        }
    }
    if lexer.diagnostics.len() == 0 {
        Ok(lexer.tokens)
    } else {
        Err(lexer.diagnostics)
    }
}

/// Whether the lexer comes to the end of `source` (see `lex_terminates`): it does not
/// where a lone `「` or `＞` stands inside dialogue or a lone `「` inside a string argument.
/// A caller tests this before `lex_source`.
pub fn lexes_to_end(source: &str) -> (b: bool)
    requires
        encode_utf8(source@).len() < usize::MAX,
    ensures
        b == lex_terminates(source@),
{
    let mut lexer = Lexer::new(source);
    while lexer.index < lexer.chars.len()
        invariant
            lexer.wf(),
            lexer.chars@ == source@,
            lex_terminates(source@) == lex_walk(lexer.chars@, lexer.index as int, lexer.mode_stack()).0,
        decreases lexer.chars@.len() - lexer.index,
    {
        let ch = lexer.chars[lexer.index];
        let before = lexer.index;
        match lexer.mode() {
            Mode::Default => lexer.lex_default(ch),
            Mode::Dialogue => lexer.lex_dialogue(ch),
            Mode::Function => lexer.lex_function(ch),
            Mode::FunctionString => lexer.lex_function_string(ch),
        }
        if lexer.index <= before || lexer.index > lexer.chars.len() {
            return false;
        }
    }
    true
}

} // verus!
