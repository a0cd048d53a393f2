use vstd::prelude::*;
use vstd::utf8::encode_utf8;

use crate::text::{decimal_chars, opt_view, push_char, seq_starts_with, spec_decimal, str_is, chars_of, chars_start_with};

verus! {

// ---------------------------------------------------------------------------
// Window labels
// ---------------------------------------------------------------------------

/// Prefix of every actor window's label.
pub const ACTOR_WINDOW_LABEL_PREFIX: &'static str = "actor-";

/// Prefix of every stage overlay window's label.
pub const STAGE_OVERLAY_LABEL_PREFIX: &'static str = "stage-overlay-";

/// The lower-case hexadecimal digit for `v < 16`.
pub open spec fn hex_digit_lower(v: nat) -> char {
    if v < 10 {
        ('0' as u32 + v) as char
    } else {
        ('a' as u32 + v - 10) as char
    }
}

/// Two lower-case hexadecimal digits per byte, most significant first.
pub open spec fn hex_lower(bytes: Seq<u8>) -> Seq<char> {
    Seq::new(
        (2 * bytes.len()) as nat,
        |k: int|
            if k % 2 == 0 {
                hex_digit_lower((bytes[k / 2] / 16) as nat)
            } else {
                hex_digit_lower((bytes[k / 2] % 16) as nat)
            },
    )
}

fn hex_digit_lower_exec(v: u8) -> (c: char)
    requires
        v < 16,
    ensures
        c == hex_digit_lower(v as nat),
{
    if v < 10 {
        ((0x30u8 + v) as char)
    } else {
        ((0x61u8 + v - 10) as char)
    }
}

/// Whether a window label names an actor window.
pub fn is_actor_window_label(label: &str) -> (r: bool)
    ensures
        r == seq_starts_with(label@, "actor-"@),
{
    let l = chars_of(label);
    let p = chars_of(ACTOR_WINDOW_LABEL_PREFIX);
    chars_start_with(l.as_slice(), p.as_slice())
}

/// Whether a window label names a stage overlay window.
pub fn is_stage_overlay_label(label: &str) -> (r: bool)
    ensures
        r == seq_starts_with(label@, "stage-overlay-"@),
{
    let l = chars_of(label);
    let p = chars_of(STAGE_OVERLAY_LABEL_PREFIX);
    chars_start_with(l.as_slice(), p.as_slice())
}

/// The label of an actor's window: `actor-` and the lower-case hexadecimal
/// of the id's UTF-8 bytes, so any id gives a valid, distinct label.
pub fn actor_window_label(actor_id: &str) -> (label: String)
    ensures
        label@ == "actor-"@ + hex_lower(encode_utf8(actor_id@)),
{
    let bytes = actor_id.as_bytes();
    let mut label = ACTOR_WINDOW_LABEL_PREFIX.to_owned();
    let ghost prefix = label@;
    let mut i: usize = 0;
    while i < bytes.len()
        invariant
            i <= bytes@.len(),
            bytes@ == encode_utf8(actor_id@),
            label@ == prefix + hex_lower(bytes@.take(i as int)),
            prefix == "actor-"@,
        decreases bytes@.len() - i,
    {
        let b = bytes[i];
        push_char(&mut label, hex_digit_lower_exec(b / 16));
        push_char(&mut label, hex_digit_lower_exec(b % 16));
        proof {
            assert(hex_lower(bytes@.take(i + 1)) =~= hex_lower(bytes@.take(i as int)).push(
                hex_digit_lower((b / 16) as nat),
            ).push(hex_digit_lower((b % 16) as nat)));
        }
        i += 1;
    }
    proof {
        assert(bytes@.take(bytes@.len() as int) =~= bytes@);
    }
    label
}

/// The label of the stage overlay window for monitor number `index`.
pub fn stage_overlay_window_label(index: usize) -> (label: String)
    ensures
        label@ == "stage-overlay-"@ + spec_decimal(index as nat),
{
    let mut label = STAGE_OVERLAY_LABEL_PREFIX.to_owned();
    let digits = decimal_chars(index);
    let mut i: usize = 0;
    let ghost prefix = label@;
    while i < digits.len()
        invariant
            i <= digits@.len(),
            label@ == prefix + digits@.take(i as int),
        decreases digits@.len() - i,
    {
        push_char(&mut label, digits[i]);
        proof {
            assert(digits@.take(i + 1) =~= digits@.take(i as int).push(digits@[i as int]));
        }
        i += 1;
    }
    proof {
        assert(digits@.take(digits@.len() as int) =~= digits@);
    }
    label
}

/// Distinct actor ids give distinct window labels.
pub proof fn lemma_actor_window_labels_distinct(a: Seq<char>, b: Seq<char>)
    requires
        a != b,
    ensures
        "actor-"@ + hex_lower(encode_utf8(a)) != "actor-"@ + hex_lower(encode_utf8(b)),
{
    vstd::utf8::encode_utf8_decode_utf8(a);
    vstd::utf8::encode_utf8_decode_utf8(b);
    let ea = encode_utf8(a);
    let eb = encode_utf8(b);
    assert(ea != eb);
    let ha = hex_lower(ea);
    let hb = hex_lower(eb);
    if "actor-"@ + ha == "actor-"@ + hb {
        assert(ha =~= ("actor-"@ + ha).skip(("actor-"@).len() as int));
        assert(hb =~= ("actor-"@ + hb).skip(("actor-"@).len() as int));
        lemma_hex_lower_injective(ea, eb);
    }
}

/// The value of a lower-case hexadecimal digit.
pub open spec fn hex_value(c: char) -> int {
    if '0' <= c <= '9' {
        c as int - '0' as int
    } else {
        c as int - 'a' as int + 10
    }
}

/// A lower-case hexadecimal digit.
pub open spec fn is_lower_hex(c: char) -> bool {
    ('0' <= c <= '9') || ('a' <= c <= 'f')
}

/// The bytes a text of lower-case hexadecimal digit pairs stands for.
pub open spec fn hex_decode(s: Seq<char>) -> Seq<u8> {
    Seq::new((s.len() / 2) as nat, |k: int| (hex_value(s[2 * k]) * 16 + hex_value(s[2 * k + 1])) as u8)
}

/// A digit is a lower-case hexadecimal digit of its value.
proof fn lemma_hex_digit_value(v: nat)
    requires
        v < 16,
    ensures
        is_lower_hex(hex_digit_lower(v)),
        hex_value(hex_digit_lower(v)) == v,
{
    if v < 10 {
        assert(('0' as u32 + v) as char as int == '0' as int + v);
    } else {
        assert(('a' as u32 + v - 10) as char as int == 'a' as int + v - 10);
    }
}

/// An actor's window label holds its id: after `actor-` come lower-case hexadecimal
/// digits only, two per byte of the id's UTF-8 form, and decoding them gives the id back.
pub proof fn lemma_actor_window_label_decodes(id: Seq<char>)
    ensures
        ("actor-"@ + hex_lower(encode_utf8(id))).len() == 6 + 2 * encode_utf8(id).len(),
        forall|k: int|
            6 <= k < ("actor-"@ + hex_lower(encode_utf8(id))).len() ==> is_lower_hex(
                #[trigger] ("actor-"@ + hex_lower(encode_utf8(id)))[k],
            ),
        vstd::utf8::decode_utf8(hex_decode(("actor-"@ + hex_lower(encode_utf8(id))).skip(6))) == id,
{
    reveal_strlit("actor-");
    let b = encode_utf8(id);
    let h = hex_lower(b);
    let label = "actor-"@ + h;
    assert(label.skip(6) =~= h);
    assert forall|k: int| 0 <= k < h.len() implies is_lower_hex(#[trigger] h[k]) by {
        lemma_hex_digit_value((b[k / 2] / 16) as nat);
        lemma_hex_digit_value((b[k / 2] % 16) as nat);
    }
    assert forall|k: int| 6 <= k < label.len() implies is_lower_hex(#[trigger] label[k]) by {
        assert(label[k] == h[k - 6]);
    }
    assert forall|k: int| 0 <= k < b.len() implies #[trigger] hex_decode(h)[k] == b[k] by {
        assert(h[2 * k] == hex_digit_lower((b[k] / 16) as nat));
        assert(h[2 * k + 1] == hex_digit_lower((b[k] % 16) as nat));
        lemma_hex_digit_value((b[k] / 16) as nat);
        lemma_hex_digit_value((b[k] % 16) as nat);
        assert(b[k] == (b[k] / 16) * 16 + b[k] % 16);
    }
    assert(hex_decode(h) =~= b);
    vstd::utf8::encode_utf8_decode_utf8(id);
}

proof fn lemma_hex_digit_injective(x: nat, y: nat)
    requires
        x < 16,
        y < 16,
        hex_digit_lower(x) == hex_digit_lower(y),
    ensures
        x == y,
{
    assert(hex_digit_lower(x) as int == if x < 10 { 48 + x as int } else { 97 + x - 10 });
    assert(hex_digit_lower(y) as int == if y < 10 { 48 + y as int } else { 97 + y - 10 });
}

proof fn lemma_hex_lower_injective(a: Seq<u8>, b: Seq<u8>)
    requires
        hex_lower(a) == hex_lower(b),
    ensures
        a == b,
{
    assert(hex_lower(a).len() == 2 * a.len());
    assert(hex_lower(b).len() == 2 * b.len());
    assert(a.len() == b.len());
    assert forall|i: int| 0 <= i < a.len() implies a[i] == b[i] by {
        let k = 2 * i;
        assert(k / 2 == i && k % 2 == 0);
        assert((k + 1) / 2 == i && (k + 1) % 2 == 1);
        assert(hex_lower(a)[k] == hex_lower(b)[k]);
        assert(hex_lower(a)[k + 1] == hex_lower(b)[k + 1]);
        assert(hex_lower(a)[k] == hex_digit_lower((a[i] / 16) as nat));
        assert(hex_lower(b)[k] == hex_digit_lower((b[i] / 16) as nat));
        assert(hex_lower(a)[k + 1] == hex_digit_lower((a[i] % 16) as nat));
        assert(hex_lower(b)[k + 1] == hex_digit_lower((b[i] % 16) as nat));
        lemma_hex_digit_injective((a[i] / 16) as nat, (b[i] / 16) as nat);
        lemma_hex_digit_injective((a[i] % 16) as nat, (b[i] % 16) as nat);
    }
    assert(a =~= b);
}

} // verus!
verus! {

// ---------------------------------------------------------------------------
// Power events and walking
// ---------------------------------------------------------------------------

/// A change in the machine's power state.
#[derive(Clone, Copy, Debug, PartialEq, Eq)]
pub enum PowerEvent {
    SleepBefore,
    Wake,
}

/// The runtime event a power change is reported as.
pub fn power_event_name(event: PowerEvent) -> (name: &'static str)
    ensures
        name@ == (match event {
            PowerEvent::SleepBefore => "device.sleep.before"@,
            PowerEvent::Wake => "device.wake"@,
        }),
{
    match event {
        PowerEvent::SleepBefore => "device.sleep.before",
        PowerEvent::Wake => "device.wake",
    }
}

/// Where an actor is asked to walk.
#[derive(Clone, Copy, Debug, PartialEq, Eq)]
pub enum WalkDestination {
    RightEdge,
    LeftEdge,
}

impl WalkDestination {
    /// Reads `right-edge` or `left-edge`; anything else names no destination.
    pub fn parse(value: &str) -> (r: Option<WalkDestination>)
        ensures
            r == (if value@ == "right-edge"@ {
                Some(WalkDestination::RightEdge)
            } else if value@ == "left-edge"@ {
                Some(WalkDestination::LeftEdge)
            } else {
                None
            }),
    {
        if str_is(value, "right-edge") {
            Some(WalkDestination::RightEdge)
        } else if str_is(value, "left-edge") {
            Some(WalkDestination::LeftEdge)
        } else {
            None
        }
    }
}

// ---------------------------------------------------------------------------
// Keeping the shell's reveal edges free
// ---------------------------------------------------------------------------

/// Pixels kept free at every monitor edge for the shell's auto-hide reveal gesture.
pub const SHELL_REVEAL_EDGE_RESERVE_PX: u32 = 2;

/// A rectangle in physical pixels.
#[derive(Clone, Copy, Debug, PartialEq, Eq)]
pub struct PhysicalStageBounds {
    pub x: i32,
    pub y: i32,
    pub width: u32,
    pub height: u32,
}

/// `v` clamped into the `i32` range.
pub open spec fn clamp_i32(v: int) -> i32 {
    if v < i32::MIN {
        i32::MIN
    } else if v > i32::MAX {
        i32::MAX
    } else {
        v as i32
    }
}

/// Saturating subtraction on `u32`.
pub open spec fn sat_sub_u32(a: u32, b: u32) -> u32 {
    if a < b {
        0
    } else {
        (a - b) as u32
    }
}

impl PhysicalStageBounds {
    /// The rectangle with the given origin and size.
    pub fn new(x: i32, y: i32, width: u32, height: u32) -> (b: PhysicalStageBounds)
        ensures
            b == (PhysicalStageBounds { x, y, width, height }),
    {
        PhysicalStageBounds { x, y, width, height }
    }

    pub open spec fn spec_right(self) -> i32 {
        clamp_i32(self.x + self.width)
    }

    pub open spec fn spec_bottom(self) -> i32 {
        clamp_i32(self.y + self.height)
    }

    /// The right edge, clamped into `i32`.
    pub fn right(self) -> (r: i32)
        ensures
            r == self.spec_right(),
    {
        let v: i64 = self.x as i64 + self.width as i64;
        if v > i32::MAX as i64 {
            i32::MAX
        } else {
            v as i32
        }
    }

    /// The bottom edge, clamped into `i32`.
    pub fn bottom(self) -> (r: i32)
        ensures
            r == self.spec_bottom(),
    {
        let v: i64 = self.y as i64 + self.height as i64;
        if v > i32::MAX as i64 {
            i32::MAX
        } else {
            v as i32
        }
    }
}

/// How far an edge must move in to clear the reserve: `need` pixels,
/// at least 0 and never so far that less than one pixel of `extent` remains.
pub open spec fn edge_reserve(need: i32, extent: u32) -> u32 {
    let want: int = if need < 0 {
        0
    } else {
        need as int
    };
    if want < sat_sub_u32(extent, 1) {
        want as u32
    } else {
        sat_sub_u32(extent, 1)
    }
}

/// Saturating `i32` arithmetic, as a spec.
pub open spec fn sat_i32(v: int) -> i32 {
    clamp_i32(v)
}

/// The work area with every monitor edge it touches moved in by the
/// reserve, keeping at least one pixel of width and height.
pub open spec fn spec_reserve_shell_reveal_edges(
    work_area: PhysicalStageBounds,
    monitor: PhysicalStageBounds,
) -> PhysicalStageBounds {
    let min_left = sat_i32(monitor.x + 2);
    let min_top = sat_i32(monitor.y + 2);
    let max_right = sat_i32(monitor.spec_right() - 2);
    let max_bottom = sat_i32(monitor.spec_bottom() - 2);
    let left = edge_reserve(sat_i32(min_left - work_area.x), work_area.width);
    let a = PhysicalStageBounds {
        x: sat_i32(work_area.x + left),
        width: (work_area.width - left) as u32,
        ..work_area
    };
    let top = edge_reserve(sat_i32(min_top - a.y), a.height);
    let b = PhysicalStageBounds { y: sat_i32(a.y + top), height: (a.height - top) as u32, ..a };
    let right = edge_reserve(sat_i32(b.spec_right() - max_right), b.width);
    let c = PhysicalStageBounds { width: (b.width - right) as u32, ..b };
    let bottom = edge_reserve(sat_i32(c.spec_bottom() - max_bottom), c.height);
    PhysicalStageBounds { height: (c.height - bottom) as u32, ..c }
}

/// `a + b`, saturating at the `i32` bounds (as `i32::saturating_add`).
fn sat_add_i32(a: i32, b: i32) -> (r: i32)
    ensures
        r == sat_i32(a + b),
{
    let v: i64 = a as i64 + b as i64;
    if v > i32::MAX as i64 {
        i32::MAX
    } else if v < i32::MIN as i64 {
        i32::MIN
    } else {
        v as i32
    }
}

/// `a - b`, saturating at the `i32` bounds (as `i32::saturating_sub`).
fn sat_sub_i32(a: i32, b: i32) -> (r: i32)
    ensures
        r == sat_i32(a - b),
{
    let v: i64 = a as i64 - b as i64;
    if v > i32::MAX as i64 {
        i32::MAX
    } else if v < i32::MIN as i64 {
        i32::MIN
    } else {
        v as i32
    }
}

fn edge_reserve_exec(need: i32, extent: u32) -> (r: u32)
    ensures
        r == edge_reserve(need, extent),
        r <= sat_sub_u32(extent, 1),
{
    let want: u32 = if need < 0 {
        0
    } else {
        need as u32
    };
    let limit = extent.saturating_sub(1);
    if want < limit {
        want
    } else {
        limit
    }
}

/// Moves every monitor edge the work area touches in by
/// `SHELL_REVEAL_EDGE_RESERVE_PX`, so the shell's reveal strip stays outside
/// the stage; width and height never drop below one pixel.
pub fn reserve_shell_reveal_edges(
    work_area: PhysicalStageBounds,
    monitor: PhysicalStageBounds,
) -> (r: PhysicalStageBounds)
    ensures
        r == spec_reserve_shell_reveal_edges(work_area, monitor),
{
    let mut work_area = work_area;
    let reserve_px = SHELL_REVEAL_EDGE_RESERVE_PX as i32;
    let min_left = sat_add_i32(monitor.x, reserve_px);
    let min_top = sat_add_i32(monitor.y, reserve_px);
    let max_right = sat_sub_i32(monitor.right(), reserve_px);
    let max_bottom = sat_sub_i32(monitor.bottom(), reserve_px);

    let reserve = edge_reserve_exec(sat_sub_i32(min_left, work_area.x), work_area.width);
    if reserve > 0 {
        work_area.x = sat_add_i32(work_area.x, reserve as i32);
        work_area.width = work_area.width - reserve;
    }
    let reserve = edge_reserve_exec(sat_sub_i32(min_top, work_area.y), work_area.height);
    if reserve > 0 {
        work_area.y = sat_add_i32(work_area.y, reserve as i32);
        work_area.height = work_area.height - reserve;
    }
    let reserve = edge_reserve_exec(sat_sub_i32(work_area.right(), max_right), work_area.width);
    if reserve > 0 {
        work_area.width = work_area.width - reserve;
    }
    let reserve = edge_reserve_exec(
        sat_sub_i32(work_area.bottom(), max_bottom),
        work_area.height,
    );
    if reserve > 0 {
        work_area.height = work_area.height - reserve;
    }
    work_area
}

/// The reserved area stays inside the work area, keeps at least one pixel
/// where the work area had one, and, where there is room, starts at least
/// the reserve inside the monitor's left and top edges.
pub proof fn lemma_reserved_area_within_work_area(
    work_area: PhysicalStageBounds,
    monitor: PhysicalStageBounds,
)
    requires
        work_area.x as int + work_area.width as int <= i32::MAX,
        work_area.y as int + work_area.height as int <= i32::MAX,
        monitor.x as int + 2 <= i32::MAX,
        monitor.y as int + 2 <= i32::MAX,
        monitor.x as int + 2 - work_area.x as int <= i32::MAX,
        monitor.y as int + 2 - work_area.y as int <= i32::MAX,
    ensures
        work_area.x <= spec_reserve_shell_reveal_edges(work_area, monitor).x,
        work_area.y <= spec_reserve_shell_reveal_edges(work_area, monitor).y,
        spec_reserve_shell_reveal_edges(work_area, monitor).x + spec_reserve_shell_reveal_edges(work_area, monitor).width <= work_area.x + work_area.width,
        spec_reserve_shell_reveal_edges(work_area, monitor).y + spec_reserve_shell_reveal_edges(work_area, monitor).height <= work_area.y + work_area.height,
        work_area.width >= 1 ==> spec_reserve_shell_reveal_edges(work_area, monitor).width >= 1,
        work_area.height >= 1 ==> spec_reserve_shell_reveal_edges(work_area, monitor).height >= 1,
        work_area.x as int + work_area.width as int >= monitor.x as int + 3 ==> spec_reserve_shell_reveal_edges(work_area, monitor).x >= monitor.x + 2,
        work_area.y as int + work_area.height as int >= monitor.y as int + 3 ==> spec_reserve_shell_reveal_edges(work_area, monitor).y >= monitor.y + 2,
{
}

// ---------------------------------------------------------------------------
// Placing windows behind the shell's taskbar
// ---------------------------------------------------------------------------

/// The shell's taskbar window classes.
pub open spec fn is_taskbar_class(class_name: Seq<char>) -> bool {
    class_name == "Shell_TrayWnd"@ || class_name == "Shell_SecondaryTrayWnd"@
}

/// A window (class name, topmost, monitor) is a topmost taskbar on `target_monitor`.
pub open spec fn is_taskbar_target(w: (&str, bool, isize), target_monitor: isize) -> bool {
    w.1 && w.2 == target_monitor && is_taskbar_class(w.0@)
}

/// The last of the first `n` windows that is a topmost taskbar on the monitor.
pub open spec fn last_taskbar(windows: Seq<(&str, bool, isize)>, target_monitor: isize, n: int) -> Option<int>
    decreases n,
{
    if n <= 0 {
        None
    } else if is_taskbar_target(windows[n - 1], target_monitor) {
        Some(n - 1)
    } else {
        last_taskbar(windows, target_monitor, n - 1)
    }
}

/// Among windows listed front to back, the position of the last topmost
/// shell taskbar on `target_monitor`: a window placed right after it stays
/// topmost but behind that monitor's taskbar.
pub fn taskbar_insert_after_index(
    windows: &[(&str, bool, isize)],
    target_monitor: isize,
) -> (r: Option<usize>)
    ensures
        match last_taskbar(windows@, target_monitor, windows@.len() as int) {
            Some(i) => r == Some(i as usize),
            None => r is None,
        },
{
    let mut n: usize = windows.len();
    while n > 0
        invariant
            n <= windows@.len(),
            last_taskbar(windows@, target_monitor, windows@.len() as int) == last_taskbar(
                windows@,
                target_monitor,
                n as int,
            ),
        decreases n,
    {
        let (class_name, topmost, monitor) = windows[n - 1];
        if topmost && monitor == target_monitor && (str_is(class_name, "Shell_TrayWnd") || str_is(
            class_name,
            "Shell_SecondaryTrayWnd",
        )) {
            return Some(n - 1);
        }
        n -= 1;
    }
    None
}

} // verus!
verus! {

/// A speech bubble shown above an actor.
#[derive(Clone, Debug, PartialEq, Eq)]
pub struct StageBubble {
    pub bubble_id: String,
    pub actor_id: String,
    pub text: String,
    pub choice: Option<StageBubbleChoice>,
    pub created_at_ms: u64,
    pub duration_ms: u64,
}

/// Choices offered in a speech bubble, with how long they stay open.
#[derive(Clone, Debug, PartialEq, Eq)]
pub struct StageBubbleChoice {
    pub choice_id: String,
    pub choices: Vec<String>,
    pub timeout_seconds: u64,
}

/// An actor stopped perching on a window, and why.
#[derive(Clone, Debug, PartialEq, Eq)]
pub struct StagePerchEnded {
    pub actor_id: String,
    pub window_key: String,
    pub reason: &'static str,
}

/// A drag of an actor window began, under the given session.
#[derive(Clone, Debug, PartialEq, Eq)]
pub struct ActorWindowDragStarted {
    pub session_id: String,
}

} // verus!
verus! {

/// The actor a runtime command is for: its explicit target actor where it names one,
/// otherwise the speaker named in its payload.
pub fn command_actor_id(target_actor_id: Option<&str>, payload_speaker_id: Option<&str>)
    -> (r: Option<String>)
    ensures
        opt_view(r) == match target_actor_id {
            Some(t) => Some(t@),
            None => match payload_speaker_id {
                Some(s) => Some(s@),
                None => None,
            },
        },
{
    match target_actor_id {
        Some(t) => Some(t.to_owned()),
        None => match payload_speaker_id {
            Some(s) => Some(s.to_owned()),
            None => None,
        },
    }
}

} // verus!
