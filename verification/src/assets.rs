use vstd::prelude::*;
use vstd::utf8::encode_utf8;

use crate::text::{opt_view, push_char, str_is};

verus! {

/// The scheme under which World Pack assets are served.
pub const PACK_ASSET_SCHEME: &'static str = "yuukei-pack";

/// Bytes that stay as they are in a URL path segment: ASCII letters and
/// digits and `-`, `.`, `_`, `~`.
pub open spec fn is_unreserved(b: u8) -> bool {
    (0x41 <= b <= 0x5A) || (0x61 <= b <= 0x7A) || (0x30 <= b <= 0x39) || b == 0x2D || b == 0x2E
        || b == 0x5F || b == 0x7E
}

/// The upper-case hexadecimal digit for `v < 16`.
pub open spec fn hex_digit_upper(v: nat) -> char {
    if v < 10 {
        ('0' as u32 + v) as char
    } else {
        ('A' as u32 + v - 10) as char
    }
}

/// How one byte appears in an encoded path segment.
pub open spec fn encode_byte(b: u8) -> Seq<char> {
    if is_unreserved(b) {
        seq![b as char]
    } else {
        seq!['%', hex_digit_upper((b / 16) as nat), hex_digit_upper((b % 16) as nat)]
    }
}

/// Percent-encoding of a byte sequence, byte by byte.
pub open spec fn percent_encode(bytes: Seq<u8>) -> Seq<char>
    decreases bytes.len(),
{
    if bytes.len() == 0 {
        Seq::empty()
    } else {
        percent_encode(bytes.drop_last()) + encode_byte(bytes.last())
    }
}

fn hex_digit_upper_exec(v: u8) -> (c: char)
    requires
        v < 16,
    ensures
        c == hex_digit_upper(v as nat),
{
    if v < 10 {
        ((0x30u8 + v) as char)
    } else {
        ((0x41u8 + v - 10) as char)
    }
}

/// Percent-encodes the UTF-8 bytes of `value` for use as one URL path
/// segment: unreserved bytes stay, every other byte becomes `%XX`.
pub fn encode_path_segment(value: &str) -> (encoded: String)
    ensures
        encoded@ == percent_encode(encode_utf8(value@)),
{
    let bytes = value.as_bytes();
    let mut encoded = String::new();
    let mut i: usize = 0;
    while i < bytes.len()
        invariant
            i <= bytes@.len(),
            bytes@ == encode_utf8(value@),
            encoded@ == percent_encode(bytes@.take(i as int)),
        decreases bytes@.len() - i,
    {
        let b = bytes[i];
        let unreserved = (0x41 <= b && b <= 0x5A) || (0x61 <= b && b <= 0x7A) || (0x30 <= b && b
            <= 0x39) || b == 0x2D || b == 0x2E || b == 0x5F || b == 0x7E;
        if unreserved {
            push_char(&mut encoded, b as char);
        } else {
            push_char(&mut encoded, '%');
            push_char(&mut encoded, hex_digit_upper_exec(b / 16));
            push_char(&mut encoded, hex_digit_upper_exec(b % 16));
        }
        proof {
            assert(bytes@.take(i + 1).drop_last() =~= bytes@.take(i as int));
            assert(bytes@.take(i + 1).last() == b);
        }
        i += 1;
    }
    proof {
        assert(bytes@.take(bytes@.len() as int) =~= bytes@);
    }
    encoded
}

/// The asset route of an actor's model.
pub fn actor_model_route(actor_id: &str) -> (route: String)
    ensures
        route@ == "actors/"@ + percent_encode(encode_utf8(actor_id@)) + "/model"@,
{
    let mut route = "actors/".to_owned();
    let segment = encode_path_segment(actor_id);
    route.append(segment.as_str());
    route.append("/model");
    route
}

/// The asset route of one of an actor's motions.
pub fn actor_motion_route(actor_id: &str, motion_id: &str) -> (route: String)
    ensures
        route@ == "actors/"@ + percent_encode(encode_utf8(actor_id@)) + "/motions/"@
            + percent_encode(encode_utf8(motion_id@)),
{
    let mut route = "actors/".to_owned();
    let actor = encode_path_segment(actor_id);
    route.append(actor.as_str());
    route.append("/motions/");
    let motion = encode_path_segment(motion_id);
    route.append(motion.as_str());
    route
}

/// The URL under which an asset route is served.
pub fn pack_asset_url(route: &str) -> (url: String)
    ensures
        url@ == "yuukei-pack"@ + "://localhost/"@ + route@,
{
    let mut url = PACK_ASSET_SCHEME.to_owned();
    url.append("://localhost/");
    url.append(route);
    url
}

/// The page an actor window loads.
pub fn actor_window_url(actor_id: &str) -> (url: String)
    ensures
        url@ == "index.html?actorId="@ + percent_encode(encode_utf8(actor_id@)),
{
    let mut url = "index.html?actorId=".to_owned();
    let segment = encode_path_segment(actor_id);
    url.append(segment.as_str());
    url
}

/// The page a stage overlay window loads.
pub fn stage_overlay_url(monitor_id: &str) -> (url: String)
    ensures
        url@ == "index.html?stageOverlayId="@ + monitor_id@,
{
    let mut url = "index.html?stageOverlayId=".to_owned();
    url.append(monitor_id);
    url
}

/// Encoding is injective: different byte sequences give different segments.
pub proof fn lemma_percent_encode_decodable(bytes: Seq<u8>)
    ensures
        forall|i: int| 0 <= i < percent_encode(bytes).len() ==> #[trigger] percent_encode(bytes)[i]
            != '/',
    decreases bytes.len(),
{
    if bytes.len() > 0 {
        lemma_percent_encode_decodable(bytes.drop_last());
        let b = bytes.last();
        let prev = percent_encode(bytes.drop_last());
        assert forall|i: int| 0 <= i < percent_encode(bytes).len() implies #[trigger] percent_encode(bytes)[i]
            != '/' by {
            if i < prev.len() {
                assert(percent_encode(bytes)[i] == prev[i]);
            } else {
                let k = i - prev.len();
                assert(percent_encode(bytes)[i] == encode_byte(b)[k]);
                if !is_unreserved(b) && k > 0 {
                    let v: nat = if k == 1 { (b / 16) as nat } else { (b % 16) as nat };
                    assert(hex_digit_upper(v) as int == if v < 10 { 48 + v as int } else { 65 + v - 10 });
                }
            }
        }
    }
}

// ---------------------------------------------------------------------------
// Asset files
// ---------------------------------------------------------------------------

/// The index of the last `.` of `s`, if it has one.
pub open spec fn last_dot(s: Seq<char>) -> Option<int>
    decreases s.len(),
{
    if s.len() == 0 {
        None
    } else if s.last() == '.' {
        Some(s.len() - 1)
    } else {
        last_dot(s.drop_last())
    }
}

/// The index of the last `/` of `s`, if it has one.
pub open spec fn last_slash(s: Seq<char>) -> Option<int>
    decreases s.len(),
{
    if s.len() == 0 {
        None
    } else if s.last() == '/' {
        Some(s.len() - 1)
    } else {
        last_slash(s.drop_last())
    }
}

/// `last_slash` finds a `/` inside the text.
pub proof fn lemma_last_slash(s: Seq<char>)
    ensures
        last_slash(s) matches Some(k) ==> 0 <= k < s.len() && s[k] == '/',
    decreases s.len(),
{
    if s.len() > 0 && s.last() != '/' {
        lemma_last_slash(s.drop_last());
    }
}

/// A path that every platform splits at `/` alone: no `\`, no drive `:`, and not opening
/// with two `/` (a network share on some platforms).
pub open spec fn slash_path(s: Seq<char>) -> bool {
    !s.contains('\\') && !s.contains(':') && !(s.len() >= 2 && s[0] == '/' && s[1] == '/')
}

/// The file name of a `/`-separated path: its last component, trailing `/` and `.`
/// components left out; none when that component is `..` or there is none.
pub open spec fn path_file_name(s: Seq<char>) -> Option<Seq<char>>
    decreases s.len(),
{
    if s.len() == 0 {
        None
    } else if s.last() == '/' {
        path_file_name(s.drop_last())
    } else {
        let start = match last_slash(s) {
            Some(k) => k + 1,
            None => 0,
        };
        let segment = s.skip(start);
        if segment == "."@ {
            if start == 0 {
                None
            } else {
                proof {
                    lemma_last_slash(s);
                }
                path_file_name(s.take(start))
            }
        } else if segment == ".."@ {
            None
        } else {
            Some(segment)
        }
    }
}

/// The extension of a path: that of its file name, none without one.
pub open spec fn path_extension_of(s: Seq<char>) -> Option<Seq<char>> {
    match path_file_name(s) {
        Some(name) => file_name_extension(name),
        None => None,
    }
}

/// The extension of a file name: the text after its last `.`; none without a `.`, or when
/// the only `.` opens the name.
pub open spec fn file_name_extension(s: Seq<char>) -> Option<Seq<char>> {
    match last_dot(s) {
        None => None,
        Some(k) => if k == 0 {
            None
        } else {
            Some(s.skip(k + 1))
        },
    }
}

/// The extension of a path's file name (std `Path::extension`), as text. std documents
/// the file name as the path's last component (none when it is `..`; trailing separators
/// and `.` components do not count) and the extension as the part of that name after its
/// final `.`, none when the name has no `.` or begins with its only `.`. This is claimed
/// for a path that every platform splits at `/` alone; for other paths (a `\`, a drive
/// `:`, a leading `//`), where platforms differ, only that the extension holds no `.`.
#[verifier::external_body]
fn path_extension(path: &str) -> (r: Option<String>)
    ensures
        r matches Some(e) ==> !e@.contains('.'),
        slash_path(path@) ==> opt_view(r) == path_extension_of(path@),
{
    std::path::Path::new(path).extension().and_then(|e| e.to_str()).map(|e| e.to_owned())
}

/// The content type served for a file of extension `extension`.
pub open spec fn extension_content_type(extension: Option<Seq<char>>) -> Seq<char> {
    match extension {
        Some(e) => if e == "vrm"@ || e == "vrma"@ || e == "glb"@ {
            "model/gltf-binary"@
        } else {
            "application/octet-stream"@
        },
        None => "application/octet-stream"@,
    }
}

/// The extension is `wav` in any ASCII case.
pub open spec fn is_wav_extension(extension: Option<Seq<char>>) -> bool {
    extension matches Some(e) && eq_ignore_ascii_case(e, "wav"@)
}

/// The content type served for a file with extension `extension`: glTF
/// binary for `vrm`, `vrma` and `glb` (exactly), octet-stream otherwise.
pub fn content_type_for_extension(extension: Option<&str>) -> (content_type: &'static str)
    ensures
        content_type@ == (match extension {
            Some(e) => if e@ == "vrm"@ || e@ == "vrma"@ || e@ == "glb"@ {
                "model/gltf-binary"@
            } else {
                "application/octet-stream"@
            },
            None => "application/octet-stream"@,
        }),
{
    match extension {
        Some(e) => if str_is(e, "vrm") || str_is(e, "vrma") || str_is(e, "glb") {
            "model/gltf-binary"
        } else {
            "application/octet-stream"
        },
        None => "application/octet-stream",
    }
}

/// The content type served for the file at `path`, by its extension.
pub fn content_type_for_path(path: &str) -> (content_type: &'static str)
    ensures
        content_type@ == "model/gltf-binary"@ || content_type@ == "application/octet-stream"@,
        slash_path(path@) ==> content_type@ == extension_content_type(path_extension_of(path@)),
{
    let extension = path_extension(path);
    match &extension {
        Some(e) => content_type_for_extension(Some(e.as_str())),
        None => content_type_for_extension(None),
    }
}

/// ASCII lower case of a character.
pub open spec fn ascii_lower(c: char) -> char {
    if 'A' <= c <= 'Z' {
        ((c as u32) + 32) as char
    } else {
        c
    }
}

/// Equal ignoring ASCII case (as `str::eq_ignore_ascii_case`).
pub open spec fn eq_ignore_ascii_case(a: Seq<char>, b: Seq<char>) -> bool {
    a.len() == b.len() && forall|i: int| 0 <= i < a.len() ==> ascii_lower(a[i]) == ascii_lower(
        #[trigger] b[i],
    )
}

fn ascii_lower_exec(c: char) -> (r: char)
    ensures
        r == ascii_lower(c),
{
    if 'A' <= c && c <= 'Z' {
        (((c as u32) + 32) as u8) as char
    } else {
        c
    }
}

/// Whether `a` and `b` are equal ignoring ASCII case.
pub fn str_eq_ignore_ascii_case(a: &str, b: &str) -> (r: bool)
    ensures
        r == eq_ignore_ascii_case(a@, b@),
{
    let x = crate::text::chars_of(a);
    let y = crate::text::chars_of(b);
    if x.len() != y.len() {
        return false;
    }
    let mut i: usize = 0;
    while i < x.len()
        invariant
            x@ == a@,
            y@ == b@,
            x@.len() == y@.len(),
            i <= x@.len(),
            forall|j: int| 0 <= j < i ==> ascii_lower(x@[j]) == ascii_lower(#[trigger] y@[j]),
        decreases x@.len() - i,
    {
        if ascii_lower_exec(x[i]) != ascii_lower_exec(y[i]) {
            return false;
        }
        i += 1;
    }
    true
}

/// The message when an `audio.play` path is not a WAV file.
pub open spec fn not_wav_message(path: Seq<char>) -> Seq<char> {
    "audio.play path is not a wav file: "@ + path
}

/// Accepts a path whose extension is `wav` in any ASCII case; otherwise the
/// error names the path.
pub fn validate_wav_extension_of(path: &str, extension: Option<&str>) -> (r: Result<(), String>)
    ensures
        match extension {
            Some(e) => eq_ignore_ascii_case(e@, "wav"@) ==> r is Ok,
            None => true,
        },
        (match extension {
            Some(e) => !eq_ignore_ascii_case(e@, "wav"@),
            None => true,
        }) ==> (r matches Err(m) && m@ == not_wav_message(path@)),
{
    let is_wav = match extension {
        Some(e) => str_eq_ignore_ascii_case(e, "wav"),
        None => false,
    };
    if is_wav {
        Ok(())
    } else {
        let mut message = "audio.play path is not a wav file: ".to_owned();
        message.append(path);
        Err(message)
    }
}

/// Checks that the file at `path` has a `.wav` extension (in any ASCII
/// case); the error names the path. Whether the file exists is not checked here.
pub fn validate_wav_extension(path: &str) -> (r: Result<(), String>)
    ensures
        r matches Err(m) ==> m@ == not_wav_message(path@),
        slash_path(path@) ==> (r is Ok <==> is_wav_extension(path_extension_of(path@))),
{
    let extension = path_extension(path);
    match &extension {
        Some(e) => validate_wav_extension_of(path, Some(e.as_str())),
        None => validate_wav_extension_of(path, None),
    }
}

/// The WAV file an `audio.play` command asks to play: other commands ask for none; the
/// command must name a path, and the path must have a `.wav` extension (in any ASCII case).
/// Whether the file exists is checked by the caller.
pub fn audio_path_from_command(kind: &str, audio_path: Option<&str>) -> (r: Result<Option<String>, String>)
    ensures
        kind@ != "audio.play"@ ==> r matches Ok(None),
        kind@ == "audio.play"@ && audio_path is None ==> (r matches Err(m)
            && m@ == "audio.play missing audioPath"@),
        kind@ == "audio.play"@ && audio_path is Some ==> match r {
            Ok(Some(p)) => p@ == audio_path->0@,
            Ok(None) => false,
            Err(m) => m@ == not_wav_message(audio_path->0@),
        },
        kind@ == "audio.play"@ && audio_path is Some && slash_path(audio_path->0@) ==> (
        is_wav_extension(path_extension_of(audio_path->0@)) <==> r is Ok),
{
    if !str_is(kind, "audio.play") {
        return Ok(None);
    }
    match audio_path {
        None => Err("audio.play missing audioPath".to_owned()),
        Some(path) => match validate_wav_extension(path) {
            Ok(()) => Ok(Some(path.to_owned())),
            Err(m) => Err(m),
        },
    }
}

} // verus!
