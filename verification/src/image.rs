//! Images attached to a message: the MIME type of a file by its extension,
//! the base64 data URL of its bytes, and the multipart content of a message
//! with images. Reading the files is the caller's part.
use vstd::prelude::*;
use base64::Engine;
use crate::text::{lowercase, push_str, str_eq, to_lowercase, to_string};
use crate::types::{ContentPart, ContentView, MessageContent, PartView};
use crate::outline::{after_last, after_last_string};

verus! {

broadcast use vstd::seq_lib::group_seq_properties;

// ── Base64 ──

/// The character of a base64 digit (0 to 63) in the standard alphabet.
pub open spec fn b64_digit(v: int) -> char {
    if v < 26 {
        (65 + v) as char
    } else if v < 52 {
        (97 + v - 26) as char
    } else if v < 62 {
        (48 + v - 52) as char
    } else if v == 62 {
        '+'
    } else {
        '/'
    }
}

/// Standard base64 with padding (RFC 4648): each three bytes become four
/// digits of six bits; a last group of one or two bytes is padded with `=`.
pub open spec fn base64_of(d: Seq<u8>) -> Seq<char>
    decreases d.len(),
{
    if d.len() == 0 {
        Seq::empty()
    } else if d.len() == 1 {
        seq![b64_digit(d[0] as int / 4), b64_digit((d[0] as int % 4) * 16), '=', '=']
    } else if d.len() == 2 {
        seq![b64_digit(d[0] as int / 4), b64_digit((d[0] as int % 4) * 16 + d[1] as int / 16), b64_digit((d[1] as int % 16) * 4), '=']
    } else {
        seq![
            b64_digit(d[0] as int / 4),
            b64_digit((d[0] as int % 4) * 16 + d[1] as int / 16),
            b64_digit((d[1] as int % 16) * 4 + d[2] as int / 64),
            b64_digit(d[2] as int % 64),
        ] + base64_of(d.skip(3))
    }
}

/// Encode bytes with `base64::engine::general_purpose::STANDARD.encode`: the
/// standard alphabet with `=` padding. The length of the encoding must fit
/// in `usize`, or the call panics.
#[verifier::external_body]
fn base64_standard(data: &[u8]) -> (r: String)
    requires
        4 * ((data@.len() + 2) / 3) <= usize::MAX,
    ensures
        r@ == base64_of(data@),
{
    base64::engine::general_purpose::STANDARD.encode(data)
}

// ── MIME types ──

/// The extension of a path as `Path::extension` reads it: what follows the
/// last `.` of the file name, unless that `.` starts the name or there is none.
pub open spec fn path_extension(path: Seq<char>) -> Option<Seq<char>> {
    crate::plugins::extension(path)
}

/// The MIME type for a lower-case extension; PNG when it is unknown.
pub open spec fn mime_of_ext(l: Seq<char>) -> Seq<char> {
    if l == "png"@ {
        "image/png"@
    } else if l == "jpg"@ || l == "jpeg"@ {
        "image/jpeg"@
    } else if l == "gif"@ {
        "image/gif"@
    } else if l == "webp"@ {
        "image/webp"@
    } else if l == "bmp"@ {
        "image/bmp"@
    } else if l == "svg"@ {
        "image/svg+xml"@
    } else {
        "image/png"@
    }
}

/// The MIME type of an image file, by its lower-cased extension; PNG when
/// the extension is missing or unknown.
pub open spec fn mime_of(path: Seq<char>) -> Seq<char> {
    match path_extension(path) {
        Some(e) => mime_of_ext(lowercase(e)),
        None => "image/png"@,
    }
}

proof fn lemma_after_last_le(s: Seq<char>, c: char)
    ensures
        after_last(s, c).len() <= s.len(),
    decreases s.len(),
{
    if s.len() > 0 && s.last() != c {
        lemma_after_last_le(s.drop_last(), c);
    }
}

/// The extension of a path (see [`path_extension`]).
fn extension_of(path: &str) -> (r: Option<String>)
    ensures
        match path_extension(path@) {
            Some(e) => r matches Some(x) && x@ == e,
            None => r is None,
        },
{
    let name = after_last_string(path, '/');
    let stem = after_last_string(name.as_str(), '.');
    let sl = stem.unicode_len();
    let nl = name.unicode_len();
    proof {
        lemma_after_last_le(name@, '.');
    }
    if sl == nl || sl + 1 == nl {
        None
    } else {
        Some(stem)
    }
}

/// The MIME type for an extension already in lower case (see [`mime_of_ext`]).
pub fn mime_for_extension(lower: &str) -> (r: String)
    ensures
        r@ == mime_of_ext(lower@),
{
    let m = if str_eq(lower, "png") {
        "image/png"
    } else if str_eq(lower, "jpg") || str_eq(lower, "jpeg") {
        "image/jpeg"
    } else if str_eq(lower, "gif") {
        "image/gif"
    } else if str_eq(lower, "webp") {
        "image/webp"
    } else if str_eq(lower, "bmp") {
        "image/bmp"
    } else if str_eq(lower, "svg") {
        "image/svg+xml"
    } else {
        "image/png"
    };
    to_string(m)
}

/// The MIME type of an image file (see [`mime_of`]).
pub fn guess_mime(path: &str) -> (r: String)
    ensures
        r@ == mime_of(path@),
{
    match extension_of(path) {
        Some(e) => {
            let l = to_lowercase(e.as_str());
            mime_for_extension(l.as_str())
        },
        None => to_string("image/png"),
    }
}

// ── Content parts ──

/// Whether bytes are few enough for their base64 length to fit in `usize`.
pub open spec fn encodable(data: Seq<u8>) -> bool {
    4 * ((data.len() + 2) / 3) <= usize::MAX
}

/// The data URL of an image: its MIME type and its bytes in base64.
pub open spec fn data_url(path: Seq<char>, data: Seq<u8>) -> Seq<char> {
    "data:"@ + mime_of(path) + ";base64,"@ + base64_of(data)
}

/// The image part of a message for a file, given its path and its bytes.
pub fn load_image_part(path: &str, data: &[u8]) -> (p: ContentPart)
    requires
        encodable(data@),
    ensures
        p@ == PartView::Image(data_url(path@, data@)),
{
    let mime = guess_mime(path);
    let b64 = base64_standard(data);
    let mut url = to_string("data:");
    push_str(&mut url, mime.as_str());
    push_str(&mut url, ";base64,");
    push_str(&mut url, b64.as_str());
    ContentPart::Image { url }
}

/// The parts of a message with images: the text, then one image per file.
pub open spec fn multipart_view(text: Seq<char>, images: Seq<(String, Vec<u8>)>) -> ContentView {
    ContentView::Parts(
        seq![PartView::Text(text)] + images.map_values(
            |im: (String, Vec<u8>)| PartView::Image(data_url(im.0@, im.1@)),
        ),
    )
}

/// The content of a message with images: the text, then each image (its
/// path and bytes) as a data URL.
pub fn build_multipart_content(text: &str, images: &[(String, Vec<u8>)]) -> (c: MessageContent)
    requires
        forall|i: int| 0 <= i < images@.len() ==> encodable(#[trigger] images@[i].1@),
    ensures
        c@ == multipart_view(text@, images@),
{
    let mut parts: Vec<ContentPart> = Vec::new();
    parts.push(ContentPart::Text { text: to_string(text) });
    let ghost want = seq![PartView::Text(text@)] + images@.map_values(
        |im: (String, Vec<u8>)| PartView::Image(data_url(im.0@, im.1@)),
    );
    let mut i: usize = 0;
    while i < images.len()
        invariant
            i <= images@.len(),
            forall|k: int| 0 <= k < images@.len() ==> encodable(#[trigger] images@[k].1@),
            want == seq![PartView::Text(text@)] + images@.map_values(
                |im: (String, Vec<u8>)| PartView::Image(data_url(im.0@, im.1@)),
            ),
            parts@.map_values(|p: ContentPart| p@) == want.take(i + 1),
        decreases images.len() - i,
    {
        let ghost before = parts@.map_values(|p: ContentPart| p@);
        let part = load_image_part(images[i].0.as_str(), images[i].1.as_slice());
        parts.push(part);
        proof {
            assert(parts@.map_values(|p: ContentPart| p@) =~= before.push(part@));
            assert(want[i + 1] == PartView::Image(data_url(images@[i as int].0@, images@[i as int].1@)));
            assert(want.take(i + 2) =~= want.take(i + 1).push(want[i + 1]));
        }
        i = i + 1;
    }
    assert(want.take(i + 1) =~= want);
    MessageContent::Parts(parts)
}

} // verus!
