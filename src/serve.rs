use vstd::prelude::*;
use vstd::utf8::*;
use vstd::string::StringSliceAdditionalSpecFns;
use crate::messenger::{lower_of, lowercase};

verus! {

/// The value of an ASCII hexadecimal digit.
pub open spec fn hex_value(b: u8) -> Option<int> {
    if 48 <= b <= 57 {
        Some(b - 48)
    } else if 97 <= b <= 102 {
        Some(b - 87)
    } else if 65 <= b <= 70 {
        Some(b - 55)
    } else {
        None
    }
}

/// The byte that the two characters after a `%` stand for, read as base-16
/// digits the way `u8::from_str_radix` reads them (an optional leading `+`).
pub open spec fn escape_value(b1: u8, b2: u8) -> Option<u8> {
    if b1 == 43 {
        match hex_value(b2) {
            Some(v) => Some(v as u8),
            None => None,
        }
    } else {
        match (hex_value(b1), hex_value(b2)) {
            (Some(h), Some(l)) => Some((16 * h + l) as u8),
            _ => None,
        }
    }
}

/// Bytes with every `%` followed by two more bytes that form an escape
/// replaced by the byte it stands for.
pub open spec fn percent_decoded(bs: Seq<u8>) -> Seq<u8>
    decreases bs.len(),
{
    if bs.len() == 0 {
        bs
    } else if bs[0] == 37 && 2 < bs.len() && escape_value(bs[1], bs[2]) is Some {
        seq![escape_value(bs[1], bs[2])->Some_0] + percent_decoded(bs.skip(3))
    } else {
        seq![bs[0]] + percent_decoded(bs.skip(1))
    }
}

/// The text `String::from_utf8_lossy` makes of some bytes.
pub uninterp spec fn lossy_text(b: Seq<u8>) -> Seq<char>;

/// Relies on `String::from_utf8_lossy`: the text depends on the bytes alone,
/// and valid UTF-8 is decoded as it is.
#[verifier::external_body]
fn utf8_lossy(bytes: &Vec<u8>) -> (r: String)
    ensures
        r@ == lossy_text(bytes@),
        valid_utf8(bytes@) ==> r@ == decode_utf8(bytes@),
{
    String::from_utf8_lossy(bytes.as_slice()).to_string()
}

fn hex_digit(b: u8) -> (r: Option<u8>)
    ensures
        r is Some <==> hex_value(b) is Some,
        r is Some ==> r->Some_0 as int == hex_value(b)->Some_0,
{
    if 48 <= b && b <= 57 {
        Some(b - 48)
    } else if 97 <= b && b <= 102 {
        Some(b - 87)
    } else if 65 <= b && b <= 70 {
        Some(b - 55)
    } else {
        None
    }
}

fn escape(b1: u8, b2: u8) -> (r: Option<u8>)
    ensures
        r == escape_value(b1, b2),
{
    if b1 == 43 {
        match hex_digit(b2) {
            Some(v) => Some(v),
            None => None,
        }
    } else {
        match (hex_digit(b1), hex_digit(b2)) {
            (Some(h), Some(l)) => Some(16 * h + l),
            _ => None,
        }
    }
}

/// The bytes of a percent-encoded path with its escapes decoded.
pub fn percent_decode_bytes(input: &str) -> (r: Vec<u8>)
    ensures
        r@ == percent_decoded(encode_utf8(input@)),
{
    let bytes = input.as_bytes();
    let ghost bs = bytes@;
    let mut out: Vec<u8> = Vec::new();
    let mut i: usize = 0;
    assert(bs.skip(0) =~= bs);
    assert(out@ + percent_decoded(bs) =~= percent_decoded(bs));
    while i < bytes.len()
        invariant
            bs == bytes@,
            bs == input.spec_bytes(),
            i <= bs.len(),
            percent_decoded(bs) == out@ + percent_decoded(bs.skip(i as int)),
        decreases bs.len() - i,
    {
        let ghost rest = bs.skip(i as int);
        if bytes[i] == 37 && 2 < bytes.len() - i {
            match escape(bytes[i + 1], bytes[i + 2]) {
                Some(v) => {
                    assert(rest.skip(3) =~= bs.skip(i + 3));
                    out.push(v);
                    i = i + 3;
                    assert(percent_decoded(bs) =~= out@ + percent_decoded(bs.skip(i as int)));
                    continue;
                },
                None => {},
            }
        }
        assert(rest.skip(1) =~= bs.skip(i + 1));
        out.push(bytes[i]);
        i = i + 1;
        assert(percent_decoded(bs) =~= out@ + percent_decoded(bs.skip(i as int)));
    }
    assert(bs.skip(i as int) =~= Seq::<u8>::empty());
    assert(out@ + Seq::<u8>::empty() =~= out@);
    out
}

/// Decode a percent-encoded URL path back to a filesystem path.
pub fn percent_decode(input: &str) -> (r: String)
    ensures
        r@ == lossy_text(percent_decoded(encode_utf8(input@))),
{
    let bytes = percent_decode_bytes(input);
    utf8_lossy(&bytes)
}

/// The extension that `Path::extension` finds in a path, if any.
pub uninterp spec fn extension_text(path: Seq<char>) -> Option<Seq<char>>;

/// Relies on `Path::extension` (read back with `to_string_lossy`): the
/// extension depends on the path text alone.
#[verifier::external_body]
fn path_extension(path: &str) -> (r: Option<String>)
    ensures
        r is Some <==> extension_text(path@) is Some,
        r is Some ==> r->Some_0@ == extension_text(path@)->Some_0,
{
    std::path::Path::new(path).extension().map(|e| e.to_string_lossy().to_string())
}

/// The MIME type served for a lowercase extension.
pub open spec fn mime_for_extension(e: Seq<char>) -> Seq<char> {
    if e == "jpg"@ || e == "jpeg"@ {
        "image/jpeg"@
    } else if e == "png"@ {
        "image/png"@
    } else if e == "gif"@ {
        "image/gif"@
    } else if e == "webp"@ {
        "image/webp"@
    } else if e == "bmp"@ {
        "image/bmp"@
    } else if e == "mp4"@ {
        "video/mp4"@
    } else if e == "webm"@ {
        "video/webm"@
    } else if e == "mov"@ {
        "video/quicktime"@
    } else if e == "avi"@ {
        "video/x-msvideo"@
    } else {
        "application/octet-stream"@
    }
}

/// The MIME type for a lowercase extension.
pub fn mime_type_for_extension(ext: &str) -> (r: String)
    ensures
        r@ == mime_for_extension(ext@),
{
    let e = ext.to_string();
    if e == "jpg".to_string() || e == "jpeg".to_string() {
        "image/jpeg".to_string()
    } else if e == "png".to_string() {
        "image/png".to_string()
    } else if e == "gif".to_string() {
        "image/gif".to_string()
    } else if e == "webp".to_string() {
        "image/webp".to_string()
    } else if e == "bmp".to_string() {
        "image/bmp".to_string()
    } else if e == "mp4".to_string() {
        "video/mp4".to_string()
    } else if e == "webm".to_string() {
        "video/webm".to_string()
    } else if e == "mov".to_string() {
        "video/quicktime".to_string()
    } else if e == "avi".to_string() {
        "video/x-msvideo".to_string()
    } else {
        "application/octet-stream".to_string()
    }
}

/// A best-effort MIME type from a path's lowercased extension.
pub fn guess_mime(path: &str) -> (r: String)
    ensures
        extension_text(path@) is Some ==> r@ == mime_for_extension(lower_of(extension_text(path@)->Some_0)),
        extension_text(path@) is None ==> r@ == "application/octet-stream"@,
{
    match path_extension(path) {
        Some(ext) => {
            let lowered = lowercase(ext.as_str());
            mime_type_for_extension(lowered.as_str())
        },
        None => "application/octet-stream".to_string(),
    }
}

} // verus!
