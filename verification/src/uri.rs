//! File URIs and percent-encoded text.

use crate::text::option_text;
use lsp_types::Uri;
use vstd::prelude::*;
use vstd::utf8::{decode_utf8, encode_utf8, encode_utf8_decode_utf8, encode_utf8_valid_utf8, valid_utf8};

verus! {

/// The value of a hexadecimal digit.
pub open spec fn hex_digit(b: u8) -> Option<u8> {
    if 48 <= b <= 57 {
        Some((b - 48) as u8)
    } else if 97 <= b <= 102 {
        Some((b - 87) as u8)
    } else if 65 <= b <= 70 {
        Some((b - 55) as u8)
    } else {
        None
    }
}

fn hex_val(b: u8) -> (r: Option<u8>)
    ensures
        r == hex_digit(b),
{
    if 48 <= b && b <= 57 {
        Some(b - 48)
    } else if 97 <= b && b <= 102 {
        Some(b - 87)
    } else if 65 <= b && b <= 70 {
        Some(b - 55)
    } else {
        None
    }
}

/// The byte that two hexadecimal digits stand for.
pub open spec fn hex_byte(hi: u8, lo: u8) -> Option<u8> {
    match (hex_digit(hi), hex_digit(lo)) {
        (Some(h), Some(l)) => Some((16 * h + l) as u8),
        _ => None,
    }
}

/// The bytes of `b` from `i` on, behind `acc`, with every `%` that two
/// hexadecimal digits follow replaced by the byte they stand for.
pub open spec fn unpercent(b: Seq<u8>, i: int, acc: Seq<u8>) -> Seq<u8>
    decreases b.len() - i,
{
    if i < 0 || i >= b.len() {
        acc
    } else if b[i] == 37 && i + 2 < b.len() && hex_byte(b[i + 1], b[i + 2]) is Some {
        unpercent(b, i + 3, acc.push(hex_byte(b[i + 1], b[i + 2])->Some_0))
    } else {
        unpercent(b, i + 1, acc.push(b[i]))
    }
}

/// The text that bytes spell, with replacement characters where they are no
/// UTF-8.
pub uninterp spec fn lossy_text(bytes: Seq<u8>) -> Seq<char>;

/// `String::from_utf8_lossy`: the text that valid UTF-8 spells; otherwise a
/// text that depends on the bytes alone.
#[verifier::external_body]
pub(crate) fn from_bytes(bytes: &Vec<u8>) -> (r: String)
    ensures
        r@ == lossy_text(bytes@),
        valid_utf8(bytes@) ==> r@ == decode_utf8(bytes@),
{
    String::from_utf8_lossy(bytes).to_string()
}

/// The text that a percent-encoded text stands for.
pub open spec fn percent_decoded(s: Seq<char>) -> Seq<char> {
    lossy_text(unpercent(encode_utf8(s), 0, Seq::empty()))
}

/// Decode percent-encoded bytes.
pub fn percent_decode(input: &str) -> (r: String)
    ensures
        r@ == percent_decoded(input@),
        !encode_utf8(input@).contains(37u8) ==> r@ == input@,
        valid_utf8(unpercent(encode_utf8(input@), 0, Seq::empty())) ==> r@ == decode_utf8(
            unpercent(encode_utf8(input@), 0, Seq::empty()),
        ),
{
    let bytes = input.as_bytes();
    let ghost b = bytes@;
    let mut out: Vec<u8> = Vec::new();
    let mut i: usize = 0;
    while i < bytes.len()
        invariant
            i <= bytes.len(),
            b == bytes@,
            unpercent(b, 0, Seq::empty()) == unpercent(b, i as int, out@),
        decreases bytes.len() - i,
    {
        let left: usize = bytes.len() - i;
        if bytes[i] == 37 && left > 2 {
            if let (Some(hi), Some(lo)) = (hex_val(bytes[i + 1]), hex_val(bytes[i + 2])) {
                let v: u8 = hi * 16 + lo;
                out.push(v);
                i += 3;
                continue;
            }
        }
        out.push(bytes[i]);
        i += 1;
    }
    let r = from_bytes(&out);
    proof {
        if !b.contains(37u8) {
            nothing_to_decode(b, 0, Seq::empty());
            assert(Seq::<u8>::empty() + b.skip(0) =~= b);
            encode_utf8_valid_utf8(input@);
            encode_utf8_decode_utf8(input@);
        }
    }
    r
}

/// Bytes without `%` stay as they are.
pub proof fn nothing_to_decode(b: Seq<u8>, i: int, acc: Seq<u8>)
    requires
        0 <= i <= b.len(),
        !b.contains(37u8),
    ensures
        unpercent(b, i, acc) == acc + b.skip(i),
    decreases b.len() - i,
{
    if i < b.len() {
        assert(b[i] != 37);
        nothing_to_decode(b, i + 1, acc.push(b[i]));
        assert(acc.push(b[i]) + b.skip(i + 1) =~= acc + b.skip(i));
    } else {
        assert(acc + b.skip(i) =~= acc);
    }
}

/// The scheme and the path of a URI text, or why it is no URI.
pub uninterp spec fn uri_parts(text: Seq<char>) -> Result<
    (Option<Seq<char>>, Seq<char>),
    Seq<char>,
>;

/// The content of an outcome.
pub open spec fn parts_outcome(r: Result<(Option<String>, String), String>) -> Result<
    (Option<Seq<char>>, Seq<char>),
    Seq<char>,
> {
    match r {
        Ok(p) => Ok((option_text(p.0), p.1@)),
        Err(e) => Err(e@),
    }
}

/// The number of bytes up to which a text is parsed as a URI.
pub const URI_LIMIT: usize = 2147483647;

/// Whether a text is too long to be parsed as a URI.
pub open spec fn is_oversized(text: Seq<char>) -> bool {
    encode_utf8(text).len() > URI_LIMIT
}

fn oversized(text: &str) -> (r: bool)
    ensures
        r == is_oversized(text@),
{
    text.as_bytes().len() > URI_LIMIT
}

/// `lsp_types::Uri` parsed from text: its scheme and path, or the text of
/// the error. All depend on the text alone. A text of more than `i32::MAX`
/// bytes is left out: on it the parser panics.
#[verifier::external_body]
fn parse_uri(text: &str) -> (r: Result<(Option<String>, String), String>)
    requires
        !is_oversized(text@),
    ensures
        parts_outcome(r) == uri_parts(text@),
{
    match text.parse::<Uri>() {
        Ok(u) => Ok((u.scheme().map(|s| s.as_str().to_string()), u.path().as_str().to_string())),
        Err(e) => Err(e.to_string()),
    }
}

/// The path of a URI with the given parts: the decoded path of a `file` URI.
pub open spec fn file_path_of(parts: Result<(Option<Seq<char>>, Seq<char>), Seq<char>>) -> Option<
    Seq<char>,
> {
    match parts {
        Ok((Some(scheme), path)) => if scheme == "file"@ && percent_decoded(path).len() > 0 {
            Some(percent_decoded(path))
        } else {
            None
        },
        _ => None,
    }
}

/// The path of a URI with the given parts.
pub fn file_path_from(parts: Result<(Option<String>, String), String>) -> (r: Option<String>)
    ensures
        option_text(r) == file_path_of(parts_outcome(parts)),
{
    match parts {
        Ok((Some(scheme), path)) => {
            if !scheme.as_str().eq("file") {
                return None;
            }
            let decoded = percent_decode(path.as_str());
            if decoded.as_str().is_empty() {
                None
            } else {
                Some(decoded)
            }
        },
        _ => None,
    }
}

/// The path that a URI text stands for; none for one that is too long.
pub open spec fn uri_path(uri: Seq<char>) -> Option<Seq<char>> {
    if is_oversized(uri) {
        None
    } else {
        file_path_of(uri_parts(uri))
    }
}

/// Convert a `file://` URI to a filesystem path.
pub fn uri_to_path(uri: &str) -> (r: Option<String>)
    ensures
        option_text(r) == uri_path(uri@),
{
    if oversized(uri) {
        None
    } else {
        file_path_from(parse_uri(uri))
    }
}

/// The URI text of an absolute path, or why it has none.
pub open spec fn path_uri(path: Seq<char>) -> Result<Seq<char>, Seq<char>> {
    if path.len() == 0 || path[0] != '/' {
        Err("path must be absolute: "@ + path)
    } else if is_oversized("file://"@ + path) {
        Err("path too long for a URI: "@ + path)
    } else {
        match uri_parts("file://"@ + path) {
            Ok(_) => Ok("file://"@ + path),
            Err(e) => Err("invalid URI for "@ + path + ": "@ + e),
        }
    }
}

/// Convert a filesystem path to a `file://` URI.
pub fn path_to_uri(path: &str) -> (r: Result<String, String>)
    ensures
        crate::rule::text_outcome(r) == path_uri(path@),
{
    if !crate::text::starts_with_char(path, '/') {
        let mut m = String::from_str("path must be absolute: ");
        m.append(path);
        return Err(m);
    }
    let mut text = String::from_str("file://");
    text.append(path);
    if oversized(text.as_str()) {
        let mut m = String::from_str("path too long for a URI: ");
        m.append(path);
        return Err(m);
    }
    match parse_uri(text.as_str()) {
        Ok(_) => Ok(text),
        Err(e) => {
            let mut m = String::from_str("invalid URI for ");
            m.append(path);
            m.append(": ");
            m.append(e.as_str());
            Err(m)
        },
    }
}

proof fn decoding_goes_on(b: Seq<u8>, i: int, acc: Seq<u8>)
    requires
        0 <= i <= b.len(),
    ensures
        unpercent(b, i, acc) == unpercent(b.skip(i), 0, acc),
    decreases b.len() - i,
{
    let r = b.skip(i);
    if i < b.len() {
        assert(r[0] == b[i]);
        if b[i] == 37 && i + 2 < b.len() && hex_byte(b[i + 1], b[i + 2]) is Some {
            assert(r[1] == b[i + 1] && r[2] == b[i + 2]);
            let next = acc.push(hex_byte(b[i + 1], b[i + 2])->Some_0);
            decoding_goes_on(b, i + 3, next);
            decoding_goes_on(r, 3, next);
            assert(r.skip(3) =~= b.skip(i + 3));
        } else {
            if i + 2 < b.len() {
                assert(r[1] == b[i + 1] && r[2] == b[i + 2]);
            }
            decoding_goes_on(b, i + 1, acc.push(b[i]));
            decoding_goes_on(r, 1, acc.push(b[i]));
            assert(r.skip(1) =~= b.skip(i + 1));
        }
    }
}

/// The hexadecimal digit of a number below 16, in upper or in lower case.
pub open spec fn as_hex_digit(n: int, upper: bool) -> u8 {
    if n < 10 {
        (48 + n) as u8
    } else if upper {
        (55 + n) as u8
    } else {
        (87 + n) as u8
    }
}

/// An escape is decoded to its byte, in whatever case its digits are, and
/// decoding goes on behind it; any other byte than a percent sign stays.
pub proof fn escapes_are_decoded(x: u8, up1: bool, up2: bool, rest: Seq<u8>, acc: Seq<u8>, y: u8)
    requires
        y != 37,
    ensures
        unpercent(
            seq![37u8, as_hex_digit(x as int / 16, up1), as_hex_digit(x as int % 16, up2)] + rest,
            0,
            acc,
        ) == unpercent(rest, 0, acc.push(x)),
        unpercent(seq![y] + rest, 0, acc) == unpercent(rest, 0, acc.push(y)),
        unpercent(Seq::empty(), 0, acc) == acc,
{
    let hi = as_hex_digit(x as int / 16, up1);
    let lo = as_hex_digit(x as int % 16, up2);
    let b = seq![37u8, hi, lo] + rest;
    assert(hex_digit(hi) == Some((x / 16) as u8));
    assert(hex_digit(lo) == Some((x % 16) as u8));
    assert(hex_byte(hi, lo) == Some(x));
    assert(b[0] == 37 && b[1] == hi && b[2] == lo);
    decoding_goes_on(b, 3, acc.push(x));
    assert(b.skip(3) =~= rest);
    let c = seq![y] + rest;
    assert(c[0] == y);
    decoding_goes_on(c, 1, acc.push(y));
    assert(c.skip(1) =~= rest);
}

/// The URI of an absolute path is the path behind the scheme; a path that is
/// not absolute has none, and a refusal names the path.
pub proof fn a_path_is_in_its_uri(path: Seq<char>)
    ensures
        path_uri(path) matches Ok(u) ==> u.len() == path.len() + 7 && u.skip(7) == path && u.take(7)
            == seq!['f', 'i', 'l', 'e', ':', '/', '/'] && path[0] == '/',
        path.len() == 0 || path[0] != '/' ==> path_uri(path) is Err,
        path_uri(path) is Err ==> path.len() == 0 || path[0] != '/' || is_oversized(
            "file://"@ + path,
        ) || uri_parts("file://"@ + path) is Err,
{
    reveal_strlit("file://");
    let u = "file://"@ + path;
    assert(u.skip(7) =~= path);
    assert(u.take(7) =~= seq!['f', 'i', 'l', 'e', ':', '/', '/']);
}

/// Only the path of a file URI is one: of another scheme, or of a text that
/// is no URI or too long, there is none.
pub proof fn only_file_uris_have_paths(uri: Seq<char>, p: Seq<char>)
    ensures
        uri_path(uri) == Some(p) ==> p.len() > 0 && !is_oversized(uri) && (uri_parts(
            uri,
        ) matches Ok((Some(scheme), path)) && scheme == "file"@ && p == lossy_text(
            unpercent(encode_utf8(path), 0, Seq::empty()),
        )),
        !is_oversized(uri) && uri_parts(uri) == Ok::<(Option<Seq<char>>, Seq<char>), Seq<char>>(
            (Some("file"@), p),
        ) && !encode_utf8(p).contains(37u8) && p.len() > 0 && lossy_text(encode_utf8(p)) == p
            ==> uri_path(uri) == Some(p),
{
    let b = encode_utf8(p);
    if !b.contains(37u8) {
        nothing_to_decode(b, 0, Seq::empty());
        assert(Seq::<u8>::empty() + b.skip(0) =~= b);
    }
}

} // verus!
