//! What this library takes from other crates and from the standard library
//! without proof. Each function makes one call and states what is known of it.

use vstd::prelude::*;
use vstd::string::*;
use vstd::utf8::*;

verus! {

/// What `String::from_utf8_lossy` reads some bytes as.
pub uninterp spec fn lossy(bytes: Seq<u8>) -> Seq<char>;

/// `String::from_utf8_lossy`: bytes that are UTF-8 are read as they are. What
/// replaces the parts that are not is left to the standard library; it depends
/// on the bytes alone.
#[verifier::external_body]
pub(crate) fn utf8_lossy(bytes: &Vec<u8>) -> (r: String)
    ensures
        r@ == lossy(bytes@),
        valid_utf8(bytes@) ==> r@ == decode_utf8(bytes@),
{
    String::from_utf8_lossy(bytes).into_owned()
}

/// What `str::to_lowercase` makes of a text.
pub uninterp spec fn lowercase(s: Seq<char>) -> Seq<char>;

/// Small letters for ASCII capital ones.
pub open spec fn ascii_lower(s: Seq<char>) -> Seq<char> {
    s.map_values(|c: char| if 'A' <= c <= 'Z' { ((c as u32) + 32) as char } else { c })
}

/// `str::to_lowercase`: the text in small letters as Unicode has them. In a
/// text of ASCII characters alone only the letters `A` to `Z` change.
#[verifier::external_body]
pub(crate) fn to_lowercase(s: &str) -> (r: String)
    ensures
        r@ == lowercase(s@),
        (forall|i: int| 0 <= i < s@.len() ==> (#[trigger] s@[i] as u32) < 128) ==> r@ == ascii_lower(
            s@,
        ),
{
    s.to_lowercase()
}

/// The SHA-256 hash of some bytes.
pub uninterp spec fn sha256(bytes: Seq<u8>) -> Seq<u8>;

/// `Sha256::digest` of the crate `sha2`: the hash of the bytes, 32 bytes long.
#[verifier::external_body]
pub(crate) fn sha256_digest(bytes: &Vec<u8>) -> (r: Vec<u8>)
    ensures
        r@ == sha256(bytes@),
        r@.len() == 32,
{
    <sha2::Sha256 as sha2::Digest>::digest(bytes).to_vec()
}

/// Whether `raw` is JSON in which the pointer leads somewhere.
pub uninterp spec fn has_json(raw: Seq<u8>, pointer: Seq<char>) -> bool;

/// `Value::pointer` of the crate `serde_json`, on the value that
/// `serde_json::from_slice` reads: whether the bytes are JSON and the pointer
/// leads to a value in it. The empty pointer leads to the whole.
#[verifier::external_body]
pub(crate) fn json_has(raw: &Vec<u8>, pointer: &str) -> (r: bool)
    ensures
        r == has_json(raw@, pointer@),
{
    match serde_json::from_slice::<serde_json::Value>(raw) {
        Ok(v) => v.pointer(pointer).is_some(),
        Err(_) => false,
    }
}

/// The text that the pointer leads to in `raw`, if it leads to a text.
pub uninterp spec fn text_in_json(raw: Seq<u8>, pointer: Seq<char>) -> Option<Seq<char>>;

/// `Value::as_str` of the crate `serde_json`, where the pointer leads to:
/// `None` if the bytes are not JSON, the pointer leads nowhere, or what it
/// leads to is not a text.
#[verifier::external_body]
pub(crate) fn json_text(raw: &Vec<u8>, pointer: &str) -> (r: Option<String>)
    ensures
        match r {
            Some(t) => text_in_json(raw@, pointer@) == Some(t@),
            None => text_in_json(raw@, pointer@) is None,
        },
{
    match serde_json::from_slice::<serde_json::Value>(raw) {
        Ok(v) => v.pointer(pointer).and_then(|x| x.as_str()).map(|s| s.to_string()),
        Err(_) => None,
    }
}

/// How many items the list has that the pointer leads to in `raw`, if it leads
/// to a list.
pub uninterp spec fn items_in_json(raw: Seq<u8>, pointer: Seq<char>) -> Option<usize>;

/// `Value::as_array` of the crate `serde_json`, where the pointer leads to: the
/// length of the list; `None` if the bytes are not JSON, the pointer leads
/// nowhere, or what it leads to is not a list.
#[verifier::external_body]
pub(crate) fn json_items(raw: &Vec<u8>, pointer: &str) -> (r: Option<usize>)
    ensures
        r == items_in_json(raw@, pointer@),
{
    match serde_json::from_slice::<serde_json::Value>(raw) {
        Ok(v) => v.pointer(pointer).and_then(|x| x.as_array()).map(|a| a.len()),
        Err(_) => None,
    }
}

/// Whether `c` may stand in the value of an HTTP header.
pub open spec fn fits_header(c: char) -> bool {
    c == '\t' || (c as u32) >= 32 && (c as u32) != 127
}

/// `HeaderValue::from_str` of the crate `http`, which `reqwest` re-exports: it
/// takes every text without a character below the blank, other than the tab,
/// and without the delete character.
#[verifier::external_body]
pub(crate) fn is_header_value(s: &str) -> (r: bool)
    ensures
        r == forall|i: int| 0 <= i < s@.len() ==> fits_header(#[trigger] s@[i]),
{
    reqwest::header::HeaderValue::from_str(s).is_ok()
}

/// The standard phrase for an HTTP status code, if it has one.
pub uninterp spec fn reason_phrase(code: u16) -> Option<Seq<char>>;

/// `StatusCode::canonical_reason` of the crate `http`, which `reqwest`
/// re-exports: the phrase of the code, if the crate knows one.
#[verifier::external_body]
pub(crate) fn canonical_reason(code: u16) -> (r: Option<String>)
    ensures
        match r {
            Some(t) => reason_phrase(code) == Some(t@),
            None => reason_phrase(code) is None,
        },
{
    match reqwest::StatusCode::from_u16(code) {
        Ok(s) => s.canonical_reason().map(|r| r.to_string()),
        Err(_) => None,
    }
}

} // verus!
