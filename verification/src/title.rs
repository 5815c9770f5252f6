//! Title resolution: the UTF-8 "net" name property is preferred when it
//! strictly decodes; otherwise the legacy plain-text name is decoded
//! permissively; when both are missing or empty a fixed default label is
//! used. A resolved title is never empty.

use vstd::prelude::*;

verus! {

/// The character sequence that permissive UTF-8 decoding yields for the
/// given bytes, with every invalid sequence replaced. The result depends
/// on the bytes alone.
pub uninterp spec fn lossy_utf8(b: Seq<u8>) -> Seq<char>;

/// Whether the given bytes are valid UTF-8, so that strict decoding
/// succeeds. Depends on the bytes alone.
pub uninterp spec fn utf8_ok(b: Seq<u8>) -> bool;

/// Relies on String::from_utf8_lossy: decodes any byte sequence, replacing
/// invalid sequences with the replacement character, so the result is a
/// function of the bytes alone, empty exactly for empty input.
#[verifier::external_body]
fn decode_lossy(b: &Vec<u8>) -> (r: String)
    ensures
        r@ == lossy_utf8(b@),
        b@.len() == 0 ==> r@.len() == 0,
        b@.len() > 0 ==> r@.len() > 0,
{
    String::from_utf8_lossy(b).into_owned()
}

/// Relies on String::from_utf8: succeeds exactly on valid UTF-8, and on
/// valid input the permissive decoding replaces nothing, so the two
/// decodings agree; non-empty valid bytes decode to at least one
/// character.
#[verifier::external_body]
fn decode_strict(b: &Vec<u8>) -> (r: Option<String>)
    ensures
        (r is Some) == utf8_ok(b@),
        r matches Some(s) ==> s@ == lossy_utf8(b@),
        b@.len() > 0 ==> (r matches Some(s) ==> s@.len() > 0),
{
    match String::from_utf8(b.clone()) {
        Ok(s) => Some(s),
        Err(_) => None,
    }
}

/// View of an optional fetched byte payload.
pub open spec fn spec_bytes_opt(o: Option<Vec<u8>>) -> Option<Seq<u8>> {
    match o {
        Some(v) => Some(v@),
        None => None,
    }
}

/// The resolved title: the net name when present, non-empty and strictly
/// decodable; else the legacy name, decoded permissively, when present and
/// non-empty; else the default label.
pub open spec fn spec_title(net: Option<Seq<u8>>, legacy: Option<Seq<u8>>) -> Seq<char> {
    if net is Some && net.unwrap().len() > 0 && utf8_ok(net.unwrap()) {
        lossy_utf8(net.unwrap())
    } else if legacy is Some && legacy.unwrap().len() > 0 {
        lossy_utf8(legacy.unwrap())
    } else {
        "Untitled"@
    }
}

/// Resolves a window's display title from its two fetched name
/// properties; the result is never empty.
pub fn resolve_title(net: &Option<Vec<u8>>, legacy: &Option<Vec<u8>>) -> (r: String)
    ensures
        r@ == spec_title(spec_bytes_opt(*net), spec_bytes_opt(*legacy)),
        r@.len() > 0,
{
    proof {
        reveal_strlit("Untitled");
    }
    if let Some(b) = net {
        if b.len() > 0 {
            if let Some(s) = decode_strict(b) {
                return s;
            }
        }
    }
    if let Some(b) = legacy {
        if b.len() > 0 {
            return decode_lossy(b);
        }
    }
    "Untitled".to_owned()
}

} // verus!
