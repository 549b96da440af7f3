//! JSON encoding of the numbers and strings that the library persists, through
//! `serde_json`.
use crate::text::decimal_digits;
use vstd::prelude::*;

verus! {

/// What `serde_json::from_slice::<u32>` yields on the given bytes, when it succeeds.
pub uninterp spec fn json_u32_decoding(bytes: Seq<u8>) -> Option<u32>;

/// What `serde_json::from_slice::<u64>` yields on the given bytes, when it succeeds.
pub uninterp spec fn json_u64_decoding(bytes: Seq<u8>) -> Option<u64>;

/// The bytes that `serde_json::to_vec` produces for a string.
pub uninterp spec fn json_string_encoding(s: Seq<char>) -> Seq<u8>;

/// What `serde_json::from_slice::<String>` yields on the given bytes, when it succeeds.
pub uninterp spec fn json_string_decoding(bytes: Seq<u8>) -> Option<Seq<char>>;

/// `serde_json::to_vec(&value)` for a `u32`. serde_json writes an integer as its
/// decimal digits (through `itoa`) into a growing `Vec`, which cannot fail.
#[verifier::external_body]
pub fn json_encode_u32(value: u32) -> (r: core::result::Result<Vec<u8>, serde_json::Error>)
    ensures
        r is Ok,
        r.unwrap()@ == decimal_digits(value as nat),
{
    serde_json::to_vec(&value)
}

/// `serde_json::to_vec(&value)` for a `u64`; as for `u32`, the decimal digits.
#[verifier::external_body]
pub fn json_encode_u64(value: u64) -> (r: core::result::Result<Vec<u8>, serde_json::Error>)
    ensures
        r is Ok,
        r.unwrap()@ == decimal_digits(value as nat),
{
    serde_json::to_vec(&value)
}

/// `serde_json::from_slice::<u32>(bytes)`. Its result is named by `json_u32_decoding`;
/// the plain decimal digits of a `u32` decode to that number.
#[verifier::external_body]
pub fn json_decode_u32(bytes: &[u8]) -> (r: core::result::Result<u32, serde_json::Error>)
    ensures
        r is Ok <==> json_u32_decoding(bytes@) is Some,
        r is Ok ==> json_u32_decoding(bytes@) == Some(r.unwrap()),
        forall|v: u32| bytes@ == decimal_digits(v as nat) ==> (r is Ok && r.unwrap() == v),
{
    serde_json::from_slice::<u32>(bytes)
}

/// `serde_json::from_slice::<u64>(bytes)`. Its result is named by `json_u64_decoding`;
/// the plain decimal digits of a `u64` decode to that number.
#[verifier::external_body]
pub fn json_decode_u64(bytes: &[u8]) -> (r: core::result::Result<u64, serde_json::Error>)
    ensures
        r is Ok <==> json_u64_decoding(bytes@) is Some,
        r is Ok ==> json_u64_decoding(bytes@) == Some(r.unwrap()),
        forall|v: u64| bytes@ == decimal_digits(v as nat) ==> (r is Ok && r.unwrap() == v),
{
    serde_json::from_slice::<u64>(bytes)
}

/// `serde_json::to_vec(s)` for a string: the quoted, escaped text. A `String` is
/// always serialisable, so the call succeeds; its bytes are named by
/// `json_string_encoding`.
#[verifier::external_body]
pub fn json_encode_string(s: &String) -> (r: core::result::Result<Vec<u8>, serde_json::Error>)
    ensures
        r is Ok,
        r.unwrap()@ == json_string_encoding(s@),
{
    serde_json::to_vec(s)
}

/// `serde_json::from_slice::<String>(bytes)`. Its result is named by
/// `json_string_decoding`; the encoding of a string decodes back to that string.
#[verifier::external_body]
pub fn json_decode_string(bytes: &[u8]) -> (r: core::result::Result<String, serde_json::Error>)
    ensures
        r is Ok <==> json_string_decoding(bytes@) is Some,
        r is Ok ==> json_string_decoding(bytes@) == Some(r.unwrap()@),
        forall|s: Seq<char>| bytes@ == json_string_encoding(s) ==> (r is Ok && r.unwrap()@ == s),
{
    serde_json::from_slice::<String>(bytes)
}

} // verus!
