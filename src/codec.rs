use vstd::prelude::*;

verus! {

/// What strict Windows-1252 decoding makes of a byte string: `None` where a
/// byte has no character in that code page.
pub uninterp spec fn cp1252_decoded(b: Seq<u8>) -> Option<Seq<char>>;

/// What strict Windows-1252 encoding makes of a text: `None` where a
/// character has no byte in that code page.
pub uninterp spec fn cp1252_encoded(s: Seq<char>) -> Option<Seq<u8>>;

/// Relies on `encoding::all::WINDOWS_1252.decode` with `DecoderTrap::Strict`:
/// it fails exactly where the bytes are not Windows-1252, and its result
/// depends on the bytes alone.
#[verifier::external_body]
pub(crate) fn decode_cp1252(b: &[u8]) -> (r: Result<String, String>)
    ensures
        r is Ok <==> cp1252_decoded(b@) is Some,
        r is Ok ==> cp1252_decoded(b@) == Some(r->Ok_0@),
{
    encoding::Encoding::decode(encoding::all::WINDOWS_1252, b, encoding::DecoderTrap::Strict).map_err(|e| e.into_owned())
}

/// Relies on `encoding::all::WINDOWS_1252.encode` with `EncoderTrap::Strict`:
/// it fails exactly where a character has no Windows-1252 byte, and its
/// result depends on the text alone.
#[verifier::external_body]
pub(crate) fn encode_cp1252(s: &str) -> (r: Result<Vec<u8>, String>)
    ensures
        r is Ok <==> cp1252_encoded(s@) is Some,
        r is Ok ==> cp1252_encoded(s@) == Some(r->Ok_0@),
{
    encoding::Encoding::encode(encoding::all::WINDOWS_1252, s, encoding::EncoderTrap::Strict).map_err(|e| e.into_owned())
}

} // verus!
