//! Token transport: the reversible byte-to-text encoding a token travels in
//! over text channels. Not part of resolution logic; decoding a transported
//! token hands back exactly the hex text that was sent.
use vstd::prelude::*;

verus! {

use base64::Engine;
use crate::codec::decode_hex_spec;
use crate::codec::decode_hex_to_visibility;
use crate::codec::encode_hex_spec;
use crate::codec::encode_visibility_to_hex;
use crate::codec::lemma_decode_encode_round_trip;

/// What the URL-safe unpadded base64 encoding of a byte sequence reads as:
/// a function of the input bytes alone.
pub uninterp spec fn b64_of(b: Seq<u8>) -> Seq<char>;

/// Relies on base64's `Engine::encode` with the `URL_SAFE_NO_PAD` engine:
/// the text is a function of the input bytes alone, and empty input encodes
/// to empty text. The length bound keeps the engine's output-size
/// calculation from overflowing.
#[verifier::external_body]
fn b64_encode(b: &[u8]) -> (r: String)
    requires
        b@.len() <= usize::MAX / 4,
    ensures
        r@ == b64_of(b@),
        b@.len() == 0 ==> r@.len() == 0,
{
    base64::engine::general_purpose::URL_SAFE_NO_PAD.encode(b)
}

/// Relies on base64's `Engine::decode` with the `URL_SAFE_NO_PAD` engine:
/// decoding inverts encoding, so text that reads as the encoding of some
/// bytes hands those bytes back; anything else is rejected with `None`.
#[verifier::external_body]
fn b64_decode(s: &str) -> (r: Option<Vec<u8>>)
    ensures
        forall|b: Seq<u8>| s@ == b64_of(b) ==> r is Some && r->Some_0@ == b,
{
    match base64::engine::general_purpose::URL_SAFE_NO_PAD.decode(s.as_bytes()) {
        Ok(v) => Some(v),
        Err(_) => None,
    }
}

/// Encodes a visibility sequence as a transportable token: hex text first,
/// then the URL-safe text form.
pub fn encode_visibility_transport(vis: &[u8]) -> (r: String)
    requires
        vis@.len() <= usize::MAX / 8,
    ensures
        r@ == b64_of(encode_hex_spec(vis@)),
{
    let hex = encode_visibility_to_hex(vis);
    b64_encode(hex.as_slice())
}

/// Decodes a transported token into a visibility sequence: the text form
/// first, then the permissive hex decoding. Text that is not valid
/// transport encoding yields `None`; a transported token always comes back
/// as the visibility sequence its hex text decodes to.
pub fn decode_transport_to_visibility(text: &str) -> (r: Option<Vec<u8>>)
    ensures
        forall|b: Seq<u8>| text@ == b64_of(b) ==> r is Some && r->Some_0@ == decode_hex_spec(b),
{
    match b64_decode(text) {
        Some(hex) => Some(decode_hex_to_visibility(hex.as_slice())),
        None => None,
    }
}

/// Transport round trip: a visibility sequence encoded for transport and
/// decoded again comes back unchanged. `text` is any transport encoding of
/// the sequence and `r` any result that `decode_transport_to_visibility`'s
/// contract allows for it.
pub proof fn lemma_transport_round_trip(v: Seq<u8>, text: Seq<char>, r: Option<Vec<u8>>)
    requires
        text == b64_of(encode_hex_spec(v)),
        forall|b: Seq<u8>| text == b64_of(b) ==> r is Some && r->Some_0@ == decode_hex_spec(b),
    ensures
        r is Some,
        r->Some_0@ == v,
{
    assert(r is Some && r->Some_0@ == decode_hex_spec(encode_hex_spec(v)));
    lemma_decode_encode_round_trip(v);
}

} // verus!
