//! Token codec: converts a hex-text token (as ASCII bytes) into an ordered
//! sequence of per-slot visibility values, and back.
//!
//! Decoding is deliberately permissive: a byte pair that is not valid hex
//! decodes to `0` ("nothing selected"), and a lone trailing byte counts as an
//! unparseable pair. Encoding produces two uppercase hex digits per value, so
//! decoding an encoded sequence returns it unchanged.
use vstd::prelude::*;

verus! {

/// Value of one ASCII hex digit, `None` for a non-digit byte.
pub open spec fn hex_digit_val(b: u8) -> Option<u8> {
    if 48 <= b && b <= 57 {
        // '0' ..= '9'
        Some((b - 48) as u8)
    } else if 65 <= b && b <= 70 {
        // 'A' ..= 'F'
        Some((b - 55) as u8)
    } else if 97 <= b && b <= 102 {
        // 'a' ..= 'f'
        Some((b - 87) as u8)
    } else {
        None
    }
}

/// Value of one byte pair: `0` unless both bytes are hex digits.
pub open spec fn hex_pair_val(hi: u8, lo: u8) -> u8 {
    match (hex_digit_val(hi), hex_digit_val(lo)) {
        (Some(h), Some(l)) => (h * 16 + l) as u8,
        _ => 0,
    }
}

/// Visibility value at pair index `i` of the token text; a pair that runs past
/// the end of the text decodes to `0`.
pub open spec fn pair_at(s: Seq<u8>, i: int) -> u8 {
    if 2 * i + 1 < s.len() {
        hex_pair_val(s[2 * i], s[2 * i + 1])
    } else {
        0
    }
}

/// The visibility sequence a hex token decodes to: one value per byte pair,
/// a lone trailing byte counting as one unparseable pair.
pub open spec fn decode_hex_spec(s: Seq<u8>) -> Seq<u8> {
    Seq::new((s.len() + 1) / 2, |i: int| pair_at(s, i))
}

/// Uppercase ASCII hex digit for a value below 16.
pub open spec fn hex_digit_char(n: u8) -> u8 {
    if n < 10 {
        (48 + n) as u8
    } else {
        (55 + n) as u8
    }
}

/// The hex text a visibility sequence encodes to: two uppercase digits per
/// value.
pub open spec fn encode_hex_spec(v: Seq<u8>) -> Seq<u8> {
    Seq::new(v.len() * 2, |i: int| if i % 2 == 0 {
        hex_digit_char((v[i / 2] / 16) as u8)
    } else {
        hex_digit_char((v[i / 2] % 16) as u8)
    })
}

/// Value of one ASCII hex digit, `None` for a non-digit byte.
pub fn hex_digit_value(b: u8) -> (r: Option<u8>)
    ensures
        r == hex_digit_val(b),
{
    if 48 <= b && b <= 57 {
        Some(b - 48)
    } else if 65 <= b && b <= 70 {
        Some(b - 55)
    } else if 97 <= b && b <= 102 {
        Some(b - 87)
    } else {
        None
    }
}

/// Decodes a hex-text token into visibility values, one per byte pair.
///
/// Total on every input: a malformed pair decodes to `0` rather than failing,
/// so a partially corrupted token still selects what its intact pairs name.
pub fn decode_hex_to_visibility(hex: &[u8]) -> (out: Vec<u8>)
    ensures
        out@ == decode_hex_spec(hex@),
{
    let mut out: Vec<u8> = Vec::new();
    let mut i: usize = 0;
    while i + 1 < hex.len()
        invariant
            i % 2 == 0,
            i <= hex.len() + 1,
            out@.len() == i / 2,
            forall|j: int| 0 <= j < out@.len() ==> out@[j] == pair_at(hex@, j),
        decreases hex.len() - i,
    {
        let hi = hex[i];
        let lo = hex[i + 1];
        let value: u8 = match (hex_digit_value(hi), hex_digit_value(lo)) {
            (Some(h), Some(l)) => h * 16 + l,
            _ => 0,
        };
        out.push(value);
        i = i + 2;
    }
    if i < hex.len() {
        // a lone trailing byte is an unparseable pair
        out.push(0);
    }
    proof {
        assert(out@ =~= decode_hex_spec(hex@));
    }
    out
}

/// Encodes visibility values as hex text, two uppercase digits per value.
///
/// Provided to generate tokens for enumeration and testing; decoding the
/// result returns the input unchanged.
pub fn encode_visibility_to_hex(vis: &[u8]) -> (out: Vec<u8>)
    ensures
        out@ == encode_hex_spec(vis@),
{
    let mut out: Vec<u8> = Vec::new();
    let mut i: usize = 0;
    while i < vis.len()
        invariant
            i <= vis.len(),
            out@.len() == 2 * i,
            forall|j: int| 0 <= j < out@.len() ==> out@[j] == encode_hex_spec(vis@)[j],
        decreases vis.len() - i,
    {
        let v = vis[i];
        let hi: u8 = v / 16;
        let lo: u8 = v % 16;
        let hi_char: u8 = if hi < 10 {
            48 + hi
        } else {
            55 + hi
        };
        let lo_char: u8 = if lo < 10 {
            48 + lo
        } else {
            55 + lo
        };
        out.push(hi_char);
        out.push(lo_char);
        i = i + 1;
    }
    proof {
        assert(out@ =~= encode_hex_spec(vis@));
    }
    out
}

/// A hex digit survives the digit-value round trip.
proof fn lemma_digit_round_trip(n: u8)
    requires
        n < 16,
    ensures
        hex_digit_val(hex_digit_char(n)) == Some(n),
{
}

/// Round trip: decoding an encoded visibility sequence returns it unchanged,
/// for every sequence of byte values.
pub proof fn lemma_decode_encode_round_trip(v: Seq<u8>)
    ensures
        decode_hex_spec(encode_hex_spec(v)) == v,
{
    let enc = encode_hex_spec(v);
    let dec = decode_hex_spec(enc);
    assert(dec.len() == v.len());
    assert forall|i: int| 0 <= i < v.len() implies dec[i] == v[i] by {
        assert(enc[2 * i] == hex_digit_char((v[i] / 16) as u8));
        assert(enc[2 * i + 1] == hex_digit_char((v[i] % 16) as u8));
        lemma_digit_round_trip((v[i] / 16) as u8);
        lemma_digit_round_trip((v[i] % 16) as u8);
        assert(dec[i] == ((v[i] / 16) * 16 + v[i] % 16) as u8);
    }
    assert(dec =~= v);
}

} // verus!
