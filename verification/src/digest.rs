//! SHA-256 fingerprints of the serialised table, in lower-case hexadecimal.
use sha2::{Digest, Sha256};
use vstd::prelude::*;
use vstd::utf8::encode_utf8;

use crate::text::string_from_chars;

verus! {

/// The SHA-256 digest of `data` (FIPS 180-4).
pub uninterp spec fn sha256_of(data: Seq<u8>) -> Seq<u8>;

/// Computes `Sha256::digest(data)` (sha2) and returns the digest's bytes: 32 of
/// them, as sha2's output size for `Sha256` (`U32`) fixes. The digest itself is
/// named, not described: SHA-256 takes a standard to state.
#[verifier::external_body]
fn sha256_digest(data: &[u8]) -> (d: Vec<u8>)
    ensures
        d@ == sha256_of(data@),
        d@.len() == 32,
{
    Sha256::digest(data).to_vec()
}

/// The lower-case hexadecimal digit for `d`, which is below sixteen.
pub open spec fn hex_digit(d: nat) -> char {
    if d < 10 {
        (d + 48) as char
    } else {
        (d + 87) as char
    }
}

/// `bytes` in lower-case hexadecimal, two digits a byte, as `{:x}` prints a digest.
pub open spec fn hex_lower(bytes: Seq<u8>) -> Seq<char>
    decreases bytes.len(),
{
    if bytes.len() == 0 {
        seq![]
    } else {
        hex_lower(bytes.drop_last()) + seq![
            hex_digit((bytes.last() / 16) as nat),
            hex_digit((bytes.last() % 16) as nat),
        ]
    }
}

/// The SHA-256 fingerprint of the UTF-8 encoding of `s`, in hexadecimal.
pub open spec fn sha256_hex(s: Seq<char>) -> Seq<char> {
    hex_lower(sha256_of(encode_utf8(s)))
}

fn hex_char(d: u8) -> (c: char)
    requires
        d < 16,
    ensures
        c == hex_digit(d as nat),
{
    if d < 10 {
        (48u8 + d) as char
    } else {
        (87u8 + d) as char
    }
}

/// The lower-case hexadecimal spelling of `bytes`.
pub fn to_hex_lower(bytes: &[u8]) -> (s: Vec<char>)
    ensures
        s@ == hex_lower(bytes@),
{
    let mut out: Vec<char> = Vec::new();
    let mut i: usize = 0;
    while i < bytes.len()
        invariant
            i <= bytes@.len(),
            out@ == hex_lower(bytes@.take(i as int)),
        decreases bytes@.len() - i,
    {
        let b = bytes[i];
        assert(bytes@.take(i + 1).drop_last() =~= bytes@.take(i as int));
        assert(bytes@.take(i + 1).last() == b);
        out.push(hex_char(b / 16));
        out.push(hex_char(b % 16));
        i = i + 1;
    }
    assert(bytes@.take(bytes@.len() as int) =~= bytes@);
    out
}

/// A lower-case hexadecimal digit.
pub open spec fn is_hex_lower(c: char) -> bool {
    ('0' <= c && c <= '9') || ('a' <= c && c <= 'f')
}

/// The hexadecimal spelling of `bytes` has two digits a byte, each a
/// lower-case hexadecimal digit.
pub proof fn lemma_hex_lower_shape(bytes: Seq<u8>)
    ensures
        hex_lower(bytes).len() == 2 * bytes.len(),
        forall|i: int| 0 <= i < hex_lower(bytes).len() ==> is_hex_lower(#[trigger] hex_lower(bytes)[i]),
    decreases bytes.len(),
{
    if bytes.len() > 0 {
        let prev = bytes.drop_last();
        lemma_hex_lower_shape(prev);
        let b = bytes.last();
        let h = hex_lower(bytes);
        assert forall|i: int| 0 <= i < h.len() implies is_hex_lower(#[trigger] h[i]) by {
            if i < hex_lower(prev).len() {
                assert(h[i] == hex_lower(prev)[i]);
            } else {
                let d: nat = if i == hex_lower(prev).len() { (b / 16) as nat } else { (b % 16) as nat };
                assert(h[i] == hex_digit(d));
                assert(d < 16);
            }
        }
    }
}

/// The SHA-256 fingerprint of `data`: 64 lower-case hexadecimal digits.
pub fn sha256(data: &str) -> (h: String)
    ensures
        h@ == sha256_hex(data@),
        h@.len() == 64,
        forall|i: int| 0 <= i < h@.len() ==> is_hex_lower(#[trigger] h@[i]),
{
    let bytes = data.as_bytes();
    let digest = sha256_digest(bytes);
    proof {
        lemma_hex_lower_shape(digest@);
    }
    let hex = to_hex_lower(digest.as_slice());
    string_from_chars(hex.as_slice())
}

} // verus!
