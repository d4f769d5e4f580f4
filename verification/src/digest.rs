//! The identity digest of canonical object bytes, and its hex text.

use vstd::prelude::*;

verus! {

/// Number of bytes in an object identifier.
pub const HASH_LEN: usize = 20;

/// The SHA-1 digest of `data`, as computed by the `sha1` crate.
pub uninterp spec fn sha1_of(data: Seq<u8>) -> Seq<u8>;

/// Calls `sha1::Sha1::digest` (the one-shot form of the `Digest` trait) and
/// copies the output array into a vector.
///
/// Trusted: the result is a function of the input bytes alone, named
/// `sha1_of`, and is always `HASH_LEN` bytes long (the hasher's output size
/// is the type-level constant `U20`).
#[verifier::external_body]
pub(crate) fn sha1_digest(data: &[u8]) -> (out: Vec<u8>)
    ensures
        out@ == sha1_of(data@),
        out@.len() == HASH_LEN,
{
    <sha1::Sha1 as sha1::Digest>::digest(data).to_vec()
}

/// The hex digit of `d`, for `d` below sixteen: `0` to `9`, then `a` to `f`.
pub open spec fn hex_digit(d: int) -> char {
    if d < 10 {
        (0x30 + d) as char
    } else {
        (0x61 + d - 10) as char
    }
}

/// The hex text of `bytes`: two lower-case digits for each byte, the high
/// half first.
pub open spec fn hex_text(bytes: Seq<u8>) -> Seq<char> {
    Seq::new(
        2 * bytes.len(),
        |i: int|
            if i % 2 == 0 {
                hex_digit(bytes[i / 2] as int / 16)
            } else {
                hex_digit(bytes[i / 2] as int % 16)
            },
    )
}

/// Calls `hex::encode`.
///
/// Trusted: the result is the lower-case hex text of the bytes, two digits
/// for each byte with the high half first, as the crate documents and its
/// table of digits shows.
#[verifier::external_body]
pub(crate) fn hex_encode(bytes: &[u8]) -> (text: String)
    ensures
        text@ == hex_text(bytes@),
{
    hex::encode(bytes)
}

} // verus!
