//! Trusted boundary to the `base64` crate (standard alphabet, padded).

use vstd::prelude::*;

verus! {

/// The character sequence that `base64::encode` produces for a given byte
/// sequence. Left uninterpreted; the wrappers below state the facts the
/// rest of the crate relies on.
pub uninterp spec fn b64_of(bytes: Seq<u8>) -> Seq<char>;

/// The byte sequence that `base64::decode` recovers from a given character
/// sequence, or `None` where the input is not valid base64.
pub uninterp spec fn b64_decoded(line: Seq<char>) -> Option<Seq<u8>>;

/// Relies on `base64::encode`: the result is a function of the input bytes
/// alone, drawn from the standard alphabet plus padding (so it contains no
/// newline), is nonempty for nonempty input, and `base64::decode` recovers
/// exactly the input bytes from it.
#[verifier::external_body]
pub(crate) fn b64_encode(bytes: &[u8]) -> (r: String)
    ensures
        r@ == b64_of(bytes@),
        b64_decoded(r@) == Some(bytes@),
        forall|i: int| 0 <= i < r@.len() ==> r@[i] != '\n',
        bytes@.len() > 0 ==> r@.len() > 0,
{
    base64::encode(bytes)
}

/// Relies on `base64::decode`: the outcome is a function of the input
/// characters alone, succeeding exactly on valid base64 input.
#[verifier::external_body]
pub(crate) fn b64_decode(line: &str) -> (r: Result<Vec<u8>, ()>)
    ensures
        match r {
            Ok(b) => b64_decoded(line@) == Some(b@),
            Err(_) => b64_decoded(line@) is None,
        },
{
    base64::decode(line).map_err(|_| ())
}

} // verus!
