//! The textual interchange form.
//!
//! For exchange with structured-data formats a sketch travels as text: the
//! opaque byte form of the serialization envelope, base64-encoded.  The
//! encoding itself is done by the `base64` crate behind the two trusted
//! wrappers below; everything around them — which bytes are encoded, and
//! what the decoded bytes reconstruct to — is verified.

use base64::Engine;
use vstd::prelude::*;

verus! {

/// The text that standard base64 assigns to a byte sequence.  The exact
/// alphabet and padding are owned by the `base64` crate; the library only
/// relies on the encoding being a fixed injective function of the bytes.
pub uninterp spec fn base64_of(bytes: Seq<u8>) -> Seq<char>;

/// The error type of the `base64` crate's decoder, declared so that the
/// decode wrapper can return it; verified code maps it to the library's
/// own error type without reading it.
#[verifier::external_type_specification]
#[verifier::external_body]
pub struct ExDecodeError(base64::DecodeError);

/// Relies on `base64::engine::Engine::encode` with the standard engine:
/// the returned text is a fixed function of the input bytes.  The length
/// bound keeps the encoder's internal size computation from overflowing.
#[verifier::external_body]
pub(crate) fn base64_encode(bytes: &Vec<u8>) -> (r: String)
    requires
        bytes@.len() <= usize::MAX / 4,
    ensures
        r@ == base64_of(bytes@),
{
    base64::engine::general_purpose::STANDARD.encode(bytes.as_slice())
}

/// Relies on `base64::engine::Engine::decode` with the standard engine:
/// decoding inverts encoding, so on any text that standard base64 assigns
/// to some byte sequence it succeeds and returns exactly that sequence.
#[verifier::external_body]
pub(crate) fn base64_decode(s: &str) -> (r: Result<Vec<u8>, base64::DecodeError>)
    ensures
        r matches Ok(v) ==> (forall|b: Seq<u8>| s@ == base64_of(b) ==> v@ == b),
        r matches Err(e) ==> (forall|b: Seq<u8>| s@ != base64_of(b)),
{
    base64::engine::general_purpose::STANDARD.decode(s)
}

} // verus!
