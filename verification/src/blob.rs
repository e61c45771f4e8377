use vstd::prelude::*;
use crate::WalletError;

verus! {

pub uninterp spec fn b64_of(data: Seq<u8>) -> Seq<char>;

/// Relies on base64's standard-alphabet engine: the encoding depends on the
/// input bytes alone.
#[verifier::external_body]
fn b64_encode(data: &Vec<u8>) -> (r: String)
    ensures
        r@ == b64_of(data@),
{
    <base64::engine::general_purpose::GeneralPurpose as base64::Engine>::encode(
        &base64::engine::general_purpose::STANDARD,
        data.as_slice(),
    )
}

/// Relies on base64's standard-alphabet engine: decoding inverts the
/// encoding, and text that is not valid base64 is refused.
#[verifier::external_body]
fn b64_decode(text: &str) -> (r: Option<Vec<u8>>)
    ensures
        forall|b: Seq<u8>| text@ == #[trigger] b64_of(b) ==> r is Some,
        forall|b: Seq<u8>| text@ == #[trigger] b64_of(b) && r is Some ==> r->0@ == b,
{
    match <base64::engine::general_purpose::GeneralPurpose as base64::Engine>::decode(
        &base64::engine::general_purpose::STANDARD,
        text,
    ) {
        Ok(v) => Some(v),
        Err(_) => None,
    }
}

/// Frames an exported transaction record as printable text.
pub fn encode_transaction_blob(payload: &Vec<u8>) -> (r: String)
    ensures
        r@ == b64_of(payload@),
{
    b64_encode(payload)
}

/// Recovers the bytes of an exported transaction record; text that no
/// payload encodes to fails with `DecryptionError`.
pub fn decode_transaction_blob(text: &str) -> (r: Result<Vec<u8>, WalletError>)
    ensures
        forall|b: Seq<u8>| text@ == #[trigger] b64_of(b) ==> r is Ok,
        forall|b: Seq<u8>| text@ == #[trigger] b64_of(b) && r is Ok ==> (r matches Ok(v) && v@ == b),
        r matches Err(e) ==> e == WalletError::DecryptionError,
{
    match b64_decode(text) {
        Some(v) => Ok(v),
        None => Err(WalletError::DecryptionError),
    }
}

/// Round trip of the export framing: decoding what was encoded gives the
/// payload back.
pub proof fn lemma_blob_round_trip(payload: Seq<u8>, text: Seq<char>, decoded: Result<Vec<u8>, WalletError>)
    requires
        text == b64_of(payload),
        forall|b: Seq<u8>| text == #[trigger] b64_of(b) ==> decoded is Ok,
        forall|b: Seq<u8>| text == #[trigger] b64_of(b) && decoded is Ok ==> (decoded matches Ok(v)
            && v@ == b),
    ensures
        decoded matches Ok(v) && v@ == payload,
{
}

} // verus!
