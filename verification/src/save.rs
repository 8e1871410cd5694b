//! Save games as text: the serialized world's bytes in unpadded standard base64.
use vstd::prelude::*;

use base64::engine::general_purpose::STANDARD_NO_PAD;
use base64::{DecodeError, Engine};

verus! {

/// The error of a base64 decoding, carried through as an opaque value.
#[verifier::external_type_specification]
#[verifier::external_body]
pub struct ExDecodeError(DecodeError);

/// The unpadded standard base64 text of `bytes`.
pub uninterp spec fn base64_text(bytes: Seq<u8>) -> Seq<char>;

/// `Engine::encode` with `STANDARD_NO_PAD`: the text is the name applied to the bytes, and
/// no other bytes have the same text (base64 maps distinct inputs to distinct texts).
#[verifier::external_body]
fn encode_base64(bytes: &Vec<u8>) -> (r: String)
    ensures
        r@ == base64_text(bytes@),
        forall|other: Seq<u8>| #[trigger] base64_text(other) == r@ ==> other == bytes@,
{
    STANDARD_NO_PAD.encode(bytes.as_slice())
}

/// `Engine::decode` with `STANDARD_NO_PAD`: the engine rejects padding and non-canonical
/// trailing bits, so whatever it accepts is exactly the encoding of the bytes it returns,
/// and every encoding it accepts.
#[verifier::external_body]
fn decode_base64(text: &String) -> (r: Result<Vec<u8>, DecodeError>)
    ensures
        r matches Ok(b) ==> base64_text(b@) == text@,
        r matches Ok(b) ==> forall|other: Seq<u8>| #[trigger] base64_text(other) == text@ ==> other == b@,
        (exists|b: Seq<u8>| #[trigger] base64_text(b) == text@) ==> r is Ok,
{
    STANDARD_NO_PAD.decode(text.as_bytes())
}

/// Why a save could not be loaded.
#[derive(Clone, Copy, Debug, PartialEq, Eq, Structural)]
pub enum LoadError {
    /// The text is not unpadded standard base64.
    NotBase64,
}

/// The text of a save: its bytes in unpadded standard base64.
pub fn save_text(bytes: &Vec<u8>) -> (r: String)
    ensures
        r@ == base64_text(bytes@),
{
    encode_base64(bytes)
}

/// The bytes of a save from its text. Loading the text of a save gives back its bytes.
pub fn load_bytes(text: &String) -> (r: Result<Vec<u8>, LoadError>)
    ensures
        r matches Ok(b) ==> base64_text(b@) == text@,
        r is Err <==> !exists|b: Seq<u8>| #[trigger] base64_text(b) == text@,
        forall|b: Seq<u8>| #[trigger] base64_text(b) == text@ ==> (r matches Ok(v) && v@ == b),
{
    match decode_base64(text) {
        Ok(bytes) => Ok(bytes),
        Err(_) => Err(LoadError::NotBase64),
    }
}

} // verus!
