//! Text from bytes: `String::from_utf8`, stated over vstd's model of UTF-8.
use std::string::FromUtf8Error;
use vstd::prelude::*;
use vstd::utf8::{decode_utf8, valid_utf8};

verus! {

#[verifier::external_type_specification]
#[verifier::external_body]
pub struct ExFromUtf8Error(FromUtf8Error);

/// `String::from_utf8`. Trusted: it succeeds exactly on valid UTF-8 and then
/// holds the characters that the bytes encode, as its documentation says.
#[verifier::external_body]
pub fn string_from_utf8(bytes: Vec<u8>) -> (r: Result<String, FromUtf8Error>)
    ensures
        r is Ok <==> valid_utf8(bytes@),
        r matches Ok(s) ==> s@ == decode_utf8(bytes@),
{
    String::from_utf8(bytes)
}

/// The message of a `FromUtf8Error` (`ToString::to_string`). Trusted to
/// return; nothing is stated of the text.
#[verifier::external_body]
pub fn utf8_error_message(e: &FromUtf8Error) -> String {
    e.to_string()
}

} // verus!
verus! {

/// ASCII bytes are UTF-8.
pub proof fn lemma_ascii_valid_utf8(bytes: Seq<u8>)
    requires
        forall|i: int| 0 <= i < bytes.len() ==> bytes[i] < 128,
    ensures
        valid_utf8(bytes),
    decreases bytes.len(),
{
    if bytes.len() > 0 {
        let rest = vstd::utf8::pop_first_scalar(bytes);
        assert(rest =~= bytes.subrange(1, bytes.len() as int));
        lemma_ascii_valid_utf8(rest);
    }
}

} // verus!
