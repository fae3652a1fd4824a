//! Cursors: the signature before which the next page of history is asked for.

use vstd::prelude::*;

verus! {

/// The number of bytes of a signature.
pub const SIGNATURE_BYTES: usize = 64;

/// The signature of the oldest record seen so far, in the binary form in
/// which the ledger takes it to mean "only records older than this one".
#[derive(Clone, Copy, Debug, PartialEq, Eq)]
pub struct Cursor {
    pub signature: [u8; 64],
}

/// The 64 bytes that a signature in text form stands for, or `None` where
/// the text is not a signature: what `solana_sdk`'s parser makes of it.
pub uninterp spec fn signature_bytes(text: Seq<char>) -> Option<Seq<u8>>;

/// The error of `solana_sdk`'s signature parser. Nothing is read from it:
/// every such error means that the text is not a signature.
#[verifier::external_type_specification]
#[verifier::external_body]
pub struct ExParseSignatureError(solana_sdk::signature::ParseSignatureError);

/// Calls `solana_sdk::signature::Signature::from_str` on the text and hands
/// out the signature's 64 bytes. The parser decodes base58 and accepts
/// exactly the texts that decode to 64 bytes. Assumed here: only that the
/// outcome is a function of the text, which the parser's source shows, as it
/// reads nothing else.
#[verifier::external_body]
fn decode_signature(text: &str) -> (decoded: Result<
    [u8; 64],
    solana_sdk::signature::ParseSignatureError,
>)
    ensures
        match decoded {
            Ok(bytes) => signature_bytes(text@) == Some(bytes@),
            Err(_) => signature_bytes(text@) is None,
        },
{
    let signature: solana_sdk::signature::Signature = core::str::FromStr::from_str(text)?;
    Ok(signature.into())
}

impl Cursor {
    /// The cursor that a record's signature gives, or `None` where the text
    /// is not a signature.
    pub fn parse(text: &str) -> (parsed: Option<Cursor>)
        ensures
            match parsed {
                Some(cursor) => signature_bytes(text@) == Some(cursor.signature@),
                None => signature_bytes(text@) is None,
            },
    {
        match decode_signature(text) {
            Ok(signature) => Some(Cursor { signature }),
            Err(_) => None,
        }
    }
}

} // verus!
