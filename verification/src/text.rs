//! Declarations for the std text and I/O types that the engine's error
//! values carry, and for UTF-8 decoding of raw record bytes.

use vstd::prelude::*;
use vstd::utf8::{decode_utf8, valid_utf8};

verus! {

/// Declares `std::io::Error`, carried opaquely by the error values that the
/// application's file layer feeds back through the store's result types.
#[verifier::external_type_specification]
#[verifier::external_body]
pub struct ExIoError(std::io::Error);

/// Declares `std::string::FromUtf8Error`, carried opaquely when a scanned
/// record is not valid text.
#[verifier::external_type_specification]
#[verifier::external_body]
pub struct ExFromUtf8Error(std::string::FromUtf8Error);

/// Relies on `String::from_utf8`: succeeds exactly on valid UTF-8 input and
/// returns the decoded characters of that input.
pub assume_specification[ String::from_utf8 ](vec: Vec<u8>) -> (r: Result<
    String,
    std::string::FromUtf8Error,
>)
    ensures
        r is Ok <==> valid_utf8(vec@),
        r matches Ok(s) ==> s@ == decode_utf8(vec@),
;

} // verus!
