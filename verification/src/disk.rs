//! What a loader for files on disk has to work out around its reads and
//! writes: the text that the bytes of a file hold, and the errors to report.

use vstd::prelude::*;
use vstd::string::*;
use vstd::utf8::*;
use crate::error::Error;

verus! {

/// The error of `String::from_utf8` of the standard library. Nothing is read
/// from it.
#[verifier::external_type_specification]
#[verifier::external_body]
pub struct ExFromUtf8Error(std::string::FromUtf8Error);

/// `String::from_utf8` of the standard library: it gives the string whose
/// UTF-8 encoding the bytes are, and fails exactly if they are not valid
/// UTF-8.
pub assume_specification[ String::from_utf8 ](vec: Vec<u8>) -> (r: Result<
    String,
    std::string::FromUtf8Error,
>)
    ensures
        r is Ok <==> valid_utf8(vec@),
        r matches Ok(text) ==> encode_utf8(text@) == vec@,
;

/// The text of the message for a file that could not be opened.
pub open spec fn open_failed_text(file_name: Seq<char>) -> Seq<char> {
    "Could not open file: "@ + file_name
}

/// The text of the message for a file that could not be read.
pub open spec fn read_failed_text(file_name: Seq<char>) -> Seq<char> {
    "Could not read file: "@ + file_name
}

/// Whether `e` is an I/O error for the file at `file_name` with the message
/// `message`.
pub open spec fn is_io_error(e: Error, file_name: Seq<char>, message: Seq<char>) -> bool {
    &&& e matches Error::Io(Some(path), Some(text))
    &&& path@ == file_name
    &&& text@ == message
}

/// The I/O error for the file at `file_name` with the given message.
pub fn io_failed(file_name: &str, message: String) -> (e: Error)
    ensures
        is_io_error(e, file_name@, message@),
{
    Error::Io(Some(file_name.to_owned()), Some(message))
}

/// The error for a file that could not be opened.
pub fn open_failed(file_name: &str) -> (e: Error)
    ensures
        is_io_error(e, file_name@, open_failed_text(file_name@)),
{
    let mut message = "Could not open file: ".to_owned();
    message.append(file_name);
    io_failed(file_name, message)
}

/// The error for a file that could not be read to its end.
pub fn read_failed(file_name: &str) -> (e: Error)
    ensures
        is_io_error(e, file_name@, read_failed_text(file_name@)),
{
    let mut message = "Could not read file: ".to_owned();
    message.append(file_name);
    io_failed(file_name, message)
}

/// The text that the bytes read from the file at `file_name` hold. Bytes
/// that are not valid UTF-8 are an I/O error for that file.
pub fn text_of_bytes(file_name: &str, bytes: Vec<u8>) -> (r: Result<String, Error>)
    ensures
        valid_utf8(bytes@) ==> (r matches Ok(text) && text@ == decode_utf8(bytes@)),
        !valid_utf8(bytes@) ==> (r matches Err(e) && is_io_error(e, file_name@, "invalid utf-8"@)),
{
    match String::from_utf8(bytes) {
        Ok(text) => {
            proof {
                encode_utf8_decode_utf8(text@);
            }
            Ok(text)
        },
        Err(_) => Err(io_failed(file_name, "invalid utf-8".to_owned())),
    }
}

} // verus!
