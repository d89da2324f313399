//! Errors of the library.
use vstd::prelude::*;

verus! {

/// `std::io::Error`, carried through as an opaque value.
#[verifier::external_type_specification]
#[verifier::external_body]
pub struct ExIoError(std::io::Error);

/// `std::string::FromUtf8Error`, carried through as an opaque value.
#[verifier::external_type_specification]
#[verifier::external_body]
pub struct ExFromUtf8Error(std::string::FromUtf8Error);

/// Everything that can go wrong while preparing G-code for object cancellation.
#[derive(Debug)]
pub enum Error {
    /// The text does not have the shape that the slicer's format calls for.
    Parse(String),
    /// Reading or writing failed, or a seek went out of range.
    Io(std::io::Error),
    /// The text is not UTF-8.
    Utf8(std::string::FromUtf8Error),
    /// The G-code already holds `EXCLUDE_OBJECT_DEFINE` lines.
    AlreadySupported,
    /// An object was started while another one was still open (or never closed);
    /// the payload is the id of the open object.
    UnclosedObject(String),
}

} // verus!
