//! The ways in which decoding and seeking fail.

use vstd::prelude::*;

use crate::layout::Failure;

verus! {

/// The error type of `std::io`. Its values are opaque here: they are carried
/// from the failed read to the caller and never inspected.
#[verifier::external_type_specification]
#[verifier::external_body]
pub struct ExIoError(std::io::Error);

/// Why an operation on a df2 stream failed.
#[derive(Debug)]
pub enum Error {
    /// The segments of the shot `shot_number` do not add up to the length
    /// that the `offset` of its header declares.
    InvalidOffset { shot_number: u16, offset: u16 },
    /// There is no way to reach the shot with this number.
    InvalidShotNumber(u16),
    /// An I/O failure. From a decoder: the byte source ended inside a field.
    Io(std::io::Error),
}

impl View for Error {
    type V = Failure;

    open spec fn view(&self) -> Failure {
        match *self {
            Error::InvalidOffset { shot_number, offset } => Failure::InvalidOffset {
                shot_number,
                offset,
            },
            Error::InvalidShotNumber(number) => Failure::InvalidShotNumber(number),
            Error::Io(_) => Failure::Io,
        }
    }
}

impl From<std::io::Error> for Error {
    fn from(err: std::io::Error) -> (e: Error) {
        Error::Io(err)
    }
}

impl vstd::std_specs::convert::FromSpecImpl<std::io::Error> for Error {
    open spec fn obeys_from_spec() -> bool {
        true
    }

    open spec fn from_spec(err: std::io::Error) -> Error {
        Error::Io(err)
    }
}

} // verus!
