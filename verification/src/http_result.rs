//! A status code plus message, the form in which the store's errors are
//! reported to HTTP callers.

use vstd::prelude::*;
use crate::store_interface::{error_message, StoreError};

verus! {

/// An error as an HTTP layer wants it: a status code and a plain message.
#[derive(Clone, Debug)]
pub struct HttpError {
    pub code: u16,
    pub message: String,
}

impl HttpError {
    /// An error with the given status code and message.
    pub fn new(code: u16, message: &str) -> (r: HttpError)
        ensures
            r.code == code,
            r.message@ == message@,
    {
        HttpError { code, message: String::from_str(message) }
    }

    /// An internal server error (status 500) with the given message.
    pub fn server_error(message: &str) -> (r: HttpError)
        ensures
            r.code == 500,
            r.message@ == message@,
    {
        HttpError { code: 500, message: String::from_str(message) }
    }

    /// A store failure as an HTTP response: a client error (status 400)
    /// carrying the store's message.
    pub fn from_store_error(e: &StoreError) -> (r: HttpError)
        ensures
            r.code == 400,
            r.message@ == error_message(*e),
    {
        HttpError { code: 400, message: e.message() }
    }
}

} // verus!
