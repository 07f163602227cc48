//! The response value a handler or the static-file path produces.
use crate::bytes::{ascii_of, copy_bytes, lit};
use crate::status_code::StatusCode;
use vstd::prelude::*;

verus! {

/// The mathematical shape of a response: three byte strings.
pub struct ResponseModel {
    pub status: Seq<u8>,
    pub content_type: Seq<u8>,
    pub content: Seq<u8>,
}

/// A response: status line text, content type, and body bytes.
pub struct Response {
    pub status: Vec<u8>,
    pub content_type: Vec<u8>,
    pub content: Vec<u8>,
}

impl View for Response {
    type V = ResponseModel;

    open spec fn view(&self) -> ResponseModel {
        ResponseModel {
            status: self.status@,
            content_type: self.content_type@,
            content: self.content@,
        }
    }
}

/// The single fallback response: 404 with a fixed plain-text body.
pub open spec fn default_response_model() -> ResponseModel {
    ResponseModel {
        status: StatusCode::NotFound.spec_status_line(),
        content_type: ascii_of("text/plain"@),
        content: ascii_of("404 Not Found"@),
    }
}

impl Response {
    /// The fallback 404 response.
    pub fn new() -> (r: Response)
        ensures
            r@ == default_response_model(),
    {
        proof {
            reveal_strlit("text/plain");
            reveal_strlit("404 Not Found");
        }
        Response {
            status: StatusCode::NotFound.status_line(),
            content_type: lit("text/plain"),
            content: lit("404 Not Found"),
        }
    }

    /// A field-for-field copy.
    pub fn duplicate(&self) -> (r: Response)
        ensures
            r@ == self@,
    {
        Response {
            status: copy_bytes(&self.status),
            content_type: copy_bytes(&self.content_type),
            content: copy_bytes(&self.content),
        }
    }
}

impl Default for Response {
    /// The fallback 404 response.
    fn default() -> (r: Response)
        ensures
            r@ == default_response_model(),
    {
        Response::new()
    }
}

} // verus!
