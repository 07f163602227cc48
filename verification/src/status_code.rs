//! The closed vocabulary of response status lines.
use crate::bytes::{ascii_of, lit};
use vstd::prelude::*;

verus! {

/// The closed set of statuses a response can carry.
#[derive(Clone, Copy, PartialEq, Eq, Structural, Debug)]
pub enum StatusCode {
    Okay,
    BadRequest,
    Unauthorized,
    Forbidden,
    NotFound,
    MethodNotAllowed,
    UriTooLong,
    InternalServerError,
    HttpVersionNotSupported,
}

impl StatusCode {
    /// The numeric code of this status.
    pub open spec fn spec_code(self) -> int {
        match self {
            StatusCode::Okay => 200,
            StatusCode::BadRequest => 400,
            StatusCode::Unauthorized => 401,
            StatusCode::Forbidden => 403,
            StatusCode::NotFound => 404,
            StatusCode::MethodNotAllowed => 405,
            StatusCode::UriTooLong => 414,
            StatusCode::InternalServerError => 500,
            StatusCode::HttpVersionNotSupported => 505,
        }
    }

    /// The reason phrase of this status.
    pub open spec fn spec_message(self) -> Seq<u8> {
        match self {
            StatusCode::Okay => ascii_of("OK"@),
            StatusCode::BadRequest => ascii_of("Bad Request"@),
            StatusCode::Unauthorized => ascii_of("Unauthorized"@),
            StatusCode::Forbidden => ascii_of("Forbidden"@),
            StatusCode::NotFound => ascii_of("Not Found"@),
            StatusCode::MethodNotAllowed => ascii_of("Method Not Allowed"@),
            StatusCode::UriTooLong => ascii_of("URI Too Long"@),
            StatusCode::InternalServerError => ascii_of("Internal Server Error"@),
            StatusCode::HttpVersionNotSupported => ascii_of("HTTP Version Not Supported"@),
        }
    }

    /// The full status line text, numeric code then reason phrase.
    pub open spec fn spec_status_line(self) -> Seq<u8> {
        match self {
            StatusCode::Okay => ascii_of("200 OK"@),
            StatusCode::BadRequest => ascii_of("400 Bad Request"@),
            StatusCode::Unauthorized => ascii_of("401 Unauthorized"@),
            StatusCode::Forbidden => ascii_of("403 Forbidden"@),
            StatusCode::NotFound => ascii_of("404 Not Found"@),
            StatusCode::MethodNotAllowed => ascii_of("405 Method Not Allowed"@),
            StatusCode::UriTooLong => ascii_of("414 URI Too Long"@),
            StatusCode::InternalServerError => ascii_of("500 Internal Server Error"@),
            StatusCode::HttpVersionNotSupported => ascii_of("505 HTTP Version Not Supported"@),
        }
    }

    /// The numeric code.
    pub fn code(&self) -> (r: u16)
        ensures
            r as int == self.spec_code(),
    {
        match self {
            StatusCode::Okay => 200,
            StatusCode::BadRequest => 400,
            StatusCode::Unauthorized => 401,
            StatusCode::Forbidden => 403,
            StatusCode::NotFound => 404,
            StatusCode::MethodNotAllowed => 405,
            StatusCode::UriTooLong => 414,
            StatusCode::InternalServerError => 500,
            StatusCode::HttpVersionNotSupported => 505,
        }
    }

    /// The reason phrase as bytes.
    pub fn message(&self) -> (r: Vec<u8>)
        ensures
            r@ == self.spec_message(),
    {
        match self {
            StatusCode::Okay => {
                proof {
                    reveal_strlit("OK");
                }
                lit("OK")
            },
            StatusCode::BadRequest => {
                proof {
                    reveal_strlit("Bad Request");
                }
                lit("Bad Request")
            },
            StatusCode::Unauthorized => {
                proof {
                    reveal_strlit("Unauthorized");
                }
                lit("Unauthorized")
            },
            StatusCode::Forbidden => {
                proof {
                    reveal_strlit("Forbidden");
                }
                lit("Forbidden")
            },
            StatusCode::NotFound => {
                proof {
                    reveal_strlit("Not Found");
                }
                lit("Not Found")
            },
            StatusCode::MethodNotAllowed => {
                proof {
                    reveal_strlit("Method Not Allowed");
                }
                lit("Method Not Allowed")
            },
            StatusCode::UriTooLong => {
                proof {
                    reveal_strlit("URI Too Long");
                }
                lit("URI Too Long")
            },
            StatusCode::InternalServerError => {
                proof {
                    reveal_strlit("Internal Server Error");
                }
                lit("Internal Server Error")
            },
            StatusCode::HttpVersionNotSupported => {
                proof {
                    reveal_strlit("HTTP Version Not Supported");
                }
                lit("HTTP Version Not Supported")
            },
        }
    }

    /// The full status line text as bytes.
    pub fn status_line(&self) -> (r: Vec<u8>)
        ensures
            r@ == self.spec_status_line(),
    {
        match self {
            StatusCode::Okay => {
                proof {
                    reveal_strlit("200 OK");
                }
                lit("200 OK")
            },
            StatusCode::BadRequest => {
                proof {
                    reveal_strlit("400 Bad Request");
                }
                lit("400 Bad Request")
            },
            StatusCode::Unauthorized => {
                proof {
                    reveal_strlit("401 Unauthorized");
                }
                lit("401 Unauthorized")
            },
            StatusCode::Forbidden => {
                proof {
                    reveal_strlit("403 Forbidden");
                }
                lit("403 Forbidden")
            },
            StatusCode::NotFound => {
                proof {
                    reveal_strlit("404 Not Found");
                }
                lit("404 Not Found")
            },
            StatusCode::MethodNotAllowed => {
                proof {
                    reveal_strlit("405 Method Not Allowed");
                }
                lit("405 Method Not Allowed")
            },
            StatusCode::UriTooLong => {
                proof {
                    reveal_strlit("414 URI Too Long");
                }
                lit("414 URI Too Long")
            },
            StatusCode::InternalServerError => {
                proof {
                    reveal_strlit("500 Internal Server Error");
                }
                lit("500 Internal Server Error")
            },
            StatusCode::HttpVersionNotSupported => {
                proof {
                    reveal_strlit("505 HTTP Version Not Supported");
                }
                lit("505 HTTP Version Not Supported")
            },
        }
    }
}

} // verus!
