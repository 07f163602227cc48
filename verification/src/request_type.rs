//! The closed vocabulary of request methods.
use crate::bytes::{ascii_of, bytes_eq, lit};
use vstd::prelude::*;

verus! {

/// The closed set of HTTP methods the engine can route on.
#[derive(Clone, Copy, PartialEq, Eq, Structural, Debug)]
pub enum RequestType {
    GET,
    POST,
    PUT,
    DELETE,
    HEAD,
    OPTIONS,
    CONNECT,
    PATCH,
}

/// Short alias, used throughout route tables.
pub type Rt = RequestType;

impl RequestType {
    /// The wire token of this method.
    pub open spec fn spec_token(self) -> Seq<u8> {
        match self {
            RequestType::GET => ascii_of("GET"@),
            RequestType::POST => ascii_of("POST"@),
            RequestType::PUT => ascii_of("PUT"@),
            RequestType::DELETE => ascii_of("DELETE"@),
            RequestType::HEAD => ascii_of("HEAD"@),
            RequestType::OPTIONS => ascii_of("OPTIONS"@),
            RequestType::CONNECT => ascii_of("CONNECT"@),
            RequestType::PATCH => ascii_of("PATCH"@),
        }
    }

    /// The method a wire token names, if any.
    pub open spec fn spec_from_token(t: Seq<u8>) -> Option<RequestType> {
        if t == ascii_of("GET"@) {
            Some(RequestType::GET)
        } else if t == ascii_of("POST"@) {
            Some(RequestType::POST)
        } else if t == ascii_of("PUT"@) {
            Some(RequestType::PUT)
        } else if t == ascii_of("DELETE"@) {
            Some(RequestType::DELETE)
        } else if t == ascii_of("HEAD"@) {
            Some(RequestType::HEAD)
        } else if t == ascii_of("OPTIONS"@) {
            Some(RequestType::OPTIONS)
        } else if t == ascii_of("CONNECT"@) {
            Some(RequestType::CONNECT)
        } else if t == ascii_of("PATCH"@) {
            Some(RequestType::PATCH)
        } else {
            None
        }
    }

    /// The wire token as bytes.
    pub fn to_bytes(self) -> (r: Vec<u8>)
        ensures
            r@ == self.spec_token(),
    {
        match self {
            RequestType::GET => {
                proof {
                    reveal_strlit("GET");
                }
                lit("GET")
            },
            RequestType::POST => {
                proof {
                    reveal_strlit("POST");
                }
                lit("POST")
            },
            RequestType::PUT => {
                proof {
                    reveal_strlit("PUT");
                }
                lit("PUT")
            },
            RequestType::DELETE => {
                proof {
                    reveal_strlit("DELETE");
                }
                lit("DELETE")
            },
            RequestType::HEAD => {
                proof {
                    reveal_strlit("HEAD");
                }
                lit("HEAD")
            },
            RequestType::OPTIONS => {
                proof {
                    reveal_strlit("OPTIONS");
                }
                lit("OPTIONS")
            },
            RequestType::CONNECT => {
                proof {
                    reveal_strlit("CONNECT");
                }
                lit("CONNECT")
            },
            RequestType::PATCH => {
                proof {
                    reveal_strlit("PATCH");
                }
                lit("PATCH")
            },
        }
    }

    /// The method named by a wire token.
    pub fn from_bytes(t: &Vec<u8>) -> (r: Option<RequestType>)
        ensures
            r == RequestType::spec_from_token(t@),
    {
        proof {
            reveal_strlit("GET");
            reveal_strlit("POST");
            reveal_strlit("PUT");
            reveal_strlit("DELETE");
            reveal_strlit("HEAD");
            reveal_strlit("OPTIONS");
            reveal_strlit("CONNECT");
            reveal_strlit("PATCH");
        }
        if bytes_eq(t, &lit("GET")) {
            Some(RequestType::GET)
        } else if bytes_eq(t, &lit("POST")) {
            Some(RequestType::POST)
        } else if bytes_eq(t, &lit("PUT")) {
            Some(RequestType::PUT)
        } else if bytes_eq(t, &lit("DELETE")) {
            Some(RequestType::DELETE)
        } else if bytes_eq(t, &lit("HEAD")) {
            Some(RequestType::HEAD)
        } else if bytes_eq(t, &lit("OPTIONS")) {
            Some(RequestType::OPTIONS)
        } else if bytes_eq(t, &lit("CONNECT")) {
            Some(RequestType::CONNECT)
        } else if bytes_eq(t, &lit("PATCH")) {
            Some(RequestType::PATCH)
        } else {
            None
        }
    }
}

} // verus!
