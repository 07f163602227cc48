//! The per-connection pipeline, up to but not including any socket or file
//! work: deciding when a head is complete and how much body to read, then
//! parsing, routing and serializing. The caller performs the reads, the file
//! lookup and the writes, and feeds the results back in.
use crate::bytes::{ascii_of, bytes_eq, has_head_boundary, has_head_boundary_exec, lit, lower_seq,
    lower_vec, parse_dec, parse_dec_exec, split1, split1_exec, starts_with, starts_with_exec,
    subvec, tokens, trim_ws, trim_ws_exec};
use crate::handler::Handler;
use crate::request::{binding_index, routed_model, validation_of, Request, RouteOutcome};
use crate::routes::key_index;
use crate::response::Response;
use crate::routes::RouteTable;
use crate::wire::{render_response, rendered_response};
use vstd::prelude::*;

verus! {

/// True once the accumulated bytes hold a complete head: the blank-line
/// boundary has been seen. Reading stops here.
pub fn head_complete(buf: &Vec<u8>) -> (r: bool)
    ensures
        r == has_head_boundary(buf@),
{
    has_head_boundary_exec(buf)
}

/// A line with its trailing carriage return removed, as line-feed splitting
/// leaves one.
pub open spec fn strip_cr(l: Seq<u8>) -> Seq<u8> {
    if l.len() > 0 && l[l.len() - 1] == 13 {
        l.drop_last()
    } else {
        l
    }
}

/// True of a line that names the content length, whatever its letter case.
pub open spec fn is_cl_line(l: Seq<u8>) -> bool {
    starts_with(lower_seq(l), ascii_of("content-length:"@))
}

/// The length value a content-length line carries: the text between the first
/// colon and the next one or the line's end, trimmed and read as a decimal;
/// nothing when that text is not a decimal or does not fit in `usize`.
pub open spec fn cl_value_of(l: Seq<u8>) -> Option<int> {
    let parts = split1(l, 58);
    if parts.len() >= 2 {
        match parse_dec(trim_ws(parts[1])) {
            Some(v) => if v <= usize::MAX {
                Some(v)
            } else {
                None
            },
            None => None,
        }
    } else {
        None
    }
}

/// The content length announced by the head's lines from position `i` on:
/// the value of the first line that names one and carries a readable value;
/// zero when no line does.
pub open spec fn cl_scan(ls: Seq<Seq<u8>>, i: int) -> int
    recommends
        0 <= i <= ls.len(),
    decreases ls.len() - i when 0 <= i <= ls.len()
{
    if i >= ls.len() {
        0
    } else {
        let l = strip_cr(ls[i]);
        if is_cl_line(l) && cl_value_of(l) is Some {
            cl_value_of(l)->Some_0
        } else {
            cl_scan(ls, i + 1)
        }
    }
}

/// The content length announced in a head; zero when none is announced.
pub open spec fn content_length_spec(head: Seq<u8>) -> int {
    cl_scan(split1(head, 10), 0)
}

/// How many body bytes the head says to read after it.
pub fn content_length_of_head(head: &Vec<u8>) -> (r: usize)
    ensures
        r as int == content_length_spec(head@),
{
    proof {
        reveal_strlit("content-length:");
    }
    let lines = split1_exec(head, 10);
    let ghost ls = split1(head@, 10);
    let mut i: usize = 0;
    while i < lines.len()
        invariant
            lines.deep_view() == ls,
            ls == split1(head@, 10),
            i <= lines@.len(),
            lines@.len() == ls.len(),
            cl_scan(ls, 0) == cl_scan(ls, i as int),
        decreases lines@.len() - i,
    {
        proof {
            reveal_strlit("content-length:");
            assert(lines@[i as int]@ == ls[i as int]);
        }
        let mut l = subvec(&lines[i], 0, lines[i].len());
        proof {
            assert(l@ =~= ls[i as int]);
        }
        if l.len() > 0 && l[l.len() - 1] == 13 {
            let _ = l.pop();
        }
        proof {
            assert(l@ == strip_cr(ls[i as int]));
        }
        let low = lower_vec(&l);
        if starts_with_exec(&low, &lit("content-length:")) {
            let parts = split1_exec(&l, 58);
            proof {
                assert(parts@.len() == split1(l@, 58).len());
            }
            if parts.len() >= 2 {
                proof {
                    assert(parts@[1]@ == split1(l@, 58)[1]);
                }
                let t = trim_ws_exec(&parts[1]);
                match parse_dec_exec(&t) {
                    Some(n) => {
                        proof {
                            assert(cl_value_of(l@) == Some(n as int));
                            assert(cl_scan(ls, i as int) == n as int);
                        }
                        return n;
                    },
                    None => {},
                }
            }
        }
        i += 1;
    }
    0
}

/// True when, with no content length announced, the body must be read to the
/// end of the stream: the head's first token is not GET. A headless or empty
/// stream reads as not-GET.
pub open spec fn body_to_eof_spec(head: Seq<u8>) -> bool {
    let l0 = split1(head, 10)[0];
    let ts = tokens(l0);
    ts.len() == 0 || ts[0] != ascii_of("GET"@)
}

/// Whether to read the body to end of stream when no content length is given.
pub fn expects_body_to_eof(head: &Vec<u8>) -> (r: bool)
    ensures
        r == body_to_eof_spec(head@),
{
    proof {
        reveal_strlit("GET");
    }
    let lines = split1_exec(head, 10);
    proof {
        assert(lines@[0]@ == split1(head@, 10)[0]);
        crate::bytes::lemma_skip_ws_bounds(lines@[0]@, 0);
    }
    let l0 = &lines[0];
    let j = crate::bytes::skip_ws_exec(l0, 0);
    if j == l0.len() {
        proof {
            assert(tokens(l0@) =~= Seq::<Seq<u8>>::empty());
        }
        return true;
    }
    proof {
        crate::bytes::lemma_skip_tok_bounds(l0@, j as int);
    }
    let k = crate::bytes::skip_tok_exec(l0, j);
    let t = subvec(l0, j, k);
    proof {
        assert(tokens(l0@)[0] == t@);
    }
    !bytes_eq(&t, &lit("GET"))
}

/// What the engine decided for one connection's raw bytes.
pub enum ConnStep {
    /// The bytes to write back, ready for the wire.
    Reply(Vec<u8>),
    /// A GET request no route matched: look its path up under the file bases
    /// and hand the outcome to `conn_file_reply`.
    FileLookup(Request),
}

/// Run one connection's in-memory pipeline over the raw bytes already read:
/// parse, short-circuit a validation failure to its error reply, route, and
/// serialize what a handler returned or the default when nothing matched.
/// Only a GET request that no route matched comes back as a file lookup for
/// the caller to perform.
pub fn handle_conn<H: Handler>(raw: &Vec<u8>, routes: &RouteTable<H>, auto_close: bool) -> (r:
    ConnStep)
    ensures
        ({
            let keys = routes.spec_keys();
            match validation_of(raw@) {
                Some(sc) => r matches ConnStep::Reply(out) && out@ == rendered_response(
                    crate::request::error_response_model(sc),
                    auto_close,
                ),
                None => {
                    let req = crate::request::request_model_of(raw@, keys);
                    let ei = key_index(keys, (req.method, req.path));
                    let bi = binding_index(keys, req.method, req.path);
                    if ei < keys.len() {
                        r matches ConnStep::Reply(out) && (exists|resp: crate::response::ResponseModel|
                            #[trigger] routes.entries@[ei].1.handler.response_spec(req, resp)
                                && out@ == rendered_response(resp, auto_close))
                    } else if bi < keys.len() {
                        r matches ConnStep::Reply(out) && (exists|resp: crate::response::ResponseModel|
                            #[trigger] routes.entries@[bi].1.handler.response_spec(
                                routed_model(req, keys[bi].1),
                                resp,
                            ) && out@ == rendered_response(resp, auto_close))
                    } else if req.method == crate::request_type::RequestType::GET {
                        r matches ConnStep::FileLookup(q) && q@ == req
                    } else {
                        r matches ConnStep::Reply(out) && out@ == rendered_response(
                            crate::response::default_response_model(),
                            auto_close,
                        )
                    }
                },
            }
        }),
{
    let (mut req, early) = Request::parse_raw(raw, routes);
    match early {
        Some(resp) => ConnStep::Reply(render_response(&resp, auto_close)),
        None => {
            match req.route(routes) {
                RouteOutcome::Handled(resp) => ConnStep::Reply(render_response(&resp, auto_close)),
                RouteOutcome::TryFiles => ConnStep::FileLookup(req),
                RouteOutcome::NoMatch => ConnStep::Reply(
                    render_response(&Response::new(), auto_close),
                ),
            }
        },
    }
}

/// Finish a connection that went to the file sources: serialize the file's
/// bytes, or the default reply when no base yielded a file.
pub fn conn_file_reply(found: Option<(Vec<u8>, Vec<u8>)>, auto_close: bool) -> (r: Vec<u8>)
    ensures
        match found {
            Some(f) => r@ == rendered_response(
                crate::files::file_response_model(f.0@, f.1@),
                auto_close,
            ),
            None => r@ == rendered_response(
                crate::response::default_response_model(),
                auto_close,
            ),
        },
{
    let resp = crate::files::handle_file_request(found);
    render_response(&resp, auto_close)
}

} // verus!
