//! The handler capability: given a request, produce a response. The route
//! table stores one handler per route; library users pick a handler type and
//! say in its `response_spec` which responses it may produce.
use crate::bytes::{ascii_of, copy_bytes, lit};
use crate::params::ParamEntry;
use crate::request::{Request, RequestModel};
use crate::response::{Response, ResponseModel};
use crate::status_code::StatusCode;
use vstd::prelude::*;

verus! {

/// A route handler. `response_spec` names the request/response pairs the
/// handler allows itself; `handle` must stay inside them.
pub trait Handler: Sized {
    /// Which responses this handler may produce for a request.
    spec fn response_spec(&self, req: RequestModel, resp: ResponseModel) -> bool;

    /// Produce the response to a request.
    fn handle(&self, request: &Request) -> (r: Response)
        ensures
            self.response_spec(request@, r@),
    ;
}

/// One quoted parameter entry, as the summary prints it.
pub open spec fn entry_fmt(e: ParamEntry) -> Seq<u8> {
    seq![34u8] + e.0 + ascii_of("\": \""@) + e.1 + seq![34u8]
}

/// The parameter entries, quoted and comma-separated, in stored (key) order.
pub open spec fn params_fmt(s: Seq<ParamEntry>) -> Seq<u8>
    decreases s.len(),
{
    if s.len() == 0 {
        Seq::empty()
    } else if s.len() == 1 {
        entry_fmt(s[0])
    } else {
        entry_fmt(s[0]) + ascii_of(", "@) + params_fmt(s.drop_first())
    }
}

/// The one-page textual account of a request: method, path, parameters and
/// body.
pub open spec fn summary_of(req: RequestModel) -> Seq<u8> {
    ascii_of("Method: "@) + req.method.spec_token() + ascii_of("\nUri: "@) + req.path + ascii_of(
        "\nParams: {"@,
    ) + params_fmt(req.params) + ascii_of("}\nBody: \""@) + req.body + seq![34u8]
}

/// The response a summarizing handler gives: OK, no content type, the summary
/// as body.
pub open spec fn summary_response_model(req: RequestModel) -> ResponseModel {
    ResponseModel {
        status: StatusCode::Okay.spec_status_line(),
        content_type: Seq::empty(),
        content: summary_of(req),
    }
}

/// The formatted entries from position `i` on.
fn params_fmt_from(m: &Request, i: usize) -> (r: Vec<u8>)
    requires
        i <= m.params@.len(),
    ensures
        r@ == params_fmt(m.params@.skip(i as int)),
    decreases m.params@.len() - i,
{
    proof {
        reveal_strlit("\": \"");
        reveal_strlit(", ");
    }
    if i == m.params.len() {
        proof {
            assert(m.params@.skip(i as int) =~= Seq::<ParamEntry>::empty());
        }
        Vec::new()
    } else {
        let mut r: Vec<u8> = Vec::new();
        r.push(34u8);
        let mut k = m.params.key_at(i);
        r.append(&mut k);
        let mut mid = lit("\": \"");
        r.append(&mut mid);
        let mut v = m.params.value_at(i);
        r.append(&mut v);
        r.push(34u8);
        proof {
            assert(m.params@.skip(i as int)[0] == m.params@[i as int]);
            assert(r@ =~= entry_fmt(m.params@.skip(i as int)[0]));
        }
        if i + 1 == m.params.len() {
            proof {
                assert(m.params@.skip(i as int).len() == 1);
            }
            r
        } else {
            let mut sep = lit(", ");
            r.append(&mut sep);
            let mut rest = params_fmt_from(m, i + 1);
            r.append(&mut rest);
            proof {
                let s = m.params@.skip(i as int);
                assert(s.drop_first() =~= m.params@.skip(i + 1));
                assert(r@ =~= entry_fmt(s[0]) + ascii_of(", "@) + params_fmt(s.drop_first()));
            }
            r
        }
    }
}

/// The textual account of a request, as bytes.
pub fn request_summary(request: &Request) -> (r: Vec<u8>)
    ensures
        r@ == summary_of(request@),
{
    proof {
        reveal_strlit("Method: ");
        reveal_strlit("\nUri: ");
        reveal_strlit("\nParams: {");
        reveal_strlit("}\nBody: \"");
    }
    let mut r = lit("Method: ");
    let mut tok = request.method.to_bytes();
    r.append(&mut tok);
    let mut part = lit("\nUri: ");
    r.append(&mut part);
    let mut path = copy_bytes(&request.path);
    r.append(&mut path);
    let mut part2 = lit("\nParams: {");
    r.append(&mut part2);
    let mut ps = params_fmt_from(request, 0);
    r.append(&mut ps);
    let mut part3 = lit("}\nBody: \"");
    r.append(&mut part3);
    let mut body = copy_bytes(&request.body);
    r.append(&mut body);
    r.push(34u8);
    proof {
        assert(request.params@.skip(0) =~= request.params@);
        assert(r@ =~= summary_of(request@));
    }
    r
}

/// A ready-made handler type: either a fixed response, handed out unchanged
/// on every request, or a textual summary of the request.
pub enum DemoHandler {
    Fixed(Response),
    Summary,
}

impl Handler for DemoHandler {
    open spec fn response_spec(&self, req: RequestModel, resp: ResponseModel) -> bool {
        match self {
            DemoHandler::Fixed(t) => resp == t@,
            DemoHandler::Summary => resp == summary_response_model(req),
        }
    }

    fn handle(&self, request: &Request) -> (r: Response) {
        match self {
            DemoHandler::Fixed(t) => t.duplicate(),
            DemoHandler::Summary => Response {
                status: StatusCode::Okay.status_line(),
                content_type: Vec::new(),
                content: request_summary(request),
            },
        }
    }
}

/// A fixed OK response with an empty content type and the given body.
pub fn fixed_ok_response(body: Vec<u8>) -> (r: Response)
    ensures
        r@ == (ResponseModel {
            status: StatusCode::Okay.spec_status_line(),
            content_type: Seq::empty(),
            content: body@,
        }),
{
    Response { status: StatusCode::Okay.status_line(), content_type: Vec::new(), content: body }
}

/// The stock front-page handler: OK with the fixed body `home-get`.
pub fn demo_handle_home_get(_request: &Request) -> (r: Response)
    ensures
        r@.status == StatusCode::Okay.spec_status_line(),
        r@.content_type == Seq::<u8>::empty(),
        r@.content == ascii_of("home-get"@),
{
    proof {
        reveal_strlit("home-get");
    }
    fixed_ok_response(lit("home-get"))
}

/// The stock test-page handler: OK with the fixed body `test-get`.
pub fn demo_handle_test_get(_request: &Request) -> (r: Response)
    ensures
        r@.status == StatusCode::Okay.spec_status_line(),
        r@.content_type == Seq::<u8>::empty(),
        r@.content == ascii_of("test-get"@),
{
    proof {
        reveal_strlit("test-get");
    }
    fixed_ok_response(lit("test-get"))
}

} // verus!
