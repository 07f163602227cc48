//! The parsed request, and the parser and router that produce and consume it.
use crate::bytes::{all_ws, all_ws_exec, ascii_of, bytes_eq, copy_bytes, find1, find1_exec,
    join2, join2_from, lemma_find1_bounds, lit, split1, split1_exec, split2, split2_exec, subvec,
    tokens};
use crate::handler::Handler;
use crate::response::{Response, ResponseModel};
use crate::routes::{key_index, RouteKey, RouteTable};
use crate::status_code::StatusCode;
use crate::params::{map_insert, map_wf, ParamEntry, ParamMap};
use crate::request_type::RequestType;
use vstd::prelude::*;

verus! {

/// The mathematical shape of a request.
pub struct RequestModel {
    pub method: RequestType,
    pub path: Seq<u8>,
    pub version: Seq<u8>,
    pub headers: Seq<(Seq<u8>, Seq<u8>)>,
    pub body: Seq<u8>,
    pub params: Seq<ParamEntry>,
}

/// One parsed HTTP request.
pub struct Request {
    pub method: RequestType,
    pub path: Vec<u8>,
    pub version: Vec<u8>,
    pub headers: Vec<(Vec<u8>, Vec<u8>)>,
    pub body: Vec<u8>,
    pub params: ParamMap,
}

impl View for Request {
    type V = RequestModel;

    open spec fn view(&self) -> RequestModel {
        RequestModel {
            method: self.method,
            path: self.path@,
            version: self.version@,
            headers: Seq::new(
                self.headers@.len(),
                |i: int| (self.headers@[i].0@, self.headers@[i].1@),
            ),
            body: self.body@,
            params: self.params@,
        }
    }
}

/// The placeholder-free shape of a fresh request: everything empty, method GET.
pub open spec fn default_request_model() -> RequestModel {
    RequestModel {
        method: RequestType::GET,
        path: Seq::empty(),
        version: Seq::empty(),
        headers: Seq::empty(),
        body: Seq::empty(),
        params: Seq::empty(),
    }
}

impl Request {
    /// Sorted parameter storage, as the map module demands.
    pub open spec fn wf(&self) -> bool {
        map_wf(self.params@)
    }

    /// A fresh request with every field empty.
    pub fn new_default() -> (r: Request)
        ensures
            r@ == default_request_model(),
            r.wf(),
    {
        let r = Request {
            method: RequestType::GET,
            path: Vec::new(),
            version: Vec::new(),
            headers: Vec::new(),
            body: Vec::new(),
            params: ParamMap::new(),
        };
        proof {
            assert(r@.headers =~= Seq::<(Seq<u8>, Seq<u8>)>::empty());
        }
        r
    }
}

/// True of a pattern segment that binds: it opens with a left brace and
/// closes with a right brace.
pub open spec fn placeholder(seg: Seq<u8>) -> bool {
    seg.len() > 0 && seg[0] == 123 && seg[seg.len() - 1] == 125
}

/// Executable placeholder test.
pub fn placeholder_exec(seg: &Vec<u8>) -> (r: bool)
    ensures
        r == placeholder(seg@),
{
    seg.len() > 0 && seg[0] == 123 && seg[seg.len() - 1] == 125
}

/// True for a brace byte, either kind.
pub open spec fn is_brace(b: u8) -> bool {
    b == 123 || b == 125
}

/// Index of the first byte at or after `i` that is not a brace.
pub open spec fn skip_braces(s: Seq<u8>, i: int) -> int
    recommends
        0 <= i <= s.len(),
    decreases s.len() - i when 0 <= i <= s.len()
{
    if i >= s.len() {
        s.len() as int
    } else if is_brace(s[i]) {
        skip_braces(s, i + 1)
    } else {
        i
    }
}

pub proof fn lemma_skip_braces_bounds(s: Seq<u8>, i: int)
    requires
        0 <= i <= s.len(),
    ensures
        i <= skip_braces(s, i) <= s.len(),
    decreases s.len() - i,
{
    if i < s.len() && is_brace(s[i]) {
        lemma_skip_braces_bounds(s, i + 1);
    }
}

/// Index one past the last byte of `s` that is not a brace; zero when `s` is
/// all braces.
pub open spec fn end_braces(s: Seq<u8>) -> int
    decreases s.len(),
{
    if s.len() == 0 {
        0
    } else if is_brace(s.last()) {
        end_braces(s.drop_last())
    } else {
        s.len() as int
    }
}

pub proof fn lemma_end_braces(s: Seq<u8>)
    ensures
        0 <= end_braces(s) <= s.len(),
    decreases s.len(),
{
    if s.len() > 0 && is_brace(s.last()) {
        lemma_end_braces(s.drop_last());
    }
}

/// The name inside a placeholder segment: the segment with all leading and
/// trailing braces removed.
pub open spec fn param_name_spec(seg: Seq<u8>) -> Seq<u8> {
    let a = skip_braces(seg, 0);
    let e = end_braces(seg);
    if a <= e {
        seg.subrange(a, e)
    } else {
        Seq::empty()
    }
}

/// Executable brace stripping.
pub fn param_name(seg: &Vec<u8>) -> (r: Vec<u8>)
    ensures
        r@ == param_name_spec(seg@),
{
    proof {
        lemma_skip_braces_bounds(seg@, 0);
        lemma_end_braces(seg@);
    }
    let mut a: usize = 0;
    while a < seg.len() && (seg[a] == 123 || seg[a] == 125)
        invariant
            a <= seg.len(),
            skip_braces(seg@, 0) == skip_braces(seg@, a as int),
        decreases seg.len() - a,
    {
        a += 1;
    }
    proof {
        assert(skip_braces(seg@, 0) == a as int);
        assert(seg@.subrange(0, seg@.len() as int) =~= seg@);
    }
    let mut e: usize = seg.len();
    while e > 0 && (seg[e - 1] == 123 || seg[e - 1] == 125)
        invariant
            e <= seg.len(),
            end_braces(seg@) == end_braces(seg@.subrange(0, e as int)),
        decreases e,
    {
        proof {
            assert(seg@.subrange(0, e as int).drop_last() =~= seg@.subrange(0, e - 1 as int));
        }
        e -= 1;
    }
    proof {
        if e > 0 {
            assert(seg@.subrange(0, e as int).last() == seg@[e - 1]);
        }
        assert(end_braces(seg@.subrange(0, e as int)) == e as int);
    }
    if a > e {
        return Vec::new();
    }
    subvec(seg, a, e)
}

/// True when the pattern's segments line up with the path's: same count, and
/// every segment either binds or is byte-equal to the path's segment.
pub open spec fn pattern_matches(rp: Seq<Seq<u8>>, pp: Seq<Seq<u8>>) -> bool {
    rp.len() == pp.len() && (forall|i: int|
        0 <= i < rp.len() ==> placeholder(#[trigger] rp[i]) || rp[i] == pp[i])
}

/// The bindings a matching pattern makes, folded left to right: each
/// placeholder name is bound to the path segment in its position, a repeated
/// name keeping the last binding.
pub open spec fn bind_fold(rp: Seq<Seq<u8>>, pp: Seq<Seq<u8>>, i: int, m: Seq<ParamEntry>) -> Seq<
    ParamEntry,
>
    recommends
        rp.len() == pp.len(),
        0 <= i <= rp.len(),
    decreases rp.len() - i when 0 <= i <= rp.len()
{
    if i >= rp.len() {
        m
    } else if placeholder(rp[i]) && i < pp.len() {
        bind_fold(rp, pp, i + 1, map_insert(m, param_name_spec(rp[i]), pp[i]))
    } else {
        bind_fold(rp, pp, i + 1, m)
    }
}

/// The parameter bindings of `pat` against `path`: the folded bindings when
/// the pattern matches, and nothing at all when it does not.
pub open spec fn extract_params_spec(pat: Seq<u8>, path: Seq<u8>) -> Seq<ParamEntry> {
    let rp = split1(pat, 47);
    let pp = split1(path, 47);
    if pattern_matches(rp, pp) {
        bind_fold(rp, pp, 0, Seq::empty())
    } else {
        Seq::empty()
    }
}

/// Folding from sorted input stays sorted.
pub proof fn lemma_bind_fold_wf(rp: Seq<Seq<u8>>, pp: Seq<Seq<u8>>, i: int, m: Seq<ParamEntry>)
    requires
        0 <= i <= rp.len(),
        map_wf(m),
    ensures
        map_wf(bind_fold(rp, pp, i, m)),
    decreases rp.len() - i,
{
    if i < rp.len() {
        if placeholder(rp[i]) && i < pp.len() {
            crate::params::lemma_map_insert_wf(m, param_name_spec(rp[i]), pp[i]);
            lemma_bind_fold_wf(rp, pp, i + 1, map_insert(m, param_name_spec(rp[i]), pp[i]));
        } else {
            lemma_bind_fold_wf(rp, pp, i + 1, m);
        }
    }
}

impl Request {
    /// The parameter bindings of a route pattern against a request path:
    /// segment counts must agree and every literal segment must be byte-equal;
    /// `{name}` segments bind the path segment in their position. A pattern
    /// that does not match binds nothing.
    pub fn extract_params(route: &Vec<u8>, path: &Vec<u8>) -> (r: ParamMap)
        ensures
            r@ == extract_params_spec(route@, path@),
            r.wf(),
    {
        let rps = split1_exec(route, 47);
        let pps = split1_exec(path, 47);
        let ghost rp = split1(route@, 47);
        let ghost pp = split1(path@, 47);
        proof {
            assert(rps.deep_view() == rp);
            assert(pps.deep_view() == pp);
        }
        if rps.len() != pps.len() {
            proof {
                assert(rps@.len() == rp.len() && pps@.len() == pp.len());
            }
            return ParamMap::new();
        }
        let mut m = ParamMap::new();
        let mut i: usize = 0;
        while i < rps.len()
            invariant
                i <= rps@.len(),
                rp == split1(route@, 47),
                pp == split1(path@, 47),
                rps.deep_view() == rp,
                pps.deep_view() == pp,
                rp.len() == rps@.len(),
                pp.len() == pps@.len(),
                rp.len() == pp.len(),
                m.wf(),
                forall|j: int| 0 <= j < i ==> placeholder(#[trigger] rp[j]) || rp[j] == pp[j],
                bind_fold(rp, pp, i as int, m@) == bind_fold(rp, pp, 0, Seq::empty()),
            decreases rps@.len() - i,
        {
            proof {
                assert(rps@[i as int]@ == rp[i as int]);
                assert(pps@[i as int]@ == pp[i as int]);
            }
            if placeholder_exec(&rps[i]) {
                let name = param_name(&rps[i]);
                let value = copy_bytes(&pps[i]);
                m.insert(name, value);
            } else {
                if !bytes_eq(&rps[i], &pps[i]) {
                    proof {
                        assert(!placeholder(rp[i as int]) && rp[i as int] != pp[i as int]);
                        assert(!pattern_matches(rp, pp));
                    }
                    return ParamMap::new();
                }
            }
            i += 1;
        }
        proof {
            assert(pattern_matches(rp, pp));
            assert(extract_params_spec(route@, path@) == bind_fold(rp, pp, 0, Seq::empty()));
        }
        m
    }
}

/// The longest path token the engine accepts, in bytes.
pub const MAX_URI: usize = 2000;

/// True of the four method tokens validation lets through.
pub open spec fn allowed_method_token(t: Seq<u8>) -> bool {
    ||| t == ascii_of("GET"@)
    ||| t == ascii_of("POST"@)
    ||| t == ascii_of("PUT"@)
    ||| t == ascii_of("DELETE"@)
}

/// The first validation failure, in checking order, that the raw bytes run
/// into, or nothing when a request can be built from them.
pub open spec fn validation_of(raw: Seq<u8>) -> Option<StatusCode> {
    let ts = tokens(raw);
    if ts.len() < 3 {
        Some(StatusCode::BadRequest)
    } else if !allowed_method_token(ts[0]) {
        Some(StatusCode::MethodNotAllowed)
    } else if ts[2] != ascii_of("HTTP/1.1"@) {
        Some(StatusCode::HttpVersionNotSupported)
    } else if ts[1].len() > MAX_URI {
        Some(StatusCode::UriTooLong)
    } else {
        None
    }
}

/// The shape of an error reply from validation: the status line alone, no
/// content type, no body.
pub open spec fn error_response_model(sc: StatusCode) -> ResponseModel {
    ResponseModel { status: sc.spec_status_line(), content_type: Seq::empty(), content: Seq::empty() }
}

/// An error reply from validation.
pub fn error_response(sc: StatusCode) -> (r: Response)
    ensures
        r@ == error_response_model(sc),
{
    Response { status: sc.status_line(), content_type: Vec::new(), content: Vec::new() }
}

/// The lines of the raw bytes, split at each carriage-return line-feed pair.
pub open spec fn req_lines(raw: Seq<u8>) -> Seq<Seq<u8>> {
    split2(raw, 13, 10)
}

/// Index of the first line at or after `i` that is blank once trimmed; the
/// number of lines when there is none.
pub open spec fn first_blank(ls: Seq<Seq<u8>>, i: int) -> int
    recommends
        0 <= i <= ls.len(),
    decreases ls.len() - i when 0 <= i <= ls.len()
{
    if i >= ls.len() {
        ls.len() as int
    } else if all_ws(ls[i]) {
        i
    } else {
        first_blank(ls, i + 1)
    }
}

pub proof fn lemma_first_blank(ls: Seq<Seq<u8>>, i: int)
    requires
        0 <= i <= ls.len(),
    ensures
        i <= first_blank(ls, i) <= ls.len(),
        first_blank(ls, i) < ls.len() ==> all_ws(ls[first_blank(ls, i)]),
        forall|k: int| i <= k < first_blank(ls, i) ==> !all_ws(ls[k]),
    decreases ls.len() - i,
{
    if i < ls.len() && !all_ws(ls[i]) {
        lemma_first_blank(ls, i + 1);
    }
}

/// The line the head ends on: the first blank line, or line zero when no line
/// is blank.
pub open spec fn cut_of(ls: Seq<Seq<u8>>) -> int {
    if first_blank(ls, 0) < ls.len() {
        first_blank(ls, 0)
    } else {
        0
    }
}

/// The header a line carries: the line must split at exactly one
/// colon-and-space into a name and a value.
pub open spec fn header_of_line(l: Seq<u8>) -> Option<(Seq<u8>, Seq<u8>)> {
    let parts = split2(l, 58, 32);
    if parts.len() == 2 {
        Some((parts[0], parts[1]))
    } else {
        None
    }
}

/// The headers of the given lines, in arrival order, malformed lines dropped.
pub open spec fn headers_of(ls: Seq<Seq<u8>>) -> Seq<(Seq<u8>, Seq<u8>)>
    decreases ls.len(),
{
    if ls.len() == 0 {
        Seq::empty()
    } else {
        headers_of(ls.drop_last()) + (match header_of_line(ls.last()) {
            Some(h) => seq![h],
            None => Seq::<(Seq<u8>, Seq<u8>)>::empty(),
        })
    }
}

/// The headers of a raw request: the well-formed lines above the cut.
pub open spec fn req_headers(raw: Seq<u8>) -> Seq<(Seq<u8>, Seq<u8>)> {
    let ls = req_lines(raw);
    headers_of(ls.subrange(0, cut_of(ls)))
}

/// The body of a raw request: the lines after the cut, joined back.
pub open spec fn req_body(raw: Seq<u8>) -> Seq<u8> {
    let ls = req_lines(raw);
    join2(ls.skip(cut_of(ls) + 1), 13, 10)
}

/// The path token before any query string.
pub open spec fn path_of(p: Seq<u8>) -> Seq<u8> {
    p.subrange(0, find1(p, 0, 63))
}

/// The query string after the first question mark, if one is there.
pub open spec fn query_of(p: Seq<u8>) -> Option<Seq<u8>> {
    let q = find1(p, 0, 63);
    if q < p.len() {
        Some(p.subrange(q + 1, p.len() as int))
    } else {
        None
    }
}

/// One query pair folded into the map: a pair without an equals sign binds
/// nothing.
pub open spec fn add_query_pair(m: Seq<ParamEntry>, pair: Seq<u8>) -> Seq<ParamEntry> {
    let e = find1(pair, 0, 61);
    if e < pair.len() {
        map_insert(m, pair.subrange(0, e), pair.subrange(e + 1, pair.len() as int))
    } else {
        m
    }
}

/// The query pairs from position `i` on, folded left to right, a later pair
/// overwriting an earlier one of the same key.
pub open spec fn query_fold(pairs: Seq<Seq<u8>>, i: int, m: Seq<ParamEntry>) -> Seq<ParamEntry>
    recommends
        0 <= i <= pairs.len(),
    decreases pairs.len() - i when 0 <= i <= pairs.len()
{
    if i >= pairs.len() {
        m
    } else {
        query_fold(pairs, i + 1, add_query_pair(m, pairs[i]))
    }
}

/// Index of the first route of method `m` whose pattern matches `path` with
/// at least one binding; the number of routes when there is none.
pub open spec fn binding_index(keys: Seq<RouteKey>, m: RequestType, path: Seq<u8>) -> int
    decreases keys.len(),
{
    if keys.len() == 0 {
        0
    } else if keys[0].0 == m && extract_params_spec(keys[0].1, path).len() > 0 {
        0
    } else {
        1 + binding_index(keys.drop_first(), m, path)
    }
}

pub proof fn lemma_binding_index(keys: Seq<RouteKey>, m: RequestType, path: Seq<u8>)
    ensures
        0 <= binding_index(keys, m, path) <= keys.len(),
        binding_index(keys, m, path) < keys.len() ==> keys[binding_index(keys, m, path)].0 == m
            && extract_params_spec(keys[binding_index(keys, m, path)].1, path).len() > 0,
        forall|j: int|
            0 <= j < binding_index(keys, m, path) ==> !(#[trigger] keys[j].0 == m
                && extract_params_spec(keys[j].1, path).len() > 0),
    decreases keys.len(),
{
    if keys.len() > 0 && !(keys[0].0 == m && extract_params_spec(keys[0].1, path).len() > 0) {
        lemma_binding_index(keys.drop_first(), m, path);
        assert forall|j: int|
            0 <= j < binding_index(keys, m, path) implies !(#[trigger] keys[j].0 == m
            && extract_params_spec(keys[j].1, path).len() > 0) by {
            if j > 0 {
                assert(keys[j] == keys.drop_first()[j - 1]);
            }
        }
    }
}

proof fn lemma_binding_index_step(keys: Seq<RouteKey>, m: RequestType, path: Seq<u8>, p: int)
    requires
        0 <= p < keys.len(),
        forall|j: int|
            0 <= j < p ==> !(#[trigger] keys[j].0 == m && extract_params_spec(keys[j].1,
            path).len() > 0),
        !(keys[p].0 == m && extract_params_spec(keys[p].1, path).len() > 0),
    ensures
        binding_index(keys, m, path) >= p + 1,
    decreases p,
{
    if p == 0 {
        lemma_binding_index(keys.drop_first(), m, path);
    } else {
        assert forall|j: int|
            0 <= j < p - 1 implies !(#[trigger] keys.drop_first()[j].0 == m
            && extract_params_spec(keys.drop_first()[j].1, path).len() > 0) by {
            assert(keys.drop_first()[j] == keys[j + 1]);
        }
        assert(keys.drop_first()[p - 1] == keys[p]);
        lemma_binding_index_step(keys.drop_first(), m, path, p - 1);
    }
}

proof fn lemma_binding_index_stop(keys: Seq<RouteKey>, m: RequestType, path: Seq<u8>, p: int)
    requires
        0 <= p < keys.len(),
        forall|j: int|
            0 <= j < p ==> !(#[trigger] keys[j].0 == m && extract_params_spec(keys[j].1,
            path).len() > 0),
        keys[p].0 == m && extract_params_spec(keys[p].1, path).len() > 0,
    ensures
        binding_index(keys, m, path) == p,
    decreases p,
{
    if p > 0 {
        assert forall|j: int|
            0 <= j < p - 1 implies !(#[trigger] keys.drop_first()[j].0 == m
            && extract_params_spec(keys.drop_first()[j].1, path).len() > 0) by {
            assert(keys.drop_first()[j] == keys[j + 1]);
        }
        assert(keys.drop_first()[p - 1] == keys[p]);
        lemma_binding_index_stop(keys.drop_first(), m, path, p - 1);
    }
}

/// The path-pattern bindings the parser seeds `params` with: those of the
/// first matching route of the request's method, or none.
pub open spec fn path_bindings(keys: Seq<RouteKey>, m: RequestType, path: Seq<u8>) -> Seq<
    ParamEntry,
> {
    let i = binding_index(keys, m, path);
    if i < keys.len() {
        extract_params_spec(keys[i].1, path)
    } else {
        Seq::empty()
    }
}

/// The parameters of a raw request against the registered keys: path-pattern
/// bindings first, query pairs folded in on top, so that on a shared name the
/// query value wins.
pub open spec fn params_of(raw: Seq<u8>, keys: Seq<RouteKey>) -> Seq<ParamEntry> {
    let rp = tokens(raw)[1];
    let base = path_bindings(keys, method_of(raw), path_of(rp));
    match query_of(rp) {
        Some(q) => query_fold(split1(q, 38), 0, base),
        None => base,
    }
}

/// The method of a raw request; an unknown token reads as GET, though the
/// validation never lets one through.
pub open spec fn method_of(raw: Seq<u8>) -> RequestType {
    match RequestType::spec_from_token(tokens(raw)[0]) {
        Some(m) => m,
        None => RequestType::GET,
    }
}

/// The request a raw byte stream parses to, given the registered route keys.
pub open spec fn request_model_of(raw: Seq<u8>, keys: Seq<RouteKey>) -> RequestModel {
    RequestModel {
        method: method_of(raw),
        path: path_of(tokens(raw)[1]),
        version: tokens(raw)[2],
        headers: req_headers(raw),
        body: req_body(raw),
        params: params_of(raw, keys),
    }
}

impl Request {
    /// Build the request from raw bytes that passed validation: request line
    /// fields, headers, body, and parameters from the route patterns and the
    /// query string.
    pub fn parse_raw_only<H: Handler>(raw: &Vec<u8>, routes: &RouteTable<H>) -> (r: Request)
        requires
            tokens(raw@).len() >= 3,
        ensures
            r@ == request_model_of(raw@, routes.spec_keys()),
            r.wf(),
    {
        let ts = crate::bytes::request_line_tokens(raw);
        let (t0, t1, t2) = match ts {
            Some(t) => t,
            None => {
                proof {
                    assert(false);
                }
                (Vec::new(), Vec::new(), Vec::new())
            },
        };
        let method = match RequestType::from_bytes(&t0) {
            Some(m) => m,
            None => RequestType::GET,
        };
        proof {
            lemma_find1_bounds(t1@, 0, 63);
        }
        let q = find1_exec(&t1, 0, 63);
        let path = subvec(&t1, 0, q);

        // Path-pattern bindings from the first matching route of this method.
        let ghost keys = routes.spec_keys();
        proof {
            lemma_binding_index(keys, method, path@);
        }
        let mut params = ParamMap::new();
        let mut i: usize = 0;
        let n = routes.len();
        while i < n
            invariant_except_break
                params@ == Seq::<ParamEntry>::empty(),
                forall|j: int|
                    0 <= j < i ==> !(#[trigger] keys[j].0 == method && extract_params_spec(
                        keys[j].1,
                        path@,
                    ).len() > 0),
                binding_index(keys, method, path@) >= i,
            invariant
                keys == routes.spec_keys(),
                n == keys.len(),
                i <= n,
                params.wf(),
                0 <= binding_index(keys, method, path@) <= keys.len(),
            ensures
                keys == routes.spec_keys(),
                n == keys.len(),
                params.wf(),
                params@ == path_bindings(keys, method, path@),
            decreases n - i,
        {
            proof {
                assert(keys[i as int] == (routes.entries@[i as int].0.0,
                routes.entries@[i as int].0.1@));
            }
            if routes.entries[i].0.0 == method {
                let ex = Request::extract_params(&routes.entries[i].0.1, &path);
                if ex.len() > 0 {
                    params = ex;
                    proof {
                        lemma_binding_index_stop(keys, method, path@, i as int);
                    }
                    break ;
                }
            }
            proof {
                lemma_binding_index_step(keys, method, path@, i as int);
            }
            i += 1;
        }
        proof {
            if binding_index(keys, method, path@) >= keys.len() {
                assert(path_bindings(keys, method, path@) =~= Seq::<ParamEntry>::empty());
            }
        }
        let ghost base = params@;

        // Query pairs folded in on top.
        if q < t1.len() {
            let qs = subvec(&t1, q + 1, t1.len());
            let pairs = split1_exec(&qs, 38);
            let ghost pseq = split1(qs@, 38);
            let mut k: usize = 0;
            while k < pairs.len()
                invariant
                    pairs.deep_view() == pseq,
                    k <= pairs@.len(),
                    pairs@.len() == pseq.len(),
                    params.wf(),
                    query_fold(pseq, k as int, params@) == query_fold(pseq, 0, base),
                decreases pairs@.len() - k,
            {
                proof {
                    assert(pairs@[k as int]@ == pseq[k as int]);
                    lemma_find1_bounds(pseq[k as int], 0, 61);
                }
                let e = find1_exec(&pairs[k], 0, 61);
                if e < pairs[k].len() {
                    let kk = subvec(&pairs[k], 0, e);
                    let vv = subvec(&pairs[k], e + 1, pairs[k].len());
                    params.insert(kk, vv);
                }
                k += 1;
            }
        }

        // Header lines above the cut; body below it.
        let lines = split2_exec(raw, 13, 10);
        let ghost ls = split2(raw@, 13, 10);
        proof {
            lemma_first_blank(ls, 0);
        }
        let mut cut: usize = 0;
        let mut found = false;
        let mut j: usize = 0;
        while j < lines.len()
            invariant_except_break
                cut == 0,
                !found,
                first_blank(ls, 0) == first_blank(ls, j as int),
            invariant
                lines.deep_view() == ls,
                j <= lines@.len(),
                lines@.len() == ls.len(),
            ensures
                lines.deep_view() == ls,
                lines@.len() == ls.len(),
                found ==> first_blank(ls, 0) == cut && (cut as int) < ls.len(),
                !found ==> first_blank(ls, 0) >= ls.len() && cut == 0,
            decreases lines@.len() - j,
        {
            proof {
                assert(lines@[j as int]@ == ls[j as int]);
            }
            if all_ws_exec(&lines[j]) {
                cut = j;
                found = true;
                break ;
            }
            j += 1;
        }
        proof {
            assert(cut as int == cut_of(ls));
        }

        let mut headers: Vec<(Vec<u8>, Vec<u8>)> = Vec::new();
        let mut h: usize = 0;
        while h < cut
            invariant
                lines.deep_view() == ls,
                lines@.len() == ls.len(),
                h <= cut <= ls.len(),
                Seq::new(headers@.len(), |x: int| (headers@[x].0@, headers@[x].1@)) == headers_of(
                    ls.subrange(0, h as int),
                ),
            decreases cut - h,
        {
            proof {
                assert(lines@[h as int]@ == ls[h as int]);
                assert(ls.subrange(0, h + 1 as int).drop_last() =~= ls.subrange(0, h as int));
                assert(ls.subrange(0, h + 1 as int).last() == ls[h as int]);
            }
            let mut parts = split2_exec(&lines[h], 58, 32);
            if parts.len() == 2 {
                let a = parts.remove(0);
                let b = parts.remove(0);
                headers.push((a, b));
            }
            proof {
                assert(Seq::new(headers@.len(), |x: int| (headers@[x].0@, headers@[x].1@))
                    =~~= headers_of(ls.subrange(0, h + 1 as int)));
            }
            h += 1;
        }

        let body = join2_from(&lines, cut + 1, 13, 10);

        let r = Request { method, path, version: t2, headers, body, params };
        proof {
            assert(ls.subrange(0, cut_of(ls)) =~= ls.subrange(0, cut as int));
            assert(r@.headers =~= req_headers(raw@));
            assert(r@ == request_model_of(raw@, routes.spec_keys())) by {
                assert(r@.method == method_of(raw@));
                assert(r@.path == path_of(tokens(raw@)[1]));
                assert(r@.version == tokens(raw@)[2]);
                assert(r@.body == req_body(raw@));
                assert(r@.params == params_of(raw@, routes.spec_keys()));
            }
        }
        r
    }

    /// Parse raw bytes into a request. Validation comes first, in order:
    /// too few request-line tokens, a method outside GET, POST, PUT and
    /// DELETE, a version other than HTTP/1.1, and an over-long path each
    /// short-circuit to a default request and the matching error response,
    /// which the caller must send without invoking any handler. Bytes that
    /// pass validation parse to the request and no response.
    pub fn parse_raw<H: Handler>(raw: &Vec<u8>, routes: &RouteTable<H>) -> (r: (
        Request,
        Option<Response>,
    ))
        ensures
            r.0.wf(),
            match validation_of(raw@) {
                Some(sc) => r.0@ == default_request_model() && (r.1 matches Some(resp) && resp@
                    == error_response_model(sc)),
                None => r.0@ == request_model_of(raw@, routes.spec_keys()) && r.1 is None,
            },
    {
        proof {
            reveal_strlit("GET");
            reveal_strlit("POST");
            reveal_strlit("PUT");
            reveal_strlit("DELETE");
            reveal_strlit("HTTP/1.1");
        }
        let ts = crate::bytes::request_line_tokens(raw);
        match ts {
            None => (Request::new_default(), Some(error_response(StatusCode::BadRequest))),
            Some((t0, t1, t2)) => {
                let allowed = bytes_eq(&t0, &lit("GET")) || bytes_eq(&t0, &lit("POST")) || bytes_eq(
                    &t0,
                    &lit("PUT"),
                ) || bytes_eq(&t0, &lit("DELETE"));
                if !allowed {
                    return (
                        Request::new_default(),
                        Some(error_response(StatusCode::MethodNotAllowed)),
                    );
                }
                if !bytes_eq(&t2, &lit("HTTP/1.1")) {
                    return (
                        Request::new_default(),
                        Some(error_response(StatusCode::HttpVersionNotSupported)),
                    );
                }
                if t1.len() > MAX_URI {
                    return (Request::new_default(), Some(error_response(StatusCode::UriTooLong)));
                }
                (Request::parse_raw_only(raw, routes), None)
            },
        }
    }
}

/// What the router decided for a request.
pub enum RouteOutcome {
    /// A handler matched and produced this response.
    Handled(Response),
    /// No route matched a GET request: the caller should try the static-file
    /// sources.
    TryFiles,
    /// No route matched and the method has no file fallback: the caller must
    /// substitute the default response.
    NoMatch,
}

/// The entries of `over` folded into `base` from position `i` on, a folded
/// entry overwriting one of the same key already present.
pub open spec fn merge_params(base: Seq<ParamEntry>, over: Seq<ParamEntry>, i: int) -> Seq<
    ParamEntry,
>
    recommends
        0 <= i <= over.len(),
    decreases over.len() - i when 0 <= i <= over.len()
{
    if i >= over.len() {
        base
    } else {
        merge_params(map_insert(base, over[i].0, over[i].1), over, i + 1)
    }
}

pub proof fn lemma_merge_params_wf(base: Seq<ParamEntry>, over: Seq<ParamEntry>, i: int)
    requires
        0 <= i <= over.len(),
        map_wf(base),
    ensures
        map_wf(merge_params(base, over, i)),
    decreases over.len() - i,
{
    if i < over.len() {
        crate::params::lemma_map_insert_wf(base, over[i].0, over[i].1);
        lemma_merge_params_wf(map_insert(base, over[i].0, over[i].1), over, i + 1);
    }
}

/// The request as the matched parameterized route hands it to its handler:
/// the same request, its parameters now the pattern's bindings with the
/// parameters already present folded in on top.
pub open spec fn routed_model(req: RequestModel, pat: Seq<u8>) -> RequestModel {
    RequestModel {
        params: merge_params(extract_params_spec(pat, req.path), req.params, 0),
        ..req
    }
}

impl Request {
    /// Route the request against the table. Policy, in strict order: the
    /// route registered under exactly (method, path) wins; otherwise the
    /// first route of the same method whose pattern matches the path with at
    /// least one binding wins, the request's parameters are re-seeded from
    /// that pattern with the previously parsed parameters folded in on top,
    /// and the handler is invoked; otherwise a GET request falls back to the
    /// static-file sources and anything else is left to the caller's default.
    pub fn route<H: Handler>(&mut self, routes: &RouteTable<H>) -> (r: RouteOutcome)
        requires
            old(self).wf(),
        ensures
            final (self).wf(),
            ({
                let keys = routes.spec_keys();
                let m = old(self)@.method;
                let p = old(self)@.path;
                let ei = key_index(keys, (m, p));
                let bi = binding_index(keys, m, p);
                if ei < keys.len() {
                    final (self)@ == old(self)@ && (r matches RouteOutcome::Handled(resp)
                        && routes.entries@[ei].1.handler.response_spec(old(self)@, resp@))
                } else if bi < keys.len() {
                    final (self)@ == routed_model(old(self)@, keys[bi].1) && (r
                        matches RouteOutcome::Handled(resp)
                        && routes.entries@[bi].1.handler.response_spec(final (self)@, resp@))
                } else if m == RequestType::GET {
                    final (self)@ == old(self)@ && r is TryFiles
                } else {
                    final (self)@ == old(self)@ && r is NoMatch
                }
            }),
    {
        let ghost keys = routes.spec_keys();
        let ghost m0 = self@.method;
        let ghost p0 = self@.path;
        let ghost key: RouteKey = (m0, p0);
        proof {
            crate::routes::lemma_key_index(keys, key);
            lemma_binding_index(keys, m0, p0);
        }

        // Exact match first.
        let n = routes.len();
        let mut i: usize = 0;
        while i < n
            invariant_except_break
                forall|j: int| 0 <= j < i ==> keys[j] != key,
                key_index(keys, key) >= i,
            invariant
                keys == routes.spec_keys(),
                key == (self.method, self.path@),
                key == (m0, p0),
                n == keys.len(),
                i <= n,
                0 <= key_index(keys, key) <= keys.len(),
            ensures
                keys == routes.spec_keys(),
                key == (self.method, self.path@),
                i <= n,
                n == keys.len(),
                i as int == key_index(keys, key),
            decreases n - i,
        {
            if routes.entries[i].0.0 == self.method && bytes_eq(&routes.entries[i].0.1, &self.path)
            {
                proof {
                    crate::routes::lemma_key_index_stop(keys, key, i as int);
                }
                break ;
            }
            proof {
                crate::routes::lemma_key_index_step(keys, key, i as int);
            }
            i += 1;
        }
        if i < n {
            let resp = routes.entries[i].1.handler.handle(self);
            return RouteOutcome::Handled(resp);
        }

        // Parameterized match next, in registration order.
        let mut b: usize = 0;
        while b < n
            invariant_except_break
                forall|j: int|
                    0 <= j < b ==> !(#[trigger] keys[j].0 == m0 && extract_params_spec(
                        keys[j].1,
                        p0,
                    ).len() > 0),
                binding_index(keys, m0, p0) >= b,
            invariant
                keys == routes.spec_keys(),
                m0 == self.method,
                p0 == self.path@,
                n == keys.len(),
                b <= n,
                0 <= binding_index(keys, m0, p0) <= keys.len(),
            ensures
                keys == routes.spec_keys(),
                m0 == self.method,
                p0 == self.path@,
                b <= n,
                n == keys.len(),
                b as int == binding_index(keys, m0, p0),
            decreases n - b,
        {
            if routes.entries[b].0.0 == self.method {
                let ex = Request::extract_params(&routes.entries[b].0.1, &self.path);
                if ex.len() > 0 {
                    proof {
                        lemma_binding_index_stop(keys, m0, p0, b as int);
                    }
                    break ;
                }
            }
            proof {
                lemma_binding_index_step(keys, m0, p0, b as int);
            }
            b += 1;
        }
        if b < n {
            let mut merged = Request::extract_params(&routes.entries[b].0.1, &self.path);
            let ghost base0 = merged@;
            let ghost overp = self.params@;
            let mut k: usize = 0;
            let np = self.params.len();
            while k < np
                invariant
                    k <= np,
                    np == overp.len(),
                    overp == self.params@,
                    merged.wf(),
                    merge_params(merged@, overp, k as int) == merge_params(base0, overp, 0),
                decreases np - k,
            {
                let kk = self.params.key_at(k);
                let vv = self.params.value_at(k);
                merged.insert(kk, vv);
                k += 1;
            }
            self.params = merged;
            proof {
                assert(self@ == routed_model(RequestModel { params: overp, ..self@ }, keys[b as int].1));
            }
            let resp = routes.entries[b].1.handler.handle(self);
            return RouteOutcome::Handled(resp);
        }

        // Fall back.
        if matches!(self.method, RequestType::GET) {
            RouteOutcome::TryFiles
        } else {
            RouteOutcome::NoMatch
        }
    }
}

/// Dispatch one request against the table: the matched handler's response, or
/// nothing when no route matched.
pub fn handle_request<H: Handler>(req: &mut Request, routes: &RouteTable<H>) -> (r: Option<
    Response,
>)
    requires
        old(req).wf(),
    ensures
        final (req).wf(),
        ({
            let keys = routes.spec_keys();
            let m = old(req)@.method;
            let p = old(req)@.path;
            let ei = key_index(keys, (m, p));
            let bi = binding_index(keys, m, p);
            if ei < keys.len() {
                final (req)@ == old(req)@ && (r matches Some(resp)
                    && routes.entries@[ei].1.handler.response_spec(old(req)@, resp@))
            } else if bi < keys.len() {
                final (req)@ == routed_model(old(req)@, keys[bi].1) && (r matches Some(resp)
                    && routes.entries@[bi].1.handler.response_spec(final (req)@, resp@))
            } else {
                final (req)@ == old(req)@ && r is None
            }
        }),
{
    match req.route(routes) {
        RouteOutcome::Handled(resp) => Some(resp),
        RouteOutcome::TryFiles => None,
        RouteOutcome::NoMatch => None,
    }
}

} // verus!
