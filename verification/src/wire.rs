//! Response serialization: the exact bytes a response puts on the wire, and
//! the minimal client-side reading that undoes them.
use crate::bytes::{ascii_of, copy_bytes, dec_of, dec_of_exec, is_digit, join2, join2_from,
    lemma_dec_of_digits, lemma_join_split, lemma_split2_prefix, lit, split2, split2_exec,
    starts_with, starts_with_exec, subvec};
use crate::response::{Response, ResponseModel};
use vstd::prelude::*;

verus! {

/// The serialized form of a response: status line, content type and length
/// headers, the close header when asked for, a blank line, then the body
/// bytes verbatim.
pub open spec fn rendered_response(resp: ResponseModel, close: bool) -> Seq<u8> {
    ascii_of("HTTP/1.1 "@) + resp.status + ascii_of("\r\nContent-Type: "@) + resp.content_type
        + ascii_of("\r\nContent-Length: "@) + dec_of(resp.content.len() as int) + ascii_of("\r\n"@)
        + (if close {
        ascii_of("Connection: close\r\n"@)
    } else {
        Seq::<u8>::empty()
    }) + ascii_of("\r\n"@) + resp.content
}

/// Serialize a response for the wire. The body goes out byte for byte,
/// binary or not; when `close` is set the close header is included.
pub fn render_response(resp: &Response, close: bool) -> (r: Vec<u8>)
    ensures
        r@ == rendered_response(resp@, close),
{
    proof {
        reveal_strlit("HTTP/1.1 ");
        reveal_strlit("\r\nContent-Type: ");
        reveal_strlit("\r\nContent-Length: ");
        reveal_strlit("\r\n");
        reveal_strlit("Connection: close\r\n");
    }
    let mut r = lit("HTTP/1.1 ");
    let mut status = copy_bytes(&resp.status);
    r.append(&mut status);
    let mut p1 = lit("\r\nContent-Type: ");
    r.append(&mut p1);
    let mut ct = copy_bytes(&resp.content_type);
    r.append(&mut ct);
    let mut p2 = lit("\r\nContent-Length: ");
    r.append(&mut p2);
    let mut n = dec_of_exec(resp.content.len());
    r.append(&mut n);
    let mut p3 = lit("\r\n");
    r.append(&mut p3);
    if close {
        let mut p4 = lit("Connection: close\r\n");
        r.append(&mut p4);
    }
    let mut p5 = lit("\r\n");
    r.append(&mut p5);
    let mut body = copy_bytes(&resp.content);
    r.append(&mut body);
    proof {
        assert(r@ =~= rendered_response(resp@, close));
    }
    r
}

/// Free of carriage returns and line feeds.
pub open spec fn no_crlf(s: Seq<u8>) -> bool {
    forall|k: int| 0 <= k < s.len() ==> #[trigger] s[k] != 13 && s[k] != 10
}

/// A response whose header fields can survive the wire: neither the status
/// line text nor the content type holds a line break.
pub open spec fn wf_response(resp: ResponseModel) -> bool {
    no_crlf(resp.status) && no_crlf(resp.content_type)
}

/// Index of the first wholly empty line at or after `i`; the number of lines
/// when there is none.
pub open spec fn first_empty(ls: Seq<Seq<u8>>, i: int) -> int
    recommends
        0 <= i <= ls.len(),
    decreases ls.len() - i when 0 <= i <= ls.len()
{
    if i >= ls.len() {
        ls.len() as int
    } else if ls[i].len() == 0 {
        i
    } else {
        first_empty(ls, i + 1)
    }
}

pub proof fn lemma_first_empty(ls: Seq<Seq<u8>>, i: int)
    requires
        0 <= i <= ls.len(),
    ensures
        i <= first_empty(ls, i) <= ls.len(),
        first_empty(ls, i) < ls.len() ==> ls[first_empty(ls, i)].len() == 0,
        forall|k: int| i <= k < first_empty(ls, i) ==> ls[k].len() != 0,
    decreases ls.len() - i,
{
    if i < ls.len() && ls[i].len() != 0 {
        lemma_first_empty(ls, i + 1);
    }
}

pub proof fn lemma_first_empty_at(ls: Seq<Seq<u8>>, i: int, j: int)
    requires
        0 <= i <= j < ls.len(),
        ls[j].len() == 0,
        forall|k: int| i <= k < j ==> ls[k].len() != 0,
    ensures
        first_empty(ls, i) == j,
    decreases j - i,
{
    if i < j {
        lemma_first_empty_at(ls, i + 1, j);
    }
}

/// The value of the first content-type header at or after line `i` of the
/// head, read the way the minimal client does: the bytes after the literal
/// prefix.
pub open spec fn ct_scan(head: Seq<Seq<u8>>, i: int) -> Option<Seq<u8>>
    recommends
        0 <= i <= head.len(),
    decreases head.len() - i when 0 <= i <= head.len()
{
    if i >= head.len() {
        None
    } else if starts_with(head[i], ascii_of("Content-Type: "@)) {
        Some(head[i].skip(ascii_of("Content-Type: "@).len() as int))
    } else {
        ct_scan(head, i + 1)
    }
}

/// What a minimal client reads back from response bytes: the status after
/// the protocol prefix on the first line, the first content-type header's
/// value, and everything after the first empty line as the content. Bytes
/// without an empty line, a recognizable first line or a content-type header
/// read as nothing.
pub open spec fn parse_response_spec(s: Seq<u8>) -> Option<ResponseModel> {
    let ls = split2(s, 13, 10);
    let e = first_empty(ls, 0);
    if e >= ls.len() {
        None
    } else if !starts_with(ls[0], ascii_of("HTTP/1.1 "@)) {
        None
    } else {
        match ct_scan(ls.subrange(0, e), 1) {
            Some(v) => Some(
                ResponseModel {
                    status: ls[0].skip(ascii_of("HTTP/1.1 "@).len() as int),
                    content_type: v,
                    content: join2(ls.skip(e + 1), 13, 10),
                },
            ),
            None => None,
        }
    }
}

/// Read response bytes back, as a minimal client would.
pub fn parse_response(v: &Vec<u8>) -> (r: Option<Response>)
    ensures
        match r {
            Some(resp) => parse_response_spec(v@) == Some(resp@),
            None => parse_response_spec(v@) is None,
        },
{
    proof {
        reveal_strlit("HTTP/1.1 ");
        reveal_strlit("Content-Type: ");
    }
    let lines = split2_exec(v, 13, 10);
    let ghost ls = split2(v@, 13, 10);
    proof {
        lemma_first_empty(ls, 0);
    }
    let mut e: usize = 0;
    let mut found = false;
    let mut j: usize = 0;
    while j < lines.len()
        invariant_except_break
            e == 0,
            !found,
            first_empty(ls, 0) == first_empty(ls, j as int),
        invariant
            lines.deep_view() == ls,
            j <= lines@.len(),
            lines@.len() == ls.len(),
        ensures
            lines.deep_view() == ls,
            lines@.len() == ls.len(),
            found ==> first_empty(ls, 0) == e && (e as int) < ls.len(),
            !found ==> first_empty(ls, 0) >= ls.len(),
        decreases lines@.len() - j,
    {
        proof {
            assert(lines@[j as int]@ == ls[j as int]);
        }
        if lines[j].len() == 0 {
            e = j;
            found = true;
            break ;
        }
        j += 1;
    }
    if !found {
        return None;
    }
    proof {
        assert(lines@[0]@ == ls[0]);
    }
    if !starts_with_exec(&lines[0], &lit("HTTP/1.1 ")) {
        return None;
    }
    let status = subvec(&lines[0], 9, lines[0].len());
    proof {
        assert(status@ =~= ls[0].skip(ascii_of("HTTP/1.1 "@).len() as int));
    }
    let ghost head = ls.subrange(0, e as int);
    let mut ct: Option<Vec<u8>> = None;
    let mut h: usize = 1;
    if e < 1 {
        proof {
            assert(ct_scan(head, 1) is None);
        }
        return None;
    }
    while h < e
        invariant_except_break
            ct is None,
            ct_scan(head, 1) == ct_scan(head, h as int),
        invariant
            lines.deep_view() == ls,
            lines@.len() == ls.len(),
            head == ls.subrange(0, e as int),
            1 <= h <= e,
            (e as int) < ls.len(),
        ensures
            lines.deep_view() == ls,
            lines@.len() == ls.len(),
            head == ls.subrange(0, e as int),
            (e as int) < ls.len(),
            match ct {
                Some(cv) => ct_scan(head, 1) == Some(cv@),
                None => ct_scan(head, 1) is None,
            },
        decreases e - h,
    {
        proof {
            reveal_strlit("Content-Type: ");
            assert(lines@[h as int]@ == ls[h as int]);
            assert(head[h as int] == ls[h as int]);
        }
        if starts_with_exec(&lines[h], &lit("Content-Type: ")) {
            let value = subvec(&lines[h], 14, lines[h].len());
            proof {
                assert(value@ =~= head[h as int].skip(ascii_of("Content-Type: "@).len() as int));
            }
            ct = Some(value);
            break ;
        }
        h += 1;
    }
    match ct {
        None => None,
        Some(cv) => {
            let content = join2_from(&lines, e + 1, 13, 10);
            proof {
                assert(lines.deep_view().skip(e + 1 as int) =~= ls.skip(e + 1));
            }
            Some(Response { status, content_type: cv, content })
        },
    }
}

/// Round trip: the bytes a response serializes to read back, by the minimal
/// client, as exactly the status, content type and content they were built
/// from, whether or not the close header was included.
pub proof fn lemma_response_roundtrip(resp: ResponseModel, close: bool)
    requires
        wf_response(resp),
    ensures
        parse_response_spec(rendered_response(resp, close)) == Some(resp),
{
    reveal_strlit("HTTP/1.1 ");
    reveal_strlit("\r\nContent-Type: ");
    reveal_strlit("\r\nContent-Length: ");
    reveal_strlit("\r\n");
    reveal_strlit("Connection: close\r\n");
    reveal_strlit("Content-Type: ");
    reveal_strlit("Content-Length: ");
    reveal_strlit("Connection: close");
    let r = rendered_response(resp, close);
    let l0 = ascii_of("HTTP/1.1 "@) + resp.status;
    let l1 = ascii_of("Content-Type: "@) + resp.content_type;
    let l2 = ascii_of("Content-Length: "@) + dec_of(resp.content.len() as int);
    let l3 = ascii_of("Connection: close"@);
    let crlf = seq![13u8, 10u8];

    lemma_dec_of_digits(resp.content.len() as int);
    assert(no_crlf(l0)) by {
        assert(forall|k: int|
            0 <= k < ascii_of("HTTP/1.1 "@).len() ==> (#[trigger] ascii_of("HTTP/1.1 "@)[k]) != 13
                && ascii_of("HTTP/1.1 "@)[k] != 10);
    }
    assert(no_crlf(l1)) by {
        assert(forall|k: int|
            0 <= k < ascii_of("Content-Type: "@).len() ==> (#[trigger] ascii_of(
                "Content-Type: "@,
            )[k]) != 13 && ascii_of("Content-Type: "@)[k] != 10);
    }
    assert(no_crlf(l2)) by {
        assert(forall|k: int|
            0 <= k < ascii_of("Content-Length: "@).len() ==> (#[trigger] ascii_of(
                "Content-Length: "@,
            )[k]) != 13 && ascii_of("Content-Length: "@)[k] != 10);
        assert(forall|k: int|
            0 <= k < dec_of(resp.content.len() as int).len() ==> is_digit(
                #[trigger] dec_of(resp.content.len() as int)[k],
            ));
    }
    assert(no_crlf(l3)) by {
        assert(forall|k: int|
            0 <= k < ascii_of("Connection: close"@).len() ==> (#[trigger] ascii_of(
                "Connection: close"@,
            )[k]) != 13 && ascii_of("Connection: close"@)[k] != 10);
    }

    let tail0 = if close {
        l1 + crlf + (l2 + crlf + (l3 + crlf + (Seq::<u8>::empty() + crlf + resp.content)))
    } else {
        l1 + crlf + (l2 + crlf + (Seq::<u8>::empty() + crlf + resp.content))
    };
    assert(r =~= l0 + crlf + tail0);
    lemma_no_pair(l0);
    lemma_no_pair(l1);
    lemma_no_pair(l2);
    lemma_no_pair(l3);
    lemma_no_pair(Seq::<u8>::empty());
    lemma_split2_prefix(l0, tail0, 13, 10);
    let ls = split2(r, 13, 10);
    if close {
        let t1 = l2 + crlf + (l3 + crlf + (Seq::<u8>::empty() + crlf + resp.content));
        let t2 = l3 + crlf + (Seq::<u8>::empty() + crlf + resp.content);
        let t3 = Seq::<u8>::empty() + crlf + resp.content;
        lemma_split2_prefix(l1, t1, 13, 10);
        lemma_split2_prefix(l2, t2, 13, 10);
        lemma_split2_prefix(l3, t3, 13, 10);
        assert(t3 =~= Seq::<u8>::empty() + crlf + resp.content);
        lemma_split2_prefix(Seq::<u8>::empty(), resp.content, 13, 10);
        assert(ls =~= seq![l0, l1, l2, l3, Seq::<u8>::empty()] + split2(resp.content, 13, 10));
        assert(ls.skip(5) =~= split2(resp.content, 13, 10));
        lemma_roundtrip_lines(resp, ls, 4);
        assert(parse_response_spec(r) == Some(resp));
    } else {
        let t1 = l2 + crlf + (Seq::<u8>::empty() + crlf + resp.content);
        let t3 = Seq::<u8>::empty() + crlf + resp.content;
        lemma_split2_prefix(l1, t1, 13, 10);
        lemma_split2_prefix(l2, t3, 13, 10);
        lemma_split2_prefix(Seq::<u8>::empty(), resp.content, 13, 10);
        assert(ls =~= seq![l0, l1, l2, Seq::<u8>::empty()] + split2(resp.content, 13, 10));
        assert(ls.skip(4) =~= split2(resp.content, 13, 10));
        lemma_roundtrip_lines(resp, ls, 3);
        assert(parse_response_spec(r) == Some(resp));
    }
}

/// A sequence with no line-break bytes holds no line-break pair.
proof fn lemma_no_pair(s: Seq<u8>)
    requires
        no_crlf(s),
    ensures
        forall|k: int| 0 <= k && k + 2 <= s.len() ==> !(#[trigger] s[k] == 13 && s[k + 1] == 10),
{
}

/// Once the line list of the rendered response is laid out, the client reads
/// the fields back.
proof fn lemma_roundtrip_lines(resp: ResponseModel, ls: Seq<Seq<u8>>, e: int)
    requires
        3 <= e <= 4,
        ls.len() == e + 1 + split2(resp.content, 13, 10).len(),
        ls[0] == ascii_of("HTTP/1.1 "@) + resp.status,
        ls[1] == ascii_of("Content-Type: "@) + resp.content_type,
        ls[2] == ascii_of("Content-Length: "@) + dec_of(resp.content.len() as int),
        e == 4 ==> ls[3] == ascii_of("Connection: close"@),
        ls[e].len() == 0,
        ls.skip(e + 1) == split2(resp.content, 13, 10),
    ensures
        first_empty(ls, 0) == e,
        starts_with(ls[0], ascii_of("HTTP/1.1 "@)),
        ls[0].skip(ascii_of("HTTP/1.1 "@).len() as int) == resp.status,
        ct_scan(ls.subrange(0, e), 1) == Some(resp.content_type),
        join2(ls.skip(e + 1), 13, 10) == resp.content,
{
    reveal_strlit("HTTP/1.1 ");
    reveal_strlit("Content-Type: ");
    reveal_strlit("Content-Length: ");
    reveal_strlit("Connection: close");
    assert(ls[0].len() > 0);
    assert(ls[1].len() > 0);
    assert(ls[2].len() > 0);
    if e == 4 {
        assert(ls[3].len() > 0);
    }
    lemma_first_empty_at(ls, 0, e);
    assert(ls[0].subrange(0, ascii_of("HTTP/1.1 "@).len() as int) =~= ascii_of("HTTP/1.1 "@));
    assert(ls[0].skip(ascii_of("HTTP/1.1 "@).len() as int) =~= resp.status);
    let head = ls.subrange(0, e);
    assert(head[1] == ls[1]);
    assert(head[1].subrange(0, ascii_of("Content-Type: "@).len() as int) =~= ascii_of(
        "Content-Type: "@,
    ));
    assert(starts_with(head[1], ascii_of("Content-Type: "@)));
    assert(head[1].skip(ascii_of("Content-Type: "@).len() as int) =~= resp.content_type);
    assert(ct_scan(head, 1) == Some(resp.content_type));
    lemma_join_split(resp.content, 13, 10);
    assert(join2(ls.skip(e + 1), 13, 10) == resp.content);
}

} // verus!
