//! Static-file support: the traversal-safe path check, candidate-path
//! building, the content-type table, and the response a file lookup ends in.
use crate::bytes::{ascii_of, bytes_eq, copy_bytes, lit, split1, split1_exec, subvec};
use crate::request::path_of;
use crate::response::{default_response_model, Response, ResponseModel};
use crate::status_code::StatusCode;
use vstd::prelude::*;

verus! {

/// Index of the first byte at or after `i` that is not a slash.
pub open spec fn skip_slashes(s: Seq<u8>, i: int) -> int
    recommends
        0 <= i <= s.len(),
    decreases s.len() - i when 0 <= i <= s.len()
{
    if i >= s.len() {
        s.len() as int
    } else if s[i] == 47 {
        skip_slashes(s, i + 1)
    } else {
        i
    }
}

pub proof fn lemma_skip_slashes_bounds(s: Seq<u8>, i: int)
    requires
        0 <= i <= s.len(),
    ensures
        i <= skip_slashes(s, i) <= s.len(),
    decreases s.len() - i,
{
    if i < s.len() && s[i] == 47 {
        lemma_skip_slashes_bounds(s, i + 1);
    }
}

/// The request path made relative: query string cut off, every leading slash
/// removed.
pub open spec fn clean_rel(req_path: Seq<u8>) -> Seq<u8> {
    let p = path_of(req_path);
    p.subrange(skip_slashes(p, 0), p.len() as int)
}

/// The candidate file path for a request under a base directory: the base,
/// a separator unless the base already ends in one or is empty, then the
/// cleaned relative path.
pub open spec fn candidate_spec(base: Seq<u8>, req_path: Seq<u8>) -> Seq<u8> {
    let rel = clean_rel(req_path);
    if base.len() == 0 {
        rel
    } else if base[base.len() - 1] == 47 {
        base + rel
    } else {
        base + seq![47u8] + rel
    }
}

/// Build the candidate file path for a request under a base directory.
pub fn file_candidate(base: &Vec<u8>, req_path: &Vec<u8>) -> (r: Vec<u8>)
    ensures
        r@ == candidate_spec(base@, req_path@),
{
    proof {
        crate::bytes::lemma_find1_bounds(req_path@, 0, 63);
        lemma_skip_slashes_bounds(path_of(req_path@), 0);
    }
    let q = crate::bytes::find1_exec(req_path, 0, 63);
    let p = subvec(req_path, 0, q);
    let mut a: usize = 0;
    while a < p.len() && p[a] == 47
        invariant
            a <= p.len(),
            p@ == path_of(req_path@),
            skip_slashes(p@, 0) == skip_slashes(p@, a as int),
        decreases p.len() - a,
    {
        a += 1;
    }
    proof {
        assert(skip_slashes(p@, 0) == a as int);
    }
    let mut rel = subvec(&p, a, p.len());
    if base.len() == 0 {
        rel
    } else if base[base.len() - 1] == 47 {
        let mut r = copy_bytes(base);
        r.append(&mut rel);
        r
    } else {
        let mut r = copy_bytes(base);
        r.push(47u8);
        r.append(&mut rel);
        r
    }
}

/// The default index file appended to a directory path.
pub fn append_index(dir: &Vec<u8>) -> (r: Vec<u8>)
    ensures
        r@ == dir@ + seq![47u8] + ascii_of("index.html"@),
{
    proof {
        reveal_strlit("index.html");
    }
    let mut r = copy_bytes(dir);
    r.push(47u8);
    let mut name = lit("index.html");
    r.append(&mut name);
    r
}

/// The traversal defense, on canonical paths: the candidate must be the base
/// itself or extend it at a directory boundary. A byte-wise prefix alone is
/// not enough: nothing under `/basefoo` lies within `/base`.
pub open spec fn within_base(base: Seq<u8>, cand: Seq<u8>) -> bool {
    if base.len() > 0 && base[base.len() - 1] == 47 {
        cand.len() >= base.len() && cand.subrange(0, base.len() as int) == base
    } else {
        cand == base || (cand.len() > base.len() && cand.subrange(0, base.len() as int) == base
            && cand[base.len() as int] == 47)
    }
}

/// Accept a canonical candidate path only when it lies within the canonical
/// base directory. Canonicalization (symlinks and dot-dot segments resolved)
/// must already have happened on both paths; on canonical paths this
/// directory-boundary comparison is the whole traversal defense.
pub fn secure_path(canonical_base: &Vec<u8>, canonical_candidate: &Vec<u8>) -> (r: Option<Vec<u8>>)
    ensures
        match r {
            Some(p) => within_base(canonical_base@, canonical_candidate@) && p@
                == canonical_candidate@,
            None => !within_base(canonical_base@, canonical_candidate@),
        },
{
    let base = canonical_base;
    let cand = canonical_candidate;
    if base.len() > 0 && base[base.len() - 1] == 47 {
        if cand.len() >= base.len() {
            let head = subvec(cand, 0, base.len());
            if bytes_eq(&head, base) {
                return Some(copy_bytes(cand));
            }
        }
        None
    } else {
        if bytes_eq(cand, base) {
            return Some(copy_bytes(cand));
        }
        if cand.len() > base.len() {
            let head = subvec(cand, 0, base.len());
            if bytes_eq(&head, base) && cand[base.len()] == 47 {
                return Some(copy_bytes(cand));
            }
        }
        None
    }
}

/// A candidate that merely extends the base's last name, with no separator in
/// between, is rejected: prefix collisions do not escape the boundary check.
pub proof fn lemma_secure_path_boundary(base: Seq<u8>, cand: Seq<u8>)
    requires
        base.len() > 0,
        base[base.len() - 1] != 47,
        cand.len() > base.len(),
        cand.subrange(0, base.len() as int) == base,
        cand[base.len() as int] != 47,
    ensures
        !within_base(base, cand),
{
}

/// The extension of a file name: whatever follows the last dot; the whole
/// name when it has no dot.
pub open spec fn ext_of(p: Seq<u8>) -> Seq<u8> {
    split1(p, 46).last()
}

/// The content type served for a file extension; the binary fallback for one
/// not in the table.
pub open spec fn content_type_of(ext: Seq<u8>) -> Seq<u8> {
    if ext == ascii_of("png"@) {
        ascii_of("image/png"@)
    } else if ext == ascii_of("jpg"@) || ext == ascii_of("jpeg"@) {
        ascii_of("image/jpeg"@)
    } else if ext == ascii_of("gif"@) {
        ascii_of("image/gif"@)
    } else if ext == ascii_of("bmp"@) {
        ascii_of("image/bmp"@)
    } else if ext == ascii_of("svg"@) {
        ascii_of("image/svg+xml"@)
    } else if ext == ascii_of("webp"@) {
        ascii_of("image/webp"@)
    } else if ext == ascii_of("html"@) {
        ascii_of("text/html"@)
    } else if ext == ascii_of("css"@) {
        ascii_of("text/css"@)
    } else if ext == ascii_of("js"@) {
        ascii_of("application/javascript"@)
    } else if ext == ascii_of("json"@) {
        ascii_of("application/json"@)
    } else if ext == ascii_of("xml"@) {
        ascii_of("application/xml"@)
    } else if ext == ascii_of("pdf"@) {
        ascii_of("application/pdf"@)
    } else if ext == ascii_of("doc"@) || ext == ascii_of("docx"@) {
        ascii_of("application/msword"@)
    } else if ext == ascii_of("xls"@) || ext == ascii_of("xlsx"@) {
        ascii_of("application/vnd.ms-excel"@)
    } else if ext == ascii_of("ppt"@) || ext == ascii_of("pptx"@) {
        ascii_of("application/vnd.ms-powerpoint"@)
    } else if ext == ascii_of("zip"@) {
        ascii_of("application/zip"@)
    } else if ext == ascii_of("rar"@) {
        ascii_of("application/x-rar-compressed"@)
    } else if ext == ascii_of("txt"@) {
        ascii_of("text/plain"@)
    } else if ext == ascii_of("csv"@) {
        ascii_of("text/csv"@)
    } else if ext == ascii_of("mp3"@) {
        ascii_of("audio/mpeg"@)
    } else if ext == ascii_of("wav"@) {
        ascii_of("audio/wav"@)
    } else if ext == ascii_of("mp4"@) {
        ascii_of("video/mp4"@)
    } else if ext == ascii_of("avi"@) {
        ascii_of("video/x-msvideo"@)
    } else if ext == ascii_of("mov"@) {
        ascii_of("video/quicktime"@)
    } else if ext == ascii_of("ogg"@) || ext == ascii_of("oga"@) {
        ascii_of("audio/ogg"@)
    } else if ext == ascii_of("ogv"@) {
        ascii_of("video/ogg"@)
    } else if ext == ascii_of("ico"@) {
        ascii_of("image/x-icon"@)
    } else {
        ascii_of("application/octet-stream"@)
    }
}

/// The content type a file is served with, looked up by its extension.
pub fn get_content_type_quick(path: &Vec<u8>) -> (r: Vec<u8>)
    ensures
        r@ == content_type_of(ext_of(path@)),
{
    proof {
        reveal_strlit("png");
        reveal_strlit("image/png");
        reveal_strlit("jpg");
        reveal_strlit("jpeg");
        reveal_strlit("image/jpeg");
        reveal_strlit("gif");
        reveal_strlit("image/gif");
        reveal_strlit("bmp");
        reveal_strlit("image/bmp");
        reveal_strlit("svg");
        reveal_strlit("image/svg+xml");
        reveal_strlit("webp");
        reveal_strlit("image/webp");
        reveal_strlit("html");
        reveal_strlit("text/html");
        reveal_strlit("css");
        reveal_strlit("text/css");
        reveal_strlit("js");
        reveal_strlit("application/javascript");
        reveal_strlit("json");
        reveal_strlit("application/json");
        reveal_strlit("xml");
        reveal_strlit("application/xml");
        reveal_strlit("pdf");
        reveal_strlit("application/pdf");
        reveal_strlit("doc");
        reveal_strlit("docx");
        reveal_strlit("application/msword");
        reveal_strlit("xls");
        reveal_strlit("xlsx");
        reveal_strlit("application/vnd.ms-excel");
        reveal_strlit("ppt");
        reveal_strlit("pptx");
        reveal_strlit("application/vnd.ms-powerpoint");
        reveal_strlit("zip");
        reveal_strlit("application/zip");
        reveal_strlit("rar");
        reveal_strlit("application/x-rar-compressed");
        reveal_strlit("txt");
        reveal_strlit("text/plain");
        reveal_strlit("csv");
        reveal_strlit("text/csv");
        reveal_strlit("mp3");
        reveal_strlit("audio/mpeg");
        reveal_strlit("wav");
        reveal_strlit("audio/wav");
        reveal_strlit("mp4");
        reveal_strlit("video/mp4");
        reveal_strlit("avi");
        reveal_strlit("video/x-msvideo");
        reveal_strlit("mov");
        reveal_strlit("video/quicktime");
        reveal_strlit("ogg");
        reveal_strlit("oga");
        reveal_strlit("audio/ogg");
        reveal_strlit("ogv");
        reveal_strlit("video/ogg");
        reveal_strlit("ico");
        reveal_strlit("image/x-icon");
        reveal_strlit("application/octet-stream");
    }
    let parts = split1_exec(path, 46);
    proof {
        assert(parts@.len() >= 1);
        assert(parts@[parts@.len() - 1]@ == split1(path@, 46).last());
    }
    let ext = &parts[parts.len() - 1];
    if bytes_eq(ext, &lit("png")) {
        lit("image/png")
    } else if bytes_eq(ext, &lit("jpg")) || bytes_eq(ext, &lit("jpeg")) {
        lit("image/jpeg")
    } else if bytes_eq(ext, &lit("gif")) {
        lit("image/gif")
    } else if bytes_eq(ext, &lit("bmp")) {
        lit("image/bmp")
    } else if bytes_eq(ext, &lit("svg")) {
        lit("image/svg+xml")
    } else if bytes_eq(ext, &lit("webp")) {
        lit("image/webp")
    } else if bytes_eq(ext, &lit("html")) {
        lit("text/html")
    } else if bytes_eq(ext, &lit("css")) {
        lit("text/css")
    } else if bytes_eq(ext, &lit("js")) {
        lit("application/javascript")
    } else if bytes_eq(ext, &lit("json")) {
        lit("application/json")
    } else if bytes_eq(ext, &lit("xml")) {
        lit("application/xml")
    } else if bytes_eq(ext, &lit("pdf")) {
        lit("application/pdf")
    } else if bytes_eq(ext, &lit("doc")) || bytes_eq(ext, &lit("docx")) {
        lit("application/msword")
    } else if bytes_eq(ext, &lit("xls")) || bytes_eq(ext, &lit("xlsx")) {
        lit("application/vnd.ms-excel")
    } else if bytes_eq(ext, &lit("ppt")) || bytes_eq(ext, &lit("pptx")) {
        lit("application/vnd.ms-powerpoint")
    } else if bytes_eq(ext, &lit("zip")) {
        lit("application/zip")
    } else if bytes_eq(ext, &lit("rar")) {
        lit("application/x-rar-compressed")
    } else if bytes_eq(ext, &lit("txt")) {
        lit("text/plain")
    } else if bytes_eq(ext, &lit("csv")) {
        lit("text/csv")
    } else if bytes_eq(ext, &lit("mp3")) {
        lit("audio/mpeg")
    } else if bytes_eq(ext, &lit("wav")) {
        lit("audio/wav")
    } else if bytes_eq(ext, &lit("mp4")) {
        lit("video/mp4")
    } else if bytes_eq(ext, &lit("avi")) {
        lit("video/x-msvideo")
    } else if bytes_eq(ext, &lit("mov")) {
        lit("video/quicktime")
    } else if bytes_eq(ext, &lit("ogg")) || bytes_eq(ext, &lit("oga")) {
        lit("audio/ogg")
    } else if bytes_eq(ext, &lit("ogv")) {
        lit("video/ogg")
    } else if bytes_eq(ext, &lit("ico")) {
        lit("image/x-icon")
    } else {
        lit("application/octet-stream")
    }
}

/// The response a successful file read is served as: OK, the content type of
/// the file's extension, the file's bytes.
pub open spec fn file_response_model(path: Seq<u8>, data: Seq<u8>) -> ResponseModel {
    ResponseModel {
        status: StatusCode::Okay.spec_status_line(),
        content_type: content_type_of(ext_of(path)),
        content: data,
    }
}

/// Wrap freshly read file bytes as a response.
pub fn file_response(path: &Vec<u8>, data: Vec<u8>) -> (r: Response)
    ensures
        r@ == file_response_model(path@, data@),
{
    Response {
        status: StatusCode::Okay.status_line(),
        content_type: get_content_type_quick(path),
        content: data,
    }
}

/// Turn the outcome of the static-file lookup into the response to send: the
/// file's bytes under its content type when a file was read, and the default
/// response when none was. Missing files, unreadable files and paths rejected
/// as unsafe all land in the same default, on purpose: the client learns
/// nothing about why.
pub fn handle_file_request(found: Option<(Vec<u8>, Vec<u8>)>) -> (r: Response)
    ensures
        match found {
            Some(f) => r@ == file_response_model(f.0@, f.1@),
            None => r@ == default_response_model(),
        },
{
    match found {
        Some((path, data)) => file_response(&path, data),
        None => Response::new(),
    }
}

} // verus!
