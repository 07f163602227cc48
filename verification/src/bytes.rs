//! Byte-sequence primitives the whole engine is built on: ASCII literals,
//! searching, splitting, whitespace tokenizing and decimal numerals.
use vstd::prelude::*;

verus! {

/// The bytes of an ASCII string, character by character.
pub open spec fn ascii_of(s: Seq<char>) -> Seq<u8> {
    Seq::new(s.len(), |i: int| s[i] as u8)
}

/// An ASCII string literal as a byte vector.
pub fn lit(s: &str) -> (r: Vec<u8>)
    requires
        s.is_ascii(),
    ensures
        r@ == ascii_of(s@),
{
    proof {
        broadcast use vstd::string::is_ascii_spec_bytes;

    }
    let r = s.as_bytes_vec();
    assert(r@ =~= ascii_of(s@));
    r
}

/// True for the ASCII whitespace bytes (tab through carriage return, and space).
pub open spec fn is_ws(b: u8) -> bool {
    b == 32 || (9 <= b && b <= 13)
}

/// ASCII lower-casing of one byte.
pub open spec fn lower(b: u8) -> u8 {
    if 65 <= b && b <= 90 {
        (b + 32) as u8
    } else {
        b
    }
}

/// ASCII lower-casing of a byte sequence.
pub open spec fn lower_seq(s: Seq<u8>) -> Seq<u8> {
    Seq::new(s.len(), |i: int| lower(s[i]))
}

/// Byte-for-byte equality of two vectors.
pub fn bytes_eq(a: &Vec<u8>, b: &Vec<u8>) -> (r: bool)
    ensures
        r == (a@ == b@),
{
    if a.len() != b.len() {
        proof {
            assert(a@.len() != b@.len());
        }
        return false;
    }
    let mut i: usize = 0;
    while i < a.len()
        invariant
            i <= a.len(),
            a@.len() == b@.len(),
            forall|k: int| 0 <= k < i ==> a@[k] == b@[k],
        decreases a.len() - i,
    {
        if a[i] != b[i] {
            return false;
        }
        i += 1;
    }
    proof {
        assert(a@ =~= b@);
    }
    true
}

/// The slice of `v` between `from` and `to`, as a fresh vector.
pub fn subvec(v: &Vec<u8>, from: usize, to: usize) -> (r: Vec<u8>)
    requires
        from <= to <= v.len(),
    ensures
        r@ == v@.subrange(from as int, to as int),
{
    let mut r: Vec<u8> = Vec::new();
    let mut i: usize = from;
    while i < to
        invariant
            from <= i <= to <= v.len(),
            r@ == v@.subrange(from as int, i as int),
        decreases to - i,
    {
        r.push(v[i]);
        proof {
            assert(r@ =~= v@.subrange(from as int, i + 1 as int));
        }
        i += 1;
    }
    r
}

/// A copy of the whole vector.
pub fn copy_bytes(v: &Vec<u8>) -> (r: Vec<u8>)
    ensures
        r@ == v@,
{
    let r = subvec(v, 0, v.len());
    proof {
        assert(v@.subrange(0, v@.len() as int) =~= v@);
    }
    r
}

/// Index of the first occurrence of byte `b` in `s` at or after `i`;
/// the length of `s` when there is none.
pub open spec fn find1(s: Seq<u8>, i: int, b: u8) -> int
    recommends
        0 <= i <= s.len(),
    decreases s.len() - i when 0 <= i <= s.len()
{
    if i >= s.len() {
        s.len() as int
    } else if s[i] == b {
        i
    } else {
        find1(s, i + 1, b)
    }
}

pub proof fn lemma_find1_bounds(s: Seq<u8>, i: int, b: u8)
    requires
        0 <= i <= s.len(),
    ensures
        i <= find1(s, i, b) <= s.len(),
        find1(s, i, b) < s.len() ==> s[find1(s, i, b)] == b,
        forall|k: int| i <= k < find1(s, i, b) ==> s[k] != b,
    decreases s.len() - i,
{
    if i < s.len() && s[i] != b {
        lemma_find1_bounds(s, i + 1, b);
    }
}

/// Executable search for one byte.
pub fn find1_exec(v: &Vec<u8>, from: usize, b: u8) -> (r: usize)
    requires
        from <= v.len(),
    ensures
        r == find1(v@, from as int, b),
{
    let mut i: usize = from;
    while i < v.len()
        invariant
            from <= i <= v.len(),
            find1(v@, from as int, b) == find1(v@, i as int, b),
        decreases v.len() - i,
    {
        if v[i] == b {
            return i;
        }
        i += 1;
    }
    i
}

/// Index of the first occurrence of the two-byte pattern `a b` in `s` at or
/// after `i`; the length of `s` when there is none.
pub open spec fn find2(s: Seq<u8>, i: int, a: u8, b: u8) -> int
    recommends
        0 <= i <= s.len(),
    decreases s.len() - i when 0 <= i <= s.len()
{
    if i + 2 > s.len() {
        s.len() as int
    } else if s[i] == a && s[i + 1] == b {
        i
    } else {
        find2(s, i + 1, a, b)
    }
}

pub proof fn lemma_find2_bounds(s: Seq<u8>, i: int, a: u8, b: u8)
    requires
        0 <= i <= s.len(),
    ensures
        i <= find2(s, i, a, b) <= s.len(),
        find2(s, i, a, b) + 2 <= s.len() ==> s[find2(s, i, a, b)] == a && s[find2(s, i, a, b)
            + 1] == b,
        find2(s, i, a, b) + 2 > s.len() ==> find2(s, i, a, b) == s.len(),
        forall|k: int|
            i <= k < find2(s, i, a, b) && k + 2 <= s.len() ==> !(#[trigger] s[k] == a && s[k + 1]
                == b),
    decreases s.len() - i,
{
    if i + 2 <= s.len() && !(s[i] == a && s[i + 1] == b) {
        lemma_find2_bounds(s, i + 1, a, b);
    }
}

/// Executable search for a two-byte pattern.
pub fn find2_exec(v: &Vec<u8>, from: usize, a: u8, b: u8) -> (r: usize)
    requires
        from <= v.len(),
    ensures
        r == find2(v@, from as int, a, b),
{
    proof {
        lemma_find2_bounds(v@, from as int, a, b);
    }
    if v.len() < 2 || from > v.len() - 2 {
        return v.len();
    }
    let mut i: usize = from;
    while i <= v.len() - 2
        invariant
            v@.len() >= 2,
            from <= i <= v.len() - 1,
            find2(v@, from as int, a, b) == find2(v@, i as int, a, b),
        decreases v.len() - i,
    {
        if v[i] == a && v[i + 1] == b {
            return i;
        }
        i += 1;
    }
    v.len()
}

/// True when `s` contains the blank-line boundary (carriage return, line feed,
/// carriage return, line feed) anywhere.
pub open spec fn has_head_boundary(s: Seq<u8>) -> bool {
    exists|k: int|
        0 <= k && k + 4 <= s.len() && #[trigger] s[k] == 13 && s[k + 1] == 10 && s[k + 2] == 13
            && s[k + 3] == 10
}

/// Executable test for the blank-line boundary.
pub fn has_head_boundary_exec(v: &Vec<u8>) -> (r: bool)
    ensures
        r == has_head_boundary(v@),
{
    if v.len() < 4 {
        return false;
    }
    let mut i: usize = 0;
    while i <= v.len() - 4
        invariant
            v@.len() >= 4,
            i <= v.len() - 3,
            forall|k: int|
                0 <= k < i && k + 4 <= v@.len() ==> !(#[trigger] v@[k] == 13 && v@[k + 1] == 10
                    && v@[k + 2] == 13 && v@[k + 3] == 10),
        decreases v.len() - i,
    {
        if v[i] == 13 && v[i + 1] == 10 && v[i + 2] == 13 && v[i + 3] == 10 {
            return true;
        }
        i += 1;
    }
    false
}

/// The parts of `s` between occurrences of the separator byte `b`.
pub open spec fn split1(s: Seq<u8>, b: u8) -> Seq<Seq<u8>>
    decreases s.len() via split1_dec
{
    let j = find1(s, 0, b);
    if j < s.len() {
        seq![s.subrange(0, j)] + split1(s.subrange(j + 1, s.len() as int), b)
    } else {
        seq![s]
    }
}

#[via_fn]
proof fn split1_dec(s: Seq<u8>, b: u8) {
    lemma_find1_bounds(s, 0, b);
}

/// Executable split on a one-byte separator.
pub fn split1_exec(v: &Vec<u8>, b: u8) -> (r: Vec<Vec<u8>>)
    ensures
        r.deep_view() == split1(v@, b),
        r.len() >= 1,
    decreases v@.len(),
{
    proof {
        lemma_find1_bounds(v@, 0, b);
    }
    let j = find1_exec(v, 0, b);
    if j < v.len() {
        let head = subvec(v, 0, j);
        let tail = subvec(v, j + 1, v.len());
        let mut rest = split1_exec(&tail, b);
        let mut r: Vec<Vec<u8>> = Vec::new();
        r.push(head);
        r.append(&mut rest);
        assert(r.deep_view() =~~= split1(v@, b));
        r
    } else {
        let mut r: Vec<Vec<u8>> = Vec::new();
        r.push(copy_bytes(v));
        assert(r.deep_view() =~~= split1(v@, b));
        r
    }
}

/// The parts of `s` between occurrences of the two-byte separator `a b`.
pub open spec fn split2(s: Seq<u8>, a: u8, b: u8) -> Seq<Seq<u8>>
    decreases s.len() via split2_dec
{
    let j = find2(s, 0, a, b);
    if j + 2 <= s.len() {
        seq![s.subrange(0, j)] + split2(s.subrange(j + 2, s.len() as int), a, b)
    } else {
        seq![s]
    }
}

#[via_fn]
proof fn split2_dec(s: Seq<u8>, a: u8, b: u8) {
    lemma_find2_bounds(s, 0, a, b);
}

/// Executable split on a two-byte separator.
pub fn split2_exec(v: &Vec<u8>, a: u8, b: u8) -> (r: Vec<Vec<u8>>)
    ensures
        r.deep_view() == split2(v@, a, b),
        r.len() >= 1,
    decreases v@.len(),
{
    proof {
        lemma_find2_bounds(v@, 0, a, b);
    }
    let j = find2_exec(v, 0, a, b);
    if v.len() >= 2 && j <= v.len() - 2 {
        let head = subvec(v, 0, j);
        let tail = subvec(v, j + 2, v.len());
        let mut rest = split2_exec(&tail, a, b);
        let mut r: Vec<Vec<u8>> = Vec::new();
        r.push(head);
        r.append(&mut rest);
        assert(r.deep_view() =~~= split2(v@, a, b));
        r
    } else {
        let mut r: Vec<Vec<u8>> = Vec::new();
        r.push(copy_bytes(v));
        assert(r.deep_view() =~~= split2(v@, a, b));
        r
    }
}

/// The parts joined back with the two-byte separator `a b` between them.
pub open spec fn join2(parts: Seq<Seq<u8>>, a: u8, b: u8) -> Seq<u8>
    decreases parts.len(),
{
    if parts.len() == 0 {
        Seq::empty()
    } else if parts.len() == 1 {
        parts[0]
    } else {
        parts[0] + seq![a, b] + join2(parts.drop_first(), a, b)
    }
}

/// Executable join of the parts from index `from` on, with separator `a b`.
pub fn join2_from(parts: &Vec<Vec<u8>>, from: usize, a: u8, b: u8) -> (r: Vec<u8>)
    requires
        from <= parts.len(),
    ensures
        r@ == join2(parts.deep_view().skip(from as int), a, b),
    decreases parts.len() - from,
{
    if from == parts.len() {
        assert(parts.deep_view().skip(from as int) =~= Seq::<Seq<u8>>::empty());
        Vec::new()
    } else if from == parts.len() - 1 {
        let r = copy_bytes(&parts[from]);
        proof {
            assert(parts.deep_view().skip(from as int) =~~= seq![parts@[from as int].deep_view()]);
            assert(r@ =~= parts@[from as int].deep_view());
        }
        r
    } else {
        let mut r = copy_bytes(&parts[from]);
        r.push(a);
        r.push(b);
        let mut rest = join2_from(parts, from + 1, a, b);
        r.append(&mut rest);
        proof {
            let ps = parts.deep_view().skip(from as int);
            assert(ps.drop_first() =~= parts.deep_view().skip(from as int + 1));
            assert(ps.len() >= 2);
            assert(r@ =~= ps[0] + seq![a, b] + join2(ps.drop_first(), a, b));
        }
        r
    }
}

/// Index of the first byte at or after `i` that is not ASCII whitespace;
/// the length of `s` when all of the rest is whitespace.
pub open spec fn skip_ws(s: Seq<u8>, i: int) -> int
    recommends
        0 <= i <= s.len(),
    decreases s.len() - i when 0 <= i <= s.len()
{
    if i >= s.len() {
        s.len() as int
    } else if is_ws(s[i]) {
        skip_ws(s, i + 1)
    } else {
        i
    }
}

pub proof fn lemma_skip_ws_bounds(s: Seq<u8>, i: int)
    requires
        0 <= i <= s.len(),
    ensures
        i <= skip_ws(s, i) <= s.len(),
        skip_ws(s, i) < s.len() ==> !is_ws(s[skip_ws(s, i)]),
        forall|k: int| i <= k < skip_ws(s, i) ==> is_ws(s[k]),
    decreases s.len() - i,
{
    if i < s.len() && is_ws(s[i]) {
        lemma_skip_ws_bounds(s, i + 1);
    }
}

/// Executable whitespace skip.
pub fn skip_ws_exec(v: &Vec<u8>, from: usize) -> (r: usize)
    requires
        from <= v.len(),
    ensures
        r == skip_ws(v@, from as int),
{
    let mut i: usize = from;
    while i < v.len()
        invariant
            from <= i <= v.len(),
            skip_ws(v@, from as int) == skip_ws(v@, i as int),
        decreases v.len() - i,
    {
        if !(v[i] == 32 || (9 <= v[i] && v[i] <= 13)) {
            return i;
        }
        i += 1;
    }
    i
}

/// Index of the first byte at or after `i` that is ASCII whitespace;
/// the length of `s` when the rest is one unbroken token.
pub open spec fn skip_tok(s: Seq<u8>, i: int) -> int
    recommends
        0 <= i <= s.len(),
    decreases s.len() - i when 0 <= i <= s.len()
{
    if i >= s.len() {
        s.len() as int
    } else if !is_ws(s[i]) {
        skip_tok(s, i + 1)
    } else {
        i
    }
}

pub proof fn lemma_skip_tok_bounds(s: Seq<u8>, i: int)
    requires
        0 <= i <= s.len(),
    ensures
        i <= skip_tok(s, i) <= s.len(),
        skip_tok(s, i) < s.len() ==> is_ws(s[skip_tok(s, i)]),
        forall|k: int| i <= k < skip_tok(s, i) ==> !is_ws(s[k]),
        i < s.len() && !is_ws(s[i]) ==> skip_tok(s, i) > i,
    decreases s.len() - i,
{
    if i < s.len() && !is_ws(s[i]) {
        lemma_skip_tok_bounds(s, i + 1);
    }
}

/// Executable token skip.
pub fn skip_tok_exec(v: &Vec<u8>, from: usize) -> (r: usize)
    requires
        from <= v.len(),
    ensures
        r == skip_tok(v@, from as int),
{
    let mut i: usize = from;
    while i < v.len()
        invariant
            from <= i <= v.len(),
            skip_tok(v@, from as int) == skip_tok(v@, i as int),
        decreases v.len() - i,
    {
        if v[i] == 32 || (9 <= v[i] && v[i] <= 13) {
            return i;
        }
        i += 1;
    }
    i
}

/// The whitespace-separated tokens of `s`, starting at index `i`.
pub open spec fn tokens_from(s: Seq<u8>, i: int) -> Seq<Seq<u8>>
    recommends
        0 <= i <= s.len(),
    decreases s.len() - i when 0 <= i <= s.len() via tokens_from_dec
{
    let j = skip_ws(s, i);
    if j >= s.len() {
        Seq::empty()
    } else {
        let k = skip_tok(s, j);
        seq![s.subrange(j, k)] + tokens_from(s, k)
    }
}

#[via_fn]
proof fn tokens_from_dec(s: Seq<u8>, i: int) {
    lemma_skip_ws_bounds(s, i);
    if skip_ws(s, i) < s.len() {
        lemma_skip_tok_bounds(s, skip_ws(s, i));
    }
}

/// The whitespace-separated tokens of `s`.
pub open spec fn tokens(s: Seq<u8>) -> Seq<Seq<u8>> {
    tokens_from(s, 0)
}

/// The first three whitespace-separated tokens, when there are at least three.
pub fn request_line_tokens(v: &Vec<u8>) -> (r: Option<(Vec<u8>, Vec<u8>, Vec<u8>)>)
    ensures
        match r {
            Some(t) => tokens(v@).len() >= 3 && t.0@ == tokens(v@)[0] && t.1@ == tokens(v@)[1]
                && t.2@ == tokens(v@)[2],
            None => tokens(v@).len() < 3,
        },
{
    proof {
        lemma_skip_ws_bounds(v@, 0);
    }
    let j0 = skip_ws_exec(v, 0);
    if j0 == v.len() {
        return None;
    }
    proof {
        lemma_skip_tok_bounds(v@, j0 as int);
    }
    let k0 = skip_tok_exec(v, j0);
    let t0 = subvec(v, j0, k0);
    proof {
        lemma_skip_ws_bounds(v@, k0 as int);
    }
    let j1 = skip_ws_exec(v, k0);
    if j1 == v.len() {
        proof {
            assert(tokens_from(v@, k0 as int) =~= Seq::<Seq<u8>>::empty());
            assert(tokens(v@) =~= seq![t0@]);
        }
        return None;
    }
    proof {
        lemma_skip_tok_bounds(v@, j1 as int);
    }
    let k1 = skip_tok_exec(v, j1);
    let t1 = subvec(v, j1, k1);
    proof {
        lemma_skip_ws_bounds(v@, k1 as int);
    }
    let j2 = skip_ws_exec(v, k1);
    if j2 == v.len() {
        proof {
            assert(tokens_from(v@, k1 as int) =~= Seq::<Seq<u8>>::empty());
            assert(tokens_from(v@, k0 as int) =~= seq![t1@]);
            assert(tokens(v@) =~= seq![t0@, t1@]);
        }
        return None;
    }
    proof {
        lemma_skip_tok_bounds(v@, j2 as int);
    }
    let k2 = skip_tok_exec(v, j2);
    let t2 = subvec(v, j2, k2);
    proof {
        assert(tokens_from(v@, k1 as int) =~= seq![t2@] + tokens_from(v@, k2 as int));
        assert(tokens_from(v@, k0 as int) =~= seq![t1@] + tokens_from(v@, k1 as int));
        assert(tokens(v@) =~= seq![t0@] + tokens_from(v@, k0 as int));
        assert(tokens(v@)[0] == t0@);
        assert(tokens(v@)[1] == t1@);
        assert(tokens(v@)[2] == t2@);
    }
    Some((t0, t1, t2))
}

/// True when every byte of `s` is ASCII whitespace.
pub open spec fn all_ws(s: Seq<u8>) -> bool {
    forall|k: int| 0 <= k < s.len() ==> is_ws(#[trigger] s[k])
}

/// Executable test that a sequence is nothing but whitespace.
pub fn all_ws_exec(v: &Vec<u8>) -> (r: bool)
    ensures
        r == all_ws(v@),
{
    proof {
        lemma_skip_ws_bounds(v@, 0);
    }
    let j = skip_ws_exec(v, 0);
    j == v.len()
}

/// Index one past the last byte of `s` that is not whitespace; zero when all of
/// `s` is whitespace.
pub open spec fn end_trim(s: Seq<u8>) -> int
    decreases s.len(),
{
    if s.len() == 0 {
        0
    } else if is_ws(s.last()) {
        end_trim(s.drop_last())
    } else {
        s.len() as int
    }
}

pub proof fn lemma_end_trim(s: Seq<u8>)
    ensures
        0 <= end_trim(s) <= s.len(),
        end_trim(s) > 0 ==> !is_ws(s[end_trim(s) - 1]),
        forall|k: int| end_trim(s) <= k < s.len() ==> is_ws(#[trigger] s[k]),
    decreases s.len(),
{
    if s.len() > 0 && is_ws(s.last()) {
        lemma_end_trim(s.drop_last());
        assert forall|k: int| end_trim(s) <= k < s.len() implies is_ws(#[trigger] s[k]) by {
            if k < s.len() - 1 {
                assert(s[k] == s.drop_last()[k]);
            }
        }
    }
}

/// `s` with leading and trailing ASCII whitespace removed.
pub open spec fn trim_ws(s: Seq<u8>) -> Seq<u8> {
    let a = skip_ws(s, 0);
    let e = end_trim(s);
    if a <= e {
        s.subrange(a, e)
    } else {
        Seq::empty()
    }
}

/// Executable trim of leading and trailing whitespace.
pub fn trim_ws_exec(v: &Vec<u8>) -> (r: Vec<u8>)
    ensures
        r@ == trim_ws(v@),
{
    proof {
        lemma_skip_ws_bounds(v@, 0);
        lemma_end_trim(v@);
    }
    let a = skip_ws_exec(v, 0);
    let mut e: usize = v.len();
    proof {
        assert(v@.subrange(0, v@.len() as int) =~= v@);
    }
    while e > 0 && (v[e - 1] == 32 || (9 <= v[e - 1] && v[e - 1] <= 13))
        invariant
            e <= v.len(),
            end_trim(v@) == end_trim(v@.subrange(0, e as int)),
        decreases e,
    {
        proof {
            assert(v@.subrange(0, e as int).drop_last() =~= v@.subrange(0, e - 1 as int));
        }
        e -= 1;
    }
    proof {
        if e > 0 {
            assert(v@.subrange(0, e as int).last() == v@[e - 1]);
        }
        assert(end_trim(v@.subrange(0, e as int)) == e as int);
    }
    if a > e {
        return Vec::new();
    }
    subvec(v, a, e)
}

/// True for an ASCII decimal digit.
pub open spec fn is_digit(b: u8) -> bool {
    48 <= b && b <= 57
}

/// The value of a sequence of decimal digits, most significant first.
pub open spec fn dec_val(s: Seq<u8>) -> int
    decreases s.len(),
{
    if s.len() == 0 {
        0
    } else {
        dec_val(s.drop_last()) * 10 + (s.last() - 48)
    }
}

pub proof fn lemma_dec_val_nonneg(s: Seq<u8>)
    requires
        forall|k: int| 0 <= k < s.len() ==> is_digit(#[trigger] s[k]),
    ensures
        dec_val(s) >= 0,
    decreases s.len(),
{
    if s.len() > 0 {
        lemma_dec_val_nonneg(s.drop_last());
    }
}

pub proof fn lemma_dec_val_prefix(s: Seq<u8>, j: int)
    requires
        forall|k: int| 0 <= k < s.len() ==> is_digit(#[trigger] s[k]),
        0 <= j <= s.len(),
    ensures
        dec_val(s.subrange(0, j)) <= dec_val(s),
    decreases s.len() - j,
{
    if j < s.len() {
        lemma_dec_val_prefix(s, j + 1);
        let p = s.subrange(0, j + 1);
        assert(p.drop_last() =~= s.subrange(0, j));
        lemma_dec_val_nonneg(s.subrange(0, j));
        assert(dec_val(s.subrange(0, j)) <= dec_val(p));
    } else {
        assert(s.subrange(0, j) =~= s);
    }
}

/// The number denoted by a sequence of decimal digits; nothing when `t` is
/// empty or holds a byte that is not a digit.
pub open spec fn parse_udec(t: Seq<u8>) -> Option<int> {
    if t.len() > 0 && (forall|k: int| 0 <= k < t.len() ==> is_digit(#[trigger] t[k])) {
        Some(dec_val(t))
    } else {
        None
    }
}

/// The number denoted by `s` read as an unsigned decimal numeral with an
/// optional leading plus sign; nothing when `s` is not such a numeral.
pub open spec fn parse_dec(s: Seq<u8>) -> Option<int> {
    if s.len() > 0 && s[0] == 43 {
        parse_udec(s.drop_first())
    } else {
        parse_udec(s)
    }
}

/// Executable decimal parse; `None` both for ill-formed numerals and for
/// values that do not fit in `usize`.
pub fn parse_dec_exec(v: &Vec<u8>) -> (r: Option<usize>)
    ensures
        match r {
            Some(n) => parse_dec(v@) == Some(n as int),
            None => parse_dec(v@) is None || (parse_dec(v@) matches Some(m) && m > usize::MAX),
        },
{
    let start: usize = if v.len() > 0 && v[0] == 43 {
        1
    } else {
        0
    };
    let ghost t = if v@.len() > 0 && v@[0] == 43 {
        v@.drop_first()
    } else {
        v@
    };
    proof {
        assert(t =~= v@.subrange(start as int, v@.len() as int));
    }
    if start == v.len() {
        return None;
    }
    let mut n: usize = 0;
    let mut i: usize = start;
    while i < v.len()
        invariant
            start <= i <= v.len(),
            start < v.len(),
            start <= 1,
            start == 1 <==> v@.len() > 0 && v@[0] == 43,
            t == v@.subrange(start as int, v@.len() as int),
            t == (if v@.len() > 0 && v@[0] == 43 {
                v@.drop_first()
            } else {
                v@
            }),
            forall|k: int| 0 <= k < i - start ==> is_digit(#[trigger] t[k]),
            n as int == dec_val(t.subrange(0, i - start)),
        decreases v.len() - i,
    {
        let b = v[i];
        if b < 48 || b > 57 {
            proof {
                assert(!is_digit(t[i - start]));
                assert(parse_udec(t) is None);
            }
            return None;
        }
        let d: usize = (b - 48) as usize;
        proof {
            assert(t.subrange(0, i - start + 1).drop_last() =~= t.subrange(0, i - start));
        }
        if n > (usize::MAX - d) / 10 {
            proof {
                let full = t.subrange(0, i - start + 1);
                assert(is_digit(t[i - start]));
                assert(dec_val(full) == n as int * 10 + d);
                assert(n as int * 10 + d > usize::MAX) by (nonlinear_arith)
                    requires
                        n as int > (usize::MAX as int - d) / 10,
                        0 <= d <= 9,
                ;
                if parse_udec(t) is Some {
                    assert(forall|k: int| 0 <= k < t.len() ==> is_digit(#[trigger] t[k]));
                    lemma_dec_val_prefix(t, i - start + 1);
                    assert(parse_udec(t) == Some(dec_val(t)));
                }
            }
            return None;
        }
        n = n * 10 + d;
        i += 1;
    }
    proof {
        assert(t.subrange(0, t.len() as int) =~= t);
    }
    Some(n)
}

/// The decimal numeral of a nonnegative number, most significant digit first.
pub open spec fn dec_of(n: int) -> Seq<u8>
    recommends
        n >= 0,
    decreases n,
{
    if n < 10 {
        seq![(48 + if n >= 0 {
            n
        } else {
            0
        }) as u8]
    } else {
        dec_of(n / 10) + seq![(48 + n % 10) as u8]
    }
}

/// Executable decimal rendering.
pub fn dec_of_exec(n: usize) -> (r: Vec<u8>)
    ensures
        r@ == dec_of(n as int),
    decreases n,
{
    if n < 10 {
        let mut r: Vec<u8> = Vec::new();
        r.push((48 + n) as u8);
        assert(r@ =~= dec_of(n as int));
        r
    } else {
        let mut r = dec_of_exec(n / 10);
        r.push((48 + n % 10) as u8);
        assert(r@ =~= dec_of(n as int));
        r
    }
}

pub proof fn lemma_dec_of_digits(n: int)
    requires
        n >= 0,
    ensures
        dec_of(n).len() >= 1,
        forall|k: int| 0 <= k < dec_of(n).len() ==> is_digit(#[trigger] dec_of(n)[k]),
    decreases n,
{
    if n >= 10 {
        lemma_dec_of_digits(n / 10);
    }
}

/// Strict lexicographic order on byte sequences.
pub open spec fn lex_lt(a: Seq<u8>, b: Seq<u8>) -> bool
    decreases a.len(),
{
    b.len() > 0 && (a.len() == 0 || a[0] < b[0] || (a[0] == b[0] && lex_lt(
        a.drop_first(),
        b.drop_first(),
    )))
}

pub proof fn lemma_lex_irreflexive(a: Seq<u8>)
    ensures
        !lex_lt(a, a),
    decreases a.len(),
{
    if a.len() > 0 {
        lemma_lex_irreflexive(a.drop_first());
    }
}

pub proof fn lemma_lex_connected(a: Seq<u8>, b: Seq<u8>)
    requires
        !lex_lt(a, b),
        !lex_lt(b, a),
    ensures
        a == b,
    decreases a.len(),
{
    if a.len() == 0 || b.len() == 0 {
        assert(a =~= b);
    } else {
        lemma_lex_connected(a.drop_first(), b.drop_first());
        assert(a =~= seq![a[0]] + a.drop_first());
        assert(b =~= seq![b[0]] + b.drop_first());
    }
}

pub proof fn lemma_lex_transitive(a: Seq<u8>, b: Seq<u8>, c: Seq<u8>)
    requires
        lex_lt(a, b),
        lex_lt(b, c),
    ensures
        lex_lt(a, c),
    decreases a.len(),
{
    if a.len() > 0 && b.len() > 0 && c.len() > 0 && a[0] == b[0] && b[0] == c[0] {
        lemma_lex_transitive(a.drop_first(), b.drop_first(), c.drop_first());
    }
}

/// Executable strict lexicographic comparison.
pub fn lex_lt_exec(a: &Vec<u8>, b: &Vec<u8>) -> (r: bool)
    ensures
        r == lex_lt(a@, b@),
{
    proof {
        assert(a@.skip(0) =~= a@);
        assert(b@.skip(0) =~= b@);
    }
    let mut i: usize = 0;
    while i < a.len() && i < b.len()
        invariant
            i <= a.len(),
            i <= b.len(),
            lex_lt(a@, b@) == lex_lt(a@.skip(i as int), b@.skip(i as int)),
        decreases a.len() - i,
    {
        if a[i] < b[i] {
            proof {
                assert(a@.skip(i as int)[0] == a@[i as int]);
            }
            return true;
        }
        if a[i] > b[i] {
            return false;
        }
        proof {
            assert(a@.skip(i as int).drop_first() =~= a@.skip(i + 1));
            assert(b@.skip(i as int).drop_first() =~= b@.skip(i + 1));
        }
        i += 1;
    }
    a.len() < b.len()
}

/// Executable ASCII lower-casing of a whole vector.
pub fn lower_vec(v: &Vec<u8>) -> (r: Vec<u8>)
    ensures
        r@ == lower_seq(v@),
{
    let mut r: Vec<u8> = Vec::new();
    let mut i: usize = 0;
    while i < v.len()
        invariant
            i <= v.len(),
            r@ =~= lower_seq(v@).subrange(0, i as int),
        decreases v.len() - i,
    {
        let b = v[i];
        if 65 <= b && b <= 90 {
            r.push(b + 32);
        } else {
            r.push(b);
        }
        proof {
            assert(r@ =~= lower_seq(v@).subrange(0, i + 1 as int));
        }
        i += 1;
    }
    proof {
        assert(lower_seq(v@).subrange(0, v@.len() as int) =~= lower_seq(v@));
    }
    r
}

/// True when `s` opens with `pre`.
pub open spec fn starts_with(s: Seq<u8>, pre: Seq<u8>) -> bool {
    s.len() >= pre.len() && s.subrange(0, pre.len() as int) == pre
}

/// Executable prefix test.
pub fn starts_with_exec(v: &Vec<u8>, pre: &Vec<u8>) -> (r: bool)
    ensures
        r == starts_with(v@, pre@),
{
    if v.len() < pre.len() {
        return false;
    }
    let head = subvec(v, 0, pre.len());
    bytes_eq(&head, pre)
}

/// `find2` finds exactly a pattern position that nothing precedes.
pub proof fn lemma_find2_at(s: Seq<u8>, i: int, j: int, a: u8, b: u8)
    requires
        0 <= i <= j,
        j + 2 <= s.len(),
        s[j] == a && s[j + 1] == b,
        forall|k: int| i <= k < j ==> !(#[trigger] s[k] == a && s[k + 1] == b),
    ensures
        find2(s, i, a, b) == j,
    decreases j - i,
{
    if i < j {
        lemma_find2_at(s, i + 1, j, a, b);
    }
}

/// Splitting after one separator whose left part holds no separator peels
/// exactly that part off.
pub proof fn lemma_split2_prefix(pre: Seq<u8>, rest: Seq<u8>, a: u8, b: u8)
    requires
        a != b,
        forall|k: int| 0 <= k && k + 2 <= pre.len() ==> !(#[trigger] pre[k] == a && pre[k + 1] == b),
    ensures
        split2(pre + seq![a, b] + rest, a, b) == seq![pre] + split2(rest, a, b),
{
    let s = pre + seq![a, b] + rest;
    assert(s[pre.len() as int] == a && s[pre.len() as int + 1] == b);
    assert forall|k: int| 0 <= k < pre.len() implies !(#[trigger] s[k] == a && s[k + 1] == b) by {
        if k + 2 <= pre.len() {
            assert(s[k] == pre[k] && s[k + 1] == pre[k + 1]);
        } else {
            assert(k == pre.len() - 1);
            assert(s[k + 1] == a);
        }
    }
    lemma_find2_at(s, 0, pre.len() as int, a, b);
    assert(s.subrange(0, pre.len() as int) =~= pre);
    assert(s.subrange(pre.len() as int + 2, s.len() as int) =~= rest);
    assert(split2(s, a, b) =~= seq![pre] + split2(rest, a, b));
}

/// Joining the parts of a split restores the original bytes.
pub proof fn lemma_join_split(x: Seq<u8>, a: u8, b: u8)
    ensures
        join2(split2(x, a, b), a, b) == x,
    decreases x.len(),
{
    lemma_find2_bounds(x, 0, a, b);
    let j = find2(x, 0, a, b);
    if j + 2 <= x.len() {
        let tail = x.subrange(j + 2, x.len() as int);
        lemma_join_split(tail, a, b);
        assert(split2(x, a, b).drop_first() =~= split2(tail, a, b));
        assert(split2(tail, a, b).len() >= 1);
        assert(join2(split2(x, a, b), a, b) == x.subrange(0, j) + seq![a, b] + join2(
            split2(tail, a, b),
            a,
            b,
        ));
        assert(x.subrange(0, j) + seq![a, b] + tail =~= x);
    }
}

} // verus!
