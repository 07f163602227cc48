//! The engine's cross-cutting guarantees, stated and proved once: routing of
//! literal routes, pattern binding, query precedence, and parse determinism.
use crate::bytes::{find1, split1, tokens};
use crate::params::{lemma_map_insert_lookup, lemma_map_insert_wf, map_insert, map_lookup, map_wf,
    ParamEntry};
use crate::request::{add_query_pair, bind_fold, binding_index, extract_params_spec,
    lemma_bind_fold_wf, params_of, path_bindings, pattern_matches, validation_of,
    placeholder, param_name_spec, query_fold, query_of, request_model_of, RequestModel};
use crate::request_type::RequestType;
use crate::routes::{key_index, lemma_key_index, map_keys_wf, RouteKey};
use vstd::prelude::*;

verus! {

/// A literal route wins: in a table without duplicate keys, a request whose
/// method and path are exactly a registered key is routed to that key's own
/// entry, so the router's contract hands back that handler's response, with
/// the request unmodified.
pub proof fn lemma_literal_route_wins(keys: Seq<RouteKey>, m: RequestType, p: Seq<u8>, i: int)
    requires
        map_keys_wf(keys),
        0 <= i < keys.len(),
        keys[i] == (m, p),
    ensures
        key_index(keys, (m, p)) == i,
{
    lemma_key_index(keys, (m, p));
    let ki = key_index(keys, (m, p));
    if ki < i {
        assert(keys[ki] == keys[i]);
        assert(false);
    }
    if ki > i {
        assert(keys[i] != (m, p));
        assert(false);
    }
}

/// Folding entries beyond `i` never touches a name none of them binds.
proof fn lemma_bind_fold_frame(
    rp: Seq<Seq<u8>>,
    pp: Seq<Seq<u8>>,
    i: int,
    m: Seq<ParamEntry>,
    name: Seq<u8>,
)
    requires
        0 <= i <= rp.len(),
        map_wf(m),
        forall|k: int|
            i <= k < rp.len() && placeholder(#[trigger] rp[k]) ==> param_name_spec(rp[k]) != name,
    ensures
        map_lookup(bind_fold(rp, pp, i, m), name) == map_lookup(m, name),
    decreases rp.len() - i,
{
    if i < rp.len() {
        if placeholder(rp[i]) && i < pp.len() {
            lemma_map_insert_lookup(m, param_name_spec(rp[i]), pp[i], name);
            lemma_map_insert_wf(m, param_name_spec(rp[i]), pp[i]);
            lemma_bind_fold_frame(rp, pp, i + 1, map_insert(m, param_name_spec(rp[i]), pp[i]), name);
        } else {
            lemma_bind_fold_frame(rp, pp, i + 1, m, name);
        }
    }
}

/// The value a placeholder binds survives the rest of the fold when no later
/// placeholder reuses its name.
proof fn lemma_bind_fold_lookup(
    rp: Seq<Seq<u8>>,
    pp: Seq<Seq<u8>>,
    i: int,
    m: Seq<ParamEntry>,
    j: int,
)
    requires
        rp.len() == pp.len(),
        0 <= i <= j < rp.len(),
        map_wf(m),
        placeholder(rp[j]),
        forall|k: int|
            j < k < rp.len() && placeholder(#[trigger] rp[k]) ==> param_name_spec(rp[k])
                != param_name_spec(rp[j]),
    ensures
        map_lookup(bind_fold(rp, pp, i, m), param_name_spec(rp[j])) == Some(pp[j]),
    decreases rp.len() - i,
{
    if i == j {
        let m2 = map_insert(m, param_name_spec(rp[j]), pp[j]);
        lemma_map_insert_lookup(m, param_name_spec(rp[j]), pp[j], param_name_spec(rp[j]));
        lemma_map_insert_wf(m, param_name_spec(rp[j]), pp[j]);
        lemma_bind_fold_frame(rp, pp, j + 1, m2, param_name_spec(rp[j]));
    } else {
        if placeholder(rp[i]) {
            lemma_map_insert_wf(m, param_name_spec(rp[i]), pp[i]);
            lemma_bind_fold_lookup(rp, pp, i + 1, map_insert(m, param_name_spec(rp[i]), pp[i]), j);
        } else {
            lemma_bind_fold_lookup(rp, pp, i + 1, m, j);
        }
    }
}

/// Pattern binding: on a matching pattern, every placeholder segment's name
/// is bound to the path segment in its position (the last binding winning
/// when a name repeats).
pub proof fn lemma_pattern_binds_segments(pat: Seq<u8>, path: Seq<u8>, j: int)
    requires
        pattern_matches(split1(pat, 47), split1(path, 47)),
        0 <= j < split1(pat, 47).len(),
        placeholder(split1(pat, 47)[j]),
        forall|k: int|
            j < k < split1(pat, 47).len() && placeholder(#[trigger] split1(pat, 47)[k])
                ==> param_name_spec(split1(pat, 47)[k]) != param_name_spec(split1(pat, 47)[j]),
    ensures
        map_lookup(extract_params_spec(pat, path), param_name_spec(split1(pat, 47)[j])) == Some(
            split1(path, 47)[j],
        ),
{
    lemma_bind_fold_lookup(split1(pat, 47), split1(path, 47), 0, Seq::empty(), j);
}

/// Pattern mismatch: a pattern whose literal segment disagrees with the path
/// in the same position, even at equal segment counts, binds nothing.
pub proof fn lemma_pattern_mismatch_binds_nothing(pat: Seq<u8>, path: Seq<u8>, j: int)
    requires
        0 <= j < split1(pat, 47).len(),
        !placeholder(split1(pat, 47)[j]),
        j < split1(path, 47).len() ==> split1(pat, 47)[j] != split1(path, 47)[j],
    ensures
        extract_params_spec(pat, path) == Seq::<ParamEntry>::empty(),
{
    assert(!pattern_matches(split1(pat, 47), split1(path, 47)));
}

/// Folding query pairs beyond `i` never touches a key none of them carries.
proof fn lemma_query_fold_frame(pairs: Seq<Seq<u8>>, i: int, m: Seq<ParamEntry>, name: Seq<u8>)
    requires
        0 <= i <= pairs.len(),
        map_wf(m),
        forall|u: int|
            i <= u < pairs.len() && find1(#[trigger] pairs[u], 0, 61) < pairs[u].len()
                ==> pairs[u].subrange(0, find1(pairs[u], 0, 61)) != name,
    ensures
        map_lookup(query_fold(pairs, i, m), name) == map_lookup(m, name),
    decreases pairs.len() - i,
{
    if i < pairs.len() {
        let e = find1(pairs[i], 0, 61);
        if e < pairs[i].len() {
            let k = pairs[i].subrange(0, e);
            let v = pairs[i].subrange(e + 1, pairs[i].len() as int);
            lemma_map_insert_lookup(m, k, v, name);
            lemma_map_insert_wf(m, k, v);
        }
        lemma_query_fold_frame(pairs, i + 1, add_query_pair(m, pairs[i]), name);
    }
}

/// The value of a query pair survives the rest of the fold when no later pair
/// carries its key.
proof fn lemma_query_fold_lookup(pairs: Seq<Seq<u8>>, i: int, m: Seq<ParamEntry>, t: int)
    requires
        0 <= i <= t < pairs.len(),
        map_wf(m),
        find1(pairs[t], 0, 61) < pairs[t].len(),
        forall|u: int|
            t < u < pairs.len() && find1(#[trigger] pairs[u], 0, 61) < pairs[u].len()
                ==> pairs[u].subrange(0, find1(pairs[u], 0, 61)) != pairs[t].subrange(
                0,
                find1(pairs[t], 0, 61),
            ),
    ensures
        map_lookup(query_fold(pairs, i, m), pairs[t].subrange(0, find1(pairs[t], 0, 61))) == Some(
            pairs[t].subrange(find1(pairs[t], 0, 61) + 1, pairs[t].len() as int),
        ),
    decreases pairs.len() - i,
{
    let e = find1(pairs[t], 0, 61);
    let k = pairs[t].subrange(0, e);
    let v = pairs[t].subrange(e + 1, pairs[t].len() as int);
    if i == t {
        let m2 = map_insert(m, k, v);
        lemma_map_insert_lookup(m, k, v, k);
        lemma_map_insert_wf(m, k, v);
        lemma_query_fold_frame(pairs, t + 1, m2, k);
    } else {
        let ei = find1(pairs[i], 0, 61);
        if ei < pairs[i].len() {
            lemma_map_insert_wf(
                m,
                pairs[i].subrange(0, ei),
                pairs[i].subrange(ei + 1, pairs[i].len() as int),
            );
        }
        lemma_query_fold_lookup(pairs, i + 1, add_query_pair(m, pairs[i]), t);
    }
}

/// Query parameters always land in `params`, and on a name both a path
/// pattern and the query bind, the query's value is the one looked up:
/// whatever the path patterns seeded, the pair's value wins, provided no
/// later query pair rebinds the same key.
pub proof fn lemma_query_param_wins(raw: Seq<u8>, keys: Seq<RouteKey>, t: int)
    requires
        tokens(raw).len() >= 3,
        query_of(tokens(raw)[1]) is Some,
        0 <= t < split1(query_of(tokens(raw)[1])->Some_0, 38).len(),
        ({
            let pairs = split1(query_of(tokens(raw)[1])->Some_0, 38);
            find1(pairs[t], 0, 61) < pairs[t].len()
        }),
        ({
            let pairs = split1(query_of(tokens(raw)[1])->Some_0, 38);
            forall|u: int|
                t < u < pairs.len() && find1(#[trigger] pairs[u], 0, 61) < pairs[u].len()
                    ==> pairs[u].subrange(0, find1(pairs[u], 0, 61)) != pairs[t].subrange(
                    0,
                    find1(pairs[t], 0, 61),
                )
        }),
    ensures
        ({
            let pairs = split1(query_of(tokens(raw)[1])->Some_0, 38);
            let e = find1(pairs[t], 0, 61);
            map_lookup(params_of(raw, keys), pairs[t].subrange(0, e)) == Some(
                pairs[t].subrange(e + 1, pairs[t].len() as int),
            )
        }),
{
    let rp = tokens(raw)[1];
    let base = path_bindings(keys, crate::request::method_of(raw), crate::request::path_of(rp));
    assert(map_wf(base)) by {
        crate::request::lemma_binding_index(
            keys,
            crate::request::method_of(raw),
            crate::request::path_of(rp),
        );
        let bi = binding_index(keys, crate::request::method_of(raw), crate::request::path_of(rp));
        if bi < keys.len() {
            lemma_bind_fold_wf(
                split1(keys[bi].1, 47),
                split1(crate::request::path_of(rp), 47),
                0,
                Seq::empty(),
            );
        }
    }
    let pairs = split1(query_of(rp)->Some_0, 38);
    lemma_query_fold_lookup(pairs, 0, base, t);
}

/// Path parameters land in the request: when the first matching route's
/// pattern binds a name at segment `j`, no later placeholder of that pattern
/// reuses the name, and no query pair carries it, the parsed request's
/// parameters map that name to exactly the path segment in position `j`.
pub proof fn lemma_path_params_in_request(raw: Seq<u8>, keys: Seq<RouteKey>, j: int)
    requires
        tokens(raw).len() >= 3,
        ({
            let m = crate::request::method_of(raw);
            let p = crate::request::path_of(tokens(raw)[1]);
            let bi = binding_index(keys, m, p);
            &&& bi < keys.len()
            &&& 0 <= j < split1(keys[bi].1, 47).len()
            &&& placeholder(split1(keys[bi].1, 47)[j])
            &&& pattern_matches(split1(keys[bi].1, 47), split1(p, 47))
            &&& (forall|k: int|
                j < k < split1(keys[bi].1, 47).len() && placeholder(
                    #[trigger] split1(keys[bi].1, 47)[k],
                ) ==> param_name_spec(split1(keys[bi].1, 47)[k]) != param_name_spec(
                    split1(keys[bi].1, 47)[j],
                ))
            &&& (query_of(tokens(raw)[1]) matches Some(q) ==> (forall|u: int|
                0 <= u < split1(q, 38).len() && find1(#[trigger] split1(q, 38)[u], 0, 61) < split1(
                    q,
                    38,
                )[u].len() ==> split1(q, 38)[u].subrange(0, find1(split1(q, 38)[u], 0, 61))
                    != param_name_spec(split1(keys[bi].1, 47)[j])))
        }),
    ensures
        ({
            let m = crate::request::method_of(raw);
            let p = crate::request::path_of(tokens(raw)[1]);
            let bi = binding_index(keys, m, p);
            map_lookup(params_of(raw, keys), param_name_spec(split1(keys[bi].1, 47)[j])) == Some(
                split1(p, 47)[j],
            )
        }),
{
    let m = crate::request::method_of(raw);
    let p = crate::request::path_of(tokens(raw)[1]);
    let bi = binding_index(keys, m, p);
    let pat = keys[bi].1;
    let name = param_name_spec(split1(pat, 47)[j]);
    lemma_pattern_binds_segments(pat, p, j);
    let base = path_bindings(keys, m, p);
    assert(base == extract_params_spec(pat, p));
    lemma_bind_fold_wf(split1(pat, 47), split1(p, 47), 0, Seq::empty());
    match query_of(tokens(raw)[1]) {
        Some(q) => {
            lemma_query_fold_frame(split1(q, 38), 0, base, name);
        },
        None => {},
    }
}

/// Parse determinism: equal byte streams parse, against the same registered
/// keys, to field-for-field equal requests. Two connections replaying the
/// same bytes see the same method, path, version, headers, body and
/// parameters.
pub proof fn lemma_parse_idempotent(
    raw: Seq<u8>,
    keys: Seq<RouteKey>,
    a: RequestModel,
    b: RequestModel,
)
    requires
        validation_of(raw) is None,
        a == request_model_of(raw, keys),
        b == request_model_of(raw, keys),
    ensures
        a.method == b.method,
        a.path == b.path,
        a.version == b.version,
        a.headers == b.headers,
        a.body == b.body,
        a.params == b.params,
{
}

} // verus!
