//! The route table: method and path pattern to handler, insertion order kept,
//! a second registration of the same key replacing the first in place.
use crate::bytes::bytes_eq;
use crate::handler::Handler;
use crate::request_type::RequestType;
use vstd::prelude::*;

verus! {

/// A registered handler for one route.
pub struct RequestHandler<H: Handler> {
    pub handler: H,
}

/// A route key: the method and the path pattern.
pub type RouteKey = (RequestType, Seq<u8>);

/// Index of the first entry with the given key; the length of `ks` when the
/// key is not registered.
pub open spec fn key_index(ks: Seq<RouteKey>, key: RouteKey) -> int
    decreases ks.len(),
{
    if ks.len() == 0 {
        0
    } else if ks[0] == key {
        0
    } else {
        1 + key_index(ks.drop_first(), key)
    }
}

pub proof fn lemma_key_index(ks: Seq<RouteKey>, key: RouteKey)
    ensures
        0 <= key_index(ks, key) <= ks.len(),
        key_index(ks, key) < ks.len() ==> ks[key_index(ks, key)] == key,
        forall|j: int| 0 <= j < key_index(ks, key) ==> ks[j] != key,
    decreases ks.len(),
{
    if ks.len() > 0 && ks[0] != key {
        lemma_key_index(ks.drop_first(), key);
        assert forall|j: int| 0 <= j < key_index(ks, key) implies ks[j] != key by {
            if j > 0 {
                assert(ks[j] == ks.drop_first()[j - 1]);
            }
        }
    }
}

/// Short alias, matching the handler-wrapper name used in registrations.
pub type Rh<H> = RequestHandler<H>;

/// The table of registered routes, in registration order.
pub struct RouteTable<H: Handler> {
    pub entries: Vec<((RequestType, Vec<u8>), RequestHandler<H>)>,
}

impl<H: Handler> RouteTable<H> {
    /// The registered keys, in order.
    pub open spec fn spec_keys(&self) -> Seq<RouteKey> {
        Seq::new(self.entries@.len(), |i: int| (self.entries@[i].0.0, self.entries@[i].0.1@))
    }

    /// No key registered twice.
    pub open spec fn wf(&self) -> bool {
        forall|i: int, j: int|
            0 <= i < j < self.spec_keys().len() ==> self.spec_keys()[i] != self.spec_keys()[j]
    }

    /// The empty table.
    pub fn new() -> (r: RouteTable<H>)
        ensures
            r.spec_keys() == Seq::<RouteKey>::empty(),
            r.wf(),
    {
        let r = RouteTable { entries: Vec::new() };
        proof {
            assert(r.spec_keys() =~= Seq::<RouteKey>::empty());
        }
        r
    }

    /// How many routes are registered.
    pub fn len(&self) -> (r: usize)
        ensures
            r == self.spec_keys().len(),
    {
        self.entries.len()
    }

    /// Register `handler` for the method `rt` on the pattern `path`. A route
    /// already registered under the same key is replaced in place; otherwise
    /// the route is appended.
    pub fn add_route(&mut self, path: Vec<u8>, rt: RequestType, handler: H)
        ensures
            ({
                let ks = old(self).spec_keys();
                let i = key_index(ks, (rt, path@));
                if i < ks.len() {
                    final (self).entries@ == old(self).entries@.update(
                        i,
                        ((rt, path), RequestHandler { handler }),
                    )
                } else {
                    final (self).entries@ == old(self).entries@.push(
                        ((rt, path), RequestHandler { handler }),
                    )
                }
            }),
            old(self).wf() ==> final (self).wf(),
            final (self).spec_keys().len() >= old(self).spec_keys().len(),
    {
        let ghost ks = self.spec_keys();
        let ghost key: RouteKey = (rt, path@);
        proof {
            lemma_key_index(ks, key);
        }
        let ghost s0 = self.entries@;
        let mut i: usize = 0;
        let n = self.entries.len();
        while i < n
            invariant
                key == (rt, path@),
                i <= n,
                n == self.entries@.len(),
                s0 == self.entries@,
                ks == self.spec_keys(),
                ks.len() == n,
                0 <= key_index(ks, key) <= ks.len(),
                key_index(ks, key) < ks.len() ==> ks[key_index(ks, key)] == key,
                forall|j: int| 0 <= j < key_index(ks, key) ==> ks[j] != key,
                forall|j: int| 0 <= j < i ==> ks[j] != key,
                key_index(ks, key) >= i,
            ensures
                s0 == self.entries@,
                ks == self.spec_keys(),
                i <= n,
                n == ks.len(),
                i as int == key_index(ks, key),
            decreases n - i,
        {
            if self.entries[i].0.0 == rt && bytes_eq(&self.entries[i].0.1, &path) {
                proof {
                    assert(ks[i as int] == key);
                    lemma_key_index_stop(ks, key, i as int);
                }
                break ;
            }
            proof {
                assert(ks[i as int] != key);
                lemma_key_index_step(ks, key, i as int);
            }
            i += 1;
        }
        if i < self.entries.len() {
            self.entries.remove(i);
            self.entries.insert(i, ((rt, path), RequestHandler { handler }));
            proof {
                assert(self.entries@ =~= s0.update(
                    i as int,
                    ((rt, path), RequestHandler { handler }),
                ));
                if map_keys_wf(ks) {
                    assert forall|a: int, b: int|
                        0 <= a < b < self.spec_keys().len() implies self.spec_keys()[a]
                        != self.spec_keys()[b] by {
                        assert(self.spec_keys() =~= ks);
                    }
                }
            }
        } else {
            self.entries.push(((rt, path), RequestHandler { handler }));
            proof {
                assert(self.entries@ =~= s0.push(((rt, path), RequestHandler { handler })));
                if map_keys_wf(ks) {
                    assert forall|a: int, b: int|
                        0 <= a < b < self.spec_keys().len() implies self.spec_keys()[a]
                        != self.spec_keys()[b] by {
                        assert(self.spec_keys() =~= ks.push(key));
                        if b == ks.len() as int {
                            assert(self.spec_keys()[a] == ks[a]);
                            assert(ks[a] != key);
                        }
                    }
                }
            }
        }
    }
}

/// No key appears twice.
pub open spec fn map_keys_wf(ks: Seq<RouteKey>) -> bool {
    forall|i: int, j: int| 0 <= i < j < ks.len() ==> ks[i] != ks[j]
}

/// While every key seen differs, the key's index lies further right.
pub proof fn lemma_key_index_step(ks: Seq<RouteKey>, key: RouteKey, p: int)
    requires
        0 <= p < ks.len(),
        forall|j: int| 0 <= j < p ==> ks[j] != key,
        ks[p] != key,
        key_index(ks, key) >= p,
    ensures
        key_index(ks, key) >= p + 1,
    decreases p,
{
    if p == 0 {
        lemma_key_index(ks.drop_first(), key);
    } else {
        assert forall|j: int| 0 <= j < p - 1 implies ks.drop_first()[j] != key by {
            assert(ks.drop_first()[j] == ks[j + 1]);
        }
        assert(ks.drop_first()[p - 1] == ks[p]);
        lemma_key_index(ks.drop_first(), key);
        lemma_key_index_step(ks.drop_first(), key, p - 1);
    }
}

/// At the first equal key, the index is found.
pub proof fn lemma_key_index_stop(ks: Seq<RouteKey>, key: RouteKey, p: int)
    requires
        0 <= p < ks.len(),
        forall|j: int| 0 <= j < p ==> ks[j] != key,
        ks[p] == key,
    ensures
        key_index(ks, key) == p,
    decreases p,
{
    if p > 0 {
        assert forall|j: int| 0 <= j < p - 1 implies ks.drop_first()[j] != key by {
            assert(ks.drop_first()[j] == ks[j + 1]);
        }
        assert(ks.drop_first()[p - 1] == ks[p]);
        lemma_key_index_stop(ks.drop_first(), key, p - 1);
    }
}

} // verus!
