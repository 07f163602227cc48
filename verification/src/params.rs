//! The parameter map carried by a request: names to values, keys unique and
//! kept in lexicographic order, a later insertion overwriting an earlier one.
use crate::bytes::{bytes_eq, copy_bytes, lemma_lex_connected, lemma_lex_irreflexive,
    lemma_lex_transitive, lex_lt, lex_lt_exec};
use vstd::prelude::*;

verus! {

/// One entry of the map, as sequences.
pub type ParamEntry = (Seq<u8>, Seq<u8>);

/// Index of the first entry whose key is not below `k`; the length of `s`
/// when every key is below `k`.
pub open spec fn insert_pos(s: Seq<ParamEntry>, k: Seq<u8>) -> int
    decreases s.len(),
{
    if s.len() == 0 {
        0
    } else if lex_lt(s[0].0, k) {
        1 + insert_pos(s.drop_first(), k)
    } else {
        0
    }
}

pub proof fn lemma_insert_pos(s: Seq<ParamEntry>, k: Seq<u8>)
    ensures
        0 <= insert_pos(s, k) <= s.len(),
        forall|j: int| 0 <= j < insert_pos(s, k) ==> lex_lt(#[trigger] s[j].0, k),
        insert_pos(s, k) < s.len() ==> !lex_lt(s[insert_pos(s, k)].0, k),
    decreases s.len(),
{
    if s.len() > 0 && lex_lt(s[0].0, k) {
        lemma_insert_pos(s.drop_first(), k);
        assert forall|j: int| 0 <= j < insert_pos(s, k) implies lex_lt(#[trigger] s[j].0, k) by {
            if j > 0 {
                assert(s[j] == s.drop_first()[j - 1]);
            }
        }
    }
}

/// The map after binding `k` to `v`: overwrite in place when `k` is present,
/// insert at its ordered position when it is not.
pub open spec fn map_insert(s: Seq<ParamEntry>, k: Seq<u8>, v: Seq<u8>) -> Seq<ParamEntry> {
    let p = insert_pos(s, k);
    if p < s.len() && s[p].0 == k {
        s.update(p, (k, v))
    } else {
        s.insert(p, (k, v))
    }
}

/// The value bound to `k`, if any.
pub open spec fn map_lookup(s: Seq<ParamEntry>, k: Seq<u8>) -> Option<Seq<u8>>
    decreases s.len(),
{
    if s.len() == 0 {
        None
    } else if s[0].0 == k {
        Some(s[0].1)
    } else {
        map_lookup(s.drop_first(), k)
    }
}

/// Keys strictly increasing: sorted, and therefore unique.
pub open spec fn map_wf(s: Seq<ParamEntry>) -> bool {
    forall|i: int, j: int| 0 <= i < j < s.len() ==> lex_lt(#[trigger] s[i].0, #[trigger] s[j].0)
}

/// Inserting preserves order and uniqueness.
pub proof fn lemma_map_insert_wf(s: Seq<ParamEntry>, k: Seq<u8>, v: Seq<u8>)
    requires
        map_wf(s),
    ensures
        map_wf(map_insert(s, k, v)),
{
    lemma_insert_pos(s, k);
    let p = insert_pos(s, k);
    let r = map_insert(s, k, v);
    if p < s.len() && s[p].0 == k {
        assert forall|i: int, j: int| 0 <= i < j < r.len() implies lex_lt(
            #[trigger] r[i].0,
            #[trigger] r[j].0,
        ) by {
            assert(lex_lt(s[i].0, s[j].0));
        }
    } else {
        if p < s.len() && !lex_lt(k, s[p].0) {
            lemma_lex_connected(s[p].0, k);
            assert(false);
        }
        assert forall|i: int, j: int| 0 <= i < j < r.len() implies lex_lt(
            #[trigger] r[i].0,
            #[trigger] r[j].0,
        ) by {
            if i < p && j == p {
            } else if i == p && j > p {
                assert(r[j].0 == s[j - 1].0);
                if j - 1 > p {
                    assert(lex_lt(s[p].0, s[j - 1].0));
                    lemma_lex_transitive(k, s[p].0, s[j - 1].0);
                }
            } else if i < p && j > p {
                assert(r[i].0 == s[i].0 && r[j].0 == s[j - 1].0);
                assert(lex_lt(s[i].0, s[j - 1].0));
            } else if i > p && j > p {
                assert(r[i].0 == s[i - 1].0 && r[j].0 == s[j - 1].0);
            } else if i < p && j < p {
                assert(r[i].0 == s[i].0 && r[j].0 == s[j].0);
            } else if i == p {
            } else {
                assert(j == p && i < p);
            }
        }
    }
}

/// After an insert, looking the key up gives the new value, and every other
/// key is untouched.
pub proof fn lemma_map_insert_lookup(s: Seq<ParamEntry>, k: Seq<u8>, v: Seq<u8>, q: Seq<u8>)
    requires
        map_wf(s),
    ensures
        map_lookup(map_insert(s, k, v), k) == Some(v),
        q != k ==> map_lookup(map_insert(s, k, v), q) == map_lookup(s, q),
{
    lemma_insert_pos(s, k);
    lemma_map_insert_wf(s, k, v);
    let p = insert_pos(s, k);
    let r = map_insert(s, k, v);
    if p < s.len() && s[p].0 == k {
        lemma_lookup_at(r, k, p);
        if q != k {
            lemma_lookup_frame(s, r, q, p);
        }
    } else {
        if p < s.len() && !lex_lt(k, s[p].0) {
            lemma_lex_connected(s[p].0, k);
            assert(false);
        }
        assert(r[p] == (k, v));
        lemma_lookup_at(r, k, p);
        if q != k {
            lemma_lookup_frame_ins(s, r, q, p);
        }
    }
}

/// With sorted unique keys, a lookup finds exactly the entry at the key's
/// position.
proof fn lemma_lookup_at(r: Seq<ParamEntry>, k: Seq<u8>, p: int)
    requires
        0 <= p < r.len(),
        r[p].0 == k,
        map_wf(r),
    ensures
        map_lookup(r, k) == Some(r[p].1),
    decreases r.len(),
{
    if p == 0 {
    } else {
        assert(lex_lt(r[0].0, r[p].0));
        lemma_lex_irreflexive(k);
        assert(r.drop_first()[p - 1] == r[p]);
        assert(map_wf(r.drop_first())) by {
            assert forall|i: int, j: int| 0 <= i < j < r.drop_first().len() implies lex_lt(
                #[trigger] r.drop_first()[i].0,
                #[trigger] r.drop_first()[j].0,
            ) by {
                assert(r.drop_first()[i] == r[i + 1] && r.drop_first()[j] == r[j + 1]);
            }
        }
        lemma_lookup_at(r.drop_first(), k, p - 1);
    }
}

/// A lookup of `q` ignores a change at a position holding a different key.
proof fn lemma_lookup_frame(s: Seq<ParamEntry>, r: Seq<ParamEntry>, q: Seq<u8>, p: int)
    requires
        s.len() == r.len(),
        0 <= p < s.len(),
        forall|i: int| 0 <= i < s.len() && i != p ==> s[i] == #[trigger] r[i],
        s[p].0 == r[p].0,
        s[p].0 != q,
    ensures
        map_lookup(r, q) == map_lookup(s, q),
    decreases s.len(),
{
    if s.len() > 0 {
        if p == 0 {
            assert(s.drop_first() =~= r.drop_first());
        } else {
            assert(s[0] == r[0]);
            if s[0].0 != q {
                assert forall|i: int|
                    0 <= i < s.drop_first().len() && i != p - 1 implies s.drop_first()[i]
                    == #[trigger] r.drop_first()[i] by {
                    assert(s.drop_first()[i] == s[i + 1] && r.drop_first()[i] == r[i + 1]);
                }
                assert(s.drop_first()[p - 1] == s[p] && r.drop_first()[p - 1] == r[p]);
                lemma_lookup_frame(s.drop_first(), r.drop_first(), q, p - 1);
            }
        }
    }
}

/// A lookup of `q` ignores an entry with another key inserted anywhere.
proof fn lemma_lookup_frame_ins(s: Seq<ParamEntry>, r: Seq<ParamEntry>, q: Seq<u8>, p: int)
    requires
        0 <= p <= s.len(),
        r == s.insert(p, (r[p].0, r[p].1)),
        r.len() == s.len() + 1,
        r[p].0 != q,
    ensures
        map_lookup(r, q) == map_lookup(s, q),
    decreases s.len(),
{
    if p == 0 {
        assert(r.drop_first() =~= s);
    } else {
        assert(r[0] == s[0]);
        if s[0].0 != q {
            assert(r.drop_first() =~= s.drop_first().insert(p - 1, (r[p].0, r[p].1)));
            assert(r.drop_first()[p - 1] == r[p]);
            lemma_lookup_frame_ins(s.drop_first(), r.drop_first(), q, p - 1);
        }
    }
}

/// The parameter map: names to values, keys unique, held in lexicographic
/// key order so that every run and every walk of the map agree.
pub struct ParamMap {
    pub entries: Vec<(Vec<u8>, Vec<u8>)>,
}

impl View for ParamMap {
    type V = Seq<ParamEntry>;

    open spec fn view(&self) -> Seq<ParamEntry> {
        Seq::new(self.entries@.len(), |i: int| (self.entries@[i].0@, self.entries@[i].1@))
    }
}

impl ParamMap {
    /// Keys strictly increasing.
    pub open spec fn wf(&self) -> bool {
        map_wf(self@)
    }

    /// The empty map.
    pub fn new() -> (r: ParamMap)
        ensures
            r@ == Seq::<ParamEntry>::empty(),
            r.wf(),
    {
        let r = ParamMap { entries: Vec::new() };
        proof {
            assert(r@ =~= Seq::<ParamEntry>::empty());
        }
        r
    }

    /// How many entries the map holds.
    pub fn len(&self) -> (r: usize)
        ensures
            r == self@.len(),
    {
        self.entries.len()
    }

    /// The key of the entry at position `i`.
    pub fn key_at(&self, i: usize) -> (r: Vec<u8>)
        requires
            i < self@.len(),
        ensures
            r@ == self@[i as int].0,
    {
        copy_bytes(&self.entries[i].0)
    }

    /// The value of the entry at position `i`.
    pub fn value_at(&self, i: usize) -> (r: Vec<u8>)
        requires
            i < self@.len(),
        ensures
            r@ == self@[i as int].1,
    {
        copy_bytes(&self.entries[i].1)
    }

    /// The value bound to `k`, if any.
    pub fn get(&self, k: &Vec<u8>) -> (r: Option<Vec<u8>>)
        ensures
            match r {
                Some(v) => map_lookup(self@, k@) == Some(v@),
                None => map_lookup(self@, k@) is None,
            },
    {
        proof {
            assert(self@.skip(0) =~= self@);
        }
        let mut i: usize = 0;
        while i < self.entries.len()
            invariant
                i <= self@.len(),
                self@.len() == self.entries@.len(),
                map_lookup(self@, k@) == map_lookup(self@.skip(i as int), k@),
            decreases self@.len() - i,
        {
            proof {
                assert(self@.skip(i as int)[0] == self@[i as int]);
                assert(self@.skip(i as int).drop_first() =~= self@.skip(i + 1));
            }
            if bytes_eq(&self.entries[i].0, k) {
                return Some(copy_bytes(&self.entries[i].1));
            }
            i += 1;
        }
        proof {
            assert(self@.skip(i as int) =~= Seq::<ParamEntry>::empty());
        }
        None
    }

    /// Bind `k` to `v`, overwriting any earlier binding of `k`.
    pub fn insert(&mut self, k: Vec<u8>, v: Vec<u8>)
        ensures
            final(self)@ == map_insert(old(self)@, k@, v@),
            old(self).wf() ==> final(self).wf(),
    {
        proof {
            lemma_insert_pos(self@, k@);
            if old(self).wf() {
                lemma_map_insert_wf(self@, k@, v@);
            }
        }
        let ghost s = self@;
        let mut p: usize = 0;
        while p < self.entries.len()
            invariant
                p <= self.entries@.len(),
                s == self@,
                self@.len() == self.entries@.len(),
                0 <= insert_pos(s, k@) <= s.len(),
                forall|j: int| 0 <= j < p ==> lex_lt(#[trigger] s[j].0, k@),
                insert_pos(s, k@) >= p,
            ensures
                s == self@,
                self@.len() == self.entries@.len(),
                p as int == insert_pos(s, k@),
            decreases self.entries@.len() - p,
        {
            if !lex_lt_exec(&self.entries[p].0, &k) {
                proof {
                    lemma_insert_pos_stop(s, k@, p as int);
                }
                break ;
            }
            proof {
                lemma_insert_pos_step(s, k@, p as int);
            }
            p += 1;
        }
        if p < self.entries.len() && bytes_eq(&self.entries[p].0, &k) {
            self.entries.remove(p);
            self.entries.insert(p, (k, v));
            proof {
                assert(self@ =~= map_insert(s, k@, v@));
            }
        } else {
            self.entries.insert(p, (k, v));
            proof {
                assert(self@ =~= map_insert(s, k@, v@));
            }
        }
    }
}

/// While every key seen so far is below `k`, the insert position lies further
/// right.
proof fn lemma_insert_pos_step(s: Seq<ParamEntry>, k: Seq<u8>, p: int)
    requires
        0 <= p < s.len(),
        forall|j: int| 0 <= j < p ==> lex_lt(#[trigger] s[j].0, k),
        lex_lt(s[p].0, k),
    ensures
        insert_pos(s, k) >= p + 1,
    decreases p,
{
    if p == 0 {
        lemma_insert_pos(s.drop_first(), k);
    } else {
        assert forall|j: int| 0 <= j < p - 1 implies lex_lt(
            #[trigger] s.drop_first()[j].0,
            k,
        ) by {
            assert(s.drop_first()[j] == s[j + 1]);
        }
        assert(s.drop_first()[p - 1] == s[p]);
        lemma_insert_pos_step(s.drop_first(), k, p - 1);
    }
}

/// At the first key not below `k`, the insert position is found.
proof fn lemma_insert_pos_stop(s: Seq<ParamEntry>, k: Seq<u8>, p: int)
    requires
        0 <= p < s.len(),
        forall|j: int| 0 <= j < p ==> lex_lt(#[trigger] s[j].0, k),
        !lex_lt(s[p].0, k),
    ensures
        insert_pos(s, k) == p,
    decreases p,
{
    if p > 0 {
        assert forall|j: int| 0 <= j < p - 1 implies lex_lt(
            #[trigger] s.drop_first()[j].0,
            k,
        ) by {
            assert(s.drop_first()[j] == s[j + 1]);
        }
        assert(s.drop_first()[p - 1] == s[p]);
        lemma_insert_pos_stop(s.drop_first(), k, p - 1);
    }
}

} // verus!
