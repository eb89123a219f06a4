//! The mark store: the single, mutually-exclusive record set of the
//! engine, keyed by the originating bookmark id.
//!
//! The store holds each id at most once; `put` overwrites in place, so a
//! record's position in the enumeration order is fixed when its id first
//! arrives. Durability is the concern of whatever wraps the store: this
//! type is the record set itself, with exact get/put/enumerate/reset
//! behaviour.

use crate::marks::{records_of, MarkData, MarkRecord};
use crate::utils::str_eq;
use vstd::pervasive::VecAdditionalExecFns;
use vstd::prelude::*;

verus! {

/// The record set, keyed by bookmark id, in first-insertion order.
pub struct MarkStore {
    entries: Vec<(String, MarkData)>,
}

impl MarkStore {
    /// The ids the store holds, in enumeration order.
    pub closed spec fn spec_keys(&self) -> Seq<Seq<char>> {
        self.entries@.map_values(|e: (String, MarkData)| e.0@)
    }

    /// The record models, in enumeration order.
    pub closed spec fn spec_records(&self) -> Seq<MarkRecord> {
        self.entries@.map_values(|e: (String, MarkData)| e.1@)
    }

    /// Whether some record is keyed by the given id.
    pub open spec fn spec_contains(&self, id: Seq<char>) -> bool {
        self.spec_keys().contains(id)
    }

    /// The record keyed by the given id.
    pub open spec fn spec_at(&self, id: Seq<char>) -> MarkRecord
        recommends
            self.spec_contains(id),
    {
        self.spec_records()[self.spec_keys().index_of(id)]
    }

    /// Each id keys at most one record.
    pub open spec fn wf(&self) -> bool {
        forall|i: int, j: int|
            0 <= i < j < self.spec_keys().len() ==> self.spec_keys()[i] != self.spec_keys()[j]
    }

    /// A fresh, empty store.
    pub fn new() -> (s: Self)
        ensures
            s.wf(),
            s.spec_keys().len() == 0,
            s.spec_records().len() == 0,
    {
        MarkStore { entries: Vec::new() }
    }

    /// How many records the store holds.
    pub fn len(&self) -> (n: usize)
        ensures
            n == self.spec_records().len(),
    {
        self.entries.len()
    }

    /// The record keyed by `id`, if the store holds one.
    pub fn get(&self, id: &str) -> (r: Option<&MarkData>)
        requires
            self.wf(),
        ensures
            r is Some <==> self.spec_contains(id@),
            r matches Some(m) ==> m@ == self.spec_at(id@),
    {
        let n = self.entries.len();
        for i in 0..n
            invariant
                self.wf(),
                n == self.entries@.len(),
                forall|k: int| 0 <= k < i ==> self.spec_keys()[k] != id@,
            decreases n - i,
        {
            if str_eq(self.entries[i].0.as_str(), id) {
                proof {
                    assert(self.spec_keys()[i as int] == id@);
                    let w = self.spec_keys().index_of(id@);
                    assert(self.spec_keys()[w] == id@);
                    assert(w == i as int);
                }
                return Some(&self.entries[i].1);
            }
        }
        proof {
            assert(forall|k: int|
                0 <= k < self.spec_keys().len() ==> self.spec_keys()[k] != id@);
        }
        None
    }

    /// Stores `record` under `id`: a fresh id is appended to the
    /// enumeration, an already-present id keeps its position and has its
    /// record replaced.
    pub fn put(&mut self, id: String, record: MarkData)
        requires
            old(self).wf(),
        ensures
            final(self).wf(),
            forall|k: Seq<char>|
                final(self).spec_contains(k) == (old(self).spec_contains(k) || k == id@),
            final(self).spec_at(id@) == record@,
            forall|k: Seq<char>|
                old(self).spec_contains(k) && k != id@ ==> final(self).spec_at(k) == old(
                    self,
                ).spec_at(k),
            !old(self).spec_contains(id@) ==> final(self).spec_keys() == old(
                self,
            ).spec_keys().push(id@) && final(self).spec_records() == old(
                self,
            ).spec_records().push(record@),
            old(self).spec_contains(id@) ==> final(self).spec_keys() == old(self).spec_keys()
                && final(self).spec_records() == old(self).spec_records().update(
                old(self).spec_keys().index_of(id@),
                record@,
            ),
    {
        let n = self.entries.len();
        let ghost keys0 = self.spec_keys();
        let ghost recs0 = self.spec_records();
        let ghost id_v = id@;
        let ghost rec_v = record@;
        for i in 0..n
            invariant
                self.wf(),
                self == old(self),
                n == self.entries@.len(),
                keys0 == self.spec_keys(),
                recs0 == self.spec_records(),
                id_v == id@,
                rec_v == record@,
                forall|k: int| 0 <= k < i ==> self.spec_keys()[k] != id@,
            decreases n - i,
        {
            if str_eq(self.entries[i].0.as_str(), id.as_str()) {
                proof {
                    assert(self.spec_keys()[i as int] == id_v);
                    assert(keys0[i as int] == id_v);
                }
                let ghost pre = *self;
                self.entries.set(i, (id, record));
                proof {
                    assert forall|k: int| 0 <= k < keys0.len() implies self.spec_keys()[k]
                        == keys0[k] by {
                        assert(self.spec_keys()[k] == self.entries@[k].0@);
                        assert(keys0[k] == pre.entries@[k].0@);
                        if k != i as int {
                            assert(self.entries@[k] == pre.entries@[k]);
                        }
                    }
                    assert(self.spec_keys() =~= keys0);
                    assert forall|k: int| 0 <= k < recs0.len() implies self.spec_records()[k]
                        == recs0.update(i as int, rec_v)[k] by {
                        assert(self.spec_records()[k] == self.entries@[k].1@);
                        assert(recs0[k] == pre.entries@[k].1@);
                        if k != i as int {
                            assert(self.entries@[k] == pre.entries@[k]);
                        }
                    }
                    assert(self.spec_records() =~= recs0.update(i as int, rec_v));
                    lemma_lookup_after_update(*old(self), *self, i as int, id_v, rec_v);
                }
                return ;
            }
        }
        proof {
            assert(forall|k: int| 0 <= k < keys0.len() ==> keys0[k] != id_v);
            assert(!old(self).spec_contains(id_v));
        }
        let ghost pre = *self;
        self.entries.push((id, record));
        proof {
            assert forall|k: int| 0 <= k < keys0.len() + 1 implies self.spec_keys()[k]
                == keys0.push(id_v)[k] by {
                assert(self.spec_keys()[k] == self.entries@[k].0@);
                if k < keys0.len() {
                    assert(self.entries@[k] == pre.entries@[k]);
                    assert(keys0[k] == pre.entries@[k].0@);
                }
            }
            assert(self.spec_keys() =~= keys0.push(id_v));
            assert forall|k: int| 0 <= k < recs0.len() + 1 implies self.spec_records()[k]
                == recs0.push(rec_v)[k] by {
                assert(self.spec_records()[k] == self.entries@[k].1@);
                if k < recs0.len() {
                    assert(self.entries@[k] == pre.entries@[k]);
                    assert(recs0[k] == pre.entries@[k].1@);
                }
            }
            assert(self.spec_records() =~= recs0.push(rec_v));
            lemma_lookup_after_push(*old(self), *self, id_v, rec_v);
        }
    }

    /// Every record, in enumeration order, as fresh copies.
    pub fn all(&self) -> (r: Vec<MarkData>)
        ensures
            records_of(r@) == self.spec_records(),
    {
        let mut out: Vec<MarkData> = Vec::new();
        let n = self.entries.len();
        for i in 0..n
            invariant
                n == self.entries@.len(),
                out@.len() == i,
                forall|k: int| 0 <= k < i ==> (#[trigger] out@[k])@ == self.spec_records()[k],
            decreases n - i,
        {
            out.push(self.entries[i].1.clone());
        }
        proof {
            assert(records_of(out@) =~= self.spec_records());
        }
        out
    }

    /// Drops every record: the store is empty afterwards.
    pub fn reset(&mut self)
        ensures
            final(self).wf(),
            final(self).spec_keys().len() == 0,
            final(self).spec_records().len() == 0,
    {
        self.entries.clear();
    }
}

/// After replacing the entry at a key's position, lookups of that key see
/// the new record and lookups of other keys are unchanged.
proof fn lemma_lookup_after_update(
    pre: MarkStore,
    post: MarkStore,
    i: int,
    id: Seq<char>,
    rec: MarkRecord,
)
    requires
        pre.wf(),
        0 <= i < pre.spec_keys().len(),
        pre.spec_keys()[i] == id,
        post.spec_keys() == pre.spec_keys(),
        post.spec_records() == pre.spec_records().update(i, rec),
    ensures
        post.wf(),
        forall|k: Seq<char>| post.spec_contains(k) == (pre.spec_contains(k) || k == id),
        post.spec_at(id) == rec,
        forall|k: Seq<char>| pre.spec_contains(k) && k != id ==> post.spec_at(k) == pre.spec_at(k),
{
    assert(post.spec_at(id) == rec) by {
        let w = post.spec_keys().index_of(id);
        assert(post.spec_keys()[w] == id);
        assert(w == i);
    }
    assert forall|k: Seq<char>| pre.spec_contains(k) && k != id implies post.spec_at(k) == pre.spec_at(k) by {
        let w = pre.spec_keys().index_of(k);
        assert(pre.spec_keys()[w] == k);
        assert(w != i);
    }
}

/// After appending a fresh key, lookups of that key see the new record and
/// lookups of the old keys are unchanged.
proof fn lemma_lookup_after_push(pre: MarkStore, post: MarkStore, id: Seq<char>, rec: MarkRecord)
    requires
        pre.wf(),
        !pre.spec_contains(id),
        post.spec_keys() == pre.spec_keys().push(id),
        post.spec_records() == pre.spec_records().push(rec),
    ensures
        post.wf(),
        forall|k: Seq<char>| post.spec_contains(k) == (pre.spec_contains(k) || k == id),
        post.spec_at(id) == rec,
        forall|k: Seq<char>| pre.spec_contains(k) && k != id ==> post.spec_at(k) == pre.spec_at(k),
{
    let n = pre.spec_keys().len() as int;
    assert forall|k: Seq<char>| post.spec_contains(k) implies (pre.spec_contains(k) || k == id) by {
        let w = choose|w: int| 0 <= w < post.spec_keys().len() && post.spec_keys()[w] == k;
        if w < n {
            assert(pre.spec_keys()[w] == k);
        }
    }
    assert forall|k: Seq<char>| pre.spec_contains(k) implies post.spec_contains(k) by {
        let w = choose|w: int| 0 <= w < pre.spec_keys().len() && pre.spec_keys()[w] == k;
        assert(post.spec_keys()[w] == k);
    }
    assert(post.spec_keys()[n] == id);
    assert(post.spec_at(id) == rec) by {
        let w = post.spec_keys().index_of(id);
        assert(post.spec_keys()[w] == id);
        if w < n {
            assert(pre.spec_keys()[w] == id);
        }
        assert(w == n);
    }
    assert forall|k: Seq<char>| pre.spec_contains(k) && k != id implies post.spec_at(k) == pre.spec_at(k) by {
        let w = pre.spec_keys().index_of(k);
        assert(pre.spec_keys()[w] == k);
        let w2 = post.spec_keys().index_of(k);
        assert(post.spec_keys()[w2] == k);
        assert(w2 != n);
        assert(pre.spec_keys()[w2] == k);
        assert(w2 == w);
    }
}

} // verus!
