//! The private forest: a persistent mapping from name-label digests to sets
//! of block identifiers. A forest value is never edited in place: `put` and
//! `merge` return new values, so any number of readers may hold and traverse
//! earlier values concurrently, and divergent writers reconcile by `merge`,
//! the per-key union of both buckets.

use crate::crypto::{digest_of, DIGEST_LEN};
use crate::crypto::EntropySource;
use crate::namelabel::Name;
use crate::util::{bytes_eq, copy_bytes};
use vstd::prelude::*;

verus! {

#[derive(Clone)]
pub struct ForestEntry {
    pub key: Vec<u8>,
    pub ids: Vec<Vec<u8>>,
}

/// A persistent map from 32-byte label digests to multivalue buckets of
/// block identifiers, created once per filesystem instance around fresh
/// accumulator setup material.
#[derive(Clone)]
pub struct PrivateForest {
    setup: Vec<u8>,
    entries: Vec<ForestEntry>,
}

impl PrivateForest {
    pub closed spec fn entries_view(self) -> Seq<ForestEntry> {
        self.entries@
    }

    pub closed spec fn setup_view(self) -> Seq<u8> {
        self.setup@
    }

    pub open spec fn wf(self) -> bool {
        &&& self.setup_view().len() == DIGEST_LEN
        &&& forall|i: int, j: int|
            0 <= i < j < self.entries_view().len() ==> self.entries_view()[i].key@
                != self.entries_view()[j].key@
        &&& forall|i: int, p: int, q: int|
            0 <= i < self.entries_view().len() && 0 <= p < q < self.entries_view()[i].ids@.len()
                ==> self.entries_view()[i].ids@[p]@ != self.entries_view()[i].ids@[q]@
        &&& forall|i: int|
            0 <= i < self.entries_view().len() ==> #[trigger] self.entries_view()[i].ids@.len() > 0
    }

    /// Whether some bucket exists under a key.
    pub open spec fn has_key(self, k: Seq<u8>) -> bool {
        exists|i: int| 0 <= i < self.entries_view().len() && self.entries_view()[i].key@ == k
    }

    /// Whether the bucket under key `k` holds the block identifier `v`.
    pub open spec fn contains_id(self, k: Seq<u8>, v: Seq<u8>) -> bool {
        exists|i: int, j: int|
            0 <= i < self.entries_view().len() && self.entries_view()[i].key@ == k && 0 <= j
                < self.entries_view()[i].ids@.len() && self.entries_view()[i].ids@[j]@ == v
    }

    /// A bucket only exists for a key the forest has.
    pub proof fn lemma_contains_implies_has_key(self, k: Seq<u8>, v: Seq<u8>)
        requires
            self.contains_id(k, v),
        ensures
            self.has_key(k),
    {
        let (i, j) = choose|i: int, j: int|
            0 <= i < self.entries_view().len() && self.entries_view()[i].key@ == k && 0 <= j
                < self.entries_view()[i].ids@.len() && self.entries_view()[i].ids@[j]@ == v;
        assert(0 <= i < self.entries_view().len() && self.entries_view()[i].key@ == k);
    }

    /// A fresh, empty forest around fresh setup material.
    pub fn new(rng: &mut EntropySource) -> (r: Self)
        ensures
            r.wf(),
            forall|k: Seq<u8>| !r.has_key(k),
            forall|k: Seq<u8>, v: Seq<u8>| !r.contains_id(k, v),
    {
        PrivateForest { setup: rng.fresh_key(), entries: Vec::new() }
    }

    /// The root name of this forest instance, from which all labels of the
    /// instance are derived.
    pub fn empty_name(&self) -> (r: Name)
        requires
            self.wf(),
        ensures
            r.wf(),
            r@ == digest_of(self.setup_view()),
    {
        Name::from_acc(crate::crypto::sha256(self.setup.as_slice()))
    }

    fn find_key(&self, key: &[u8]) -> (r: Option<usize>)
        ensures
            match r {
                Some(i) => i < self.entries_view().len() && self.entries_view()[i as int].key@
                    == key@,
                None => !self.has_key(key@),
            },
    {
        let mut i: usize = 0;
        while i < self.entries.len()
            invariant
                i <= self.entries_view().len(),
                forall|j: int| 0 <= j < i ==> self.entries_view()[j].key@ != key@,
            decreases self.entries_view().len() - i,
        {
            if bytes_eq(self.entries[i].key.as_slice(), key) {
                return Some(i);
            }
            i = i + 1;
        }
        None
    }

    /// Fold one (key, identifier) pair into this forest value in place.
    fn insert_id(&mut self, key: &[u8], id: &[u8])
        requires
            old(self).wf(),
        ensures
            final(self).wf(),
            final(self).setup_view() == old(self).setup_view(),
            final(self).contains_id(key@, id@),
            forall|k: Seq<u8>, v: Seq<u8>|
                final(self).contains_id(k, v) <==> (old(self).contains_id(k, v) || (k == key@ && v
                    == id@)),
            forall|k: Seq<u8>| final(self).has_key(k) <==> (old(self).has_key(k) || k == key@),
    {
        let ghost pre = *self;
        match self.find_key(key) {
            Some(i) => {
                proof {
                    let i2 = choose|i2: int|
                        0 <= i2 < pre.entries_view().len() && pre.entries_view()[i2].key@ == key@;
                    assert(i2 == i);
                }
                if contains_bytes(&self.entries[i].ids, id) {
                    proof {
                        let j = choose|j: int|
                            0 <= j < pre.entries_view()[i as int].ids@.len()
                                && pre.entries_view()[i as int].ids@[j]@ == id@;
                        assert(pre.contains_id(key@, id@));
                        assert(pre.has_key(key@));
                        assert forall|k: Seq<u8>, v: Seq<u8>|
                            self.contains_id(k, v) <==> (pre.contains_id(k, v) || (k == key@ && v
                                == id@)) by {}
                        assert forall|k: Seq<u8>|
                            self.has_key(k) <==> (pre.has_key(k) || k == key@) by {}
                    }
                    return ;
                }
                let mut e = self.entries.remove(i);
                e.ids.push(copy_bytes(id));
                self.entries.insert(i, e);
                proof {
                    assert(self.entries_view() =~= pre.entries_view().update(
                        i as int,
                        self.entries_view()[i as int],
                    ));
                    let n = pre.entries_view()[i as int].ids@.len() as int;
                    assert(self.entries_view()[i as int].ids@ =~= pre.entries_view()[
                        i as int].ids@.push(self.entries_view()[i as int].ids@[n]));
                    assert(self.entries_view()[i as int].ids@[n]@ == id@);
                    assert(self.contains_id(key@, id@));
                    assert forall|k: Seq<u8>, v: Seq<u8>| #[trigger]
                        self.contains_id(k, v) implies (pre.contains_id(k, v) || (k == key@ && v
                        == id@)) by {
                        let (p, q) = choose|p: int, q: int|
                            0 <= p < self.entries_view().len() && self.entries_view()[p].key@ == k
                                && 0 <= q < self.entries_view()[p].ids@.len()
                                && self.entries_view()[p].ids@[q]@ == v;
                        if p != i {
                            assert(pre.contains_id(k, v));
                        } else {
                            if q < n {
                                assert(pre.entries_view()[p].ids@[q]@ == v);
                                assert(pre.contains_id(k, v));
                            } else {
                                assert(v == id@ && k == key@);
                            }
                        }
                    }
                    assert forall|k: Seq<u8>, v: Seq<u8>|
                        pre.contains_id(k, v) implies #[trigger] self.contains_id(k, v) by {
                        let (p, q) = choose|p: int, q: int|
                            0 <= p < pre.entries_view().len() && pre.entries_view()[p].key@ == k
                                && 0 <= q < pre.entries_view()[p].ids@.len()
                                && pre.entries_view()[p].ids@[q]@ == v;
                        if p != i {
                            assert(self.entries_view()[p].key@ == k);
                            assert(self.entries_view()[p].ids@[q]@ == v);
                        } else {
                            assert(self.entries_view()[p].ids@[q]@ == v);
                        }
                    }
                    assert forall|k: Seq<u8>| self.has_key(k) <==> (pre.has_key(k) || k
                        == key@) by {
                        if self.has_key(k) {
                            let p = choose|p: int|
                                0 <= p < self.entries_view().len() && self.entries_view()[p].key@
                                    == k;
                            assert(pre.entries_view()[p].key@ == k);
                        }
                        if pre.has_key(k) {
                            let p = choose|p: int|
                                0 <= p < pre.entries_view().len() && pre.entries_view()[p].key@
                                    == k;
                            assert(self.entries_view()[p].key@ == k);
                        }
                        if k == key@ {
                            assert(self.entries_view()[i as int].key@ == k);
                        }
                    }
                }
            },
            None => {
                let mut ids: Vec<Vec<u8>> = Vec::new();
                ids.push(copy_bytes(id));
                self.entries.push(ForestEntry { key: copy_bytes(key), ids });
                proof {
                    let n = pre.entries_view().len() as int;
                    assert(self.entries_view() =~= pre.entries_view().push(
                        self.entries_view()[n],
                    ));
                    assert(self.entries_view()[n].key@ == key@);
                    assert(self.entries_view()[n].ids@.len() == 1);
                    assert(self.entries_view()[n].ids@[0]@ == id@);
                    assert(self.contains_id(key@, id@));
                    assert forall|k: Seq<u8>, v: Seq<u8>| #[trigger]
                        self.contains_id(k, v) implies (pre.contains_id(k, v) || (k == key@ && v
                        == id@)) by {
                        let (p, q) = choose|p: int, q: int|
                            0 <= p < self.entries_view().len() && self.entries_view()[p].key@ == k
                                && 0 <= q < self.entries_view()[p].ids@.len()
                                && self.entries_view()[p].ids@[q]@ == v;
                        if p < n {
                            assert(pre.contains_id(k, v));
                        }
                    }
                    assert forall|k: Seq<u8>, v: Seq<u8>|
                        pre.contains_id(k, v) implies #[trigger] self.contains_id(k, v) by {
                        let (p, q) = choose|p: int, q: int|
                            0 <= p < pre.entries_view().len() && pre.entries_view()[p].key@ == k
                                && 0 <= q < pre.entries_view()[p].ids@.len()
                                && pre.entries_view()[p].ids@[q]@ == v;
                        assert(self.entries_view()[p].key@ == k);
                        assert(self.entries_view()[p].ids@[q]@ == v);
                    }
                    assert forall|k: Seq<u8>| self.has_key(k) <==> (pre.has_key(k) || k
                        == key@) by {
                        if self.has_key(k) {
                            let p = choose|p: int|
                                0 <= p < self.entries_view().len() && self.entries_view()[p].key@
                                    == k;
                            if p < n {
                                assert(pre.entries_view()[p].key@ == k);
                            }
                        }
                        if pre.has_key(k) {
                            let p = choose|p: int|
                                0 <= p < pre.entries_view().len() && pre.entries_view()[p].key@
                                    == k;
                            assert(self.entries_view()[p].key@ == k);
                        }
                        if k == key@ {
                            assert(self.entries_view()[n].key@ == k);
                        }
                    }
                }
            },
        }
    }

    /// A structurally fresh forest value with the same contents.
    pub fn duplicate(&self) -> (r: Self)
        requires
            self.wf(),
        ensures
            r.wf(),
            r.setup_view() == self.setup_view(),
            forall|k: Seq<u8>, v: Seq<u8>| r.contains_id(k, v) <==> self.contains_id(k, v),
            forall|k: Seq<u8>| r.has_key(k) <==> self.has_key(k),
    {
        let mut entries: Vec<ForestEntry> = Vec::new();
        let mut i: usize = 0;
        while i < self.entries.len()
            invariant
                self.wf(),
                i <= self.entries_view().len(),
                entries@.len() == i,
                forall|j: int|
                    0 <= j < i ==> #[trigger] entries@[j].key@ == self.entries_view()[j].key@
                        && entries@[j].ids@.len() == self.entries_view()[j].ids@.len(),
                forall|j: int, q: int|
                    0 <= j < i && 0 <= q < entries@[j].ids@.len() ==> #[trigger] entries@[j].ids@[q]@
                        == self.entries_view()[j].ids@[q]@,
            decreases self.entries_view().len() - i,
        {
            let e = &self.entries[i];
            entries.push(ForestEntry { key: copy_bytes(e.key.as_slice()), ids: copy_ids(&e.ids) });
            i = i + 1;
        }
        let ghost ev = entries@;
        let r = PrivateForest { setup: copy_bytes(self.setup.as_slice()), entries };
        proof {
            assert(r.entries_view() == ev);
            assert forall|i2: int, j2: int| 0 <= i2 < j2 < r.entries_view().len() implies r.entries_view()[i2].key@ != r.entries_view()[j2].key@ by {
                assert(ev[i2].key@ == self.entries_view()[i2].key@);
                assert(ev[j2].key@ == self.entries_view()[j2].key@);
            }
            assert forall|i2: int, p: int, q: int|
                0 <= i2 < r.entries_view().len() && 0 <= p < q < r.entries_view()[i2].ids@.len() implies r.entries_view()[i2].ids@[p]@ != r.entries_view()[i2].ids@[q]@ by {
                assert(ev[i2].key@ == self.entries_view()[i2].key@);
                assert(ev[i2].ids@.len() == self.entries_view()[i2].ids@.len());
                assert(ev[i2].ids@[p]@ == self.entries_view()[i2].ids@[p]@);
                assert(ev[i2].ids@[q]@ == self.entries_view()[i2].ids@[q]@);
            }
            assert forall|i2: int| 0 <= i2 < r.entries_view().len() implies #[trigger] r.entries_view()[i2].ids@.len() > 0 by {
                assert(ev[i2].key@ == self.entries_view()[i2].key@);
                assert(ev[i2].ids@.len() == self.entries_view()[i2].ids@.len());
            }
            assert forall|k: Seq<u8>, v: Seq<u8>| #[trigger]
                r.contains_id(k, v) implies self.contains_id(k, v) by {
                let (p, q) = choose|p: int, q: int|
                    0 <= p < r.entries_view().len() && r.entries_view()[p].key@ == k && 0 <= q
                        < r.entries_view()[p].ids@.len() && r.entries_view()[p].ids@[q]@ == v;
                assert(ev[p].key@ == self.entries_view()[p].key@);
                assert(ev[p].ids@[q]@ == self.entries_view()[p].ids@[q]@);
                assert(self.entries_view()[p].key@ == k);
                assert(self.entries_view()[p].ids@[q]@ == v);
            }
            assert forall|k: Seq<u8>, v: Seq<u8>|
                self.contains_id(k, v) implies #[trigger] r.contains_id(k, v) by {
                let (p, q) = choose|p: int, q: int|
                    0 <= p < self.entries_view().len() && self.entries_view()[p].key@ == k && 0 <= q
                        < self.entries_view()[p].ids@.len() && self.entries_view()[p].ids@[q]@
                        == v;
                assert(ev[p].key@ == self.entries_view()[p].key@);
                assert(ev[p].ids@.len() == self.entries_view()[p].ids@.len());
                assert(ev[p].ids@[q]@ == self.entries_view()[p].ids@[q]@);
                assert(r.entries_view()[p].key@ == k);
                assert(r.entries_view()[p].ids@[q]@ == v);
            }
            assert forall|k: Seq<u8>| #[trigger] r.has_key(k) implies self.has_key(k) by {
                let p = choose|p: int|
                    0 <= p < r.entries_view().len() && r.entries_view()[p].key@ == k;
                assert(ev[p].key@ == self.entries_view()[p].key@);
                assert(self.entries_view()[p].key@ == k);
            }
            assert forall|k: Seq<u8>| self.has_key(k) implies #[trigger] r.has_key(k) by {
                let p = choose|p: int|
                    0 <= p < self.entries_view().len() && self.entries_view()[p].key@ == k;
                assert(ev[p].key@ == self.entries_view()[p].key@);
                assert(r.entries_view()[p].key@ == k);
            }
        }
        r
    }

    /// A new forest value equal to this one except that the bucket under
    /// `key` also holds `id`; this value is left untouched.
    pub fn put(&self, key: &[u8], id: &[u8]) -> (r: Self)
        requires
            self.wf(),
        ensures
            r.wf(),
            r.setup_view() == self.setup_view(),
            r.contains_id(key@, id@),
            forall|k: Seq<u8>, v: Seq<u8>|
                r.contains_id(k, v) <==> (self.contains_id(k, v) || (k == key@ && v == id@)),
            forall|k: Seq<u8>| r.has_key(k) <==> (self.has_key(k) || k == key@),
    {
        let mut r = self.duplicate();
        r.insert_id(key, id);
        r
    }

    /// The bucket under a key: every identifier it holds, each once, in no
    /// promised order; empty if the key is absent.
    pub fn get(&self, key: &[u8]) -> (r: Vec<Vec<u8>>)
        requires
            self.wf(),
        ensures
            forall|j: int| 0 <= j < r@.len() ==> self.contains_id(key@, #[trigger] r@[j]@),
            forall|v: Seq<u8>|
                self.contains_id(key@, v) ==> exists|j: int| 0 <= j < r@.len() && r@[j]@ == v,
            forall|j1: int, j2: int| 0 <= j1 < j2 < r@.len() ==> r@[j1]@ != r@[j2]@,
            r@.len() == 0 ==> !self.has_key(key@),
    {
        match self.find_key(key) {
            Some(i) => {
                let r = copy_ids(&self.entries[i].ids);
                proof {
                    assert forall|v: Seq<u8>|
                        self.contains_id(key@, v) implies exists|j: int|
                        0 <= j < r@.len() && r@[j]@ == v by {
                        let (p, q) = choose|p: int, q: int|
                            0 <= p < self.entries_view().len() && self.entries_view()[p].key@
                                == key@ && 0 <= q < self.entries_view()[p].ids@.len()
                                && self.entries_view()[p].ids@[q]@ == v;
                        assert(p == i);
                        assert(r@[q]@ == v);
                    }
                    assert forall|j: int| 0 <= j < r@.len() implies self.contains_id(
                        key@,
                        #[trigger] r@[j]@,
                    ) by {
                        assert(self.entries_view()[i as int].ids@[j]@ == r@[j]@);
                    }
                }
                r
            },
            None => {
                let r: Vec<Vec<u8>> = Vec::new();
                proof {
                    assert forall|v: Seq<u8>| !self.contains_id(key@, v) by {
                        if self.contains_id(key@, v) {
                            self.lemma_contains_implies_has_key(key@, v);
                        }
                    }
                }
                r
            },
        }
    }

    /// Reconcile two forests of one instance: for every key, the resulting
    /// bucket is the union of both inputs' buckets, so everything either
    /// divergent copy recorded stays reachable.
    pub fn merge(&self, other: &Self) -> (r: Self)
        requires
            self.wf(),
            other.wf(),
            self.setup_view() == other.setup_view(),
        ensures
            r.wf(),
            r.setup_view() == self.setup_view(),
            forall|k: Seq<u8>, v: Seq<u8>|
                r.contains_id(k, v) <==> (self.contains_id(k, v) || other.contains_id(k, v)),
            forall|k: Seq<u8>| r.has_key(k) <==> (self.has_key(k) || other.has_key(k)),
    {
        let mut r = self.duplicate();
        let mut i: usize = 0;
        while i < other.entries.len()
            invariant
                self.wf(),
                other.wf(),
                r.wf(),
                r.setup_view() == self.setup_view(),
                i <= other.entries_view().len(),
                forall|k: Seq<u8>, v: Seq<u8>|
                    r.contains_id(k, v) <==> (self.contains_id(k, v) || other.contains_id_upto(
                        i as int,
                        k,
                        v,
                    )),
                forall|k: Seq<u8>|
                    r.has_key(k) <==> (self.has_key(k) || other.has_key_upto(i as int, k)),
            decreases other.entries_view().len() - i,
        {
            let mut j: usize = 0;
            while j < other.entries[i].ids.len()
                invariant
                    self.wf(),
                    other.wf(),
                    r.wf(),
                    r.setup_view() == self.setup_view(),
                    i < other.entries_view().len(),
                    j <= other.entries_view()[i as int].ids@.len(),
                    forall|k: Seq<u8>, v: Seq<u8>|
                        r.contains_id(k, v) <==> (self.contains_id(k, v)
                            || other.contains_id_upto(i as int, k, v) || (k == other.entries_view()[
                            i as int].key@ && exists|q: int|
                            0 <= q < j && other.entries_view()[i as int].ids@[q]@ == v)),
                    forall|k: Seq<u8>|
                        r.has_key(k) <==> (self.has_key(k) || other.has_key_upto(i as int, k) || (j
                            > 0 && k == other.entries_view()[i as int].key@)),
                decreases other.entries_view()[i as int].ids@.len() - j,
            {
                r.insert_id(other.entries[i].key.as_slice(), other.entries[i].ids[j].as_slice());
                j = j + 1;
            }
            proof {
                other.lemma_upto_step(i as int);
            }
            i = i + 1;
        }
        proof {
            other.lemma_upto_end();
        }
        r
    }

    proof fn lemma_upto_step(self, i: int)
        requires
            0 <= i < self.entries_view().len(),
        ensures
            forall|k: Seq<u8>, v: Seq<u8>| #![trigger self.contains_id_upto(i + 1, k, v)]
                self.contains_id_upto(i + 1, k, v) <==> (self.contains_id_upto(i, k, v) || (k
                    == self.entries_view()[i].key@ && exists|q: int|
                    0 <= q < self.entries_view()[i].ids@.len() && self.entries_view()[i].ids@[q]@
                        == v)),
            forall|k: Seq<u8>| #![trigger self.has_key_upto(i + 1, k)]
                self.has_key_upto(i + 1, k) <==> (self.has_key_upto(i, k) || k
                    == self.entries_view()[i].key@),
    {
        assert forall|k: Seq<u8>, v: Seq<u8>| #![trigger self.contains_id_upto(i + 1, k, v)]
            self.contains_id_upto(i + 1, k, v) <==> (self.contains_id_upto(i, k, v) || (k
                == self.entries_view()[i].key@ && exists|q: int|
                0 <= q < self.entries_view()[i].ids@.len() && self.entries_view()[i].ids@[q]@
                    == v)) by {
            if self.contains_id_upto(i + 1, k, v) {
                let (p, q) = choose|p: int, q: int|
                    0 <= p < i + 1 && p < self.entries_view().len() && self.entries_view()[p].key@
                        == k && 0 <= q < self.entries_view()[p].ids@.len()
                        && self.entries_view()[p].ids@[q]@ == v;
                if p < i {
                    assert(self.contains_id_upto(i, k, v));
                } else {
                    assert(p == i);
                    assert(self.entries_view()[i].ids@[q]@ == v);
                }
            }
            if self.contains_id_upto(i, k, v) {
                let (p, q) = choose|p: int, q: int|
                    0 <= p < i && p < self.entries_view().len() && self.entries_view()[p].key@ == k
                        && 0 <= q < self.entries_view()[p].ids@.len()
                        && self.entries_view()[p].ids@[q]@ == v;
                assert(self.contains_id_upto(i + 1, k, v));
            }
            if k == self.entries_view()[i].key@ && exists|q: int|
                0 <= q < self.entries_view()[i].ids@.len() && self.entries_view()[i].ids@[q]@
                    == v {
                let q = choose|q: int|
                    0 <= q < self.entries_view()[i].ids@.len() && self.entries_view()[i].ids@[q]@
                        == v;
                assert(self.contains_id_upto(i + 1, k, v));
            }
        }
        assert forall|k: Seq<u8>| #![trigger self.has_key_upto(i + 1, k)]
            self.has_key_upto(i + 1, k) <==> (self.has_key_upto(i, k) || k
                == self.entries_view()[i].key@) by {
            if self.has_key_upto(i + 1, k) {
                let p = choose|p: int|
                    0 <= p < i + 1 && p < self.entries_view().len() && self.entries_view()[p].key@
                        == k;
                if p < i {
                    assert(self.has_key_upto(i, k));
                }
            }
            if self.has_key_upto(i, k) {
                let p = choose|p: int|
                    0 <= p < i && p < self.entries_view().len() && self.entries_view()[p].key@ == k;
                assert(self.has_key_upto(i + 1, k));
            }
            if k == self.entries_view()[i].key@ {
                assert(self.has_key_upto(i + 1, k));
            }
        }
    }

    proof fn lemma_upto_end(self)
        ensures
            forall|k: Seq<u8>, v: Seq<u8>|
                #![trigger self.contains_id_upto(self.entries_view().len() as int, k, v)]
                self.contains_id_upto(self.entries_view().len() as int, k, v) <==> self.contains_id(
                    k,
                    v,
                ),
            forall|k: Seq<u8>| #![trigger self.has_key_upto(self.entries_view().len() as int, k)]
                self.has_key_upto(self.entries_view().len() as int, k) <==> self.has_key(k),
    {
    }

    /// `contains_id` restricted to the first `n` buckets.
    pub closed spec fn contains_id_upto(self, n: int, k: Seq<u8>, v: Seq<u8>) -> bool {
        exists|i: int, j: int|
            0 <= i < n && i < self.entries_view().len() && self.entries_view()[i].key@ == k && 0
                <= j < self.entries_view()[i].ids@.len() && self.entries_view()[i].ids@[j]@ == v
    }

    /// `has_key` restricted to the first `n` buckets.
    pub closed spec fn has_key_upto(self, n: int, k: Seq<u8>) -> bool {
        exists|i: int| 0 <= i < n && i < self.entries_view().len() && self.entries_view()[i].key@ == k
    }
}

/// Forest law: a forest that `put` produced from `f` by folding in the pair
/// (`key`, `id`) contains `id` under `key`, and under any other key holds
/// exactly what `f` holds.
pub proof fn lemma_put_effect(
    f: PrivateForest,
    r: PrivateForest,
    key: Seq<u8>,
    id: Seq<u8>,
    k2: Seq<u8>,
)
    requires
        forall|k: Seq<u8>, v: Seq<u8>|
            r.contains_id(k, v) <==> (f.contains_id(k, v) || (k == key && v == id)),
        k2 != key,
    ensures
        r.contains_id(key, id),
        forall|v: Seq<u8>| r.contains_id(k2, v) <==> f.contains_id(k2, v),
{
}

/// Merge is one-sided on untouched keys: if one input never held a bucket
/// under a key, the merged forest holds under that key exactly what the
/// other input holds.
pub proof fn lemma_merge_one_sided(
    a: PrivateForest,
    b: PrivateForest,
    m: PrivateForest,
    k: Seq<u8>,
)
    requires
        forall|k2: Seq<u8>, v: Seq<u8>|
            m.contains_id(k2, v) <==> (a.contains_id(k2, v) || b.contains_id(k2, v)),
        !b.has_key(k),
    ensures
        forall|v: Seq<u8>| m.contains_id(k, v) <==> a.contains_id(k, v),
{
    assert forall|v: Seq<u8>| m.contains_id(k, v) <==> a.contains_id(k, v) by {
        if b.contains_id(k, v) {
            b.lemma_contains_implies_has_key(k, v);
        }
    }
}

fn contains_bytes(v: &Vec<Vec<u8>>, x: &[u8]) -> (r: bool)
    ensures
        r == exists|j: int| 0 <= j < v@.len() && v@[j]@ == x@,
{
    let mut i: usize = 0;
    while i < v.len()
        invariant
            i <= v@.len(),
            forall|j: int| 0 <= j < i ==> v@[j]@ != x@,
        decreases v@.len() - i,
    {
        if bytes_eq(v[i].as_slice(), x) {
            return true;
        }
        i = i + 1;
    }
    false
}

fn copy_ids(v: &Vec<Vec<u8>>) -> (r: Vec<Vec<u8>>)
    ensures
        r@.len() == v@.len(),
        forall|j: int| 0 <= j < v@.len() ==> #[trigger] r@[j]@ == v@[j]@,
{
    let mut out: Vec<Vec<u8>> = Vec::new();
    let mut i: usize = 0;
    while i < v.len()
        invariant
            i <= v@.len(),
            out@.len() == i,
            forall|j: int| 0 <= j < i ==> #[trigger] out@[j]@ == v@[j]@,
        decreases v@.len() - i,
    {
        out.push(copy_bytes(v[i].as_slice()));
        i = i + 1;
    }
    out
}

} // verus!
