//! The content-addressed block store: append-only, keyed by the SHA-256
//! digest of the block bytes, with implicit deduplication.

use crate::crypto::{digest_of, sha256, DIGEST_LEN};
use crate::error::FsError;
use crate::util::{bytes_eq, copy_bytes};
use vstd::prelude::*;

verus! {

#[derive(Clone)]
pub struct BlockEntry {
    pub id: Vec<u8>,
    pub bytes: Vec<u8>,
}

/// Immutable ciphertext blocks addressed by the digest of their bytes.
#[derive(Clone)]
pub struct BlockStore {
    blocks: Vec<BlockEntry>,
}

impl BlockStore {
    pub closed spec fn entries(self) -> Seq<BlockEntry> {
        self.blocks@
    }

    pub open spec fn wf(self) -> bool {
        &&& forall|i: int, j: int|
            0 <= i < j < self.entries().len() ==> self.entries()[i].id@ != self.entries()[j].id@
        &&& forall|i: int|
            0 <= i < self.entries().len() ==> #[trigger] self.entries()[i].id@ == digest_of(
                self.entries()[i].bytes@,
            ) && self.entries()[i].id@.len() == DIGEST_LEN
    }

    pub open spec fn has_id(self, id: Seq<u8>) -> bool {
        exists|i: int| 0 <= i < self.entries().len() && self.entries()[i].id@ == id
    }

    /// The block stored under an identifier, if any.
    pub open spec fn spec_get(self, id: Seq<u8>) -> Option<Seq<u8>> {
        if self.has_id(id) {
            Some(
                self.entries()[choose|i: int|
                    0 <= i < self.entries().len() && self.entries()[i].id@ == id].bytes@,
            )
        } else {
            None
        }
    }

    pub open spec fn len_spec(self) -> nat {
        self.entries().len()
    }

    proof fn lemma_get_at(self, p: int)
        requires
            self.wf(),
            0 <= p < self.entries().len(),
        ensures
            self.spec_get(self.entries()[p].id@) == Some(self.entries()[p].bytes@),
    {
        let k = self.entries()[p].id@;
        assert(self.has_id(k));
        let c = choose|c: int| 0 <= c < self.entries().len() && self.entries()[c].id@ == k;
        assert(c == p);
    }

    proof fn lemma_frame(self, other: Self, k: Seq<u8>, i: int)
        requires
            self.wf(),
            other.wf(),
            self.entries().len() == other.entries().len(),
            0 <= i < self.entries().len(),
            forall|j: int| 0 <= j < self.entries().len() && j != i ==> self.entries()[j]
                == other.entries()[j],
            k != self.entries()[i].id@,
            k != other.entries()[i].id@,
        ensures
            self.spec_get(k) == other.spec_get(k),
    {
        if self.has_id(k) {
            let p = choose|p: int| 0 <= p < self.entries().len() && self.entries()[p].id@ == k;
            assert(p != i);
            assert(other.entries()[p].id@ == k);
            self.lemma_get_at(p);
            other.lemma_get_at(p);
        } else if other.has_id(k) {
            let q = choose|q: int| 0 <= q < other.entries().len() && other.entries()[q].id@ == k;
            assert(q != i);
            assert(self.entries()[q].id@ == k);
        }
    }

    /// Any stored block's identifier is the digest of its bytes.
    pub proof fn lemma_stored_digest(self, id: Seq<u8>)
        requires
            self.wf(),
            self.spec_get(id) is Some,
        ensures
            digest_of(self.spec_get(id).unwrap()) == id,
    {
        let c = choose|c: int| 0 <= c < self.entries().len() && self.entries()[c].id@ == id;
        assert(self.entries()[c].id@ == digest_of(self.entries()[c].bytes@));
    }

    pub fn new() -> (r: Self)
        ensures
            r.wf(),
            forall|k: Seq<u8>| !r.has_id(k),
            r.len_spec() == 0,
    {
        BlockStore { blocks: Vec::new() }
    }

    pub fn len(&self) -> (r: usize)
        ensures
            r == self.len_spec(),
    {
        self.blocks.len()
    }

    /// Store a block under the digest of its bytes. Writing bytes already
    /// present leaves the store untouched and returns the same identifier.
    /// Distinct bytes under one digest would overwrite, which a
    /// collision-resistant digest never produces.
    pub fn put(&mut self, bytes: Vec<u8>) -> (id: Vec<u8>)
        requires
            old(self).wf(),
        ensures
            final(self).wf(),
            id@ == digest_of(bytes@),
            id@.len() == DIGEST_LEN,
            final(self).spec_get(id@) == Some(bytes@),
            forall|k: Seq<u8>| k != id@ ==> final(self).spec_get(k) == old(self).spec_get(k),
            forall|k: Seq<u8>| final(self).has_id(k) <==> (old(self).has_id(k) || k == id@),
            old(self).spec_get(id@) == Some(bytes@) ==> *final(self) == *old(self),
            old(self).has_id(id@) ==> final(self).len_spec() == old(self).len_spec(),
            !old(self).has_id(id@) ==> final(self).len_spec() == old(self).len_spec() + 1,
    {
        let id = sha256(bytes.as_slice());
        let ghost pre = *self;
        let mut i: usize = 0;
        while i < self.blocks.len()
            invariant
                *self == pre,
                pre == *old(self),
                pre.wf(),
                i <= pre.entries().len(),
                id@ == digest_of(bytes@),
                id@.len() == DIGEST_LEN,
                forall|j: int| 0 <= j < i ==> pre.entries()[j].id@ != id@,
            decreases pre.entries().len() - i,
        {
            if bytes_eq(self.blocks[i].id.as_slice(), id.as_slice()) {
                proof {
                    assert(pre.has_id(id@));
                    let j = choose|j: int|
                        0 <= j < pre.entries().len() && pre.entries()[j].id@ == id@;
                    assert(j == i);
                }
                if bytes_eq(self.blocks[i].bytes.as_slice(), bytes.as_slice()) {
                    proof {
                        pre.lemma_get_at(i as int);
                        assert(pre.spec_get(id@) == Some(bytes@));
                    }
                    return id;
                }
                let entry = BlockEntry { id: copy_bytes(id.as_slice()), bytes };
                self.blocks[i] = entry;
                proof {
                    assert(self.entries() =~= pre.entries().update(i as int, self.entries()[i as int]));
                    assert(self.entries()[i as int].id@ == id@);
                    assert(self.wf());
                    self.lemma_get_at(i as int);
                    assert(self.spec_get(id@) == Some(bytes@));
                    assert forall|k: Seq<u8>| k != id@ implies self.spec_get(k) == pre.spec_get(
                        k,
                    ) by {
                        self.lemma_frame(pre, k, i as int);
                    }
                    assert forall|k: Seq<u8>| #[trigger]
                        self.has_id(k) <==> (pre.has_id(k) || k == id@) by {
                        if self.has_id(k) {
                            let p = choose|p: int|
                                0 <= p < self.entries().len() && self.entries()[p].id@ == k;
                            if p != i {
                                assert(pre.entries()[p].id@ == k);
                            }
                        }
                        if pre.has_id(k) {
                            let q = choose|q: int|
                                0 <= q < pre.entries().len() && pre.entries()[q].id@ == k;
                            if q != i {
                                assert(self.entries()[q].id@ == k);
                            } else {
                                assert(self.entries()[q].id@ == id@ && k == id@);
                            }
                        }
                    }
                }
                return id;
            }
            i = i + 1;
        }
        self.blocks.push(BlockEntry { id: copy_bytes(id.as_slice()), bytes });
        proof {
            assert(!pre.has_id(id@));
            let n = pre.entries().len() as int;
            assert(self.entries() =~= pre.entries().push(self.entries()[n]));
            assert(self.entries()[n].id@ == id@);
            assert(self.wf());
            self.lemma_get_at(n);
            assert(self.spec_get(id@) == Some(bytes@));
            assert forall|k: Seq<u8>| k != id@ implies self.spec_get(k) == pre.spec_get(k) by {
                if self.has_id(k) {
                    let p = choose|p: int|
                        0 <= p < self.entries().len() && self.entries()[p].id@ == k;
                    assert(p < n);
                    assert(pre.entries()[p].id@ == k);
                    self.lemma_get_at(p);
                    pre.lemma_get_at(p);
                } else if pre.has_id(k) {
                    let q = choose|q: int|
                        0 <= q < pre.entries().len() && pre.entries()[q].id@ == k;
                    assert(self.entries()[q].id@ == k);
                }
            }
            assert forall|k: Seq<u8>| #[trigger]
                self.has_id(k) <==> (pre.has_id(k) || k == id@) by {
                if self.has_id(k) {
                    let p = choose|p: int|
                        0 <= p < self.entries().len() && self.entries()[p].id@ == k;
                    if p < n {
                        assert(pre.entries()[p].id@ == k);
                    }
                }
                if pre.has_id(k) {
                    let q = choose|q: int|
                        0 <= q < pre.entries().len() && pre.entries()[q].id@ == k;
                    assert(self.entries()[q].id@ == k);
                }
            }
        }
        id
    }

    /// Fetch the block stored under an identifier; an absent identifier is a
    /// distinct failure, not an empty result.
    pub fn get(&self, id: &[u8]) -> (r: Result<Vec<u8>, FsError>)
        requires
            self.wf(),
        ensures
            match r {
                Ok(b) => self.spec_get(id@) == Some(b@),
                Err(e) => self.spec_get(id@) is None && e == FsError::NotFound,
            },
    {
        let mut i: usize = 0;
        while i < self.blocks.len()
            invariant
                self.wf(),
                i <= self.entries().len(),
                forall|j: int| 0 <= j < i ==> self.entries()[j].id@ != id@,
            decreases self.entries().len() - i,
        {
            if bytes_eq(self.blocks[i].id.as_slice(), id) {
                proof {
                    self.lemma_get_at(i as int);
                }
                return Ok(copy_bytes(self.blocks[i].bytes.as_slice()));
            }
            i = i + 1;
        }
        proof {
            assert(!self.has_id(id@));
        }
        Err(FsError::NotFound)
    }
}

} // verus!
