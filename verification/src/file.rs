//! Private files: content is split into chunks, each sealed under the file's
//! content key with its own nonce and written to the block store as an
//! independently decryptable block, so reading never needs the whole file in
//! one pass.

use crate::blockstore::BlockStore;
use crate::crypto::{
    digest_of, open_sealed, opens_under, seal, seal_of, sha256, EntropySource, KEY_LEN, NONCE_LEN,
};
use crate::error::FsError;
use crate::namelabel::Name;
use crate::util::{append_bytes, bytes_eq, concat_all, copy_bytes, lemma_concat_all_push, sub_bytes};
use vstd::prelude::*;

verus! {

#[derive(Clone, Copy, Debug, PartialEq, Eq, Structural)]
pub enum NodeKind {
    File,
    Directory,
}

/// What a listing reports of a node: its kind, timestamps and content size.
#[derive(Clone, Copy, Debug, PartialEq, Eq, Structural)]
pub struct Metadata {
    pub kind: NodeKind,
    pub created: i64,
    pub modified: i64,
    pub size: u64,
}

/// One content chunk as the contracts see it: the nonce its block was sealed
/// with, and its plaintext bytes.
pub ghost struct FileChunk {
    pub nonce: Seq<u8>,
    pub data: Seq<u8>,
}

/// Content is chunked into pieces of at most this many bytes.
pub const CHUNK_SIZE: usize = 1024;

/// A private file node: metadata, a content key, and the identifiers of its
/// sealed content blocks. Until it is linked into a directory it is detached,
/// and building one touches nothing but the block store.
pub struct PrivateFile {
    pub metadata: Metadata,
    pub key: Vec<u8>,
    pub chunk_ids: Vec<Vec<u8>>,
    pub repr: Ghost<Seq<FileChunk>>,
}

impl PrivateFile {
    pub open spec fn key_view(self) -> Seq<u8> {
        self.key@
    }

    pub open spec fn chunks(self) -> Seq<FileChunk> {
        self.repr@
    }

    pub open spec fn chunk_ids_view(self) -> Seq<Seq<u8>> {
        self.chunk_ids@.map_values(|v: Vec<u8>| v@)
    }

    /// The plaintext content of the file: its chunks laid end to end.
    pub open spec fn content(self) -> Seq<u8> {
        concat_all(self.chunks().map_values(|c: FileChunk| c.data))
    }

    /// The stored block of chunk `i`: its nonce followed by the sealed data.
    pub open spec fn chunk_block(self, i: int) -> Seq<u8> {
        self.chunks()[i].nonce + seal_of(self.key_view(), self.chunks()[i].nonce, self.chunks()[i].data)
    }

    pub open spec fn wf(self) -> bool {
        &&& self.key_view().len() == KEY_LEN
        &&& self.chunk_ids_view().len() == self.chunks().len()
        &&& forall|i: int|
            0 <= i < self.chunks().len() ==> (#[trigger] self.chunks()[i]).nonce.len() == NONCE_LEN
        &&& forall|i: int|
            0 <= i < self.chunks().len() ==> #[trigger] self.chunk_ids_view()[i] == digest_of(
                self.chunk_block(i),
            )
        &&& self.metadata.size == self.content().len()
        &&& self.metadata.kind == NodeKind::File
    }

    /// Every content block of the file sits in the store exactly as sealed.
    pub open spec fn stored_in(self, store: BlockStore) -> bool {
        forall|i: int|
            0 <= i < self.chunks().len() ==> store.spec_get(#[trigger] self.chunk_ids_view()[i])
                == Some(self.chunk_block(i))
    }

    /// A fresh detached file with empty content.
    pub fn new(time: i64, rng: &mut EntropySource) -> (r: Self)
        ensures
            r.wf(),
            r.content() == Seq::<u8>::empty(),
            forall|s: BlockStore| r.stored_in(s),
            r.metadata == (Metadata {
                kind: NodeKind::File,
                created: time,
                modified: time,
                size: 0,
            }),
    {
        let r = PrivateFile {
            metadata: Metadata { kind: NodeKind::File, created: time, modified: time, size: 0 },
            key: rng.fresh_key(),
            chunk_ids: Vec::new(),
            repr: Ghost(Seq::empty()),
        };
        proof {
            assert(r.chunks().map_values(|c: FileChunk| c.data) =~= Seq::<Seq<u8>>::empty());
            assert(r.content() =~= Seq::<u8>::empty());
            assert(r.chunk_ids_view() =~= Seq::<Seq<u8>>::empty());
        }
        r
    }

    /// Build a detached file holding `content`: the bytes are chunked, each
    /// chunk sealed under a fresh content key and written to the store. The
    /// node is linked into no directory. Fails only if two distinct written
    /// blocks ever collided on one digest, which a collision-resistant digest
    /// never produces.
    pub fn with_content(
        name: &Name,
        time: i64,
        content: Vec<u8>,
        store: &mut BlockStore,
        rng: &mut EntropySource,
    ) -> (r: Result<PrivateFile, FsError>)
        requires
            name.wf(),
            old(store).wf(),
        ensures
            final(store).wf(),
            forall|k: Seq<u8>|
                final(store).spec_get(k) != old(store).spec_get(k) ==> final(store).spec_get(
                    k,
                ) is Some,
            match r {
                Ok(f) => {
                    &&& f.wf()
                    &&& f.content() == content@
                    &&& f.stored_in(*final(store))
                    &&& f.metadata == (Metadata {
                        kind: NodeKind::File,
                        created: time,
                        modified: time,
                        size: content@.len() as u64,
                    })
                },
                Err(e) => e == FsError::Conflict && exists|b1: Seq<u8>, b2: Seq<u8>|
                    b1 != b2 && digest_of(b1) == digest_of(b2),
            },
    {
        let mut key_material = copy_bytes(name.acc.as_slice());
        let fresh = rng.fresh_key();
        append_bytes(&mut key_material, fresh.as_slice());
        let key = sha256(key_material.as_slice());

        let mut chunk_ids: Vec<Vec<u8>> = Vec::new();
        let mut written: Vec<Vec<u8>> = Vec::new();
        let ghost mut chunks: Seq<FileChunk> = Seq::empty();
        let mut pos: usize = 0;
        proof {
            assert(chunks.map_values(|c: FileChunk| c.data) =~= Seq::<Seq<u8>>::empty());
            assert(content@.take(0) =~= Seq::<u8>::empty());
        }
        while pos < content.len()
            invariant
                store.wf(),
                pos <= content@.len(),
                key@.len() == KEY_LEN,
                chunk_ids@.len() == chunks.len(),
                written@.len() == chunks.len(),
                forall|i: int|
                    0 <= i < chunks.len() ==> (#[trigger] chunks[i]).nonce.len() == NONCE_LEN,
                forall|i: int|
                    0 <= i < chunks.len() ==> #[trigger] written@[i]@ == chunks[i].nonce + seal_of(
                        key@,
                        chunks[i].nonce,
                        chunks[i].data,
                    ),
                forall|i: int|
                    0 <= i < chunks.len() ==> #[trigger] chunk_ids@[i]@ == digest_of(written@[i]@)
                        && chunk_ids@[i]@.len() == 32,
                forall|i: int|
                    0 <= i < chunks.len() ==> store.spec_get(#[trigger] chunk_ids@[i]@) == Some(
                        written@[i]@,
                    ),
                concat_all(chunks.map_values(|c: FileChunk| c.data)) == content@.take(pos as int),
                forall|k: Seq<u8>|
                    store.spec_get(k) != old(store).spec_get(k) ==> store.spec_get(k) is Some,
            decreases content@.len() - pos,
        {
            let end: usize = if content.len() - pos > CHUNK_SIZE {
                pos + CHUNK_SIZE
            } else {
                content.len()
            };
            let data = sub_bytes(content.as_slice(), pos, end);
            let nonce = rng.fresh_nonce();
            let sealed = seal(key.as_slice(), nonce.as_slice(), data.as_slice());
            let mut block = copy_bytes(nonce.as_slice());
            append_bytes(&mut block, sealed.as_slice());
            let ghost pre_store = *store;
            let id = store.put(copy_bytes(block.as_slice()));

            // A block written earlier must still sit under its identifier;
            // the write above could displace it only on a digest collision.
            let mut p: usize = 0;
            while p < written.len()
                invariant
                    store.wf(),
                    forall|k: Seq<u8>|
                        store.spec_get(k) != old(store).spec_get(k) ==> store.spec_get(k) is Some,
                    written@.len() == chunk_ids@.len(),
                    p <= written@.len(),
                    id@ == digest_of(block@),
                    forall|i: int|
                        0 <= i < written@.len() ==> #[trigger] chunk_ids@[i]@ == digest_of(
                            written@[i]@,
                        ),
                    forall|j: int| 0 <= j < p ==> (#[trigger] chunk_ids@[j]@ == id@ ==> written@[j]@
                        == block@),
                decreases written@.len() - p,
            {
                if bytes_eq(chunk_ids[p].as_slice(), id.as_slice()) {
                    if !bytes_eq(written[p].as_slice(), block.as_slice()) {
                        proof {
                            assert(chunk_ids@[p as int]@ == digest_of(written@[p as int]@));
                            assert(digest_of(written@[p as int]@) == digest_of(block@));
                            assert(written@[p as int]@ != block@);
                        }
                        return Err(FsError::Conflict);
                    }
                }
                p = p + 1;
            }

            chunk_ids.push(id);
            written.push(block);
            proof {
                let c = FileChunk { nonce: nonce@, data: data@ };
                let old_chunks = chunks;
                chunks = chunks.push(c);
                assert(chunks.map_values(|c2: FileChunk| c2.data) =~= old_chunks.map_values(
                    |c2: FileChunk| c2.data,
                ).push(data@));
                lemma_concat_all_push(old_chunks.map_values(|c2: FileChunk| c2.data), data@);
                assert(content@.take(pos as int) + content@.subrange(pos as int, end as int)
                    =~= content@.take(end as int));
                assert(concat_all(chunks.map_values(|c2: FileChunk| c2.data)) == content@.take(
                    end as int,
                ));
                assert forall|i: int|
                    0 <= i < chunks.len() implies store.spec_get(#[trigger] chunk_ids@[i]@)
                    == Some(written@[i]@) by {
                    if i < chunks.len() - 1 {
                        if chunk_ids@[i]@ == id@ {
                            assert(written@[i]@ == block@);
                        } else {
                            assert(store.spec_get(chunk_ids@[i]@) == pre_store.spec_get(
                                chunk_ids@[i]@,
                            ));
                        }
                    }
                }
            }
            pos = end;
        }
        proof {
            assert(content@.take(content@.len() as int) =~= content@);
        }
        let size: u64 = content.len() as u64;
        let f = PrivateFile {
            metadata: Metadata { kind: NodeKind::File, created: time, modified: time, size },
            key,
            chunk_ids,
            repr: Ghost(chunks),
        };
        proof {
            assert forall|i: int| 0 <= i < f.chunks().len() implies #[trigger] f.chunk_ids_view()[i]
                == digest_of(f.chunk_block(i)) by {
                assert(f.chunk_ids_view()[i] == chunk_ids@[i]@);
                assert(f.chunk_block(i) == written@[i]@);
            }
            assert forall|i: int|
                0 <= i < f.chunks().len() implies store.spec_get(#[trigger] f.chunk_ids_view()[i])
                == Some(f.chunk_block(i)) by {
                assert(f.chunk_ids_view()[i] == chunk_ids@[i]@);
                assert(f.chunk_block(i) == written@[i]@);
            }
        }
        Ok(f)
    }

    /// Read the whole content back: fetch every chunk block, open it with the
    /// content key, and concatenate. On a file whose blocks all sit in the
    /// store as sealed, this returns exactly the content; an absent block is
    /// `NotFound`, a block the key does not open is `DecryptionFailure`.
    pub fn get_content(&self, store: &BlockStore) -> (r: Result<Vec<u8>, FsError>)
        requires
            self.wf(),
            store.wf(),
        ensures
            self.stored_in(*store) ==> (r matches Ok(c) && c@ == self.content()),
            r is Err ==> !self.stored_in(*store),
            r == Err::<Vec<u8>, FsError>(FsError::NotFound) ==> exists|i: int|
                0 <= i < self.chunks().len() && store.spec_get(
                    #[trigger] self.chunk_ids_view()[i],
                ) is None,
            r == Err::<Vec<u8>, FsError>(FsError::DecryptionFailure) ==> exists|i: int|
                0 <= i < self.chunks().len() && store.spec_get(
                    #[trigger] self.chunk_ids_view()[i],
                ) is Some && !opens_under(
                    store.spec_get(self.chunk_ids_view()[i]).unwrap(),
                    self.key_view(),
                ),
            r matches Ok(c) ==> c@ == self.content() || exists|b1: Seq<u8>, b2: Seq<u8>|
                b1 != b2 && digest_of(b1) == digest_of(b2),
    {
        let mut out: Vec<u8> = Vec::new();
        let mut i: usize = 0;
        proof {
            assert(self.chunks().map_values(|c: FileChunk| c.data).take(0)
                =~= Seq::<Seq<u8>>::empty());
        }
        while i < self.chunk_ids.len()
            invariant
                self.wf(),
                store.wf(),
                i <= self.chunks().len(),
                self.stored_in(*store) ==> out@ == concat_all(
                    self.chunks().map_values(|c: FileChunk| c.data).take(i as int),
                ),
                forall|p: int|
                    0 <= p < i ==> store.spec_get(#[trigger] self.chunk_ids_view()[p]) is Some,
            decreases self.chunks().len() - i,
        {
            proof {
                assert(self.chunk_ids_view()[i as int] == self.chunk_ids@[i as int]@);
            }
            let block = match store.get(self.chunk_ids[i].as_slice()) {
                Ok(b) => b,
                Err(_) => {
                    proof {
                        if self.stored_in(*store) {
                            assert(store.spec_get(self.chunk_ids_view()[i as int]) == Some(
                                self.chunk_block(i as int),
                            ));
                        }
                    }
                    return Err(FsError::NotFound);
                },
            };
            if block.len() < 12 {
                proof {
                    if self.stored_in(*store) {
                        assert(block@ == self.chunk_block(i as int));
                        assert(block@.len() >= NONCE_LEN);
                    }
                    assert(store.spec_get(self.chunk_ids_view()[i as int]) == Some(block@));
                    assert(!opens_under(block@, self.key_view()));
                }
                return Err(FsError::DecryptionFailure);
            }
            let nonce = sub_bytes(block.as_slice(), 0, 12);
            let ct = sub_bytes(block.as_slice(), 12, block.len());
            proof {
                if self.stored_in(*store) {
                    assert(block@ == self.chunk_block(i as int));
                    let c = self.chunks()[i as int];
                    assert((c.nonce + seal_of(self.key_view(), c.nonce, c.data)).subrange(0, 12)
                        =~= c.nonce);
                    assert((c.nonce + seal_of(self.key_view(), c.nonce, c.data)).subrange(
                        12,
                        block@.len() as int,
                    ) =~= seal_of(self.key_view(), c.nonce, c.data));
                    assert(nonce@ == c.nonce);
                    assert(ct@ == seal_of(self.key_view(), nonce@, c.data));
                }
            }
            match open_sealed(self.key.as_slice(), nonce.as_slice(), ct.as_slice()) {
                Some(pt) => {
                    proof {
                        if self.stored_in(*store) {
                            let c = self.chunks()[i as int];
                            assert(pt@ == c.data);
                            let datas = self.chunks().map_values(|c2: FileChunk| c2.data);
                            assert(datas.take(i as int + 1) =~= datas.take(i as int).push(c.data));
                            lemma_concat_all_push(datas.take(i as int), c.data);
                        }
                    }
                    append_bytes(&mut out, pt.as_slice());
                },
                None => {
                    proof {
                        if self.stored_in(*store) {
                            let c = self.chunks()[i as int];
                            assert(ct@ == seal_of(self.key_view(), nonce@, c.data));
                        }
                        assert(store.spec_get(self.chunk_ids_view()[i as int]) == Some(block@));
                        if opens_under(block@, self.key_view()) {
                            let pt = choose|pt: Seq<u8>|
                                block@.len() >= NONCE_LEN && block@.subrange(
                                    NONCE_LEN as int,
                                    block@.len() as int,
                                ) == seal_of(
                                    self.key_view(),
                                    block@.subrange(0, NONCE_LEN as int),
                                    pt,
                                );
                            assert(nonce@ == block@.subrange(0, NONCE_LEN as int));
                            assert(ct@ == block@.subrange(NONCE_LEN as int, block@.len() as int));
                            assert(ct@ == seal_of(self.key_view(), nonce@, pt));
                            assert(false);
                        }
                    }
                    return Err(FsError::DecryptionFailure);
                },
            }
            i = i + 1;
        }
        proof {
            if self.stored_in(*store) {
                let datas = self.chunks().map_values(|c2: FileChunk| c2.data);
                assert(datas.take(datas.len() as int) =~= datas);
            } else {
                let p = choose|p: int|
                    0 <= p < self.chunks().len() && store.spec_get(
                        #[trigger] self.chunk_ids_view()[p],
                    ) != Some(self.chunk_block(p));
                let b = store.spec_get(self.chunk_ids_view()[p]).unwrap();
                store.lemma_stored_digest(self.chunk_ids_view()[p]);
                assert(digest_of(b) == self.chunk_ids_view()[p]);
                assert(self.chunk_ids_view()[p] == digest_of(self.chunk_block(p)));
                assert(b != self.chunk_block(p));
                assert(digest_of(b) == digest_of(self.chunk_block(p)));
            }
        }
        Ok(out)
    }

    /// Rebind this node's content-block references, content key and size to
    /// `source`'s, without re-reading plaintext: the ciphertext is aliased,
    /// not re-encrypted. The node keeps its own creation time and takes
    /// `time` as its modification time; a later store persists this node.
    pub fn copy_content_from(&mut self, source: &PrivateFile, time: i64)
        requires
            old(self).wf(),
            source.wf(),
        ensures
            final(self).wf(),
            final(self).content() == source.content(),
            final(self).metadata.kind == NodeKind::File,
            final(self).metadata.created == old(self).metadata.created,
            final(self).metadata.modified == time,
            final(self).metadata.size == source.metadata.size,
            forall|s: BlockStore| final(self).stored_in(s) <==> source.stored_in(s),
    {
        self.key = copy_bytes(source.key.as_slice());
        let mut ids: Vec<Vec<u8>> = Vec::new();
        let mut i: usize = 0;
        while i < source.chunk_ids.len()
            invariant
                i <= source.chunk_ids@.len(),
                ids@.len() == i,
                forall|j: int| 0 <= j < i ==> #[trigger] ids@[j]@ == source.chunk_ids@[j]@,
            decreases source.chunk_ids@.len() - i,
        {
            ids.push(copy_bytes(source.chunk_ids[i].as_slice()));
            i = i + 1;
        }
        self.chunk_ids = ids;
        self.repr = Ghost(source.chunks());
        self.metadata = Metadata {
            kind: NodeKind::File,
            created: self.metadata.created,
            modified: time,
            size: source.metadata.size,
        };
        proof {
            assert(self.chunk_ids_view() =~= source.chunk_ids_view());
            assert(self.key_view() == source.key_view());
            assert(self.chunks() == source.chunks());
            assert forall|i2: int|
                0 <= i2 < self.chunks().len() implies #[trigger] self.chunk_block(i2)
                == source.chunk_block(i2) by {}
            assert forall|s: BlockStore| #[trigger]
                self.stored_in(s) <==> source.stored_in(s) by {
                if self.stored_in(s) {
                    assert forall|i2: int|
                        0 <= i2 < source.chunks().len() implies s.spec_get(
                        #[trigger] source.chunk_ids_view()[i2],
                    ) == Some(source.chunk_block(i2)) by {
                        assert(s.spec_get(self.chunk_ids_view()[i2]) == Some(
                            self.chunk_block(i2),
                        ));
                    }
                }
                if source.stored_in(s) {
                    assert forall|i2: int|
                        0 <= i2 < self.chunks().len() implies s.spec_get(
                        #[trigger] self.chunk_ids_view()[i2],
                    ) == Some(self.chunk_block(i2)) by {
                        assert(s.spec_get(source.chunk_ids_view()[i2]) == Some(
                            source.chunk_block(i2),
                        ));
                    }
                }
            }
        }
    }
}

/// Survival of stored content: a file whose sealed blocks a store holds
/// intact keeps them through any sequence of later writes — a write only
/// ever fills a key or re-fills it with a block of that digest — unless two
/// distinct byte strings collide on one digest.
pub proof fn lemma_stored_survives_writes(f: PrivateFile, s1: BlockStore, s2: BlockStore)
    requires
        f.wf(),
        s1.wf(),
        s2.wf(),
        f.stored_in(s1),
        forall|k: Seq<u8>| s2.spec_get(k) != s1.spec_get(k) ==> s2.spec_get(k) is Some,
    ensures
        f.stored_in(s2) || exists|b1: Seq<u8>, b2: Seq<u8>|
            b1 != b2 && digest_of(b1) == digest_of(b2),
{
    if !f.stored_in(s2) {
        let i = choose|i: int|
            0 <= i < f.chunks().len() && s2.spec_get(#[trigger] f.chunk_ids_view()[i]) != Some(
                f.chunk_block(i),
            );
        assert(s1.spec_get(f.chunk_ids_view()[i]) == Some(f.chunk_block(i)));
        let b = s2.spec_get(f.chunk_ids_view()[i]).unwrap();
        s2.lemma_stored_digest(f.chunk_ids_view()[i]);
        assert(digest_of(b) == f.chunk_ids_view()[i]);
        assert(f.chunk_ids_view()[i] == digest_of(f.chunk_block(i)));
        assert(b != f.chunk_block(i));
    }
}

} // verus!
