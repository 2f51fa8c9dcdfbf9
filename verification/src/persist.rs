//! Persisting nodes: a node is encoded, sealed under its capability key with
//! a fresh nonce, written to the block store, and its identifier folded into
//! the forest under the digest of its name label. Children are stored first,
//! each under the name and key derived from its parent's; every prior forest
//! mapping stays present.

use crate::blockstore::BlockStore;
use crate::crypto::{
    digest_of, opens_under, seal, seal_of, EntropySource, KEY_LEN, MAX_PLAINTEXT_LEN, NONCE_LEN,
};
use crate::directory::{node_wf, DirEntry, PrivateNode};
use crate::error::FsError;
use crate::file::PrivateFile;
use crate::forest::PrivateForest;
use crate::namelabel::{derive_key, spec_combine, Name};
use crate::util::{append_bytes, concat_all, copy_bytes, lemma_concat_all_push, spec_u64_le};
use crate::file::Metadata;
use vstd::prelude::*;
use vstd::string::*;
use vstd::utf8::encode_utf8;

verus! {

/// The two's-complement bits of a signed timestamp.
pub open spec fn i64_bits(x: i64) -> u64 {
    if x >= 0 {
        x as u64
    } else {
        (x + 0x10000000000000000) as u64
    }
}

pub open spec fn spec_encode_meta(m: Metadata) -> Seq<u8> {
    spec_u64_le(i64_bits(m.created)) + spec_u64_le(i64_bits(m.modified)) + spec_u64_le(m.size)
}

/// One directory entry record: the byte length of the name, then its bytes.
/// A child node is not inlined: it lives in its own block, under the name
/// and key derivable from this directory's.
pub open spec fn spec_encode_entries(entries: Seq<DirEntry>, i: int) -> Seq<u8>
    decreases entries.len() - i,
{
    if i < 0 || i >= entries.len() {
        Seq::<u8>::empty()
    } else {
        spec_u64_le(encode_utf8(entries[i].name@).len() as u64) + encode_utf8(entries[i].name@)
            + spec_encode_entries(entries, i + 1)
    }
}

/// The plaintext record of a node, before sealing.
pub open spec fn spec_encode_node(n: PrivateNode) -> Seq<u8> {
    match n {
        PrivateNode::File(f) => seq![0u8] + spec_encode_meta(f.metadata) + f.key_view()
            + spec_u64_le(f.chunk_ids_view().len() as u64) + concat_all(f.chunk_ids_view()),
        PrivateNode::Dir(d) => seq![1u8] + spec_encode_meta(d.metadata) + spec_u64_le(
            d.entries@.len() as u64,
        ) + spec_encode_entries(d.entries@, 0),
    }
}

/// Whether every record in a subtree fits under the cipher's plaintext cap;
/// exactly then does a store of the subtree succeed.
pub open spec fn spec_encodable(n: PrivateNode) -> bool
    decreases n,
{
    &&& spec_encode_node(n).len() <= MAX_PLAINTEXT_LEN
    &&& match n {
        PrivateNode::File(_) => true,
        PrivateNode::Dir(d) => forall|i: int|
            0 <= i < d.entries@.len() ==> spec_encodable(#[trigger] d.entries@[i].node),
    }
}

fn encode_u64_le(out: &mut Vec<u8>, x: u64)
    ensures
        final(out)@ == old(out)@ + spec_u64_le(x),
{
    out.push((x % 256) as u8);
    out.push(((x / 256) % 256) as u8);
    out.push(((x / 0x10000) % 256) as u8);
    out.push(((x / 0x1000000) % 256) as u8);
    out.push(((x / 0x100000000) % 256) as u8);
    out.push(((x / 0x10000000000) % 256) as u8);
    out.push(((x / 0x1000000000000) % 256) as u8);
    out.push(((x / 0x100000000000000) % 256) as u8);
    proof {
        assert(out@ =~= old(out)@ + spec_u64_le(x));
    }
}

fn encode_i64_le(out: &mut Vec<u8>, x: i64)
    ensures
        final(out)@ == old(out)@ + spec_u64_le(i64_bits(x)),
{
    let bits: u64 = if x >= 0 {
        x as u64
    } else {
        ((x - i64::MIN) as u64) + 0x8000000000000000
    };
    proof {
        assert(bits == i64_bits(x));
    }
    encode_u64_le(out, bits);
}

fn encode_meta(out: &mut Vec<u8>, m: &Metadata)
    ensures
        final(out)@ == old(out)@ + spec_encode_meta(*m),
{
    encode_i64_le(out, m.created);
    encode_i64_le(out, m.modified);
    encode_u64_le(out, m.size);
    proof {
        assert(out@ =~= old(out)@ + spec_encode_meta(*m));
    }
}

/// The plaintext record of a node, as `spec_encode_node` states it.
fn encode_node(n: &PrivateNode) -> (r: Vec<u8>)
    ensures
        r@ == spec_encode_node(*n),
{
    let mut out: Vec<u8> = Vec::new();
    match n {
        PrivateNode::File(f) => {
            out.push(0u8);
            encode_meta(&mut out, &f.metadata);
            append_bytes(&mut out, f.key.as_slice());
            encode_u64_le(&mut out, f.chunk_ids.len() as u64);
            let ghost base = out@;
            let mut j: usize = 0;
            proof {
                assert(f.chunk_ids_view().take(0) =~= Seq::<Seq<u8>>::empty());
            }
            while j < f.chunk_ids.len()
                invariant
                    j <= f.chunk_ids@.len(),
                    out@ == base + concat_all(f.chunk_ids_view().take(j as int)),
                decreases f.chunk_ids@.len() - j,
            {
                append_bytes(&mut out, f.chunk_ids[j].as_slice());
                proof {
                    assert(f.chunk_ids_view().take(j as int + 1) =~= f.chunk_ids_view().take(
                        j as int,
                    ).push(f.chunk_ids@[j as int]@));
                    lemma_concat_all_push(
                        f.chunk_ids_view().take(j as int),
                        f.chunk_ids@[j as int]@,
                    );
                    assert(out@ =~= base + concat_all(f.chunk_ids_view().take(j as int + 1)));
                }
                j = j + 1;
            }
            proof {
                assert(f.chunk_ids_view().take(f.chunk_ids@.len() as int) =~= f.chunk_ids_view());
                assert(out@ =~= spec_encode_node(*n));
            }
        },
        PrivateNode::Dir(d) => {
            out.push(1u8);
            encode_meta(&mut out, &d.metadata);
            encode_u64_le(&mut out, d.entries.len() as u64);
            let ghost base = out@;
            let mut j: usize = 0;
            while j < d.entries.len()
                invariant
                    j <= d.entries@.len(),
                    base + spec_encode_entries(d.entries@, 0) == out@ + spec_encode_entries(
                        d.entries@,
                        j as int,
                    ),
                decreases d.entries@.len() - j,
            {
                let ghost out0 = out@;
                let name_bytes = d.entries[j].name.as_str().as_bytes();
                encode_u64_le(&mut out, name_bytes.len() as u64);
                append_bytes(&mut out, name_bytes);
                proof {
                    assert(name_bytes@ == encode_utf8(d.entries@[j as int].name@));
                    assert(spec_encode_entries(d.entries@, j as int) == spec_u64_le(
                        encode_utf8(d.entries@[j as int].name@).len() as u64,
                    ) + encode_utf8(d.entries@[j as int].name@) + spec_encode_entries(
                        d.entries@,
                        j as int + 1,
                    ));
                    assert(out@ =~= out0 + spec_u64_le(encode_utf8(d.entries@[j as int].name@).len()
                        as u64) + encode_utf8(d.entries@[j as int].name@));
                    assert(out@ + spec_encode_entries(d.entries@, j as int + 1) =~= out0
                        + spec_encode_entries(d.entries@, j as int));
                }
                j = j + 1;
            }
            proof {
                assert(spec_encode_entries(d.entries@, d.entries@.len() as int)
                    =~= Seq::<u8>::empty());
                assert(out@ + spec_encode_entries(d.entries@, d.entries@.len() as int) =~= out@);
                assert(out@ =~= base + spec_encode_entries(d.entries@, 0));
                assert(out@ =~= spec_encode_node(*n));
            }
        },
    }
    out
}

/// The forest records some revision under the digest of a label.
pub open spec fn label_recorded(f: PrivateForest, label_acc: Seq<u8>) -> bool {
    exists|v: Seq<u8>| #[trigger] f.contains_id(digest_of(label_acc), v)
}

proof fn lemma_label_recorded_mono(f1: PrivateForest, f2: PrivateForest, label_acc: Seq<u8>)
    requires
        label_recorded(f1, label_acc),
        forall|k: Seq<u8>, v: Seq<u8>| f1.contains_id(k, v) ==> f2.contains_id(k, v),
    ensures
        label_recorded(f2, label_acc),
{
    let v = choose|v: Seq<u8>| f1.contains_id(digest_of(label_acc), v);
    assert(f2.contains_id(digest_of(label_acc), v));
}

impl PrivateNode {
    /// Persist this subtree: children first, each under the name label and
    /// capability key derived from its parent's, then this node's sealed
    /// record, folding each block's identifier into the forest. Returns the
    /// new forest root; every mapping of the given forest is still present.
    /// Succeeds exactly when every record fits the cipher's plaintext cap.
    pub fn store(
        &self,
        name: &Name,
        key: &Vec<u8>,
        forest: &PrivateForest,
        store: &mut BlockStore,
        rng: &mut EntropySource,
    ) -> (r: Result<PrivateForest, FsError>)
        requires
            node_wf(*self),
            name.wf(),
            key@.len() == KEY_LEN,
            forest.wf(),
            old(store).wf(),
        ensures
            final(store).wf(),
            forall|k: Seq<u8>|
                final(store).spec_get(k) != old(store).spec_get(k) ==> final(store).spec_get(
                    k,
                ) is Some,
            r is Ok <==> spec_encodable(*self),
            match r {
                Ok(f2) => {
                    &&& f2.wf()
                    &&& f2.setup_view() == forest.setup_view()
                    &&& forall|k: Seq<u8>, v: Seq<u8>|
                        forest.contains_id(k, v) ==> f2.contains_id(k, v)
                    &&& exists|nonce: Seq<u8>|
                        #![auto]
                        nonce.len() == NONCE_LEN && final(store).spec_get(
                            digest_of(nonce + seal_of(key@, nonce, spec_encode_node(*self))),
                        ) == Some(nonce + seal_of(key@, nonce, spec_encode_node(*self)))
                            && f2.contains_id(
                            digest_of(name@),
                            digest_of(nonce + seal_of(key@, nonce, spec_encode_node(*self))),
                        )
                    &&& label_recorded(f2, name@)
                    &&& (*self matches PrivateNode::Dir(d) ==> forall|i: int|
                        0 <= i < d.entries@.len() ==> label_recorded(
                            f2,
                            spec_combine(name@, encode_utf8(#[trigger] d.entries@[i].name@)),
                        ))
                },
                Err(e) => e == FsError::Conflict,
            },
    {
        let f = forest.duplicate();
        store_node_rec(self, name, key, f, store, rng)
    }
}

/// The reverse flow of `store` for one node: resolve the name label through
/// the forest, fetch one recorded revision's block from the store, split off
/// its nonce and open the rest under the capability key. What comes back is
/// the plaintext record of a node that was sealed under this name and key.
/// An empty bucket or an absent block is `NotFound`; a block the key does
/// not open is `DecryptionFailure`.
pub fn load_record(
    name: &Name,
    key: &Vec<u8>,
    forest: &PrivateForest,
    store: &BlockStore,
) -> (r: Result<Vec<u8>, FsError>)
    requires
        name.wf(),
        key@.len() == KEY_LEN,
        forest.wf(),
        store.wf(),
    ensures
        match r {
            Ok(rec) => exists|id: Seq<u8>, nonce: Seq<u8>|
                #![auto]
                forest.contains_id(digest_of(name@), id) && nonce.len() == NONCE_LEN
                    && store.spec_get(id) == Some(nonce + seal_of(key@, nonce, rec@)),
            Err(e) => e == FsError::NotFound || e == FsError::DecryptionFailure,
        },
        (forest.has_key(digest_of(name@)) && forall|id: Seq<u8>|
            #[trigger] forest.contains_id(digest_of(name@), id) ==> store.spec_get(id) is Some
                && opens_under(store.spec_get(id).unwrap(), key@)) ==> r is Ok,
        r == Err::<Vec<u8>, FsError>(FsError::NotFound) ==> !forest.has_key(digest_of(name@))
            || exists|id: Seq<u8>|
            #[trigger] forest.contains_id(digest_of(name@), id) && store.spec_get(id) is None,
        r == Err::<Vec<u8>, FsError>(FsError::DecryptionFailure) ==> exists|id: Seq<u8>|
            #[trigger] forest.contains_id(digest_of(name@), id) && store.spec_get(id) is Some
                && !opens_under(store.spec_get(id).unwrap(), key@),
        !forest.has_key(digest_of(name@)) ==> r == Err::<Vec<u8>, FsError>(FsError::NotFound),
{
    let label = name.digest();
    let ids = forest.get(label.as_slice());
    if ids.len() == 0 {
        return Err(FsError::NotFound);
    }
    proof {
        assert(forest.contains_id(digest_of(name@), ids@[0]@));
        forest.lemma_contains_implies_has_key(digest_of(name@), ids@[0]@);
    }
    let block = match store.get(ids[0].as_slice()) {
        Ok(b) => b,
        Err(_) => {
            return Err(FsError::NotFound);
        },
    };
    proof {
        assert(store.spec_get(ids@[0]@) == Some(block@));
    }
    if block.len() < 12 {
        proof {
            assert(!opens_under(block@, key@));
        }
        return Err(FsError::DecryptionFailure);
    }
    let nonce = crate::util::sub_bytes(block.as_slice(), 0, 12);
    let ct = crate::util::sub_bytes(block.as_slice(), 12, block.len());
    match crate::crypto::open_sealed(key.as_slice(), nonce.as_slice(), ct.as_slice()) {
        Some(rec) => {
            proof {
                assert(forest.contains_id(digest_of(name@), ids@[0]@));
                assert(block@ =~= nonce@ + ct@);
                assert(ct@ == seal_of(key@, nonce@, rec@));
                assert(store.spec_get(ids@[0]@) == Some(nonce@ + seal_of(key@, nonce@, rec@)));
            }
            Ok(rec)
        },
        None => {
            proof {
                if opens_under(block@, key@) {
                    let pt = choose|pt: Seq<u8>|
                        block@.len() >= NONCE_LEN && block@.subrange(
                            NONCE_LEN as int,
                            block@.len() as int,
                        ) == seal_of(key@, block@.subrange(0, NONCE_LEN as int), pt);
                    assert(nonce@ == block@.subrange(0, NONCE_LEN as int));
                    assert(ct@ == block@.subrange(NONCE_LEN as int, block@.len() as int));
                    assert(ct@ == seal_of(key@, nonce@, pt));
                    assert(false);
                }
            }
            Err(FsError::DecryptionFailure)
        },
    }
}

#[verifier::rlimit(50)]
#[verifier::spinoff_prover]
fn store_node_rec(
    n: &PrivateNode,
    name: &Name,
    key: &Vec<u8>,
    forest: PrivateForest,
    store: &mut BlockStore,
    rng: &mut EntropySource,
) -> (r: Result<PrivateForest, FsError>)
    requires
        node_wf(*n),
        name.wf(),
        key@.len() == KEY_LEN,
        forest.wf(),
        old(store).wf(),
    ensures
        final(store).wf(),
        forall|k: Seq<u8>|
            final(store).spec_get(k) != old(store).spec_get(k) ==> final(store).spec_get(
                k,
            ) is Some,
        r is Ok <==> spec_encodable(*n),
        match r {
            Ok(f2) => {
                &&& f2.wf()
                &&& f2.setup_view() == forest.setup_view()
                &&& forall|k: Seq<u8>, v: Seq<u8>| forest.contains_id(k, v) ==> f2.contains_id(k, v)
                &&& exists|nonce: Seq<u8>|
                    #![auto]
                    nonce.len() == NONCE_LEN && final(store).spec_get(
                        digest_of(nonce + seal_of(key@, nonce, spec_encode_node(*n))),
                    ) == Some(nonce + seal_of(key@, nonce, spec_encode_node(*n)))
                        && f2.contains_id(
                        digest_of(name@),
                        digest_of(nonce + seal_of(key@, nonce, spec_encode_node(*n))),
                    )
                &&& label_recorded(f2, name@)
                &&& (*n matches PrivateNode::Dir(d) ==> forall|i: int|
                    0 <= i < d.entries@.len() ==> label_recorded(
                        f2,
                        spec_combine(name@, encode_utf8(#[trigger] d.entries@[i].name@)),
                    ))
            },
            Err(e) => e == FsError::Conflict,
        },
    decreases *n,
{
    let mut f = forest;
    let ghost forest0 = f;
    match n {
        PrivateNode::Dir(d) => {
            let mut idx: usize = 0;
            while idx < d.entries.len()
                invariant
                    node_wf(*n),
                    *n matches PrivateNode::Dir(d2) && d2 == *d,
                    name.wf(),
                    key@.len() == KEY_LEN,
                    idx <= d.entries@.len(),
                    f.wf(),
                    f.setup_view() == forest0.setup_view(),
                    store.wf(),
                    forall|k: Seq<u8>|
                        store.spec_get(k) != old(store).spec_get(k) ==> store.spec_get(
                            k,
                        ) is Some,
                    forall|k: Seq<u8>, v: Seq<u8>|
                        forest0.contains_id(k, v) ==> f.contains_id(k, v),
                    forall|p: int| 0 <= p < idx ==> spec_encodable(#[trigger] d.entries@[p].node),
                    forall|p: int|
                        0 <= p < idx ==> label_recorded(
                            f,
                            spec_combine(name@, encode_utf8(#[trigger] d.entries@[p].name@)),
                        ),
                decreases d.entries@.len() - idx,
            {
                let child_name = name.derive(d.entries[idx].name.as_str());
                let child_key = derive_key(key.as_slice(), d.entries[idx].name.as_str());
                proof {
                    assert(node_wf(d.entries@[idx as int].node));
                }
                let ghost f_pre = f;
                match store_node_rec(&d.entries[idx].node, &child_name, &child_key, f, store, rng) {
                    Ok(f2) => {
                        proof {
                            assert(child_name@ == spec_combine(
                                name@,
                                encode_utf8(d.entries@[idx as int].name@),
                            ));
                            assert forall|p: int| 0 <= p <= idx as int implies label_recorded(
                                f2,
                                spec_combine(name@, encode_utf8(#[trigger] d.entries@[p].name@)),
                            ) by {
                                if p < idx as int {
                                    lemma_label_recorded_mono(
                                        f_pre,
                                        f2,
                                        spec_combine(name@, encode_utf8(d.entries@[p].name@)),
                                    );
                                } else {
                                    assert(label_recorded(f2, child_name@));
                                }
                            }
                        }
                        f = f2;
                    },
                    Err(e) => {
                        proof {
                            assert(!spec_encodable(d.entries@[idx as int].node));
                            assert(!spec_encodable(*n));
                        }
                        return Err(e);
                    },
                }
                idx = idx + 1;
            }
        },
        PrivateNode::File(_) => {
        },
    }
    let encoded = encode_node(n);
    if encoded.len() > MAX_PLAINTEXT_LEN {
        proof {
            assert(!spec_encodable(*n));
        }
        return Err(FsError::Conflict);
    }
    proof {
        assert(spec_encodable(*n));
    }
    let nonce = rng.fresh_nonce();
    let sealed = seal(key.as_slice(), nonce.as_slice(), encoded.as_slice());
    let mut block = copy_bytes(nonce.as_slice());
    append_bytes(&mut block, sealed.as_slice());
    let id = store.put(copy_bytes(block.as_slice()));
    let label = name.digest();
    let f2 = f.put(label.as_slice(), id.as_slice());
    proof {
        let nn = nonce@;
        assert(block@ =~= nn + seal_of(key@, nn, spec_encode_node(*n)));
        assert(store.spec_get(digest_of(block@)) == Some(block@));
        assert(f2.contains_id(digest_of(name@), digest_of(block@)));
        assert(label_recorded(f2, name@));
        if let PrivateNode::Dir(d) = n {
            assert forall|i: int| 0 <= i < d.entries@.len() implies label_recorded(
                f2,
                spec_combine(name@, encode_utf8(#[trigger] d.entries@[i].name@)),
            ) by {
                lemma_label_recorded_mono(
                    f,
                    f2,
                    spec_combine(name@, encode_utf8(d.entries@[i].name@)),
                );
            }
        }
    }
    Ok(f2)
}

} // verus!
