use private_forest::blockstore::BlockStore;
use private_forest::crypto::EntropySource;
use private_forest::error::FsError;
use private_forest::forest::PrivateForest;

fn rng_from(tag: u8) -> EntropySource {
    EntropySource::new(vec![tag, 7, 42, 99])
}

#[test]
fn block_store_round_trip() {
    let mut store = BlockStore::new();
    let id = store.put(vec![1, 2, 3, 4, 5]);
    assert_eq!(id.len(), 32);
    let back = store.get(id.as_slice()).unwrap();
    assert_eq!(back, vec![1, 2, 3, 4, 5]);
}

#[test]
fn block_store_put_is_idempotent() {
    let mut store = BlockStore::new();
    let id1 = store.put(vec![9, 9, 9]);
    let len_after_first = store.len();
    let id2 = store.put(vec![9, 9, 9]);
    assert_eq!(id1, id2);
    assert_eq!(store.len(), len_after_first);
    let id3 = store.put(vec![9, 9, 8]);
    assert_ne!(id1, id3);
    assert_eq!(store.len(), len_after_first + 1);
}

#[test]
fn block_store_missing_id_not_found() {
    let store = BlockStore::new();
    let absent = vec![0u8; 32];
    assert_eq!(store.get(absent.as_slice()), Err(FsError::NotFound));
}

#[test]
fn forest_put_get_contains() {
    let mut rng = rng_from(1);
    let forest = PrivateForest::new(&mut rng);
    let key = vec![5u8; 32];
    let id = vec![6u8; 32];
    let forest2 = forest.put(key.as_slice(), id.as_slice());
    let bucket = forest2.get(key.as_slice());
    assert_eq!(bucket.len(), 1);
    assert_eq!(bucket[0], id);
    // The first forest value is untouched.
    assert_eq!(forest.get(key.as_slice()).len(), 0);
    // A second put of the same pair does not duplicate.
    let forest3 = forest2.put(key.as_slice(), id.as_slice());
    assert_eq!(forest3.get(key.as_slice()).len(), 1);
}

#[test]
fn forest_merge_unions_buckets() {
    let mut rng = rng_from(2);
    let base = PrivateForest::new(&mut rng);
    let k1 = vec![1u8; 32];
    let k2 = vec![2u8; 32];
    let v1 = vec![11u8; 32];
    let v2 = vec![22u8; 32];
    let a = base.put(k1.as_slice(), v1.as_slice());
    let b = base.put(k2.as_slice(), v2.as_slice());
    let m = a.merge(&b);
    // Disjoint additions: each key's bucket matches the originating forest.
    assert_eq!(m.get(k1.as_slice()), a.get(k1.as_slice()));
    assert_eq!(m.get(k2.as_slice()), b.get(k2.as_slice()));
    // Divergent buckets under one key become the union.
    let v3 = vec![33u8; 32];
    let a2 = base.put(k1.as_slice(), v1.as_slice());
    let b2 = base.put(k1.as_slice(), v3.as_slice());
    let m2 = a2.merge(&b2);
    let bucket = m2.get(k1.as_slice());
    assert_eq!(bucket.len(), 2);
    assert!(bucket.contains(&v1));
    assert!(bucket.contains(&v3));
}

#[test]
fn name_digests_show_no_path_structure() {
    let mut rng = rng_from(3);
    let forest = PrivateForest::new(&mut rng);
    let root = forest.empty_name();
    // Paths sharing long plaintext prefixes, in lexicographic order.
    let mut digests: Vec<Vec<u8>> = Vec::new();
    for a in 0..6 {
        for b in 0..5 {
            let seg1 = format!("directory_{}", a);
            let seg2 = format!("file_{}.json", b);
            let name = root.derive(&seg1).derive(&seg2);
            digests.push(name.digest());
        }
    }
    // Pairwise distinct, and no two share even a 4-byte prefix.
    for i in 0..digests.len() {
        for j in 0..digests.len() {
            if i != j {
                assert_ne!(digests[i], digests[j]);
                assert_ne!(digests[i][0..4], digests[j][0..4]);
            }
        }
    }
    // No order preservation: digests of lexicographically ordered paths are
    // not themselves ordered.
    let mut sorted = digests.clone();
    sorted.sort();
    assert_ne!(sorted, digests);
}

#[test]
fn forest_root_names_differ_per_instance() {
    let mut rng = rng_from(4);
    let f1 = PrivateForest::new(&mut rng);
    let f2 = PrivateForest::new(&mut rng);
    assert_ne!(f1.empty_name().digest(), f2.empty_name().digest());
}

#[test]
fn block_identifier_is_sha256_of_bytes() {
    let mut store = BlockStore::new();
    let bytes = b"hello blocks".to_vec();
    let id = store.put(bytes.clone());
    let expected = <sha2::Sha256 as sha2::Digest>::digest(&bytes).to_vec();
    assert_eq!(id, expected);
}

#[test]
fn entropy_expansion_is_deterministic() {
    let mut a = EntropySource::new(vec![1, 2, 3]);
    let mut b = EntropySource::new(vec![1, 2, 3]);
    assert_eq!(a.fresh_key(), b.fresh_key());
    assert_eq!(a.fresh_nonce(), b.fresh_nonce());
    let mut c = EntropySource::new(vec![1, 2, 3]);
    let k1 = c.fresh_key();
    let k2 = c.fresh_key();
    assert_ne!(k1, k2);
    let mut d = EntropySource::new(vec![9, 9, 9]);
    assert_ne!(d.fresh_key(), k1);
}
