use private_forest::blockstore::BlockStore;
use private_forest::crypto::EntropySource;
use private_forest::error::FsError;
use private_forest::file::PrivateFile;
use private_forest::forest::PrivateForest;

fn setup(tag: u8) -> (PrivateForest, BlockStore, EntropySource) {
    let mut rng = EntropySource::new(vec![tag, 13, 77]);
    let forest = PrivateForest::new(&mut rng);
    (forest, BlockStore::new(), rng)
}

#[test]
fn file_content_round_trip() {
    let (forest, mut store, mut rng) = setup(1);
    let name = forest.empty_name();
    // More than two chunks' worth of bytes.
    let mut content: Vec<u8> = Vec::new();
    for i in 0..3000u32 {
        content.push((i % 251) as u8);
    }
    let file =
        PrivateFile::with_content(&name, 1700000000, content.clone(), &mut store, &mut rng)
            .unwrap();
    assert_eq!(file.metadata.size, 3000);
    let back = file.get_content(&store).unwrap();
    assert_eq!(back, content);
}

#[test]
fn empty_file_round_trip() {
    let (forest, mut store, mut rng) = setup(2);
    let name = forest.empty_name();
    let file = PrivateFile::with_content(&name, 5, Vec::new(), &mut store, &mut rng).unwrap();
    assert_eq!(file.metadata.size, 0);
    assert_eq!(file.get_content(&store).unwrap(), Vec::<u8>::new());
}

#[test]
fn detached_files_are_independent() {
    let (forest, mut store, mut rng) = setup(3);
    let name = forest.empty_name();
    let a = PrivateFile::with_content(&name, 1, vec![1, 1, 1], &mut store, &mut rng).unwrap();
    let b = PrivateFile::with_content(&name, 2, vec![2, 2], &mut store, &mut rng).unwrap();
    assert_eq!(a.get_content(&store).unwrap(), vec![1, 1, 1]);
    assert_eq!(b.get_content(&store).unwrap(), vec![2, 2]);
}

#[test]
fn copy_content_scenario() {
    let (forest, mut store, mut rng) = setup(4);
    let name = forest.empty_name();
    let a = PrivateFile::with_content(&name, 100, b"X".to_vec(), &mut store, &mut rng).unwrap();
    let mut b = PrivateFile::new(200, &mut rng);
    b.copy_content_from(&a, 300);
    assert_eq!(b.get_content(&store).unwrap(), b"X".to_vec());
    // B carries its own timestamps, not A's.
    assert_eq!(b.metadata.created, 200);
    assert_eq!(b.metadata.modified, 300);
    assert_eq!(b.metadata.size, 1);
    assert_eq!(a.metadata.modified, 100);
}

#[test]
fn missing_chunks_are_not_found() {
    let (forest, mut store, mut rng) = setup(5);
    let name = forest.empty_name();
    let file =
        PrivateFile::with_content(&name, 7, vec![4, 5, 6], &mut store, &mut rng).unwrap();
    let other_store = BlockStore::new();
    assert_eq!(file.get_content(&other_store), Err(FsError::NotFound));
}

#[test]
fn wrong_key_fails_decryption() {
    let (forest, mut store, mut rng) = setup(6);
    let name = forest.empty_name();
    let mut file =
        PrivateFile::with_content(&name, 7, vec![4, 5, 6], &mut store, &mut rng).unwrap();
    file.key = vec![0u8; 32];
    assert_eq!(file.get_content(&store), Err(FsError::DecryptionFailure));
}
