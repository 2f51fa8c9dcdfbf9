use private_forest::blockstore::BlockStore;
use private_forest::crypto::EntropySource;
use private_forest::directory::{PrivateDirectory, PrivateNode};
use private_forest::error::FsError;
use private_forest::file::{NodeKind, PrivateFile};
use private_forest::forest::PrivateForest;

fn setup(tag: u8) -> (PrivateForest, BlockStore, EntropySource) {
    let mut rng = EntropySource::new(vec![tag, 51, 3]);
    let forest = PrivateForest::new(&mut rng);
    (forest, BlockStore::new(), rng)
}

#[test]
fn missing_path_returns_none() {
    let root = PrivateDirectory::new(10);
    let path = vec![String::from("nope"), String::from("deeper.txt")];
    assert!(root.get_node(&path).is_none());
    assert!(root.get_node(&Vec::new()).is_none());
}

#[test]
fn listing_matches_inserted_files() {
    let (forest, mut store, mut rng) = setup(1);
    let name = forest.empty_name();
    let mut root = PrivateDirectory::new(0);
    let n = 8usize;
    for i in 0..n {
        let content = format!("{{ \"index\": {} }}", i).into_bytes();
        let file =
            PrivateFile::with_content(&name, i as i64, content, &mut store, &mut rng).unwrap();
        let path = vec![format!("file_{}.json", i)];
        root.write_file(&path, file, i as i64).unwrap();
    }
    let listing = root.ls(&Vec::new()).unwrap();
    assert_eq!(listing.len(), n);
    for i in 0..n {
        assert_eq!(listing[i].0, format!("file_{}.json", i));
        assert_eq!(listing[i].1.kind, NodeKind::File);
        let expected = format!("{{ \"index\": {} }}", i).into_bytes();
        assert_eq!(listing[i].1.size, expected.len() as u64);
    }
}

#[test]
fn write_creates_intermediate_directories() {
    let (forest, mut store, mut rng) = setup(2);
    let name = forest.empty_name();
    let file = PrivateFile::with_content(&name, 3, vec![9], &mut store, &mut rng).unwrap();
    let mut root = PrivateDirectory::new(0);
    let path = vec![String::from("a"), String::from("b"), String::from("c.txt")];
    root.write_file(&path, file, 3).unwrap();
    match root.get_node(&vec![String::from("a")]) {
        Some(PrivateNode::Dir(_)) => {},
        _ => panic!("expected a directory at the first segment"),
    }
    match root.get_node(&path) {
        Some(PrivateNode::File(f)) => assert_eq!(f.get_content(&store).unwrap(), vec![9]),
        _ => panic!("expected the file at the full path"),
    }
    let listing = root.ls(&vec![String::from("a"), String::from("b")]).unwrap();
    assert_eq!(listing.len(), 1);
    assert_eq!(listing[0].0, "c.txt");
}

#[test]
fn write_through_file_conflicts() {
    let (forest, mut store, mut rng) = setup(3);
    let name = forest.empty_name();
    let f1 = PrivateFile::with_content(&name, 1, vec![1], &mut store, &mut rng).unwrap();
    let f2 = PrivateFile::with_content(&name, 2, vec![2], &mut store, &mut rng).unwrap();
    let mut root = PrivateDirectory::new(0);
    root.write_file(&vec![String::from("a")], f1, 1).unwrap();
    let crossing = vec![String::from("a"), String::from("b")];
    assert_eq!(root.write_file(&crossing, f2, 2), Err(FsError::Conflict));
    // The tree is untouched by the failed write.
    assert!(root.get_node(&crossing).is_none());
    assert_eq!(root.ls(&Vec::new()).unwrap().len(), 1);
}

#[test]
fn replacing_a_file_keeps_one_entry() {
    let (forest, mut store, mut rng) = setup(4);
    let name = forest.empty_name();
    let f1 = PrivateFile::with_content(&name, 1, vec![1], &mut store, &mut rng).unwrap();
    let f2 = PrivateFile::with_content(&name, 2, vec![2, 2], &mut store, &mut rng).unwrap();
    let mut root = PrivateDirectory::new(0);
    let path = vec![String::from("a")];
    root.write_file(&path, f1, 1).unwrap();
    root.write_file(&path, f2, 2).unwrap();
    let listing = root.ls(&Vec::new()).unwrap();
    assert_eq!(listing.len(), 1);
    assert_eq!(listing[0].1.size, 2);
}

#[test]
fn store_persists_into_new_forest_root() {
    let (forest, mut store, mut rng) = setup(5);
    let name = forest.empty_name();
    let file = PrivateFile::with_content(&name, 5, vec![1, 2, 3], &mut store, &mut rng).unwrap();
    let mut root = PrivateDirectory::new(0);
    root.write_file(&vec![String::from("f.bin")], file, 5).unwrap();
    let root_key = vec![7u8; 32];
    let node = PrivateNode::Dir(root);
    let forest2 = node.store(&name, &root_key, &forest, &mut store, &mut rng).unwrap();
    let label = name.digest();
    // The new root records the stored directory; the old forest value is
    // still empty and readable.
    assert_eq!(forest2.get(label.as_slice()).len(), 1);
    assert_eq!(forest.get(label.as_slice()).len(), 0);
    // The child was stored under its derived label too.
    let child_label = name.derive("f.bin").digest();
    assert_eq!(forest2.get(child_label.as_slice()).len(), 1);
    // Storing again under the same label accumulates a second revision.
    let forest3 = node.store(&name, &root_key, &forest2, &mut store, &mut rng).unwrap();
    assert_eq!(forest3.get(label.as_slice()).len(), 2);
}

#[test]
fn stored_records_are_retrievable() {
    let (forest, mut store, mut rng) = setup(6);
    let name = forest.empty_name();
    let file = PrivateFile::with_content(&name, 9, vec![8, 8], &mut store, &mut rng).unwrap();
    let mut root = PrivateDirectory::new(0);
    root.write_file(&vec![String::from("x")], file, 9).unwrap();
    let root_key = vec![1u8; 32];
    let node = PrivateNode::Dir(root);
    let forest2 = node.store(&name, &root_key, &forest, &mut store, &mut rng).unwrap();

    let record = private_forest::persist::load_record(&name, &root_key, &forest2, &store).unwrap();
    assert!(!record.is_empty());
    // The record is a directory record: its first byte is the directory tag.
    assert_eq!(record[0], 1);

    let wrong_key = vec![9u8; 32];
    assert_eq!(
        private_forest::persist::load_record(&name, &wrong_key, &forest2, &store),
        Err(FsError::DecryptionFailure)
    );
    let unknown = name.derive("missing");
    assert_eq!(
        private_forest::persist::load_record(&unknown, &root_key, &forest2, &store),
        Err(FsError::NotFound)
    );
}

#[test]
fn copied_content_survives_store() {
    let (forest, mut store, mut rng) = setup(7);
    let name = forest.empty_name();
    let a = PrivateFile::with_content(&name, 100, b"X".to_vec(), &mut store, &mut rng).unwrap();
    let t_b = 300i64;
    let mut b = PrivateFile::new(200, &mut rng);
    b.copy_content_from(&a, t_b);
    let mut root = PrivateDirectory::new(0);
    root.write_file(&vec![String::from("b")], b, t_b).unwrap();
    let root_key = rng.fresh_key();
    let node = PrivateNode::Dir(root);
    let forest2 = node.store(&name, &root_key, &forest, &mut store, &mut rng).unwrap();
    assert_eq!(forest2.get(name.digest().as_slice()).len(), 1);
    // Reading B back after the store still yields A's content, under B's
    // own modification time.
    let root = match node {
        PrivateNode::Dir(d) => d,
        PrivateNode::File(_) => panic!("the root is a directory"),
    };
    match root.get_node(&vec![String::from("b")]) {
        Some(PrivateNode::File(f)) => {
            assert_eq!(f.get_content(&store).unwrap(), b"X".to_vec());
            assert_eq!(f.metadata.modified, t_b);
            assert_eq!(f.metadata.created, 200);
        },
        _ => panic!("expected the copied file"),
    }
}
