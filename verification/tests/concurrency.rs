use private_forest::blockstore::BlockStore;
use private_forest::crypto::EntropySource;
use private_forest::directory::{PrivateDirectory, PrivateNode};
use private_forest::file::PrivateFile;
use private_forest::forest::PrivateForest;
use std::sync::{Arc, Mutex};

struct Shared {
    forest: PrivateForest,
    store: BlockStore,
    rng: EntropySource,
}

#[test]
fn hundred_detached_files_then_link_and_store() {
    let runtime = tokio::runtime::Builder::new_multi_thread()
        .worker_threads(4)
        .build()
        .unwrap();
    let mut rng = EntropySource::new(vec![42, 17, 5]);
    let forest = PrivateForest::new(&mut rng);
    let shared = Arc::new(Mutex::new(Shared { forest, store: BlockStore::new(), rng }));

    let count = 100usize;
    let mut contents: Vec<Vec<u8>> = Vec::new();
    for i in 0..count {
        let r: u64 = rand::random();
        contents.push(format!("{{ \"index\": {}, \"random\": {} }}", i, r).into_bytes());
    }

    let mut handles = Vec::new();
    for i in 0..count {
        let shared = Arc::clone(&shared);
        let content = contents[i].clone();
        handles.push(runtime.spawn(async move {
            let mut guard = shared.lock().unwrap();
            let g = &mut *guard;
            let name = g.forest.empty_name();
            PrivateFile::with_content(&name, i as i64, content, &mut g.store, &mut g.rng)
                .unwrap()
        }));
    }
    let files: Vec<PrivateFile> =
        runtime.block_on(async { futures::future::join_all(handles).await })
            .into_iter()
            .map(|h| h.unwrap())
            .collect();

    // Link every detached result sequentially, then persist the tree.
    let mut guard = shared.lock().unwrap();
    let g = &mut *guard;
    let mut root = PrivateDirectory::new(0);
    for (i, file) in files.into_iter().enumerate() {
        let path = vec![format!("file_{}.json", i)];
        root.write_file(&path, file, i as i64).unwrap();
    }
    assert_eq!(root.ls(&Vec::new()).unwrap().len(), count);
    for i in 0..count {
        let path = vec![format!("file_{}.json", i)];
        match root.get_node(&path) {
            Some(PrivateNode::File(f)) => {
                assert_eq!(f.get_content(&g.store).unwrap(), contents[i]);
            },
            _ => panic!("missing file_{}.json", i),
        }
    }
    let name = g.forest.empty_name();
    let root_key = vec![3u8; 32];
    let node = PrivateNode::Dir(root);
    let forest2 = node.store(&name, &root_key, &g.forest, &mut g.store, &mut g.rng).unwrap();
    assert_eq!(forest2.get(name.digest().as_slice()).len(), 1);
}
