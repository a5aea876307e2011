use systems::git_core::{CommitData, GitError, GitObject, ObjectStore, ObjectType, Oid, TreeEntry};

#[test]
fn test_blob_creation_and_reading() {
    let mut store = ObjectStore::new();
    let content = b"Hello, Git!";

    // Write
    let oid = store.write_blob(content);

    // Read
    let obj = store.read_object(&oid).unwrap();

    if let GitObject::Blob(data) = obj {
        assert_eq!(data, content);
    } else {
        panic!("Expected Blob");
    }
}

#[test]
fn test_tree_creation_and_reading() {
    let mut store = ObjectStore::new();

    // Create some blobs first
    let oid1 = store.write_blob(b"File 1 content");
    let oid2 = store.write_blob(b"File 2 content");

    let entries = vec![
        TreeEntry { mode: "100644".into(), name: "file1.txt".into(), oid: oid1.clone() },
        TreeEntry { mode: "100644".into(), name: "file2.txt".into(), oid: oid2.clone() },
    ];

    let tree_oid = store.write_tree(&entries);

    let obj = store.read_object(&tree_oid).unwrap();
    if let GitObject::Tree(parsed_entries) = obj {
        assert_eq!(parsed_entries.len(), 2);
        assert_eq!(parsed_entries[0].name, "file1.txt");
        assert_eq!(parsed_entries[0].oid, oid1);
        assert_eq!(parsed_entries[1].name, "file2.txt");
        assert_eq!(parsed_entries[1].oid, oid2);
    } else {
        panic!("Expected Tree");
    }
}

#[test]
fn test_commit_creation_and_reading() {
    let mut store = ObjectStore::new();

    // Mock a tree OID
    let tree_oid = store.write_tree(&[]);

    // Mock a parent OID
    let parent_oid = Oid::hash_bytes(b"dummy parent");

    let commit_data = CommitData {
        tree: tree_oid.clone(),
        parents: vec![parent_oid.clone()],
        author: "Alice <alice@example.com> 1600000000 +0000".into(),
        committer: "Bob <bob@example.com> 1600000000 +0000".into(),
        message: "Initial commit\n\nFixes #1".into(),
    };

    let commit_oid = store.write_commit(&commit_data);

    let obj = store.read_object(&commit_oid).unwrap();
    if let GitObject::Commit(parsed_commit) = obj {
        assert_eq!(parsed_commit.tree, tree_oid);
        assert_eq!(parsed_commit.parents, vec![parent_oid]);
        assert_eq!(parsed_commit.author, "Alice <alice@example.com> 1600000000 +0000");
        assert_eq!(parsed_commit.message, "Initial commit\n\nFixes #1");
    } else {
        panic!("Expected Commit");
    }
}

#[test]
fn test_deterministic_hashing() {
    let mut store = ObjectStore::new();
    let oid1 = store.write_blob(b"Same content");
    let oid2 = store.write_blob(b"Same content");
    assert_eq!(oid1, oid2);
}

#[test]
fn test_oid_from_hash_and_hex() {
    let oid = Oid::from_hash(0);
    assert_eq!(oid.to_hex(), "000000000000000008090a0b0c0d0e0f10111213");
    let oid = Oid::from_hash(0x0102030405060708);
    assert_eq!(oid.to_hex(), "0807060504030201000e0c0e080e0c0e18161416");
    assert_eq!(oid.to_hex().len(), 40);
}

#[test]
fn test_object_type_names() {
    assert_eq!(ObjectType::Blob.as_bytes(), b"blob");
    assert_eq!(ObjectType::Tree.as_bytes(), b"tree");
    assert_eq!(ObjectType::Commit.as_bytes(), b"commit");
}

#[test]
fn test_missing_object_is_not_found() {
    let store = ObjectStore::new();
    let oid = Oid::hash_bytes(b"nothing stored");
    assert_eq!(
        store.read_object(&oid),
        Err(GitError::NotFound("Object not found in store".to_string()))
    );
}

#[test]
fn test_tree_with_unicode_names_round_trips() {
    let mut store = ObjectStore::new();
    let blob = store.write_blob(b"");
    let entries = vec![
        TreeEntry { mode: "40000".into(), name: "dir with space".into(), oid: blob.clone() },
        TreeEntry { mode: "100755".into(), name: "naïve.sh".into(), oid: blob.clone() },
    ];
    let tree = store.write_tree(&entries);
    assert_eq!(store.read_object(&tree).unwrap(), GitObject::Tree(entries));
}

#[test]
fn test_commit_without_parents_round_trips() {
    let mut store = ObjectStore::new();
    let tree = store.write_tree(&[]);
    let commit = CommitData {
        tree: tree.clone(),
        parents: vec![],
        author: "A".into(),
        committer: "C".into(),
        message: "".into(),
    };
    let oid = store.write_commit(&commit);
    assert_eq!(store.read_object(&oid).unwrap(), GitObject::Commit(commit));
}
