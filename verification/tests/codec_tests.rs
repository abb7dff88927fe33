use gitstore::backend::{
    ChangeId, Commit, CommitId, Conflict, ConflictId, ConflictPart, FileId,
    MillisSinceEpoch, RepoPath, Signature, SymlinkId, Timestamp, Tree,
    TreeId, TreeValue,
};
use gitstore::extras::{deserialize_extras, serialize_extras};
use gitstore::git_backend::{derive_change_id, GitBackend};
use gitstore::table::TableStore;

fn fresh_backend(temp_dir: &tempfile::TempDir) -> GitBackend {
    let git_repo = git2::Repository::init_bare(
        temp_dir.path().join("git"),
    )
    .unwrap();
    GitBackend::new(git_repo, TableStore::init())
}

fn blank_commit() -> Commit {
    let signature = Signature {
        name: "Someone".to_string(),
        email: "someone@example.com".to_string(),
        timestamp: Timestamp {
            timestamp: MillisSinceEpoch(0),
            tz_offset: 0,
        },
    };
    Commit {
        parents: vec![],
        predecessors: vec![],
        root_tree: TreeId::new(vec![0u8; 20]),
        change_id: ChangeId::new(vec![]),
        description: String::new(),
        author: signature.clone(),
        committer: signature,
        is_open: false,
    }
}

#[test]
fn change_id_is_a_pure_function_of_the_commit_id() {
    let commit_id =
        CommitId::from_hex("efdcea5ca4b3658149f899ca7feee6876d077263");
    let change_id = derive_change_id(&commit_id);
    assert_eq!(change_id.hex(), "c64ee0b6e16777fe53991f9281a6cd25");
    // Independent of everything but the id: deriving again is identical.
    let again = derive_change_id(&commit_id);
    assert_eq!(change_id, again);
}

#[test]
fn hex_round_trip() {
    let id = CommitId::from_hex("0123456789abcdef0123456789abcdef01234567");
    assert_eq!(id.hex(), "0123456789abcdef0123456789abcdef01234567");
    assert_eq!(id.as_bytes().len(), 20);
}

#[test]
fn extras_record_round_trips() {
    let mut commit = blank_commit();
    commit.is_open = true;
    commit.change_id = ChangeId::new(vec![9, 8, 7]);
    commit.predecessors = vec![
        CommitId::new(vec![1u8; 20]),
        CommitId::new(vec![2u8; 20]),
    ];
    let bytes = serialize_extras(&commit);
    let mut target = blank_commit();
    assert!(deserialize_extras(&mut target, bytes.as_slice()));
    assert_eq!(target.is_open, commit.is_open);
    assert_eq!(target.change_id, commit.change_id);
    assert_eq!(target.predecessors, commit.predecessors);
}

#[test]
fn extras_record_rejects_garbage() {
    let mut target = blank_commit();
    assert!(!deserialize_extras(&mut target, b"garbage"));
    assert!(!deserialize_extras(&mut target, b""));
}

#[test]
fn conflict_round_trips_including_nesting() {
    let temp_dir = tempfile::tempdir().unwrap();
    let mut store = fresh_backend(&temp_dir);
    let root = RepoPath::root();
    let inner = Conflict {
        removes: vec![ConflictPart {
            value: TreeValue::Normal {
                id: FileId::new(vec![0xaa; 20]),
                executable: false,
            },
        }],
        adds: vec![
            ConflictPart {
                value: TreeValue::Symlink(SymlinkId::new(vec![0xbb; 20])),
            },
            ConflictPart {
                value: TreeValue::Normal {
                    id: FileId::new(vec![0xcc; 20]),
                    executable: true,
                },
            },
        ],
    };
    let inner_id = store.write_conflict(&root, &inner).unwrap();
    let inner_back = store.read_conflict(&root, &inner_id).unwrap();
    assert_eq!(inner_back, inner);

    let outer = Conflict {
        removes: vec![ConflictPart {
            value: TreeValue::Tree(TreeId::new(vec![0x11; 20])),
        }],
        adds: vec![
            ConflictPart {
                value: TreeValue::Conflict(ConflictId::new(
                    inner_id.to_bytes(),
                )),
            },
            ConflictPart {
                value: TreeValue::GitSubmodule(CommitId::new(vec![0x22; 20])),
            },
        ],
    };
    let outer_id = store.write_conflict(&root, &outer).unwrap();
    let outer_back = store.read_conflict(&root, &outer_id).unwrap();
    assert_eq!(outer_back, outer);
}

#[test]
fn empty_conflict_round_trips() {
    let temp_dir = tempfile::tempdir().unwrap();
    let mut store = fresh_backend(&temp_dir);
    let root = RepoPath::root();
    let conflict = Conflict {
        removes: vec![],
        adds: vec![],
    };
    let id = store.write_conflict(&root, &conflict).unwrap();
    let back = store.read_conflict(&root, &id).unwrap();
    assert_eq!(back, conflict);
}

#[test]
fn corrupt_conflict_document_is_rejected() {
    let temp_dir = tempfile::tempdir().unwrap();
    let mut store = fresh_backend(&temp_dir);
    let root = RepoPath::root();
    let id = store.write_file(&root, b"not a conflict document").unwrap();
    match store.read_conflict(&root, &ConflictId::new(id.to_bytes())) {
        Err(gitstore::backend::BackendError::Other(_)) => {}
        other => panic!("unexpected result: {:?}", other),
    }
}

#[test]
fn tree_round_trips_with_all_value_kinds() {
    let temp_dir = tempfile::tempdir().unwrap();
    let mut store = fresh_backend(&temp_dir);
    let root = RepoPath::root();
    let file_id = store.write_file(&root, b"file content").unwrap();
    let symlink_id = store.write_symlink(&root, "target").unwrap();
    let conflict_id = store
        .write_conflict(
            &root,
            &Conflict {
                removes: vec![],
                adds: vec![ConflictPart {
                    value: TreeValue::Normal {
                        id: file_id.clone(),
                        executable: false,
                    },
                }],
            },
        )
        .unwrap();
    let mut subtree = Tree::default();
    subtree.set(
        "inner".to_string(),
        TreeValue::Normal {
            id: file_id.clone(),
            executable: false,
        },
    );
    let subtree_id = store.write_tree(&root, &subtree).unwrap();

    let mut tree = Tree::default();
    tree.set(
        "zz-exec".to_string(),
        TreeValue::Normal {
            id: file_id.clone(),
            executable: true,
        },
    );
    tree.set("link".to_string(), TreeValue::Symlink(symlink_id.clone()));
    tree.set("sub".to_string(), TreeValue::Tree(subtree_id.clone()));
    tree.set(
        "both sides".to_string(),
        TreeValue::Conflict(conflict_id.clone()),
    );
    let tree_id = store.write_tree(&root, &tree).unwrap();
    let back = store.read_tree(&root, &tree_id).unwrap();
    assert_eq!(back, tree);
    // Entries come back in name order.
    let names: Vec<&str> = back
        .entries()
        .iter()
        .map(|e| e.name().as_str())
        .collect();
    assert_eq!(names, vec!["both sides", "link", "sub", "zz-exec"]);
}

#[test]
fn oversized_timezone_offsets_read_back_as_zero() {
    let temp_dir = tempfile::tempdir().unwrap();
    let mut store = fresh_backend(&temp_dir);
    let signature = Signature {
        name: "Someone".to_string(),
        email: "someone@example.com".to_string(),
        timestamp: Timestamp {
            timestamp: MillisSinceEpoch(0),
            tz_offset: 900,
        },
    };
    let commit = Commit {
        parents: vec![],
        predecessors: vec![],
        root_tree: store.empty_tree_id().clone(),
        change_id: ChangeId::new(vec![]),
        description: "tz".to_string(),
        author: signature.clone(),
        committer: signature,
        is_open: false,
    };
    let id = store.write_commit(&commit).unwrap();
    let back = store.read_commit(&id).unwrap();
    // The underlying format holds offsets up to fourteen hours; this one
    // is dropped to zero by the store, and the model says so.
    assert_eq!(back.author.timestamp.tz_offset, 0);
}

#[test]
fn most_negative_timezone_offset_is_rejected() {
    let temp_dir = tempfile::tempdir().unwrap();
    let mut store = fresh_backend(&temp_dir);
    let signature = Signature {
        name: "Someone".to_string(),
        email: "someone@example.com".to_string(),
        timestamp: Timestamp {
            timestamp: MillisSinceEpoch(0),
            tz_offset: i32::MIN,
        },
    };
    let commit = Commit {
        parents: vec![],
        predecessors: vec![],
        root_tree: store.empty_tree_id().clone(),
        change_id: ChangeId::new(vec![]),
        description: "tz".to_string(),
        author: signature.clone(),
        committer: signature,
        is_open: false,
    };
    match store.write_commit(&commit) {
        Err(gitstore::backend::BackendError::Other(_)) => {}
        other => panic!("unexpected result: {:?}", other.map(|_| ())),
    }
}

#[test]
fn empty_tree_write_returns_the_well_known_id() {
    let temp_dir = tempfile::tempdir().unwrap();
    let mut store = fresh_backend(&temp_dir);
    let id = store.write_tree(&RepoPath::root(), &Tree::default()).unwrap();
    assert_eq!(id, store.empty_tree_id().clone());
    assert_eq!(id.hex(), "4b825dc642cb6eb9a060e54bf8d69288fbee4904");
}

#[test]
fn tree_set_replaces_and_orders() {
    let mut tree = Tree::default();
    let id1 = FileId::new(vec![1u8; 20]);
    let id2 = FileId::new(vec![2u8; 20]);
    tree.set(
        "b".to_string(),
        TreeValue::Normal {
            id: id1.clone(),
            executable: false,
        },
    );
    tree.set(
        "a".to_string(),
        TreeValue::Normal {
            id: id1.clone(),
            executable: false,
        },
    );
    tree.set(
        "b".to_string(),
        TreeValue::Normal {
            id: id2.clone(),
            executable: true,
        },
    );
    let entries = tree.entries();
    assert_eq!(entries.len(), 2);
    assert_eq!(entries[0].name().as_str(), "a");
    assert_eq!(entries[1].name().as_str(), "b");
    assert_eq!(
        entries[1].value(),
        &TreeValue::Normal {
            id: id2,
            executable: true
        }
    );
}

#[test]
fn corrupt_overlay_record_is_rejected() {
    let temp_dir = tempfile::tempdir().unwrap();
    let git_repo_path = temp_dir.path().join("git");
    let mut store = fresh_backend(&temp_dir);
    let signature = Signature {
        name: "Someone".to_string(),
        email: "someone@example.com".to_string(),
        timestamp: Timestamp {
            timestamp: MillisSinceEpoch(0),
            tz_offset: 0,
        },
    };
    let commit = Commit {
        parents: vec![],
        predecessors: vec![],
        root_tree: store.empty_tree_id().clone(),
        change_id: ChangeId::new(vec![]),
        description: "initial".to_string(),
        author: signature.clone(),
        committer: signature,
        is_open: false,
    };
    let commit_id = store.write_commit(&commit).unwrap();
    // A second backend over the same repository, whose overlay holds a
    // garbage record for that commit.
    let garbage = gitstore::table::TableStore {
        head: gitstore::table::Table {
            entries: vec![gitstore::table::TableEntry {
                key: commit_id.to_bytes(),
                value: b"not a record".to_vec(),
            }],
        },
    };
    let other = GitBackend::new(
        git2::Repository::open(&git_repo_path).unwrap(),
        garbage,
    );
    match other.read_commit(&commit_id) {
        Err(gitstore::backend::BackendError::Other(_)) => {}
        other_result => panic!("unexpected result: {:?}", other_result),
    }
}

#[test]
fn colliding_encoded_names_are_rejected() {
    let temp_dir = tempfile::tempdir().unwrap();
    let mut store = fresh_backend(&temp_dir);
    let root = RepoPath::root();
    let file_id = store.write_file(&root, b"payload").unwrap();
    let conflict_id = store
        .write_conflict(
            &root,
            &Conflict {
                removes: vec![],
                adds: vec![ConflictPart {
                    value: TreeValue::Normal {
                        id: file_id.clone(),
                        executable: false,
                    },
                }],
            },
        )
        .unwrap();
    let mut tree = Tree::default();
    tree.set("x".to_string(), TreeValue::Conflict(conflict_id));
    tree.set(
        "x.jjconflict".to_string(),
        TreeValue::Normal {
            id: file_id,
            executable: true,
        },
    );
    match store.write_tree(&root, &tree) {
        Err(gitstore::backend::BackendError::Other(_)) => {}
        other => panic!("unexpected result: {:?}", other),
    }
}
