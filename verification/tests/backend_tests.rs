use gitstore::backend::{
    BackendError, ChangeId, Commit, CommitId, FileId, MillisSinceEpoch,
    RepoPath, Signature, SymlinkId, Timestamp, Tree, TreeId, TreeValue,
};
use gitstore::git_backend::GitBackend;
use gitstore::table::TableStore;

fn fresh_backend(temp_dir: &tempfile::TempDir) -> GitBackend {
    let git_repo = git2::Repository::init_bare(
        temp_dir.path().join("git"),
    )
    .unwrap();
    GitBackend::new(git_repo, TableStore::init())
}

#[test]
fn read_plain_git_commit() {
    let temp_dir = tempfile::tempdir().unwrap();
    let git_repo_path = temp_dir.path().join("git");
    let git_repo = git2::Repository::init(&git_repo_path).unwrap();

    // Add a commit with some files in
    let blob1 = git_repo.blob(b"content1").unwrap();
    let blob2 = git_repo.blob(b"normal").unwrap();
    let mut dir_tree_builder = git_repo.treebuilder(None).unwrap();
    dir_tree_builder.insert("normal", blob1, 0o100644).unwrap();
    dir_tree_builder.insert("symlink", blob2, 0o120000).unwrap();
    let dir_tree_id = dir_tree_builder.write().unwrap();
    let mut root_tree_builder = git_repo.treebuilder(None).unwrap();
    root_tree_builder
        .insert("dir", dir_tree_id, 0o040000)
        .unwrap();
    let root_tree_id = root_tree_builder.write().unwrap();
    let git_author = git2::Signature::new(
        "git author",
        "git.author@example.com",
        &git2::Time::new(1000, 60),
    )
    .unwrap();
    let git_committer = git2::Signature::new(
        "git committer",
        "git.committer@example.com",
        &git2::Time::new(2000, -480),
    )
    .unwrap();
    let git_tree = git_repo.find_tree(root_tree_id).unwrap();
    let git_commit_id = git_repo
        .commit(
            None,
            &git_author,
            &git_committer,
            "git commit message",
            &git_tree,
            &[],
        )
        .unwrap();
    let commit_id = CommitId::from_hex("efdcea5ca4b3658149f899ca7feee6876d077263");
    // The change id is the leading reverse bits of the commit id
    let change_id = ChangeId::from_hex("c64ee0b6e16777fe53991f9281a6cd25");
    // Check that the git commit above got the hash we expect
    assert_eq!(git_commit_id.as_bytes(), commit_id.as_bytes());

    let store = GitBackend::new(
        git2::Repository::open(&git_repo_path).unwrap(),
        TableStore::init(),
    );
    let commit = store.read_commit(&commit_id).unwrap();
    assert_eq!(&commit.change_id, &change_id);
    assert_eq!(commit.parents, vec![]);
    assert_eq!(commit.predecessors, vec![]);
    assert_eq!(commit.root_tree.as_bytes(), root_tree_id.as_bytes());
    assert!(!commit.is_open);
    assert_eq!(commit.description, "git commit message");
    assert_eq!(commit.author.name, "git author");
    assert_eq!(commit.author.email, "git.author@example.com");
    assert_eq!(
        commit.author.timestamp.timestamp,
        MillisSinceEpoch(1000 * 1000)
    );
    assert_eq!(commit.author.timestamp.tz_offset, 60);
    assert_eq!(commit.committer.name, "git committer");
    assert_eq!(commit.committer.email, "git.committer@example.com");
    assert_eq!(
        commit.committer.timestamp.timestamp,
        MillisSinceEpoch(2000 * 1000)
    );
    assert_eq!(commit.committer.timestamp.tz_offset, -480);

    let root_tree = store
        .read_tree(
            &RepoPath::root(),
            &TreeId::from_bytes(root_tree_id.as_bytes()),
        )
        .unwrap();
    let root_entries = root_tree.entries();
    assert_eq!(root_entries.len(), 1);
    let dir = &root_entries[0];
    assert_eq!(dir.name().as_str(), "dir");
    assert_eq!(
        dir.value(),
        &TreeValue::Tree(TreeId::from_bytes(dir_tree_id.as_bytes()))
    );

    let dir_tree = store
        .read_tree(
            &RepoPath::from_internal_string("dir"),
            &TreeId::from_bytes(dir_tree_id.as_bytes()),
        )
        .unwrap();
    let files = dir_tree.entries();
    assert_eq!(files.len(), 2);
    let normal_file = &files[0];
    let symlink = &files[1];
    assert_eq!(normal_file.name().as_str(), "normal");
    assert_eq!(
        normal_file.value(),
        &TreeValue::Normal {
            id: FileId::from_bytes(blob1.as_bytes()),
            executable: false
        }
    );
    assert_eq!(symlink.name().as_str(), "symlink");
    assert_eq!(
        symlink.value(),
        &TreeValue::Symlink(SymlinkId::from_bytes(blob2.as_bytes()))
    );
}

#[test]
fn commit_has_ref() {
    let temp_dir = tempfile::tempdir().unwrap();
    let mut store = fresh_backend(&temp_dir);
    let signature = Signature {
        name: "Someone".to_string(),
        email: "someone@example.com".to_string(),
        timestamp: Timestamp {
            timestamp: MillisSinceEpoch(0),
            tz_offset: 0,
        },
    };
    let commit = Commit {
        parents: vec![],
        predecessors: vec![],
        root_tree: store.empty_tree_id().clone(),
        change_id: ChangeId::new(vec![]),
        description: "initial".to_string(),
        author: signature.clone(),
        committer: signature,
        is_open: false,
    };
    let commit_id = store.write_commit(&commit).unwrap();
    let git_repo = store.git_repo().unwrap();
    let git_refs: Vec<git2::Oid> = git_repo
        .references_glob("refs/jj/keep/*")
        .unwrap()
        .map(|git_ref| git_ref.unwrap().target().unwrap())
        .collect();
    assert_eq!(
        git_refs,
        vec![git2::Oid::from_bytes(commit_id.as_bytes()).unwrap()]
    );
}

#[test]
fn overlapping_git_commit_id() {
    let temp_dir = tempfile::tempdir().unwrap();
    let mut store = fresh_backend(&temp_dir);
    let signature = Signature {
        name: "Someone".to_string(),
        email: "someone@example.com".to_string(),
        timestamp: Timestamp {
            timestamp: MillisSinceEpoch(0),
            tz_offset: 0,
        },
    };
    let commit1 = Commit {
        parents: vec![],
        predecessors: vec![],
        root_tree: store.empty_tree_id().clone(),
        change_id: ChangeId::new(vec![]),
        description: "initial".to_string(),
        author: signature.clone(),
        committer: signature,
        is_open: false,
    };
    let commit_id1 = store.write_commit(&commit1).unwrap();
    let mut commit2 = commit1;
    commit2.predecessors.push(commit_id1.clone());
    let expected_error_message =
        format!("Git commit '{}' already exists", commit_id1.hex());
    match store.write_commit(&commit2) {
        Ok(_) => {
            panic!("expectedly successfully wrote two commits with the same git commit object")
        }
        Err(BackendError::Other(message))
            if message.contains(&expected_error_message) => {}
        Err(err) => panic!("unexpected error: {:?}", err),
    };
}

#[test]
fn write_same_commit_twice_is_idempotent() {
    let temp_dir = tempfile::tempdir().unwrap();
    let mut store = fresh_backend(&temp_dir);
    let signature = Signature {
        name: "Someone".to_string(),
        email: "someone@example.com".to_string(),
        timestamp: Timestamp {
            timestamp: MillisSinceEpoch(0),
            tz_offset: 0,
        },
    };
    let commit = Commit {
        parents: vec![],
        predecessors: vec![],
        root_tree: store.empty_tree_id().clone(),
        change_id: ChangeId::new(vec![]),
        description: "initial".to_string(),
        author: signature.clone(),
        committer: signature,
        is_open: false,
    };
    let id1 = store.write_commit(&commit).unwrap();
    let id2 = store.write_commit(&commit).unwrap();
    assert_eq!(id1, id2);
}

#[test]
fn end_to_end_scenario() {
    let temp_dir = tempfile::tempdir().unwrap();
    let mut store = fresh_backend(&temp_dir);
    let root = RepoPath::root();
    let file_id = store.write_file(&root, b"#!/bin/sh\n").unwrap();
    let readme_id = store.write_file(&root, b"hello").unwrap();
    let mut tree = Tree::default();
    tree.set(
        "run.sh".to_string(),
        TreeValue::Normal {
            id: file_id.clone(),
            executable: true,
        },
    );
    tree.set(
        "readme".to_string(),
        TreeValue::Normal {
            id: readme_id,
            executable: false,
        },
    );
    let tree_id = store.write_tree(&root, &tree).unwrap();
    let signature = Signature {
        name: "Someone".to_string(),
        email: "someone@example.com".to_string(),
        timestamp: Timestamp {
            timestamp: MillisSinceEpoch(0),
            tz_offset: 0,
        },
    };
    let commit = Commit {
        parents: vec![],
        predecessors: vec![],
        root_tree: tree_id.clone(),
        change_id: ChangeId::new(vec![]),
        description: "init".to_string(),
        author: signature.clone(),
        committer: signature,
        is_open: false,
    };
    let commit_id = store.write_commit(&commit).unwrap();
    let read_back = store.read_commit(&commit_id).unwrap();
    assert_eq!(read_back.root_tree, tree_id);
    assert_eq!(read_back.parents, vec![]);
    assert_eq!(read_back.predecessors, vec![]);
    assert!(!read_back.is_open);
    assert_eq!(read_back.description, "init");
    let tree_back = store.read_tree(&root, &tree_id).unwrap();
    let entries = tree_back.entries();
    assert_eq!(entries.len(), 2);
    assert_eq!(entries[0].name().as_str(), "readme");
    assert_eq!(entries[1].name().as_str(), "run.sh");
    assert_eq!(
        entries[1].value(),
        &TreeValue::Normal {
            id: file_id,
            executable: true
        }
    );
}

#[test]
fn file_content_addressing_is_deterministic() {
    let temp_dir = tempfile::tempdir().unwrap();
    let mut store = fresh_backend(&temp_dir);
    let root = RepoPath::root();
    let id1 = store.write_file(&root, b"same bytes").unwrap();
    let id2 = store.write_file(&root, b"same bytes").unwrap();
    assert_eq!(id1, id2);
    let other = store.write_file(&root, b"other bytes").unwrap();
    assert_ne!(id1, other);
    let sid1 = store.write_symlink(&root, "target/path").unwrap();
    let sid2 = store.write_symlink(&root, "target/path").unwrap();
    assert_eq!(sid1, sid2);
    let read = store.read_file(&root, &id1).unwrap();
    assert_eq!(read, b"same bytes".to_vec());
    let target = store.read_symlink(&root, &sid1).unwrap();
    assert_eq!(target, "target/path");
}

#[test]
fn empty_tree_short_circuits_on_fresh_store() {
    let temp_dir = tempfile::tempdir().unwrap();
    let store = fresh_backend(&temp_dir);
    let empty_id = store.empty_tree_id().clone();
    assert_eq!(
        empty_id.hex(),
        "4b825dc642cb6eb9a060e54bf8d69288fbee4904"
    );
    let tree = store.read_tree(&RepoPath::root(), &empty_id).unwrap();
    assert_eq!(tree.entries().len(), 0);
}

#[test]
fn timestamps_truncate_to_whole_seconds() {
    let temp_dir = tempfile::tempdir().unwrap();
    let mut store = fresh_backend(&temp_dir);
    let signature = Signature {
        name: "Someone".to_string(),
        email: "someone@example.com".to_string(),
        timestamp: Timestamp {
            timestamp: MillisSinceEpoch(1_654_321_987),
            tz_offset: -480,
        },
    };
    let commit = Commit {
        parents: vec![],
        predecessors: vec![],
        root_tree: store.empty_tree_id().clone(),
        change_id: ChangeId::new(vec![]),
        description: "ts".to_string(),
        author: signature.clone(),
        committer: signature,
        is_open: false,
    };
    let id = store.write_commit(&commit).unwrap();
    let back = store.read_commit(&id).unwrap();
    assert_eq!(
        back.author.timestamp.timestamp,
        MillisSinceEpoch(1_654_321_000)
    );
    assert_eq!(back.author.timestamp.tz_offset, -480);
}

#[test]
fn read_file_with_wrong_length_id_is_not_found() {
    let temp_dir = tempfile::tempdir().unwrap();
    let store = fresh_backend(&temp_dir);
    let bad = FileId::new(vec![1, 2, 3]);
    match store.read_file(&RepoPath::root(), &bad) {
        Err(BackendError::NotFound) => {}
        other => panic!("unexpected result: {:?}", other.map(|_| ())),
    }
    let absent = CommitId::new(vec![7u8; 20]);
    match store.read_commit(&absent) {
        Err(BackendError::NotFound) => {}
        other => panic!("unexpected result: {:?}", other.map(|_| ())),
    }
}

#[test]
fn symlink_target_must_be_text() {
    let temp_dir = tempfile::tempdir().unwrap();
    let mut store = fresh_backend(&temp_dir);
    let root = RepoPath::root();
    let id = store.write_file(&root, &[0xff, 0xfe, 0x01]).unwrap();
    match store.read_symlink(&root, &SymlinkId::new(id.to_bytes())) {
        Err(BackendError::Other(_)) => {}
        other => panic!("unexpected result: {:?}", other),
    }
}
