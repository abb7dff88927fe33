//! The backend façade: the single entry point mapping the domain object
//! model onto the underlying Git-shaped store, together with the
//! change-identity derivation, the no-GC pinning of fresh commits, and the
//! reconciliation with the metadata overlay.
//!
//! Exclusive access to the store handle is enforced by `&mut` receivers on
//! every mutating operation, serializing all store access within one
//! backend instance.

use vstd::prelude::*;
use vstd::string::StrSliceExecFns;
use vstd::string::StringExecFns;
use vstd::string::StringSliceAdditionalSpecFns;
use crate::backend::{
    BackendError, BackendResult, ChangeId, Commit, CommitId, CommitV,
    Conflict, ConflictId, FileId, MillisSinceEpoch, RepoPath, Signature,
    SignatureV, SymlinkId, Timestamp, Tree, TreeEntryV, TreeId,
    TreeValue, TreeValueV, HASH_LENGTH, bytes_eq, chars_lt, str_compare,
    tree_seq_insert, tree_entries_sorted,
};
use crate::extras::{
    ExtrasV, extras_of, parse_extras, ser_extras, serialize_extras,
    deserialize_extras,
};
use crate::gitops::{
    GCommitV, GEntryV, GSigV, GitObjectKind, RawSig, WEntry,
    WEntryV, WSig, blob_oid_of, commit_oid_of, drop_leading_newlines,
    new_uuid_hyphenated, oids_view, repo_blob_read, repo_blob_write,
    repo_blobs, repo_commit_find, repo_commit_write, repo_commits,
    repo_refs, repo_tree_find, repo_tree_write, repo_trees, sig_trim,
    stored_matches_written, stored_sig_of, tree_oid_of, wentries_view,
    gentry_of_wentry, tree_len, tree_entry, tree_handle_entries,
    commit_tree_oid, commit_parent_count, commit_parent_oid, commit_message,
    commit_author, commit_committer, make_signature, identity_data,
    stored_identity, stored_seconds,
};
use crate::conflicts::{conflict_to_bytes, conflict_from_bytes, ser_conflict};
use crate::gitops::written_gentries;
use crate::backend::lemma_chars_lt_total;
use crate::backend::lemma_chars_lt_trans;
use vstd::seq_lib::*;
use crate::table::TableStore;
use vstd::utf8::{valid_utf8, decode_utf8, encode_utf8};

verus! {

/// The well-known id of the zero-entry tree, which may not exist as a real
/// object in a freshly initialized store.
pub open spec fn empty_tree_bytes() -> Seq<u8> {
    seq![
        0x4bu8, 0x82, 0x5d, 0xc6, 0x42, 0xcb, 0x6e, 0xb9, 0xa0, 0x60, 0xe5,
        0x4b, 0xf8, 0xd6, 0x92, 0x88, 0xfb, 0xee, 0x49, 0x04,
    ]
}

// ---- change-identity derivation ----

/// The bits of one byte in reverse order.
pub open spec fn rev_bits_of(b: u8) -> u8 {
    (((b & 0x01) << 7) | ((b & 0x02) << 5) | ((b & 0x04) << 3) | ((b & 0x08)
        << 1) | ((b & 0x10) >> 1) | ((b & 0x20) >> 3) | ((b & 0x40) >> 5) | ((
    b & 0x80) >> 7)) as u8
}

/// The change identity derived from a commit identity: drop the first four
/// bytes, reverse the byte order, and reverse the bits within each byte.
pub open spec fn change_id_of(id: Seq<u8>) -> Seq<u8> {
    Seq::new((id.len() - 4) as nat, |i: int| rev_bits_of(id[id.len() - 1 - i]))
}

/// `rev_bits_of` reverses the bit order: bit `k` of the result is bit
/// `7 - k` of the argument, so the change identity diverges immediately
/// from any commit-identity prefix.
pub proof fn lemma_rev_bits_reverses(b: u8)
    ensures
        forall|k: u8|
            k < 8 ==> ((#[trigger] (rev_bits_of(b) >> k)) & 1) == ((b >> (
            7 - k) as u8) & 1),
{
    let r = rev_bits_of(b);
    assert((r >> 0) & 1 == (b >> 7) & 1 && (r >> 1) & 1 == (b >> 6) & 1 && (r
        >> 2) & 1 == (b >> 5) & 1 && (r >> 3) & 1 == (b >> 4) & 1 && (r >> 4)
        & 1 == (b >> 3) & 1 && (r >> 5) & 1 == (b >> 2) & 1 && (r >> 6) & 1
        == (b >> 1) & 1 && (r >> 7) & 1 == (b >> 0) & 1) by (bit_vector)
        requires
            r == (((b & 0x01) << 7) | ((b & 0x02) << 5) | ((b & 0x04) << 3)
                | ((b & 0x08) << 1) | ((b & 0x10) >> 1) | ((b & 0x20) >> 3)
                | ((b & 0x40) >> 5) | ((b & 0x80) >> 7)) as u8,
    ;
    assert forall|k: u8|
        k < 8 implies ((#[trigger] (rev_bits_of(b) >> k)) & 1) == ((b >> (7
        - k) as u8) & 1) by {
        if k == 0 {
        } else if k == 1 {
        } else if k == 2 {
        } else if k == 3 {
        } else if k == 4 {
        } else if k == 5 {
        } else if k == 6 {
        } else {
            assert(k == 7);
        }
    }
}

fn rev_bits(b: u8) -> (r: u8)
    ensures
        r == rev_bits_of(b),
{
    ((b & 0x01) << 7u8) | ((b & 0x02) << 5u8) | ((b & 0x04) << 3u8) | ((b
        & 0x08) << 1u8) | ((b & 0x10) >> 1u8) | ((b & 0x20) >> 3u8) | ((b
        & 0x40) >> 5u8) | ((b & 0x80) >> 7u8)
}

/// Derive the change identity of a commit identity: a pure function of the
/// commit identity alone.
pub fn derive_change_id(id: &CommitId) -> (r: ChangeId)
    requires
        id@.len() == HASH_LENGTH,
    ensures
        r@ == change_id_of(id@),
{
    let bytes = id.as_bytes();
    let mut out: Vec<u8> = Vec::new();
    let mut i: usize = 0;
    while i < HASH_LENGTH - 4
        invariant
            i <= HASH_LENGTH - 4,
            bytes@.len() == HASH_LENGTH,
            out@.len() == i,
            forall|k: int|
                0 <= k < i ==> out@[k] == rev_bits_of(
                    bytes@[bytes@.len() - 1 - k],
                ),
        decreases HASH_LENGTH - 4 - i,
    {
        out.push(rev_bits(bytes[HASH_LENGTH - 1 - i]));
        i = i + 1;
    }
    proof {
        assert(out@ =~= change_id_of(id@));
    }
    ChangeId::new(out)
}

// ---- signature and timestamp translation ----

/// Milliseconds reconstructed from whole seconds, wrapping as 64-bit
/// arithmetic does.
pub open spec fn wrap_millis(seconds: i64) -> u64 {
    (((seconds as u64) as nat * 1000) % 0x1_0000_0000_0000_0000) as u64
}

/// Translate a domain signature to what the store is given: the same name
/// and email, the timestamp truncated (not rounded) to whole seconds, the
/// offset as is.
pub fn signature_to_git(signature: &Signature) -> (r: WSig)
    ensures
        r.name@ == signature@.name,
        r.email@ == signature@.email,
        r.seconds as int == signature@.timestamp.timestamp.0 as int / 1000,
        r.offset == signature@.timestamp.tz_offset,
{
    let millis = signature.timestamp.timestamp.0;
    let secs_u = millis / 1000;
    let secs: i64 = secs_u as i64;
    WSig {
        name: signature.name.clone(),
        email: signature.email.clone(),
        seconds: secs,
        offset: signature.timestamp.tz_offset,
    }
}

/// Translate a native signature to a domain signature: absent names and
/// emails become placeholders, the millisecond timestamp is whole seconds
/// times one thousand, the offset is kept exactly.
pub fn signature_from_git(signature: &RawSig) -> (r: Signature)
    ensures
        r@.name == (match signature.name {
            Some(n) => n@,
            None => ("<no name>")@,
        }),
        r@.email == (match signature.email {
            Some(e) => e@,
            None => ("<no email>")@,
        }),
        r@.timestamp.timestamp.0 == wrap_millis(signature.seconds),
        r@.timestamp.tz_offset == signature.offset,
{
    let name = match &signature.name {
        Some(n) => n.clone(),
        None => "<no name>".to_owned(),
    };
    let email = match &signature.email {
        Some(e) => e.clone(),
        None => "<no email>".to_owned(),
    };
    let s: i64 = signature.seconds;
    let su: u64 = #[verifier::truncate] (s as u64);
    let millis: u64 = su.wrapping_mul(1000);
    Signature {
        name,
        email,
        timestamp: Timestamp {
            timestamp: MillisSinceEpoch(millis),
            tz_offset: signature.offset,
        },
    }
}

/// A timestamp round-trips through the store's whole-second precision by
/// truncation: the stored seconds are the written milliseconds divided by
/// one thousand, and the read-back milliseconds are that whole second,
/// never more than 999 milliseconds less than written; an offset within
/// the store's representable timezone range is kept exactly. Holds for
/// every timestamp below the store's unsigned 32-bit seconds range and
/// every offset below fifteen hours; beyond those the commit object keeps
/// only the reduced seconds, or a zero offset.
pub proof fn lemma_timestamp_truncation(millis: u64, tz_offset: i32)
    requires
        millis as int / 1000 < 0x1_0000_0000,
        -900 < tz_offset < 900,
    ensures
        stored_seconds((millis / 1000) as i64) == millis as int / 1000,
        wrap_millis((millis / 1000) as i64) as int == (millis as int / 1000)
            * 1000,
        (millis as int / 1000) * 1000 <= millis as int,
        millis as int - (millis as int / 1000) * 1000 < 1000,
        crate::gitops::stored_offset(tz_offset as int) == tz_offset as int,
{
    let m: int = 0x1_0000_0000_0000_0000;
    vstd::arithmetic::div_mod::lemma_fundamental_div_mod(millis as int, 1000);
    vstd::arithmetic::div_mod::lemma_mod_bound(millis as int, 1000);
    let s: i64 = (millis / 1000) as i64;
    assert(s as int == millis as int / 1000);
    assert((s as u64) as int == s as int);
    assert(0 <= (s as int) * 1000 < m);
    vstd::arithmetic::div_mod::lemma_small_mod(
        ((s as int) * 1000) as nat,
        m as nat,
    );
}

// ---- no-GC pinning ----

/// The reference namespace reserved for preventing garbage collection.
pub open spec fn no_gc_ref_namespace() -> Seq<char> {
    ("refs/jj/keep/")@
}

/// Whether a reference name lies in the reserved no-GC namespace.
pub open spec fn is_no_gc_ref_name(name: Seq<char>) -> bool {
    name.len() > no_gc_ref_namespace().len() && name.subrange(
        0,
        no_gc_ref_namespace().len() as int,
    ) == no_gc_ref_namespace()
}

/// A fresh, randomly named reference name in the reserved no-GC namespace.
/// Used for preventing GC of commits this backend creates.
pub fn create_no_gc_ref() -> (r: String)
    ensures
        is_no_gc_ref_name(r@),
{
    let mut no_gc_ref = "refs/jj/keep/".to_owned();
    let suffix = new_uuid_hyphenated();
    no_gc_ref.append(suffix.as_str());
    proof {
        reveal_strlit("refs/jj/keep/");
        assert(no_gc_ref@.subrange(0, 13) =~= ("refs/jj/keep/")@);
    }
    no_gc_ref
}


// ---- tree entry translation ----

/// The path-component suffix that marks a conflict entry in a native tree.
pub open spec fn conflict_suffix() -> Seq<char> {
    seq!['.', 'j', 'j', 'c', 'o', 'n', 'f', 'l', 'i', 'c', 't']
}

/// Whether a name carries the conflict suffix.
pub open spec fn has_conflict_suffix(name: Seq<char>) -> bool {
    name.len() >= 11 && name.subrange(name.len() - 11, name.len() as int)
        == conflict_suffix()
}

/// The native entry written for one tree entry: the conflict suffix is
/// appended to a conflict's name, and each value kind maps to its standard
/// file mode.
pub open spec fn encode_entry(e: TreeEntryV) -> WEntryV {
    match e.value {
        TreeValueV::Normal { id, executable } => WEntryV {
            name: encode_utf8(e.name),
            oid: id,
            filemode: if executable {
                0o100755
            } else {
                0o100644
            },
        },
        TreeValueV::Symlink(id) => WEntryV {
            name: encode_utf8(e.name),
            oid: id,
            filemode: 0o120000,
        },
        TreeValueV::Tree(id) => WEntryV {
            name: encode_utf8(e.name),
            oid: id,
            filemode: 0o040000,
        },
        TreeValueV::GitSubmodule(id) => WEntryV {
            name: encode_utf8(e.name),
            oid: id,
            filemode: 0o160000,
        },
        TreeValueV::Conflict(id) => WEntryV {
            name: encode_utf8(e.name + conflict_suffix()),
            oid: id,
            filemode: 0o100644,
        },
    }
}

/// The native entries written for a whole tree, in entry order.
pub open spec fn encode_tree(s: Seq<TreeEntryV>) -> Seq<WEntryV> {
    Seq::new(s.len(), |i: int| encode_entry(s[i]))
}

/// The id carried by a tree value.
pub open spec fn value_oid(v: TreeValueV) -> Seq<u8> {
    match v {
        TreeValueV::Normal { id, executable } => id,
        TreeValueV::Symlink(id) => id,
        TreeValueV::Tree(id) => id,
        TreeValueV::GitSubmodule(id) => id,
        TreeValueV::Conflict(id) => id,
    }
}

/// Decode one native entry: dispatch on object kind and mode exactly
/// inverts the encoding; an unrecognized mode or kind, or a name that is
/// not valid UTF-8, does not decode.
pub open spec fn decode_gentry(g: GEntryV) -> Option<(Seq<char>, TreeValueV)> {
    if !valid_utf8(g.name) {
        None
    } else {
        let nm = decode_utf8(g.name);
        match g.kind {
            GitObjectKind::Tree => Some((nm, TreeValueV::Tree(g.oid))),
            GitObjectKind::Commit => Some((nm, TreeValueV::GitSubmodule(g.oid))),
            GitObjectKind::Blob => if g.filemode == 0o100644 {
                if has_conflict_suffix(nm) {
                    Some((
                        nm.take(nm.len() - 11),
                        TreeValueV::Conflict(g.oid),
                    ))
                } else {
                    Some((
                        nm,
                        TreeValueV::Normal { id: g.oid, executable: false },
                    ))
                }
            } else if g.filemode == 0o100755 {
                Some((nm, TreeValueV::Normal { id: g.oid, executable: true }))
            } else if g.filemode == 0o120000 {
                Some((nm, TreeValueV::Symlink(g.oid)))
            } else {
                None
            },
            GitObjectKind::Other => None,
        }
    }
}

/// The tree assembled from a native entry list by ordered insertion;
/// `None` when any entry does not decode.
pub open spec fn build_tree_seq(s: Seq<GEntryV>) -> Option<Seq<TreeEntryV>>
    decreases s.len(),
{
    if s.len() == 0 {
        Some(Seq::empty())
    } else {
        match build_tree_seq(s.drop_last()) {
            None => None,
            Some(t) => match decode_gentry(s.last()) {
                None => None,
                Some(p) => Some(tree_seq_insert(t, p.0, p.1)),
            },
        }
    }
}

/// Whether `name` ends with the conflict suffix, and the name without it.
fn split_conflict_suffix(name: &String) -> (r: Option<String>)
    ensures
        r is Some <==> has_conflict_suffix(name@),
        r matches Some(s) ==> s@ == name@.take(name@.len() - 11),
{
    let n = name.as_str().unicode_len();
    if n < 11 {
        return None;
    }
    let tail = name.as_str().substring_char(n - 11, n);
    proof {
        reveal_strlit(".jjconflict");
        assert(conflict_suffix() =~= (".jjconflict")@);
    }
    if str_compare(tail, ".jjconflict") == 0 {
        let head = name.as_str().substring_char(0, n - 11);
        proof {
            assert(head@ =~= name@.take(name@.len() - 11));
        }
        Some(head.to_owned())
    } else {
        proof {
            crate::backend::lemma_chars_lt_total(tail@, (".jjconflict")@);
        }
        None
    }
}

/// The backend façade: owns the underlying store handle, the well-known
/// empty tree id, and the metadata overlay store.
pub struct GitBackend {
    pub repo: git2::Repository,
    pub empty_tree_id: TreeId,
    pub extra_metadata_store: TableStore,
}

impl GitBackend {
    /// The blobs of the underlying store.
    pub open spec fn blobs(&self) -> Map<Seq<u8>, Seq<u8>> {
        repo_blobs(self.repo)
    }

    /// The trees of the underlying store.
    pub open spec fn trees(&self) -> Map<Seq<u8>, Seq<GEntryV>> {
        repo_trees(self.repo)
    }

    /// The commits of the underlying store.
    pub open spec fn commits(&self) -> Map<Seq<u8>, GCommitV> {
        repo_commits(self.repo)
    }

    /// The references of the underlying store.
    pub open spec fn refs(&self) -> Map<Seq<char>, Seq<u8>> {
        repo_refs(self.repo)
    }

    /// The metadata overlay, commit id bytes to serialized record.
    pub open spec fn extras(&self) -> Map<Seq<u8>, Seq<u8>> {
        self.extra_metadata_store@
    }

    /// Well-formedness: the overlay is consistent and the empty tree id is
    /// the well-known constant.
    pub open spec fn wf(&self) -> bool {
        &&& self.extra_metadata_store.wf()
        &&& self.empty_tree_id@ == empty_tree_bytes()
    }

    /// Assemble a backend over an opened store handle and an overlay store.
    pub fn new(repo: git2::Repository, extra_metadata_store: TableStore) -> (r:
        GitBackend)
        requires
            extra_metadata_store.wf(),
        ensures
            r.wf(),
            r.blobs() == repo_blobs(repo),
            r.trees() == repo_trees(repo),
            r.commits() == repo_commits(repo),
            r.refs() == repo_refs(repo),
            r.extras() == extra_metadata_store@,
    {
        let id_bytes: Vec<u8> = vec![
            0x4bu8, 0x82, 0x5d, 0xc6, 0x42, 0xcb, 0x6e, 0xb9, 0xa0, 0x60,
            0xe5, 0x4b, 0xf8, 0xd6, 0x92, 0x88, 0xfb, 0xee, 0x49, 0x04,
        ];
        proof {
            assert(id_bytes@ =~= empty_tree_bytes());
        }
        GitBackend {
            repo,
            empty_tree_id: TreeId::new(id_bytes),
            extra_metadata_store,
        }
    }

    /// The fixed identifier length of this backend.
    pub fn hash_length(&self) -> (r: usize)
        ensures
            r == HASH_LENGTH,
    {
        HASH_LENGTH
    }

    /// A second handle on the same on-disk repository, for callers that
    /// need raw access beside this façade.
    pub fn git_repo(&self) -> Option<git2::Repository> {
        crate::gitops::repo_reopen(&self.repo)
    }

    /// The well-known id of the empty tree.
    pub fn empty_tree_id(&self) -> (r: &TreeId)
        requires
            self.wf(),
        ensures
            r@ == empty_tree_bytes(),
    {
        &self.empty_tree_id
    }

    /// Read a file blob's content. The path is accepted for interface
    /// uniformity and does not affect addressing.
    pub fn read_file(&self, _path: &RepoPath, id: &FileId) -> (r:
        BackendResult<Vec<u8>>)
        ensures
            r matches Ok(c) ==> id@.len() == HASH_LENGTH && self.blobs(
            ).contains_key(id@) && c@ == self.blobs()[id@],
            id@.len() != HASH_LENGTH ==> (r matches Err(e) && e is NotFound),
            r matches Err(e) && e is NotFound ==> (id@.len() != HASH_LENGTH
                || !self.blobs().contains_key(id@)),
    {
        if id.as_bytes().len() != HASH_LENGTH {
            return Err(BackendError::NotFound);
        }
        repo_blob_read(&self.repo, id.as_bytes())
    }

    /// Content-address and store a file blob; the returned id is a function
    /// of the content alone, so equal content always yields the same id.
    pub fn write_file(&mut self, _path: &RepoPath, contents: &[u8]) -> (r:
        BackendResult<FileId>)
        requires
            old(self).wf(),
        ensures
            final(self).wf(),
            final(self).extras() == old(self).extras(),
            r matches Ok(fid) ==> {
                &&& fid@ == blob_oid_of(contents@)
                &&& fid@.len() == HASH_LENGTH
                &&& final(self).blobs() == old(self).blobs().insert(
                    fid@,
                    contents@,
                )
                &&& final(self).trees() == old(self).trees()
                &&& final(self).commits() == old(self).commits()
                &&& final(self).refs() == old(self).refs()
            },
    {
        match repo_blob_write(&mut self.repo, contents) {
            Ok(oid) => Ok(FileId::new(oid)),
            Err(e) => Err(e),
        }
    }

    /// Read a symlink target; fails with a decode error when the stored
    /// target is not valid UTF-8.
    pub fn read_symlink(&self, _path: &RepoPath, id: &SymlinkId) -> (r:
        Result<String, BackendError>)
        ensures
            r matches Ok(t) ==> id@.len() == HASH_LENGTH && self.blobs(
            ).contains_key(id@) && encode_utf8(t@) == self.blobs()[id@],
            id@.len() != HASH_LENGTH ==> (r matches Err(e) && e is NotFound),
            r matches Err(e) && e is NotFound ==> (id@.len() != HASH_LENGTH
                || !self.blobs().contains_key(id@)),
    {
        if id.as_bytes().len() != HASH_LENGTH {
            return Err(BackendError::NotFound);
        }
        let content = match repo_blob_read(&self.repo, id.as_bytes()) {
            Ok(c) => c,
            Err(e) => { return Err(e); },
        };
        match crate::gitops::bytes_to_string(content) {
            Some(s) => {
                proof {
                    vstd::utf8::decode_utf8_encode_utf8(self.blobs()[id@]);
                }
                Ok(s)
            },
            None => Err(
                BackendError::Other(
                    "symlink target is not valid UTF-8".to_owned(),
                ),
            ),
        }
    }

    /// Content-address and store a symlink target; the returned id is a
    /// function of the target alone.
    pub fn write_symlink(&mut self, _path: &RepoPath, target: &str) -> (r:
        Result<SymlinkId, BackendError>)
        requires
            old(self).wf(),
        ensures
            final(self).wf(),
            final(self).extras() == old(self).extras(),
            r matches Ok(sid) ==> {
                &&& sid@ == blob_oid_of(encode_utf8(target@))
                &&& sid@.len() == HASH_LENGTH
                &&& final(self).blobs() == old(self).blobs().insert(
                    sid@,
                    encode_utf8(target@),
                )
                &&& final(self).trees() == old(self).trees()
                &&& final(self).commits() == old(self).commits()
                &&& final(self).refs() == old(self).refs()
            },
    {
        match repo_blob_write(&mut self.repo, target.as_bytes()) {
            Ok(oid) => Ok(SymlinkId::new(oid)),
            Err(e) => Err(e),
        }
    }
}


impl GitBackend {
    /// Read a tree. The well-known empty tree id short-circuits to the
    /// empty tree even when the store holds no such object; otherwise the
    /// stored entries are decoded and assembled in name order.
    #[verifier::loop_isolation(false)]
    pub fn read_tree(&self, _path: &RepoPath, id: &TreeId) -> (r:
        BackendResult<Tree>)
        requires
            self.wf(),
        ensures
            id@ == empty_tree_bytes() ==> (r matches Ok(t) && t@.len() == 0),
            (id@ != empty_tree_bytes() && id@.len() != HASH_LENGTH) ==> (r
                matches Err(e) && e is NotFound),
            r matches Ok(t) ==> (id@ != empty_tree_bytes() ==> {
                &&& self.trees().contains_key(id@)
                &&& build_tree_seq(self.trees()[id@]) == Some(t@)
                &&& t.wf()
            }),
            r matches Err(e) && e is NotFound ==> (id@ != empty_tree_bytes()
                && (id@.len() != HASH_LENGTH || !self.trees().contains_key(
                id@,
            ))),
    {
        if bytes_eq(id.as_bytes(), self.empty_tree_id.as_bytes()) {
            proof {
                assert(id@ == empty_tree_bytes());
            }
            return Ok(Tree::default());
        }
        if id.as_bytes().len() != HASH_LENGTH {
            return Err(BackendError::NotFound);
        }
        let th = match repo_tree_find(&self.repo, id.as_bytes()) {
            Ok(t) => t,
            Err(e) => { return Err(e); },
        };
        let ghost stored = self.trees()[id@];
        let n = tree_len(&th);
        let mut tree = Tree::default();
        let mut i: usize = 0;
        proof {
            assert(stored.take(0) =~= Seq::<GEntryV>::empty());
            assert(tree@ =~= Seq::<TreeEntryV>::empty());
        }
        while i < n
            invariant
                i <= n,
                n == stored.len(),
                build_tree_seq(stored.take(i as int)) == Some(tree@),
                tree.wf(),
            decreases n - i,
        {
            let e = tree_entry(&th, i);
            let ghost g = stored[i as int];
            let name: &String = match &e.name {
                Some(n) => n,
                None => {
                    return Err(
                        BackendError::Other(
                            "tree entry name is not valid text".to_owned(),
                        ),
                    );
                },
            };
            proof {
                vstd::utf8::encode_utf8_decode_utf8(name@);
                assert(decode_utf8(g.name) == name@);
            }
            let value: TreeValue = match e.kind {
                GitObjectKind::Tree => TreeValue::Tree(
                    TreeId::from_bytes(e.oid.as_slice()),
                ),
                GitObjectKind::Commit => TreeValue::GitSubmodule(
                    CommitId::from_bytes(e.oid.as_slice()),
                ),
                GitObjectKind::Blob => {
                    if e.filemode == 0o100644 {
                        match split_conflict_suffix(name) {
                            Some(stripped) => {
                                let v = TreeValue::Conflict(
                                    ConflictId::from_bytes(e.oid.as_slice()),
                                );
                                proof {
                                    assert(decode_gentry(g) == Some((
                                        stripped@,
                                        v@,
                                    )));
                                    lemma_build_tree_seq_step(
                                        stored,
                                        i as int,
                                        tree@,
                                    );
                                }
                                tree.set(stripped, v);
                                i = i + 1;
                                continue;
                            },
                            None => TreeValue::Normal {
                                id: FileId::from_bytes(e.oid.as_slice()),
                                executable: false,
                            },
                        }
                    } else if e.filemode == 0o100755 {
                        TreeValue::Normal {
                            id: FileId::from_bytes(e.oid.as_slice()),
                            executable: true,
                        }
                    } else if e.filemode == 0o120000 {
                        TreeValue::Symlink(
                            SymlinkId::from_bytes(e.oid.as_slice()),
                        )
                    } else {
                        return Err(
                            BackendError::Other(
                                "unexpected file mode in tree".to_owned(),
                            ),
                        );
                    }
                },
                GitObjectKind::Other => {
                    return Err(
                        BackendError::Other(
                            "unexpected object kind in tree".to_owned(),
                        ),
                    );
                },
            };
            let owned_name = name.clone();
            proof {
                assert(decode_gentry(g) == Some((owned_name@, value@)));
                lemma_build_tree_seq_step(stored, i as int, tree@);
            }
            tree.set(owned_name, value);
            i = i + 1;
        }
        proof {
            assert(stored.take(stored.len() as int) =~= stored);
        }
        Ok(tree)
    }

    /// Content-address and store a tree: each entry becomes a native entry
    /// under its standard mode, a conflict under a regular-file mode with
    /// the conflict suffix on its name. Fails when an entry id has the
    /// wrong length or when two encoded names collide.
    #[verifier::loop_isolation(false)]
    pub fn write_tree(&mut self, _path: &RepoPath, contents: &Tree) -> (r:
        BackendResult<TreeId>)
        requires
            old(self).wf(),
            contents.wf(),
        ensures
            final(self).wf(),
            final(self).extras() == old(self).extras(),
            r matches Ok(tid) ==> {
                &&& tid@ == tree_oid_of(encode_tree(contents@))
                &&& tid@.len() == HASH_LENGTH
                &&& forall|i: int, j: int|
                    0 <= i < j < contents@.len() ==> (#[trigger] encode_entry(
                        contents@[i],
                    ).name) != (#[trigger] encode_entry(contents@[j]).name)
                &&& forall|i: int|
                    0 <= i < contents@.len() ==> value_oid(
                        #[trigger] contents@[i].value,
                    ).len() == HASH_LENGTH
                &&& (contents@.len() == 0 ==> tid@ == empty_tree_bytes())
                &&& (contents@.len() > 0 ==> tid@ != empty_tree_bytes())
                &&& final(self).trees() == old(self).trees().insert(
                    tid@,
                    final(self).trees()[tid@],
                )
                &&& stored_matches_written(
                    final(self).trees()[tid@],
                    encode_tree(contents@),
                )
                &&& final(self).blobs() == old(self).blobs()
                &&& final(self).commits() == old(self).commits()
                &&& final(self).refs() == old(self).refs()
            },
    {
        let entries = contents.entries();
        let mut wentries: Vec<WEntry> = Vec::new();
        let mut i: usize = 0;
        while i < entries.len()
            invariant
                i <= entries@.len(),
                entries@.len() == contents@.len(),
                forall|k: int|
                    0 <= k < entries@.len() ==> #[trigger] entries@[k]@
                        == contents@[k],
                wentries@.len() == i,
                forall|k: int|
                    0 <= k < i ==> #[trigger] wentries@[k]@ == encode_entry(
                        contents@[k],
                    ),
                forall|k: int|
                    0 <= k < i ==> (#[trigger] wentries@[k].oid@).len()
                        == HASH_LENGTH,
            decreases entries@.len() - i,
        {
            let e = &entries[i];
            proof {
                assert(entries@[i as int]@ == contents@[i as int]);
                assert(e.name@ == contents@[i as int].name);
                assert(e.value@ == contents@[i as int].value);
            }
            let (name, oid, filemode): (String, Vec<u8>, i32) = match &e.value
            {
                TreeValue::Normal { id, executable } => {
                    let mode: i32 = if *executable {
                        0o100755
                    } else {
                        0o100644
                    };
                    (e.name.clone(), id.to_bytes(), mode)
                },
                TreeValue::Symlink(id) => (
                    e.name.clone(),
                    id.to_bytes(),
                    0o120000,
                ),
                TreeValue::Tree(id) => (
                    e.name.clone(),
                    id.to_bytes(),
                    0o040000,
                ),
                TreeValue::GitSubmodule(id) => (
                    e.name.clone(),
                    id.to_bytes(),
                    0o160000,
                ),
                TreeValue::Conflict(id) => {
                    let mut n = e.name.clone();
                    n.append(".jjconflict");
                    proof {
                        reveal_strlit(".jjconflict");
                        assert((".jjconflict")@ =~= conflict_suffix());
                    }
                    (n, id.to_bytes(), 0o100644)
                },
            };
            if oid.len() != HASH_LENGTH {
                return Err(BackendError::NotFound);
            }
            wentries.push(WEntry { name, oid, filemode });
            proof {
                let ge = contents@[i as int];
                let w = wentries@[i as int];
                assert(w.name@ == (match ge.value {
                    TreeValueV::Conflict(cid) => ge.name + conflict_suffix(),
                    _ => ge.name,
                }));
                assert(w@.oid == value_oid(ge.value));
                assert(w@.name == encode_utf8(w.name@));
                assert(w@ == encode_entry(ge));
            }
            i = i + 1;
        }
        // Two encoded names may collide only through the conflict suffix
        // convention; such a tree cannot be stored faithfully.
        let mut a: usize = 0;
        while a < wentries.len()
            invariant
                a <= wentries@.len(),
                forall|x: int, y: int|
                    0 <= x < y < a ==> (#[trigger] wentries@[x].name@)
                        != (#[trigger] wentries@[y].name@),
            decreases wentries@.len() - a,
        {
            let mut b2: usize = 0;
            while b2 < a
                invariant
                    b2 <= a < wentries@.len(),
                    forall|x: int|
                        0 <= x < b2 ==> (#[trigger] wentries@[x].name@)
                            != wentries@[a as int].name@,
                decreases a - b2,
            {
                if str_compare(
                    wentries[b2].name.as_str(),
                    wentries[a].name.as_str(),
                ) == 0 {
                    return Err(
                        BackendError::Other(
                            "tree entry names collide after encoding"
                                .to_owned(),
                        ),
                    );
                }
                b2 = b2 + 1;
            }
            a = a + 1;
        }
        proof {
            assert forall|x: int, y: int|
                0 <= x < y < wentries@.len() implies (
            #[trigger] wentries@[x]@.name) != (#[trigger] wentries@[y]@.name)
                by {
                assert(wentries@[x].name@ != wentries@[y].name@);
                vstd::utf8::encode_utf8_decode_utf8(wentries@[x].name@);
                vstd::utf8::encode_utf8_decode_utf8(wentries@[y].name@);
            }
        }
        let oid = match repo_tree_write(&mut self.repo, &wentries) {
            Ok(o) => o,
            Err(e) => { return Err(e); },
        };
        proof {
            assert(wentries_view(wentries@) =~= encode_tree(contents@));
            assert(wentries@.len() == contents@.len());
            assert forall|i: int|
                0 <= i < contents@.len() implies value_oid(
                #[trigger] contents@[i].value,
            ).len() == HASH_LENGTH by {
                assert(wentries@[i]@ == encode_entry(contents@[i]));
                assert(wentries@[i].oid@.len() == HASH_LENGTH);
                assert(encode_entry(contents@[i]).oid == value_oid(
                    contents@[i].value,
                ));
            }
            assert forall|i: int, j: int|
                0 <= i < j < contents@.len() implies (#[trigger] encode_entry(
                contents@[i],
            ).name) != (#[trigger] encode_entry(contents@[j]).name) by {
                assert(wentries@[i]@ == encode_entry(contents@[i]));
                assert(wentries@[j]@ == encode_entry(contents@[j]));
                assert(wentries@[i]@.name != wentries@[j]@.name);
            }
        }
        Ok(TreeId::new(oid))
    }
}

/// One more decoded entry extends the assembled tree by one insertion.
proof fn lemma_build_tree_seq_step(s: Seq<GEntryV>, i: int, t: Seq<TreeEntryV>)
    requires
        0 <= i < s.len(),
        build_tree_seq(s.take(i)) == Some(t),
        decode_gentry(s[i]) is Some,
    ensures
        build_tree_seq(s.take(i + 1)) == Some(tree_seq_insert(
            t,
            decode_gentry(s[i]).unwrap().0,
            decode_gentry(s[i]).unwrap().1,
        )),
{
    assert(s.take(i + 1).drop_last() =~= s.take(i));
    assert(s.take(i + 1).last() == s[i]);
}


// ---- commit translation ----

/// The domain signature read back from a native one: placeholders for
/// invalid text, milliseconds as whole seconds times one thousand.
pub open spec fn sig_chars(g: GSigV) -> SignatureV {
    SignatureV {
        name: if valid_utf8(g.name) {
            decode_utf8(g.name)
        } else {
            ("<no name>")@
        },
        email: if valid_utf8(g.email) {
            decode_utf8(g.email)
        } else {
            ("<no email>")@
        },
        timestamp: Timestamp {
            timestamp: MillisSinceEpoch(wrap_millis(g.seconds as i64)),
            tz_offset: g.offset as i32,
        },
    }
}

/// The description read back from raw message bytes: the store strips
/// leading newlines; invalid text becomes a placeholder.
pub open spec fn message_chars(m: Seq<u8>) -> Seq<char> {
    if valid_utf8(drop_leading_newlines(m)) {
        decode_utf8(drop_leading_newlines(m))
    } else {
        ("<no message>")@
    }
}

/// The commit read back from native data alone, before the overlay is
/// consulted: neutral defaults, with the change identity derived from the
/// commit identity.
pub open spec fn default_commit_view(d: GCommitV, id: Seq<u8>) -> CommitV {
    CommitV {
        parents: d.parents,
        predecessors: Seq::empty(),
        root_tree: d.tree,
        change_id: change_id_of(id),
        description: message_chars(d.message),
        author: sig_chars(d.author),
        committer: sig_chars(d.committer),
        is_open: false,
    }
}

/// A stored overlay record applied over the defaults: it supplies
/// `is_open` and `change_id` and appends the predecessors.
pub open spec fn apply_extras_view(c: CommitV, e: ExtrasV) -> CommitV {
    CommitV {
        parents: c.parents,
        predecessors: c.predecessors + e.predecessors,
        root_tree: c.root_tree,
        change_id: e.change_id,
        description: c.description,
        author: c.author,
        committer: c.committer,
        is_open: e.is_open,
    }
}

/// The identity the commit object keeps for a written domain signature:
/// trimmed name and email, the timestamp truncated to whole seconds and
/// reduced to the store's unsigned 32-bit range, the offset kept only
/// within the store's representable timezone range.
pub open spec fn stored_sig_view(s: SignatureV) -> GSigV {
    GSigV {
        name: sig_trim(encode_utf8(s.name)),
        email: sig_trim(encode_utf8(s.email)),
        seconds: stored_seconds((s.timestamp.timestamp.0 / 1000) as i64),
        offset: crate::gitops::stored_offset(s.timestamp.tz_offset as int),
    }
}

/// The native data stored for a written domain commit; the commit's
/// identity is the store's hash of exactly this data.
pub open spec fn stored_commit_data(c: CommitV) -> GCommitV {
    GCommitV {
        tree: c.root_tree,
        parents: c.parents,
        author: stored_sig_view(c.author),
        committer: stored_sig_view(c.committer),
        message: encode_utf8(c.description),
    }
}

/// After a commit write, exactly one fresh reference in the reserved no-GC
/// namespace points at the new commit.
pub open spec fn pinned_once(
    old_refs: Map<Seq<char>, Seq<u8>>,
    new_refs: Map<Seq<char>, Seq<u8>>,
    cid: Seq<u8>,
) -> bool {
    exists|name: Seq<char>|
        #![auto]
        is_no_gc_ref_name(name) && new_refs == old_refs.insert(name, cid)
}

impl GitBackend {
    /// Read a commit: the native data supplies parents, tree, message and
    /// signatures; `change_id`, `predecessors` and `is_open` come from the
    /// overlay record when one exists, else take neutral defaults with the
    /// change identity derived from the commit identity.
    #[verifier::loop_isolation(false)]
    pub fn read_commit(&self, id: &CommitId) -> (r: BackendResult<Commit>)
        requires
            self.wf(),
        ensures
            id@.len() != HASH_LENGTH ==> (r matches Err(e) && e is NotFound),
            r matches Err(e) && e is NotFound ==> (id@.len() != HASH_LENGTH
                || !self.commits().contains_key(id@)),
            r matches Ok(c) ==> {
                let base = default_commit_view(self.commits()[id@], id@);
                &&& self.commits().contains_key(id@)
                &&& if self.extras().contains_key(id@) {
                    parse_extras(self.extras()[id@]) matches Some(e) && c@
                        == apply_extras_view(base, e)
                } else {
                    c@ == base
                }
            },
    {
        if id.as_bytes().len() != HASH_LENGTH {
            return Err(BackendError::NotFound);
        }
        let h = match repo_commit_find(&self.repo, id.as_bytes()) {
            Ok(h) => h,
            Err(e) => { return Err(e); },
        };
        let ghost data = self.commits()[id@];
        let tree_oid = commit_tree_oid(&h);
        let pc = commit_parent_count(&h);
        let msg = commit_message(&h);
        let araw = commit_author(&h);
        let craw = commit_committer(&h);
        let change_id = derive_change_id(id);
        let mut parents: Vec<CommitId> = Vec::new();
        let mut i: usize = 0;
        while i < pc
            invariant
                i <= pc,
                pc == data.parents.len(),
                parents@.len() == i,
                forall|k: int|
                    0 <= k < i ==> (#[trigger] parents@[k]@)
                        == data.parents[k],
            decreases pc - i,
        {
            parents.push(CommitId::new(commit_parent_oid(&h, i)));
            i = i + 1;
        }
        let description = match msg {
            Some(m) => m,
            None => "<no message>".to_owned(),
        };
        let author = signature_from_git(&araw);
        let committer = signature_from_git(&craw);
        let mut commit = Commit {
            parents,
            predecessors: Vec::new(),
            root_tree: TreeId::new(tree_oid),
            change_id,
            description,
            author,
            committer,
            is_open: false,
        };
        proof {
            assert(Seq::new(commit.parents@.len(), |k: int|
                commit.parents@[k]@) =~= data.parents);
            assert(commit@.predecessors =~= Seq::<Seq<u8>>::empty());
            if araw.name is Some {
                vstd::utf8::encode_utf8_decode_utf8(
                    araw.name.unwrap()@,
                );
            }
            if araw.email is Some {
                vstd::utf8::encode_utf8_decode_utf8(araw.email.unwrap()@);
            }
            if craw.name is Some {
                vstd::utf8::encode_utf8_decode_utf8(craw.name.unwrap()@);
            }
            if craw.email is Some {
                vstd::utf8::encode_utf8_decode_utf8(craw.email.unwrap()@);
            }
            if msg is Some {
                vstd::utf8::encode_utf8_decode_utf8(msg.unwrap()@);
            }
            assert(commit@.author == sig_chars(data.author));
            assert(commit@.committer == sig_chars(data.committer));
            assert(commit@.description == message_chars(data.message));
            assert(commit@ == default_commit_view(data, id@));
        }
        let maybe_extras = self.extra_metadata_store.get_head().get_value(
            id.as_bytes(),
        );
        match maybe_extras {
            Some(extras) => {
                let ok = deserialize_extras(&mut commit, extras.as_slice());
                if !ok {
                    return Err(
                        BackendError::Other(
                            "corrupt metadata record for commit".to_owned(),
                        ),
                    );
                }
                proof {
                    let e = parse_extras(self.extras()[id@]).unwrap();
                    assert(commit@.predecessors =~= Seq::<Seq<u8>>::empty()
                        + e.predecessors);
                    assert(commit@ == apply_extras_view(
                        default_commit_view(data, id@),
                        e,
                    ));
                }
            },
            None => {},
        }
        Ok(commit)
    }

    /// Content-address and store a commit. The native object is written
    /// first and immediately pinned by a fresh reference in the reserved
    /// no-GC namespace; then the overlay record is attached: if a record
    /// for the same native identity already exists with different bytes,
    /// the write fails and the overlay is untouched (the object stays
    /// pinned), and a byte-identical record is kept as is.
    #[verifier::loop_isolation(false)]
    pub fn write_commit(&mut self, contents: &Commit) -> (r: BackendResult<
        CommitId,
    >)
        requires
            old(self).wf(),
        ensures
            final(self).wf(),
            r matches Ok(cid) ==> {
                let data = stored_commit_data(contents@);
                &&& cid@ == commit_oid_of(data)
                &&& cid@.len() == HASH_LENGTH
                &&& final(self).commits() == old(self).commits().insert(
                    cid@,
                    data,
                )
                &&& final(self).blobs() == old(self).blobs()
                &&& final(self).trees() == old(self).trees()
                &&& pinned_once(old(self).refs(), final(self).refs(), cid@)
                &&& final(self).extras() == old(self).extras().insert(
                    cid@,
                    ser_extras(extras_of(contents@)),
                )
                &&& !(old(self).extras().contains_key(cid@) && old(
                    self,
                ).extras()[cid@] != ser_extras(extras_of(contents@)))
                &&& old(self).trees().contains_key(contents@.root_tree)
                &&& forall|i: int|
                    0 <= i < contents@.parents.len() ==> old(
                        self,
                    ).commits().contains_key(#[trigger] contents@.parents[i])
            },
            (old(self).extras().contains_key(
                commit_oid_of(stored_commit_data(contents@)),
            ) && old(self).extras()[commit_oid_of(
                stored_commit_data(contents@),
            )] != ser_extras(extras_of(contents@))) ==> r is Err,
            contents@.root_tree.len() != HASH_LENGTH ==> r is Err,
            (exists|i: int|
                0 <= i < contents@.parents.len()
                    && (#[trigger] contents@.parents[i]).len()
                    != HASH_LENGTH) ==> r is Err,
            (contents@.author.timestamp.tz_offset == i32::MIN
                || contents@.committer.timestamp.tz_offset == i32::MIN)
                ==> r is Err,
            r is Err ==> {
                let data = stored_commit_data(contents@);
                let k = commit_oid_of(data);
                &&& final(self).extras() == old(self).extras()
                &&& final(self).blobs() == old(self).blobs()
                &&& final(self).trees() == old(self).trees()
                &&& (final(self).commits() == old(self).commits()
                    || (final(self).commits() == old(self).commits().insert(
                    k,
                    data,
                ) && old(self).trees().contains_key(contents@.root_tree)
                    && forall|i: int|
                    0 <= i < contents@.parents.len() ==> old(
                        self,
                    ).commits().contains_key(#[trigger] contents@.parents[i])))
                &&& (final(self).refs() == old(self).refs() || (pinned_once(
                    old(self).refs(),
                    final(self).refs(),
                    k,
                ) && final(self).commits() == old(self).commits().insert(
                    k,
                    data,
                )))
            },
            r matches Err(e) ==> (final(self).refs() != old(self).refs()
                ==> (e matches BackendError::Other(m) && m@ == (
            "Git commit '")@ + crate::hexfmt::hex_of(commit_oid_of(
                stored_commit_data(contents@),
            )) + ("' already exists with different associated non-Git meta-data")@)),
    {
        if contents.root_tree.as_bytes().len() != HASH_LENGTH {
            return Err(BackendError::NotFound);
        }
        if contents.author.timestamp.tz_offset == i32::MIN
            || contents.committer.timestamp.tz_offset == i32::MIN {
            return Err(
                BackendError::Other(
                    "timezone offset out of range".to_owned(),
                ),
            );
        }
        let mut parent_oids: Vec<Vec<u8>> = Vec::new();
        let mut i: usize = 0;
        while i < contents.parents.len()
            invariant
                i <= contents.parents@.len(),
                parent_oids@.len() == i,
                forall|k: int|
                    0 <= k < i ==> (#[trigger] parent_oids@[k]@)
                        == contents.parents@[k]@,
                forall|k: int|
                    0 <= k < i ==> (#[trigger] parent_oids@[k]@).len()
                        == HASH_LENGTH,
            decreases contents.parents@.len() - i,
        {
            let b = contents.parents[i].to_bytes();
            if b.len() != HASH_LENGTH {
                return Err(BackendError::NotFound);
            }
            parent_oids.push(b);
            i = i + 1;
        }
        let author_w = signature_to_git(&contents.author);
        let committer_w = signature_to_git(&contents.committer);
        let author = match make_signature(&author_w) {
            Ok(s) => s,
            Err(e) => { return Err(e); },
        };
        let committer = match make_signature(&committer_w) {
            Ok(s) => s,
            Err(e) => { return Err(e); },
        };
        let refname = create_no_gc_ref();
        proof {
            assert(oids_view(parent_oids@) =~= contents@.parents);
            assert(stored_identity(identity_data(author)) == stored_sig_view(
                contents@.author,
            )) by {
                assert(author_w.seconds as int as i64 == author_w.seconds);
                assert(author_w.seconds == (contents@.author.timestamp
                    .timestamp.0 / 1000) as i64);
            }
            assert(stored_identity(identity_data(committer))
                == stored_sig_view(contents@.committer)) by {
                assert(committer_w.seconds as int as i64
                    == committer_w.seconds);
                assert(committer_w.seconds == (contents@.committer.timestamp
                    .timestamp.0 / 1000) as i64);
            }
            assert((GCommitV {
                tree: contents.root_tree@,
                parents: oids_view(parent_oids@),
                author: stored_identity(identity_data(author)),
                committer: stored_identity(identity_data(committer)),
                message: encode_utf8(contents.description@),
            }) == stored_commit_data(contents@)) by {
                assert(encode_utf8(contents.description@) == encode_utf8(
                    contents@.description,
                ));
                assert(author_w.seconds as int as i64 == author_w.seconds);
                assert(committer_w.seconds as int as i64
                    == committer_w.seconds);
            }
        }
        let oid = match repo_commit_write(
            &mut self.repo,
            refname.as_str(),
            &author,
            &committer,
            contents.description.as_str(),
            contents.root_tree.as_bytes(),
            &parent_oids,
        ) {
            Ok(o) => o,
            Err(e) => { return Err(e); },
        };
        let extras = serialize_extras(contents);
        let mut mut_table = self.extra_metadata_store.get_head(
        ).start_mutation();
        let conflicting: bool = match mut_table.get_value(oid.as_slice()) {
            Some(existing) => !bytes_eq(existing.as_slice(), extras.as_slice()),
            None => false,
        };
        if conflicting {
            let mut msg = "Git commit '".to_owned();
            let hexid = crate::hexfmt::hex_encode(oid.as_slice());
            msg.append(hexid.as_str());
            msg.append(
                "' already exists with different associated non-Git meta-data",
            );
            proof {
                assert(msg@ == ("Git commit '")@ + crate::hexfmt::hex_of(
                    commit_oid_of(stored_commit_data(contents@)),
                ) + ("' already exists with different associated non-Git meta-data")@);
            }
            return Err(BackendError::Other(msg));
        }
        let key = vstd::slice::slice_to_vec(oid.as_slice());
        mut_table.add_entry(key, extras);
        self.extra_metadata_store.save_table(mut_table);
        proof {
            assert(is_no_gc_ref_name(refname@) && final(self).refs() == old(
                self,
            ).refs().insert(refname@, oid@));
            assert(pinned_once(old(self).refs(), final(self).refs(), oid@));
        }
        Ok(CommitId::new(oid))
    }

    /// Read a conflict: the blob under the id must hold a canonical
    /// conflict document, which is decoded back to the value it serializes.
    pub fn read_conflict(&self, _path: &RepoPath, id: &ConflictId) -> (r:
        BackendResult<Conflict>)
        ensures
            id@.len() != HASH_LENGTH ==> (r matches Err(e) && e is NotFound),
            r matches Err(e) && e is NotFound ==> (id@.len() != HASH_LENGTH
                || !self.blobs().contains_key(id@)),
            r matches Ok(c) ==> {
                &&& id@.len() == HASH_LENGTH
                &&& self.blobs().contains_key(id@)
                &&& self.blobs()[id@] == ser_conflict(c@)
            },
    {
        let fid = FileId::new(id.to_bytes());
        let data = match self.read_file(
            &RepoPath::from_internal_string("unused"),
            &fid,
        ) {
            Ok(d) => d,
            Err(e) => { return Err(e); },
        };
        match conflict_from_bytes(data.as_slice()) {
            Some(c) => Ok(c),
            None => Err(
                BackendError::Other("corrupt conflict document".to_owned()),
            ),
        }
    }

    /// Serialize and content-address a conflict; the returned id is a
    /// function of the conflict value alone.
    pub fn write_conflict(&mut self, _path: &RepoPath, conflict: &Conflict)
        -> (r: BackendResult<ConflictId>)
        requires
            old(self).wf(),
        ensures
            final(self).wf(),
            final(self).extras() == old(self).extras(),
            r matches Ok(cid) ==> {
                &&& cid@ == blob_oid_of(ser_conflict(conflict@))
                &&& cid@.len() == HASH_LENGTH
                &&& final(self).blobs() == old(self).blobs().insert(
                    cid@,
                    ser_conflict(conflict@),
                )
                &&& final(self).trees() == old(self).trees()
                &&& final(self).commits() == old(self).commits()
                &&& final(self).refs() == old(self).refs()
            },
    {
        let bytes = conflict_to_bytes(conflict);
        match repo_blob_write(&mut self.repo, bytes.as_slice()) {
            Ok(oid) => Ok(ConflictId::new(oid)),
            Err(e) => Err(e),
        }
    }
}


// ---- the stored tree determines the written tree ----

/// The name-to-value mapping denoted by an entry list.
pub open spec fn tree_map(s: Seq<TreeEntryV>) -> Map<Seq<char>, TreeValueV> {
    Map::new(
        |n: Seq<char>| exists|i: int| 0 <= i < s.len() && s[i].name == n,
        |n: Seq<char>|
            s[choose|i: int| 0 <= i < s.len() && s[i].name == n].value,
    )
}

/// Entry names of a name-ordered list are pairwise distinct.
proof fn lemma_sorted_names_distinct(s: Seq<TreeEntryV>)
    requires
        tree_entries_sorted(s),
    ensures
        forall|i: int, j: int|
            0 <= i < j < s.len() ==> (#[trigger] s[i].name)
                != (#[trigger] s[j].name),
{
    assert forall|i: int, j: int|
        0 <= i < j < s.len() implies (#[trigger] s[i].name)
        != (#[trigger] s[j].name) by {
        lemma_chars_lt_total(s[i].name, s[j].name);
    }
}

/// With distinct names, the entry at `i` is what the map yields.
proof fn lemma_tree_map_index(s: Seq<TreeEntryV>, i: int)
    requires
        forall|x: int, y: int|
            0 <= x < y < s.len() ==> (#[trigger] s[x].name)
                != (#[trigger] s[y].name),
        0 <= i < s.len(),
    ensures
        tree_map(s).contains_key(s[i].name),
        tree_map(s)[s[i].name] == s[i].value,
{
    let n = s[i].name;
    assert(exists|k: int| 0 <= k < s.len() && s[k].name == n);
    let j = choose|k: int| 0 <= k < s.len() && s[k].name == n;
    if j != i {
        assert(s[i].name != s[j].name || s[j].name != s[i].name);
    }
}

/// Ordered insertion inserts into the denoted map, preserves ordering, and
/// adds no name but the inserted one.
proof fn lemma_insert_map(s: Seq<TreeEntryV>, n: Seq<char>, v: TreeValueV)
    requires
        tree_entries_sorted(s),
    ensures
        tree_entries_sorted(tree_seq_insert(s, n, v)),
        tree_map(tree_seq_insert(s, n, v)) == tree_map(s).insert(n, v),
        forall|j: int|
            0 <= j < tree_seq_insert(s, n, v).len() ==> ((#[trigger]
            tree_seq_insert(s, n, v)[j].name) == n || exists|i: int|
                0 <= i < s.len() && s[i].name == tree_seq_insert(
                    s,
                    n,
                    v,
                )[j].name),
    decreases s.len(),
{
    let e = TreeEntryV { name: n, value: v };
    let r = tree_seq_insert(s, n, v);
    lemma_sorted_names_distinct(s);
    if s.len() == 0 {
        assert(r =~= seq![e]);
        assert(tree_map(r) =~= tree_map(s).insert(n, v)) by {
            assert forall|k: Seq<char>|
                tree_map(r).contains_key(k) implies k == n by {}
            assert(tree_map(r).contains_key(n));
            assert(tree_map(r)[n] == v);
        }
    } else if chars_lt(n, s[0].name) {
        assert(r == seq![e] + s);
        assert forall|x: int, y: int|
            0 <= x < y < r.len() implies chars_lt(
            #[trigger] r[x].name,
            #[trigger] r[y].name,
        ) by {
            if x == 0 {
                if y > 1 {
                    lemma_chars_lt_trans(n, s[0].name, s[y - 1].name);
                }
            } else {
                assert(r[x] == s[x - 1] && r[y] == s[y - 1]);
            }
        }
        assert forall|x: int, y: int|
            0 <= x < y < r.len() implies (#[trigger] r[x].name)
            != (#[trigger] r[y].name) by {
            lemma_chars_lt_total(r[x].name, r[y].name);
        }
        assert(tree_map(r) =~= tree_map(s).insert(n, v)) by {
            assert forall|k: Seq<char>|
                #![auto]
                tree_map(r).contains_key(k) == tree_map(s).insert(
                    n,
                    v,
                ).contains_key(k) by {
                if tree_map(r).contains_key(k) {
                    let j = choose|j: int|
                        0 <= j < r.len() && r[j].name == k;
                    if j > 0 {
                        assert(s[j - 1].name == k);
                    }
                } else {
                    if k != n && tree_map(s).contains_key(k) {
                        let i = choose|i: int|
                            0 <= i < s.len() && s[i].name == k;
                        assert(r[i + 1].name == k);
                    }
                }
            }
            assert forall|k: Seq<char>|
                tree_map(r).contains_key(k) implies #[trigger] tree_map(
                r,
            )[k] == tree_map(s).insert(n, v)[k] by {
                let j = choose|j: int| 0 <= j < r.len() && r[j].name == k;
                lemma_tree_map_index(r, j);
                if j > 0 {
                    assert(r[j] == s[j - 1]);
                    lemma_tree_map_index(s, j - 1);
                    assert(k != n) by {
                        lemma_chars_lt_total(n, s[0].name);
                        if j - 1 > 0 {
                            lemma_chars_lt_trans(
                                n,
                                s[0].name,
                                s[j - 1].name,
                            );
                        }
                        lemma_chars_lt_total(n, s[j - 1].name);
                    }
                }
            }
        }
    } else if n == s[0].name {
        assert(r == seq![e] + s.drop_first());
        assert forall|x: int, y: int|
            0 <= x < y < r.len() implies chars_lt(
            #[trigger] r[x].name,
            #[trigger] r[y].name,
        ) by {
            if x == 0 {
                assert(r[y] == s[y]);
                assert(chars_lt(s[0].name, s[y].name));
            } else {
                assert(r[x] == s[x] && r[y] == s[y]);
            }
        }
        assert forall|x: int, y: int|
            0 <= x < y < r.len() implies (#[trigger] r[x].name)
            != (#[trigger] r[y].name) by {
            lemma_chars_lt_total(r[x].name, r[y].name);
        }
        assert(tree_map(r) =~= tree_map(s).insert(n, v)) by {
            assert forall|k: Seq<char>|
                #![auto]
                tree_map(r).contains_key(k) == tree_map(s).insert(
                    n,
                    v,
                ).contains_key(k) by {
                if tree_map(r).contains_key(k) {
                    let j = choose|j: int|
                        0 <= j < r.len() && r[j].name == k;
                    if j > 0 {
                        assert(s[j].name == k);
                    }
                } else {
                    if k != n && tree_map(s).contains_key(k) {
                        let i = choose|i: int|
                            0 <= i < s.len() && s[i].name == k;
                        assert(i > 0);
                        assert(r[i].name == k);
                    }
                }
            }
            assert forall|k: Seq<char>|
                tree_map(r).contains_key(k) implies #[trigger] tree_map(
                r,
            )[k] == tree_map(s).insert(n, v)[k] by {
                let j = choose|j: int| 0 <= j < r.len() && r[j].name == k;
                lemma_tree_map_index(r, j);
                if j > 0 {
                    assert(r[j] == s[j]);
                    lemma_tree_map_index(s, j);
                    assert(k != n) by {
                        assert(chars_lt(s[0].name, s[j].name));
                        lemma_chars_lt_total(s[0].name, s[j].name);
                    }
                }
            }
        }
    } else {
        lemma_chars_lt_total(n, s[0].name);
        assert(chars_lt(s[0].name, n));
        let d = s.drop_first();
        assert(tree_entries_sorted(d)) by {
            assert(forall|x: int, y: int|
                0 <= x < y < d.len() ==> d[x] == s[x + 1] && d[y] == s[y
                    + 1]);
        }
        lemma_insert_map(d, n, v);
        let rd = tree_seq_insert(d, n, v);
        assert(r == seq![s[0]] + rd);
        assert forall|x: int, y: int|
            0 <= x < y < r.len() implies chars_lt(
            #[trigger] r[x].name,
            #[trigger] r[y].name,
        ) by {
            if x == 0 {
                assert(r[y] == rd[y - 1]);
                if rd[y - 1].name == n {
                } else {
                    let i = choose|i: int|
                        0 <= i < d.len() && d[i].name == rd[y - 1].name;
                    assert(d[i] == s[i + 1]);
                    assert(chars_lt(s[0].name, s[i + 1].name));
                }
            } else {
                assert(r[x] == rd[x - 1] && r[y] == rd[y - 1]);
            }
        }
        assert forall|x: int, y: int|
            0 <= x < y < r.len() implies (#[trigger] r[x].name)
            != (#[trigger] r[y].name) by {
            lemma_chars_lt_total(r[x].name, r[y].name);
        }
        assert forall|x: int, y: int|
            0 <= x < y < rd.len() implies (#[trigger] rd[x].name)
            != (#[trigger] rd[y].name) by {
            assert(r[x + 1] == rd[x] && r[y + 1] == rd[y]);
        }
        assert(tree_map(r) =~= tree_map(s).insert(n, v)) by {
            assert forall|k: Seq<char>|
                #![auto]
                tree_map(r).contains_key(k) == tree_map(s).insert(
                    n,
                    v,
                ).contains_key(k) by {
                if tree_map(r).contains_key(k) {
                    let j = choose|j: int|
                        0 <= j < r.len() && r[j].name == k;
                    if j > 0 {
                        assert(rd[j - 1].name == k);
                        assert(tree_map(rd).contains_key(k));
                        assert(tree_map(d).insert(n, v).contains_key(k));
                        if k != n {
                            let i = choose|i: int|
                                0 <= i < d.len() && d[i].name == k;
                            assert(s[i + 1].name == k);
                        }
                    }
                } else {
                    if k == n {
                        assert(tree_map(d).insert(n, v).contains_key(k));
                        assert(tree_map(rd).contains_key(k));
                        let j = choose|j: int|
                            0 <= j < rd.len() && rd[j].name == k;
                        assert(r[j + 1].name == k);
                    } else if tree_map(s).contains_key(k) {
                        let i = choose|i: int|
                            0 <= i < s.len() && s[i].name == k;
                        if i == 0 {
                            assert(r[0].name == k);
                        } else {
                            assert(d[i - 1].name == k);
                            assert(tree_map(d).contains_key(k));
                            assert(tree_map(rd).contains_key(k));
                            let j = choose|j: int|
                                0 <= j < rd.len() && rd[j].name == k;
                            assert(r[j + 1].name == k);
                        }
                    }
                }
            }
            assert forall|k: Seq<char>|
                tree_map(r).contains_key(k) implies #[trigger] tree_map(
                r,
            )[k] == tree_map(s).insert(n, v)[k] by {
                let j = choose|j: int| 0 <= j < r.len() && r[j].name == k;
                lemma_tree_map_index(r, j);
                if j == 0 {
                    assert(k == s[0].name);
                    assert(k != n);
                    lemma_tree_map_index(s, 0);
                } else {
                    assert(r[j] == rd[j - 1]);
                    lemma_tree_map_index(rd, j - 1);
                    assert(tree_map(rd)[k] == tree_map(d).insert(n, v)[k]);
                    if k == n {
                    } else {
                        assert(tree_map(d).contains_key(k));
                        let i = choose|i: int|
                            0 <= i < d.len() && d[i].name == k;
                        lemma_tree_map_index(d, i);
                        assert(d[i] == s[i + 1]);
                        lemma_tree_map_index(s, i + 1);
                    }
                }
            }
        }
    }
}

/// The name-to-value mapping of the decoded entries, one insertion per
/// stored entry.
pub open spec fn decoded_map(s: Seq<GEntryV>) -> Map<Seq<char>, TreeValueV>
    decreases s.len(),
{
    if s.len() == 0 {
        Map::empty()
    } else {
        decoded_map(s.drop_last()).insert(
            decode_gentry(s.last()).unwrap().0,
            decode_gentry(s.last()).unwrap().1,
        )
    }
}

/// What ordered insertion assembles from a stored entry list is sorted and
/// denotes the decoded mapping.
proof fn lemma_build_map(s: Seq<GEntryV>, t2: Seq<TreeEntryV>)
    requires
        build_tree_seq(s) == Some(t2),
    ensures
        tree_entries_sorted(t2),
        tree_map(t2) == decoded_map(s),
    decreases s.len(),
{
    if s.len() == 0 {
        assert(t2 =~= Seq::<TreeEntryV>::empty());
        assert(tree_map(t2) =~= Map::<Seq<char>, TreeValueV>::empty());
    } else {
        let tp = build_tree_seq(s.drop_last()).unwrap();
        lemma_build_map(s.drop_last(), tp);
        let p = decode_gentry(s.last()).unwrap();
        lemma_insert_map(tp, p.0, p.1);
    }
}

/// Two name-ordered entry lists denoting the same mapping are equal.
proof fn lemma_sorted_map_unique(a: Seq<TreeEntryV>, b: Seq<TreeEntryV>)
    requires
        tree_entries_sorted(a),
        tree_entries_sorted(b),
        tree_map(a) == tree_map(b),
    ensures
        a == b,
    decreases a.len(),
{
    lemma_sorted_names_distinct(a);
    lemma_sorted_names_distinct(b);
    if a.len() == 0 {
        if b.len() > 0 {
            lemma_tree_map_index(b, 0);
            assert(tree_map(a).contains_key(b[0].name));
        }
        assert(a =~= b);
    } else if b.len() == 0 {
        lemma_tree_map_index(a, 0);
        assert(tree_map(b).contains_key(a[0].name));
        assert(false);
    } else {
        // The heads carry the least name of the common domain.
        lemma_tree_map_index(a, 0);
        lemma_tree_map_index(b, 0);
        assert(tree_map(b).contains_key(a[0].name));
        let j = choose|j: int| 0 <= j < b.len() && b[j].name == a[0].name;
        assert(tree_map(a).contains_key(b[0].name));
        let i = choose|i: int| 0 <= i < a.len() && a[i].name == b[0].name;
        if j > 0 {
            assert(chars_lt(b[0].name, b[j].name));
            if i > 0 {
                assert(chars_lt(a[0].name, a[i].name));
                lemma_chars_lt_trans(a[0].name, a[i].name, b[j].name);
                lemma_chars_lt_total(a[0].name, b[j].name);
            } else {
                lemma_chars_lt_total(b[0].name, b[j].name);
            }
            assert(false);
        }
        assert(a[0].name == b[0].name);
        assert(a[0].value == b[0].value) by {
            lemma_tree_map_index(a, 0);
            lemma_tree_map_index(b, 0);
        }
        let da = a.drop_first();
        let db = b.drop_first();
        assert(tree_entries_sorted(da)) by {
            assert(forall|x: int, y: int|
                0 <= x < y < da.len() ==> da[x] == a[x + 1] && da[y] == a[y
                    + 1]);
        }
        assert(tree_entries_sorted(db)) by {
            assert(forall|x: int, y: int|
                0 <= x < y < db.len() ==> db[x] == b[x + 1] && db[y] == b[y
                    + 1]);
        }
        assert(forall|x: int, y: int|
            0 <= x < y < da.len() ==> (#[trigger] da[x].name)
                != (#[trigger] da[y].name)) by {
            assert(forall|x: int|
                0 <= x < da.len() ==> #[trigger] da[x] == a[x + 1]);
        }
        assert(forall|x: int, y: int|
            0 <= x < y < db.len() ==> (#[trigger] db[x].name)
                != (#[trigger] db[y].name)) by {
            assert(forall|x: int|
                0 <= x < db.len() ==> #[trigger] db[x] == b[x + 1]);
        }
        assert(tree_map(da) =~= tree_map(db)) by {
            assert forall|k: Seq<char>|
                #![auto]
                tree_map(da).contains_key(k) == tree_map(db).contains_key(
                    k,
                ) by {
                if tree_map(da).contains_key(k) {
                    let x = choose|x: int|
                        0 <= x < da.len() && da[x].name == k;
                    assert(a[x + 1].name == k);
                    assert(k != a[0].name);
                    assert(tree_map(a).contains_key(k));
                    let y = choose|y: int|
                        0 <= y < b.len() && b[y].name == k;
                    assert(y > 0);
                    assert(db[y - 1].name == k);
                } else if tree_map(db).contains_key(k) {
                    let x = choose|x: int|
                        0 <= x < db.len() && db[x].name == k;
                    assert(b[x + 1].name == k);
                    assert(k != b[0].name);
                    assert(tree_map(b).contains_key(k));
                    let y = choose|y: int|
                        0 <= y < a.len() && a[y].name == k;
                    assert(y > 0);
                    assert(da[y - 1].name == k);
                }
            }
            assert forall|k: Seq<char>|
                tree_map(da).contains_key(k) implies #[trigger] tree_map(
                da,
            )[k] == tree_map(db)[k] by {
                let x = choose|x: int| 0 <= x < da.len() && da[x].name == k;
                lemma_tree_map_index(da, x);
                assert(a[x + 1].name == k);
                lemma_tree_map_index(a, x + 1);
                let y = choose|y: int|
                    0 <= y < db.len() && db[y].name == k;
                lemma_tree_map_index(db, y);
                assert(b[y + 1].name == k);
                lemma_tree_map_index(b, y + 1);
            }
        }
        lemma_sorted_map_unique(da, db);
        assert forall|x: int| 0 <= x < a.len() implies a[x] == b[x] by {
            if x > 0 {
                assert(da[x - 1] == db[x - 1]);
            }
        }
        assert(a =~= b);
    }
}

/// Inputs on which a tree survives the encoding convention: no
/// non-executable file carries the conflict suffix in its literal name,
/// and no two entries encode to the same name.
pub open spec fn tree_round_trippable(t: Seq<TreeEntryV>) -> bool {
    &&& forall|i: int|
        0 <= i < t.len() ==> ((#[trigger] t[i].value) matches
            TreeValueV::Normal { id, executable: false }
            ==> !has_conflict_suffix(t[i].name))
    &&& forall|i: int, j: int|
        0 <= i < j < t.len() ==> (#[trigger] encode_entry(t[i]).name)
            != (#[trigger] encode_entry(t[j]).name)
}

/// Decoding inverts encoding on one entry.
proof fn lemma_decode_encode_entry(e: TreeEntryV)
    requires
        e.value matches TreeValueV::Normal { id, executable: false }
            ==> !has_conflict_suffix(e.name),
    ensures
        decode_gentry(gentry_of_wentry(encode_entry(e))) == Some(
            (e.name, e.value),
        ),
{
    vstd::utf8::encode_utf8_decode_utf8(e.name);
    vstd::utf8::encode_utf8_valid_utf8(e.name);
    match e.value {
        TreeValueV::Conflict(id) => {
            let nm = e.name + conflict_suffix();
            vstd::utf8::encode_utf8_decode_utf8(nm);
            vstd::utf8::encode_utf8_valid_utf8(nm);
            assert(nm.len() == e.name.len() + 11);
            assert(nm.subrange(nm.len() - 11, nm.len() as int)
                =~= conflict_suffix());
            assert(has_conflict_suffix(nm));
            assert(nm.take(nm.len() - 11) =~= e.name);
        },
        _ => {},
    }
}

/// Round trip for trees: reading back what `write_tree` stored yields the
/// written tree. `write_tree` stores exactly the encoded entries, in some
/// order; `read_tree` assembles a name-ordered tree from the stored
/// entries; for any well-formed tree whose names survive the conflict
/// suffix convention, that assembled tree is the written one.
pub proof fn lemma_tree_round_trip(
    t: Seq<TreeEntryV>,
    stored: Seq<GEntryV>,
    t2: Seq<TreeEntryV>,
)
    requires
        tree_entries_sorted(t),
        tree_round_trippable(t),
        stored_matches_written(stored, encode_tree(t)),
        build_tree_seq(stored) == Some(t2),
    ensures
        t2 == t,
{
    broadcast use vstd::seq_lib::group_to_multiset_ensures;

    let wg = written_gentries(encode_tree(t));
    assert(wg.no_duplicates()) by {
        assert forall|i: int, j: int|
            0 <= i < wg.len() && 0 <= j < wg.len() && i != j implies
            wg[i] != wg[j] by {
            assert(wg[i].name == encode_entry(t[i]).name);
            assert(wg[j].name == encode_entry(t[j]).name);
        }
    }
    wg.lemma_multiset_has_no_duplicates();
    assert(stored.len() == wg.len()) by {
        assert(stored.to_multiset().len() == stored.len());
        assert(wg.to_multiset().len() == wg.len());
    }
    assert forall|x: GEntryV|
        stored.to_multiset().contains(x) implies stored.to_multiset().count(
        x,
    ) == 1 by {
        assert(wg.to_multiset().count(x) == 1);
    }
    stored.lemma_multiset_has_no_duplicates_conv();
    // Every stored entry is a written one and decodes to its tree entry.
    assert forall|i: int|
        0 <= i < stored.len() implies exists|a: int|
        0 <= a < t.len() && #[trigger] stored[i] == gentry_of_wentry(
            encode_entry(t[a]),
        ) by {
        assert(stored.to_multiset().count(stored[i]) > 0);
        assert(wg.to_multiset().count(stored[i]) > 0);
        assert(wg.contains(stored[i]));
        let a = choose|a: int| 0 <= a < wg.len() && wg[a] == stored[i];
        assert(wg[a] == gentry_of_wentry(encode_entry(t[a])));
    }
    assert forall|a: int|
        0 <= a < t.len() implies stored.contains(
        #[trigger] gentry_of_wentry(encode_entry(t[a])),
    ) by {
        assert(wg[a] == gentry_of_wentry(encode_entry(t[a])));
        assert(wg.contains(wg[a]));
        assert(wg.to_multiset().count(wg[a]) > 0);
        assert(stored.to_multiset().count(wg[a]) > 0);
    }
    lemma_sorted_names_distinct(t);
    lemma_build_map(stored, t2);
    // Every stored entry decodes to the tree entry it encodes, and the
    // decoded names are pairwise distinct.
    assert forall|i: int|
        0 <= i < stored.len() implies (#[trigger] decode_gentry(
        stored[i],
    )) is Some by {
        let a = choose|a: int|
            0 <= a < t.len() && stored[i] == gentry_of_wentry(
                encode_entry(t[a]),
            );
        lemma_decode_encode_entry(t[a]);
    }
    assert forall|i: int, j: int|
        0 <= i < j < stored.len() implies (#[trigger] decode_gentry(
        stored[i],
    )).unwrap().0 != (#[trigger] decode_gentry(stored[j])).unwrap().0 by {
        let a = choose|a: int|
            0 <= a < t.len() && stored[i] == gentry_of_wentry(
                encode_entry(t[a]),
            );
        let b = choose|b: int|
            0 <= b < t.len() && stored[j] == gentry_of_wentry(
                encode_entry(t[b]),
            );
        lemma_decode_encode_entry(t[a]);
        lemma_decode_encode_entry(t[b]);
        if t[a].name == t[b].name {
            if a != b {
                assert(t[a].name != t[b].name || t[b].name != t[a].name);
            }
            assert(a == b);
            assert(stored[i] == stored[j]);
            assert(false);
        }
    }
    lemma_decoded_map_index(stored);
    // The decoded mapping is the written tree's mapping.
    assert(decoded_map(stored) =~= tree_map(t)) by {
        assert forall|k: Seq<char>|
            #![auto]
            decoded_map(stored).contains_key(k) == tree_map(
                t,
            ).contains_key(k) by {
            if decoded_map(stored).contains_key(k) {
                let i = choose|i: int|
                    0 <= i < stored.len() && decode_gentry(
                        stored[i],
                    ).unwrap().0 == k;
                let a = choose|a: int|
                    0 <= a < t.len() && stored[i] == gentry_of_wentry(
                        encode_entry(t[a]),
                    );
                lemma_decode_encode_entry(t[a]);
                assert(t[a].name == k);
                lemma_tree_map_index(t, a);
            } else if tree_map(t).contains_key(k) {
                let a = choose|a: int|
                    0 <= a < t.len() && t[a].name == k;
                assert(stored.contains(gentry_of_wentry(encode_entry(
                    t[a],
                ))));
                let i = choose|i: int|
                    0 <= i < stored.len() && stored[i] == gentry_of_wentry(
                        encode_entry(t[a]),
                    );
                lemma_decode_encode_entry(t[a]);
                assert(decode_gentry(stored[i]).unwrap().0 == k);
                assert(false);
            }
        }
        assert forall|k: Seq<char>|
            decoded_map(stored).contains_key(k) implies #[trigger]
        decoded_map(stored)[k] == tree_map(t)[k] by {
            let i = choose|i: int|
                0 <= i < stored.len() && decode_gentry(
                    stored[i],
                ).unwrap().0 == k;
            let a = choose|a: int|
                0 <= a < t.len() && stored[i] == gentry_of_wentry(
                    encode_entry(t[a]),
                );
            lemma_decode_encode_entry(t[a]);
            assert(decoded_map(stored)[k] == t[a].value);
            lemma_tree_map_index(t, a);
        }
    }
    lemma_sorted_map_unique(t2, t);
}

/// With decodable entries of pairwise distinct decoded names, the decoded
/// mapping holds exactly the decoded pairs.
proof fn lemma_decoded_map_index(s: Seq<GEntryV>)
    requires
        forall|i: int|
            0 <= i < s.len() ==> (#[trigger] decode_gentry(s[i])) is Some,
        forall|i: int, j: int|
            0 <= i < j < s.len() ==> (#[trigger] decode_gentry(
                s[i],
            )).unwrap().0 != (#[trigger] decode_gentry(s[j])).unwrap().0,
    ensures
        forall|k: Seq<char>|
            #![auto]
            decoded_map(s).contains_key(k) <==> exists|i: int|
                0 <= i < s.len() && decode_gentry(s[i]).unwrap().0 == k,
        forall|i: int|
            0 <= i < s.len() ==> decoded_map(s)[(#[trigger] decode_gentry(
                s[i],
            )).unwrap().0] == decode_gentry(s[i]).unwrap().1,
    decreases s.len(),
{
    if s.len() == 0 {
    } else {
        let d = s.drop_last();
        assert(forall|i: int| 0 <= i < d.len() ==> d[i] == s[i]);
        lemma_decoded_map_index(d);
        let p = decode_gentry(s.last()).unwrap();
        assert forall|k: Seq<char>|
            #![auto]
            decoded_map(s).contains_key(k) <==> exists|i: int|
                0 <= i < s.len() && decode_gentry(s[i]).unwrap().0 == k by {
            if decoded_map(s).contains_key(k) {
                if k == p.0 {
                    assert(decode_gentry(s[s.len() - 1]).unwrap().0 == k);
                } else {
                    assert(decoded_map(d).contains_key(k));
                }
            } else {
                if exists|i: int|
                    0 <= i < s.len() && decode_gentry(s[i]).unwrap().0
                        == k {
                    let i = choose|i: int|
                        0 <= i < s.len() && decode_gentry(s[i]).unwrap().0
                            == k;
                    if i < s.len() - 1 {
                        assert(decoded_map(d).contains_key(k));
                    }
                    assert(false);
                }
            }
        }
        assert forall|i: int|
            0 <= i < s.len() implies decoded_map(s)[(#[trigger]
        decode_gentry(s[i])).unwrap().0] == decode_gentry(
            s[i],
        ).unwrap().1 by {
            if i < s.len() - 1 {
                assert(decode_gentry(s[i]).unwrap().0 != p.0);
            }
        }
    }
}


/// Determinism of content addressing: `write_file` and `write_symlink` pin
/// their results to a function of the written content alone, so writing
/// the same content twice yields the same identifier.
pub proof fn lemma_content_addressing_deterministic(
    r1: Seq<u8>,
    r2: Seq<u8>,
    content: Seq<u8>,
)
    requires
        r1 == blob_oid_of(content),
        r2 == blob_oid_of(content),
    ensures
        r1 == r2,
{
}

/// Idempotent commit writes: once `write_commit` has attached a commit's
/// own overlay record, the overlay cannot hold a different record for that
/// commit, so a byte-identical re-write is never the collision case.
pub proof fn lemma_commit_rewrite_not_colliding(
    extras: Map<Seq<u8>, Seq<u8>>,
    key: Seq<u8>,
    record: Seq<u8>,
)
    requires
        extras.contains_key(key),
        extras[key] == record,
    ensures
        !(extras.contains_key(key) && extras[key] != record),
{
}

} // verus!
