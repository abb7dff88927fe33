//! The trusted boundary to the underlying Git-shaped object store (the
//! `git2` crate) and to the random-identifier source (the `uuid` crate).
//!
//! The repository is modelled as four mappings — blobs, trees, commits and
//! references — named by uninterpreted functions of the repository value;
//! each wrapper states over those names what the crate's source shows of
//! the calls its body makes. Object identifiers assigned by the store are
//! named as functions of the hashed content alone, which the store's
//! content addressing guarantees. Names, messages and identities are
//! modelled as the byte strings the store keeps.

use vstd::prelude::*;
use vstd::seq_lib::*;
use git2::Oid;
use crate::backend::BackendError;
use vstd::string::StringSliceAdditionalSpecFns;

verus! {

#[verifier::external_type_specification]
#[verifier::external_body]
pub struct ExGitRepository(git2::Repository);

#[verifier::external_type_specification]
#[verifier::external_body]
pub struct ExGitError(git2::Error);

// ---- mathematical shapes of native object data ----

/// Kind of a native tree entry's target object.
#[derive(Debug, Clone, Copy, PartialEq, Eq, Structural)]
pub enum GitObjectKind {
    Tree,
    Blob,
    Commit,
    Other,
}

/// One native tree entry: its name bytes, target object id, target kind,
/// and file mode.
pub ghost struct GEntryV {
    pub name: Seq<u8>,
    pub oid: Seq<u8>,
    pub kind: GitObjectKind,
    pub filemode: int,
}

/// A native signature: name and email bytes as the store keeps them,
/// seconds since the epoch, and a timezone offset in minutes.
pub ghost struct GSigV {
    pub name: Seq<u8>,
    pub email: Seq<u8>,
    pub seconds: int,
    pub offset: int,
}

/// A native commit: root tree id, parent ids in order, the two signatures,
/// and the raw message bytes.
pub ghost struct GCommitV {
    pub tree: Seq<u8>,
    pub parents: Seq<Seq<u8>>,
    pub author: GSigV,
    pub committer: GSigV,
    pub message: Seq<u8>,
}

/// One tree entry as handed to the store for writing.
pub ghost struct WEntryV {
    pub name: Seq<u8>,
    pub oid: Seq<u8>,
    pub filemode: int,
}

// ---- names for the store's contents and its content addresses ----

/// The blobs of the repository, id to content.
pub uninterp spec fn repo_blobs(r: git2::Repository) -> Map<Seq<u8>, Seq<u8>>;

/// The trees of the repository, id to entry list in stored order.
pub uninterp spec fn repo_trees(r: git2::Repository) -> Map<Seq<u8>, Seq<GEntryV>>;

/// The commits of the repository, id to commit data.
pub uninterp spec fn repo_commits(r: git2::Repository) -> Map<Seq<u8>, GCommitV>;

/// The references of the repository, full name to target id.
pub uninterp spec fn repo_refs(r: git2::Repository) -> Map<Seq<char>, Seq<u8>>;

/// The content address the store assigns to a blob of the given bytes; a
/// function of the content alone.
pub uninterp spec fn blob_oid_of(content: Seq<u8>) -> Seq<u8>;

/// The content address the store assigns to a tree built from the given
/// entries; a function of the entries alone.
pub uninterp spec fn tree_oid_of(entries: Seq<WEntryV>) -> Seq<u8>;

/// The content address the store assigns to a commit of the given data; a
/// function of the data alone.
pub uninterp spec fn commit_oid_of(c: GCommitV) -> Seq<u8>;

// ---- plain-value carriers crossing the boundary ----

/// One native tree entry read back from the store; the name is `None` when
/// its bytes are not valid UTF-8.
#[derive(Debug)]
pub struct RawEntry {
    pub name: Option<String>,
    pub oid: Vec<u8>,
    pub kind: GitObjectKind,
    pub filemode: i32,
}

/// How a read-back entry reflects a stored one.
pub open spec fn raw_entry_matches(e: RawEntry, g: GEntryV) -> bool {
    &&& match e.name {
        Some(s) => vstd::utf8::valid_utf8(g.name) && vstd::utf8::encode_utf8(s@) == g.name,
        None => !vstd::utf8::valid_utf8(g.name),
    }
    &&& e.oid@ == g.oid
    &&& e.kind == g.kind
    &&& e.filemode as int == g.filemode
}

/// One native signature read back from the store; a field is `None` when
/// its bytes are not valid UTF-8.
#[derive(Debug)]
pub struct RawSig {
    pub name: Option<String>,
    pub email: Option<String>,
    pub seconds: i64,
    pub offset: i32,
}

/// How a read-back signature reflects a stored one.
pub open spec fn raw_sig_matches(r: RawSig, g: GSigV) -> bool {
    &&& match r.name {
        Some(ref s) => vstd::utf8::valid_utf8(g.name)
            && vstd::utf8::encode_utf8(s@) == g.name,
        None => !vstd::utf8::valid_utf8(g.name),
    }
    &&& match r.email {
        Some(ref s) => vstd::utf8::valid_utf8(g.email)
            && vstd::utf8::encode_utf8(s@) == g.email,
        None => !vstd::utf8::valid_utf8(g.email),
    }
    &&& r.seconds as int == g.seconds
    &&& r.offset as int == g.offset
}

/// One tree entry to write: a name, a 20-byte target id, and a file mode.
#[derive(Debug)]
pub struct WEntry {
    pub name: String,
    pub oid: Vec<u8>,
    pub filemode: i32,
}

impl View for WEntry {
    type V = WEntryV;

    open spec fn view(&self) -> WEntryV {
        WEntryV {
            name: vstd::utf8::encode_utf8(self.name@),
            oid: self.oid@,
            filemode: self.filemode as int,
        }
    }
}

/// An identity to write with a commit.
#[derive(Debug)]
pub struct WSig {
    pub name: String,
    pub email: String,
    pub seconds: i64,
    pub offset: i32,
}

/// The store prints a signature's seconds into the commit object as an
/// unsigned 32-bit decimal, so the object keeps only their image in that
/// range.
pub open spec fn stored_seconds(s: i64) -> int {
    (s as u32) as int
}

/// The identity a built signature value holds in memory: name and email
/// with the store's end-trimming applied, the time exactly.
pub open spec fn stored_sig_of(w: WSig) -> GSigV {
    GSigV {
        name: sig_trim(vstd::utf8::encode_utf8(w.name@)),
        email: sig_trim(vstd::utf8::encode_utf8(w.email@)),
        seconds: w.seconds as int,
        offset: w.offset as int,
    }
}

/// The timezone offset the commit object round-trips: the store prints it
/// as signed hours and minutes and, parsing back, keeps it only when the
/// hour part is at most fourteen; any larger offset reads back as zero.
pub open spec fn stored_offset(o: int) -> int {
    if -900 < o && o < 900 {
        o
    } else {
        0
    }
}

/// What the commit object keeps of an identity: the seconds reduced to
/// their unsigned 32-bit image by the store's formatter, the offset kept
/// only within the representable timezone range, the rest as held.
pub open spec fn stored_identity(g: GSigV) -> GSigV {
    GSigV {
        name: g.name,
        email: g.email,
        seconds: stored_seconds(g.seconds as i64),
        offset: stored_offset(g.offset),
    }
}

/// The element-wise views of a write-entry list.
pub open spec fn wentries_view(s: Seq<WEntry>) -> Seq<WEntryV> {
    Seq::new(s.len(), |i: int| s[i]@)
}

/// The element-wise views of a list of raw ids.
pub open spec fn oids_view(s: Seq<Vec<u8>>) -> Seq<Seq<u8>> {
    Seq::new(s.len(), |i: int| s[i]@)
}

// ---- byte-level behaviours of the store, stated once ----

/// Bytes the store strips from the ends of signature names and emails.
pub open spec fn is_sig_crud(c: u8) -> bool {
    ||| c <= 32
    ||| c == 44  // ','
    ||| c == 58  // ':'
    ||| c == 59  // ';'
    ||| c == 60  // '<'
    ||| c == 62  // '>'
    ||| c == 34  // '"'
    ||| c == 92  // '\'
    ||| c == 39  // '''
}

/// The store's end-trimming of a signature name or email.
pub open spec fn sig_trim(s: Seq<u8>) -> Seq<u8>
    decreases s.len(),
{
    if s.len() == 0 {
        s
    } else if is_sig_crud(s[0]) {
        sig_trim(s.drop_first())
    } else if is_sig_crud(s.last()) {
        sig_trim(s.drop_last())
    } else {
        s
    }
}

/// The store strips leading newlines when handing a message out.
pub open spec fn drop_leading_newlines(b: Seq<u8>) -> Seq<u8>
    decreases b.len(),
{
    if b.len() > 0 && b[0] == 10 {
        drop_leading_newlines(b.drop_first())
    } else {
        b
    }
}

/// What the store keeps of a written entry: the name, the id, the mode, and
/// the object kind implied by the mode.
pub open spec fn gentry_of_wentry(w: WEntryV) -> GEntryV {
    GEntryV {
        name: w.name,
        oid: w.oid,
        kind: if w.filemode == 0x4000 {
            GitObjectKind::Tree
        } else if w.filemode == 0xe000 {
            GitObjectKind::Commit
        } else {
            GitObjectKind::Blob
        },
        filemode: w.filemode,
    }
}

/// What the store keeps for each written entry, in written order.
pub open spec fn written_gentries(written: Seq<WEntryV>) -> Seq<GEntryV> {
    Seq::new(written.len(), |i: int| gentry_of_wentry(written[i]))
}

/// The stored entry list holds exactly the written entries, reordered into
/// the store's canonical order.
pub open spec fn stored_matches_written(
    stored: Seq<GEntryV>,
    written: Seq<WEntryV>,
) -> bool {
    stored.to_multiset() == written_gentries(written).to_multiset()
}

// ---- wrappers ----

/// Relies on `git2::Error::code`: translates the store's not-found code to
/// `NotFound` and any other failure to `Other` with its message.
#[verifier::external_body]
pub(crate) fn giterr(e: git2::Error) -> (r: BackendError) {
    if e.code() == git2::ErrorCode::NotFound {
        BackendError::NotFound
    } else {
        BackendError::Other(e.message().to_string())
    }
}

/// Relies on `git2::Repository::blob`: stores `data` as a blob and returns
/// its content address, the hash of the content alone; nothing else in the
/// repository changes.
#[verifier::external_body]
pub(crate) fn repo_blob_write(repo: &mut git2::Repository, data: &[u8]) -> (r:
    Result<Vec<u8>, BackendError>)
    ensures
        r matches Ok(oid) ==> {
            &&& oid@ == blob_oid_of(data@)
            &&& oid@.len() == 20
            &&& repo_blobs(*final(repo)) == repo_blobs(*old(repo)).insert(
                oid@,
                data@,
            )
            &&& repo_trees(*final(repo)) == repo_trees(*old(repo))
            &&& repo_commits(*final(repo)) == repo_commits(*old(repo))
            &&& repo_refs(*final(repo)) == repo_refs(*old(repo))
        },
{
    match repo.blob(data) {
        Ok(oid) => Ok(oid.as_bytes().to_vec()),
        Err(e) => Err(giterr(e)),
    }
}

/// Relies on `git2::Repository::find_blob` and `git2::Blob::content`:
/// returns the content stored under a 20-byte id; the store's not-found
/// failure means no such blob.
#[verifier::external_body]
pub(crate) fn repo_blob_read(repo: &git2::Repository, oid: &[u8]) -> (r:
    Result<Vec<u8>, BackendError>)
    requires
        oid@.len() == 20,
    ensures
        r matches Ok(c) ==> repo_blobs(*repo).contains_key(oid@) && c@
            == repo_blobs(*repo)[oid@],
        r matches Err(e) && e is NotFound ==> !repo_blobs(
            *repo,
        ).contains_key(oid@),
{
    match repo.find_blob(git2::Oid::from_bytes(oid).unwrap()) {
        Ok(b) => Ok(b.content().to_vec()),
        Err(e) => Err(giterr(e)),
    }
}

/// Relies on `git2::Repository::treebuilder`, `TreeBuilder::insert` and
/// `TreeBuilder::write`: stores a tree holding exactly the given entries
/// (in the store's canonical order) and returns its content address, a
/// function of the entries alone; the zero-entry tree gets the well-known
/// empty-tree address and no other entry list does. Requires 20-byte ids
/// and distinct names, since the builder replaces same-named entries.
#[verifier::external_body]
pub(crate) fn repo_tree_write(repo: &mut git2::Repository, entries: &Vec<
    WEntry,
>) -> (r: Result<Vec<u8>, BackendError>)
    requires
        forall|i: int|
            0 <= i < entries@.len() ==> (#[trigger] entries@[i].oid@).len()
                == 20,
        forall|i: int, j: int|
            0 <= i < j < entries@.len() ==> (#[trigger] entries@[i]@.name)
                != (#[trigger] entries@[j]@.name),
    ensures
        r matches Ok(oid) ==> {
            &&& oid@ == tree_oid_of(wentries_view(entries@))
            &&& oid@.len() == 20
            &&& repo_trees(*final(repo)) == repo_trees(*old(repo)).insert(
                oid@,
                repo_trees(*final(repo))[oid@],
            )
            &&& stored_matches_written(
                repo_trees(*final(repo))[oid@],
                wentries_view(entries@),
            )
            &&& repo_blobs(*final(repo)) == repo_blobs(*old(repo))
            &&& repo_commits(*final(repo)) == repo_commits(*old(repo))
            &&& repo_refs(*final(repo)) == repo_refs(*old(repo))
            &&& (entries@.len() == 0 ==> oid@
                == crate::git_backend::empty_tree_bytes())
            &&& (entries@.len() > 0 ==> oid@
                != crate::git_backend::empty_tree_bytes())
        },
{
    let mut b = match repo.treebuilder(None) {
        Ok(b) => b,
        Err(e) => return Err(giterr(e)),
    };
    for e in entries.iter() {
        let oid = git2::Oid::from_bytes(&e.oid).unwrap();
        if let Err(er) = b.insert(e.name.as_str(), oid, e.filemode) {
            return Err(giterr(er));
        }
    }
    match b.write() {
        Ok(oid) => Ok(oid.as_bytes().to_vec()),
        Err(e) => Err(giterr(e)),
    }
}

/// Opaque carrier for a native tree handle. The handle type itself cannot
/// be declared to the verifier because its name collides with this crate's
/// own `Tree`, so it is held in a hidden field instead.
#[verifier::external_body]
pub struct GitTreeHandle<'a> {
    inner: git2::Tree<'a>,
}

/// The entries the carried tree handle holds, in stored order.
pub uninterp spec fn tree_handle_entries(t: GitTreeHandle) -> Seq<GEntryV>;

/// Opaque carrier for a native commit handle, held in a hidden field for
/// the same reason as `GitTreeHandle`.
#[verifier::external_body]
pub struct GitCommitHandle<'a> {
    inner: git2::Commit<'a>,
}

/// The data the carried commit handle holds.
pub uninterp spec fn commit_handle_data(c: GitCommitHandle) -> GCommitV;

/// Opaque carrier for a native signature value, held in a hidden field for
/// the same reason as `GitTreeHandle`.
#[verifier::external_body]
pub struct GitIdentity {
    inner: git2::Signature<'static>,
}

/// The identity the carried signature holds.
pub uninterp spec fn identity_data(s: GitIdentity) -> GSigV;

/// Relies on `git2::Repository::find_tree`: a handle on the tree stored
/// under a 20-byte id; the store's not-found failure means no such tree.
#[verifier::external_body]
pub(crate) fn repo_tree_find<'a>(repo: &'a git2::Repository, oid: &[u8]) -> (r:
    Result<GitTreeHandle<'a>, BackendError>)
    requires
        oid@.len() == 20,
    ensures
        r matches Ok(t) ==> repo_trees(*repo).contains_key(oid@)
            && tree_handle_entries(t) == repo_trees(*repo)[oid@],
        r matches Err(e) && e is NotFound ==> !repo_trees(
            *repo,
        ).contains_key(oid@),
{
    match repo.find_tree(git2::Oid::from_bytes(oid).unwrap()) {
        Ok(t) => Ok(GitTreeHandle { inner: t }),
        Err(e) => Err(giterr(e)),
    }
}

/// Relies on `git2::Tree::len`.
#[verifier::external_body]
pub(crate) fn tree_len(t: &GitTreeHandle) -> (n: usize)
    ensures
        n == tree_handle_entries(*t).len(),
{
    t.inner.len()
}

/// Relies on `git2::Tree::get` and the tree-entry readers `name`, `id`,
/// `kind` and `filemode`: one stored entry as plain values; the name is
/// `None` when its bytes are not valid UTF-8.
#[verifier::external_body]
pub(crate) fn tree_entry(t: &GitTreeHandle, i: usize) -> (e: RawEntry)
    requires
        i < tree_handle_entries(*t).len(),
    ensures
        raw_entry_matches(e, tree_handle_entries(*t)[i as int]),
        e.oid@.len() == 20,
{
    let entry = t.inner.get(i).unwrap();
    let kind = match entry.kind() {
        Some(git2::ObjectType::Tree) => GitObjectKind::Tree,
        Some(git2::ObjectType::Blob) => GitObjectKind::Blob,
        Some(git2::ObjectType::Commit) => GitObjectKind::Commit,
        _ => GitObjectKind::Other,
    };
    let name = match entry.name() { Ok(s) => Some(s.to_string()), Err(_) => None };
    RawEntry { name, oid: entry.id().as_bytes().to_vec(), kind, filemode: entry.filemode() }
}

/// Relies on `git2::Signature::new` and `git2::Time::new`: builds a native
/// signature; the store trims the ends of the name and email and errors on
/// angle brackets, interior NUL bytes, and identities that trim to
/// nothing; the time is kept exactly.
#[verifier::external_body]
pub(crate) fn make_signature(w: &WSig) -> (r: Result<GitIdentity, BackendError>)
    ensures
        r matches Ok(s) ==> identity_data(s) == stored_sig_of(*w),
{
    match git2::Signature::new(&w.name, &w.email, &git2::Time::new(w.seconds, w.offset)) {
        Ok(s) => Ok(GitIdentity { inner: s }),
        Err(e) => Err(giterr(e)),
    }
}

/// Relies on `git2::Repository::commit` (and `find_tree`/`find_commit` to
/// turn the given 20-byte ids into the handles it takes): stores a commit
/// built from the given data, points `refname` at it (creating or moving
/// that reference), and returns the commit's content address, a function
/// of the data alone.
#[verifier::external_body]
pub(crate) fn repo_commit_write(
    repo: &mut git2::Repository,
    refname: &str,
    author: &GitIdentity,
    committer: &GitIdentity,
    message: &str,
    tree_oid: &[u8],
    parent_oids: &Vec<Vec<u8>>,
) -> (r: Result<Vec<u8>, BackendError>)
    requires
        tree_oid@.len() == 20,
        forall|i: int|
            0 <= i < parent_oids@.len() ==> (#[trigger] parent_oids@[i]@).len()
                == 20,
        identity_data(*author).offset != i32::MIN as int,
        identity_data(*committer).offset != i32::MIN as int,
    ensures
        r matches Ok(oid) ==> {
            let data = GCommitV {
                tree: tree_oid@,
                parents: oids_view(parent_oids@),
                author: stored_identity(identity_data(*author)),
                committer: stored_identity(identity_data(*committer)),
                message: message.spec_bytes(),
            };
            &&& oid@ == commit_oid_of(data)
            &&& oid@.len() == 20
            &&& repo_commits(*final(repo)) == repo_commits(*old(repo)).insert(
                oid@,
                data,
            )
            &&& repo_refs(*final(repo)) == repo_refs(*old(repo)).insert(
                refname@,
                oid@,
            )
            &&& repo_blobs(*final(repo)) == repo_blobs(*old(repo))
            &&& repo_trees(*final(repo)) == repo_trees(*old(repo))
            &&& repo_trees(*old(repo)).contains_key(tree_oid@)
            &&& forall|i: int|
                0 <= i < parent_oids@.len() ==> repo_commits(
                    *old(repo),
                ).contains_key(#[trigger] parent_oids@[i]@)
        },
        r is Err ==> {
            let data = GCommitV {
                tree: tree_oid@,
                parents: oids_view(parent_oids@),
                author: stored_identity(identity_data(*author)),
                committer: stored_identity(identity_data(*committer)),
                message: message.spec_bytes(),
            };
            &&& repo_blobs(*final(repo)) == repo_blobs(*old(repo))
            &&& repo_trees(*final(repo)) == repo_trees(*old(repo))
            &&& repo_refs(*final(repo)) == repo_refs(*old(repo))
            &&& (repo_commits(*final(repo)) == repo_commits(*old(repo))
                || (repo_commits(*final(repo)) == repo_commits(
                *old(repo),
            ).insert(commit_oid_of(data), data) && repo_trees(
                *old(repo),
            ).contains_key(tree_oid@) && forall|i: int|
                0 <= i < parent_oids@.len() ==> repo_commits(
                    *old(repo),
                ).contains_key(#[trigger] parent_oids@[i]@)))
        },
{
    let t = repo.find_tree(Oid::from_bytes(tree_oid).unwrap());
    let tree = match t { Ok(t) => t, Err(e) => return Err(giterr(e)) };
    let mut parents = Vec::new();
    for p in parent_oids.iter() {
        let c = repo.find_commit(Oid::from_bytes(p).unwrap());
        match c { Ok(c) => parents.push(c), Err(e) => return Err(giterr(e)) }
    }
    let refs: Vec<_> = parents.iter().collect();
    let r = repo.commit(Some(refname), &author.inner, &committer.inner, message, &tree, &refs);
    match r { Ok(oid) => Ok(oid.as_bytes().to_vec()), Err(e) => Err(giterr(e)) }
}

/// Relies on `git2::Repository::find_commit`: a handle on the commit
/// stored under a 20-byte id; the store's not-found failure means no such
/// commit.
#[verifier::external_body]
pub(crate) fn repo_commit_find<'a>(repo: &'a git2::Repository, oid: &[u8]) -> (
    r: Result<GitCommitHandle<'a>, BackendError>)
    requires
        oid@.len() == 20,
    ensures
        r matches Ok(c) ==> repo_commits(*repo).contains_key(oid@)
            && commit_handle_data(c) == repo_commits(*repo)[oid@],
        r matches Err(e) && e is NotFound ==> !repo_commits(
            *repo,
        ).contains_key(oid@),
{
    match repo.find_commit(git2::Oid::from_bytes(oid).unwrap()) {
        Ok(c) => Ok(GitCommitHandle { inner: c }),
        Err(e) => Err(giterr(e)),
    }
}

/// Relies on `git2::Commit::tree_id`.
#[verifier::external_body]
pub(crate) fn commit_tree_oid(c: &GitCommitHandle) -> (r: Vec<u8>)
    ensures
        r@ == commit_handle_data(*c).tree,
        r@.len() == 20,
{
    c.inner.tree_id().as_bytes().to_vec()
}

/// Relies on `git2::Commit::parent_count`.
#[verifier::external_body]
pub(crate) fn commit_parent_count(c: &GitCommitHandle) -> (n: usize)
    ensures
        n == commit_handle_data(*c).parents.len(),
{
    c.inner.parent_count()
}

/// Relies on `git2::Commit::parent_id`.
#[verifier::external_body]
pub(crate) fn commit_parent_oid(c: &GitCommitHandle, i: usize) -> (r: Vec<u8>)
    requires
        i < commit_handle_data(*c).parents.len(),
    ensures
        r@ == commit_handle_data(*c).parents[i as int],
        r@.len() == 20,
{
    c.inner.parent_id(i).unwrap().as_bytes().to_vec()
}

/// Relies on `git2::Commit::message`: the message, with leading newlines
/// stripped by the store, or `None` when it is not valid UTF-8.
#[verifier::external_body]
pub(crate) fn commit_message(c: &GitCommitHandle) -> (r: Option<String>)
    ensures
        r matches Some(m) ==> vstd::utf8::valid_utf8(
            drop_leading_newlines(commit_handle_data(*c).message),
        ) && vstd::utf8::encode_utf8(m@) == drop_leading_newlines(
            commit_handle_data(*c).message,
        ),
        r is None ==> !vstd::utf8::valid_utf8(
            drop_leading_newlines(commit_handle_data(*c).message),
        ),
{
    match c.inner.message() {
        Ok(m) => Some(m.to_string()),
        Err(_) => None,
    }
}

/// Relies on `git2::Commit::author` and the signature readers `name`,
/// `email` and `when`: the author identity as plain values.
#[verifier::external_body]
pub(crate) fn commit_author(c: &GitCommitHandle) -> (r: RawSig)
    ensures
        raw_sig_matches(r, commit_handle_data(*c).author),
{
    let s = c.inner.author();
    RawSig {
        name: s.name().ok().map(str::to_string),
        email: s.email().ok().map(str::to_string),
        seconds: s.when().seconds(),
        offset: s.when().offset_minutes(),
    }
}

/// Relies on `git2::Commit::committer` and the signature readers `name`,
/// `email` and `when`: the committer identity as plain values.
#[verifier::external_body]
pub(crate) fn commit_committer(c: &GitCommitHandle) -> (r: RawSig)
    ensures
        raw_sig_matches(r, commit_handle_data(*c).committer),
{
    let s = c.inner.committer();
    RawSig {
        name: s.name().ok().map(str::to_string),
        email: s.email().ok().map(str::to_string),
        seconds: s.when().seconds(),
        offset: s.when().offset_minutes(),
    }
}

/// Relies on `uuid::Uuid::new_v4` and its hyphenated formatting: a random
/// identifier of 36 characters; nothing is promised of its value.
#[verifier::external_body]
pub(crate) fn new_uuid_hyphenated() -> (r: String)
    ensures
        r@.len() == 36,
{
    uuid::Uuid::new_v4().hyphenated().to_string()
}

/// Relies on `String::from_utf8`: succeeds exactly on valid UTF-8 and
/// yields its decoding.
#[verifier::external_body]
pub(crate) fn bytes_to_string(v: Vec<u8>) -> (r: Option<String>)
    ensures
        r matches Some(s) ==> vstd::utf8::valid_utf8(v@) && s@
            == vstd::utf8::decode_utf8(v@),
        r is None ==> !vstd::utf8::valid_utf8(v@),
{
    String::from_utf8(v).ok()
}

/// Relies on `git2::Repository::path` and `git2::Repository::open`: a
/// second handle on the same on-disk repository, for callers above this
/// layer.
#[verifier::external_body]
pub(crate) fn repo_reopen(repo: &git2::Repository) -> (r: Option<
    git2::Repository,
>) {
    git2::Repository::open(repo.path()).ok()
}

} // verus!
