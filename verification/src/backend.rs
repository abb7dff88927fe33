//! The domain object model: fixed-length identifiers, trees, commits,
//! conflicts, signatures, and the error taxonomy of the storage layer.

use vstd::prelude::*;
use crate::hexfmt::{hex_of, is_hex_seq, bytes_of_hex, hex_encode, hex_decode};

verus! {

/// Number of bytes in every identifier of the underlying store.
pub const HASH_LENGTH: usize = 20;

/// Compare two byte strings for equality.
pub fn bytes_eq(a: &[u8], b: &[u8]) -> (r: bool)
    ensures
        r == (a@ == b@),
{
    if a.len() != b.len() {
        proof {
            assert(a@.len() != b@.len());
        }
        return false;
    }
    let mut i: usize = 0;
    while i < a.len()
        invariant
            i <= a@.len(),
            a@.len() == b@.len(),
            forall|j: int| 0 <= j < i ==> a@[j] == b@[j],
        decreases a@.len() - i,
    {
        if a[i] != b[i] {
            return false;
        }
        i = i + 1;
    }
    proof {
        assert(a@ =~= b@);
    }
    true
}

/// Errors surfaced by the storage layer: an object that is absent (or whose
/// identifier has the wrong length), and every other failure with a message.
#[derive(Debug)]
pub enum BackendError {
    NotFound,
    Other(String),
}

pub type BackendResult<T> = Result<T, BackendError>;

/// Identifier of a commit object in the underlying store.
#[derive(Debug, Clone)]
pub struct CommitId {
    pub bytes: Vec<u8>,
}

impl View for CommitId {
    type V = Seq<u8>;

    open spec fn view(&self) -> Seq<u8> {
        self.bytes@
    }
}

impl PartialEq for CommitId {
    fn eq(&self, other: &CommitId) -> bool {
        bytes_eq(self.bytes.as_slice(), other.bytes.as_slice())
    }
}

impl vstd::std_specs::cmp::PartialEqSpecImpl for CommitId {
    open spec fn obeys_eq_spec() -> bool {
        true
    }

    open spec fn eq_spec(&self, other: &CommitId) -> bool {
        self@ == other@
    }
}

impl CommitId {
    pub fn new(bytes: Vec<u8>) -> (r: Self)
        ensures
            r@ == bytes@,
    {
        CommitId { bytes }
    }

    pub fn from_bytes(bytes: &[u8]) -> (r: Self)
        ensures
            r@ == bytes@,
    {
        CommitId { bytes: vstd::slice::slice_to_vec(bytes) }
    }

    pub fn as_bytes(&self) -> (r: &[u8])
        ensures
            r@ == self@,
    {
        self.bytes.as_slice()
    }

    pub fn to_bytes(&self) -> (r: Vec<u8>)
        ensures
            r@ == self@,
    {
        vstd::slice::slice_to_vec(self.bytes.as_slice())
    }

    /// Display form: lowercase hex.
    pub fn hex(&self) -> (r: String)
        ensures
            r@ == hex_of(self@),
    {
        hex_encode(self.bytes.as_slice())
    }

    /// Build an identifier from its hex form.
    pub fn from_hex(s: &str) -> (r: Self)
        requires
            is_hex_seq(s@),
            s@.len() % 2 == 0,
        ensures
            r@ == bytes_of_hex(s@),
    {
        CommitId { bytes: hex_decode(s).unwrap() }
    }
}

/// Secondary identity of a commit, stable across amendments.
#[derive(Debug, Clone)]
pub struct ChangeId {
    pub bytes: Vec<u8>,
}

impl View for ChangeId {
    type V = Seq<u8>;

    open spec fn view(&self) -> Seq<u8> {
        self.bytes@
    }
}

impl PartialEq for ChangeId {
    fn eq(&self, other: &ChangeId) -> bool {
        bytes_eq(self.bytes.as_slice(), other.bytes.as_slice())
    }
}

impl vstd::std_specs::cmp::PartialEqSpecImpl for ChangeId {
    open spec fn obeys_eq_spec() -> bool {
        true
    }

    open spec fn eq_spec(&self, other: &ChangeId) -> bool {
        self@ == other@
    }
}

impl ChangeId {
    pub fn new(bytes: Vec<u8>) -> (r: Self)
        ensures
            r@ == bytes@,
    {
        ChangeId { bytes }
    }

    pub fn from_bytes(bytes: &[u8]) -> (r: Self)
        ensures
            r@ == bytes@,
    {
        ChangeId { bytes: vstd::slice::slice_to_vec(bytes) }
    }

    pub fn as_bytes(&self) -> (r: &[u8])
        ensures
            r@ == self@,
    {
        self.bytes.as_slice()
    }

    pub fn to_bytes(&self) -> (r: Vec<u8>)
        ensures
            r@ == self@,
    {
        vstd::slice::slice_to_vec(self.bytes.as_slice())
    }

    /// Display form: lowercase hex.
    pub fn hex(&self) -> (r: String)
        ensures
            r@ == hex_of(self@),
    {
        hex_encode(self.bytes.as_slice())
    }

    /// Build an identifier from its hex form.
    pub fn from_hex(s: &str) -> (r: Self)
        requires
            is_hex_seq(s@),
            s@.len() % 2 == 0,
        ensures
            r@ == bytes_of_hex(s@),
    {
        ChangeId { bytes: hex_decode(s).unwrap() }
    }
}

/// Identifier of a tree object in the underlying store.
#[derive(Debug, Clone)]
pub struct TreeId {
    pub bytes: Vec<u8>,
}

impl View for TreeId {
    type V = Seq<u8>;

    open spec fn view(&self) -> Seq<u8> {
        self.bytes@
    }
}

impl PartialEq for TreeId {
    fn eq(&self, other: &TreeId) -> bool {
        bytes_eq(self.bytes.as_slice(), other.bytes.as_slice())
    }
}

impl vstd::std_specs::cmp::PartialEqSpecImpl for TreeId {
    open spec fn obeys_eq_spec() -> bool {
        true
    }

    open spec fn eq_spec(&self, other: &TreeId) -> bool {
        self@ == other@
    }
}

impl TreeId {
    pub fn new(bytes: Vec<u8>) -> (r: Self)
        ensures
            r@ == bytes@,
    {
        TreeId { bytes }
    }

    pub fn from_bytes(bytes: &[u8]) -> (r: Self)
        ensures
            r@ == bytes@,
    {
        TreeId { bytes: vstd::slice::slice_to_vec(bytes) }
    }

    pub fn as_bytes(&self) -> (r: &[u8])
        ensures
            r@ == self@,
    {
        self.bytes.as_slice()
    }

    pub fn to_bytes(&self) -> (r: Vec<u8>)
        ensures
            r@ == self@,
    {
        vstd::slice::slice_to_vec(self.bytes.as_slice())
    }

    /// Display form: lowercase hex.
    pub fn hex(&self) -> (r: String)
        ensures
            r@ == hex_of(self@),
    {
        hex_encode(self.bytes.as_slice())
    }

    /// Build an identifier from its hex form.
    pub fn from_hex(s: &str) -> (r: Self)
        requires
            is_hex_seq(s@),
            s@.len() % 2 == 0,
        ensures
            r@ == bytes_of_hex(s@),
    {
        TreeId { bytes: hex_decode(s).unwrap() }
    }
}

/// Identifier of a regular-file content blob.
#[derive(Debug, Clone)]
pub struct FileId {
    pub bytes: Vec<u8>,
}

impl View for FileId {
    type V = Seq<u8>;

    open spec fn view(&self) -> Seq<u8> {
        self.bytes@
    }
}

impl PartialEq for FileId {
    fn eq(&self, other: &FileId) -> bool {
        bytes_eq(self.bytes.as_slice(), other.bytes.as_slice())
    }
}

impl vstd::std_specs::cmp::PartialEqSpecImpl for FileId {
    open spec fn obeys_eq_spec() -> bool {
        true
    }

    open spec fn eq_spec(&self, other: &FileId) -> bool {
        self@ == other@
    }
}

impl FileId {
    pub fn new(bytes: Vec<u8>) -> (r: Self)
        ensures
            r@ == bytes@,
    {
        FileId { bytes }
    }

    pub fn from_bytes(bytes: &[u8]) -> (r: Self)
        ensures
            r@ == bytes@,
    {
        FileId { bytes: vstd::slice::slice_to_vec(bytes) }
    }

    pub fn as_bytes(&self) -> (r: &[u8])
        ensures
            r@ == self@,
    {
        self.bytes.as_slice()
    }

    pub fn to_bytes(&self) -> (r: Vec<u8>)
        ensures
            r@ == self@,
    {
        vstd::slice::slice_to_vec(self.bytes.as_slice())
    }

    /// Display form: lowercase hex.
    pub fn hex(&self) -> (r: String)
        ensures
            r@ == hex_of(self@),
    {
        hex_encode(self.bytes.as_slice())
    }

    /// Build an identifier from its hex form.
    pub fn from_hex(s: &str) -> (r: Self)
        requires
            is_hex_seq(s@),
            s@.len() % 2 == 0,
        ensures
            r@ == bytes_of_hex(s@),
    {
        FileId { bytes: hex_decode(s).unwrap() }
    }
}

/// Identifier of a symlink-target blob.
#[derive(Debug, Clone)]
pub struct SymlinkId {
    pub bytes: Vec<u8>,
}

impl View for SymlinkId {
    type V = Seq<u8>;

    open spec fn view(&self) -> Seq<u8> {
        self.bytes@
    }
}

impl PartialEq for SymlinkId {
    fn eq(&self, other: &SymlinkId) -> bool {
        bytes_eq(self.bytes.as_slice(), other.bytes.as_slice())
    }
}

impl vstd::std_specs::cmp::PartialEqSpecImpl for SymlinkId {
    open spec fn obeys_eq_spec() -> bool {
        true
    }

    open spec fn eq_spec(&self, other: &SymlinkId) -> bool {
        self@ == other@
    }
}

impl SymlinkId {
    pub fn new(bytes: Vec<u8>) -> (r: Self)
        ensures
            r@ == bytes@,
    {
        SymlinkId { bytes }
    }

    pub fn from_bytes(bytes: &[u8]) -> (r: Self)
        ensures
            r@ == bytes@,
    {
        SymlinkId { bytes: vstd::slice::slice_to_vec(bytes) }
    }

    pub fn as_bytes(&self) -> (r: &[u8])
        ensures
            r@ == self@,
    {
        self.bytes.as_slice()
    }

    pub fn to_bytes(&self) -> (r: Vec<u8>)
        ensures
            r@ == self@,
    {
        vstd::slice::slice_to_vec(self.bytes.as_slice())
    }

    /// Display form: lowercase hex.
    pub fn hex(&self) -> (r: String)
        ensures
            r@ == hex_of(self@),
    {
        hex_encode(self.bytes.as_slice())
    }

    /// Build an identifier from its hex form.
    pub fn from_hex(s: &str) -> (r: Self)
        requires
            is_hex_seq(s@),
            s@.len() % 2 == 0,
        ensures
            r@ == bytes_of_hex(s@),
    {
        SymlinkId { bytes: hex_decode(s).unwrap() }
    }
}

/// Identifier of a serialized conflict document blob.
#[derive(Debug, Clone)]
pub struct ConflictId {
    pub bytes: Vec<u8>,
}

impl View for ConflictId {
    type V = Seq<u8>;

    open spec fn view(&self) -> Seq<u8> {
        self.bytes@
    }
}

impl PartialEq for ConflictId {
    fn eq(&self, other: &ConflictId) -> bool {
        bytes_eq(self.bytes.as_slice(), other.bytes.as_slice())
    }
}

impl vstd::std_specs::cmp::PartialEqSpecImpl for ConflictId {
    open spec fn obeys_eq_spec() -> bool {
        true
    }

    open spec fn eq_spec(&self, other: &ConflictId) -> bool {
        self@ == other@
    }
}

impl ConflictId {
    pub fn new(bytes: Vec<u8>) -> (r: Self)
        ensures
            r@ == bytes@,
    {
        ConflictId { bytes }
    }

    pub fn from_bytes(bytes: &[u8]) -> (r: Self)
        ensures
            r@ == bytes@,
    {
        ConflictId { bytes: vstd::slice::slice_to_vec(bytes) }
    }

    pub fn as_bytes(&self) -> (r: &[u8])
        ensures
            r@ == self@,
    {
        self.bytes.as_slice()
    }

    pub fn to_bytes(&self) -> (r: Vec<u8>)
        ensures
            r@ == self@,
    {
        vstd::slice::slice_to_vec(self.bytes.as_slice())
    }

    /// Display form: lowercase hex.
    pub fn hex(&self) -> (r: String)
        ensures
            r@ == hex_of(self@),
    {
        hex_encode(self.bytes.as_slice())
    }

    /// Build an identifier from its hex form.
    pub fn from_hex(s: &str) -> (r: Self)
        requires
            is_hex_seq(s@),
            s@.len() % 2 == 0,
        ensures
            r@ == bytes_of_hex(s@),
    {
        ConflictId { bytes: hex_decode(s).unwrap() }
    }
}


/// Milliseconds since the epoch, as stored in a commit signature.
#[derive(Debug, Clone, Copy, PartialEq, Eq, Structural)]
pub struct MillisSinceEpoch(pub u64);

/// A point in time with a timezone offset in minutes.
#[derive(Debug, Clone, Copy, PartialEq, Eq, Structural)]
pub struct Timestamp {
    pub timestamp: MillisSinceEpoch,
    pub tz_offset: i32,
}

/// Mathematical shape of a `Signature`.
pub ghost struct SignatureV {
    pub name: Seq<char>,
    pub email: Seq<char>,
    pub timestamp: Timestamp,
}

/// An author or committer identity with a timestamp.
#[derive(Debug, Clone)]
pub struct Signature {
    pub name: String,
    pub email: String,
    pub timestamp: Timestamp,
}

impl View for Signature {
    type V = SignatureV;

    open spec fn view(&self) -> SignatureV {
        SignatureV { name: self.name@, email: self.email@, timestamp: self.timestamp }
    }
}

impl PartialEq for Signature {
    fn eq(&self, other: &Signature) -> bool {
        self.name == other.name && self.email == other.email
            && self.timestamp == other.timestamp
    }
}

impl vstd::std_specs::cmp::PartialEqSpecImpl for Signature {
    open spec fn obeys_eq_spec() -> bool {
        true
    }

    open spec fn eq_spec(&self, other: &Signature) -> bool {
        self@ == other@
    }
}

/// Mathematical shape of a `TreeValue`.
pub ghost enum TreeValueV {
    Normal { id: Seq<u8>, executable: bool },
    Symlink(Seq<u8>),
    Tree(Seq<u8>),
    GitSubmodule(Seq<u8>),
    Conflict(Seq<u8>),
}

/// The value stored under one name of a tree: a regular or executable file,
/// a symlink, a sub-tree, an opaque foreign-commit pointer, or a first-class
/// conflict.
#[derive(Debug, Clone)]
pub enum TreeValue {
    Normal { id: FileId, executable: bool },
    Symlink(SymlinkId),
    Tree(TreeId),
    GitSubmodule(CommitId),
    Conflict(ConflictId),
}

impl View for TreeValue {
    type V = TreeValueV;

    open spec fn view(&self) -> TreeValueV {
        match self {
            TreeValue::Normal { id, executable } => TreeValueV::Normal {
                id: id@,
                executable: *executable,
            },
            TreeValue::Symlink(id) => TreeValueV::Symlink(id@),
            TreeValue::Tree(id) => TreeValueV::Tree(id@),
            TreeValue::GitSubmodule(id) => TreeValueV::GitSubmodule(id@),
            TreeValue::Conflict(id) => TreeValueV::Conflict(id@),
        }
    }
}

impl PartialEq for TreeValue {
    fn eq(&self, other: &TreeValue) -> bool {
        match (self, other) {
            (
                TreeValue::Normal { id: a, executable: ea },
                TreeValue::Normal { id: b, executable: eb },
            ) => a == b && ea == eb,
            (TreeValue::Symlink(a), TreeValue::Symlink(b)) => a == b,
            (TreeValue::Tree(a), TreeValue::Tree(b)) => a == b,
            (TreeValue::GitSubmodule(a), TreeValue::GitSubmodule(b)) => a == b,
            (TreeValue::Conflict(a), TreeValue::Conflict(b)) => a == b,
            _ => false,
        }
    }
}

impl vstd::std_specs::cmp::PartialEqSpecImpl for TreeValue {
    open spec fn obeys_eq_spec() -> bool {
        true
    }

    open spec fn eq_spec(&self, other: &TreeValue) -> bool {
        self@ == other@
    }
}

/// One side of an unresolved merge at a single path.
#[derive(Debug, Clone)]
pub struct ConflictPart {
    pub value: TreeValue,
}

impl View for ConflictPart {
    type V = TreeValueV;

    open spec fn view(&self) -> TreeValueV {
        self.value@
    }
}

impl PartialEq for ConflictPart {
    fn eq(&self, other: &ConflictPart) -> bool {
        self.value == other.value
    }
}

impl vstd::std_specs::cmp::PartialEqSpecImpl for ConflictPart {
    open spec fn obeys_eq_spec() -> bool {
        true
    }

    open spec fn eq_spec(&self, other: &ConflictPart) -> bool {
        self@ == other@
    }
}

/// Mathematical shape of a `Conflict`.
pub ghost struct ConflictV {
    pub removes: Seq<TreeValueV>,
    pub adds: Seq<TreeValueV>,
}

/// An unresolved merge at a single path: the removed and added sides of the
/// symmetric difference, each an arbitrary tree value.
#[derive(Debug, Clone)]
pub struct Conflict {
    pub removes: Vec<ConflictPart>,
    pub adds: Vec<ConflictPart>,
}

impl View for Conflict {
    type V = ConflictV;

    open spec fn view(&self) -> ConflictV {
        ConflictV {
            removes: parts_view(self.removes@),
            adds: parts_view(self.adds@),
        }
    }
}

/// The element-wise mathematical view of a list of conflict parts.
pub open spec fn parts_view(v: Seq<ConflictPart>) -> Seq<TreeValueV> {
    Seq::new(v.len(), |i: int| v[i]@)
}

fn conflict_parts_eq(a: &Vec<ConflictPart>, b: &Vec<ConflictPart>) -> (r: bool)
    ensures
        r == (parts_view(a@) == parts_view(b@)),
{
    if a.len() != b.len() {
        proof {
            assert(parts_view(a@).len() != parts_view(b@).len());
        }
        return false;
    }
    let mut i: usize = 0;
    while i < a.len()
        invariant
            i <= a@.len(),
            a@.len() == b@.len(),
            forall|j: int| 0 <= j < i ==> a@[j]@ == b@[j]@,
        decreases a@.len() - i,
    {
        if !(a[i] == b[i]) {
            proof {
                assert(parts_view(a@)[i as int] != parts_view(b@)[i as int]);
            }
            return false;
        }
        i = i + 1;
    }
    proof {
        assert(parts_view(a@) =~= parts_view(b@));
    }
    true
}

impl PartialEq for Conflict {
    fn eq(&self, other: &Conflict) -> bool {
        conflict_parts_eq(&self.removes, &other.removes) && conflict_parts_eq(
            &self.adds,
            &other.adds,
        )
    }
}

impl vstd::std_specs::cmp::PartialEqSpecImpl for Conflict {
    open spec fn obeys_eq_spec() -> bool {
        true
    }

    open spec fn eq_spec(&self, other: &Conflict) -> bool {
        self@ == other@
    }
}

impl Conflict {
    pub fn new_empty() -> (r: Conflict)
        ensures
            r@.removes.len() == 0,
            r@.adds.len() == 0,
    {
        Conflict { removes: Vec::new(), adds: Vec::new() }
    }
}

/// Mathematical shape of a `Commit`.
pub ghost struct CommitV {
    pub parents: Seq<Seq<u8>>,
    pub predecessors: Seq<Seq<u8>>,
    pub root_tree: Seq<u8>,
    pub change_id: Seq<u8>,
    pub description: Seq<char>,
    pub author: SignatureV,
    pub committer: SignatureV,
    pub is_open: bool,
}

/// A commit of the domain model. `predecessors`, `change_id` and `is_open`
/// cannot be expressed in the underlying store's native commit format and
/// live in the metadata overlay.
#[derive(Debug, Clone)]
pub struct Commit {
    pub parents: Vec<CommitId>,
    pub predecessors: Vec<CommitId>,
    pub root_tree: TreeId,
    pub change_id: ChangeId,
    pub description: String,
    pub author: Signature,
    pub committer: Signature,
    pub is_open: bool,
}

impl View for Commit {
    type V = CommitV;

    open spec fn view(&self) -> CommitV {
        CommitV {
            parents: Seq::new(self.parents@.len(), |i: int| self.parents@[i]@),
            predecessors: Seq::new(
                self.predecessors@.len(),
                |i: int| self.predecessors@[i]@,
            ),
            root_tree: self.root_tree@,
            change_id: self.change_id@,
            description: self.description@,
            author: self.author@,
            committer: self.committer@,
            is_open: self.is_open,
        }
    }
}

/// A path within the repository, accepted for interface uniformity; it never
/// affects content addressing.
#[derive(Debug, Clone)]
pub struct RepoPath {
    pub value: String,
}

impl RepoPath {
    pub fn root() -> (r: RepoPath)
        ensures
            r.value@.len() == 0,
    {
        RepoPath { value: String::new() }
    }

    pub fn from_internal_string(value: &str) -> (r: RepoPath)
        ensures
            r.value@ == value@,
    {
        RepoPath { value: value.to_owned() }
    }
}


/// Strict lexicographic order on character sequences by code point, the
/// natural key order of tree entry names.
pub open spec fn chars_lt(a: Seq<char>, b: Seq<char>) -> bool
    decreases a.len(),
{
    if b.len() == 0 {
        false
    } else if a.len() == 0 {
        true
    } else if a[0] != b[0] {
        (a[0] as int) < (b[0] as int)
    } else {
        chars_lt(a.drop_first(), b.drop_first())
    }
}

/// `chars_lt` is a strict total order: any two sequences are ordered or equal,
/// and the order is asymmetric.
pub proof fn lemma_chars_lt_total(a: Seq<char>, b: Seq<char>)
    ensures
        chars_lt(a, b) || a == b || chars_lt(b, a),
        chars_lt(a, b) ==> a != b && !chars_lt(b, a),
    decreases a.len(),
{
    if a.len() == 0 && b.len() == 0 {
        assert(a =~= b);
    } else if a.len() > 0 && b.len() > 0 {
        if a[0] == b[0] {
            lemma_chars_lt_total(a.drop_first(), b.drop_first());
            if a.drop_first() == b.drop_first() {
                assert forall|i: int| 0 <= i < a.len() implies a[i] == b[i] by {
                    if i > 0 {
                        assert(a[i] == a.drop_first()[i - 1]);
                        assert(b[i] == b.drop_first()[i - 1]);
                    }
                }
                assert(a =~= b);
            }
            if a == b {
                assert(a.drop_first() =~= b.drop_first());
            }
        } else {
            assert(a != b);
        }
    }
}

/// `chars_lt` is transitive.
pub proof fn lemma_chars_lt_trans(a: Seq<char>, b: Seq<char>, c: Seq<char>)
    requires
        chars_lt(a, b),
        chars_lt(b, c),
    ensures
        chars_lt(a, c),
    decreases a.len(),
{
    if a.len() == 0 {
    } else {
        if a[0] == b[0] && b[0] == c[0] {
            lemma_chars_lt_trans(a.drop_first(), b.drop_first(), c.drop_first());
        }
    }
}

/// If the first `i` characters agree and the next differs, the order of the
/// sequences is the order of that character.
proof fn lemma_chars_lt_from_mismatch(a: Seq<char>, b: Seq<char>, i: int)
    requires
        0 <= i < a.len(),
        i < b.len(),
        forall|j: int| 0 <= j < i ==> a[j] == b[j],
        (a[i] as int) < (b[i] as int),
    ensures
        chars_lt(a, b),
    decreases i,
{
    if i == 0 {
    } else {
        lemma_chars_lt_from_mismatch(a.drop_first(), b.drop_first(), i - 1);
    }
}

/// A proper prefix is strictly less.
proof fn lemma_chars_lt_from_prefix(a: Seq<char>, b: Seq<char>)
    requires
        a.len() < b.len(),
        forall|j: int| 0 <= j < a.len() ==> a[j] == b[j],
    ensures
        chars_lt(a, b),
    decreases a.len(),
{
    if a.len() > 0 {
        lemma_chars_lt_from_prefix(a.drop_first(), b.drop_first());
    }
}

/// Three-way comparison of two strings by code point order.
pub fn str_compare(a: &str, b: &str) -> (r: i32)
    ensures
        r == 0 ==> a@ == b@,
        r != 0 ==> a@ != b@,
        r < 0 ==> chars_lt(a@, b@),
        r > 0 ==> chars_lt(b@, a@),
{
    let na = a.unicode_len();
    let nb = b.unicode_len();
    let mut i: usize = 0;
    while i < na && i < nb
        invariant
            i <= na,
            i <= nb,
            na == a@.len(),
            nb == b@.len(),
            forall|j: int| 0 <= j < i ==> a@[j] == b@[j],
        decreases na - i,
    {
        let ca = a.get_char(i);
        let cb = b.get_char(i);
        if (ca as u32) < (cb as u32) {
            proof {
                lemma_chars_lt_from_mismatch(a@, b@, i as int);
                assert(a@[i as int] != b@[i as int]);
            }
            return -1;
        }
        if (ca as u32) > (cb as u32) {
            proof {
                lemma_chars_lt_from_mismatch(b@, a@, i as int);
                assert(a@[i as int] != b@[i as int]);
            }
            return 1;
        }
        proof {
            assert(ca as int == ca as u32 as int && cb as int == cb as u32 as int);
            assert(ca == cb);
        }
        i = i + 1;
    }
    if na == nb {
        proof {
            assert(a@ =~= b@);
        }
        0
    } else if na < nb {
        proof {
            lemma_chars_lt_from_prefix(a@, b@);
        }
        -1
    } else {
        proof {
            lemma_chars_lt_from_prefix(b@, a@);
        }
        1
    }
}

/// Mathematical shape of one tree entry.
pub ghost struct TreeEntryV {
    pub name: Seq<char>,
    pub value: TreeValueV,
}

/// One named entry of a tree.
#[derive(Debug, Clone)]
pub struct TreeEntry {
    pub name: String,
    pub value: TreeValue,
}

impl View for TreeEntry {
    type V = TreeEntryV;

    open spec fn view(&self) -> TreeEntryV {
        TreeEntryV { name: self.name@, value: self.value@ }
    }
}

impl TreeEntry {
    pub fn name(&self) -> (r: &String)
        ensures
            r@ == self@.name,
    {
        &self.name
    }

    pub fn value(&self) -> (r: &TreeValue)
        ensures
            r@ == self@.value,
    {
        &self.value
    }
}

impl PartialEq for TreeEntry {
    fn eq(&self, other: &TreeEntry) -> bool {
        self.name == other.name && self.value == other.value
    }
}

impl vstd::std_specs::cmp::PartialEqSpecImpl for TreeEntry {
    open spec fn obeys_eq_spec() -> bool {
        true
    }

    open spec fn eq_spec(&self, other: &TreeEntry) -> bool {
        self@ == other@
    }
}

/// Entry names are strictly increasing, so in particular unique.
pub open spec fn tree_entries_sorted(s: Seq<TreeEntryV>) -> bool {
    forall|i: int, j: int|
        0 <= i < j < s.len() ==> chars_lt(#[trigger] s[i].name, #[trigger] s[j].name)
}

/// Insertion of a named value into a name-ordered entry sequence: replaces
/// the entry of an existing name, otherwise inserts at the ordered position.
pub open spec fn tree_seq_insert(
    s: Seq<TreeEntryV>,
    name: Seq<char>,
    value: TreeValueV,
) -> Seq<TreeEntryV>
    decreases s.len(),
{
    let e = TreeEntryV { name, value };
    if s.len() == 0 {
        seq![e]
    } else if chars_lt(name, s[0].name) {
        seq![e] + s
    } else if name == s[0].name {
        seq![e] + s.drop_first()
    } else {
        seq![s[0]] + tree_seq_insert(s.drop_first(), name, value)
    }
}

/// `tree_seq_insert` skips over any prefix of strictly smaller names.
proof fn lemma_tree_seq_insert_skip(
    s: Seq<TreeEntryV>,
    name: Seq<char>,
    value: TreeValueV,
    i: int,
)
    requires
        0 <= i <= s.len(),
        forall|k: int| 0 <= k < i ==> chars_lt(#[trigger] s[k].name, name),
    ensures
        tree_seq_insert(s, name, value) == s.take(i) + tree_seq_insert(
            s.skip(i),
            name,
            value,
        ),
    decreases i,
{
    if i == 0 {
        assert(s.skip(0) =~= s);
        assert(s.take(0) + tree_seq_insert(s.skip(0), name, value)
            =~= tree_seq_insert(s, name, value));
    } else {
        assert(chars_lt(s[0].name, name));
        lemma_chars_lt_total(name, s[0].name);
        assert(tree_seq_insert(s, name, value) == seq![s[0]] + tree_seq_insert(
            s.drop_first(),
            name,
            value,
        ));
        lemma_tree_seq_insert_skip(s.drop_first(), name, value, i - 1);
        assert(s.drop_first().take(i - 1) =~= s.take(i).drop_first());
        assert(s.drop_first().skip(i - 1) =~= s.skip(i));
        assert(seq![s[0]] + (s.drop_first().take(i - 1) + tree_seq_insert(
            s.skip(i),
            name,
            value,
        )) =~= s.take(i) + tree_seq_insert(s.skip(i), name, value));
    }
}

/// An ordered-by-name mapping from path component to `TreeValue`; names are
/// unique and entries are kept in their natural key order, which is also the
/// order required for reproducible hashing.
#[derive(Debug, Clone)]
pub struct Tree {
    pub entries: Vec<TreeEntry>,
}

impl View for Tree {
    type V = Seq<TreeEntryV>;

    open spec fn view(&self) -> Seq<TreeEntryV> {
        Seq::new(self.entries@.len(), |i: int| self.entries@[i]@)
    }
}

impl PartialEq for Tree {
    fn eq(&self, other: &Tree) -> bool {
        if self.entries.len() != other.entries.len() {
            proof {
                assert(self@.len() != other@.len());
            }
            return false;
        }
        let mut i: usize = 0;
        while i < self.entries.len()
            invariant
                i <= self.entries@.len(),
                self.entries@.len() == other.entries@.len(),
                forall|j: int| 0 <= j < i ==> self.entries@[j]@ == other.entries@[j]@,
            decreases self.entries@.len() - i,
        {
            if !(self.entries[i] == other.entries[i]) {
                proof {
                    assert(self@[i as int] != other@[i as int]);
                }
                return false;
            }
            i = i + 1;
        }
        proof {
            assert(self@ =~= other@);
        }
        true
    }
}

impl vstd::std_specs::cmp::PartialEqSpecImpl for Tree {
    open spec fn obeys_eq_spec() -> bool {
        true
    }

    open spec fn eq_spec(&self, other: &Tree) -> bool {
        self@ == other@
    }
}

impl Default for Tree {
    /// The empty tree.
    fn default() -> (r: Tree)
        ensures
            r@.len() == 0,
    {
        Tree { entries: Vec::new() }
    }
}

impl Tree {
    /// Well-formedness: entries strictly ordered by name.
    pub open spec fn wf(&self) -> bool {
        tree_entries_sorted(self@)
    }

    /// The entries, in name order.
    pub fn entries(&self) -> (r: &Vec<TreeEntry>)
        ensures
            r@.len() == self@.len(),
            forall|i: int| 0 <= i < r@.len() ==> #[trigger] r@[i]@ == self@[i],
    {
        &self.entries
    }

    pub fn is_empty(&self) -> (r: bool)
        ensures
            r == (self@.len() == 0),
    {
        self.entries.len() == 0
    }

    /// Insert or replace the value stored under `name`, keeping name order.
    pub fn set(&mut self, name: String, value: TreeValue)
        requires
            old(self).wf(),
        ensures
            final(self)@ == tree_seq_insert(old(self)@, name@, value@),
            final(self).wf(),
    {
        let ghost s = self@;
        let ghost nv = name@;
        let ghost e = TreeEntryV { name: name@, value: value@ };
        let mut i: usize = 0;
        while i < self.entries.len()
            invariant
                s == old(self)@,
                self@ == s,
                self.wf(),
                i <= self@.len(),
                nv == name@,
                e == (TreeEntryV { name: name@, value: value@ }),
                forall|k: int| 0 <= k < i ==> chars_lt(#[trigger] s[k].name, nv),
            decreases self@.len() - i,
        {
            let c = str_compare(&self.entries[i].name, &name);
            if c == 0 {
                proof {
                    lemma_tree_seq_insert_skip(s, nv, value@, i as int);
                    lemma_chars_lt_total(nv, s[i as int].name);
                    let t = s.skip(i as int);
                    assert(t[0] == s[i as int]);
                    assert(t[0].name == nv);
                    assert(!chars_lt(nv, t[0].name));
                    assert(tree_seq_insert(t, nv, value@) == seq![e]
                        + t.drop_first());
                    assert(t.drop_first() =~= s.skip(i as int + 1));
                }
                self.entries[i] = TreeEntry { name, value };
                proof {
                    assert(self@ =~= s.take(i as int) + (seq![e] + s.skip(
                        i as int + 1,
                    )));
                    assert(self@ == tree_seq_insert(s, nv, value@));
                    assert forall|x: int, y: int|
                        0 <= x < y < self@.len() implies chars_lt(
                        #[trigger] self@[x].name,
                        #[trigger] self@[y].name,
                    ) by {
                        assert(forall|k: int|
                            0 <= k < s.len() && k != i ==> self@[k] == s[k]);
                        assert(self@[i as int].name == s[i as int].name);
                    }
                }
                return;
            }
            if c > 0 {
                // entries[i].name is greater than name: insert here.
                proof {
                    lemma_tree_seq_insert_skip(s, nv, value@, i as int);
                    let t = s.skip(i as int);
                    assert(t[0] == s[i as int]);
                    assert(chars_lt(nv, t[0].name));
                    assert(tree_seq_insert(t, nv, value@) == seq![e] + t);
                }
                self.entries.insert(i, TreeEntry { name, value });
                proof {
                    assert(self@ =~= s.take(i as int) + (seq![e] + s.skip(
                        i as int,
                    )));
                    assert(self@ == tree_seq_insert(s, nv, value@));
                    assert forall|x: int, y: int|
                        0 <= x < y < self@.len() implies chars_lt(
                        #[trigger] self@[x].name,
                        #[trigger] self@[y].name,
                    ) by {
                        assert(forall|k: int|
                            0 <= k < i ==> self@[k] == s[k]);
                        assert(forall|k: int|
                            i < k < self@.len() ==> self@[k] == s[k - 1]);
                        assert(self@[i as int] == e);
                        if x < i && y < i {
                        } else if x < i && y == i {
                        } else if x < i && y > i {
                        } else if x == i && y > i {
                            if y - 1 > i {
                                lemma_chars_lt_trans(
                                    nv,
                                    s[i as int].name,
                                    s[y - 1].name,
                                );
                            }
                        }
                    }
                }
                return;
            }
            proof {
                lemma_chars_lt_total(s[i as int].name, nv);
            }
            i = i + 1;
        }
        // name is greater than every entry: append.
        proof {
            lemma_tree_seq_insert_skip(s, nv, value@, s.len() as int);
            let t = s.skip(s.len() as int);
            assert(t =~= Seq::<TreeEntryV>::empty());
            assert(tree_seq_insert(t, nv, value@) == seq![e]);
        }
        self.entries.push(TreeEntry { name, value });
        proof {
            assert(s.take(s.len() as int) =~= s);
            assert(self@ =~= s + seq![e]);
            assert(self@ == tree_seq_insert(s, nv, value@));
        }
    }
}

} // verus!
