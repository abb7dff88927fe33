//! The metadata overlay consumed beside the underlying store: an append-only,
//! copy-on-write key-to-bytes table with a current head snapshot. Keys are
//! raw identifier bytes; a record, once written, is only ever re-written
//! byte-identically.

use vstd::prelude::*;
use crate::backend::bytes_eq;

verus! {

/// One key-to-bytes record.
#[derive(Debug)]
pub struct TableEntry {
    pub key: Vec<u8>,
    pub value: Vec<u8>,
}

/// The mapping denoted by a list of records: each present key maps to the
/// value of the record that holds it.
pub open spec fn entries_map(s: Seq<TableEntry>) -> Map<Seq<u8>, Seq<u8>> {
    Map::new(
        |k: Seq<u8>| exists|i: int| 0 <= i < s.len() && s[i].key@ == k,
        |k: Seq<u8>|
            s[choose|i: int| 0 <= i < s.len() && s[i].key@ == k].value@,
    )
}

/// Keys are pairwise distinct.
pub open spec fn entries_distinct(s: Seq<TableEntry>) -> bool {
    forall|i: int, j: int|
        0 <= i < j < s.len() ==> (#[trigger] s[i].key@) != (#[trigger] s[j].key@)
}

/// Under distinct keys, the record at index `i` is what the map yields.
pub proof fn lemma_entries_map_index(s: Seq<TableEntry>, i: int)
    requires
        entries_distinct(s),
        0 <= i < s.len(),
    ensures
        entries_map(s).contains_key(s[i].key@),
        entries_map(s)[s[i].key@] == s[i].value@,
{
    let k = s[i].key@;
    assert(exists|n: int| 0 <= n < s.len() && s[n].key@ == k);
    let j = choose|n: int| 0 <= n < s.len() && s[n].key@ == k;
    if j != i {
        assert(s[i].key@ != s[j].key@);
    }
}

/// A read-only snapshot of the overlay table.
#[derive(Debug)]
pub struct Table {
    pub entries: Vec<TableEntry>,
}

impl View for Table {
    type V = Map<Seq<u8>, Seq<u8>>;

    open spec fn view(&self) -> Map<Seq<u8>, Seq<u8>> {
        entries_map(self.entries@)
    }
}

/// A mutable copy-on-write view rooted at a snapshot.
#[derive(Debug)]
pub struct MutableTable {
    pub entries: Vec<TableEntry>,
}

impl View for MutableTable {
    type V = Map<Seq<u8>, Seq<u8>>;

    open spec fn view(&self) -> Map<Seq<u8>, Seq<u8>> {
        entries_map(self.entries@)
    }
}

fn entries_get<'a>(s: &'a Vec<TableEntry>, key: &[u8]) -> (r: Option<
    &'a Vec<u8>,
>)
    requires
        entries_distinct(s@),
    ensures
        match r {
            Some(v) => entries_map(s@).contains_key(key@) && v@ == entries_map(
                s@,
            )[key@],
            None => !entries_map(s@).contains_key(key@),
        },
{
    let mut i: usize = 0;
    while i < s.len()
        invariant
            entries_distinct(s@),
            i <= s@.len(),
            forall|j: int| 0 <= j < i ==> (#[trigger] s@[j].key@) != key@,
        decreases s@.len() - i,
    {
        if bytes_eq(s[i].key.as_slice(), key) {
            proof {
                lemma_entries_map_index(s@, i as int);
            }
            return Some(&s[i].value);
        }
        i = i + 1;
    }
    proof {
        if entries_map(s@).contains_key(key@) {
            let n = choose|n: int| 0 <= n < s@.len() && s@[n].key@ == key@;
            assert(s@[n].key@ != key@);
        }
    }
    None
}

fn entries_copy(s: &Vec<TableEntry>) -> (r: Vec<TableEntry>)
    ensures
        r@.len() == s@.len(),
        forall|i: int|
            0 <= i < s@.len() ==> (#[trigger] r@[i].key@) == s@[i].key@
                && r@[i].value@ == s@[i].value@,
{
    let mut out: Vec<TableEntry> = Vec::new();
    let mut i: usize = 0;
    while i < s.len()
        invariant
            i <= s@.len(),
            out@.len() == i,
            forall|j: int|
                0 <= j < i ==> (#[trigger] out@[j].key@) == s@[j].key@
                    && out@[j].value@ == s@[j].value@,
        decreases s@.len() - i,
    {
        out.push(
            TableEntry {
                key: vstd::slice::slice_to_vec(s[i].key.as_slice()),
                value: vstd::slice::slice_to_vec(s[i].value.as_slice()),
            },
        );
        i = i + 1;
    }
    out
}

/// Entry lists with equal keys and values pointwise, the first with
/// distinct keys, denote the same map.
proof fn lemma_entries_map_congruence(a: Seq<TableEntry>, b: Seq<TableEntry>)
    requires
        a.len() == b.len(),
        entries_distinct(a),
        forall|i: int|
            0 <= i < a.len() ==> (#[trigger] a[i].key@) == b[i].key@
                && a[i].value@ == b[i].value@,
    ensures
        entries_map(a) == entries_map(b),
        entries_distinct(b),
{
    assert forall|i: int, j: int|
        0 <= i < j < b.len() implies (#[trigger] b[i].key@)
        != (#[trigger] b[j].key@) by {
        assert(a[i].key@ != a[j].key@);
    }
    assert forall|k: Seq<u8>|
        entries_map(a).contains_key(k) implies entries_map(b).contains_key(
        k,
    ) by {
        let i = choose|i: int| 0 <= i < a.len() && a[i].key@ == k;
        assert(b[i].key@ == k);
    }
    assert forall|k: Seq<u8>|
        entries_map(b).contains_key(k) implies entries_map(a).contains_key(
        k,
    ) by {
        let i = choose|i: int| 0 <= i < b.len() && b[i].key@ == k;
        assert(a[i].key@ == k);
    }
    assert forall|k: Seq<u8>|
        entries_map(a).contains_key(k) implies entries_map(a)[k]
        == entries_map(b)[k] by {
        let i = choose|i: int| 0 <= i < a.len() && a[i].key@ == k;
        let j = choose|i: int| 0 <= i < b.len() && b[i].key@ == k;
        assert(a[j].key@ == k);
        if i != j {
            assert(a[i].key@ != a[j].key@);
        }
    }
    assert(entries_map(a) =~= entries_map(b));
}

impl Table {
    /// Well-formedness: one record per key.
    pub open spec fn wf(&self) -> bool {
        entries_distinct(self.entries@)
    }

    /// An empty table.
    pub fn new() -> (r: Table)
        ensures
            r@ == Map::<Seq<u8>, Seq<u8>>::empty(),
            r.wf(),
    {
        let t = Table { entries: Vec::new() };
        proof {
            assert(t@ =~= Map::<Seq<u8>, Seq<u8>>::empty());
        }
        t
    }

    /// The bytes stored under `key`, if any.
    pub fn get_value(&self, key: &[u8]) -> (r: Option<&Vec<u8>>)
        requires
            self.wf(),
        ensures
            match r {
                Some(v) => self@.contains_key(key@) && v@ == self@[key@],
                None => !self@.contains_key(key@),
            },
    {
        entries_get(&self.entries, key)
    }

    /// Begin a copy-on-write mutation rooted at this snapshot.
    pub fn start_mutation(&self) -> (r: MutableTable)
        requires
            self.wf(),
        ensures
            r@ == self@,
            r.wf(),
    {
        let entries = entries_copy(&self.entries);
        proof {
            lemma_entries_map_congruence(entries@, self.entries@);
        }
        MutableTable { entries }
    }
}

impl MutableTable {
    /// Well-formedness: one record per key.
    pub open spec fn wf(&self) -> bool {
        entries_distinct(self.entries@)
    }

    /// The bytes stored under `key`, if any.
    pub fn get_value(&self, key: &[u8]) -> (r: Option<&Vec<u8>>)
        requires
            self.wf(),
        ensures
            match r {
                Some(v) => self@.contains_key(key@) && v@ == self@[key@],
                None => !self@.contains_key(key@),
            },
    {
        entries_get(&self.entries, key)
    }

    /// Insert `value` under `key`, replacing any record of the same key.
    pub fn add_entry(&mut self, key: Vec<u8>, value: Vec<u8>)
        requires
            old(self).wf(),
        ensures
            final(self)@ == old(self)@.insert(key@, value@),
            final(self).wf(),
    {
        let ghost s = self.entries@;
        let mut i: usize = 0;
        while i < self.entries.len()
            invariant
                s == old(self).entries@,
                self.entries@ == s,
                entries_distinct(s),
                i <= s.len(),
                forall|j: int| 0 <= j < i ==> (#[trigger] s[j].key@) != key@,
            decreases s.len() - i,
        {
            if bytes_eq(self.entries[i].key.as_slice(), key.as_slice()) {
                self.entries[i] = TableEntry { key, value };
                proof {
                    let t = self.entries@;
                    assert(forall|j: int|
                        0 <= j < t.len() && j != i ==> t[j] == s[j]);
                    assert(t[i as int].key@ == s[i as int].key@);
                    assert(entries_distinct(t));
                    assert forall|k: Seq<u8>|
                        entries_map(t).contains_key(k)
                        == old(self)@.insert(t[i as int].key@, t[i as int].value@)
                            .contains_key(k) by {}
                    assert(entries_map(t) =~= old(self)@.insert(
                        t[i as int].key@,
                        t[i as int].value@,
                    )) by {
                        assert forall|k: Seq<u8>|
                            entries_map(t).contains_key(k)
                            implies #[trigger] entries_map(t)[k] == old(
                            self,
                        )@.insert(t[i as int].key@, t[i as int].value@)[k] by {
                            let n = choose|n: int|
                                0 <= n < t.len() && t[n].key@ == k;
                            lemma_entries_map_index(t, n);
                            if n != i {
                                lemma_entries_map_index(s, n);
                            }
                        }
                    }
                }
                return;
            }
            i = i + 1;
        }
        self.entries.push(TableEntry { key, value });
        proof {
            let t = self.entries@;
            assert(forall|j: int| 0 <= j < s.len() ==> t[j] == s[j]);
            assert(entries_distinct(t));
            assert(entries_map(t) =~= old(self)@.insert(
                t[s.len() as int].key@,
                t[s.len() as int].value@,
            )) by {
                assert forall|k: Seq<u8>|
                    entries_map(t).contains_key(k) implies #[trigger] entries_map(
                    t,
                )[k] == old(self)@.insert(
                    t[s.len() as int].key@,
                    t[s.len() as int].value@,
                )[k] by {
                    let n = choose|n: int| 0 <= n < t.len() && t[n].key@ == k;
                    lemma_entries_map_index(t, n);
                    if n < s.len() {
                        lemma_entries_map_index(s, n);
                    }
                }
                assert forall|k: Seq<u8>|
                    old(self)@.insert(
                        t[s.len() as int].key@,
                        t[s.len() as int].value@,
                    ).contains_key(k) implies entries_map(t).contains_key(
                    k,
                ) by {
                    if k != t[s.len() as int].key@ {
                        let n = choose|n: int|
                            0 <= n < s.len() && s[n].key@ == k;
                        assert(t[n].key@ == k);
                    }
                }
            }
        }
    }
}

/// The overlay table store: owns the current head snapshot. Saving a mutable
/// view atomically replaces the head, which subsequent reads observe.
#[derive(Debug)]
pub struct TableStore {
    pub head: Table,
}

impl View for TableStore {
    type V = Map<Seq<u8>, Seq<u8>>;

    open spec fn view(&self) -> Map<Seq<u8>, Seq<u8>> {
        self.head@
    }
}

impl TableStore {
    pub open spec fn wf(&self) -> bool {
        self.head.wf()
    }

    /// A fresh, empty store.
    pub fn init() -> (r: TableStore)
        ensures
            r@ == Map::<Seq<u8>, Seq<u8>>::empty(),
            r.wf(),
    {
        TableStore { head: Table::new() }
    }

    /// The current head snapshot.
    pub fn get_head(&self) -> (r: &Table)
        ensures
            r@ == self@,
            self.wf() ==> r.wf(),
    {
        &self.head
    }

    /// Durably replace the head with a finished mutation.
    pub fn save_table(&mut self, table: MutableTable)
        ensures
            final(self)@ == table@,
            table.wf() ==> final(self).wf(),
    {
        self.head = Table { entries: table.entries };
    }
}

} // verus!
