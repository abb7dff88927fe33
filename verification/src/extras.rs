//! Serialization of the per-commit metadata record persisted in the overlay
//! table: `is_open`, `change_id`, and the ordered `predecessors` list — the
//! fields the underlying store's native commit format cannot hold.
//!
//! The format is deterministic: one flag byte, then the change id and each
//! predecessor as a little-endian 64-bit length followed by the raw bytes.

use vstd::prelude::*;
use crate::backend::{Commit, CommitV, CommitId};

verus! {

/// The overlay record of one commit.
pub ghost struct ExtrasV {
    pub is_open: bool,
    pub change_id: Seq<u8>,
    pub predecessors: Seq<Seq<u8>>,
}

/// The overlay-persisted part of a commit.
pub open spec fn extras_of(c: CommitV) -> ExtrasV {
    ExtrasV {
        is_open: c.is_open,
        change_id: c.change_id,
        predecessors: c.predecessors,
    }
}

/// The eight little-endian bytes of a 64-bit value.
pub open spec fn le64(v: u64) -> Seq<u8> {
    seq![
        (v & 0xff) as u8,
        ((v >> 8) & 0xff) as u8,
        ((v >> 16) & 0xff) as u8,
        ((v >> 24) & 0xff) as u8,
        ((v >> 32) & 0xff) as u8,
        ((v >> 40) & 0xff) as u8,
        ((v >> 48) & 0xff) as u8,
        ((v >> 56) & 0xff) as u8,
    ]
}

/// The value of eight little-endian bytes.
pub open spec fn le64_val(b: Seq<u8>) -> u64 {
    ((b[0] as u64) | ((b[1] as u64) << 8) | ((b[2] as u64) << 16) | ((
    b[3] as u64) << 24) | ((b[4] as u64) << 32) | ((b[5] as u64) << 40) | ((
    b[6] as u64) << 48) | ((b[7] as u64) << 56)) as u64
}

/// Reading back the little-endian bytes of `v` yields `v`.
pub proof fn lemma_le64_round_trip(v: u64)
    ensures
        le64_val(le64(v)) == v,
{
    let b0 = (v & 0xff) as u8;
    let b1 = ((v >> 8) & 0xff) as u8;
    let b2 = ((v >> 16) & 0xff) as u8;
    let b3 = ((v >> 24) & 0xff) as u8;
    let b4 = ((v >> 32) & 0xff) as u8;
    let b5 = ((v >> 40) & 0xff) as u8;
    let b6 = ((v >> 48) & 0xff) as u8;
    let b7 = ((v >> 56) & 0xff) as u8;
    assert(((b0 as u64) | ((b1 as u64) << 8) | ((b2 as u64) << 16) | ((
    b3 as u64) << 24) | ((b4 as u64) << 32) | ((b5 as u64) << 40) | ((
    b6 as u64) << 48) | ((b7 as u64) << 56)) == v) by (bit_vector)
        requires
            b0 == (v & 0xff) as u8,
            b1 == ((v >> 8) & 0xff) as u8,
            b2 == ((v >> 16) & 0xff) as u8,
            b3 == ((v >> 24) & 0xff) as u8,
            b4 == ((v >> 32) & 0xff) as u8,
            b5 == ((v >> 40) & 0xff) as u8,
            b6 == ((v >> 48) & 0xff) as u8,
            b7 == ((v >> 56) & 0xff) as u8,
    ;
    let b = le64(v);
    assert(b[0] == b0 && b[1] == b1 && b[2] == b2 && b[3] == b3 && b[4] == b4
        && b[5] == b5 && b[6] == b6 && b[7] == b7);
}

/// A length-prefixed byte field.
pub open spec fn ser_field(f: Seq<u8>) -> Seq<u8> {
    le64(f.len() as u64) + f
}

/// The concatenation of the predecessors, each as a length-prefixed field.
pub open spec fn ser_preds(ps: Seq<Seq<u8>>) -> Seq<u8>
    decreases ps.len(),
{
    if ps.len() == 0 {
        Seq::empty()
    } else {
        ser_field(ps[0]) + ser_preds(ps.drop_first())
    }
}

/// The serialized overlay record.
pub open spec fn ser_extras(e: ExtrasV) -> Seq<u8> {
    seq![if e.is_open { 1u8 } else { 0u8 }] + ser_field(e.change_id)
        + le64(e.predecessors.len() as u64) + ser_preds(e.predecessors)
}

/// Parse a length-prefixed field at position `i`; yields the field and the
/// position after it.
pub open spec fn parse_field(b: Seq<u8>, i: int) -> Option<(Seq<u8>, int)> {
    if i + 8 > b.len() {
        None
    } else {
        let n = le64_val(b.subrange(i, i + 8)) as int;
        if i + 8 + n > b.len() {
            None
        } else {
            Some((b.subrange(i + 8, i + 8 + n), i + 8 + n))
        }
    }
}

/// Parse `k` length-prefixed fields starting at position `i`.
pub open spec fn parse_preds(b: Seq<u8>, i: int, k: nat) -> Option<
    (Seq<Seq<u8>>, int),
>
    decreases k,
{
    if k == 0 {
        Some((Seq::empty(), i))
    } else {
        match parse_field(b, i) {
            None => None,
            Some((f, j)) => match parse_preds(b, j, (k - 1) as nat) {
                None => None,
                Some((fs, j2)) => Some((seq![f] + fs, j2)),
            },
        }
    }
}

/// Parse a serialized overlay record; `None` on any malformed input,
/// including trailing bytes.
pub open spec fn parse_extras(b: Seq<u8>) -> Option<ExtrasV> {
    if b.len() < 1 || (b[0] != 0 && b[0] != 1) {
        None
    } else {
        match parse_field(b, 1) {
            None => None,
            Some((cid, i)) => {
                if i + 8 > b.len() {
                    None
                } else {
                    let k = le64_val(b.subrange(i, i + 8));
                    match parse_preds(b, i + 8, k as nat) {
                        None => None,
                        Some((ps, j)) => {
                            if j == b.len() {
                                Some(
                                    ExtrasV {
                                        is_open: b[0] == 1,
                                        change_id: cid,
                                        predecessors: ps,
                                    },
                                )
                            } else {
                                None
                            }
                        },
                    }
                }
            },
        }
    }
}

/// A field serialized at position `i` of a larger buffer parses back to
/// itself.
proof fn lemma_parse_field_at(b: Seq<u8>, i: int, f: Seq<u8>)
    requires
        0 <= i,
        i + 8 + f.len() <= b.len(),
        f.len() <= usize::MAX,
        b.subrange(i, i + 8 + f.len()) == ser_field(f),
    ensures
        parse_field(b, i) == Some((f, i + 8 + f.len())),
{
    lemma_le64_round_trip(f.len() as u64);
    let w = b.subrange(i, i + 8 + f.len());
    assert(b.subrange(i, i + 8) =~= w.subrange(0, 8));
    assert(w.subrange(0, 8) =~= le64(f.len() as u64));
    assert(le64_val(b.subrange(i, i + 8)) == f.len() as u64);
    assert(b.subrange(i + 8, i + 8 + f.len()) =~= w.subrange(
        8,
        8 + f.len() as int,
    ));
    assert(w.subrange(8, 8 + f.len() as int) =~= f);
}

/// Predecessor lists serialized at position `i` parse back to themselves.
proof fn lemma_parse_preds_at(b: Seq<u8>, i: int, ps: Seq<Seq<u8>>)
    requires
        0 <= i,
        i + ser_preds(ps).len() <= b.len(),
        forall|n: int| 0 <= n < ps.len() ==> (#[trigger] ps[n].len()) <= usize::MAX,
        b.subrange(i, i + ser_preds(ps).len()) == ser_preds(ps),
    ensures
        parse_preds(b, i, ps.len()) == Some((ps, i + ser_preds(ps).len())),
    decreases ps.len(),
{
    if ps.len() == 0 {
        assert(ps =~= Seq::<Seq<u8>>::empty());
    } else {
        let f = ps[0];
        let rest = ps.drop_first();
        let w = b.subrange(i, i + ser_preds(ps).len());
        assert(ser_preds(ps) == ser_field(f) + ser_preds(rest));
        assert(b.subrange(i, i + 8 + f.len()) =~= ser_field(f)) by {
            assert(b.subrange(i, i + 8 + f.len()) =~= w.subrange(
                0,
                8 + f.len() as int,
            ));
        }
        lemma_parse_field_at(b, i, f);
        let j = i + 8 + f.len();
        assert(b.subrange(j, j + ser_preds(rest).len()) =~= ser_preds(
            rest,
        )) by {
            assert(b.subrange(j, j + ser_preds(rest).len()) =~= w.subrange(
                8 + f.len() as int,
                w.len() as int,
            ));
            assert(w.subrange(8 + f.len() as int, w.len() as int) =~= ser_preds(
                rest,
            ));
        }
        lemma_parse_preds_at(b, j, rest);
        assert(seq![f] + rest =~= ps);
    }
}

/// Well-formedness bound: every serialized field fits the machine.
pub open spec fn extras_wf(e: ExtrasV) -> bool {
    &&& e.change_id.len() <= usize::MAX
    &&& e.predecessors.len() <= usize::MAX
    &&& forall|n: int|
        0 <= n < e.predecessors.len() ==> (#[trigger] e.predecessors[n].len())
            <= usize::MAX
}

/// Round trip: parsing a serialized overlay record yields the record.
pub proof fn lemma_extras_round_trip(e: ExtrasV)
    requires
        extras_wf(e),
    ensures
        parse_extras(ser_extras(e)) == Some(e),
{
    let b = ser_extras(e);
    assert(b[0] == if e.is_open { 1u8 } else { 0u8 });
    assert(b.subrange(1, 1 + 8 + e.change_id.len() as int) =~= ser_field(
        e.change_id,
    ));
    lemma_parse_field_at(b, 1, e.change_id);
    let i = 1 + 8 + e.change_id.len() as int;
    assert(b.subrange(i, i + 8) =~= le64(e.predecessors.len() as u64));
    lemma_le64_round_trip(e.predecessors.len() as u64);
    assert(le64_val(b.subrange(i, i + 8)) == e.predecessors.len() as u64);
    assert(b.subrange(i + 8, i + 8 + ser_preds(e.predecessors).len())
        =~= ser_preds(e.predecessors));
    lemma_parse_preds_at(b, i + 8, e.predecessors);
    assert(i + 8 + ser_preds(e.predecessors).len() == b.len());
}

/// Append the little-endian bytes of `v`.
fn push_le64(out: &mut Vec<u8>, v: u64)
    ensures
        final(out)@ == old(out)@ + le64(v),
{
    out.push((v & 0xff) as u8);
    out.push(((v >> 8) & 0xff) as u8);
    out.push(((v >> 16) & 0xff) as u8);
    out.push(((v >> 24) & 0xff) as u8);
    out.push(((v >> 32) & 0xff) as u8);
    out.push(((v >> 40) & 0xff) as u8);
    out.push(((v >> 48) & 0xff) as u8);
    out.push(((v >> 56) & 0xff) as u8);
    proof {
        assert(final(out)@ =~= old(out)@ + le64(v));
    }
}

/// Append one length-prefixed field.
fn push_field(out: &mut Vec<u8>, f: &[u8])
    ensures
        final(out)@ == old(out)@ + ser_field(f@),
{
    push_le64(out, f.len() as u64);
    let mut i: usize = 0;
    while i < f.len()
        invariant
            i <= f@.len(),
            out@ == old(out)@ + le64(f@.len() as u64) + f@.take(i as int),
        decreases f@.len() - i,
    {
        out.push(f[i]);
        i = i + 1;
        proof {
            assert(old(out)@ + le64(f@.len() as u64) + f@.take(i - 1)
                + seq![f@[i - 1]] =~= old(out)@ + le64(f@.len() as u64)
                + f@.take(i as int));
        }
    }
    proof {
        assert(f@.take(f@.len() as int) =~= f@);
        assert(old(out)@ + le64(f@.len() as u64) + f@ =~= old(out)@
            + ser_field(f@));
    }
}

/// Serialize the overlay record of a commit: `is_open`, `change_id`, and
/// the ordered predecessor list.
pub fn serialize_extras(commit: &Commit) -> (r: Vec<u8>)
    ensures
        r@ == ser_extras(extras_of(commit@)),
{
    let ghost e = extras_of(commit@);
    let mut out: Vec<u8> = Vec::new();
    if commit.is_open {
        out.push(1u8);
    } else {
        out.push(0u8);
    }
    push_field(&mut out, commit.change_id.as_bytes());
    proof {
        assert(out@ =~= seq![if e.is_open { 1u8 } else { 0u8 }] + ser_field(
            e.change_id,
        ));
    }
    push_le64(&mut out, commit.predecessors.len() as u64);
    let ghost mid = out@;
    let mut i: usize = 0;
    while i < commit.predecessors.len()
        invariant
            i <= commit.predecessors@.len(),
            e == extras_of(commit@),
            mid == seq![if e.is_open { 1u8 } else { 0u8 }] + ser_field(
                e.change_id,
            ) + le64(e.predecessors.len() as u64),
            out@ == mid + ser_preds(e.predecessors.take(i as int)),
        decreases commit.predecessors@.len() - i,
    {
        push_field(&mut out, commit.predecessors[i].as_bytes());
        i = i + 1;
        proof {
            lemma_ser_preds_take_step(e.predecessors, i as int);
        }
    }
    proof {
        assert(e.predecessors.take(e.predecessors.len() as int)
            =~= e.predecessors);
        assert(out@ =~= ser_extras(e));
    }
    out
}

/// Serializing one more predecessor appends its field.
proof fn lemma_ser_preds_take_step(ps: Seq<Seq<u8>>, i: int)
    requires
        1 <= i <= ps.len(),
    ensures
        ser_preds(ps.take(i)) == ser_preds(ps.take(i - 1)) + ser_field(
            ps[i - 1],
        ),
    decreases i,
{
    if i == 1 {
        let t = ps.take(1);
        assert(t.len() == 1 && t[0] == ps[0]);
        assert(t.drop_first() =~= Seq::<Seq<u8>>::empty());
        assert(ser_preds(t.drop_first()).len() == 0);
        assert(ser_preds(t) == ser_field(t[0]) + ser_preds(t.drop_first()));
        assert(ser_preds(ps.take(0)).len() == 0);
        assert(ser_preds(ps.take(1)) =~= ser_preds(ps.take(0)) + ser_field(
            ps[0],
        ));
    } else {
        let t = ps.take(i);
        let t1 = ps.take(i - 1);
        lemma_ser_preds_take_step(ps.skip(1), i - 1);
        assert(t.drop_first() =~= ps.skip(1).take(i - 1));
        assert(t1.drop_first() =~= ps.skip(1).take(i - 2));
        assert(ser_preds(t) == ser_field(t[0]) + ser_preds(t.drop_first()));
        assert(ser_preds(t1) == ser_field(t1[0]) + ser_preds(
            t1.drop_first(),
        ));
        assert(ser_preds(ps.take(i)) =~= ser_preds(ps.take(i - 1))
            + ser_field(ps[i - 1]));
    }
}

/// Read eight little-endian bytes at `i`.
fn read_le64(b: &[u8], i: usize) -> (v: u64)
    requires
        i + 8 <= b@.len(),
    ensures
        v == le64_val(b@.subrange(i as int, i as int + 8)),
{
    let v = (b[i] as u64) | ((b[i + 1] as u64) << 8u64) | ((b[i + 2] as u64)
        << 16u64) | ((b[i + 3] as u64) << 24u64) | ((b[i + 4] as u64)
        << 32u64) | ((b[i + 5] as u64) << 40u64) | ((b[i + 6] as u64)
        << 48u64) | ((b[i + 7] as u64) << 56u64);
    proof {
        let s = b@.subrange(i as int, i as int + 8);
        assert(s[0] == b@[i as int] && s[1] == b@[i as int + 1] && s[2]
            == b@[i as int + 2] && s[3] == b@[i as int + 3] && s[4]
            == b@[i as int + 4] && s[5] == b@[i as int + 5] && s[6]
            == b@[i as int + 6] && s[7] == b@[i as int + 7]);
    }
    v
}

/// Read one length-prefixed field at `i`, mirroring `parse_field`.
fn read_field(b: &[u8], i: usize) -> (r: Option<(Vec<u8>, usize)>)
    requires
        i <= b@.len(),
    ensures
        match r {
            Some(p) => parse_field(b@, i as int) == Some((p.0@, p.1 as int))
                && p.1 <= b@.len(),
            None => parse_field(b@, i as int) is None,
        },
{
    if b.len() - i < 8 {
        return None;
    }
    let n = read_le64(b, i);
    if n > (b.len() - i - 8) as u64 {
        return None;
    }
    let n: usize = n as usize;
    let mut f: Vec<u8> = Vec::new();
    let mut k: usize = 0;
    while k < n
        invariant
            k <= n,
            i + 8 + n <= b@.len(),
            b@.len() <= usize::MAX,
            f@ == b@.subrange(i as int + 8, i as int + 8 + k as int),
        decreases n - k,
    {
        f.push(b[i + 8 + k]);
        k = k + 1;
        proof {
            assert(b@.subrange(i as int + 8, i as int + 8 + k - 1)
                + seq![b@[i as int + 8 + k - 1]] =~= b@.subrange(
                i as int + 8,
                i as int + 8 + k as int,
            ));
        }
    }
    Some((f, i + 8 + n))
}

/// Parse an overlay record, mirroring `parse_extras`; yields the fields on
/// success.
fn read_extras(b: &[u8]) -> (r: Option<(bool, Vec<u8>, Vec<CommitId>)>)
    ensures
        match r {
            Some(t) => parse_extras(b@) == Some(
                ExtrasV {
                    is_open: t.0,
                    change_id: t.1@,
                    predecessors: Seq::new(t.2@.len(), |n: int| t.2@[n]@),
                },
            ),
            None => parse_extras(b@) is None,
        },
{
    if b.len() < 1 {
        return None;
    }
    let flag = b[0];
    if flag != 0 && flag != 1 {
        return None;
    }
    let (cid, i) = match read_field(b, 1) {
        Some(p) => p,
        None => { return None; },
    };
    if b.len() - i < 8 {
        return None;
    }
    let k = read_le64(b, i);
    let mut preds: Vec<CommitId> = Vec::new();
    let mut done: u64 = 0;
    let mut pos: usize = i + 8;
    let ghost k0 = k;
    while done < k
        invariant
            done <= k0,
            k == k0,
            pos <= b@.len(),
            b@.len() >= 1,
            flag == b@[0],
            flag == 0 || flag == 1,
            parse_field(b@, 1) == Some((cid@, i as int)),
            i + 8 <= b@.len(),
            k0 == le64_val(b@.subrange(i as int, i as int + 8)),
            preds@.len() == done,
            parse_preds(b@, i as int + 8, k0 as nat) == (match parse_preds(
                b@,
                pos as int,
                (k0 - done) as nat,
            ) {
                Some(t) => Some(
                    (
                        Seq::new(preds@.len(), |n: int| preds@[n]@) + t.0,
                        t.1,
                    ),
                ),
                None => None::<(Seq<Seq<u8>>, int)>,
            }),
        decreases k0 - done,
    {
        let (f, next) = match read_field(b, pos) {
            Some(p) => p,
            None => { return None; },
        };
        proof {
            assert(parse_preds(b@, pos as int, (k0 - done) as nat) matches
                Some(t) ==> t == {
                let (fs, j2) = parse_preds(
                    b@,
                    next as int,
                    (k0 - done - 1) as nat,
                ).unwrap();
                (seq![f@] + fs, j2)
            } || parse_preds(b@, next as int, (k0 - done - 1) as nat)
                is None);
        }
        let ghost old_preds = preds@;
        preds.push(CommitId::new(f));
        done = done + 1;
        pos = next;
        proof {
            assert(Seq::new(preds@.len(), |n: int| preds@[n]@) =~= Seq::new(
                old_preds.len(),
                |n: int| old_preds[n]@,
            ) + seq![preds@[old_preds.len() as int]@]);
            assert forall|t: (Seq<Seq<u8>>, int)|
                parse_preds(b@, pos as int, (k0 - done) as nat) == Some(t)
                implies Seq::new(old_preds.len(), |n: int| old_preds[n]@)
                + (seq![preds@[old_preds.len() as int]@] + t.0) =~= Seq::new(
                preds@.len(),
                |n: int| preds@[n]@,
            ) + t.0 by {}
        }
    }
    proof {
        assert(parse_preds(b@, pos as int, (k0 - done) as nat) == Some((
            Seq::<Seq<u8>>::empty(),
            pos as int,
        )));
        assert(Seq::new(preds@.len(), |n: int| preds@[n]@)
            + Seq::<Seq<u8>>::empty() =~= Seq::new(
            preds@.len(),
            |n: int| preds@[n]@,
        ));
    }
    if pos != b.len() {
        return None;
    }
    Some((flag == 1, cid, preds))
}

/// Apply a serialized overlay record to a commit: set `is_open` and
/// `change_id`, append the predecessors. Returns whether the record parsed;
/// on failure the commit is unchanged.
pub fn deserialize_extras(commit: &mut Commit, bytes: &[u8]) -> (ok: bool)
    ensures
        ok == (parse_extras(bytes@) is Some),
        ok ==> {
            let e = parse_extras(bytes@).unwrap();
            &&& final(commit)@.is_open == e.is_open
            &&& final(commit)@.change_id == e.change_id
            &&& final(commit)@.predecessors == old(commit)@.predecessors
                + e.predecessors
            &&& final(commit)@.parents == old(commit)@.parents
            &&& final(commit)@.root_tree == old(commit)@.root_tree
            &&& final(commit)@.description == old(commit)@.description
            &&& final(commit)@.author == old(commit)@.author
            &&& final(commit)@.committer == old(commit)@.committer
        },
        !ok ==> final(commit)@ == old(commit)@,
{
    let (is_open, cid, mut preds) = match read_extras(bytes) {
        Some(t) => t,
        None => { return false; },
    };
    let ghost e = parse_extras(bytes@).unwrap();
    let ghost added = Seq::new(preds@.len(), |n: int| preds@[n]@);
    commit.is_open = is_open;
    commit.change_id = crate::backend::ChangeId::new(cid);
    let ghost before = commit.predecessors@;
    let mut n: usize = 0;
    let total = preds.len();
    proof {
        assert(added.take(0) =~= Seq::<Seq<u8>>::empty());
        assert(Seq::new(commit.predecessors@.len(), |j: int|
            commit.predecessors@[j]@) + added.take(0) =~= Seq::new(
            before.len(),
            |j: int| before[j]@,
        ));
    }
    while n < total
        invariant
            n <= total,
            parse_extras(bytes@) is Some,
            e == parse_extras(bytes@).unwrap(),
            added == e.predecessors,
            commit.is_open == e.is_open,
            commit.change_id@ == e.change_id,
            commit.parents == old(commit).parents,
            commit.root_tree == old(commit).root_tree,
            commit.description == old(commit).description,
            commit.author == old(commit).author,
            commit.committer == old(commit).committer,
            before == old(commit).predecessors@,
            total == preds@.len(),
            preds@.len() == added.len(),
            forall|j: int| 0 <= j < added.len() ==> added[j] == (
            #[trigger] preds@[j])@,
            commit.predecessors@.len() == before.len() + n,
            forall|j: int|
                0 <= j < before.len() ==> (#[trigger] commit.predecessors@[j])
                    == before[j],
            forall|j: int|
                0 <= j < n ==> (#[trigger] commit.predecessors@[before.len()
                    + j])@ == added[j],
        decreases total - n,
    {
        let id = CommitId::new(vstd::slice::slice_to_vec(
            preds[n].as_bytes(),
        ));
        commit.predecessors.push(id);
        n = n + 1;
    }
    proof {
        let lhs = Seq::new(commit.predecessors@.len(), |j: int|
            commit.predecessors@[j]@);
        let rhs = Seq::new(before.len(), |j: int| before[j]@) + added;
        assert forall|j: int| 0 <= j < lhs.len() implies lhs[j] == rhs[j] by {
            if j < before.len() {
                assert(commit.predecessors@[j] == before[j]);
            } else {
                assert(commit.predecessors@[before.len() + (j
                    - before.len())]@ == added[j - before.len()]);
            }
        }
        assert(lhs =~= rhs);
    }
    true
}

} // verus!
