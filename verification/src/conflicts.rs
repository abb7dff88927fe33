//! The conflict codec: a first-class conflict value is serialized to a
//! self-contained structured text document (object keys in fixed order,
//! identifiers as lowercase hex strings) and stored as an ordinary content
//! blob. Decoding accepts exactly the canonical form this codec emits —
//! soundly (whatever it returns serializes back to the input) and
//! completely (every canonical document is accepted); a document in any
//! other shape is a decode failure.

use vstd::prelude::*;
use crate::backend::{Conflict, ConflictPart, ConflictV, TreeValue, TreeValueV};
use crate::backend::{FileId, SymlinkId, TreeId, CommitId, ConflictId};

verus! {

// ---- the canonical document, one spec function per token ----

/// `{"adds":[`
pub open spec fn lit_doc_head() -> Seq<u8> {
    seq![123u8, 34, 97, 100, 100, 115, 34, 58, 91]
}

/// `],"removes":[`
pub open spec fn lit_doc_mid() -> Seq<u8> {
    seq![93u8, 44, 34, 114, 101, 109, 111, 118, 101, 115, 34, 58, 91]
}

/// `]}`
pub open spec fn lit_doc_tail() -> Seq<u8> {
    seq![93u8, 125]
}

/// `{"value":`
pub open spec fn lit_part_head() -> Seq<u8> {
    seq![123u8, 34, 118, 97, 108, 117, 101, 34, 58]
}

/// `{"file":{"executable":`
pub open spec fn lit_file_head() -> Seq<u8> {
    seq![
        123u8, 34, 102, 105, 108, 101, 34, 58, 123, 34, 101, 120, 101, 99,
        117, 116, 97, 98, 108, 101, 34, 58,
    ]
}

/// `,"id":"`
pub open spec fn lit_file_mid() -> Seq<u8> {
    seq![44u8, 34, 105, 100, 34, 58, 34]
}

/// `{"symlink_id":"`
pub open spec fn lit_symlink_head() -> Seq<u8> {
    seq![123u8, 34, 115, 121, 109, 108, 105, 110, 107, 95, 105, 100, 34, 58, 34]
}

/// `{"tree_id":"`
pub open spec fn lit_tree_head() -> Seq<u8> {
    seq![123u8, 34, 116, 114, 101, 101, 95, 105, 100, 34, 58, 34]
}

/// `{"submodule_id":"`
pub open spec fn lit_submodule_head() -> Seq<u8> {
    seq![
        123u8, 34, 115, 117, 98, 109, 111, 100, 117, 108, 101, 95, 105, 100,
        34, 58, 34,
    ]
}

/// `{"conflict_id":"`
pub open spec fn lit_conflict_head() -> Seq<u8> {
    seq![123u8, 34, 99, 111, 110, 102, 108, 105, 99, 116, 95, 105, 100, 34, 58, 34]
}

/// `"}`
pub open spec fn lit_quote_close() -> Seq<u8> {
    seq![34u8, 125]
}

/// `"}}`
pub open spec fn lit_quote_close2() -> Seq<u8> {
    seq![34u8, 125, 125]
}

/// `true`
pub open spec fn lit_true() -> Seq<u8> {
    seq![116u8, 114, 117, 101]
}

/// `false`
pub open spec fn lit_false() -> Seq<u8> {
    seq![102u8, 97, 108, 115, 101]
}

// ---- hex identifiers as document bytes ----

/// The lowercase hex digit byte for a value below 16.
pub open spec fn hex_digit_byte(v: int) -> u8 {
    if v < 10 {
        (48 + v) as u8
    } else {
        (97 + (v - 10)) as u8
    }
}

/// The two lowercase hex digit bytes of one byte, high digit first.
pub open spec fn hex_bytes_of_byte(b: u8) -> Seq<u8> {
    seq![hex_digit_byte(b as int / 16), hex_digit_byte(b as int % 16)]
}

/// The lowercase hex form of a byte string, as bytes.
pub open spec fn hex_bytes(bytes: Seq<u8>) -> Seq<u8>
    decreases bytes.len(),
{
    if bytes.len() == 0 {
        Seq::empty()
    } else {
        hex_bytes_of_byte(bytes[0]) + hex_bytes(bytes.drop_first())
    }
}

// ---- the serialized document ----

/// The serialized form of one tree value inside a conflict document,
/// tagged by which variant it holds.
pub open spec fn ser_value(v: TreeValueV) -> Seq<u8> {
    match v {
        TreeValueV::Normal { id, executable } => lit_file_head() + (if
        executable {
            lit_true()
        } else {
            lit_false()
        }) + lit_file_mid() + hex_bytes(id) + lit_quote_close2(),
        TreeValueV::Symlink(id) => lit_symlink_head() + hex_bytes(id)
            + lit_quote_close(),
        TreeValueV::Tree(id) => lit_tree_head() + hex_bytes(id)
            + lit_quote_close(),
        TreeValueV::GitSubmodule(id) => lit_submodule_head() + hex_bytes(id)
            + lit_quote_close(),
        TreeValueV::Conflict(id) => lit_conflict_head() + hex_bytes(id)
            + lit_quote_close(),
    }
}

/// The serialized form of one conflict part: an object holding the value.
pub open spec fn ser_part(v: TreeValueV) -> Seq<u8> {
    lit_part_head() + ser_value(v) + seq![125u8]
}

/// The serialized parts after the first: each preceded by a comma.
pub open spec fn ser_parts_rest(l: Seq<TreeValueV>) -> Seq<u8>
    decreases l.len(),
{
    if l.len() == 0 {
        Seq::empty()
    } else {
        seq![44u8] + ser_part(l[0]) + ser_parts_rest(l.drop_first())
    }
}

/// The serialized part list, comma-separated.
pub open spec fn ser_parts(l: Seq<TreeValueV>) -> Seq<u8> {
    if l.len() == 0 {
        Seq::empty()
    } else {
        ser_part(l[0]) + ser_parts_rest(l.drop_first())
    }
}

/// The canonical serialized conflict document: the added sides, then the
/// removed sides.
pub open spec fn ser_conflict(c: ConflictV) -> Seq<u8> {
    lit_doc_head() + ser_parts(c.adds) + lit_doc_mid() + ser_parts(c.removes)
        + lit_doc_tail()
}

// ---- executable serialization ----

/// Append a byte string.
fn push_bytes(out: &mut Vec<u8>, s: &[u8])
    ensures
        final(out)@ == old(out)@ + s@,
{
    let mut i: usize = 0;
    while i < s.len()
        invariant
            i <= s@.len(),
            out@ == old(out)@ + s@.take(i as int),
        decreases s@.len() - i,
    {
        out.push(s[i]);
        i = i + 1;
        proof {
            assert(old(out)@ + s@.take(i - 1) + seq![s@[i - 1]] =~= old(out)@
                + s@.take(i as int));
        }
    }
    proof {
        assert(s@.take(s@.len() as int) =~= s@);
    }
}

/// Append the lowercase hex form of `id`.
fn push_hex(out: &mut Vec<u8>, id: &[u8])
    ensures
        final(out)@ == old(out)@ + hex_bytes(id@),
{
    let mut i: usize = 0;
    proof {
        assert(hex_bytes(id@.take(0)) =~= Seq::<u8>::empty());
        assert(out@ =~= old(out)@ + hex_bytes(id@.take(0)));
    }
    while i < id.len()
        invariant
            i <= id@.len(),
            out@ == old(out)@ + hex_bytes(id@.take(i as int)),
        decreases id@.len() - i,
    {
        let b = id[i];
        let hi = b / 16;
        let lo = b % 16;
        if hi < 10 {
            out.push(48 + hi);
        } else {
            out.push(97 + (hi - 10));
        }
        if lo < 10 {
            out.push(48 + lo);
        } else {
            out.push(97 + (lo - 10));
        }
        i = i + 1;
        proof {
            lemma_hex_bytes_take_step(id@, i as int);
            assert(old(out)@ + hex_bytes(id@.take(i - 1)) + seq![
                hex_digit_byte(b as int / 16),
                hex_digit_byte(b as int % 16),
            ] =~= old(out)@ + hex_bytes(id@.take(i as int)));
        }
    }
    proof {
        assert(id@.take(id@.len() as int) =~= id@);
    }
}

/// Taking one more byte extends the hex form by that byte's digits.
proof fn lemma_hex_bytes_take_step(bytes: Seq<u8>, i: int)
    requires
        1 <= i <= bytes.len(),
    ensures
        hex_bytes(bytes.take(i)) == hex_bytes(bytes.take(i - 1))
            + hex_bytes_of_byte(bytes[i - 1]),
    decreases i,
{
    if i == 1 {
        let t = bytes.take(1);
        assert(t.len() == 1 && t[0] == bytes[0]);
        assert(t.drop_first() =~= Seq::<u8>::empty());
        assert(hex_bytes(t.drop_first()).len() == 0);
        assert(hex_bytes(t) == hex_bytes_of_byte(t[0]) + hex_bytes(
            t.drop_first(),
        ));
        assert(hex_bytes(bytes.take(0)).len() == 0);
        assert(hex_bytes(bytes.take(i)) =~= hex_bytes(bytes.take(i - 1))
            + hex_bytes_of_byte(bytes[i - 1]));
    } else {
        let t = bytes.take(i);
        let t1 = bytes.take(i - 1);
        lemma_hex_bytes_take_step(bytes.skip(1), i - 1);
        assert(t.drop_first() =~= bytes.skip(1).take(i - 1));
        assert(t1.drop_first() =~= bytes.skip(1).take(i - 2));
        assert(hex_bytes(t) == hex_bytes_of_byte(t[0]) + hex_bytes(
            t.drop_first(),
        ));
        assert(hex_bytes(t1) == hex_bytes_of_byte(t1[0]) + hex_bytes(
            t1.drop_first(),
        ));
        assert(hex_bytes(bytes.take(i)) =~= hex_bytes(bytes.take(i - 1))
            + hex_bytes_of_byte(bytes[i - 1]));
    }
}

/// Append one serialized tree value.
fn push_value(out: &mut Vec<u8>, v: &TreeValue)
    ensures
        final(out)@ == old(out)@ + ser_value(v@),
{
    match v {
        TreeValue::Normal { id, executable } => {
            let head: Vec<u8> = vec![
                123u8, 34, 102, 105, 108, 101, 34, 58, 123, 34, 101, 120,
                101, 99, 117, 116, 97, 98, 108, 101, 34, 58,
            ];
            push_bytes(out, head.as_slice());
            proof {
                assert(head@ =~= lit_file_head());
            }
            if *executable {
                let t: Vec<u8> = vec![116u8, 114, 117, 101];
                push_bytes(out, t.as_slice());
                proof {
                    assert(t@ =~= lit_true());
                }
            } else {
                let f: Vec<u8> = vec![102u8, 97, 108, 115, 101];
                push_bytes(out, f.as_slice());
                proof {
                    assert(f@ =~= lit_false());
                }
            }
            let mid: Vec<u8> = vec![44u8, 34, 105, 100, 34, 58, 34];
            push_bytes(out, mid.as_slice());
            proof {
                assert(mid@ =~= lit_file_mid());
            }
            push_hex(out, id.as_bytes());
            let tail: Vec<u8> = vec![34u8, 125, 125];
            push_bytes(out, tail.as_slice());
            proof {
                assert(tail@ =~= lit_quote_close2());
                assert(final(out)@ =~= old(out)@ + ser_value(v@));
            }
        },
        TreeValue::Symlink(id) => {
            let head: Vec<u8> = vec![
                123u8, 34, 115, 121, 109, 108, 105, 110, 107, 95, 105, 100,
                34, 58, 34,
            ];
            push_bytes(out, head.as_slice());
            proof {
                assert(head@ =~= lit_symlink_head());
            }
            push_hex(out, id.as_bytes());
            let tail: Vec<u8> = vec![34u8, 125];
            push_bytes(out, tail.as_slice());
            proof {
                assert(tail@ =~= lit_quote_close());
                assert(final(out)@ =~= old(out)@ + ser_value(v@));
            }
        },
        TreeValue::Tree(id) => {
            let head: Vec<u8> = vec![
                123u8, 34, 116, 114, 101, 101, 95, 105, 100, 34, 58, 34,
            ];
            push_bytes(out, head.as_slice());
            proof {
                assert(head@ =~= lit_tree_head());
            }
            push_hex(out, id.as_bytes());
            let tail: Vec<u8> = vec![34u8, 125];
            push_bytes(out, tail.as_slice());
            proof {
                assert(tail@ =~= lit_quote_close());
                assert(final(out)@ =~= old(out)@ + ser_value(v@));
            }
        },
        TreeValue::GitSubmodule(id) => {
            let head: Vec<u8> = vec![
                123u8, 34, 115, 117, 98, 109, 111, 100, 117, 108, 101, 95,
                105, 100, 34, 58, 34,
            ];
            push_bytes(out, head.as_slice());
            proof {
                assert(head@ =~= lit_submodule_head());
            }
            push_hex(out, id.as_bytes());
            let tail: Vec<u8> = vec![34u8, 125];
            push_bytes(out, tail.as_slice());
            proof {
                assert(tail@ =~= lit_quote_close());
                assert(final(out)@ =~= old(out)@ + ser_value(v@));
            }
        },
        TreeValue::Conflict(id) => {
            let head: Vec<u8> = vec![
                123u8, 34, 99, 111, 110, 102, 108, 105, 99, 116, 95, 105,
                100, 34, 58, 34,
            ];
            push_bytes(out, head.as_slice());
            proof {
                assert(head@ =~= lit_conflict_head());
            }
            push_hex(out, id.as_bytes());
            let tail: Vec<u8> = vec![34u8, 125];
            push_bytes(out, tail.as_slice());
            proof {
                assert(tail@ =~= lit_quote_close());
                assert(final(out)@ =~= old(out)@ + ser_value(v@));
            }
        },
    }
}

/// Append one serialized part.
fn push_part(out: &mut Vec<u8>, p: &ConflictPart)
    ensures
        final(out)@ == old(out)@ + ser_part(p@),
{
    let head: Vec<u8> = vec![123u8, 34, 118, 97, 108, 117, 101, 34, 58];
    push_bytes(out, head.as_slice());
    proof {
        assert(head@ =~= lit_part_head());
    }
    push_value(out, &p.value);
    out.push(125u8);
    proof {
        assert(final(out)@ =~= old(out)@ + ser_part(p@));
    }
}

/// The rest of a part list, one more comma-led part at a time.
proof fn lemma_ser_parts_rest_take_step(l: Seq<TreeValueV>, i: int)
    requires
        1 <= i <= l.len(),
    ensures
        ser_parts_rest(l.take(i)) == ser_parts_rest(l.take(i - 1)) + seq![44u8]
            + ser_part(l[i - 1]),
    decreases i,
{
    if i == 1 {
        let t = l.take(1);
        assert(t.len() == 1 && t[0] == l[0]);
        assert(t.drop_first() =~= Seq::<TreeValueV>::empty());
        assert(ser_parts_rest(t.drop_first()).len() == 0);
        assert(ser_parts_rest(t) == seq![44u8] + ser_part(t[0])
            + ser_parts_rest(t.drop_first()));
        assert(ser_parts_rest(l.take(0)).len() == 0);
        assert(ser_parts_rest(l.take(i)) =~= ser_parts_rest(l.take(i - 1))
            + seq![44u8] + ser_part(l[i - 1]));
    } else {
        let t = l.take(i);
        let t1 = l.take(i - 1);
        lemma_ser_parts_rest_take_step(l.skip(1), i - 1);
        assert(t.drop_first() =~= l.skip(1).take(i - 1));
        assert(t1.drop_first() =~= l.skip(1).take(i - 2));
        assert(ser_parts_rest(t) == seq![44u8] + ser_part(t[0])
            + ser_parts_rest(t.drop_first()));
        assert(ser_parts_rest(t1) == seq![44u8] + ser_part(t1[0])
            + ser_parts_rest(t1.drop_first()));
        assert(ser_parts_rest(l.take(i)) =~= ser_parts_rest(l.take(i - 1))
            + seq![44u8] + ser_part(l[i - 1]));
    }
}

/// Append a serialized part list.
fn push_parts(out: &mut Vec<u8>, parts: &Vec<ConflictPart>)
    ensures
        final(out)@ == old(out)@ + ser_parts(crate::backend::parts_view(
            parts@,
        )),
{
    let ghost pv = crate::backend::parts_view(parts@);
    if parts.len() == 0 {
        proof {
            assert(out@ =~= old(out)@ + ser_parts(pv));
        }
        return;
    }
    push_part(out, &parts[0]);
    proof {
        assert(pv[0] == parts@[0]@);
        assert(ser_parts_rest(pv.take(1).drop_first()).len() == 0);
        assert(out@ =~= old(out)@ + ser_part(pv[0]) + ser_parts_rest(
            pv.take(1).drop_first(),
        ));
    }
    let mut i: usize = 1;
    while i < parts.len()
        invariant
            1 <= i <= parts@.len(),
            pv == crate::backend::parts_view(parts@),
            pv.len() == parts@.len(),
            out@ == old(out)@ + ser_part(pv[0]) + ser_parts_rest(
                pv.drop_first().take(i - 1),
            ),
        decreases parts@.len() - i,
    {
        out.push(44u8);
        push_part(out, &parts[i]);
        i = i + 1;
        proof {
            lemma_ser_parts_rest_take_step(pv.drop_first(), i - 1);
            assert(pv.drop_first()[i - 2] == pv[i - 1]);
            assert(pv[i - 1] == parts@[i - 1]@);
            assert(out@ =~= old(out)@ + ser_part(pv[0]) + ser_parts_rest(
                pv.drop_first().take(i - 1),
            ));
        }
    }
    proof {
        assert(pv.drop_first().take(pv.len() - 1) =~= pv.drop_first());
        assert(out@ =~= old(out)@ + ser_parts(pv));
    }
}

/// Serialize a conflict to its canonical document bytes.
pub fn conflict_to_bytes(conflict: &Conflict) -> (r: Vec<u8>)
    ensures
        r@ == ser_conflict(conflict@),
{
    let mut out: Vec<u8> = Vec::new();
    let head: Vec<u8> = vec![123u8, 34, 97, 100, 100, 115, 34, 58, 91];
    push_bytes(&mut out, head.as_slice());
    proof {
        assert(head@ =~= lit_doc_head());
    }
    push_parts(&mut out, &conflict.adds);
    let mid: Vec<u8> = vec![
        93u8, 44, 34, 114, 101, 109, 111, 118, 101, 115, 34, 58, 91,
    ];
    push_bytes(&mut out, mid.as_slice());
    proof {
        assert(mid@ =~= lit_doc_mid());
    }
    push_parts(&mut out, &conflict.removes);
    let tail: Vec<u8> = vec![93u8, 125];
    push_bytes(&mut out, tail.as_slice());
    proof {
        assert(tail@ =~= lit_doc_tail());
        assert(out@ =~= ser_conflict(conflict@));
    }
    out
}

// ---- decoding: sound and complete scanning of the canonical form ----

/// Whether `lit` occurs at position `i`: succeeds exactly when it does,
/// and consumes exactly it.
fn scan_lit(b: &[u8], i: usize, lit: &[u8]) -> (r: Option<usize>)
    requires
        i <= b@.len(),
    ensures
        r is Some <==> (i + lit@.len() <= b@.len() && b@.subrange(
            i as int,
            i + lit@.len(),
        ) == lit@),
        r matches Some(j) ==> i <= j <= b@.len() && j == i + lit@.len(),
{
    if b.len() - i < lit.len() {
        return None;
    }
    let mut k: usize = 0;
    while k < lit.len()
        invariant
            k <= lit@.len(),
            i + lit@.len() <= b@.len(),
            b@.len() <= usize::MAX,
            forall|m: int| 0 <= m < k ==> b@[i + m] == lit@[m],
        decreases lit@.len() - k,
    {
        if b[i + k] != lit[k] {
            proof {
                assert(b@.subrange(i as int, i + lit@.len())[k as int]
                    == b@[i + k]);
            }
            return None;
        }
        k = k + 1;
    }
    proof {
        assert(b@.subrange(i as int, i + lit@.len()) =~= lit@);
    }
    Some(i + lit.len())
}

/// A lowercase hex identifier followed by its closing quote occurs at `i`.
pub open spec fn hex_quote_at(b: Seq<u8>, i: int, id: Seq<u8>) -> bool {
    &&& 0 <= i
    &&& i + 2 * id.len() + 1 <= b.len()
    &&& b.subrange(i, i + 2 * id.len() + 1) == hex_bytes(id) + seq![34u8]
}

/// Only one identifier can occur at a position: the closing quote is not a
/// hex digit, so the shorter encoding's quote would sit inside the longer
/// one's digits.
proof fn lemma_hex_quote_at_unique(b: Seq<u8>, i: int, id1: Seq<u8>, id2: Seq<u8>)
    requires
        hex_quote_at(b, i, id1),
        hex_quote_at(b, i, id2),
    ensures
        id1 == id2,
{
    let s1 = hex_bytes(id1) + seq![34u8] + b.skip(i + 2 * id1.len() + 1);
    let s2 = hex_bytes(id2) + seq![34u8] + b.skip(i + 2 * id2.len() + 1);
    lemma_hex_bytes_digits(id1);
    lemma_hex_bytes_digits(id2);
    assert(s1 =~= b.skip(i));
    assert(s2 =~= b.skip(i));
    lemma_hex_quote_cancel(
        id1,
        b.skip(i + 2 * id1.len() + 1),
        id2,
        b.skip(i + 2 * id2.len() + 1),
    );
}

/// Scan a quote-delimited lowercase hex identifier: what is returned
/// occurs at `i`, and whatever identifier occurs at `i` is found.
fn scan_hex_id(b: &[u8], i: usize) -> (r: Option<(Vec<u8>, usize)>)
    requires
        i <= b@.len(),
    ensures
        r matches Some(t) ==> i < t.1 <= b@.len() && hex_quote_at(
            b@,
            i as int,
            t.0@,
        ) && t.1 as int == i + 2 * t.0@.len() + 1,
        forall|id: Seq<u8>| #![auto]
            hex_quote_at(b@, i as int, id) ==> r is Some,
{
    let total: usize = b.len();
    let mut id: Vec<u8> = Vec::new();
    let mut j: usize = i;
    proof {
        assert(b@.len() == total);
        assert(hex_bytes(id@).len() == 0);
        assert(b@.subrange(i as int, i as int) =~= hex_bytes(id@));
    }
    loop
        invariant
            i <= j <= b@.len(),
            b@.len() <= usize::MAX,
            j == i + 2 * id@.len(),
            b@.subrange(i as int, j as int) == hex_bytes(id@),
            forall|w: Seq<u8>| #![auto]
                hex_quote_at(b@, i as int, w) ==> j <= i + 2 * w.len(),
        decreases b@.len() - j,
    {
        if j >= b.len() {
            proof {
                assert forall|w: Seq<u8>| #![auto]
                    !hex_quote_at(b@, i as int, w) by {
                    if hex_quote_at(b@, i as int, w) {
                        assert(j <= i + 2 * w.len() < b@.len());
                    }
                }
            }
            return None;
        }
        let c = b[j];
        if c == 34 {
            proof {
                assert(b@.subrange(i as int, j + 1) =~= hex_bytes(id@)
                    + seq![34u8]);
            }
            return Some((id, j + 1));
        }
        proof {
            assert forall|w: Seq<u8>| #![auto]
                hex_quote_at(b@, i as int, w) implies j + 2 <= i + 2
                * w.len() by {
                if j == i + 2 * w.len() {
                    lemma_hex_bytes_digits(w);
                    assert((hex_bytes(w) + seq![34u8])[2 * w.len() as int]
                        == 34);
                    assert(b@.subrange(i as int, i + 2 * w.len() + 1)[j - i]
                        == b@[j as int]);
                    assert(false);
                }
            }
        }
        if j + 1 >= b.len() {
            proof {
                assert forall|w: Seq<u8>| #![auto]
                    !hex_quote_at(b@, i as int, w) by {
                    if hex_quote_at(b@, i as int, w) {
                        assert(j + 2 <= i + 2 * w.len() < b@.len());
                    }
                }
            }
            return None;
        }
        let c2 = b[j + 1];
        proof {
            assert forall|w: Seq<u8>| #![auto]
                hex_quote_at(b@, i as int, w) implies ((48 <= b@[j as int]
                <= 57 || 97 <= b@[j as int] <= 102) && (48 <= b@[j + 1]
                <= 57 || 97 <= b@[j + 1] <= 102)) by {
                lemma_hex_bytes_digits(w);
                assert(b@.subrange(i as int, i + 2 * w.len() + 1)[j - i]
                    == b@[j as int]);
                assert((hex_bytes(w) + seq![34u8])[j - i] == hex_bytes(
                    w,
                )[j - i]);
                assert(b@.subrange(i as int, i + 2 * w.len() + 1)[j + 1 - i]
                    == b@[j + 1]);
                assert((hex_bytes(w) + seq![34u8])[j + 1 - i] == hex_bytes(
                    w,
                )[j + 1 - i]);
            }
        }
        let hi = if 48 <= c && c <= 57 {
            c - 48
        } else if 97 <= c && c <= 102 {
            c - 97 + 10
        } else {
            return None;
        };
        let lo = if 48 <= c2 && c2 <= 57 {
            c2 - 48
        } else if 97 <= c2 && c2 <= 102 {
            c2 - 97 + 10
        } else {
            return None;
        };
        let byte = hi * 16 + lo;
        proof {
            assert(hi < 16 && lo < 16);
            assert(byte as int / 16 == hi as int && byte as int % 16
                == lo as int);
            assert(hex_digit_byte(hi as int) == c);
            assert(hex_digit_byte(lo as int) == c2);
        }
        let ghost old_id = id@;
        id.push(byte);
        j = j + 2;
        proof {
            lemma_hex_bytes_take_step(id@, id@.len() as int);
            assert(id@.take(id@.len() - 1) =~= old_id);
            assert(id@.take(id@.len() as int) =~= id@);
            assert(hex_bytes_of_byte(byte) =~= seq![c, c2]);
            assert(b@.subrange(i as int, j as int) =~= hex_bytes(old_id)
                + hex_bytes_of_byte(byte));
        }
    }
}

/// A head literal, a hex identifier, and the closing `"}` occur at `i`.
pub open spec fn tagged_at(b: Seq<u8>, i: int, h: Seq<u8>, id: Seq<u8>) -> bool {
    &&& 0 <= i
    &&& i + h.len() + 2 * id.len() + 2 <= b.len()
    &&& b.subrange(i, i + h.len() + 2 * id.len() + 2) == h + hex_bytes(id)
        + lit_quote_close()
}

/// Scan one head-tagged, quote-closed identifier: sound and complete for
/// the given head.
fn scan_tagged_id(b: &[u8], i: usize, head: &[u8]) -> (r: Option<(Vec<u8>, usize)>)
    requires
        i <= b@.len(),
    ensures
        r matches Some(t) ==> i < t.1 <= b@.len() && t.1 as int == i
            + head@.len() + 2 * t.0@.len() + 2 && b@.subrange(
            i as int,
            t.1 as int,
        ) == head@ + hex_bytes(t.0@) + lit_quote_close(),
        forall|id: Seq<u8>| #![auto]
            tagged_at(b@, i as int, head@, id) ==> r is Some,
{
    let j = match scan_lit(b, i, head) {
        Some(j) => j,
        None => {
            proof {
                assert forall|id: Seq<u8>| #![auto]
                    !tagged_at(b@, i as int, head@, id) by {
                    if tagged_at(b@, i as int, head@, id) {
                        let w = b@.subrange(
                            i as int,
                            i + head@.len() + 2 * id.len() + 2,
                        );
                        assert(b@.subrange(i as int, i + head@.len())
                            =~= head@) by {
                            assert(forall|m: int|
                                0 <= m < head@.len() ==> b@.subrange(
                                    i as int,
                                    i + head@.len(),
                                )[m] == w[m]);
                            assert(forall|m: int|
                                0 <= m < head@.len() ==> w[m] == head@[m]);
                        }
                    }
                }
            }
            return None;
        },
    };
    let (idv, j2) = match scan_hex_id(b, j) {
        Some(t) => t,
        None => {
            proof {
                assert forall|id: Seq<u8>| #![auto]
                    !tagged_at(b@, i as int, head@, id) by {
                    if tagged_at(b@, i as int, head@, id) {
                        lemma_hex_bytes_digits(id);
                        let w = b@.subrange(
                            i as int,
                            i + head@.len() + 2 * id.len() + 2,
                        );
                        assert(hex_quote_at(b@, j as int, id)) by {
                            assert(b@.subrange(
                                j as int,
                                j + 2 * id.len() + 1,
                            ) =~= hex_bytes(id) + seq![34u8]) by {
                                assert(forall|m: int|
                                    0 <= m < 2 * id.len() + 1
                                        ==> #[trigger] b@.subrange(
                                        j as int,
                                        j + 2 * id.len() + 1,
                                    )[m] == w[head@.len() + m]);
                            }
                        }
                    }
                }
            }
            return None;
        },
    };
    let tail: Vec<u8> = vec![125u8];
    let j3 = match scan_lit(b, j2, tail.as_slice()) {
        Some(j3) => j3,
        None => {
            proof {
                assert forall|id: Seq<u8>| #![auto]
                    !tagged_at(b@, i as int, head@, id) by {
                    if tagged_at(b@, i as int, head@, id) {
                        lemma_hex_bytes_digits(id);
                        let w = b@.subrange(
                            i as int,
                            i + head@.len() + 2 * id.len() + 2,
                        );
                        assert(hex_quote_at(b@, j as int, id)) by {
                            assert(b@.subrange(
                                j as int,
                                j + 2 * id.len() + 1,
                            ) =~= hex_bytes(id) + seq![34u8]) by {
                                assert(forall|m: int|
                                    0 <= m < 2 * id.len() + 1
                                        ==> #[trigger] b@.subrange(
                                        j as int,
                                        j + 2 * id.len() + 1,
                                    )[m] == w[head@.len() + m]);
                            }
                        }
                        lemma_hex_quote_at_unique(b@, j as int, id, idv@);
                        assert(b@.subrange(j2 as int, j2 + 1) =~= tail@) by {
                            assert(b@[j2 as int] == w[head@.len() as int + 2
                                * id.len() as int + 1]);
                        }
                    }
                }
            }
            return None;
        },
    };
    proof {
        assert(b@.subrange(i as int, j3 as int) =~= head@ + hex_bytes(idv@)
            + lit_quote_close()) by {
            assert(b@.subrange(i as int, j3 as int) =~= b@.subrange(
                i as int,
                j as int,
            ) + b@.subrange(j as int, j2 as int) + b@.subrange(
                j2 as int,
                j3 as int,
            ));
            assert(b@.subrange(i as int, j as int) =~= head@);
            assert(b@.subrange(j as int, j2 as int) =~= hex_bytes(idv@)
                + seq![34u8]);
            assert(b@.subrange(j2 as int, j3 as int) =~= seq![125u8]);
            assert(head@ + (hex_bytes(idv@) + seq![34u8]) + seq![125u8]
                =~= head@ + hex_bytes(idv@) + lit_quote_close());
        }
    }
    Some((idv, j3))
}

/// A serialized tree value occurs at `i`.
pub open spec fn value_at(b: Seq<u8>, i: int, v: TreeValueV) -> bool {
    &&& 0 <= i
    &&& i + ser_value(v).len() <= b.len()
    &&& b.subrange(i, i + ser_value(v).len()) == ser_value(v)
}

/// Under `value_at`, the head literal of the value's own variant occurs at
/// `i`, and no other variant's head does.
proof fn lemma_value_at_head(b: Seq<u8>, i: int, v: TreeValueV, h: Seq<u8>)
    requires
        value_at(b, i, v),
        h == (match v {
            TreeValueV::Normal { id, executable } => lit_file_head(),
            TreeValueV::Symlink(id) => lit_symlink_head(),
            TreeValueV::Tree(id) => lit_tree_head(),
            TreeValueV::GitSubmodule(id) => lit_submodule_head(),
            TreeValueV::Conflict(id) => lit_conflict_head(),
        }),
    ensures
        i + h.len() <= b.len(),
        b.subrange(i, i + h.len()) == h,
{
    let sv = ser_value(v);
    assert(forall|m: int| 0 <= m < sv.len() ==> b.subrange(
        i,
        i + sv.len(),
    )[m] == sv[m]);
    match v {
        TreeValueV::Normal { id, executable } => {
            let bl = if executable { lit_true() } else { lit_false() };
            assert(forall|m: int| 0 <= m < h.len() ==> sv[m] == h[m]);
        },
        TreeValueV::Symlink(id) => {
            assert(forall|m: int| 0 <= m < h.len() ==> sv[m] == h[m]);
        },
        TreeValueV::Tree(id) => {
            assert(forall|m: int| 0 <= m < h.len() ==> sv[m] == h[m]);
        },
        TreeValueV::GitSubmodule(id) => {
            assert(forall|m: int| 0 <= m < h.len() ==> sv[m] == h[m]);
        },
        TreeValueV::Conflict(id) => {
            assert(forall|m: int| 0 <= m < h.len() ==> sv[m] == h[m]);
        },
    }
    assert(b.subrange(i, i + h.len()) =~= h);
}

/// Scan one tagged tree value: sound and complete.
fn scan_value(b: &[u8], i: usize) -> (r: Option<(TreeValue, usize)>)
    requires
        i <= b@.len(),
    ensures
        r matches Some(t) ==> i < t.1 <= b@.len() && t.1 as int == i
            + ser_value(t.0@).len() && value_at(b@, i as int, t.0@),
        forall|v: TreeValueV| #![auto]
            value_at(b@, i as int, v) ==> r is Some,
{
    let file_head: Vec<u8> = vec![
        123u8, 34, 102, 105, 108, 101, 34, 58, 123, 34, 101, 120, 101, 99,
        117, 116, 97, 98, 108, 101, 34, 58,
    ];
    proof {
        assert(file_head@ =~= lit_file_head());
    }
    if let Some(j) = scan_lit(b, i, file_head.as_slice()) {
        return scan_file_value(b, i, j);
    }
    let sym_head: Vec<u8> = vec![
        123u8, 34, 115, 121, 109, 108, 105, 110, 107, 95, 105, 100, 34, 58, 34,
    ];
    proof {
        assert(sym_head@ =~= lit_symlink_head());
    }
    if let Some(t) = scan_tagged_id(b, i, sym_head.as_slice()) {
        let v = TreeValue::Symlink(SymlinkId::new(t.0));
        proof {
            assert(b@.subrange(i as int, t.1 as int) =~= ser_value(v@));
        }
        return Some((v, t.1));
    }
    let tree_head: Vec<u8> = vec![
        123u8, 34, 116, 114, 101, 101, 95, 105, 100, 34, 58, 34,
    ];
    proof {
        assert(tree_head@ =~= lit_tree_head());
    }
    if let Some(t) = scan_tagged_id(b, i, tree_head.as_slice()) {
        let v = TreeValue::Tree(TreeId::new(t.0));
        proof {
            assert(b@.subrange(i as int, t.1 as int) =~= ser_value(v@));
        }
        return Some((v, t.1));
    }
    let sub_head: Vec<u8> = vec![
        123u8, 34, 115, 117, 98, 109, 111, 100, 117, 108, 101, 95, 105, 100,
        34, 58, 34,
    ];
    proof {
        assert(sub_head@ =~= lit_submodule_head());
    }
    if let Some(t) = scan_tagged_id(b, i, sub_head.as_slice()) {
        let v = TreeValue::GitSubmodule(CommitId::new(t.0));
        proof {
            assert(b@.subrange(i as int, t.1 as int) =~= ser_value(v@));
        }
        return Some((v, t.1));
    }
    let conf_head: Vec<u8> = vec![
        123u8, 34, 99, 111, 110, 102, 108, 105, 99, 116, 95, 105, 100, 34,
        58, 34,
    ];
    proof {
        assert(conf_head@ =~= lit_conflict_head());
    }
    if let Some(t) = scan_tagged_id(b, i, conf_head.as_slice()) {
        let v = TreeValue::Conflict(ConflictId::new(t.0));
        proof {
            assert(b@.subrange(i as int, t.1 as int) =~= ser_value(v@));
        }
        return Some((v, t.1));
    }
    proof {
        assert forall|v: TreeValueV| #![auto]
            !value_at(b@, i as int, v) by {
            if value_at(b@, i as int, v) {
                match v {
                    TreeValueV::Normal { id, executable } => {
                        lemma_value_at_head(b@, i as int, v, lit_file_head());
                    },
                    TreeValueV::Symlink(id) => {
                        lemma_value_at_head(
                            b@,
                            i as int,
                            v,
                            lit_symlink_head(),
                        );
                        assert(tagged_at(
                            b@,
                            i as int,
                            lit_symlink_head(),
                            id,
                        )) by {
                            lemma_hex_bytes_digits(id);
                            assert(b@.subrange(
                                i as int,
                                i + ser_value(v).len(),
                            ) =~= lit_symlink_head() + hex_bytes(id)
                                + lit_quote_close());
                        }
                    },
                    TreeValueV::Tree(id) => {
                        lemma_value_at_head(b@, i as int, v, lit_tree_head());
                        assert(tagged_at(b@, i as int, lit_tree_head(), id))
                            by {
                            lemma_hex_bytes_digits(id);
                            assert(b@.subrange(
                                i as int,
                                i + ser_value(v).len(),
                            ) =~= lit_tree_head() + hex_bytes(id)
                                + lit_quote_close());
                        }
                    },
                    TreeValueV::GitSubmodule(id) => {
                        lemma_value_at_head(
                            b@,
                            i as int,
                            v,
                            lit_submodule_head(),
                        );
                        assert(tagged_at(
                            b@,
                            i as int,
                            lit_submodule_head(),
                            id,
                        )) by {
                            lemma_hex_bytes_digits(id);
                            assert(b@.subrange(
                                i as int,
                                i + ser_value(v).len(),
                            ) =~= lit_submodule_head() + hex_bytes(id)
                                + lit_quote_close());
                        }
                    },
                    TreeValueV::Conflict(id) => {
                        lemma_value_at_head(
                            b@,
                            i as int,
                            v,
                            lit_conflict_head(),
                        );
                        assert(tagged_at(
                            b@,
                            i as int,
                            lit_conflict_head(),
                            id,
                        )) by {
                            lemma_hex_bytes_digits(id);
                            assert(b@.subrange(
                                i as int,
                                i + ser_value(v).len(),
                            ) =~= lit_conflict_head() + hex_bytes(id)
                                + lit_quote_close());
                        }
                    },
                }
            }
        }
    }
    None
}

/// Scan the remainder of a file-tagged value, `j` sitting right after the
/// head literal.
#[verifier::rlimit(100)]
fn scan_file_value(b: &[u8], i: usize, j: usize) -> (r: Option<(TreeValue, usize)>)
    requires
        i <= b@.len(),
        j as int == i + lit_file_head().len(),
        j <= b@.len(),
        b@.subrange(i as int, j as int) == lit_file_head(),
    ensures
        r matches Some(t) ==> i < t.1 <= b@.len() && t.1 as int == i
            + ser_value(t.0@).len() && value_at(b@, i as int, t.0@),
        forall|v: TreeValueV| #![auto]
            value_at(b@, i as int, v) ==> r is Some,
{
    proof {
        lemma_file_heads_only(b@, i as int);
    }
    let lt: Vec<u8> = vec![116u8, 114, 117, 101];
    let lf: Vec<u8> = vec![102u8, 97, 108, 115, 101];
    proof {
        assert(lt@ =~= lit_true());
        assert(lf@ =~= lit_false());
    }
    let (executable, j2) = if let Some(j2) = scan_lit(b, j, lt.as_slice()) {
        (true, j2)
    } else if let Some(j2) = scan_lit(b, j, lf.as_slice()) {
        (false, j2)
    } else {
        proof {
            assert forall|v: TreeValueV| #![auto]
                !value_at(b@, i as int, v) by {
                if value_at(b@, i as int, v) {
                    match v {
                        TreeValueV::Normal { id, executable } => {
                            lemma_file_bool_at(b@, i as int, id, executable);
                        },
                        _ => {},
                    }
                }
            }
        }
        return None;
    };
    let ghost bl = if executable { lit_true() } else { lit_false() };
    let mid: Vec<u8> = vec![44u8, 34, 105, 100, 34, 58, 34];
    proof {
        assert(mid@ =~= lit_file_mid());
    }
    let j3 = match scan_lit(b, j2, mid.as_slice()) {
        Some(j3) => j3,
        None => {
            proof {
                assert forall|v: TreeValueV| #![auto]
                    !value_at(b@, i as int, v) by {
                    if value_at(b@, i as int, v) {
                        match v {
                            TreeValueV::Normal { id, executable } => {
                                lemma_file_bool_at(
                                    b@,
                                    i as int,
                                    id,
                                    executable,
                                );
                                lemma_file_pieces_at(
                                    b@,
                                    i as int,
                                    id,
                                    executable,
                                );
                            },
                            _ => {},
                        }
                    }
                }
            }
            return None;
        },
    };
    let (idv, j4) = match scan_hex_id(b, j3) {
        Some(t) => t,
        None => {
            proof {
                assert forall|v: TreeValueV| #![auto]
                    !value_at(b@, i as int, v) by {
                    if value_at(b@, i as int, v) {
                        match v {
                            TreeValueV::Normal { id, executable } => {
                                lemma_file_bool_at(
                                    b@,
                                    i as int,
                                    id,
                                    executable,
                                );
                                lemma_file_pieces_at(
                                    b@,
                                    i as int,
                                    id,
                                    executable,
                                );
                            },
                            _ => {},
                        }
                    }
                }
            }
            return None;
        },
    };
    let tail: Vec<u8> = vec![125u8, 125];
    let j5 = match scan_lit(b, j4, tail.as_slice()) {
        Some(j5) => j5,
        None => {
            proof {
                assert forall|v: TreeValueV| #![auto]
                    !value_at(b@, i as int, v) by {
                    if value_at(b@, i as int, v) {
                        match v {
                            TreeValueV::Normal { id, executable } => {
                                lemma_file_bool_at(
                                    b@,
                                    i as int,
                                    id,
                                    executable,
                                );
                                lemma_file_pieces_at(
                                    b@,
                                    i as int,
                                    id,
                                    executable,
                                );
                                lemma_hex_quote_at_unique(
                                    b@,
                                    j3 as int,
                                    id,
                                    idv@,
                                );
                                assert(b@.subrange(j4 as int, j4 + 2)
                                    =~= seq![125u8, 125]);
                            },
                            _ => {},
                        }
                    }
                }
            }
            return None;
        },
    };
    let v = TreeValue::Normal { id: FileId::new(idv), executable };
    proof {
        assert(b@.subrange(i as int, j5 as int) =~= ser_value(v@)) by {
            assert(b@.subrange(i as int, j5 as int) =~= b@.subrange(
                i as int,
                j as int,
            ) + b@.subrange(j as int, j2 as int) + b@.subrange(
                j2 as int,
                j3 as int,
            ) + b@.subrange(j3 as int, j4 as int) + b@.subrange(
                j4 as int,
                j5 as int,
            ));
            assert(b@.subrange(j as int, j2 as int) =~= bl);
            assert(b@.subrange(j2 as int, j3 as int) =~= lit_file_mid());
            assert(b@.subrange(j3 as int, j4 as int) =~= hex_bytes(idv@)
                + seq![34u8]);
            assert(b@.subrange(j4 as int, j5 as int) =~= seq![125u8, 125]);
            assert(lit_file_head() + bl + lit_file_mid() + (hex_bytes(idv@)
                + seq![34u8]) + seq![125u8, 125] =~= lit_file_head() + bl
                + lit_file_mid() + hex_bytes(idv@) + lit_quote_close2());
        }
    }
    Some((v, j5))
}

/// Under a file head at `i`, only a file value can occur there.
proof fn lemma_file_heads_only(b: Seq<u8>, i: int)
    requires
        0 <= i,
        i + lit_file_head().len() <= b.len(),
        b.subrange(i, i + lit_file_head().len()) == lit_file_head(),
    ensures
        forall|v: TreeValueV| #![auto]
            value_at(b, i, v) ==> v is Normal,
{
    assert forall|v: TreeValueV| #![auto]
        value_at(b, i, v) implies v is Normal by {
        if !(v is Normal) {
            let sv = ser_value(v);
            assert(b.subrange(i, i + sv.len())[2] == sv[2]);
            assert(b.subrange(i, i + lit_file_head().len())[2]
                == lit_file_head()[2]);
            assert(b.subrange(i, i + sv.len())[3] == sv[3]);
            assert(b.subrange(i, i + lit_file_head().len())[3]
                == lit_file_head()[3]);
            match v {
                TreeValueV::Symlink(id) => {
                    assert(sv[2] == lit_symlink_head()[2]);
                    assert(sv[3] == lit_symlink_head()[3]);
                },
                TreeValueV::Tree(id) => {
                    assert(sv[2] == lit_tree_head()[2]);
                },
                TreeValueV::GitSubmodule(id) => {
                    assert(sv[2] == lit_submodule_head()[2]);
                    assert(sv[3] == lit_submodule_head()[3]);
                },
                TreeValueV::Conflict(id) => {
                    assert(sv[2] == lit_conflict_head()[2]);
                },
                TreeValueV::Normal { id, executable } => {},
            }
        }
    }
}

/// Under `value_at` of a file value, its executable literal occurs right
/// after the head.
proof fn lemma_file_bool_at(b: Seq<u8>, i: int, id: Seq<u8>, e: bool)
    requires
        value_at(b, i, TreeValueV::Normal { id, executable: e }),
    ensures
        i + lit_file_head().len() + (if e { lit_true() } else { lit_false() }).len()
            <= b.len(),
        b.subrange(
            i + lit_file_head().len(),
            i + lit_file_head().len() + (if e { lit_true() } else { lit_false() }).len(),
        ) == if e { lit_true() } else { lit_false() },
{
    let v = TreeValueV::Normal { id, executable: e };
    let sv = ser_value(v);
    let bl = if e { lit_true() } else { lit_false() };
    let h = lit_file_head();
    assert(forall|m: int| 0 <= m < sv.len() ==> b.subrange(
        i,
        i + sv.len(),
    )[m] == sv[m]);
    assert(forall|m: int| 0 <= m < bl.len() ==> sv[h.len() + m] == bl[m]);
    assert(b.subrange(i + h.len(), i + h.len() + bl.len()) =~= bl);
}

/// Under `value_at` of a file value, the id-key literal and the hex
/// identifier occur after the executable literal.
proof fn lemma_file_pieces_at(b: Seq<u8>, i: int, id: Seq<u8>, e: bool)
    requires
        value_at(b, i, TreeValueV::Normal { id, executable: e }),
    ensures
        ({
            let p = i + lit_file_head().len() + (if e { lit_true() } else { lit_false() }).len();
            &&& p + lit_file_mid().len() + 2 * id.len() + 3 <= b.len()
            &&& b.subrange(p, p + lit_file_mid().len()) == lit_file_mid()
            &&& hex_quote_at(b, p + lit_file_mid().len(), id)
            &&& b.subrange(
                p + lit_file_mid().len() + 2 * id.len() + 1,
                p + lit_file_mid().len() + 2 * id.len() + 3,
            ) == seq![125u8, 125]
        }),
{
    let v = TreeValueV::Normal { id, executable: e };
    let sv = ser_value(v);
    let bl = if e { lit_true() } else { lit_false() };
    let h = lit_file_head();
    let p = i + h.len() + bl.len();
    lemma_hex_bytes_digits(id);
    assert(forall|m: int| 0 <= m < sv.len() ==> b.subrange(
        i,
        i + sv.len(),
    )[m] == sv[m]);
    assert(forall|m: int|
        0 <= m < lit_file_mid().len() ==> sv[h.len() + bl.len() + m]
            == lit_file_mid()[m]);
    assert(b.subrange(p, p + lit_file_mid().len()) =~= lit_file_mid());
    let q = p + lit_file_mid().len();
    assert(forall|m: int|
        0 <= m < 2 * id.len() + 1 ==> sv[h.len() + bl.len()
            + lit_file_mid().len() + m] == (hex_bytes(id) + seq![34u8])[m]);
    assert(b.subrange(q, q + 2 * id.len() + 1) =~= hex_bytes(id)
        + seq![34u8]);
    let o1: int = (h.len() + bl.len() + lit_file_mid().len() + 2 * id.len()
        + 1) as int;
    assert(sv[o1] == 125 && sv[o1 + 1] == 125) by {
        assert(sv[o1] == lit_quote_close2()[1]);
        assert(sv[o1 + 1] == lit_quote_close2()[2]);
    }
    assert(b[i + o1] == sv[o1]) by {
        assert(b.subrange(i, i + sv.len())[o1] == sv[o1]);
    }
    assert(b[i + o1 + 1] == sv[o1 + 1]) by {
        assert(b.subrange(i, i + sv.len())[o1 + 1] == sv[o1 + 1]);
    }
    assert(b.subrange(q + 2 * id.len() + 1, q + 2 * id.len() + 3)
        =~= seq![125u8, 125]);
}

/// A serialized part list, followed by a closing bracket, occurs at `i`.
pub open spec fn parts_at(b: Seq<u8>, i: int, l: Seq<TreeValueV>) -> bool {
    &&& 0 <= i
    &&& i + ser_parts(l).len() < b.len()
    &&& b.subrange(i, i + ser_parts(l).len()) == ser_parts(l)
    &&& b[i + ser_parts(l).len()] == 93
}

/// Only one value can occur at a position.
proof fn lemma_value_at_unique(b: Seq<u8>, i: int, v1: TreeValueV, v2: TreeValueV)
    requires
        value_at(b, i, v1),
        value_at(b, i, v2),
    ensures
        v1 == v2,
{
    let s1 = ser_value(v1) + b.skip(i + ser_value(v1).len());
    let s2 = ser_value(v2) + b.skip(i + ser_value(v2).len());
    assert(s1 =~= b.skip(i));
    assert(s2 =~= b.skip(i));
    lemma_ser_value_cancel(
        v1,
        b.skip(i + ser_value(v1).len()),
        v2,
        b.skip(i + ser_value(v2).len()),
    );
}

/// Only one bracket-terminated part list can occur at a position.
proof fn lemma_parts_at_unique(b: Seq<u8>, i: int, l1: Seq<TreeValueV>, l2: Seq<TreeValueV>)
    requires
        parts_at(b, i, l1),
        parts_at(b, i, l2),
    ensures
        l1 == l2,
{
    let x1 = b.skip(i + ser_parts(l1).len());
    let x2 = b.skip(i + ser_parts(l2).len());
    assert(ser_parts(l1) + x1 =~= b.skip(i));
    assert(ser_parts(l2) + x2 =~= b.skip(i));
    assert(x1[0] == 93 && x2[0] == 93);
    lemma_ser_parts_cancel(l1, x1, l2, x2);
}

/// Appending a value extends the comma-led remainder by one comma-led part.
proof fn lemma_ser_parts_rest_push(l: Seq<TreeValueV>, v: TreeValueV)
    ensures
        ser_parts_rest(l.push(v)) == ser_parts_rest(l) + seq![44u8]
            + ser_part(v),
    decreases l.len(),
{
    if l.len() == 0 {
        let t = l.push(v);
        assert(t.drop_first() =~= Seq::<TreeValueV>::empty());
        assert(ser_parts_rest(t.drop_first()).len() == 0);
        assert(ser_parts_rest(t) =~= ser_parts_rest(l) + seq![44u8]
            + ser_part(v));
    } else {
        let t = l.push(v);
        assert(t.drop_first() =~= l.drop_first().push(v));
        lemma_ser_parts_rest_push(l.drop_first(), v);
        assert(ser_parts_rest(t) == seq![44u8] + ser_part(t[0])
            + ser_parts_rest(t.drop_first()));
        assert(ser_parts_rest(l.push(v)) =~= ser_parts_rest(l) + seq![44u8]
            + ser_part(v));
    }
}

/// Appending a value extends a serialized part list by that part, led by a
/// comma unless it is the first.
proof fn lemma_ser_parts_push(l: Seq<TreeValueV>, v: TreeValueV)
    ensures
        ser_parts(l.push(v)) == ser_parts(l) + (if l.len() == 0 {
            Seq::<u8>::empty()
        } else {
            seq![44u8]
        }) + ser_part(v),
{
    if l.len() == 0 {
        let t = l.push(v);
        assert(t.drop_first() =~= Seq::<TreeValueV>::empty());
        assert(ser_parts_rest(t.drop_first()).len() == 0);
        assert(ser_parts(t) =~= ser_parts(l) + Seq::<u8>::empty()
            + ser_part(v));
    } else {
        let t = l.push(v);
        assert(t.drop_first() =~= l.drop_first().push(v));
        lemma_ser_parts_rest_push(l.drop_first(), v);
        assert(ser_parts(t) == ser_part(t[0]) + ser_parts_rest(
            t.drop_first(),
        ));
        assert(ser_parts(l.push(v)) =~= ser_parts(l) + seq![44u8]
            + ser_part(v));
    }
}

/// The position and pieces of part `m` within a serialized part list.
proof fn lemma_ser_parts_index(l: Seq<TreeValueV>, m: int)
    requires
        0 <= m < l.len(),
    ensures
        ser_parts(l) == ser_parts(l.take(m)) + (if m == 0 {
            Seq::<u8>::empty()
        } else {
            seq![44u8]
        }) + ser_part(l[m]) + ser_parts_rest(l.skip(m + 1)),
    decreases m,
{
    if m == 0 {
        assert(l.take(0).len() == 0);
        assert(ser_parts(l.take(0)).len() == 0);
        assert(l.drop_first() =~= l.skip(1));
        assert(ser_parts(l) == ser_part(l[0]) + ser_parts_rest(
            l.drop_first(),
        ));
        assert(ser_parts(l) =~= ser_parts(l.take(0)) + Seq::<u8>::empty()
            + ser_part(l[0]) + ser_parts_rest(l.skip(1)));
    } else {
        lemma_ser_parts_index(l, m - 1);
        assert(l.take(m) =~= l.take(m - 1).push(l[m - 1]));
        lemma_ser_parts_push(l.take(m - 1), l[m - 1]);
        // the remainder after part m-1 opens with a comma and part m
        let rest = l.skip(m);
        assert(rest.len() > 0 && rest[0] == l[m]);
        assert(ser_parts_rest(rest) == seq![44u8] + ser_part(l[m])
            + ser_parts_rest(rest.drop_first()));
        assert(rest.drop_first() =~= l.skip(m + 1));
        assert(ser_parts(l) =~= ser_parts(l.take(m)) + seq![44u8]
            + ser_part(l[m]) + ser_parts_rest(l.skip(m + 1)));
    }
}

/// Scan a part list up to (not consuming) the closing bracket: what is
/// returned occurs at `i`, and whatever bracket-terminated list occurs at
/// `i` is found.
#[verifier::rlimit(100)]
fn scan_parts(b: &[u8], i: usize) -> (r: Option<(Vec<ConflictPart>, usize)>)
    requires
        i <= b@.len(),
    ensures
        r matches Some(t) ==> i <= t.1 <= b@.len() && b@.subrange(
            i as int,
            t.1 as int,
        ) == ser_parts(crate::backend::parts_view(t.0@)),
        forall|l: Seq<TreeValueV>| #![auto]
            parts_at(b@, i as int, l) ==> (r matches Some(t)
                && crate::backend::parts_view(t.0@) == l && t.1 as int == i
                + ser_parts(l).len()),
{
    let ghost has = exists|l: Seq<TreeValueV>| parts_at(b@, i as int, l);
    let ghost wl: Seq<TreeValueV> = if has {
        choose|l: Seq<TreeValueV>| parts_at(b@, i as int, l)
    } else {
        Seq::empty()
    };
    let mut parts: Vec<ConflictPart> = Vec::new();
    if i < b.len() && b[i] == 93 {
        proof {
            assert(b@.subrange(i as int, i as int)
                =~= ser_parts(crate::backend::parts_view(parts@)));
            assert forall|l: Seq<TreeValueV>| #![auto]
                parts_at(b@, i as int, l) implies
                crate::backend::parts_view(parts@) == l && i as int == i
                + ser_parts(l).len() by {
                if l.len() > 0 {
                    assert(b@[i as int] == ser_parts(l)[0]);
                }
                assert(l =~= Seq::<TreeValueV>::empty());
                assert(crate::backend::parts_view(parts@) =~= l);
            }
        }
        return Some((parts, i));
    }
    proof {
        if has && wl.len() == 0 {
            assert(b@[i as int] == 93);
            assert(false);
        }
    }
    let mut j: usize = i;
    loop
        invariant
            i <= j <= b@.len(),
            b@.len() <= usize::MAX,
            has == exists|l: Seq<TreeValueV>| parts_at(b@, i as int, l),
            has ==> parts_at(b@, i as int, wl),
            b@.subrange(i as int, j as int) == ser_parts(
                crate::backend::parts_view(parts@),
            ) + (if parts@.len() == 0 {
                Seq::<u8>::empty()
            } else {
                seq![44u8]
            }),
            has ==> parts@.len() < wl.len(),
            has ==> crate::backend::parts_view(parts@) == wl.take(
                parts@.len() as int,
            ),
            has ==> j as int == i + ser_parts(wl.take(
                parts@.len() as int,
            )).len() + (if parts@.len() == 0 {
                0int
            } else {
                1int
            }),
        decreases b@.len() - j,
    {
        let ghost m = parts@.len() as int;
        proof {
            if has {
                lemma_ser_parts_index(wl, m);
            }
        }
        let part_head: Vec<u8> = vec![123u8, 34, 118, 97, 108, 117, 101, 34, 58];
        proof {
            assert(part_head@ =~= lit_part_head());
            if has {
                assert(b@.subrange(j as int, j + 9) =~= lit_part_head()) by {
                    let sp = ser_parts(wl);
                    assert(forall|n: int|
                        0 <= n < sp.len() ==> b@.subrange(
                            i as int,
                            i + sp.len(),
                        )[n] == sp[n]);
                    assert(forall|n: int|
                        0 <= n < 9 ==> sp[j - i + n] == lit_part_head()[n]);
                }
            }
        }
        let j2 = match scan_lit(b, j, part_head.as_slice()) {
            Some(j2) => j2,
            None => {
                proof {
                    if has {
                        assert(false);
                    }
                }
                return None;
            },
        };
        proof {
            if has {
                assert(value_at(b@, j2 as int, wl[m])) by {
                    let sp = ser_parts(wl);
                    let sv = ser_value(wl[m]);
                    assert(forall|n: int|
                        0 <= n < sp.len() ==> b@.subrange(
                            i as int,
                            i + sp.len(),
                        )[n] == sp[n]);
                    assert(forall|n: int|
                        0 <= n < sv.len() ==> sp[j2 - i + n] == sv[n]);
                    assert(b@.subrange(j2 as int, j2 + sv.len()) =~= sv);
                }
            }
        }
        let (value, j3) = match scan_value(b, j2) {
            Some(t) => t,
            None => {
                proof {
                    if has {
                        assert(false);
                    }
                }
                return None;
            },
        };
        proof {
            if has {
                lemma_value_at_unique(b@, j2 as int, value@, wl[m]);
            }
        }
        if j3 >= b.len() || b[j3] != 125 {
            proof {
                if has {
                    let sp = ser_parts(wl);
                    assert(forall|n: int|
                        0 <= n < sp.len() ==> b@.subrange(
                            i as int,
                            i + sp.len(),
                        )[n] == sp[n]);
                    assert(b@[j3 as int] == sp[j3 - i]);
                    assert(sp[j3 - i] == 125);
                    assert(false);
                }
            }
            return None;
        }
        let j4 = j3 + 1;
        let ghost old_parts = parts@;
        parts.push(ConflictPart { value });
        proof {
            assert(crate::backend::parts_view(parts@)
                =~= crate::backend::parts_view(old_parts).push(value@));
            lemma_ser_parts_push(
                crate::backend::parts_view(old_parts),
                value@,
            );
            assert(b@.subrange(i as int, j4 as int) =~= ser_parts(
                crate::backend::parts_view(parts@),
            )) by {
                assert(b@.subrange(i as int, j4 as int) =~= b@.subrange(
                    i as int,
                    j as int,
                ) + b@.subrange(j as int, j2 as int) + b@.subrange(
                    j2 as int,
                    j3 as int,
                ) + b@.subrange(j3 as int, j4 as int));
                assert(b@.subrange(j as int, j2 as int)
                    =~= lit_part_head());
                assert(b@.subrange(j3 as int, j4 as int) =~= seq![125u8]);
                assert(ser_parts(crate::backend::parts_view(old_parts))
                    + (if old_parts.len() == 0 {
                    Seq::<u8>::empty()
                } else {
                    seq![44u8]
                }) + (lit_part_head() + ser_value(value@) + seq![125u8])
                    =~= ser_parts(crate::backend::parts_view(parts@)));
            }
            if has {
                assert(crate::backend::parts_view(parts@) =~= wl.take(
                    m + 1,
                )) by {
                    assert(wl.take(m + 1) =~= wl.take(m).push(wl[m]));
                }
                assert(wl.take(m + 1) =~= wl.take(m).push(wl[m]));
                lemma_ser_parts_push(wl.take(m), wl[m]);
            }
        }
        if j4 < b.len() && b[j4] == 44 {
            proof {
                if has {
                    // a comma continues the list: part m was not the last
                    if m + 1 == wl.len() {
                        assert(wl.take(m + 1) =~= wl);
                        assert(b@[j4 as int] == 93);
                        assert(false);
                    }
                }
            }
            j = j4 + 1;
        } else {
            proof {
                if has {
                    if m + 1 < wl.len() {
                        let sp = ser_parts(wl);
                        lemma_ser_parts_index(wl, m + 1);
                        assert(forall|n: int|
                            0 <= n < sp.len() ==> b@.subrange(
                                i as int,
                                i + sp.len(),
                            )[n] == sp[n]);
                        assert(b@[j4 as int] == sp[j4 - i]);
                        assert(sp[j4 - i] == 44);
                        assert(j4 < b@.len());
                        assert(false);
                    }
                    assert(wl.take(m + 1) =~= wl);
                    assert forall|l: Seq<TreeValueV>| #![auto]
                        parts_at(b@, i as int, l) implies
                        crate::backend::parts_view(parts@) == l && j4 as int
                        == i + ser_parts(l).len() by {
                        lemma_parts_at_unique(b@, i as int, l, wl);
                    }
                }
            }
            return Some((parts, j4));
        }
    }
}

/// Decode a canonical conflict document: succeeds exactly on the canonical
/// serialization of a conflict value, and then returns that value.
#[verifier::rlimit(100)]
#[verifier::spinoff_prover]
pub fn conflict_from_bytes(b: &[u8]) -> (r: Option<Conflict>)
    ensures
        r matches Some(c) ==> b@ == ser_conflict(c@),
        (exists|c: ConflictV| b@ == ser_conflict(c)) ==> r is Some,
{
    let ghost has = exists|c: ConflictV| b@ == ser_conflict(c);
    let ghost wc: ConflictV = if has {
        choose|c: ConflictV| b@ == ser_conflict(c)
    } else {
        ConflictV { removes: Seq::empty(), adds: Seq::empty() }
    };
    proof {
        if has {
            lemma_conflict_shape(b@, wc);
        }
    }
    let head: Vec<u8> = vec![123u8, 34, 97, 100, 100, 115, 34, 58, 91];
    proof {
        assert(head@ =~= lit_doc_head());
    }
    let i = match scan_lit(b, 0, head.as_slice()) {
        Some(i) => i,
        None => {
            proof {
                if has {
                    assert(false);
                }
            }
            return None;
        },
    };
    let (adds, i2) = match scan_parts(b, i) {
        Some(t) => t,
        None => {
            proof {
                if has {
                    assert(false);
                }
            }
            return None;
        },
    };
    proof {
        if has {
            assert(parts_at(b@, i as int, wc.adds));
        }
    }
    let mid: Vec<u8> = vec![
        93u8, 44, 34, 114, 101, 109, 111, 118, 101, 115, 34, 58, 91,
    ];
    proof {
        assert(mid@ =~= lit_doc_mid());
    }
    let i3 = match scan_lit(b, i2, mid.as_slice()) {
        Some(i3) => i3,
        None => {
            proof {
                if has {
                    assert(false);
                }
            }
            return None;
        },
    };
    let (removes, i4) = match scan_parts(b, i3) {
        Some(t) => t,
        None => {
            proof {
                if has {
                    assert(false);
                }
            }
            return None;
        },
    };
    proof {
        if has {
            assert(parts_at(b@, i3 as int, wc.removes));
        }
    }
    let tail: Vec<u8> = vec![93u8, 125];
    proof {
        assert(tail@ =~= lit_doc_tail());
    }
    let i5 = match scan_lit(b, i4, tail.as_slice()) {
        Some(i5) => i5,
        None => {
            proof {
                if has {
                    assert(false);
                }
            }
            return None;
        },
    };
    if i5 != b.len() {
        proof {
            if has {
                assert(false);
            }
        }
        return None;
    }
    let candidate = Conflict { removes, adds };
    proof {
        assert(b@ =~= ser_conflict(candidate@)) by {
            assert(b@.subrange(0, b@.len() as int) =~= b@);
            assert(b@.subrange(0, i5 as int) =~= b@.subrange(0, i as int)
                + b@.subrange(i as int, i2 as int) + b@.subrange(
                i2 as int,
                i3 as int,
            ) + b@.subrange(i3 as int, i4 as int) + b@.subrange(
                i4 as int,
                i5 as int,
            ));
        }
    }
    Some(candidate)
}

/// Under a canonical document, its pieces occur at their positions.
proof fn lemma_conflict_shape(b: Seq<u8>, c: ConflictV)
    requires
        b == ser_conflict(c),
    ensures
        9 + ser_parts(c.adds).len() <= b.len(),
        b.subrange(0, 9) == lit_doc_head(),
        parts_at(b, 9, c.adds),
        ({
            let p: int = 9 + ser_parts(c.adds).len() as int;
            &&& p + 13 <= b.len()
            &&& b.subrange(p, p + 13) == lit_doc_mid()
            &&& parts_at(b, p + 13, c.removes)
            &&& b.subrange(
                p + 13 + ser_parts(c.removes).len() as int,
                b.len() as int,
            ) == lit_doc_tail()
            &&& b.len() == p + 13 + ser_parts(c.removes).len() + 2
        }),
{
    let pa = ser_parts(c.adds);
    let pr = ser_parts(c.removes);
    assert(b.subrange(0, 9) =~= lit_doc_head());
    assert(b.subrange(9, 9 + pa.len() as int) =~= pa);
    assert(b[9 + pa.len() as int] == 93);
    let p: int = 9 + pa.len() as int;
    assert(b.subrange(p, p + 13) =~= lit_doc_mid());
    assert(b.subrange(p + 13, p + 13 + pr.len() as int) =~= pr);
    assert(b[p + 13 + pr.len() as int] == 93);
    assert(b.subrange(p + 13 + pr.len() as int, b.len() as int)
        =~= lit_doc_tail());
}

// ---- the document determines the value ----

/// Equal concatenations with equally long prefixes have equal halves.
proof fn lemma_concat_cancel(a: Seq<u8>, x: Seq<u8>, b: Seq<u8>, y: Seq<u8>)
    requires
        a + x == b + y,
        a.len() == b.len(),
    ensures
        a == b,
        x == y,
{
    assert forall|i: int| 0 <= i < a.len() implies a[i] == b[i] by {
        assert((a + x)[i] == a[i]);
        assert((b + y)[i] == b[i]);
    }
    assert(a =~= b);
    assert((a + x).len() == a.len() + x.len());
    assert((b + y).len() == b.len() + y.len());
    assert(x.len() == y.len());
    assert forall|i: int| 0 <= i < x.len() implies x[i] == y[i] by {
        assert((a + x)[a.len() + i] == x[i]);
        assert((b + y)[b.len() + i] == y[i]);
    }
    assert(x =~= y);
}

/// Every byte of a hex identifier is a lowercase hex digit, so never a
/// quote.
proof fn lemma_hex_bytes_digits(id: Seq<u8>)
    ensures
        hex_bytes(id).len() == 2 * id.len(),
        forall|i: int|
            0 <= i < hex_bytes(id).len() ==> (48 <= #[trigger] hex_bytes(
                id,
            )[i] <= 57 || 97 <= hex_bytes(id)[i] <= 102),
    decreases id.len(),
{
    if id.len() > 0 {
        lemma_hex_bytes_digits(id.drop_first());
        assert(forall|i: int|
            2 <= i < hex_bytes(id).len() ==> #[trigger] hex_bytes(id)[i]
                == hex_bytes(id.drop_first())[i - 2]);
    }
}

/// A quote-terminated hex identifier is determined by the bytes: equal
/// encodings followed by anything mean equal identifiers and tails.
proof fn lemma_hex_quote_cancel(id1: Seq<u8>, x1: Seq<u8>, id2: Seq<u8>, x2: Seq<u8>)
    requires
        hex_bytes(id1) + seq![34u8] + x1 == hex_bytes(id2) + seq![34u8] + x2,
    ensures
        id1 == id2,
        x1 == x2,
    decreases id1.len(),
{
    lemma_hex_bytes_digits(id1);
    lemma_hex_bytes_digits(id2);
    let l = hex_bytes(id1) + seq![34u8] + x1;
    let r = hex_bytes(id2) + seq![34u8] + x2;
    if id1.len() == 0 {
        assert(l[0] == 34);
        if id2.len() > 0 {
            assert(r[0] == hex_bytes(id2)[0]);
            assert(false);
        }
        assert(id1 =~= id2);
        lemma_concat_cancel(seq![34u8], x1, seq![34u8], x2);
        assert(Seq::<u8>::empty() + seq![34u8] =~= seq![34u8]);
        assert(hex_bytes(id1) + seq![34u8] =~= seq![34u8]);
        assert(hex_bytes(id2) + seq![34u8] =~= seq![34u8]);
    } else {
        if id2.len() == 0 {
            assert(r[0] == 34);
            assert(l[0] == hex_bytes(id1)[0]);
            assert(false);
        }
        assert(l[0] == hex_digit_byte(id1[0] as int / 16));
        assert(l[1] == hex_digit_byte(id1[0] as int % 16));
        assert(r[0] == hex_digit_byte(id2[0] as int / 16));
        assert(r[1] == hex_digit_byte(id2[0] as int % 16));
        assert(l[0] == r[0] && l[1] == r[1]);
        assert(id1[0] as int / 16 == id2[0] as int / 16 && id1[0] as int % 16
            == id2[0] as int % 16);
        assert(id1[0] == id2[0]);
        let t1 = id1.drop_first();
        let t2 = id2.drop_first();
        assert(hex_bytes(id1) == hex_bytes_of_byte(id1[0]) + hex_bytes(t1));
        assert(hex_bytes(id2) == hex_bytes_of_byte(id2[0]) + hex_bytes(t2));
        let s1 = hex_bytes(t1) + seq![34u8] + x1;
        let s2 = hex_bytes(t2) + seq![34u8] + x2;
        assert(hex_bytes_of_byte(id1[0]) + s1 =~= l);
        assert(hex_bytes_of_byte(id2[0]) + s2 =~= r);
        lemma_concat_cancel(hex_bytes_of_byte(id1[0]), s1, hex_bytes_of_byte(id2[0]), s2);
        lemma_hex_quote_cancel(t1, x1, t2, x2);
        assert forall|i: int| 0 <= i < id1.len() implies id1[i] == id2[i] by {
            if i > 0 {
                assert(id1[i] == t1[i - 1]);
                assert(id2[i] == t2[i - 1]);
            }
        }
        assert(id1 =~= id2);
    }
}

/// The third and fourth bytes of a serialized value identify its variant.
proof fn lemma_ser_value_tags(v: TreeValueV)
    ensures
        ser_value(v).len() >= 4,
        ser_value(v)[2] == (match v {
            TreeValueV::Normal { id, executable } => 102u8,
            TreeValueV::Symlink(id) => 115u8,
            TreeValueV::Tree(id) => 116u8,
            TreeValueV::GitSubmodule(id) => 115u8,
            TreeValueV::Conflict(id) => 99u8,
        }),
        ser_value(v)[3] == (match v {
            TreeValueV::Normal { id, executable } => 105u8,
            TreeValueV::Symlink(id) => 121u8,
            TreeValueV::Tree(id) => 114u8,
            TreeValueV::GitSubmodule(id) => 117u8,
            TreeValueV::Conflict(id) => 111u8,
        }),
{
    match v {
        TreeValueV::Normal { id, executable } => {
            let b = if executable { lit_true() } else { lit_false() };
            assert(ser_value(v)[2] == lit_file_head()[2]);
            assert(ser_value(v)[3] == lit_file_head()[3]);
        },
        TreeValueV::Symlink(id) => {
            assert(ser_value(v)[2] == lit_symlink_head()[2]);
            assert(ser_value(v)[3] == lit_symlink_head()[3]);
        },
        TreeValueV::Tree(id) => {
            assert(ser_value(v)[2] == lit_tree_head()[2]);
            assert(ser_value(v)[3] == lit_tree_head()[3]);
        },
        TreeValueV::GitSubmodule(id) => {
            assert(ser_value(v)[2] == lit_submodule_head()[2]);
            assert(ser_value(v)[3] == lit_submodule_head()[3]);
        },
        TreeValueV::Conflict(id) => {
            assert(ser_value(v)[2] == lit_conflict_head()[2]);
            assert(ser_value(v)[3] == lit_conflict_head()[3]);
        },
    }
}

/// A serialized tree value is determined by the bytes: equal serializations
/// followed by anything mean equal values and tails.
#[verifier::rlimit(60)]
proof fn lemma_ser_value_cancel(v1: TreeValueV, x1: Seq<u8>, v2: TreeValueV, x2: Seq<u8>)
    requires
        ser_value(v1) + x1 == ser_value(v2) + x2,
    ensures
        v1 == v2,
        x1 == x2,
{
    let l = ser_value(v1) + x1;
    let r = ser_value(v2) + x2;
    lemma_ser_value_tags(v1);
    lemma_ser_value_tags(v2);
    assert(l[2] == ser_value(v1)[2] && l[3] == ser_value(v1)[3]);
    assert(r[2] == ser_value(v2)[2] && r[3] == ser_value(v2)[3]);
    match (v1, v2) {
        (
            TreeValueV::Normal { id: id1, executable: e1 },
            TreeValueV::Normal { id: id2, executable: e2 },
        ) => {
            let h = lit_file_head();
            let b1 = if e1 { lit_true() } else { lit_false() };
            let b2 = if e2 { lit_true() } else { lit_false() };
            assert(l[h.len() as int] == b1[0]) by {
                assert(ser_value(v1)[h.len() as int] == b1[0]);
            }
            assert(r[h.len() as int] == b2[0]) by {
                assert(ser_value(v2)[h.len() as int] == b2[0]);
            }
            assert(e1 == e2);
            let p1 = h + b1 + lit_file_mid();
            let p2 = h + b2 + lit_file_mid();
            let s1 = hex_bytes(id1) + seq![34u8] + (seq![125u8, 125] + x1);
            let s2 = hex_bytes(id2) + seq![34u8] + (seq![125u8, 125] + x2);
            assert(p1 + s1 =~= l);
            assert(p2 + s2 =~= r);
            lemma_concat_cancel(p1, s1, p2, s2);
            lemma_hex_quote_cancel(
                id1,
                seq![125u8, 125] + x1,
                id2,
                seq![125u8, 125] + x2,
            );
            lemma_concat_cancel(seq![125u8, 125], x1, seq![125u8, 125], x2);
        },
        (TreeValueV::Symlink(id1), TreeValueV::Symlink(id2)) => {
            lemma_tagged_id_cancel(lit_symlink_head(), id1, x1, id2, x2, l, r);
        },
        (TreeValueV::Tree(id1), TreeValueV::Tree(id2)) => {
            lemma_tagged_id_cancel(lit_tree_head(), id1, x1, id2, x2, l, r);
        },
        (TreeValueV::GitSubmodule(id1), TreeValueV::GitSubmodule(id2)) => {
            lemma_tagged_id_cancel(lit_submodule_head(), id1, x1, id2, x2, l, r);
        },
        (TreeValueV::Conflict(id1), TreeValueV::Conflict(id2)) => {
            lemma_tagged_id_cancel(lit_conflict_head(), id1, x1, id2, x2, l, r);
        },
        _ => {
            assert(false);
        },
    }
}

/// Shared cancellation for the four single-identifier variants.
proof fn lemma_tagged_id_cancel(
    h: Seq<u8>,
    id1: Seq<u8>,
    x1: Seq<u8>,
    id2: Seq<u8>,
    x2: Seq<u8>,
    l: Seq<u8>,
    r: Seq<u8>,
)
    requires
        l == h + hex_bytes(id1) + lit_quote_close() + x1,
        r == h + hex_bytes(id2) + lit_quote_close() + x2,
        l == r,
    ensures
        id1 == id2,
        x1 == x2,
{
    let s1 = hex_bytes(id1) + seq![34u8] + (seq![125u8] + x1);
    let s2 = hex_bytes(id2) + seq![34u8] + (seq![125u8] + x2);
    assert(h + s1 =~= l);
    assert(h + s2 =~= r);
    lemma_concat_cancel(h, s1, h, s2);
    lemma_hex_quote_cancel(id1, seq![125u8] + x1, id2, seq![125u8] + x2);
    lemma_concat_cancel(seq![125u8], x1, seq![125u8], x2);
}

/// A serialized part is determined by the bytes.
proof fn lemma_ser_part_cancel(v1: TreeValueV, x1: Seq<u8>, v2: TreeValueV, x2: Seq<u8>)
    requires
        ser_part(v1) + x1 == ser_part(v2) + x2,
    ensures
        v1 == v2,
        x1 == x2,
{
    let s1 = ser_value(v1) + (seq![125u8] + x1);
    let s2 = ser_value(v2) + (seq![125u8] + x2);
    assert(lit_part_head() + s1 =~= ser_part(v1) + x1);
    assert(lit_part_head() + s2 =~= ser_part(v2) + x2);
    lemma_concat_cancel(lit_part_head(), s1, lit_part_head(), s2);
    lemma_ser_value_cancel(v1, seq![125u8] + x1, v2, seq![125u8] + x2);
    lemma_concat_cancel(seq![125u8], x1, seq![125u8], x2);
}

/// A serialized part list followed by a closing bracket is determined by
/// the bytes.
#[verifier::rlimit(60)]
proof fn lemma_ser_parts_cancel(l1: Seq<TreeValueV>, x1: Seq<u8>, l2: Seq<TreeValueV>, x2: Seq<u8>)
    requires
        ser_parts(l1) + x1 == ser_parts(l2) + x2,
        x1.len() > 0 && x1[0] == 93,
        x2.len() > 0 && x2[0] == 93,
    ensures
        l1 == l2,
        x1 == x2,
    decreases l1.len(),
{
    if l1.len() == 0 && l2.len() == 0 {
        assert(l1 =~= l2);
        assert(Seq::<u8>::empty() + x1 =~= x1);
        assert(ser_parts(l1) + x1 =~= x1);
        assert(ser_parts(l2) + x2 =~= x2);
    } else if l1.len() == 0 {
        assert((ser_parts(l1) + x1)[0] == 93);
        assert((ser_parts(l2) + x2)[0] == lit_part_head()[0]);
        assert(false);
    } else if l2.len() == 0 {
        assert((ser_parts(l2) + x2)[0] == 93);
        assert((ser_parts(l1) + x1)[0] == lit_part_head()[0]);
        assert(false);
    } else {
        assert(ser_part(l1[0]) + (ser_parts_rest(l1.drop_first()) + x1)
            =~= ser_parts(l1) + x1);
        assert(ser_part(l2[0]) + (ser_parts_rest(l2.drop_first()) + x2)
            =~= ser_parts(l2) + x2);
        assert(x1.len() > 0 && x2.len() > 0);
        lemma_ser_part_cancel(
            l1[0],
            ser_parts_rest(l1.drop_first()) + x1,
            l2[0],
            ser_parts_rest(l2.drop_first()) + x2,
        );
        lemma_ser_parts_rest_cancel(
            l1.drop_first(),
            x1,
            l2.drop_first(),
            x2,
        );
        assert forall|i: int| 0 <= i < l1.len() implies l1[i] == l2[i] by {
            if i > 0 {
                assert(l1[i] == l1.drop_first()[i - 1]);
                assert(l2[i] == l2.drop_first()[i - 1]);
            }
        }
        assert(l1 =~= l2);
    }
}

/// The comma-led remainder of a part list followed by a closing bracket is
/// determined by the bytes.
#[verifier::rlimit(60)]
proof fn lemma_ser_parts_rest_cancel(l1: Seq<TreeValueV>, x1: Seq<u8>, l2: Seq<TreeValueV>, x2: Seq<u8>)
    requires
        ser_parts_rest(l1) + x1 == ser_parts_rest(l2) + x2,
        x1.len() > 0 && x1[0] == 93,
        x2.len() > 0 && x2[0] == 93,
    ensures
        l1 == l2,
        x1 == x2,
    decreases l1.len(),
{
    if l1.len() == 0 && l2.len() == 0 {
        assert(l1 =~= l2);
        assert(ser_parts_rest(l1) + x1 =~= x1);
        assert(ser_parts_rest(l2) + x2 =~= x2);
    } else if l1.len() == 0 {
        assert((ser_parts_rest(l1) + x1)[0] == 93);
        assert((ser_parts_rest(l2) + x2)[0] == 44);
        assert(false);
    } else if l2.len() == 0 {
        assert((ser_parts_rest(l2) + x2)[0] == 93);
        assert((ser_parts_rest(l1) + x1)[0] == 44);
        assert(false);
    } else {
        assert(seq![44u8] + (ser_part(l1[0]) + (ser_parts_rest(
            l1.drop_first(),
        ) + x1)) =~= ser_parts_rest(l1) + x1);
        assert(seq![44u8] + (ser_part(l2[0]) + (ser_parts_rest(
            l2.drop_first(),
        ) + x2)) =~= ser_parts_rest(l2) + x2);
        lemma_concat_cancel(
            seq![44u8],
            ser_part(l1[0]) + (ser_parts_rest(l1.drop_first()) + x1),
            seq![44u8],
            ser_part(l2[0]) + (ser_parts_rest(l2.drop_first()) + x2),
        );
        lemma_ser_part_cancel(
            l1[0],
            ser_parts_rest(l1.drop_first()) + x1,
            l2[0],
            ser_parts_rest(l2.drop_first()) + x2,
        );
        lemma_ser_parts_rest_cancel(
            l1.drop_first(),
            x1,
            l2.drop_first(),
            x2,
        );
        assert forall|i: int| 0 <= i < l1.len() implies l1[i] == l2[i] by {
            if i > 0 {
                assert(l1[i] == l1.drop_first()[i - 1]);
                assert(l2[i] == l2.drop_first()[i - 1]);
            }
        }
        assert(l1 =~= l2);
    }
}

/// Round trip of the conflict codec: the canonical document determines the
/// conflict value. `write_conflict` stores exactly `ser_conflict` of the
/// written value and `read_conflict` returns only a value whose canonical
/// document is the stored bytes, so reading back a written conflict —
/// nested conflicts included — yields the written value.
pub proof fn lemma_conflict_document_determines_value(c1: ConflictV, c2: ConflictV)
    requires
        ser_conflict(c1) == ser_conflict(c2),
    ensures
        c1 == c2,
{
    let m1 = lit_doc_mid() + ser_parts(c1.removes) + lit_doc_tail();
    let m2 = lit_doc_mid() + ser_parts(c2.removes) + lit_doc_tail();
    assert(lit_doc_head() + (ser_parts(c1.adds) + m1) =~= ser_conflict(c1));
    assert(lit_doc_head() + (ser_parts(c2.adds) + m2) =~= ser_conflict(c2));
    lemma_concat_cancel(
        lit_doc_head(),
        ser_parts(c1.adds) + m1,
        lit_doc_head(),
        ser_parts(c2.adds) + m2,
    );
    assert(m1[0] == 93 && m2[0] == 93);
    lemma_ser_parts_cancel(c1.adds, m1, c2.adds, m2);
    assert(lit_doc_mid() + (ser_parts(c1.removes) + lit_doc_tail()) =~= m1);
    assert(lit_doc_mid() + (ser_parts(c2.removes) + lit_doc_tail()) =~= m2);
    lemma_concat_cancel(
        lit_doc_mid(),
        ser_parts(c1.removes) + lit_doc_tail(),
        lit_doc_mid(),
        ser_parts(c2.removes) + lit_doc_tail(),
    );
    lemma_ser_parts_cancel(
        c1.removes,
        lit_doc_tail(),
        c2.removes,
        lit_doc_tail(),
    );
}

} // verus!
