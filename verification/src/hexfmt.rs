//! Lowercase hex encoding and decoding of byte strings, used for the display
//! form of identifiers and for the identifiers embedded in serialized
//! conflict documents.

use vstd::prelude::*;
use vstd::string::StrSliceExecFns;
use vstd::string::StringExecFns;

verus! {

/// The lowercase hex digit for a value below 16.
pub open spec fn hex_digit_of(v: int) -> char {
    if v < 10 {
        (('0' as int) + v) as char
    } else {
        (('a' as int) + (v - 10)) as char
    }
}

/// The two lowercase hex digits of one byte, high digit first.
pub open spec fn hex_of_byte(b: u8) -> Seq<char> {
    seq![hex_digit_of(b as int / 16), hex_digit_of(b as int % 16)]
}

/// The lowercase hex form of a byte string: two digits per byte, in order.
pub open spec fn hex_of(bytes: Seq<u8>) -> Seq<char>
    decreases bytes.len(),
{
    if bytes.len() == 0 {
        Seq::empty()
    } else {
        hex_of_byte(bytes[0]) + hex_of(bytes.drop_first())
    }
}

/// The value of one hex digit, or `None` if the character is not a hex digit.
pub open spec fn hex_val_of(c: char) -> Option<u8> {
    if '0' <= c && c <= '9' {
        Some(((c as int) - ('0' as int)) as u8)
    } else if 'a' <= c && c <= 'f' {
        Some(((c as int) - ('a' as int) + 10) as u8)
    } else if 'A' <= c && c <= 'F' {
        Some(((c as int) - ('A' as int) + 10) as u8)
    } else {
        None
    }
}

/// Whether every character of `s` is a hex digit.
pub open spec fn is_hex_seq(s: Seq<char>) -> bool {
    forall|i: int| 0 <= i < s.len() ==> hex_val_of(s[i]) is Some
}

/// The bytes denoted by an even-length sequence of hex digits.
pub open spec fn bytes_of_hex(s: Seq<char>) -> Seq<u8>
    decreases s.len(),
{
    if s.len() < 2 {
        Seq::empty()
    } else {
        seq![
            (hex_val_of(s[0]).unwrap() * 16 + hex_val_of(s[1]).unwrap()) as u8
        ] + bytes_of_hex(s.skip(2))
    }
}

/// `hex_of` yields two digits per byte.
pub proof fn lemma_hex_of_len(bytes: Seq<u8>)
    ensures
        hex_of(bytes).len() == 2 * bytes.len(),
    decreases bytes.len(),
{
    if bytes.len() > 0 {
        lemma_hex_of_len(bytes.drop_first());
    }
}

/// Every character of a hex encoding is a hex digit, and decoding inverts
/// encoding.
pub proof fn lemma_hex_round_trip(bytes: Seq<u8>)
    ensures
        is_hex_seq(hex_of(bytes)),
        bytes_of_hex(hex_of(bytes)) == bytes,
    decreases bytes.len(),
{
    lemma_hex_of_len(bytes);
    if bytes.len() == 0 {
        assert(bytes_of_hex(hex_of(bytes)) =~= bytes);
    } else {
        let rest = bytes.drop_first();
        lemma_hex_round_trip(rest);
        lemma_hex_of_len(rest);
        let s = hex_of(bytes);
        assert(s[0] == hex_digit_of(bytes[0] as int / 16));
        assert(s[1] == hex_digit_of(bytes[0] as int % 16));
        assert(hex_val_of(s[0]) == Some((bytes[0] as int / 16) as u8));
        assert(hex_val_of(s[1]) == Some((bytes[0] as int % 16) as u8));
        assert(s.skip(2) =~= hex_of(rest));
        assert(forall|i: int|
            0 <= i < s.len() ==> hex_val_of(#[trigger] s[i]) is Some) by {
            assert(forall|i: int|
                2 <= i < s.len() ==> s[i] == hex_of(rest)[i - 2]);
        }
        assert(bytes_of_hex(s) =~= bytes);
    }
}

/// Encode a byte string as lowercase hex, two digits per byte.
pub fn hex_encode(bytes: &[u8]) -> (r: String)
    ensures
        r@ == hex_of(bytes@),
{
    let digits = "0123456789abcdef";
    proof {
        reveal_strlit("0123456789abcdef");
    }
    let mut out = String::new();
    let mut i: usize = 0;
    proof {
        assert(hex_of(bytes@.take(0)) =~= Seq::<char>::empty());
    }
    while i < bytes.len()
        invariant
            i <= bytes@.len(),
            out@ == hex_of(bytes@.take(i as int)),
            digits@.len() == 16,
            forall|v: int| 0 <= v < 16 ==> #[trigger] digits@[v] == hex_digit_of(v),
        decreases bytes@.len() - i,
    {
        let b = bytes[i];
        let hi = (b / 16) as usize;
        let lo = (b % 16) as usize;
        out.append(digits.substring_char(hi, hi + 1));
        out.append(digits.substring_char(lo, lo + 1));
        i = i + 1;
        proof {
            assert(digits@.subrange(hi as int, hi as int + 1)
                =~= seq![hex_digit_of(b as int / 16)]);
            assert(digits@.subrange(lo as int, lo as int + 1)
                =~= seq![hex_digit_of(b as int % 16)]);
            lemma_hex_of_take_step(bytes@, i as int);
        }
    }
    proof {
        assert(bytes@.take(bytes@.len() as int) =~= bytes@);
    }
    out
}

/// Taking one more byte extends the hex encoding by that byte's digits.
proof fn lemma_hex_of_take_step(bytes: Seq<u8>, i: int)
    requires
        1 <= i <= bytes.len(),
    ensures
        hex_of(bytes.take(i)) == hex_of(bytes.take(i - 1)) + hex_of_byte(
            bytes[i - 1],
        ),
    decreases i,
{
    if i == 1 {
        let t = bytes.take(1);
        assert(t.len() == 1 && t[0] == bytes[0]);
        assert(t.drop_first() =~= Seq::<u8>::empty());
        assert(hex_of(t.drop_first()).len() == 0);
        assert(hex_of(t) == hex_of_byte(t[0]) + hex_of(t.drop_first()));
        assert(hex_of(bytes.take(1)) =~= hex_of_byte(bytes[0]));
        assert(hex_of(bytes.take(0)) =~= Seq::<char>::empty());
        assert(hex_of(bytes.take(i)) =~= hex_of(bytes.take(i - 1))
            + hex_of_byte(bytes[i - 1]));
    } else {
        let t = bytes.take(i);
        let t1 = bytes.take(i - 1);
        lemma_hex_of_take_step(bytes.skip(1), i - 1);
        assert(t.drop_first() =~= bytes.skip(1).take(i - 1));
        assert(t1.drop_first() =~= bytes.skip(1).take(i - 2));
        assert(hex_of(t) == hex_of_byte(t[0]) + hex_of(t.drop_first()));
        assert(hex_of(bytes.take(i)) =~= hex_of(bytes.take(i - 1))
            + hex_of_byte(bytes[i - 1]));
    }
}

/// Decode one hex digit; `None` when the character is not a hex digit.
fn hex_val(c: char) -> (r: Option<u8>)
    ensures
        r == hex_val_of(c),
{
    let v = c as u32;
    if v >= '0' as u32 && v <= '9' as u32 {
        Some((v - '0' as u32) as u8)
    } else if v >= 'a' as u32 && v <= 'f' as u32 {
        Some((v - 'a' as u32 + 10) as u8)
    } else if v >= 'A' as u32 && v <= 'F' as u32 {
        Some((v - 'A' as u32 + 10) as u8)
    } else {
        None
    }
}

/// Decode an even-length hex string to bytes; `None` on odd length or on any
/// character that is not a hex digit.
pub fn hex_decode(s: &str) -> (r: Option<Vec<u8>>)
    ensures
        r is Some <==> (is_hex_seq(s@) && s@.len() % 2 == 0),
        r is Some ==> r.unwrap()@ == bytes_of_hex(s@),
{
    let n = s.unicode_len();
    if n % 2 != 0 {
        return None;
    }
    let mut out: Vec<u8> = Vec::new();
    let mut i: usize = 0;
    proof {
        assert(bytes_of_hex(s@.take(0)) =~= Seq::<u8>::empty());
    }
    while i < n
        invariant
            i <= n,
            i % 2 == 0,
            n % 2 == 0,
            n == s@.len(),
            out@ == bytes_of_hex(s@.take(i as int)),
            forall|j: int| 0 <= j < i ==> hex_val_of(#[trigger] s@[j]) is Some,
        decreases n - i,
    {
        let c0 = s.get_char(i);
        let c1 = s.get_char(i + 1);
        let v0 = match hex_val(c0) {
            Some(v) => v,
            None => { return None; },
        };
        let v1 = match hex_val(c1) {
            Some(v) => v,
            None => { return None; },
        };
        out.push(v0 * 16 + v1);
        i = i + 2;
        proof {
            lemma_bytes_of_hex_take_step(s@, i as int);
        }
    }
    proof {
        assert(s@.take(n as int) =~= s@);
    }
    Some(out)
}

/// Two more digits extend the decoded bytes by one byte.
proof fn lemma_bytes_of_hex_take_step(s: Seq<char>, i: int)
    requires
        2 <= i <= s.len(),
        i % 2 == 0,
        hex_val_of(s[i - 2]) is Some,
        hex_val_of(s[i - 1]) is Some,
    ensures
        bytes_of_hex(s.take(i)) == bytes_of_hex(s.take(i - 2)) + seq![
            (hex_val_of(s[i - 2]).unwrap() * 16 + hex_val_of(
                s[i - 1],
            ).unwrap()) as u8
        ],
    decreases i,
{
    if i == 2 {
        let t = s.take(2);
        assert(t.len() == 2 && t[0] == s[0] && t[1] == s[1]);
        assert(t.skip(2) =~= Seq::<char>::empty());
        assert(bytes_of_hex(t.skip(2)).len() == 0);
        assert(bytes_of_hex(t) == seq![
            (hex_val_of(t[0]).unwrap() * 16 + hex_val_of(t[1]).unwrap()) as u8
        ] + bytes_of_hex(t.skip(2)));
        assert(bytes_of_hex(s.take(0)) =~= Seq::<u8>::empty());
        assert(bytes_of_hex(s.take(i)) =~= bytes_of_hex(s.take(i - 2)) + seq![
            (hex_val_of(s[i - 2]).unwrap() * 16 + hex_val_of(
                s[i - 1],
            ).unwrap()) as u8
        ]);
    } else {
        let t = s.take(i);
        let t1 = s.take(i - 2);
        lemma_bytes_of_hex_take_step(s.skip(2), i - 2);
        assert(t.skip(2) =~= s.skip(2).take(i - 2));
        assert(t1.skip(2) =~= s.skip(2).take(i - 4));
        assert(bytes_of_hex(s.take(i)) =~= bytes_of_hex(s.take(i - 2)) + seq![
            (hex_val_of(s[i - 2]).unwrap() * 16 + hex_val_of(
                s[i - 1],
            ).unwrap()) as u8
        ]);
    }
}

} // verus!
