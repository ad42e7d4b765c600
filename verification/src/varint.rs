use vstd::prelude::*;
use vstd::arithmetic::power2::{pow2, lemma_pow2_adds, lemma_pow2_strictly_increases, lemma2_to64};
use crate::error::Error;

verus! {

/// Length in bytes of the variable-length integer that starts at index `i`
/// of `s`: bytes continue while their high bit is set, capped at nine bytes,
/// the ninth byte always ending the encoding.
pub open spec fn varint_len_from(s: Seq<u8>, i: int) -> int
    decreases 8 - i,
{
    if i >= 8 {
        9
    } else if 0 <= i < s.len() && s[i] >= 128 {
        varint_len_from(s, i + 1)
    } else {
        i + 1
    }
}

/// Length in bytes of the variable-length integer at the start of `s`.
pub open spec fn varint_len(s: Seq<u8>) -> int {
    varint_len_from(s, 0)
}

/// Whether `s` begins with a complete variable-length integer.
pub open spec fn varint_ok(s: Seq<u8>) -> bool {
    varint_len(s) <= s.len()
}

/// Value accumulated from index `i` on, starting from accumulator `acc`:
/// each of the first eight bytes contributes its low seven bits, a ninth
/// byte contributes all eight of its bits.
pub open spec fn varint_val_from(s: Seq<u8>, i: int, acc: nat) -> nat
    decreases 8 - i,
{
    if i >= 8 {
        acc * 256 + (if 8 < s.len() { s[8] as nat } else { 0 })
    } else if 0 <= i < s.len() && s[i] >= 128 {
        varint_val_from(s, i + 1, acc * 128 + (s[i] - 128) as nat)
    } else if 0 <= i < s.len() {
        acc * 128 + s[i] as nat
    } else {
        0
    }
}

/// Value of the variable-length integer at the start of `s`.
pub open spec fn varint_val(s: Seq<u8>) -> nat {
    varint_val_from(s, 0, 0)
}

/// Whether a complete variable-length integer starts at `db[pos..]`.
pub open spec fn varint_ok_at(db: Seq<u8>, pos: int) -> bool {
    0 <= pos <= db.len() && varint_ok(db.skip(pos))
}

/// The value of the variable-length integer at `db[pos..]`.
pub open spec fn varint_val_at(db: Seq<u8>, pos: int) -> nat {
    varint_val(db.skip(pos))
}

/// The length in bytes of the variable-length integer at `db[pos..]`.
pub open spec fn varint_len_at(db: Seq<u8>, pos: int) -> int {
    varint_len(db.skip(pos))
}

/// A variable-length integer occupies between one and nine bytes.
pub proof fn lemma_varint_len_range(s: Seq<u8>)
    ensures
        1 <= varint_len(s) <= 9,
{
    lemma_varint_len_from_range(s, 0);
}

proof fn lemma_varint_len_from_range(s: Seq<u8>, i: int)
    requires
        0 <= i <= 8,
    ensures
        i + 1 <= varint_len_from(s, i) <= 9,
    decreases 8 - i,
{
    if i < 8 && 0 <= i < s.len() && s[i] >= 128 {
        lemma_varint_len_from_range(s, i + 1);
    }
}

/// Decode the variable-length integer found at `bytes[pos..]`.
///
/// Returns the decoded value together with the number of bytes consumed.
/// Fails exactly when the encoding is cut short by the end of `bytes`.
pub fn read_varint(bytes: &[u8], pos: usize) -> (r: Result<(u64, usize), Error>)
    ensures
        pos <= bytes@.len() && varint_ok(bytes@.skip(pos as int)) <==> r is Ok,
        (match r {
            Ok((v, n)) => {
                &&& v == varint_val(bytes@.skip(pos as int))
                &&& n == varint_len(bytes@.skip(pos as int))
                &&& 1 <= n <= 9
                &&& pos + n <= bytes@.len()
            },
            Err(e) => e == Error::Decode,
        }),
{
    if pos > bytes.len() {
        return Err(Error::Decode);
    }
    let ghost s = bytes@.skip(pos as int);
    let mut i: usize = 0;
    let mut acc: u64 = 0;
    proof {
        lemma2_to64();
    }
    loop
        invariant
            pos <= bytes@.len(),
            s == bytes@.skip(pos as int),
            0 <= i <= 8,
            acc < pow2((7 * i) as nat),
            varint_len(s) == varint_len_from(s, i as int),
            varint_val(s) == varint_val_from(s, i as int, acc as nat),
            forall|j: int| 0 <= j < i ==> 0 <= j < s.len() && s[j] >= 128,
        decreases 8 - i,
    {
        proof {
            lemma2_to64();
            lemma_pow2_adds((7 * i) as nat, 7);
            lemma_pow2_adds((7 * i) as nat, 8);
            if i < 8 {
                lemma_pow2_strictly_increases((7 * i + 7) as nat, 64);
            }
        }
        if i == 8 {
            if bytes.len() - pos <= 8 {
                return Err(Error::Decode);
            }
            let b = bytes[pos + 8];
            let v = acc * 256 + (b as u64);
            return Ok((v, 9));
        }
        if i >= bytes.len() - pos {
            return Err(Error::Decode);
        }
        let b = bytes[pos + i];
        if b >= 128 {
            acc = acc * 128 + ((b - 128) as u64);
            i = i + 1;
        } else {
            let v = acc * 128 + (b as u64);
            return Ok((v, i + 1));
        }
    }
}

} // verus!
