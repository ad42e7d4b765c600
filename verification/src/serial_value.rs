use vstd::prelude::*;
use vstd::arithmetic::power2::{pow2, lemma_pow2_adds, lemma_pow2_strictly_increases, lemma2_to64, lemma2_to64_rest};
use vstd::slice::slice_to_vec;
use vstd::utf8::{valid_utf8, decode_utf8};
use crate::error::Error;
use crate::serial_type::{SerialType, serial_size};
use crate::text::utf8_to_string;

verus! {

/// A decoded column value.
///
/// A stored 64-bit float is carried as its raw IEEE-754 bit pattern: the
/// verified core never performs floating-point arithmetic itself.
#[derive(Clone, Debug, PartialEq)]
pub enum SerialValue {
    Null,
    Int(i64),
    Float(u64),
    Text(String),
    Blob(Vec<u8>),
}

/// The mathematical model of a column value.
pub enum ValM {
    Null,
    Int(int),
    Float(u64),
    Text(Seq<char>),
    Blob(Seq<u8>),
}

impl View for SerialValue {
    type V = ValM;

    open spec fn view(&self) -> ValM {
        match self {
            SerialValue::Null => ValM::Null,
            SerialValue::Int(v) => ValM::Int(*v as int),
            SerialValue::Float(bits) => ValM::Float(*bits),
            SerialValue::Text(s) => ValM::Text(s@),
            SerialValue::Blob(b) => ValM::Blob(b@),
        }
    }
}

/// The value of `s` read as a big-endian unsigned integer.
pub open spec fn be_val(s: Seq<u8>) -> nat
    decreases s.len(),
{
    if s.len() == 0 {
        0
    } else {
        be_val(s.drop_last()) * 256 + s.last() as nat
    }
}

/// The value of `s` read as a big-endian two's-complement signed integer:
/// the most significant bit of the first byte is the sign bit.
pub open spec fn int_sign_extend(s: Seq<u8>) -> int {
    if s.len() > 0 && s[0] >= 128 {
        be_val(s) - pow2((8 * s.len()) as nat)
    } else {
        be_val(s) as int
    }
}

/// `be_val(s)` fits in `8 * s.len()` bits.
pub proof fn lemma_be_val_bound(s: Seq<u8>)
    ensures
        be_val(s) < pow2((8 * s.len()) as nat),
    decreases s.len(),
{
    lemma2_to64();
    if s.len() > 0 {
        lemma_be_val_bound(s.drop_last());
        lemma_pow2_adds((8 * (s.len() - 1)) as nat, 8);
    }
}

/// The value of serial type `t` whose body lies at `db[pos..]`, or `None`
/// when the body is cut short by the end of `db` or a text body is not
/// valid UTF-8.
pub open spec fn value_decode(db: Seq<u8>, pos: int, t: SerialType) -> Option<ValM> {
    if pos < 0 || pos + serial_size(t) > db.len() {
        None
    } else {
        let body = db.subrange(pos, pos + serial_size(t));
        match t {
            SerialType::Null => Some(ValM::Null),
            SerialType::Zero => Some(ValM::Int(0)),
            SerialType::One => Some(ValM::Int(1)),
            SerialType::Float64 => Some(ValM::Float(be_val(body) as u64)),
            SerialType::Blob(_) => Some(ValM::Blob(body)),
            SerialType::Text(_) => if valid_utf8(body) {
                Some(ValM::Text(decode_utf8(body)))
            } else {
                None
            },
            _ => Some(ValM::Int(int_sign_extend(body))),
        }
    }
}

/// Read the big-endian unsigned value of `bytes[pos..pos + n]`.
pub(crate) fn read_be(bytes: &[u8], pos: usize, n: usize) -> (r: u64)
    requires
        n <= 8,
        pos + n <= bytes@.len(),
    ensures
        r == be_val(bytes@.subrange(pos as int, pos + n)),
        r < pow2((8 * n) as nat),
{
    let ghost seg = bytes@.subrange(pos as int, pos + n);
    let len = bytes.len();
    let mut raw: u64 = 0;
    let mut k: usize = 0;
    proof {
        lemma2_to64();
        lemma2_to64_rest();
        assert(seg.take(0) =~= Seq::<u8>::empty());
    }
    while k < n
        invariant
            k <= n <= 8,
            len == bytes@.len(),
            pos + n <= len,
            seg == bytes@.subrange(pos as int, pos + n),
            raw == be_val(seg.take(k as int)),
            raw < pow2((8 * k) as nat),
        decreases n - k,
    {
        proof {
            lemma2_to64();
            lemma2_to64_rest();
            lemma_pow2_adds((8 * k) as nat, 8);
            if k < 7 {
                lemma_pow2_strictly_increases((8 * k + 8) as nat, 64);
            }
        }
        let b = bytes[pos + k];
        raw = raw * 256 + (b as u64);
        proof {
            let t = seg.take(k + 1);
            assert(t.drop_last() =~= seg.take(k as int));
            assert(t.last() == seg[k as int]);
        }
        k = k + 1;
    }
    proof {
        assert(seg.take(n as int) =~= seg);
    }
    raw
}

/// `pow2(8 * n)` for small `n`, as a machine integer.
fn pow256(n: usize) -> (r: u64)
    requires
        1 <= n <= 6,
    ensures
        r == pow2((8 * n) as nat),
{
    proof {
        lemma2_to64();
        lemma2_to64_rest();
    }
    match n {
        1 => 0x100,
        2 => 0x10000,
        3 => 0x1000000,
        4 => 0x100000000,
        5 => 0x10000000000,
        _ => 0x1000000000000,
    }
}

/// Decode the body of a value of serial type `serial_type` from
/// `bytes[pos..]`, returning the value and the number of body bytes
/// consumed.  Integer variants are sign-extended from their big-endian
/// representation; a text body must be valid UTF-8.  Fails exactly when the
/// body is truncated or a text body is not valid UTF-8.
pub fn parse_value(bytes: &[u8], pos: usize, serial_type: SerialType) -> (r: Result<
    (SerialValue, usize),
    Error,
>)
    ensures
        match r {
            Ok((v, n)) => {
                &&& value_decode(bytes@, pos as int, serial_type) == Some(v@)
                &&& n == serial_size(serial_type)
                &&& pos + n <= bytes@.len()
            },
            Err(e) => value_decode(bytes@, pos as int, serial_type) is None && e == Error::Decode,
        },
{
    let n: usize = match serial_type {
        SerialType::Null | SerialType::Zero | SerialType::One => 0,
        _ => SerialType::size(serial_type),
    };
    if pos > bytes.len() || n > bytes.len() - pos {
        return Err(Error::Decode);
    }
    let ghost body = bytes@.subrange(pos as int, pos + n);
    match serial_type {
        SerialType::Null => Ok((SerialValue::Null, 0)),
        SerialType::Zero => Ok((SerialValue::Int(0), 0)),
        SerialType::One => Ok((SerialValue::Int(1), 0)),
        SerialType::Float64 => {
            let raw = read_be(bytes, pos, 8);
            Ok((SerialValue::Float(raw), 8))
        },
        SerialType::Blob(_) => {
            let body_vec: Vec<u8> = slice_to_vec(&bytes[pos..pos + n]);
            Ok((SerialValue::Blob(body_vec), n))
        },
        SerialType::Text(_) => {
            let body_vec: Vec<u8> = slice_to_vec(&bytes[pos..pos + n]);
            match utf8_to_string(body_vec) {
                Ok(s) => Ok((SerialValue::Text(s), n)),
                Err(e) => Err(e),
            }
        },
        _ => {
            let raw = read_be(bytes, pos, n);
            proof {
                lemma2_to64();
                lemma2_to64_rest();
                if n < 8 {
                    lemma_pow2_strictly_increases((8 * n) as nat, 63);
                }
            }
            if bytes[pos] >= 128 {
                // a negative value: subtract 2^(8 n)
                if n == 8 {
                    proof {
                        assert(body[0] == bytes@[pos as int]);
                        assert(be_val(body) >= pow2(56) * 128) by {
                            lemma_be_lower_bound(body);
                        }
                        lemma_pow2_adds(56, 7);
                        lemma_pow2_adds(63, 1);
                    }
                    let mag = (u64::MAX - raw) + 1;
                    if mag == 0x8000000000000000 {
                        Ok((SerialValue::Int(i64::MIN), 8))
                    } else {
                        Ok((SerialValue::Int(-(mag as i64)), 8))
                    }
                } else {
                    proof {
                        assert(body[0] == bytes@[pos as int]);
                        assert(be_val(body) >= pow2((8 * (n - 1)) as nat) * 128) by {
                            lemma_be_lower_bound(body);
                        }
                        lemma_pow2_adds((8 * (n - 1)) as nat, 7);
                        lemma_pow2_adds((8 * (n - 1)) as nat, 8);
                    }
                    let mag = pow256(n) - raw;
                    Ok((SerialValue::Int(-(mag as i64)), n))
                }
            } else {
                proof {
                    assert(body[0] == bytes@[pos as int]);
                    if n == 8 {
                        lemma_be_upper_bound(body);
                        lemma_pow2_adds(56, 7);
                    }
                }
                Ok((SerialValue::Int(raw as i64), n))
            }
        },
    }
}

/// When the first byte of `s` is at least 128, `be_val(s)` is at least
/// `128 * 2^(8 (len - 1))`.
proof fn lemma_be_lower_bound(s: Seq<u8>)
    requires
        s.len() >= 1,
        s[0] >= 128,
    ensures
        be_val(s) >= pow2((8 * (s.len() - 1)) as nat) * 128,
    decreases s.len(),
{
    lemma2_to64();
    if s.len() == 1 {
        assert(be_val(s) == be_val(s.drop_last()) * 256 + s.last() as nat);
        assert(s.drop_last().len() == 0);
    } else {
        lemma_be_lower_bound(s.drop_last());
        lemma_pow2_adds((8 * (s.len() - 2)) as nat, 8);
        vstd::arithmetic::mul::lemma_mul_inequality(
            pow2((8 * (s.len() - 2)) as nat) as int * 128,
            be_val(s.drop_last()) as int,
            256,
        );
        vstd::arithmetic::mul::lemma_mul_is_associative(
            pow2((8 * (s.len() - 2)) as nat) as int,
            128,
            256,
        );
        assert(pow2((8 * (s.len() - 2)) as nat) * 256 == pow2((8 * (s.len() - 1)) as nat));
        vstd::arithmetic::mul::lemma_mul_is_commutative(
            pow2((8 * (s.len() - 2)) as nat) as int,
            256,
        );
    }
}

/// When the first byte of `s` is below 128, `be_val(s)` is below
/// `128 * 2^(8 (len - 1))`.
proof fn lemma_be_upper_bound(s: Seq<u8>)
    requires
        s.len() >= 1,
        s[0] < 128,
    ensures
        be_val(s) < pow2((8 * (s.len() - 1)) as nat) * 128,
    decreases s.len(),
{
    lemma2_to64();
    if s.len() == 1 {
        assert(s.drop_last().len() == 0);
    } else {
        lemma_be_upper_bound(s.drop_last());
        lemma_pow2_adds((8 * (s.len() - 2)) as nat, 8);
        vstd::arithmetic::mul::lemma_mul_inequality(
            be_val(s.drop_last()) as int + 1,
            pow2((8 * (s.len() - 2)) as nat) as int * 128,
            256,
        );
        vstd::arithmetic::mul::lemma_mul_is_associative(
            pow2((8 * (s.len() - 2)) as nat) as int,
            128,
            256,
        );
        vstd::arithmetic::mul::lemma_mul_is_commutative(
            pow2((8 * (s.len() - 2)) as nat) as int,
            256,
        );
        assert(pow2((8 * (s.len() - 2)) as nat) * 256 == pow2((8 * (s.len() - 1)) as nat));
    }
}

} // verus!
