use vstd::prelude::*;
use crate::error::Error;

verus! {

/// The storage class of one record column, as encoded by a serial-type code.
///
/// `Blob` and `Text` carry the payload length in bytes.
#[derive(Clone, Copy, Debug, PartialEq, Eq, Structural)]
pub enum SerialType {
    Null,
    Int8,
    Int16,
    Int24,
    Int32,
    Int48,
    Int64,
    Float64,
    Zero,
    One,
    Blob(usize),
    Text(usize),
}

/// The serial type denoted by code `code`: codes 0 through 9 name the fixed
/// variants, 10 and 11 are reserved, an even code of 12 or more is a blob of
/// `(code - 12) / 2` bytes, an odd code of 13 or more is a text of
/// `(code - 13) / 2` bytes.
pub open spec fn serial_type_of(code: nat) -> Option<SerialType> {
    if code == 0 {
        Some(SerialType::Null)
    } else if code == 1 {
        Some(SerialType::Int8)
    } else if code == 2 {
        Some(SerialType::Int16)
    } else if code == 3 {
        Some(SerialType::Int24)
    } else if code == 4 {
        Some(SerialType::Int32)
    } else if code == 5 {
        Some(SerialType::Int48)
    } else if code == 6 {
        Some(SerialType::Int64)
    } else if code == 7 {
        Some(SerialType::Float64)
    } else if code == 8 {
        Some(SerialType::Zero)
    } else if code == 9 {
        Some(SerialType::One)
    } else if code == 10 || code == 11 {
        None
    } else if ((code - 12) as nat) / 2 > usize::MAX as nat {
        None
    } else if code % 2 == 0 {
        Some(SerialType::Blob((((code - 12) as nat) / 2) as usize))
    } else {
        Some(SerialType::Text((((code - 13) as nat) / 2) as usize))
    }
}

/// The number of body bytes a value of serial type `t` occupies.
pub open spec fn serial_size(t: SerialType) -> nat {
    match t {
        SerialType::Null => 0,
        SerialType::Int8 => 1,
        SerialType::Int16 => 2,
        SerialType::Int24 => 3,
        SerialType::Int32 => 4,
        SerialType::Int48 => 6,
        SerialType::Int64 => 8,
        SerialType::Float64 => 8,
        SerialType::Zero => 0,
        SerialType::One => 0,
        SerialType::Blob(n) => n as nat,
        SerialType::Text(n) => n as nat,
    }
}

impl SerialType {
    /// The serial type encoded by `code`, or a decode error on the two
    /// reserved codes.
    pub fn decode(code: u64) -> (r: Result<SerialType, Error>)
        ensures
            match r {
                Ok(t) => serial_type_of(code as nat) == Some(t),
                Err(e) => serial_type_of(code as nat) is None && e == Error::Decode,
            },
    {
        match code {
            0 => Ok(SerialType::Null),
            1 => Ok(SerialType::Int8),
            2 => Ok(SerialType::Int16),
            3 => Ok(SerialType::Int24),
            4 => Ok(SerialType::Int32),
            5 => Ok(SerialType::Int48),
            6 => Ok(SerialType::Int64),
            7 => Ok(SerialType::Float64),
            8 => Ok(SerialType::Zero),
            9 => Ok(SerialType::One),
            10 | 11 => Err(Error::Decode),
            c => {
                let half = (c - 12) / 2;
                if half > usize::MAX as u64 {
                    Err(Error::Decode)
                } else if c % 2 == 0 {
                    Ok(SerialType::Blob(half as usize))
                } else {
                    proof {
                        assert((c - 13) as nat / 2 == (c - 12) as nat / 2);
                    }
                    Ok(SerialType::Text(half as usize))
                }
            },
        }
    }

    /// The number of body bytes a value of serial type `s` occupies: a
    /// pure function of the variant, with `Null`, `Zero` and `One`
    /// carrying no body at all.
    pub fn size(s: Self) -> (r: usize)
        ensures
            r == serial_size(s),
    {
        match s {
            SerialType::Int8 => 1,
            SerialType::Int16 => 2,
            SerialType::Int24 => 3,
            SerialType::Int32 => 4,
            SerialType::Int48 => 6,
            SerialType::Int64 => 8,
            SerialType::Float64 => 8,
            SerialType::Null | SerialType::Zero | SerialType::One => 0,
            SerialType::Blob(size) => size,
            SerialType::Text(size) => size,
        }
    }
}

} // verus!
