use vstd::prelude::*;
use crate::error::Error;
use crate::page::be16;
use crate::serial_value::read_be;

verus! {

/// The byte length of the database file header.
pub const DB_HEADER_SIZE: usize = 100;

/// The one field of the database header this engine consumes: the page
/// size, stored big-endian at byte offset 16.
#[derive(Clone, Copy, Debug, PartialEq, Eq, Structural)]
pub struct Dbheader {
    pub page_size: u16,
}

/// The database header at the start of `db`, or `None` when `db` is shorter
/// than the 100 header bytes.
pub open spec fn db_header_decode(db: Seq<u8>) -> Option<Dbheader> {
    if db.len() < 100 {
        None
    } else {
        Some(Dbheader { page_size: be16(db, 16) as u16 })
    }
}

impl Dbheader {
    /// Decode the database header from the first 100 bytes of `bytes`.
    /// Fails exactly when fewer than 100 bytes are given.
    pub fn parse(bytes: &[u8]) -> (r: Result<Dbheader, Error>)
        ensures
            match r {
                Ok(h) => db_header_decode(bytes@) == Some(h),
                Err(e) => db_header_decode(bytes@) is None && e == Error::Decode,
            },
    {
        if bytes.len() < 100 {
            return Err(Error::Decode);
        }
        let page_size = read_be(bytes, 16, 2) as u16;
        Ok(Dbheader { page_size })
    }
}

} // verus!
