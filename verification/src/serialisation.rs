use vstd::prelude::*;
use crate::btree_header::BTreeHeader;
use crate::db_header::Dbheader;
use crate::error::Error;
use crate::page::{Page, PageHeader, PageType};

verus! {

/// A type that can be decoded from a byte position of a buffer, returning
/// the decoded value and the number of bytes consumed.
///
/// The trait itself carries no contract; every implementation forwards to
/// an inherent decoding function whose contract states the exact bytes
/// consumed and the value produced.  Verified callers use those inherent
/// functions directly — nothing in the library calls through the trait,
/// which exists for callers outside it that want one decoding entry
/// point per type.
pub trait Deserialize: Sized {
    fn deserialize(bytes: &[u8], pos: usize) -> Result<(Self, usize), Error>;
}

impl Deserialize for Dbheader {
    fn deserialize(bytes: &[u8], pos: usize) -> Result<(Self, usize), Error> {
        if pos != 0 {
            return Err(Error::Decode);
        }
        match Dbheader::parse(bytes) {
            Ok(h) => Ok((h, 100)),
            Err(e) => Err(e),
        }
    }
}

impl Deserialize for PageHeader {
    fn deserialize(bytes: &[u8], pos: usize) -> Result<(Self, usize), Error> {
        PageHeader::decode(bytes, pos)
    }
}

impl Deserialize for BTreeHeader {
    fn deserialize(bytes: &[u8], pos: usize) -> Result<(Self, usize), Error> {
        BTreeHeader::parse(bytes, pos)
    }
}

impl Deserialize for Page {
    fn deserialize(bytes: &[u8], pos: usize) -> Result<(Self, usize), Error> {
        match Page::decode(bytes, pos) {
            Ok(p) => {
                let hlen: usize = match p.header.page_type {
                    PageType::TableInterior | PageType::IndexInterior => 12,
                    PageType::TableLeaf | PageType::IndexLeaf => 8,
                };
                let consumed = hlen + 2 * (p.header.cell_count as usize);
                Ok((p, consumed))
            },
            Err(e) => Err(e),
        }
    }
}

} // verus!
