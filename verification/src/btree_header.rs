use vstd::prelude::*;
use crate::error::Error;
use crate::page::{Page, PageHeader, PageType, page_decode, page_header_decode, page_header_len};

verus! {

/// The four kinds of B-tree page, under their older names.
#[derive(Clone, Copy, Debug, PartialEq, Eq, Structural)]
pub enum BTreePageType {
    InteriorIndex,
    InteriorTable,
    LeafIndex,
    LeafTable,
}

/// The older name of page type `t`.
pub open spec fn legacy_page_type(t: PageType) -> BTreePageType {
    match t {
        PageType::IndexInterior => BTreePageType::InteriorIndex,
        PageType::TableInterior => BTreePageType::InteriorTable,
        PageType::IndexLeaf => BTreePageType::LeafIndex,
        PageType::TableLeaf => BTreePageType::LeafTable,
    }
}

/// The header of one B-tree page, under its older field layout.
#[derive(Clone, Copy, Debug, PartialEq, Eq, Structural)]
pub struct BTreeHeader {
    pub page_type: BTreePageType,
    pub first_free_block: u16,
    pub cell_count: u16,
    pub cell_content_offset: u16,
    pub fragmented_free_bytes: u8,
    pub rightmost_pointer: Option<u32>,
}

/// The older presentation of page header `h`.
pub open spec fn legacy_header(h: PageHeader) -> BTreeHeader {
    BTreeHeader {
        page_type: legacy_page_type(h.page_type),
        first_free_block: h.first_free_block,
        cell_count: h.cell_count,
        cell_content_offset: h.cell_content_offset,
        fragmented_free_bytes: h.fragmented_free_bytes,
        rightmost_pointer: h.rightmost_pointer,
    }
}

/// Turn a page type into its older name.
fn to_legacy_type(t: PageType) -> (r: BTreePageType)
    ensures
        r == legacy_page_type(t),
{
    match t {
        PageType::IndexInterior => BTreePageType::InteriorIndex,
        PageType::TableInterior => BTreePageType::InteriorTable,
        PageType::IndexLeaf => BTreePageType::LeafIndex,
        PageType::TableLeaf => BTreePageType::LeafTable,
    }
}

impl BTreeHeader {
    /// Decode the page header at `bytes[pos..]`, returning it and the
    /// number of header bytes consumed.
    pub fn parse(bytes: &[u8], pos: usize) -> (r: Result<(BTreeHeader, usize), Error>)
        ensures
            match r {
                Ok((h, n)) => {
                    &&& page_header_decode(bytes@, pos as int) matches Some(ph)
                        && h == legacy_header(ph)
                    &&& page_header_decode(bytes@, pos as int) matches Some(ph)
                        && n == page_header_len(ph.page_type)
                },
                Err(e) => page_header_decode(bytes@, pos as int) is None && e == Error::Decode,
            },
    {
        match PageHeader::decode(bytes, pos) {
            Ok((h, n)) => Ok(
                (
                    BTreeHeader {
                        page_type: to_legacy_type(h.page_type),
                        first_free_block: h.first_free_block,
                        cell_count: h.cell_count,
                        cell_content_offset: h.cell_content_offset,
                        fragmented_free_bytes: h.fragmented_free_bytes,
                        rightmost_pointer: h.rightmost_pointer,
                    },
                    n,
                ),
            ),
            Err(e) => Err(e),
        }
    }
}

/// A decoded B-tree page, under its older field layout.
#[derive(Clone, Debug)]
pub struct BTreePage {
    pub header: BTreeHeader,
    pub cell_pointers: Vec<u16>,
}

impl BTreePage {
    /// Decode the page at `bytes[pos..]`: its header, then its cell pointer
    /// array.
    pub fn parse(bytes: &[u8], pos: usize) -> (r: Result<BTreePage, Error>)
        ensures
            match r {
                Ok(p) => {
                    &&& page_decode(bytes@, pos as int) matches Some(pm)
                        && p.header == legacy_header(pm.header)
                        && p.cell_pointers@ == pm.cell_pointers
                    &&& p.cell_pointers@.len() == p.header.cell_count
                },
                Err(e) => page_decode(bytes@, pos as int) is None && e == Error::Decode,
            },
    {
        match Page::decode(bytes, pos) {
            Ok(p) => Ok(
                BTreePage {
                    header: BTreeHeader {
                        page_type: to_legacy_type(p.header.page_type),
                        first_free_block: p.header.first_free_block,
                        cell_count: p.header.cell_count,
                        cell_content_offset: p.header.cell_content_offset,
                        fragmented_free_bytes: p.header.fragmented_free_bytes,
                        rightmost_pointer: p.header.rightmost_pointer,
                    },
                    cell_pointers: p.cell_pointers,
                },
            ),
            Err(e) => Err(e),
        }
    }
}

} // verus!
