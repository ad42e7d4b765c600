use vstd::prelude::*;
use crate::error::Error;
use crate::serial_value::{be_val, read_be};

verus! {

/// The four kinds of B-tree page.
#[derive(Clone, Copy, Debug, PartialEq, Eq, Structural)]
pub enum PageType {
    IndexInterior,
    TableInterior,
    IndexLeaf,
    TableLeaf,
}

/// The page type denoted by the first header byte.
pub open spec fn page_type_of(b: u8) -> Option<PageType> {
    if b == 0x02 {
        Some(PageType::IndexInterior)
    } else if b == 0x05 {
        Some(PageType::TableInterior)
    } else if b == 0x0a {
        Some(PageType::IndexLeaf)
    } else if b == 0x0d {
        Some(PageType::TableLeaf)
    } else {
        None
    }
}

/// Whether pages of type `t` carry a rightmost child pointer.
pub open spec fn is_interior(t: PageType) -> bool {
    t == PageType::IndexInterior || t == PageType::TableInterior
}

/// The byte length of a page header of type `t`: twelve bytes on interior
/// pages, eight on leaves.
pub open spec fn page_header_len(t: PageType) -> int {
    if is_interior(t) {
        12
    } else {
        8
    }
}

/// The big-endian 16-bit value at `db[pos..pos + 2]`.
pub open spec fn be16(db: Seq<u8>, pos: int) -> nat {
    be_val(db.subrange(pos, pos + 2))
}

/// The big-endian 32-bit value at `db[pos..pos + 4]`.
pub open spec fn be32(db: Seq<u8>, pos: int) -> nat {
    be_val(db.subrange(pos, pos + 4))
}

/// The header of one B-tree page.
#[derive(Clone, Copy, Debug, PartialEq, Eq, Structural)]
pub struct PageHeader {
    pub page_type: PageType,
    pub first_free_block: u16,
    pub cell_count: u16,
    pub cell_content_offset: u16,
    pub fragmented_free_bytes: u8,
    pub rightmost_pointer: Option<u32>,
}

/// The page header found at `db[pos..]`, or `None` on an unknown type byte
/// or a header cut short by the end of `db`.
pub open spec fn page_header_decode(db: Seq<u8>, pos: int) -> Option<PageHeader> {
    if pos < 0 || pos + 1 > db.len() {
        None
    } else {
        match page_type_of(db[pos]) {
            None => None,
            Some(t) => if pos + page_header_len(t) > db.len() {
                None
            } else {
                Some(
                    PageHeader {
                        page_type: t,
                        first_free_block: be16(db, pos + 1) as u16,
                        cell_count: be16(db, pos + 3) as u16,
                        cell_content_offset: be16(db, pos + 5) as u16,
                        fragmented_free_bytes: db[pos + 7],
                        rightmost_pointer: if is_interior(t) {
                            Some(be32(db, pos + 8) as u32)
                        } else {
                            None
                        },
                    },
                )
            },
        }
    }
}

impl PageHeader {
    /// Decode the page header at `bytes[pos..]`, returning it and the
    /// number of header bytes consumed.
    pub fn decode(bytes: &[u8], pos: usize) -> (r: Result<(PageHeader, usize), Error>)
        ensures
            match r {
                Ok((h, n)) => {
                    &&& page_header_decode(bytes@, pos as int) == Some(h)
                    &&& n == page_header_len(h.page_type)
                    &&& pos + n <= bytes@.len()
                    &&& h.rightmost_pointer is Some <==> is_interior(h.page_type)
                },
                Err(e) => page_header_decode(bytes@, pos as int) is None && e == Error::Decode,
            },
    {
        proof {
            vstd::arithmetic::power2::lemma2_to64();
        }
        if pos >= bytes.len() {
            return Err(Error::Decode);
        }
        let type_byte = bytes[pos];
        let page_type: PageType = match type_byte {
            0x02 => PageType::IndexInterior,
            0x05 => PageType::TableInterior,
            0x0a => PageType::IndexLeaf,
            0x0d => PageType::TableLeaf,
            _ => {
                return Err(Error::Decode);
            },
        };
        let header_len: usize = match page_type {
            PageType::TableInterior | PageType::IndexInterior => 12,
            PageType::IndexLeaf | PageType::TableLeaf => 8,
        };
        if header_len > bytes.len() - pos {
            return Err(Error::Decode);
        }
        let first_free_block = read_be(bytes, pos + 1, 2) as u16;
        let cell_count = read_be(bytes, pos + 3, 2) as u16;
        let cell_content_offset = read_be(bytes, pos + 5, 2) as u16;
        let fragmented_free_bytes = bytes[pos + 7];
        let rightmost_pointer: Option<u32> = match page_type {
            PageType::IndexInterior | PageType::TableInterior => Some(
                read_be(bytes, pos + 8, 4) as u32,
            ),
            PageType::IndexLeaf | PageType::TableLeaf => None,
        };
        Ok(
            (
                PageHeader {
                    page_type,
                    first_free_block,
                    cell_count,
                    cell_content_offset,
                    fragmented_free_bytes,
                    rightmost_pointer,
                },
                header_len,
            ),
        )
    }
}

/// The array of `n` big-endian cell pointers starting at `db[pos..]`.
pub open spec fn cell_ptrs(db: Seq<u8>, pos: int, n: nat) -> Seq<u16> {
    Seq::new(n, |i: int| be16(db, pos + 2 * i) as u16)
}

/// Read `cell_count` big-endian 16-bit cell pointers from `bytes[pos..]`.
/// Fails exactly when the array is cut short by the end of `bytes`.
pub fn read_cell_pointer(bytes: &[u8], pos: usize, cell_count: u16) -> (r: Result<Vec<u16>, Error>)
    ensures
        pos <= bytes@.len() && pos + 2 * (cell_count as int) <= bytes@.len() <==> r is Ok,
        match r {
            Ok(v) => v@ == cell_ptrs(bytes@, pos as int, cell_count as nat),
            Err(e) => e == Error::Decode,
        },
{
    proof {
        vstd::arithmetic::power2::lemma2_to64();
    }
    let len = bytes.len();
    if pos > len || 2 * (cell_count as usize) > len - pos {
        return Err(Error::Decode);
    }
    let mut v: Vec<u16> = Vec::new();
    let mut i: usize = 0;
    while i < cell_count as usize
        invariant
            i <= cell_count,
            len == bytes@.len(),
            pos + 2 * (cell_count as int) <= len,
            v@.len() == i,
            forall|j: int| 0 <= j < i ==> v@[j] == cell_ptrs(bytes@, pos as int, cell_count as nat)[j],
        decreases cell_count as usize - i,
    {
        proof {
            vstd::arithmetic::power2::lemma2_to64();
        }
        let p = read_be(bytes, pos + 2 * i, 2) as u16;
        v.push(p);
        i = i + 1;
    }
    proof {
        assert(v@ =~= cell_ptrs(bytes@, pos as int, cell_count as nat));
    }
    Ok(v)
}

/// A decoded B-tree page: its header and its cell pointer array.
#[derive(Clone, Debug)]
pub struct Page {
    pub header: PageHeader,
    pub cell_pointers: Vec<u16>,
}

/// The mathematical model of a decoded page.
pub struct PageM {
    pub header: PageHeader,
    pub cell_pointers: Seq<u16>,
}

impl View for Page {
    type V = PageM;

    open spec fn view(&self) -> PageM {
        PageM { header: self.header, cell_pointers: self.cell_pointers@ }
    }
}

/// The page found at `db[pos..]`: its header followed by `cell_count` cell
/// pointers.
pub open spec fn page_decode(db: Seq<u8>, pos: int) -> Option<PageM> {
    match page_header_decode(db, pos) {
        None => None,
        Some(h) => {
            let ptr_pos = pos + page_header_len(h.page_type);
            if ptr_pos + 2 * (h.cell_count as int) > db.len() {
                None
            } else {
                Some(PageM { header: h, cell_pointers: cell_ptrs(db, ptr_pos, h.cell_count as nat) })
            }
        },
    }
}

/// On every decoded page the cell pointer array has exactly `cell_count`
/// entries.
pub proof fn lemma_page_cell_count(db: Seq<u8>, pos: int)
    requires
        page_decode(db, pos) is Some,
    ensures
        page_decode(db, pos)->Some_0.cell_pointers.len()
            == page_decode(db, pos)->Some_0.header.cell_count,
{
}

impl Page {
    /// Decode the page at `bytes[pos..]`: its header, then its cell pointer
    /// array.
    pub fn decode(bytes: &[u8], pos: usize) -> (r: Result<Page, Error>)
        ensures
            match r {
                Ok(p) => {
                    &&& page_decode(bytes@, pos as int) == Some(p@)
                    &&& p@.cell_pointers.len() == p@.header.cell_count
                },
                Err(e) => page_decode(bytes@, pos as int) is None && e == Error::Decode,
            },
    {
        let len = bytes.len();
        let (header, hlen) = match PageHeader::decode(bytes, pos) {
            Ok(h) => h,
            Err(e) => {
                return Err(e);
            },
        };
        assert(pos + hlen <= len);
        let cell_pointers = match read_cell_pointer(bytes, pos + hlen, header.cell_count) {
            Ok(v) => v,
            Err(e) => {
                return Err(e);
            },
        };
        Ok(Page { header, cell_pointers })
    }
}

} // verus!
