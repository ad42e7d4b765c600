use vstd::prelude::*;
use crate::error::Error;
use crate::page::be32;
use crate::record::{Record, RecordM, record_decode};
use crate::serial_value::{ValM, read_be};
use crate::serialisation::Deserialize;
use crate::varint::{read_varint, varint_ok_at, varint_val_at, varint_len_at};

verus! {

/// The two varints that precede a table-leaf record: the payload size and
/// the row id.
#[derive(Clone, Copy, Debug, PartialEq, Eq, Structural)]
pub struct RowHeader {
    pub size: u64,
    pub row_id: u64,
}

/// The row header at `db[pos..]`: a payload-size varint, then a row-id
/// varint.
pub open spec fn row_header_decode(db: Seq<u8>, pos: int) -> Option<(RowHeader, int)> {
    if !varint_ok_at(db, pos) {
        None
    } else {
        let n1 = varint_len_at(db, pos);
        if !varint_ok_at(db, pos + n1) {
            None
        } else {
            Some(
                (
                    RowHeader {
                        size: varint_val_at(db, pos) as u64,
                        row_id: varint_val_at(db, pos + n1) as u64,
                    },
                    n1 + varint_len_at(db, pos + n1),
                ),
            )
        }
    }
}

impl RowHeader {
    /// Decode the row header at `bytes[pos..]`, returning it and the
    /// number of bytes consumed.
    pub fn decode(bytes: &[u8], pos: usize) -> (r: Result<(RowHeader, usize), Error>)
        ensures
            match r {
                Ok((h, n)) => {
                    &&& row_header_decode(bytes@, pos as int) == Some((h, n as int))
                    &&& pos + n <= bytes@.len()
                },
                Err(e) => row_header_decode(bytes@, pos as int) is None && e == Error::Decode,
            },
    {
        let blen = bytes.len();
        let (size, n1) = match read_varint(bytes, pos) {
            Ok(v) => v,
            Err(e) => {
                return Err(e);
            },
        };
        let (row_id, n2) = match read_varint(bytes, pos + n1) {
            Ok(v) => v,
            Err(e) => {
                return Err(e);
            },
        };
        Ok((RowHeader { size, row_id }, n1 + n2))
    }
}

impl Deserialize for RowHeader {
    fn deserialize(bytes: &[u8], pos: usize) -> Result<(Self, usize), Error> {
        RowHeader::decode(bytes, pos)
    }
}

/// A cell of a table-leaf page: a row header followed by the row's record.
#[derive(Clone, Debug)]
pub struct TableLeafCell {
    pub row_header: RowHeader,
    pub record: Record,
}

/// The mathematical model of a table-leaf cell.
pub struct TableLeafCellM {
    pub row_header: RowHeader,
    pub record: RecordM,
}

impl View for TableLeafCell {
    type V = TableLeafCellM;

    open spec fn view(&self) -> TableLeafCellM {
        TableLeafCellM { row_header: self.row_header, record: self.record@ }
    }
}

/// The table-leaf cell at `db[pos..]`.
pub open spec fn table_leaf_cell_decode(db: Seq<u8>, pos: int) -> Option<(TableLeafCellM, int)> {
    match row_header_decode(db, pos) {
        None => None,
        Some((rh, c1)) => match record_decode(db, pos + c1) {
            None => None,
            Some((rm, c2)) => Some((TableLeafCellM { row_header: rh, record: rm }, c1 + c2)),
        },
    }
}

impl TableLeafCell {
    /// Decode the table-leaf cell at `bytes[pos..]`, returning it and the
    /// number of bytes consumed.
    pub fn decode(bytes: &[u8], pos: usize) -> (r: Result<(TableLeafCell, usize), Error>)
        ensures
            match r {
                Ok((c, n)) => {
                    &&& table_leaf_cell_decode(bytes@, pos as int) == Some((c@, n as int))
                    &&& pos + n <= bytes@.len()
                },
                Err(e) => table_leaf_cell_decode(bytes@, pos as int) is None && e == Error::Decode,
            },
    {
        let blen = bytes.len();
        let (row_header, c1) = match RowHeader::decode(bytes, pos) {
            Ok(v) => v,
            Err(e) => {
                return Err(e);
            },
        };
        let (record, c2) = match Record::decode(bytes, pos + c1) {
            Ok(v) => v,
            Err(e) => {
                return Err(e);
            },
        };
        Ok((TableLeafCell { row_header, record }, c1 + c2))
    }

    /// The row id of this cell.
    pub fn row_id(&self) -> (r: u64)
        ensures
            r == self.row_header.row_id,
    {
        self.row_header.row_id
    }
}

impl Deserialize for TableLeafCell {
    fn deserialize(bytes: &[u8], pos: usize) -> Result<(Self, usize), Error> {
        TableLeafCell::decode(bytes, pos)
    }
}

/// A cell of a table-interior page: a left-child page number and the
/// largest row id of that subtree.
#[derive(Clone, Copy, Debug, PartialEq, Eq, Structural)]
pub struct TableInteriorCell {
    pub left_child: u32,
    pub row_id: u64,
}

/// The table-interior cell at `db[pos..]`: a big-endian 32-bit child page
/// number, then a row-id varint.
pub open spec fn table_interior_cell_decode(db: Seq<u8>, pos: int) -> Option<
    (TableInteriorCell, int),
> {
    if pos < 0 || pos + 4 > db.len() {
        None
    } else if !varint_ok_at(db, pos + 4) {
        None
    } else {
        Some(
            (
                TableInteriorCell {
                    left_child: be32(db, pos) as u32,
                    row_id: varint_val_at(db, pos + 4) as u64,
                },
                4 + varint_len_at(db, pos + 4),
            ),
        )
    }
}

impl TableInteriorCell {
    /// Decode the table-interior cell at `bytes[pos..]`, returning it and
    /// the number of bytes consumed.
    pub fn decode(bytes: &[u8], pos: usize) -> (r: Result<(TableInteriorCell, usize), Error>)
        ensures
            match r {
                Ok((c, n)) => {
                    &&& table_interior_cell_decode(bytes@, pos as int) == Some((c, n as int))
                    &&& pos + n <= bytes@.len()
                },
                Err(e) => table_interior_cell_decode(bytes@, pos as int) is None && e
                    == Error::Decode,
            },
    {
        let blen = bytes.len();
        if pos > blen || 4 > blen - pos {
            return Err(Error::Decode);
        }
        let left_child = read_be(bytes, pos, 4) as u32;
        let (row_id, n) = match read_varint(bytes, pos + 4) {
            Ok(v) => v,
            Err(e) => {
                return Err(e);
            },
        };
        Ok((TableInteriorCell { left_child, row_id }, 4 + n))
    }
}

impl Deserialize for TableInteriorCell {
    fn deserialize(bytes: &[u8], pos: usize) -> Result<(Self, usize), Error> {
        TableInteriorCell::decode(bytes, pos)
    }
}

/// The row id stored as the final column of an index record, or `None`
/// when the record is empty or its final column is not an integer.
pub open spec fn index_row_id(r: RecordM) -> Option<u64> {
    if r.values.len() > 0 {
        match r.values.last() {
            ValM::Int(v) => Some(v as u64),
            _ => None,
        }
    } else {
        None
    }
}

/// A cell of an index-leaf page: a payload-size varint and a key record
/// whose final column is the table row id.
#[derive(Clone, Debug)]
pub struct IndexLeafCell {
    pub size: u64,
    pub record: Record,
}

/// The mathematical model of an index-leaf cell.
pub struct IndexLeafCellM {
    pub size: u64,
    pub record: RecordM,
}

impl View for IndexLeafCell {
    type V = IndexLeafCellM;

    open spec fn view(&self) -> IndexLeafCellM {
        IndexLeafCellM { size: self.size, record: self.record@ }
    }
}

/// The index-leaf cell at `db[pos..]`.
pub open spec fn index_leaf_cell_decode(db: Seq<u8>, pos: int) -> Option<(IndexLeafCellM, int)> {
    if !varint_ok_at(db, pos) {
        None
    } else {
        let n1 = varint_len_at(db, pos);
        match record_decode(db, pos + n1) {
            None => None,
            Some((rm, c2)) => Some(
                (IndexLeafCellM { size: varint_val_at(db, pos) as u64, record: rm }, n1 + c2),
            ),
        }
    }
}

impl IndexLeafCell {
    /// Decode the index-leaf cell at `bytes[pos..]`, returning it and the
    /// number of bytes consumed.
    pub fn decode(bytes: &[u8], pos: usize) -> (r: Result<(IndexLeafCell, usize), Error>)
        ensures
            match r {
                Ok((c, n)) => {
                    &&& index_leaf_cell_decode(bytes@, pos as int) == Some((c@, n as int))
                    &&& pos + n <= bytes@.len()
                },
                Err(e) => index_leaf_cell_decode(bytes@, pos as int) is None && e == Error::Decode,
            },
    {
        let blen = bytes.len();
        let (size, n1) = match read_varint(bytes, pos) {
            Ok(v) => v,
            Err(e) => {
                return Err(e);
            },
        };
        let (record, c2) = match Record::decode(bytes, pos + n1) {
            Ok(v) => v,
            Err(e) => {
                return Err(e);
            },
        };
        Ok((IndexLeafCell { size, record }, n1 + c2))
    }

    /// The table row id held in the final column of this cell's record.
    /// Fails when the record is empty or its final column is not an
    /// integer.
    pub fn row_id(&self) -> (r: Result<u64, Error>)
        ensures
            match r {
                Ok(v) => index_row_id(self@.record) == Some(v),
                Err(e) => index_row_id(self@.record) is None && e == Error::Decode,
            },
    {
        last_int_row_id(&self.record)
    }
}

impl Deserialize for IndexLeafCell {
    fn deserialize(bytes: &[u8], pos: usize) -> Result<(Self, usize), Error> {
        IndexLeafCell::decode(bytes, pos)
    }
}

/// A cell of an index-interior page: a left-child page number, a
/// payload-size varint and a key record.
#[derive(Clone, Debug)]
pub struct IndexInteriorCell {
    pub left_child: u32,
    pub size: u64,
    pub record: Record,
}

/// The mathematical model of an index-interior cell.
pub struct IndexInteriorCellM {
    pub left_child: u32,
    pub size: u64,
    pub record: RecordM,
}

impl View for IndexInteriorCell {
    type V = IndexInteriorCellM;

    open spec fn view(&self) -> IndexInteriorCellM {
        IndexInteriorCellM { left_child: self.left_child, size: self.size, record: self.record@ }
    }
}

/// The index-interior cell at `db[pos..]`.
pub open spec fn index_interior_cell_decode(db: Seq<u8>, pos: int) -> Option<
    (IndexInteriorCellM, int),
> {
    if pos < 0 || pos + 4 > db.len() {
        None
    } else if !varint_ok_at(db, pos + 4) {
        None
    } else {
        let n1 = varint_len_at(db, pos + 4);
        match record_decode(db, pos + 4 + n1) {
            None => None,
            Some((rm, c2)) => Some(
                (
                    IndexInteriorCellM {
                        left_child: be32(db, pos) as u32,
                        size: varint_val_at(db, pos + 4) as u64,
                        record: rm,
                    },
                    4 + n1 + c2,
                ),
            ),
        }
    }
}

impl IndexInteriorCell {
    /// Decode the index-interior cell at `bytes[pos..]`, returning it and
    /// the number of bytes consumed.
    pub fn decode(bytes: &[u8], pos: usize) -> (r: Result<(IndexInteriorCell, usize), Error>)
        ensures
            match r {
                Ok((c, n)) => {
                    &&& index_interior_cell_decode(bytes@, pos as int) == Some((c@, n as int))
                    &&& pos + n <= bytes@.len()
                },
                Err(e) => index_interior_cell_decode(bytes@, pos as int) is None && e
                    == Error::Decode,
            },
    {
        let blen = bytes.len();
        if pos > blen || 4 > blen - pos {
            return Err(Error::Decode);
        }
        let left_child = read_be(bytes, pos, 4) as u32;
        let (size, n1) = match read_varint(bytes, pos + 4) {
            Ok(v) => v,
            Err(e) => {
                return Err(e);
            },
        };
        let (record, c2) = match Record::decode(bytes, pos + 4 + n1) {
            Ok(v) => v,
            Err(e) => {
                return Err(e);
            },
        };
        Ok((IndexInteriorCell { left_child, size, record }, 4 + n1 + c2))
    }

    /// The table row id held in the final column of this cell's record.
    /// Fails when the record is empty or its final column is not an
    /// integer.
    pub fn row_id(&self) -> (r: Result<u64, Error>)
        ensures
            match r {
                Ok(v) => index_row_id(self@.record) == Some(v),
                Err(e) => index_row_id(self@.record) is None && e == Error::Decode,
            },
    {
        last_int_row_id(&self.record)
    }
}

impl Deserialize for IndexInteriorCell {
    fn deserialize(bytes: &[u8], pos: usize) -> Result<(Self, usize), Error> {
        IndexInteriorCell::decode(bytes, pos)
    }
}

/// The final column of `record` as a row id, shared by the two index cell
/// kinds.
fn last_int_row_id(record: &Record) -> (r: Result<u64, Error>)
    ensures
        match r {
            Ok(v) => index_row_id(record@) == Some(v),
            Err(e) => index_row_id(record@) is None && e == Error::Decode,
        },
{
    if record.values.len() == 0 {
        return Err(Error::Decode);
    }
    match &record.values[record.values.len() - 1] {
        crate::serial_value::SerialValue::Int(v) => Ok(
            #[verifier::truncate]
            (*v as u64),
        ),
        _ => Err(Error::Decode),
    }
}

} // verus!
