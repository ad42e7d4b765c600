use vstd::prelude::*;
use crate::error::Error;
use crate::serial_type::{SerialType, serial_size, serial_type_of};
use crate::serial_value::{SerialValue, ValM, value_decode, read_be, be_val};
use crate::serialisation::Deserialize;
use crate::varint::{
    read_varint, varint_ok_at, varint_val_at, varint_len_at, lemma_varint_len_range,
};

verus! {

/// The list of serial types encoded one varint at a time in
/// `db[pos..end]`, or `None` when a varint is cut short, a type code is
/// invalid, or the last varint runs past `end` so that the region is not
/// filled exactly.
pub open spec fn types_decode(db: Seq<u8>, pos: int, end: int) -> Option<Seq<SerialType>>
    decreases end - pos,
    via types_decode_decreases
{
    if pos >= end {
        if pos == end {
            Some(Seq::empty())
        } else {
            None
        }
    } else if !varint_ok_at(db, pos) {
        None
    } else if varint_len_at(db, pos) > end - pos {
        None
    } else {
        match serial_type_of(varint_val_at(db, pos)) {
            None => None,
            Some(t) => match types_decode(db, pos + varint_len_at(db, pos), end) {
                None => None,
                Some(rest) => Some(seq![t] + rest),
            },
        }
    }
}

#[via_fn]
proof fn types_decode_decreases(db: Seq<u8>, pos: int, end: int) {
    if pos < end && varint_ok_at(db, pos) {
        lemma_varint_len_range(db.skip(pos));
    }
}

/// The record header of a record: its declared total size in bytes and the
/// serial types of its columns.
pub struct RecordHeaderM {
    pub size: nat,
    pub column_types: Seq<SerialType>,
}

/// The record header at `db[pos..]`: a size varint that counts itself,
/// followed by serial-type varints until exactly `size` bytes are consumed.
pub open spec fn record_header_decode(db: Seq<u8>, pos: int) -> Option<(RecordHeaderM, int)> {
    if !varint_ok_at(db, pos) {
        None
    } else {
        let size = varint_val_at(db, pos);
        let n0 = varint_len_at(db, pos);
        match types_decode(db, pos + n0, pos + size) {
            None => None,
            Some(ts) => Some((RecordHeaderM { size, column_types: ts }, size as int)),
        }
    }
}

/// Decoding a record header consumes exactly the declared header size.
pub proof fn lemma_record_header_consumes_declared_size(db: Seq<u8>, pos: int)
    requires
        record_header_decode(db, pos) is Some,
    ensures
        record_header_decode(db, pos)->Some_0.1 == record_header_decode(db, pos)->Some_0.0.size,
{
}

/// The header of one record: the declared header size and the serial types
/// of the record's columns.
#[derive(Clone, Debug)]
pub struct RecordHeader {
    pub size: u64,
    pub column_types: Vec<SerialType>,
}

impl View for RecordHeader {
    type V = RecordHeaderM;

    open spec fn view(&self) -> RecordHeaderM {
        RecordHeaderM { size: self.size as nat, column_types: self.column_types@ }
    }
}

impl RecordHeader {
    /// Decode the record header at `bytes[pos..]`, returning it and the
    /// number of bytes consumed, which always equals the declared header
    /// size.  Fails exactly when a varint is cut short, a serial-type code
    /// is invalid, or the serial-type varints do not fill the declared size
    /// exactly.
    pub fn decode(bytes: &[u8], pos: usize) -> (r: Result<(RecordHeader, usize), Error>)
        ensures
            match r {
                Ok((h, n)) => {
                    &&& record_header_decode(bytes@, pos as int) == Some((h@, n as int))
                    &&& h.size == n as u64
                    &&& pos + n <= bytes@.len()
                },
                Err(e) => record_header_decode(bytes@, pos as int) is None && e == Error::Decode,
            },
    {
        let ghost db = bytes@;
        let blen = bytes.len();
        let (size, n0) = match read_varint(bytes, pos) {
            Ok(v) => v,
            Err(e) => {
                return Err(e);
            },
        };
        let ghost t0 = pos + n0;
        let ghost end = pos as int + size as int;
        let mut column_types: Vec<SerialType> = Vec::new();
        let mut cur: usize = pos + n0;
        while ((cur - pos) as u64) < size
            invariant
                blen == bytes@.len(),
                pos <= cur <= blen,
                db == bytes@,
                t0 == pos + n0,
                end == pos as int + size as int,
                varint_ok_at(db, pos as int),
                size == varint_val_at(db, pos as int),
                n0 == varint_len_at(db, pos as int),
                types_decode(db, t0, end) == (match types_decode(db, cur as int, end) {
                    None => None::<Seq<SerialType>>,
                    Some(rest) => Some(column_types@ + rest),
                }),
            decreases end - cur,
        {
            let (code, n) = match read_varint(bytes, cur) {
                Ok(v) => v,
                Err(_) => {
                    proof {
                        assert(cur < end);
                        assert(types_decode(db, cur as int, end) is None);
                    }
                    return Err(Error::Decode);
                },
            };
            let t = match SerialType::decode(code) {
                Ok(t) => t,
                Err(_) => {
                    proof {
                        assert(cur < end);
                        assert(types_decode(db, cur as int, end) is None);
                    }
                    return Err(Error::Decode);
                },
            };
            if (n as u64) > size - ((cur - pos) as u64) {
                proof {
                    assert(cur < end);
                    assert(varint_len_at(db, cur as int) > end - cur);
                    assert(types_decode(db, cur as int, end) is None);
                }
                return Err(Error::Decode);
            }
            proof {
                assert(cur < end);
                assert(varint_len_at(db, cur as int) == n);
                assert(varint_val_at(db, cur as int) == code);
                let rest_later = types_decode(db, cur + n, end);
                match rest_later {
                    None => {
                        assert(types_decode(db, cur as int, end) is None);
                    },
                    Some(rest) => {
                        assert(types_decode(db, cur as int, end) == Some(seq![t] + rest));
                        assert((column_types@ + (seq![t] + rest)) =~= (column_types@.push(t)
                            + rest));
                    },
                }
            }
            column_types.push(t);
            cur = cur + n;
        }
        if ((cur - pos) as u64) == size {
            proof {
                assert(cur as int == end);
                assert(types_decode(db, end, end) == Some(Seq::<SerialType>::empty()));
                assert(column_types@ + Seq::<SerialType>::empty() =~= column_types@);
            }
            Ok((RecordHeader { size, column_types }, cur - pos))
        } else {
            proof {
                assert(cur > end);
                assert(types_decode(db, cur as int, end) is None);
            }
            Err(Error::Decode)
        }
    }
}

/// An older name for the record header.  It decodes the same bytes the same
/// way.
#[derive(Clone, Debug)]
pub struct ColumnHeader {
    pub size: u64,
    pub column_types: Vec<SerialType>,
}

impl View for ColumnHeader {
    type V = RecordHeaderM;

    open spec fn view(&self) -> RecordHeaderM {
        RecordHeaderM { size: self.size as nat, column_types: self.column_types@ }
    }
}

impl ColumnHeader {
    /// Decode the record header at `bytes[pos..]`, returning it and the
    /// number of bytes consumed.
    pub fn parse(bytes: &[u8], pos: usize) -> (r: Result<(ColumnHeader, usize), Error>)
        ensures
            match r {
                Ok((h, n)) => record_header_decode(bytes@, pos as int) == Some((h@, n as int)),
                Err(e) => record_header_decode(bytes@, pos as int) is None && e == Error::Decode,
            },
    {
        match RecordHeader::decode(bytes, pos) {
            Ok((h, n)) => Ok((ColumnHeader { size: h.size, column_types: h.column_types }, n)),
            Err(e) => Err(e),
        }
    }
}

/// The values of a record body, decoded in order per serial type, together
/// with the number of body bytes consumed.
pub open spec fn values_decode(db: Seq<u8>, pos: int, ts: Seq<SerialType>) -> Option<
    (Seq<ValM>, int),
>
    decreases ts.len(),
{
    if ts.len() == 0 {
        Some((Seq::empty(), 0))
    } else {
        match value_decode(db, pos, ts[0]) {
            None => None,
            Some(v) => match values_decode(db, pos + serial_size(ts[0]), ts.drop_first()) {
                None => None,
                Some((vs, c)) => Some((seq![v] + vs, serial_size(ts[0]) + c)),
            },
        }
    }
}

/// A record: its header and its decoded column values.
pub struct RecordM {
    pub header: RecordHeaderM,
    pub values: Seq<ValM>,
}

/// The record at `db[pos..]`: a record header followed by the column
/// values its serial types describe.
pub open spec fn record_decode(db: Seq<u8>, pos: int) -> Option<(RecordM, int)> {
    match record_header_decode(db, pos) {
        None => None,
        Some((hm, c1)) => match values_decode(db, pos + c1, hm.column_types) {
            None => None,
            Some((vs, c2)) => Some((RecordM { header: hm, values: vs }, c1 + c2)),
        },
    }
}

/// One record: its header and its column values.
#[derive(Clone, Debug)]
pub struct Record {
    pub header: RecordHeader,
    pub values: Vec<SerialValue>,
}

impl View for Record {
    type V = RecordM;

    open spec fn view(&self) -> RecordM {
        RecordM {
            header: self.header@,
            values: Seq::new(self.values@.len(), |i: int| self.values@[i]@),
        }
    }
}

impl DeepView for Record {
    type V = RecordM;

    open spec fn deep_view(&self) -> RecordM {
        self.view()
    }
}

impl Record {
    /// Decode the record at `bytes[pos..]`, returning it and the number of
    /// bytes consumed.
    pub fn decode(bytes: &[u8], pos: usize) -> (r: Result<(Record, usize), Error>)
        ensures
            match r {
                Ok((rec, n)) => {
                    &&& record_decode(bytes@, pos as int) == Some((rec@, n as int))
                    &&& pos + n <= bytes@.len()
                },
                Err(e) => record_decode(bytes@, pos as int) is None && e == Error::Decode,
            },
    {
        let ghost db = bytes@;
        let blen = bytes.len();
        let (header, c1) = match RecordHeader::decode(bytes, pos) {
            Ok(v) => v,
            Err(e) => {
                return Err(e);
            },
        };
        let ghost ts = header.column_types@;
        let ghost p1 = pos + c1;
        let ntypes = header.column_types.len();
        let mut values: Vec<SerialValue> = Vec::new();
        let mut cur: usize = pos + c1;
        let mut i: usize = 0;
        proof {
            assert(ts.skip(0) =~= ts);
            match values_decode(db, p1, ts) {
                None => {},
                Some((vs, c)) => {
                    assert(Seq::new(0, |j: int| values@[j]@) + vs =~= vs);
                },
            }
        }
        while i < ntypes
            invariant
                db == bytes@,
                blen == bytes@.len(),
                ts == header.column_types@,
                ts == header@.column_types,
                ntypes == ts.len(),
                i <= ntypes,
                values@.len() == i,
                pos <= cur <= blen,
                p1 == pos + c1,
                cur == p1 + sizes_prefix(ts, i as int),
                record_header_decode(db, pos as int) == Some((header@, c1 as int)),
                values_decode(db, p1, ts) == (match values_decode(
                    db,
                    cur as int,
                    ts.skip(i as int),
                ) {
                    None => None::<(Seq<ValM>, int)>,
                    Some((vs, c)) => Some(
                        (
                            Seq::new(values@.len(), |j: int| values@[j]@) + vs,
                            sizes_prefix(ts, i as int) + c,
                        ),
                    ),
                }),
            decreases ntypes - i,
        {
            let t = header.column_types[i];
            proof {
                assert(ts.skip(i as int)[0] == ts[i as int]);
            }
            match crate::serial_value::parse_value(bytes, cur, t) {
                Ok((v, n)) => {
                    proof {
                        assert(ts.skip(i as int).drop_first() =~= ts.skip(i + 1));
                        let ghost old_views = Seq::new(values@.len(), |j: int| values@[j]@);
                        match values_decode(db, cur + n, ts.skip(i + 1)) {
                            None => {},
                            Some((vs, c)) => {
                                assert((old_views + (seq![v@] + vs)) =~= (old_views.push(v@)
                                    + vs));
                                assert(Seq::new(values@.push(v).len(), |j: int| values@.push(v)[j]@)
                                    =~= old_views.push(v@));
                            },
                        }
                    }
                    values.push(v);
                    cur = cur + n;
                    i = i + 1;
                },
                Err(_) => {
                    proof {
                        assert(values_decode(db, cur as int, ts.skip(i as int)) is None);
                    }
                    return Err(Error::Decode);
                },
            }
        }
        proof {
            assert(ts.skip(ntypes as int) =~= Seq::<SerialType>::empty());
            assert(values_decode(db, cur as int, ts.skip(ntypes as int)) == Some(
                (Seq::<ValM>::empty(), 0int),
            ));
            let views = Seq::new(values@.len(), |j: int| values@[j]@);
            assert(views + Seq::<ValM>::empty() =~= views);
        }
        Ok((Record { header, values }, cur - pos))
    }
}

/// The body bytes consumed by the first `i` values of a record whose
/// serial types are `ts`.
pub open spec fn sizes_prefix(ts: Seq<SerialType>, i: int) -> int
    decreases i,
{
    if i <= 0 {
        0
    } else {
        sizes_prefix(ts, i - 1) + serial_size(ts[i - 1])
    }
}

} // verus!
