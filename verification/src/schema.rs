use vstd::prelude::*;
use crate::cells::{TableLeafCell, table_leaf_cell_decode};
use crate::error::Error;
use crate::record::RecordM;
use crate::serial_value::{SerialValue, ValM};
use crate::serialisation::Deserialize;

verus! {

/// The kind of object a schema row catalogues.
#[derive(Clone, Copy, Debug, PartialEq, Eq, Structural)]
pub enum DbObject {
    Table,
    Index,
    View,
    Trigger,
}

/// The object kind named by the text of a schema row's first column.
pub open spec fn db_object_of(s: Seq<char>) -> Option<DbObject> {
    if s == "table"@ {
        Some(DbObject::Table)
    } else if s == "index"@ {
        Some(DbObject::Index)
    } else if s == "view"@ {
        Some(DbObject::View)
    } else if s == "trigger"@ {
        Some(DbObject::Trigger)
    } else {
        None
    }
}

/// One row of the schema table.
#[derive(Debug)]
pub struct SchemaRecord {
    pub db_object: DbObject,
    pub name: String,
    pub tbl_name: String,
    pub rootpage: u32,
    pub sql: String,
}

/// The mathematical model of a schema row.
pub struct SchemaRecordM {
    pub db_object: DbObject,
    pub name: Seq<char>,
    pub tbl_name: Seq<char>,
    pub rootpage: u32,
    pub sql: Seq<char>,
}

impl View for SchemaRecord {
    type V = SchemaRecordM;

    open spec fn view(&self) -> SchemaRecordM {
        SchemaRecordM {
            db_object: self.db_object,
            name: self.name@,
            tbl_name: self.tbl_name@,
            rootpage: self.rootpage,
            sql: self.sql@,
        }
    }
}

/// The schema row read from record `r`: five columns holding the object
/// kind, the object name, the table name, the root page and the `CREATE`
/// text.  `None` when the record does not have that shape.
pub open spec fn schema_record_of(r: RecordM) -> Option<SchemaRecordM> {
    if r.values.len() != 5 {
        None
    } else {
        match (r.values[0], r.values[1], r.values[2], r.values[3], r.values[4]) {
            (
                ValM::Text(ty),
                ValM::Text(name),
                ValM::Text(tbl_name),
                ValM::Int(rootpage),
                ValM::Text(sql),
            ) => match db_object_of(ty) {
                None => None,
                Some(ob) => Some(
                    SchemaRecordM {
                        db_object: ob,
                        name,
                        tbl_name,
                        rootpage: rootpage as u32,
                        sql,
                    },
                ),
            },
            _ => None,
        }
    }
}

impl SchemaRecord {
    /// Read a schema row out of a table-leaf cell.  Fails when the record
    /// does not have five columns of the expected types or names an
    /// unknown object kind.
    pub fn from_cell(cell: TableLeafCell) -> (r: Result<SchemaRecord, Error>)
        ensures
            match r {
                Ok(rec) => schema_record_of(cell@.record) == Some(rec@),
                Err(e) => schema_record_of(cell@.record) is None && e == Error::Decode,
            },
    {
        let mut values = cell.record.values;
        let ghost vals = values@;
        if values.len() != 5 {
            return Err(Error::Decode);
        }
        let v_sql = values.pop().unwrap();
        let v_root = values.pop().unwrap();
        let v_tbl = values.pop().unwrap();
        let v_name = values.pop().unwrap();
        let v_ty = values.pop().unwrap();
        proof {
            assert(v_ty == vals[0] && v_name == vals[1] && v_tbl == vals[2] && v_root == vals[3]
                && v_sql == vals[4]);
            assert(cell@.record.values[0] == vals[0]@);
            assert(cell@.record.values[1] == vals[1]@);
            assert(cell@.record.values[2] == vals[2]@);
            assert(cell@.record.values[3] == vals[3]@);
            assert(cell@.record.values[4] == vals[4]@);
        }
        let ty = match v_ty {
            SerialValue::Text(t) => t,
            _ => {
                return Err(Error::Decode);
            },
        };
        let name = match v_name {
            SerialValue::Text(t) => t,
            _ => {
                return Err(Error::Decode);
            },
        };
        let tbl_name = match v_tbl {
            SerialValue::Text(t) => t,
            _ => {
                return Err(Error::Decode);
            },
        };
        let rootpage_i = match v_root {
            SerialValue::Int(v) => v,
            _ => {
                return Err(Error::Decode);
            },
        };
        let sql = match v_sql {
            SerialValue::Text(t) => t,
            _ => {
                return Err(Error::Decode);
            },
        };
        let rootpage =
            #[verifier::truncate]
            (rootpage_i as u32);
        let db_object = if ty == "table".to_owned() {
            DbObject::Table
        } else if ty == "index".to_owned() {
            DbObject::Index
        } else if ty == "view".to_owned() {
            DbObject::View
        } else if ty == "trigger".to_owned() {
            DbObject::Trigger
        } else {
            return Err(Error::Decode);
        };
        Ok(SchemaRecord { db_object, name, tbl_name, rootpage, sql })
    }
}

/// Whether the table-leaf cell at pointer `p` decodes and reads as a
/// schema row.
pub open spec fn schema_cell_ok(db: Seq<u8>, p: u16) -> bool {
    &&& table_leaf_cell_decode(db, p as int) is Some
    &&& schema_record_of(table_leaf_cell_decode(db, p as int)->Some_0.0.record) is Some
}

/// The schema row read from the cell at pointer `p`.
pub open spec fn schema_rec_at(db: Seq<u8>, p: u16) -> SchemaRecordM {
    schema_record_of(table_leaf_cell_decode(db, p as int)->Some_0.0.record)->Some_0
}

/// The schema rows read from the cells at `ptrs`, or `None` when any cell
/// fails to decode as a schema row.
pub open spec fn schema_table_decode(db: Seq<u8>, ptrs: Seq<u16>) -> Option<Seq<SchemaRecordM>> {
    if forall|j: int| 0 <= j < ptrs.len() ==> schema_cell_ok(db, #[trigger] ptrs[j]) {
        Some(Seq::new(ptrs.len(), |j: int| schema_rec_at(db, ptrs[j])))
    } else {
        None
    }
}

/// The materialised schema table: one row per object in the database.
#[derive(Debug)]
pub struct SchemaTable {
    pub records: Vec<SchemaRecord>,
}

impl View for SchemaTable {
    type V = Seq<SchemaRecordM>;

    open spec fn view(&self) -> Seq<SchemaRecordM> {
        Seq::new(self.records@.len(), |i: int| self.records@[i]@)
    }
}

impl SchemaTable {
    /// Decode one schema row from each cell pointer on the schema root
    /// page.
    pub fn new(bytes: &[u8], cell_pointers: &Vec<u16>) -> (r: Result<SchemaTable, Error>)
        ensures
            match r {
                Ok(t) => schema_table_decode(bytes@, cell_pointers@) == Some(t@),
                Err(e) => schema_table_decode(bytes@, cell_pointers@) is None && e == Error::Decode,
            },
    {
        let n = cell_pointers.len();
        let mut records: Vec<SchemaRecord> = Vec::new();
        let mut i: usize = 0;
        while i < n
            invariant
                i <= n,
                n == cell_pointers@.len(),
                records@.len() == i,
                forall|j: int| 0 <= j < i ==> schema_cell_ok(bytes@, #[trigger] cell_pointers@[j]),
                forall|j: int|
                    0 <= j < i ==> records@[j]@ == schema_rec_at(bytes@, cell_pointers@[j]),
            decreases n - i,
        {
            let p = cell_pointers[i];
            let (cell, _used) = match TableLeafCell::decode(bytes, p as usize) {
                Ok(v) => v,
                Err(_) => {
                    proof {
                        assert(!schema_cell_ok(bytes@, cell_pointers@[i as int]));
                    }
                    return Err(Error::Decode);
                },
            };
            let rec = match SchemaRecord::from_cell(cell) {
                Ok(v) => v,
                Err(_) => {
                    proof {
                        assert(!schema_cell_ok(bytes@, cell_pointers@[i as int]));
                    }
                    return Err(Error::Decode);
                },
            };
            records.push(rec);
            i = i + 1;
        }
        let table = SchemaTable { records };
        proof {
            assert(table@ =~= schema_table_decode(bytes@, cell_pointers@)->Some_0);
        }
        Ok(table)
    }
}

impl Deserialize for SchemaRecord {
    fn deserialize(bytes: &[u8], pos: usize) -> Result<(Self, usize), Error> {
        let (cell, n) = match TableLeafCell::decode(bytes, pos) {
            Ok(v) => v,
            Err(e) => {
                return Err(e);
            },
        };
        match SchemaRecord::from_cell(cell) {
            Ok(rec) => Ok((rec, n)),
            Err(e) => Err(e),
        }
    }
}

} // verus!
