use vstd::prelude::*;
use crate::column::{column_names_of, get_column_names};
use crate::error::Error;
use crate::schema::{SchemaRecord, SchemaRecordM};

verus! {

/// A schema row with its `CREATE` text parsed into an ordered column
/// list.
#[derive(Debug)]
pub struct SchemaObject {
    pub rootpage: u32,
    pub tbl_name: String,
    pub name: String,
    pub columns: Vec<String>,
}

/// The mathematical model of a schema object.
pub struct SchemaObjectM {
    pub rootpage: u32,
    pub tbl_name: Seq<char>,
    pub name: Seq<char>,
    pub columns: Seq<Seq<char>>,
}

impl View for SchemaObject {
    type V = SchemaObjectM;

    open spec fn view(&self) -> SchemaObjectM {
        SchemaObjectM {
            rootpage: self.rootpage,
            tbl_name: self.tbl_name@,
            name: self.name@,
            columns: self.columns.deep_view(),
        }
    }
}

/// The schema object read from row `r`, or `None` when its `CREATE` text
/// holds no parenthesised column list.
pub open spec fn schema_object_of(r: SchemaRecordM) -> Option<SchemaObjectM> {
    match column_names_of(r.sql) {
        None => None,
        Some(cols) => Some(
            SchemaObjectM { rootpage: r.rootpage, tbl_name: r.tbl_name, name: r.name, columns: cols },
        ),
    }
}

impl SchemaObject {
    /// Parse a schema row's column list.  Fails exactly when the `CREATE`
    /// text holds no parenthesised column list.
    pub fn from_record(value: SchemaRecord) -> (r: Result<SchemaObject, Error>)
        ensures
            match r {
                Ok(o) => schema_object_of(value@) == Some(o@),
                Err(e) => schema_object_of(value@) is None && e == Error::Schema,
            },
    {
        let columns = match get_column_names(value.sql.as_str()) {
            Ok(v) => v,
            Err(e) => {
                return Err(e);
            },
        };
        Ok(
            SchemaObject {
                rootpage: value.rootpage,
                tbl_name: value.tbl_name,
                name: value.name,
                columns,
            },
        )
    }
}

} // verus!
