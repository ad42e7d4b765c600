use vstd::prelude::*;
use crate::btree::page_at;
use crate::db_header::{Dbheader, db_header_decode};
use crate::error::Error;
use crate::page::{Page, PageM, page_decode};
use crate::schema::{SchemaRecord, SchemaRecordM, SchemaTable, schema_table_decode};

verus! {

/// Serves decoded pages of an in-memory database file and holds the
/// pre-decoded header, root page and schema table.
#[derive(Debug)]
pub struct Pager {
    pub bytes: Vec<u8>,
    pub db_header: Dbheader,
    pub root_page: Page,
    pub schema_table: Vec<SchemaRecord>,
}

/// The mathematical model of a pager.
pub struct PagerM {
    pub db: Seq<u8>,
    pub db_header: Dbheader,
    pub root_page: PageM,
    pub schema_table: Seq<SchemaRecordM>,
}

impl View for Pager {
    type V = PagerM;

    open spec fn view(&self) -> PagerM {
        PagerM {
            db: self.bytes@,
            db_header: self.db_header,
            root_page: self.root_page@,
            schema_table: Seq::new(self.schema_table@.len(), |i: int| self.schema_table@[i]@),
        }
    }
}

/// The pager's fields are exactly what decoding its file yields: the
/// database header, the schema root page at byte 100, and one schema row
/// per cell of that page.
pub open spec fn pager_wf(p: PagerM) -> bool {
    &&& db_header_decode(p.db) == Some(p.db_header)
    &&& page_decode(p.db, 100) == Some(p.root_page)
    &&& schema_table_decode(p.db, p.root_page.cell_pointers) == Some(p.schema_table)
}

impl Pager {
    /// Take the whole database file and decode its header, the schema
    /// root page and the schema table.  Fails exactly when any of the
    /// three is malformed.
    pub fn new(bytes: Vec<u8>) -> (r: Result<Pager, Error>)
        ensures
            match r {
                Ok(p) => p@.db == bytes@ && pager_wf(p@),
                Err(e) => {
                    &&& (db_header_decode(bytes@) is None || page_decode(bytes@, 100) is None
                        || schema_table_decode(
                        bytes@,
                        page_decode(bytes@, 100)->Some_0.cell_pointers,
                    ) is None)
                    &&& e == Error::Decode
                },
            },
    {
        let db_header = match Dbheader::parse(bytes.as_slice()) {
            Ok(h) => h,
            Err(e) => {
                return Err(e);
            },
        };
        let root_page = match Page::decode(bytes.as_slice(), 100) {
            Ok(p) => p,
            Err(e) => {
                return Err(e);
            },
        };
        let schema = match SchemaTable::new(bytes.as_slice(), &root_page.cell_pointers) {
            Ok(t) => t,
            Err(e) => {
                return Err(e);
            },
        };
        let pager = Pager { bytes, db_header, root_page, schema_table: schema.records };
        proof {
            assert(pager@.schema_table =~= schema_table_decode(
                pager@.db,
                pager@.root_page.cell_pointers,
            )->Some_0);
        }
        Ok(pager)
    }

    /// The raw bytes of the database file.
    pub fn data(&self) -> (r: &Vec<u8>)
        ensures
            r@ == self@.db,
    {
        &self.bytes
    }

    /// Decode the page numbered `page_number`, pages being 1-indexed and
    /// `page_size` bytes long.  Fails exactly when the page number is
    /// zero or the page lies beyond or is malformed.
    pub fn read_page(&self, page_number: u32) -> (r: Result<Page, Error>)
        ensures
            match r {
                Ok(p) => page_at(
                    self@.db,
                    self@.db_header.page_size as nat,
                    page_number as nat,
                ) == Some(p@),
                Err(e) => {
                    &&& page_at(
                        self@.db,
                        self@.db_header.page_size as nat,
                        page_number as nat,
                    ) is None
                    &&& e == Error::Decode
                },
            },
    {
        match crate::btree::page_at_exec(self.bytes.as_slice(), self.db_header.page_size,
            page_number) {
            Ok((p, _)) => Ok(p),
            Err(e) => Err(e),
        }
    }
}

} // verus!
