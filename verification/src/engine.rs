use vstd::prelude::*;
use vstd::std_specs::cmp::PartialEqSpec;
use crate::btree::{
    lookup_rounds_exec, lookup_rounds_spec, page_at, probe_rec, probe_spec, rows_of,
    rows_of_exec, scan_rec, scan_spec,
};
use crate::cells::{IndexLeafCell, IndexLeafCellM, TableLeafCell, TableLeafCellM};
use crate::column::{find_col_idx, find_column_index, is_integer_primary_key, is_ipk_spec};
use crate::error::Error;
use crate::filter::dup_value;
use crate::page::PageType;
use crate::pager::{Pager, PagerM};
use crate::parser::{AggregateFn, Column, ColumnM, Comparison, SelectQuery, SelectQueryM};
use crate::schema::{DbObject, SchemaRecord, SchemaRecordM};
use crate::schema_object::{SchemaObject, SchemaObjectM, schema_object_of};
use crate::serial_value::{SerialValue, ValM};
use crate::set::{InsertionSet, has_like};
use crate::text::{dec_digits, fmt_int, fmt_i64_string, fmt_u64_string};

verus! {

/// The first schema row whose table name is `name`.
pub open spec fn find_rec_spec(schema: Seq<SchemaRecordM>, name: Seq<char>) -> Option<
    SchemaRecordM,
>
    decreases schema.len(),
{
    if schema.len() == 0 {
        None
    } else if schema[0].tbl_name == name {
        Some(schema[0])
    } else {
        find_rec_spec(schema.drop_first(), name)
    }
}

/// The first index on table `table` whose leading column is `col`: the
/// schema rows are walked in order, every index row on the table has its
/// `CREATE` text parsed, and an unparseable or column-less one is an
/// error.  The outer `None` is that error; the inner option tells whether
/// a matching index exists.
pub open spec fn find_index_spec(
    schema: Seq<SchemaRecordM>,
    table: Seq<char>,
    col: Seq<char>,
) -> Option<Option<SchemaObjectM>>
    decreases schema.len(),
{
    if schema.len() == 0 {
        Some(None)
    } else {
        let r = schema[0];
        if r.db_object == DbObject::Index && r.tbl_name == table {
            match schema_object_of(r) {
                None => None,
                Some(o) => if o.columns.len() == 0 {
                    None
                } else if o.columns[0] == col {
                    Some(Some(o))
                } else {
                    find_index_spec(schema.drop_first(), table, col)
                },
            }
        } else {
            find_index_spec(schema.drop_first(), table, col)
        }
    }
}

/// Whether the column list asks for `COUNT(*)`.
pub open spec fn has_count(cols: Seq<ColumnM>) -> bool {
    exists|i: int|
        0 <= i < cols.len() && #[trigger] cols[i] == ColumnM::Aggregation(AggregateFn::CountAll)
}

/// `i` appended to `acc` unless already present.
pub open spec fn push_unique_spec(acc: Seq<usize>, i: usize) -> Seq<usize> {
    if acc.contains(i) {
        acc
    } else {
        acc.push(i)
    }
}

/// The positions contributed by a `*` column: for each declared column
/// name in order, the position of the first name equal to it up to ASCII
/// case.
pub open spec fn push_all_spec(acc: Seq<usize>, names: Seq<Seq<char>>, k: int) -> Seq<usize>
    decreases k,
{
    if k <= 0 {
        acc
    } else {
        let prev = push_all_spec(acc, names, k - 1);
        match find_col_idx(names, names[k - 1]) {
            None => prev,
            Some(i) => push_unique_spec(prev, i as usize),
        }
    }
}

/// The ordered, deduplicated positions of the queried columns, or `None`
/// when a named column is missing.
pub open spec fn proj_idxs_spec(
    cols: Seq<ColumnM>,
    names: Seq<Seq<char>>,
    acc: Seq<usize>,
) -> Option<Seq<usize>>
    decreases cols.len(),
{
    if cols.len() == 0 {
        Some(acc)
    } else {
        match cols[0] {
            ColumnM::Regular(nm) => match find_col_idx(names, nm) {
                None => None,
                Some(i) => proj_idxs_spec(cols.drop_first(), names, push_unique_spec(
                    acc,
                    i as usize,
                )),
            },
            ColumnM::All => proj_idxs_spec(
                cols.drop_first(),
                names,
                push_all_spec(acc, names, names.len() as int),
            ),
            ColumnM::Aggregation(_) => proj_idxs_spec(cols.drop_first(), names, acc),
        }
    }
}

/// The text a value renders as: an integer in decimal, text as itself, a
/// null as the empty string.  Floats and blobs are not rendered by the
/// verified core.
pub open spec fn fmt_value_spec(v: ValM) -> Option<Seq<char>> {
    match v {
        ValM::Null => Some(Seq::empty()),
        ValM::Int(x) => Some(fmt_int(x)),
        ValM::Text(s) => Some(s),
        ValM::Float(_) => None,
        ValM::Blob(_) => None,
    }
}

/// The projected value of column `i` of a cell: a stored null in an
/// `INTEGER PRIMARY KEY` column reads as the cell's row id.
pub open spec fn field_of(c: TableLeafCellM, i: int, sql: Seq<char>) -> Option<ValM> {
    if 0 <= i < c.record.values.len() {
        let v = c.record.values[i];
        if v is Null {
            match is_ipk_spec(sql, i) {
                None => None,
                Some(true) => Some(ValM::Int(c.row_header.row_id as i64 as int)),
                Some(false) => Some(v),
            }
        } else {
            Some(v)
        }
    } else {
        None
    }
}

/// The rendered fields of one result row, in projection order.
pub open spec fn row_fields(c: TableLeafCellM, idxs: Seq<usize>, sql: Seq<char>) -> Option<
    Seq<Seq<char>>,
>
    decreases idxs.len(),
{
    if idxs.len() == 0 {
        Some(Seq::empty())
    } else {
        match row_fields(c, idxs.drop_last(), sql) {
            None => None,
            Some(rest) => match field_of(c, idxs.last() as int, sql) {
                None => None,
                Some(v) => match fmt_value_spec(v) {
                    None => None,
                    Some(s) => Some(rest.push(s)),
                },
            },
        }
    }
}

/// `parts` joined by `sep`.
pub open spec fn join_with(parts: Seq<Seq<char>>, sep: Seq<char>) -> Seq<char>
    decreases parts.len(),
{
    if parts.len() == 0 {
        Seq::empty()
    } else if parts.len() == 1 {
        parts[0]
    } else {
        parts[0] + sep + join_with(parts.drop_first(), sep)
    }
}

/// Appending a part extends the join by a separator and the part.
pub proof fn lemma_join_snoc(parts: Seq<Seq<char>>, p: Seq<char>, sep: Seq<char>)
    ensures
        join_with(parts.push(p), sep) == (if parts.len() == 0 {
            p
        } else {
            join_with(parts, sep) + sep + p
        }),
    decreases parts.len(),
{
    let whole = parts.push(p);
    if parts.len() == 0 {
        assert(whole.len() == 1);
        assert(whole[0] == p);
    } else {
        assert(whole[0] == parts[0]);
        assert(whole.drop_first() =~= parts.drop_first().push(p));
        lemma_join_snoc(parts.drop_first(), p, sep);
        if parts.len() == 1 {
            assert(parts.drop_first().len() == 0);
            assert(join_with(whole, sep) == parts[0] + sep + p);
            assert(join_with(parts, sep) == parts[0]);
        } else {
            assert(join_with(whole, sep) == parts[0] + sep + (join_with(parts.drop_first(), sep)
                + sep + p));
            assert((parts[0] + sep + (join_with(parts.drop_first(), sep) + sep + p)) =~= ((parts[0]
                + sep + join_with(parts.drop_first(), sep)) + sep + p));
        }
    }
}

/// The rendered rows of the result cells, one joined string per cell.
pub open spec fn rows_strings(
    cells: Seq<TableLeafCellM>,
    idxs: Seq<usize>,
    sql: Seq<char>,
) -> Option<Seq<Seq<char>>>
    decreases cells.len(),
{
    if cells.len() == 0 {
        Some(Seq::empty())
    } else {
        match rows_strings(cells.drop_last(), idxs, sql) {
            None => None,
            Some(rows) => match row_fields(cells.last(), idxs, sql) {
                None => None,
                Some(fields) => Some(rows.push(join_with(fields, "|"@))),
            },
        }
    }
}

/// One beyond the number of pages the file can hold, as traversal fuel.
pub open spec fn scan_fuel(db: Seq<u8>, psz: nat) -> nat {
    let p = if psz == 0 {
        1
    } else {
        psz
    };
    if db.len() / p + 2 > u64::MAX {
        u64::MAX as nat
    } else {
        db.len() / p + 2
    }
}

/// The result cells of a projection query: an index probe followed by a
/// row-id lookup when an index on the filtered column exists, a filtered
/// scan when only the filter exists, and a full scan otherwise.
pub open spec fn rows_for_query(p: PagerM, q: SelectQueryM, table: SchemaObjectM) -> Option<
    Seq<TableLeafCellM>,
> {
    let psz = p.db_header.page_size as nat;
    let fuel = scan_fuel(p.db, psz);
    match q.where_clause {
        None => scan_spec(p.db, psz, table.rootpage as nat, None, fuel),
        Some(cmp) => match find_index_spec(p.schema_table, q.table, cmp.column) {
            None => None,
            Some(None) => match find_col_idx(table.columns, cmp.column) {
                None => None,
                Some(ci) => scan_spec(
                    p.db,
                    psz,
                    table.rootpage as nat,
                    Some((ci, cmp.value)),
                    fuel,
                ),
            },
            Some(Some(ix)) => match find_col_idx(ix.columns, cmp.column) {
                None => None,
                Some(ic) => match probe_spec(p.db, psz, ix.rootpage as nat, ic, cmp.value, fuel) {
                    None => None,
                    Some(icells) => match rows_of(icells) {
                        None => None,
                        Some(ids) => lookup_rounds_spec(
                            p.db,
                            psz,
                            table.rootpage as nat,
                            ids,
                            fuel,
                        ),
                    },
                },
            },
        },
    }
}

/// The rendered text of the result cells: rows joined by a line break.
pub open spec fn render_result(
    cells: Seq<TableLeafCellM>,
    idxs: Seq<usize>,
    sql: Seq<char>,
) -> Option<Seq<char>> {
    match rows_strings(cells, idxs, sql) {
        None => None,
        Some(rows) => Some(join_with(rows, "\n"@)),
    }
}

/// The answer of a query once its table's schema row and parsed column
/// list are at hand.
pub open spec fn run_query_with(
    p: PagerM,
    q: SelectQueryM,
    rec: SchemaRecordM,
    table: SchemaObjectM,
) -> Option<Seq<char>> {
    if has_count(q.columns) {
        match page_at(p.db, p.db_header.page_size as nat, table.rootpage as nat) {
            None => None,
            Some(page) => if page.header.page_type == PageType::TableLeaf {
                Some(dec_digits(page.header.cell_count as nat))
            } else {
                None
            },
        }
    } else {
        match proj_idxs_spec(q.columns, table.columns, Seq::empty()) {
            None => None,
            Some(idxs) => match rows_for_query(p, q, table) {
                None => None,
                Some(cells) => render_result(cells, idxs, rec.sql),
            },
        }
    }
}

/// The full answer of a query over a decoded database: the named table
/// is found in the schema, `COUNT(*)` reads the root page's cell count,
/// and a projection renders the rows an index probe, a filtered scan or
/// a full scan yields, with `|` between columns and a line break between
/// rows.
pub open spec fn run_query_spec(p: PagerM, q: SelectQueryM) -> Option<Seq<char>> {
    match find_rec_spec(p.schema_table, q.table) {
        None => None,
        Some(rec) => match schema_object_of(rec) {
            None => None,
            Some(table) => run_query_with(p, q, rec, table),
        },
    }
}

/// For machine positions, set membership under `==` is plain membership.
proof fn lemma_usize_has_like(s: Seq<usize>, x: usize)
    ensures
        has_like(s, x) <==> s.contains(x),
{
    if has_like(s, x) {
        let i = choose|i: int| 0 <= i < s.len() && #[trigger] s[i].eq_spec(&x);
        assert(s[i] == x);
        assert(s.contains(x));
    }
    if s.contains(x) {
        let i = choose|i: int| 0 <= i < s.len() && s[i] == x;
        assert(s[i].eq_spec(&x));
        assert(has_like(s, x));
    }
}

/// A copy of a schema row with the same view.
pub fn dup_schema_record(rec: &SchemaRecord) -> (r: SchemaRecord)
    ensures
        r@ == rec@,
{
    SchemaRecord {
        db_object: rec.db_object,
        name: rec.name.clone(),
        tbl_name: rec.tbl_name.clone(),
        rootpage: rec.rootpage,
        sql: rec.sql.clone(),
    }
}

/// Answers restricted `SELECT` statements over a decoded database.
#[derive(Debug)]
pub struct QueryEngine {
    pub pager: Pager,
}

impl QueryEngine {
    /// An engine over `pager`.
    pub fn new(pager: Pager) -> (r: Self)
        ensures
            r.pager@ == pager@,
    {
        Self { pager }
    }

    /// The traversal fuel for this database: more levels than its pages
    /// could form.
    fn fuel(&self) -> (r: u64)
        ensures
            r as nat == scan_fuel(self.pager@.db, self.pager@.db_header.page_size as nat),
    {
        let psz = self.pager.db_header.page_size;
        let p: usize = if psz == 0 {
            1
        } else {
            psz as usize
        };
        let base = (self.pager.data().len() / p) as u64;
        if base > u64::MAX - 2 {
            u64::MAX
        } else {
            base + 2
        }
    }

    /// The schema row of the table named `table_name`.  Fails exactly
    /// when no schema row carries that table name.
    pub fn get_table_rec(&self, table_name: &str) -> (r: Result<SchemaRecord, Error>)
        ensures
            match r {
                Ok(rec) => find_rec_spec(self.pager@.schema_table, table_name@) == Some(rec@),
                Err(e) => find_rec_spec(self.pager@.schema_table, table_name@) is None && e
                    == Error::Schema,
            },
    {
        let ghost schema = self.pager@.schema_table;
        let target = table_name.to_owned();
        let n = self.pager.schema_table.len();
        let mut i: usize = 0;
        proof {
            assert(schema.skip(0) =~= schema);
        }
        while i < n
            invariant
                i <= n,
                n == self.pager.schema_table@.len(),
                schema == self.pager@.schema_table,
                schema.len() == n,
                target@ == table_name@,
                find_rec_spec(schema, table_name@) == find_rec_spec(
                    schema.skip(i as int),
                    table_name@,
                ),
            decreases n - i,
        {
            proof {
                assert(schema.skip(i as int)[0] == schema[i as int]);
                assert(schema[i as int] == self.pager.schema_table@[i as int]@);
                assert(schema.skip(i as int).drop_first() =~= schema.skip(i + 1));
            }
            if self.pager.schema_table[i].tbl_name == target {
                return Ok(dup_schema_record(&self.pager.schema_table[i]));
            }
            i = i + 1;
        }
        proof {
            assert(schema.skip(n as int) =~= Seq::<SchemaRecordM>::empty());
        }
        Err(Error::Schema)
    }

    /// The first index on the queried table whose leading column is the
    /// filtered column, when the query filters at all.  Fails when a
    /// candidate index's `CREATE` text cannot be parsed or lists no
    /// columns.
    pub fn find_index(&self, query: &SelectQuery) -> (r: Result<Option<SchemaObject>, Error>)
        ensures
            match query@.where_clause {
                None => r matches Ok(o) && o is None,
                Some(cmp) => match r {
                    Ok(None) => find_index_spec(self.pager@.schema_table, query@.table, cmp.column)
                        == Some(None::<SchemaObjectM>),
                    Ok(Some(o)) => find_index_spec(
                        self.pager@.schema_table,
                        query@.table,
                        cmp.column,
                    ) == Some(Some(o@)),
                    Err(e) => find_index_spec(
                        self.pager@.schema_table,
                        query@.table,
                        cmp.column,
                    ) is None && e == Error::Schema,
                },
            },
    {
        let cmp = match &query.where_clause {
            Some(c) => c,
            None => {
                return Ok(None);
            },
        };
        let ghost schema = self.pager@.schema_table;
        let n = self.pager.schema_table.len();
        let mut i: usize = 0;
        proof {
            assert(schema.skip(0) =~= schema);
        }
        while i < n
            invariant
                i <= n,
                n == self.pager.schema_table@.len(),
                schema == self.pager@.schema_table,
                schema.len() == n,
                query@.where_clause matches Some(c) && c.column == cmp.column@,
                find_index_spec(schema, query@.table, cmp.column@) == find_index_spec(
                    schema.skip(i as int),
                    query@.table,
                    cmp.column@,
                ),
            decreases n - i,
        {
            proof {
                assert(schema.skip(i as int)[0] == schema[i as int]);
                assert(schema[i as int] == self.pager.schema_table@[i as int]@);
                assert(schema.skip(i as int).drop_first() =~= schema.skip(i + 1));
            }
            let rec = &self.pager.schema_table[i];
            let is_index = matches!(rec.db_object, DbObject::Index);
            if is_index && rec.tbl_name == query.table {
                let obj = match SchemaObject::from_record(dup_schema_record(rec)) {
                    Ok(o) => o,
                    Err(_) => {
                        return Err(Error::Schema);
                    },
                };
                if obj.columns.len() == 0 {
                    return Err(Error::Schema);
                }
                if obj.columns[0] == cmp.column {
                    proof {
                        assert(obj@.columns[0] == obj.columns@[0]@);
                    }
                    return Ok(Some(obj));
                }
            }
            i = i + 1;
        }
        proof {
            assert(schema.skip(n as int) =~= Seq::<SchemaRecordM>::empty());
        }
        Ok(None)
    }

    /// Scan the whole table tree, applying the query's equality filter at
    /// leaves when one is present.  Fails on a malformed tree, and on a
    /// filter column that the table does not declare.
    pub fn table_db_scan(&self, table: &SchemaObject, query: &SelectQuery) -> (r: Result<
        Vec<TableLeafCell>,
        Error,
    >)
        ensures
            ({
                let psz = self.pager@.db_header.page_size as nat;
                let fuel = scan_fuel(self.pager@.db, psz);
                match query@.where_clause {
                    None => match r {
                        Ok(v) => scan_spec(
                            self.pager@.db,
                            psz,
                            table@.rootpage as nat,
                            None,
                            fuel,
                        ) == Some(v.deep_view()),
                        Err(_) => scan_spec(
                            self.pager@.db,
                            psz,
                            table@.rootpage as nat,
                            None,
                            fuel,
                        ) is None,
                    },
                    Some(cmp) => match r {
                        Ok(v) => find_col_idx(table@.columns, cmp.column) matches Some(ci)
                            && scan_spec(
                            self.pager@.db,
                            psz,
                            table@.rootpage as nat,
                            Some((ci, cmp.value)),
                            fuel,
                        ) == Some(v.deep_view()),
                        Err(_) => find_col_idx(table@.columns, cmp.column) is None || scan_spec(
                            self.pager@.db,
                            psz,
                            table@.rootpage as nat,
                            Some(
                                (
                                    find_col_idx(table@.columns, cmp.column)->Some_0,
                                    cmp.value,
                                ),
                            ),
                            fuel,
                        ) is None,
                    },
                }
            }),
    {
        let fuel = self.fuel();
        match &query.where_clause {
            None => scan_rec(
                self.pager.data().as_slice(),
                self.pager.db_header.page_size,
                table.rootpage,
                None,
                fuel,
            ),
            Some(cmp) => {
                let ci = match find_column_index(&table.columns, cmp.column.as_str()) {
                    Ok(v) => v,
                    Err(e) => {
                        return Err(e);
                    },
                };
                let filt = (ci, cmp.value.clone());
                scan_rec(
                    self.pager.data().as_slice(),
                    self.pager.db_header.page_size,
                    table.rootpage,
                    Some(&filt),
                    fuel,
                )
            },
        }
    }

    /// Look up the given row ids in the table tree, returning the cells
    /// found; ids absent from the tree are skipped once a pass makes no
    /// progress.
    pub fn table_binary_search(&self, table: &SchemaObject, row_ids: Vec<u64>) -> (r: Result<
        Vec<TableLeafCell>,
        Error,
    >)
        ensures
            ({
                let psz = self.pager@.db_header.page_size as nat;
                let fuel = scan_fuel(self.pager@.db, psz);
                match r {
                    Ok(v) => lookup_rounds_spec(
                        self.pager@.db,
                        psz,
                        table@.rootpage as nat,
                        row_ids@,
                        fuel,
                    ) == Some(v.deep_view()),
                    Err(e) => lookup_rounds_spec(
                        self.pager@.db,
                        psz,
                        table@.rootpage as nat,
                        row_ids@,
                        fuel,
                    ) is None && e == Error::Decode,
                }
            }),
    {
        let fuel = self.fuel();
        lookup_rounds_exec(
            self.pager.data().as_slice(),
            self.pager.db_header.page_size,
            table.rootpage,
            row_ids,
            fuel,
        )
    }

    /// Probe the index tree rooted at `page_number` for cells whose
    /// filtered column equals the literal, appending them to
    /// `index_records`.  Fails on a malformed tree, a key that cannot be
    /// compared, or a filter column the index does not declare.
    pub fn index_binary_search(
        &self,
        page_number: u32,
        comparison: &Comparison,
        index_records: &mut Vec<IndexLeafCell>,
        index: &SchemaObject,
    ) -> (r: Result<(), Error>)
        ensures
            ({
                let psz = self.pager@.db_header.page_size as nat;
                let fuel = scan_fuel(self.pager@.db, psz);
                match r {
                    Ok(()) => find_col_idx(index@.columns, comparison@.column) matches Some(ic)
                        && probe_spec(
                        self.pager@.db,
                        psz,
                        page_number as nat,
                        ic,
                        comparison@.value,
                        fuel,
                    ) matches Some(found) && final(index_records).deep_view() == old(
                        index_records,
                    ).deep_view() + found,
                    Err(_) => {
                        &&& (find_col_idx(index@.columns, comparison@.column) is None || probe_spec(
                            self.pager@.db,
                            psz,
                            page_number as nat,
                            find_col_idx(index@.columns, comparison@.column)->Some_0,
                            comparison@.value,
                            fuel,
                        ) is None)
                        &&& final(index_records).deep_view() == old(index_records).deep_view()
                    },
                }
            }),
    {
        let ic = match find_column_index(&index.columns, comparison.column.as_str()) {
            Ok(v) => v,
            Err(e) => {
                return Err(e);
            },
        };
        let fuel = self.fuel();
        let mut found = match probe_rec(
            self.pager.data().as_slice(),
            self.pager.db_header.page_size,
            page_number,
            ic,
            &comparison.value,
            fuel,
        ) {
            Ok(v) => v,
            Err(e) => {
                return Err(e);
            },
        };
        let ghost prev = index_records.deep_view();
        let ghost foundv = found.deep_view();
        index_records.append(&mut found);
        proof {
            assert(index_records.deep_view() =~~= prev + foundv);
        }
        Ok(())
    }

    /// Probe the index, then look its row ids up in the table tree.
    fn search_with_index(
        &self,
        table: &SchemaObject,
        index: &SchemaObject,
        comparison: &Comparison,
    ) -> (r: Result<Vec<TableLeafCell>, Error>)
        ensures
            ({
                let psz = self.pager@.db_header.page_size as nat;
                let fuel = scan_fuel(self.pager@.db, psz);
                let probe = match find_col_idx(index@.columns, comparison@.column) {
                    None => None,
                    Some(ic) => probe_spec(
                        self.pager@.db,
                        psz,
                        index@.rootpage as nat,
                        ic,
                        comparison@.value,
                        fuel,
                    ),
                };
                match r {
                    Ok(v) => probe matches Some(icells) && rows_of(icells) matches Some(ids)
                        && lookup_rounds_spec(
                        self.pager@.db,
                        psz,
                        table@.rootpage as nat,
                        ids,
                        fuel,
                    ) == Some(v.deep_view()),
                    Err(_) => probe is None || rows_of(probe->Some_0) is None
                        || lookup_rounds_spec(
                        self.pager@.db,
                        psz,
                        table@.rootpage as nat,
                        rows_of(probe->Some_0)->Some_0,
                        fuel,
                    ) is None,
                }
            }),
    {
        let mut matching: Vec<IndexLeafCell> = Vec::new();
        match self.index_binary_search(index.rootpage, comparison, &mut matching, index) {
            Ok(()) => {},
            Err(e) => {
                return Err(e);
            },
        }
        proof {
            assert(matching.deep_view() =~= Seq::<IndexLeafCellM>::empty() + matching.deep_view());
        }
        let rows_to_find = match rows_of_exec(&matching) {
            Ok(v) => v,
            Err(e) => {
                return Err(e);
            },
        };
        self.table_binary_search(table, rows_to_find)
    }

    /// Answer one `SELECT` statement: `COUNT(*)` reads the root page's
    /// cell count; otherwise the queried columns are projected out of the
    /// rows an index probe, a filtered scan or a full scan yields, with
    /// `|` between columns and a line break between rows.
    #[verifier::loop_isolation(false)]
    #[verifier::rlimit(100)]
    #[verifier::spinoff_prover]
    pub fn run_query(&self, query: SelectQuery) -> (r: Result<String, Error>)
        ensures
            match r {
                Ok(s) => run_query_spec(self.pager@, query@) == Some(s@),
                Err(_) => run_query_spec(self.pager@, query@) is None,
            },
            // a table absent from the schema is a schema error
            find_rec_spec(self.pager@.schema_table, query@.table) is None ==> r == Err::<
                String,
                Error,
            >(Error::Schema),
            // a count over an interior root is the unimplemented boundary
            (match find_rec_spec(self.pager@.schema_table, query@.table) {
                None => true,
                Some(rec) => match schema_object_of(rec) {
                    None => true,
                    Some(table) => if has_count(query@.columns) {
                        match page_at(
                            self.pager@.db,
                            self.pager@.db_header.page_size as nat,
                            table.rootpage as nat,
                        ) {
                            None => true,
                            Some(page) => page.header.page_type == PageType::TableLeaf || r
                                == Err::<String, Error>(Error::Unimplemented),
                        }
                    } else {
                        true
                    },
                },
            }),
    {
        let ghost pm = self.pager@;
        let ghost qm = query@;
        let table_record = match self.get_table_rec(query.table.as_str()) {
            Ok(v) => v,
            Err(e) => {
                return Err(e);
            },
        };
        let table = match SchemaObject::from_record(dup_schema_record(&table_record)) {
            Ok(v) => v,
            Err(e) => {
                return Err(e);
            },
        };
        // does the column list ask for COUNT(*)?
        let ghost cols_m = qm.columns;
        let ncols = query.columns.len();
        let mut wants_count = false;
        let mut ci0: usize = 0;
        while ci0 < ncols
            invariant
                ci0 <= ncols,
                ncols == query.columns@.len(),
                wants_count <==> (exists|j: int|
                    0 <= j < ci0 && #[trigger] cols_m[j] == ColumnM::Aggregation(
                        AggregateFn::CountAll,
                    )),
            decreases ncols - ci0,
        {
            proof {
                assert(cols_m[ci0 as int] == query.columns@[ci0 as int]@);
            }
            if matches!(query.columns[ci0], Column::Aggregation(AggregateFn::CountAll)) {
                wants_count = true;
                proof {
                    assert(cols_m[ci0 as int] == ColumnM::Aggregation(AggregateFn::CountAll));
                }
            }
            ci0 = ci0 + 1;
        }
        proof {
            assert(wants_count == has_count(cols_m));
        }
        proof {
            assert(find_rec_spec(pm.schema_table, qm.table) == Some(table_record@));
            assert(schema_object_of(table_record@) == Some(table@));
        }
        if wants_count {
            let page = match self.pager.read_page(table.rootpage) {
                Ok(p) => p,
                Err(e) => {
                    return Err(e);
                },
            };
            if matches!(page.header.page_type, PageType::TableLeaf) {
                return Ok(fmt_u64_string(page.header.cell_count as u64));
            } else {
                return Err(Error::Unimplemented);
            }
        }
        proof {
            assert(!has_count(cols_m));
        }
        // the ordered, deduplicated positions of the queried columns
        let ghost names = table@.columns;
        let mut queried: InsertionSet<usize> = InsertionSet::new();
        let mut ci: usize = 0;
        proof {
            assert(cols_m.skip(0) =~= cols_m);
            assert(queried@ =~= Seq::<usize>::empty());
        }
        while ci < ncols
            invariant
                ci <= ncols,
                proj_idxs_spec(cols_m, names, Seq::empty()) == proj_idxs_spec(
                    cols_m.skip(ci as int),
                    names,
                    queried@,
                ),
            decreases ncols - ci,
        {
            proof {
                assert(cols_m.skip(ci as int)[0] == cols_m[ci as int]);
                assert(cols_m[ci as int] == query.columns@[ci as int]@);
                assert(cols_m.skip(ci as int).drop_first() =~= cols_m.skip(ci + 1));
            }
            match &query.columns[ci] {
                Column::Regular(col_name) => {
                    let idx = match find_column_index(&table.columns, col_name.as_str()) {
                        Ok(v) => v,
                        Err(e) => {
                            return Err(e);
                        },
                    };
                    let ghost before = queried@;
                    proof {
                        lemma_usize_has_like(before, idx);
                    }
                    queried.push(idx);
                },
                Column::All => {
                    let ncn = table.columns.len();
                    let mut j: usize = 0;
                    let ghost acc0 = queried@;
                    while j < ncn
                        invariant
                            j <= ncn,
                            ncn == table.columns@.len(),
                            ncn == names.len(),
                            queried@ == push_all_spec(acc0, names, j as int),
                        decreases ncn - j,
                    {
                        proof {
                            assert(names[j as int] == table.columns@[j as int]@);
                        }
                        let idx = match find_column_index(
                            &table.columns,
                            table.columns[j].as_str(),
                        ) {
                            Ok(v) => v,
                            Err(_) => {
                                proof {
                                    crate::column::lemma_find_col_idx_props(
                                        names,
                                        names[j as int],
                                    );
                                    assert(false);
                                }
                                return Err(Error::Schema);
                            },
                        };
                        let ghost before = queried@;
                        proof {
                            lemma_usize_has_like(before, idx);
                        }
                        queried.push(idx);
                        j = j + 1;
                    }
                },
                Column::Aggregation(_) => {},
            }
            ci = ci + 1;
        }
        proof {
            assert(cols_m.skip(ncols as int) =~= Seq::<ColumnM>::empty());
        }
        let idxs: &Vec<usize> = queried.iter();
        let ghost idxs_m = idxs@;
        proof {
            assert(proj_idxs_spec(cols_m, names, Seq::<usize>::empty()) == Some(idxs_m));
        }
        // fetch the result rows
        let records: Vec<TableLeafCell> = match &query.where_clause {
            Some(comparison) => {
                let found = match self.find_index(&query) {
                    Ok(v) => v,
                    Err(e) => {
                        return Err(e);
                    },
                };
                match found {
                    Some(index) => {
                        match self.search_with_index(&table, &index, comparison) {
                            Ok(v) => v,
                            Err(e) => {
                                return Err(e);
                            },
                        }
                    },
                    None => match self.table_db_scan(&table, &query) {
                        Ok(v) => v,
                        Err(e) => {
                            return Err(e);
                        },
                    },
                }
            },
            None => match self.table_db_scan(&table, &query) {
                Ok(v) => v,
                Err(e) => {
                    return Err(e);
                },
            },
        };
        let ghost cells_m = records.deep_view();
        proof {
            assert(rows_for_query(pm, qm, table@) == Some(cells_m));
        }
        // render
        let nrec = records.len();
        let mut out = String::new();
        let mut ri: usize = 0;
        proof {
            assert(cells_m.take(0) =~= Seq::<TableLeafCellM>::empty());
            assert(rows_strings(cells_m.take(0), idxs_m, table_record@.sql) == Some(
                Seq::<Seq<char>>::empty(),
            ));
            assert(out@ =~= join_with(Seq::<Seq<char>>::empty(), "\n"@));
        }
        while ri < nrec
            invariant
                ri <= nrec,
                nrec == records@.len(),
                rows_strings(cells_m.take(ri as int), idxs_m, table_record@.sql) is Some,
                out@ == join_with(
                    rows_strings(cells_m.take(ri as int), idxs_m, table_record@.sql)->Some_0,
                    "\n"@,
                ),
            decreases nrec - ri,
        {
            proof {
                assert(cells_m[ri as int] == records@[ri as int]@);
                assert(cells_m.take(ri + 1).drop_last() =~= cells_m.take(ri as int));
                assert(cells_m.take(ri + 1).last() == cells_m[ri as int]);
            }
            let row = match render_row(&records[ri], idxs, &table_record) {
                Ok(v) => v,
                Err(e) => {
                    proof {
                        lemma_rows_strings_none(cells_m, idxs_m, table_record@.sql, ri as int);
                    }
                    return Err(e);
                },
            };
            let ghost rows_prev = rows_strings(
                cells_m.take(ri as int),
                idxs_m,
                table_record@.sql,
            )->Some_0;
            proof {
                lemma_join_snoc(rows_prev, row@, "\n"@);
            }
            if ri > 0 {
                out.append("\n");
            }
            out.append(row.as_str());
            proof {
                if ri == 0 {
                    assert(rows_prev.len() == 0);
                    assert(out@ =~= row@);
                }
            }
            ri = ri + 1;
        }
        proof {
            assert(cells_m.take(nrec as int) =~= cells_m);
        }
        Ok(out)
    }
}

/// Whether a table name begins with the letters `sql`, which marks the
/// schema table's own objects.
pub open spec fn starts_with_sql(s: Seq<char>) -> bool {
    s.len() >= 3 && s.subrange(0, 3) == "sql"@
}

/// The listing the `.tables` command prints: the table names of the
/// schema whose names do not begin with `sql`, joined by single spaces.
pub open spec fn tables_listing(schema: Seq<SchemaRecordM>) -> Seq<char> {
    join_with(
        schema.filter(|r: SchemaRecordM| !starts_with_sql(r.tbl_name)).map_values(
            |r: SchemaRecordM| r.tbl_name,
        ),
        " "@,
    )
}

/// The `.tables` listing of a schema.
#[verifier::loop_isolation(false)]
pub fn table_names(schema: &Vec<SchemaRecord>) -> (r: String)
    ensures
        r@ == tables_listing(Seq::new(schema@.len(), |i: int| schema@[i]@)),
{
    let ghost schema_m = Seq::new(schema@.len(), |i: int| schema@[i]@);
    let ghost pred = |rec: SchemaRecordM| !starts_with_sql(rec.tbl_name);
    let ghost tblof = |rec: SchemaRecordM| rec.tbl_name;
    let n = schema.len();
    let mut out = String::new();
    let mut count: usize = 0;
    let mut i: usize = 0;
    proof {
        reveal(Seq::filter);
        assert(schema_m.take(0) =~= Seq::<SchemaRecordM>::empty());
        assert(schema_m.take(0).filter(pred).map_values(tblof) =~= Seq::<Seq<char>>::empty());
        assert(out@ =~= join_with(Seq::<Seq<char>>::empty(), " "@));
    }
    while i < n
        invariant
            i <= n,
            count == schema_m.take(i as int).filter(pred).len(),
            out@ == join_with(schema_m.take(i as int).filter(pred).map_values(tblof), " "@),
        decreases n - i,
    {
        proof {
            reveal(Seq::filter);
            assert(schema_m[i as int] == schema@[i as int]@);
            assert(schema_m.take(i + 1).drop_last() =~= schema_m.take(i as int));
            assert(schema_m.take(i + 1).last() == schema_m[i as int]);
        }
        let name_chars = crate::text::string_chars(schema[i].tbl_name.as_str());
        let keep: bool = if name_chars.len() >= 3 {
            let is_sql = name_chars[0] == 's' && name_chars[1] == 'q' && name_chars[2] == 'l';
            proof {
                if is_sql {
                    assert(name_chars@.subrange(0, 3) =~= "sql"@) by {
                        reveal_strlit("sql");
                    }
                } else {
                    assert(name_chars@.subrange(0, 3) != "sql"@) by {
                        reveal_strlit("sql");
                        assert(name_chars@.subrange(0, 3)[0] == name_chars@[0]);
                        assert(name_chars@.subrange(0, 3)[1] == name_chars@[1]);
                        assert(name_chars@.subrange(0, 3)[2] == name_chars@[2]);
                    }
                }
            }
            !is_sql
        } else {
            true
        };
        if keep {
            let ghost names_prev = schema_m.take(i as int).filter(pred).map_values(tblof);
            proof {
                lemma_join_snoc(names_prev, schema_m[i as int].tbl_name, " "@);
                assert(schema_m.take(i + 1).filter(pred).map_values(tblof) =~= names_prev.push(
                    schema_m[i as int].tbl_name,
                ));
            }
            if count > 0 {
                out.append(" ");
            }
            out.append(schema[i].tbl_name.as_str());
            proof {
                if count == 0 {
                    assert(names_prev.len() == 0);
                    assert(out@ =~= schema_m[i as int].tbl_name);
                }
            }
            count = count + 1;
        } else {
            proof {
                assert(schema_m.take(i + 1).filter(pred).map_values(tblof) =~= schema_m.take(
                    i as int,
                ).filter(pred).map_values(tblof));
            }
        }
        i = i + 1;
    }
    proof {
        assert(schema_m.take(n as int) =~= schema_m);
    }
    out
}

/// The rendered text of one stored value.  Fails on a float or a blob,
/// which the verified core does not render.
fn render_value(v: &SerialValue) -> (r: Result<String, Error>)
    ensures
        match r {
            Ok(s) => fmt_value_spec(v@) == Some(s@),
            Err(e) => fmt_value_spec(v@) is None && e == Error::Unimplemented,
        },
{
    match v {
        SerialValue::Null => Ok(String::new()),
        SerialValue::Int(x) => Ok(fmt_i64_string(*x)),
        SerialValue::Text(s) => Ok(s.clone()),
        SerialValue::Float(_) => Err(Error::Unimplemented),
        SerialValue::Blob(_) => Err(Error::Unimplemented),
    }
}

/// When the field at position `k` cannot be projected or rendered, the
/// whole row cannot.
proof fn lemma_row_fields_none(c: TableLeafCellM, idxs: Seq<usize>, sql: Seq<char>, k: int)
    requires
        0 <= k < idxs.len(),
        field_of(c, idxs[k] as int, sql) is None || fmt_value_spec(
            field_of(c, idxs[k] as int, sql)->Some_0,
        ) is None,
    ensures
        row_fields(c, idxs, sql) is None,
    decreases idxs.len(),
{
    if k < idxs.len() - 1 {
        assert(idxs.drop_last()[k] == idxs[k]);
        lemma_row_fields_none(c, idxs.drop_last(), sql, k);
    }
}

/// When the row at position `k` cannot be rendered, the whole result
/// cannot.
proof fn lemma_rows_strings_none(
    cells: Seq<TableLeafCellM>,
    idxs: Seq<usize>,
    sql: Seq<char>,
    k: int,
)
    requires
        0 <= k < cells.len(),
        row_fields(cells[k], idxs, sql) is None,
    ensures
        rows_strings(cells, idxs, sql) is None,
    decreases cells.len(),
{
    if k < cells.len() - 1 {
        assert(cells.drop_last()[k] == cells[k]);
        lemma_rows_strings_none(cells.drop_last(), idxs, sql, k);
    }
}

/// Render one result row: the projected fields joined by `|`, a stored
/// null in an `INTEGER PRIMARY KEY` column reading as the row id.
#[verifier::loop_isolation(false)]
fn render_row(cell: &TableLeafCell, idxs: &Vec<usize>, table_record: &SchemaRecord) -> (r: Result<
    String,
    Error,
>)
    ensures
        match r {
            Ok(s) => row_fields(cell@, idxs@, table_record@.sql) matches Some(fields) && s@
                == join_with(fields, "|"@),
            Err(_) => row_fields(cell@, idxs@, table_record@.sql) is None,
        },
{
    let ghost cm = cell@;
    let ghost sql = table_record@.sql;
    let ghost idxs_m = idxs@;
    let n = idxs.len();
    let mut out = String::new();
    let mut k: usize = 0;
    proof {
        assert(idxs_m.take(0) =~= Seq::<usize>::empty());
        assert(row_fields(cm, idxs_m.take(0), sql) == Some(Seq::<Seq<char>>::empty()));
        assert(out@ =~= join_with(Seq::<Seq<char>>::empty(), "|"@));
    }
    while k < n
        invariant
            k <= n,
            n == idxs@.len(),
            row_fields(cm, idxs_m.take(k as int), sql) is Some,
            out@ == join_with(row_fields(cm, idxs_m.take(k as int), sql)->Some_0, "|"@),
        decreases n - k,
    {
        proof {
            assert(idxs_m.take(k + 1).drop_last() =~= idxs_m.take(k as int));
            assert(idxs_m.take(k + 1).last() == idxs_m[k as int]);
        }
        let idx = idxs[k];
        if idx >= cell.record.values.len() {
            proof {
                lemma_row_fields_none(cm, idxs_m, sql, k as int);
            }
            return Err(Error::Schema);
        }
        proof {
            assert(cm.record.values[idx as int] == cell.record.values@[idx as int]@);
        }
        let stored = &cell.record.values[idx];
        let value: SerialValue = if matches!(stored, SerialValue::Null) {
            let ipk = match is_integer_primary_key(table_record, &idx) {
                Ok(b) => b,
                Err(e) => {
                    proof {
                        lemma_row_fields_none(cm, idxs_m, sql, k as int);
                    }
                    return Err(e);
                },
            };
            if ipk {
                SerialValue::Int(
                    #[verifier::truncate]
                    (cell.row_header.row_id as i64),
                )
            } else {
                dup_value(stored)
            }
        } else {
            dup_value(stored)
        };
        let field = match render_value(&value) {
            Ok(s) => s,
            Err(e) => {
                proof {
                    lemma_row_fields_none(cm, idxs_m, sql, k as int);
                }
                return Err(e);
            },
        };
        let ghost fields_prev = row_fields(cm, idxs_m.take(k as int), sql)->Some_0;
        proof {
            lemma_join_snoc(fields_prev, field@, "|"@);
        }
        if k > 0 {
            out.append("|");
        }
        out.append(field.as_str());
        proof {
            if k == 0 {
                assert(fields_prev.len() == 0);
                assert(out@ =~= field@);
            }
        }
        k = k + 1;
    }
    proof {
        assert(idxs_m.take(n as int) =~= idxs_m);
    }
    Ok(out)
}

} // verus!
