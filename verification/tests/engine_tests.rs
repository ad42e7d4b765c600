use toy_sqlite::engine::{table_names, QueryEngine};
use toy_sqlite::error::Error;
use toy_sqlite::pager::Pager;
use toy_sqlite::parser::parse_sql;

// ---- helpers that assemble a database image ----

enum V<'a> {
    Null,
    I8(u8),
    F64(f64),
    Text(&'a str),
}

fn varint(v: u64) -> Vec<u8> {
    if v < 0x80 {
        vec![v as u8]
    } else {
        assert!(v < 1 << 14);
        vec![0x80 | (v >> 7) as u8, (v & 0x7f) as u8]
    }
}

fn record(vals: &[V]) -> Vec<u8> {
    let mut types: Vec<u8> = Vec::new();
    let mut body: Vec<u8> = Vec::new();
    for v in vals {
        match v {
            V::Null => types.extend(varint(0)),
            V::I8(x) => {
                types.extend(varint(1));
                body.push(*x);
            },
            V::F64(x) => {
                types.extend(varint(7));
                body.extend(x.to_bits().to_be_bytes());
            },
            V::Text(s) => {
                types.extend(varint(13 + 2 * s.len() as u64));
                body.extend(s.as_bytes());
            },
        }
    }
    let hs = types.len() as u64 + 1;
    assert!(hs < 0x80);
    let mut out = varint(hs);
    out.extend(types);
    out.extend(body);
    out
}

fn table_leaf_cell(rowid: u64, rec: &[u8]) -> Vec<u8> {
    let mut out = varint(rec.len() as u64);
    out.extend(varint(rowid));
    out.extend(rec);
    out
}

fn index_leaf_cell(rec: &[u8]) -> Vec<u8> {
    let mut out = varint(rec.len() as u64);
    out.extend(rec);
    out
}

fn table_interior_cell(left_child: u32, key: u64) -> Vec<u8> {
    let mut out = left_child.to_be_bytes().to_vec();
    out.extend(varint(key));
    out
}

/// Lay one page out in `buf`: the header at `header_at`, the pointer
/// array after it, and the cells packed at the page's end.  Page 1 uses
/// file-absolute cell pointers, every other page pointers relative to its
/// start.
fn place_page(
    buf: &mut Vec<u8>,
    page_start: usize,
    page_size: usize,
    header_at: usize,
    page_type: u8,
    rightmost: Option<u32>,
    cells: &[Vec<u8>],
    absolute_ptrs: bool,
) {
    let hlen = if rightmost.is_some() { 12 } else { 8 };
    buf[header_at] = page_type;
    buf[header_at + 1] = 0;
    buf[header_at + 2] = 0;
    let cc = cells.len() as u16;
    buf[header_at + 3] = (cc >> 8) as u8;
    buf[header_at + 4] = (cc & 0xff) as u8;
    buf[header_at + 5] = 0;
    buf[header_at + 6] = 0;
    buf[header_at + 7] = 0;
    if let Some(rm) = rightmost {
        buf[header_at + 8..header_at + 12].copy_from_slice(&rm.to_be_bytes());
    }
    let mut pos = page_start + page_size;
    let mut ptrs: Vec<u16> = Vec::new();
    for cell in cells {
        pos -= cell.len();
        buf[pos..pos + cell.len()].copy_from_slice(cell);
        let p = if absolute_ptrs { pos } else { pos - page_start };
        ptrs.push(p as u16);
    }
    let mut at = header_at + hlen;
    for p in &ptrs {
        buf[at] = (p >> 8) as u8;
        buf[at + 1] = (p & 0xff) as u8;
        at += 2;
    }
}

const PAGE: usize = 512;

fn file_of(pages: usize) -> Vec<u8> {
    let mut buf = vec![0u8; PAGE * pages];
    buf[16] = (PAGE >> 8) as u8;
    buf[17] = (PAGE & 0xff) as u8;
    buf
}

/// The sample database: one table `apples` with four rows on one leaf
/// page.
fn sample_db() -> Vec<u8> {
    let mut buf = file_of(2);
    let schema_row = record(&[
        V::Text("table"),
        V::Text("apples"),
        V::Text("apples"),
        V::I8(2),
        V::Text("CREATE TABLE apples (id INTEGER PRIMARY KEY, name TEXT, color TEXT)"),
    ]);
    let schema_cell = table_leaf_cell(1, &schema_row);
    place_page(&mut buf, 0, PAGE, 100, 0x0d, None, &[schema_cell], true);
    let rows = [
        ("Granny Smith", "Light Green"),
        ("Fuji", "Red"),
        ("Honeycrisp", "Blush Red"),
        ("Golden Delicious", "Yellow"),
    ];
    let cells: Vec<Vec<u8>> = rows
        .iter()
        .enumerate()
        .map(|(i, (name, color))| {
            table_leaf_cell(
                (i + 1) as u64,
                &record(&[V::Null, V::Text(name), V::Text(color)]),
            )
        })
        .collect();
    place_page(&mut buf, PAGE, PAGE, PAGE, 0x0d, None, &cells, false);
    buf
}

/// The same table split over an interior root with two leaves.
fn multipage_db() -> Vec<u8> {
    let mut buf = file_of(4);
    let schema_row = record(&[
        V::Text("table"),
        V::Text("apples"),
        V::Text("apples"),
        V::I8(2),
        V::Text("CREATE TABLE apples (id INTEGER PRIMARY KEY, name TEXT, color TEXT)"),
    ]);
    let schema_cell = table_leaf_cell(1, &schema_row);
    place_page(&mut buf, 0, PAGE, 100, 0x0d, None, &[schema_cell], true);
    place_page(
        &mut buf,
        PAGE,
        PAGE,
        PAGE,
        0x05,
        Some(4),
        &[table_interior_cell(3, 2)],
        false,
    );
    let left = [
        table_leaf_cell(1, &record(&[V::Null, V::Text("Granny Smith"), V::Text("Light Green")])),
        table_leaf_cell(2, &record(&[V::Null, V::Text("Fuji"), V::Text("Red")])),
    ];
    place_page(&mut buf, 2 * PAGE, PAGE, 2 * PAGE, 0x0d, None, &left, false);
    let right = [
        table_leaf_cell(3, &record(&[V::Null, V::Text("Honeycrisp"), V::Text("Blush Red")])),
        table_leaf_cell(4, &record(&[V::Null, V::Text("Golden Delicious"), V::Text("Yellow")])),
    ];
    place_page(&mut buf, 3 * PAGE, PAGE, 3 * PAGE, 0x0d, None, &right, false);
    buf
}

/// A database with a `fruits` table and an index on its `color` column.
fn indexed_db() -> Vec<u8> {
    let mut buf = file_of(3);
    let table_row = record(&[
        V::Text("table"),
        V::Text("fruits"),
        V::Text("fruits"),
        V::I8(2),
        V::Text("CREATE TABLE fruits (name TEXT, color TEXT)"),
    ]);
    let index_row = record(&[
        V::Text("index"),
        V::Text("idx_fruits_color"),
        V::Text("fruits"),
        V::I8(3),
        V::Text("CREATE INDEX idx_fruits_color ON fruits (color)"),
    ]);
    let cells = [table_leaf_cell(1, &table_row), table_leaf_cell(2, &index_row)];
    place_page(&mut buf, 0, PAGE, 100, 0x0d, None, &cells, true);
    let rows = [
        table_leaf_cell(1, &record(&[V::Text("apple"), V::Text("red")])),
        table_leaf_cell(2, &record(&[V::Text("banana"), V::Text("yellow")])),
        table_leaf_cell(3, &record(&[V::Text("cherry"), V::Text("red")])),
    ];
    place_page(&mut buf, PAGE, PAGE, PAGE, 0x0d, None, &rows, false);
    let idx_cells = [
        index_leaf_cell(&record(&[V::Text("red"), V::I8(1)])),
        index_leaf_cell(&record(&[V::Text("red"), V::I8(3)])),
        index_leaf_cell(&record(&[V::Text("yellow"), V::I8(2)])),
    ];
    place_page(&mut buf, 2 * PAGE, PAGE, 2 * PAGE, 0x0a, None, &idx_cells, false);
    buf
}

fn engine_for(bytes: Vec<u8>) -> QueryEngine {
    QueryEngine::new(Pager::new(bytes).expect("the image should decode"))
}

// ---- scenarios ----

#[test]
fn query_count_apples() {
    let engine = engine_for(sample_db());
    let result = engine.run_query(parse_sql("SELECT COUNT(*) FROM apples").unwrap()).unwrap();
    assert_eq!(result, "4");
}

#[test]
fn query_select_all_apples() {
    let engine = engine_for(sample_db());
    let result = engine.run_query(parse_sql("SELECT * FROM apples").unwrap()).unwrap();
    let expected =
        "1|Granny Smith|Light Green\n2|Fuji|Red\n3|Honeycrisp|Blush Red\n4|Golden Delicious|Yellow";
    assert_eq!(result, expected);
}

#[test]
fn query_where_color_yellow() {
    let engine = engine_for(sample_db());
    let result = engine
        .run_query(parse_sql("SELECT name FROM apples WHERE color = 'Yellow'").unwrap())
        .unwrap();
    assert_eq!(result, "Golden Delicious");
}

#[test]
fn query_runs_twice_with_same_answer() {
    let engine = engine_for(sample_db());
    let q = "SELECT name FROM apples WHERE color = 'Red'";
    let first = engine.run_query(parse_sql(q).unwrap()).unwrap();
    let second = engine.run_query(parse_sql(q).unwrap()).unwrap();
    assert_eq!(first, second);
    assert_eq!(first, "Fuji");
}

#[test]
fn query_scan_descends_interior_pages() {
    let engine = engine_for(multipage_db());
    let result = engine.run_query(parse_sql("SELECT name FROM apples").unwrap()).unwrap();
    assert_eq!(result, "Granny Smith\nFuji\nHoneycrisp\nGolden Delicious");
}

#[test]
fn query_count_on_interior_root_is_unimplemented() {
    let engine = engine_for(multipage_db());
    let err = engine.run_query(parse_sql("SELECT COUNT(*) FROM apples").unwrap()).unwrap_err();
    assert_eq!(err, Error::Unimplemented);
}

#[test]
fn query_through_index_probe() {
    let engine = engine_for(indexed_db());
    let q = parse_sql("SELECT name FROM fruits WHERE color = 'red'").unwrap();
    // the index on color exists, so the probe path answers this query
    let found = engine.find_index(&q).unwrap();
    assert!(found.is_some());
    let result = engine.run_query(q).unwrap();
    assert_eq!(result, "apple\ncherry");
}

#[test]
fn index_probe_agrees_with_full_scan() {
    let engine = engine_for(indexed_db());
    // the probe path: an index on color serves this query
    let by_index = engine
        .run_query(parse_sql("SELECT name, color FROM fruits WHERE color = 'red'").unwrap())
        .unwrap();
    // the scan path: no index on name, so the same rows come from a scan
    let by_scan_a = engine
        .run_query(parse_sql("SELECT name, color FROM fruits WHERE name = 'apple'").unwrap())
        .unwrap();
    let by_scan_c = engine
        .run_query(parse_sql("SELECT name, color FROM fruits WHERE name = 'cherry'").unwrap())
        .unwrap();
    assert_eq!(by_index, format!("{}\n{}", by_scan_a, by_scan_c));
}

#[test]
fn query_missing_table_is_schema_error() {
    let engine = engine_for(sample_db());
    let err = engine.run_query(parse_sql("SELECT * FROM oranges").unwrap()).unwrap_err();
    assert_eq!(err, Error::Schema);
}

#[test]
fn query_missing_column_is_schema_error() {
    let engine = engine_for(sample_db());
    let err = engine.run_query(parse_sql("SELECT size FROM apples").unwrap()).unwrap_err();
    assert_eq!(err, Error::Schema);
}

#[test]
fn bad_query_is_syntax_error() {
    assert_eq!(parse_sql("SELEC name FROM apples").unwrap_err(), Error::Syntax);
    assert_eq!(parse_sql("SELECT % FROM apples").unwrap_err(), Error::Syntax);
}

#[test]
fn truncated_image_is_decode_error() {
    let bytes = sample_db();
    assert_eq!(Pager::new(bytes[..60].to_vec()).unwrap_err(), Error::Decode);
}

#[test]
fn tables_listing_skips_schema_objects() {
    let pager = Pager::new(indexed_db()).unwrap();
    assert_eq!(table_names(&pager.schema_table), "fruits fruits");
    assert_eq!(pager.db_header.page_size, 512);
    assert_eq!(pager.root_page.header.cell_count, 2);
}

#[test]
fn read_page_fetches_decoded_pages() {
    let pager = Pager::new(sample_db()).unwrap();
    let page = pager.read_page(2).unwrap();
    assert_eq!(page.header.cell_count, 4);
    assert!(pager.read_page(0).is_err());
    assert!(pager.read_page(99).is_err());
}

#[test]
fn read_page_rejects_pointer_array_past_page_end() {
    // a leaf header whose claimed cell count would push the pointer
    // array beyond the page's own bytes
    let mut buf = sample_db();
    buf[PAGE + 3] = 0x01;
    buf[PAGE + 4] = 0x00;
    let pager = Pager::new(buf).unwrap();
    assert_eq!(pager.read_page(2).unwrap_err(), Error::Decode);
}

#[test]
fn where_clause_case_insensitive_null_match() {
    // a stored null matches the literal `null` regardless of case; here
    // the id column is the stored null, aliased to the row id on
    // projection but compared as stored by the filter
    let engine = engine_for(sample_db());
    let result = engine
        .run_query(parse_sql("SELECT name FROM apples WHERE id = 'NULL'").unwrap())
        .unwrap();
    assert_eq!(
        result,
        "Granny Smith\nFuji\nHoneycrisp\nGolden Delicious"
    );
}

#[test]
fn text_decoding_keeps_non_ascii() {
    // a text value with a two-byte UTF-8 character survives decoding
    let mut buf = file_of(2);
    let schema_row = record(&[
        V::Text("table"),
        V::Text("t"),
        V::Text("t"),
        V::I8(2),
        V::Text("CREATE TABLE t (name TEXT)"),
    ]);
    place_page(&mut buf, 0, PAGE, 100, 0x0d, None, &[table_leaf_cell(1, &schema_row)], true);
    let rows = [table_leaf_cell(1, &record(&[V::Text("caf\u{e9}")]))];
    place_page(&mut buf, PAGE, PAGE, PAGE, 0x0d, None, &rows, false);
    let engine = engine_for(buf);
    let result = engine.run_query(parse_sql("SELECT name FROM t").unwrap()).unwrap();
    assert_eq!(result, "caf\u{e9}");
}

#[test]
fn float_filter_matches_the_parsed_literal_end_to_end() {
    // a REAL column filtered by a literal that is not exactly
    // representable: the row whose stored double the literal parses to
    // matches, as the specification's comparison semantics ask
    let mut buf = file_of(2);
    let schema_row = record(&[
        V::Text("table"),
        V::Text("readings"),
        V::Text("readings"),
        V::I8(2),
        V::Text("CREATE TABLE readings (name TEXT, level REAL)"),
    ]);
    place_page(&mut buf, 0, PAGE, 100, 0x0d, None, &[table_leaf_cell(1, &schema_row)], true);
    let rows = [
        table_leaf_cell(1, &record(&[V::Text("low"), V::F64(0.1)])),
        table_leaf_cell(2, &record(&[V::Text("high"), V::F64(0.25)])),
    ];
    place_page(&mut buf, PAGE, PAGE, PAGE, 0x0d, None, &rows, false);
    let engine = engine_for(buf);
    let result = engine
        .run_query(parse_sql("SELECT name FROM readings WHERE level = '0.1'").unwrap())
        .unwrap();
    assert_eq!(result, "low");
    let other = engine
        .run_query(parse_sql("SELECT name FROM readings WHERE level = '0.25'").unwrap())
        .unwrap();
    assert_eq!(other, "high");
}

#[test]
fn negative_integers_project_and_filter() {
    // a table whose only column holds a signed one-byte integer
    let mut buf = file_of(2);
    let schema_row = record(&[
        V::Text("table"),
        V::Text("temps"),
        V::Text("temps"),
        V::I8(2),
        V::Text("CREATE TABLE temps (v INTEGER)"),
    ]);
    place_page(&mut buf, 0, PAGE, 100, 0x0d, None, &[table_leaf_cell(1, &schema_row)], true);
    // 0xFB sign-extends to -5
    let rows = [
        table_leaf_cell(1, &record(&[V::I8(0xFB)])),
        table_leaf_cell(2, &record(&[V::I8(7)])),
    ];
    place_page(&mut buf, PAGE, PAGE, PAGE, 0x0d, None, &rows, false);
    let engine = engine_for(buf);
    let all = engine.run_query(parse_sql("SELECT v FROM temps").unwrap()).unwrap();
    assert_eq!(all, "-5\n7");
    let filtered = engine
        .run_query(parse_sql("SELECT v FROM temps WHERE v = '-5'").unwrap())
        .unwrap();
    assert_eq!(filtered, "-5");
}
