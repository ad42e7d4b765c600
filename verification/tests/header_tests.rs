use toy_sqlite::btree_header::{BTreeHeader, BTreePageType};
use toy_sqlite::page::{PageHeader, PageType};
use toy_sqlite::serialisation::Deserialize;

#[test]
fn page_header_test_deserializing_leaftable_header() {
    let bytes = vec![0x0du8, 0x0, 0x0, 0x0, 0x3, 0x0, 0x0, 0x0];
    let (page_header, _) = PageHeader::deserialize(&bytes, 0).unwrap();
    assert_eq!(page_header.page_type, PageType::TableLeaf);
    assert_eq!(page_header.cell_count, 3);
    assert_eq!(page_header.rightmost_pointer, None);
}

#[test]
fn page_header_test_parsing_interiortable_header() {
    let bytes = vec![0x05u8, 0x0, 0x0, 0x0, 0x3, 0x0, 0x0, 0x0, 0x0, 0x0, 0x0, 0x1];
    let (page_header, _) = PageHeader::deserialize(&bytes, 0).unwrap();
    assert_eq!(page_header.page_type, PageType::TableInterior);
    assert_eq!(page_header.cell_count, 3);
    assert_eq!(page_header.rightmost_pointer, Some(1));
}

#[test]
fn btree_header_test_deserializing_leaftable_header() {
    let bytes = vec![0x0du8, 0x0, 0x0, 0x0, 0x3, 0x0, 0x0, 0x0];
    let (btree_header, _) = BTreeHeader::deserialize(&bytes, 0).unwrap();
    assert_eq!(btree_header.page_type, BTreePageType::LeafTable);
    assert_eq!(btree_header.cell_count, 3);
    assert_eq!(btree_header.rightmost_pointer, None);
}

#[test]
fn btree_header_test_parsing_interiortable_header() {
    let bytes = vec![0x05u8, 0x0, 0x0, 0x0, 0x3, 0x0, 0x0, 0x0, 0x0, 0x0, 0x0, 0x1];
    let (btree_header, _) = BTreeHeader::deserialize(&bytes, 0).unwrap();
    assert_eq!(btree_header.page_type, BTreePageType::InteriorTable);
    assert_eq!(btree_header.cell_count, 3);
    assert_eq!(btree_header.rightmost_pointer, Some(1));
}

#[test]
fn test_parsing_leaftable_header() {
    let bytes = vec![0x0du8, 0x0, 0x0, 0x0, 0x3, 0x0, 0x0, 0x0];
    let (btree_header, _) = BTreeHeader::parse(&bytes, 0).expect("Couldn't parse BTreeHeader");
    assert_eq!(btree_header.page_type, BTreePageType::LeafTable);
    assert_eq!(btree_header.cell_count, 3);
    assert_eq!(btree_header.rightmost_pointer, None);
}

#[test]
fn parsers_test_parsing_interiortable_header() {
    let bytes = vec![0x05u8, 0x0, 0x0, 0x0, 0x3, 0x0, 0x0, 0x0, 0x0, 0x0, 0x0, 0x1];
    let (btree_header, _) = BTreeHeader::parse(&bytes, 0).expect("Couldn't parse BTreeHeader");
    assert_eq!(btree_header.page_type, BTreePageType::InteriorTable);
    assert_eq!(btree_header.cell_count, 3);
    assert_eq!(btree_header.rightmost_pointer, Some(1));
}

#[test]
fn page_header_rejects_unknown_type() {
    let bytes = vec![0x42u8, 0x0, 0x0, 0x0, 0x3, 0x0, 0x0, 0x0];
    assert!(PageHeader::decode(&bytes, 0).is_err());
}

#[test]
fn db_header_reads_page_size() {
    let mut bytes = vec![0u8; 100];
    bytes[16] = 0x10;
    bytes[17] = 0x00;
    let h = toy_sqlite::db_header::Dbheader::parse(&bytes).unwrap();
    assert_eq!(h.page_size, 4096);
    assert!(toy_sqlite::db_header::Dbheader::parse(&bytes[..99]).is_err());
}

#[test]
fn page_decode_matches_cell_count() {
    // a leaf page with two cell pointers
    let bytes = vec![0x0du8, 0x0, 0x0, 0x0, 0x2, 0x0, 0x0, 0x0, 0x01, 0x10, 0x01, 0x20];
    let page = toy_sqlite::page::Page::decode(&bytes, 0).unwrap();
    assert_eq!(page.cell_pointers.len(), page.header.cell_count as usize);
    assert_eq!(page.cell_pointers, vec![0x110, 0x120]);
}
