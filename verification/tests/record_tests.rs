use toy_sqlite::cells::{IndexLeafCell, TableLeafCell};
use toy_sqlite::record::{ColumnHeader, Record, RecordHeader};
use toy_sqlite::serial_type::SerialType;
use toy_sqlite::serial_value::{parse_value, SerialValue};
use toy_sqlite::serialisation::Deserialize;

#[test]
fn test_deserialisation() {}

#[test]
fn table_leaf_cell_test_record_parsing() {
    // INSERT INTO sandwiches (name, length, count) VALUES ('Italian', 7.5, 2)
    let bytes = vec![
        0x15u8, 0x01, 0x05, 0x00, 0x1b, 0x07, 0x01, 0x49, 0x74, 0x61, 0x6c, 0x69, 0x61, 0x6e,
        0x40, 0x1e, 0x00, 0x00, 0x00, 0x00, 0x00, 0x00, 0x02,
    ];
    let (cell, _) = TableLeafCell::deserialize(&bytes, 0).unwrap();
    assert_eq!(cell.row_header.size, 21);
    assert_eq!(cell.row_header.row_id, 1);
    assert_eq!(cell.record.header.size, 5);
    // an INTEGER PRIMARY KEY column appears in the record as a NULL value
    assert_eq!(cell.record.header.column_types[0], SerialType::Null);
    assert_eq!(cell.record.header.column_types[1], SerialType::Text(7));
    assert_eq!(cell.record.header.column_types[2], SerialType::Float64);
    assert_eq!(cell.record.header.column_types[3], SerialType::Int8);
    assert_eq!(cell.record.values[0], SerialValue::Null);
    assert_eq!(cell.record.values[1], SerialValue::Text("Italian".to_string()));
    assert_eq!(cell.record.values[2], SerialValue::Float(7.5f64.to_bits()));
    assert_eq!(cell.record.values[3], SerialValue::Int(2));
}

#[test]
fn column_header_parse_reads_types() {
    // header size 5, then types Null, Text(7), Float64, Int8
    let bytes = vec![0x05u8, 0x00, 0x1b, 0x07, 0x01];
    let (h, consumed) = ColumnHeader::parse(&bytes, 0).unwrap();
    assert_eq!(consumed, 5);
    assert_eq!(h.size, 5);
    assert_eq!(
        h.column_types,
        vec![SerialType::Null, SerialType::Text(7), SerialType::Float64, SerialType::Int8]
    );
}

#[test]
fn record_header_consumed_equals_declared_size() {
    let bytes = vec![0x05u8, 0x00, 0x1b, 0x07, 0x01, 0xAA, 0xBB];
    let (h, consumed) = RecordHeader::decode(&bytes, 0).unwrap();
    assert_eq!(consumed as u64, h.size);
}

#[test]
fn record_header_rejects_overshoot() {
    // declared size 2 but the first type varint is two bytes long
    let bytes = vec![0x02u8, 0x87, 0x68];
    assert!(RecordHeader::decode(&bytes, 0).is_err());
}

#[test]
fn record_decode_reads_values() {
    // one Int8 column with value 7
    let bytes = vec![0x02u8, 0x01, 0x07];
    let (rec, n) = Record::decode(&bytes, 0).unwrap();
    assert_eq!(n, 3);
    assert_eq!(rec.values, vec![SerialValue::Int(7)]);
}

#[test]
fn index_leaf_cell_row_id_is_last_int() {
    // payload size 5, record: header size 3, types Text(1), Int8; body "a", 9
    let bytes = vec![0x05u8, 0x03, 0x0f, 0x01, 0x61, 0x09];
    let (cell, _) = IndexLeafCell::deserialize(&bytes, 0).unwrap();
    assert_eq!(cell.row_id().unwrap(), 9);
}

#[test]
fn serial_value_test_parse_value_int8() {
    let bytes = vec![0x01u8];
    let (value, _) = parse_value(&bytes, 0, SerialType::Int8).unwrap();
    assert_eq!(value, SerialValue::Int(1));
}

#[test]
fn serial_value_test_parse_value_int64() {
    let bytes = vec![127u8, 255, 255, 255, 255, 255, 255, 255];
    let (value, _) = parse_value(&bytes, 0, SerialType::Int64).unwrap();
    assert_eq!(value, SerialValue::Int(9223372036854775807));
}

#[test]
fn serial_value_test_parse_value_float() {
    let bytes = vec![0x40u8, 0x29, 0x00, 0x00, 0x00, 0x00, 0x00, 0x00];
    let (value, _) = parse_value(&bytes, 0, SerialType::Float64).unwrap();
    assert_eq!(value, SerialValue::Float(12.5f64.to_bits()));
}

#[test]
fn serial_value_test_parse_value_blob() {
    let bytes = vec![0x01u8, 0x02, 0x03, 0x04];
    let (value, _) = parse_value(&bytes, 0, SerialType::Blob(4)).unwrap();
    assert_eq!(value, SerialValue::Blob(vec![0x01, 0x02, 0x03, 0x04]));
}

#[test]
fn serial_value_test_parse_value_text() {
    let bytes = vec![0x48u8, 0x65, 0x6c, 0x6c, 0x6f];
    let (value, _) = parse_value(&bytes, 0, SerialType::Text(5)).unwrap();
    assert_eq!(value, SerialValue::Text("Hello".to_string()));
}

#[test]
fn serial_value_test_parse_value_null() {
    let bytes: Vec<u8> = vec![];
    let (value, _) = parse_value(&bytes, 0, SerialType::Null).unwrap();
    assert_eq!(value, SerialValue::Null);
}

#[test]
fn parsers_test_parse_value_int8() {
    let bytes = vec![0x01u8];
    let (value, _) = parse_value(&bytes, 0, SerialType::Int8).unwrap();
    assert_eq!(value, SerialValue::Int(1));
}

#[test]
fn parsers_test_parse_value_int64() {
    let bytes = vec![127u8, 255, 255, 255, 255, 255, 255, 255];
    let (value, _) = parse_value(&bytes, 0, SerialType::Int64).unwrap();
    assert_eq!(value, SerialValue::Int(9223372036854775807));
}

#[test]
fn parsers_test_parse_value_float() {
    let bytes = vec![0x40u8, 0x29, 0x00, 0x00, 0x00, 0x00, 0x00, 0x00];
    let (value, _) = parse_value(&bytes, 0, SerialType::Float64).unwrap();
    assert_eq!(value, SerialValue::Float(12.5f64.to_bits()));
}

#[test]
fn parsers_test_parse_value_blob() {
    let bytes = vec![0x01u8, 0x02, 0x03, 0x04];
    let (value, _) = parse_value(&bytes, 0, SerialType::Blob(4)).unwrap();
    assert_eq!(value, SerialValue::Blob(vec![0x01, 0x02, 0x03, 0x04]));
}

#[test]
fn parsers_test_parse_value_text() {
    let bytes = vec![0x48u8, 0x65, 0x6c, 0x6c, 0x6f];
    let (value, _) = parse_value(&bytes, 0, SerialType::Text(5)).unwrap();
    assert_eq!(value, SerialValue::Text("Hello".to_string()));
}

#[test]
fn parsers_test_parse_value_null() {
    let bytes: Vec<u8> = vec![];
    let (value, _) = parse_value(&bytes, 0, SerialType::Null).unwrap();
    assert_eq!(value, SerialValue::Null);
}

#[test]
fn parse_value_sign_extends_negative() {
    // a single byte 0xFF read as Int8 is -1
    let bytes = vec![0xFFu8];
    let (value, _) = parse_value(&bytes, 0, SerialType::Int8).unwrap();
    assert_eq!(value, SerialValue::Int(-1));
    // 0xFF 0x7F read as Int16 is -129
    let bytes2 = vec![0xFFu8, 0x7F];
    let (value2, _) = parse_value(&bytes2, 0, SerialType::Int16).unwrap();
    assert_eq!(value2, SerialValue::Int(-129));
}

#[test]
fn parse_value_rejects_bad_utf8() {
    let bytes = vec![0xFFu8, 0xFE];
    assert!(parse_value(&bytes, 0, SerialType::Text(2)).is_err());
}

#[test]
fn serial_type_size_matches_kind() {
    assert_eq!(SerialType::size(SerialType::Int48), 6);
    assert_eq!(SerialType::size(SerialType::Blob(11)), 11);
    assert_eq!(SerialType::size(SerialType::Text(4)), 4);
    assert_eq!(SerialType::size(SerialType::Zero), 0);
    assert_eq!(SerialType::size(SerialType::Null), 0);
}

#[test]
fn serial_type_decode_round_trips_codes() {
    assert_eq!(SerialType::decode(0).unwrap(), SerialType::Null);
    assert_eq!(SerialType::decode(7).unwrap(), SerialType::Float64);
    assert_eq!(SerialType::decode(12).unwrap(), SerialType::Blob(0));
    assert_eq!(SerialType::decode(13).unwrap(), SerialType::Text(0));
    assert_eq!(SerialType::decode(27).unwrap(), SerialType::Text(7));
    assert!(SerialType::decode(10).is_err());
    assert!(SerialType::decode(11).is_err());
}

#[test]
fn record_test_record_parsing() {
    // INSERT INTO sandwiches (name, length, count) VALUES ('Italian', 7.5, 2)
    let bytes = vec![
        0x15u8, 0x01, 0x05, 0x00, 0x1b, 0x07, 0x01, 0x49, 0x74, 0x61, 0x6c, 0x69, 0x61, 0x6e,
        0x40, 0x1e, 0x00, 0x00, 0x00, 0x00, 0x00, 0x00, 0x02,
    ];
    let (cell, _) = TableLeafCell::deserialize(&bytes, 0).unwrap();
    assert_eq!(cell.row_header.size, 21);
    assert_eq!(cell.row_header.row_id, 1);
    assert_eq!(cell.record.header.size, 5);
    assert_eq!(cell.record.header.column_types[0], SerialType::Null);
    assert_eq!(cell.record.header.column_types[1], SerialType::Text(7));
    assert_eq!(cell.record.header.column_types[2], SerialType::Float64);
    assert_eq!(cell.record.header.column_types[3], SerialType::Int8);
    assert_eq!(cell.record.values[0], SerialValue::Null);
    assert_eq!(cell.record.values[1], SerialValue::Text("Italian".to_string()));
    assert_eq!(cell.record.values[2], SerialValue::Float(7.5f64.to_bits()));
    assert_eq!(cell.record.values[3], SerialValue::Int(2));
}

#[test]
fn parsers_test_record_parsing() {
    let bytes = vec![
        0x15u8, 0x01, 0x05, 0x00, 0x1b, 0x07, 0x01, 0x49, 0x74, 0x61, 0x6c, 0x69, 0x61, 0x6e,
        0x40, 0x1e, 0x00, 0x00, 0x00, 0x00, 0x00, 0x00, 0x02,
    ];
    let (cell, _) = TableLeafCell::deserialize(&bytes, 0).unwrap();
    assert_eq!(cell.row_header.size, 21);
    assert_eq!(cell.row_header.row_id, 1);
    assert_eq!(cell.record.header.size, 5);
    assert_eq!(cell.record.values[1], SerialValue::Text("Italian".to_string()));
    assert_eq!(cell.record.values[2], SerialValue::Float(7.5f64.to_bits()));
    assert_eq!(cell.record.values[3], SerialValue::Int(2));
}
