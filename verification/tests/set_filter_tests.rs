use toy_sqlite::filter::{apply_comparison, check_equality, filter_items, greater_than, insert_unique};
use toy_sqlite::parser::{Comparison, Operator};
use toy_sqlite::record::{Record, RecordHeader};
use toy_sqlite::serial_type::SerialType;
use toy_sqlite::serial_value::SerialValue;
use toy_sqlite::set::InsertionSet;

#[test]
fn test_push_and_iter() {
    let mut set: InsertionSet<i32> = InsertionSet::new();

    set.push(3);
    set.push(1);
    set.push(2);
    // a duplicate is rejected
    set.push(3);

    let items: Vec<i32> = set.iter().clone();
    assert_eq!(items, vec![3, 1, 2]);
}

#[test]
fn test_into_iter() {
    let mut set: InsertionSet<char> = InsertionSet::new();
    set.push('a');
    set.push('b');
    set.push('c');
    // a duplicate is rejected
    set.push('a');

    let items: Vec<char> = set.into_vec();
    assert_eq!(items, vec!['a', 'b', 'c']);
}

#[test]
fn test_insert_unique_rejects_duplicate() {
    let mut v: Vec<usize> = (0..3).collect();
    insert_unique(&mut v, &2);
    assert_eq!(v.len(), 3);
    assert_eq!(v.last().unwrap(), &2)
}

#[test]
fn test_insert_unique_accepts_new_value() {
    let mut v: Vec<usize> = (0..3).collect();
    insert_unique(&mut v, &3);
    assert_eq!(v.len(), 4);
    assert_eq!(v.last().unwrap(), &3)
}

fn float_record(x: f64) -> Record {
    Record {
        header: RecordHeader { size: 2, column_types: vec![SerialType::Float64] },
        values: vec![SerialValue::Float(x.to_bits())],
    }
}

#[test]
fn test_apply_filter() {
    let column_name = "numbers".to_string();
    let ordered_column_names: Vec<String> = vec![column_name.clone()];
    let recs = vec![float_record(34.)];

    let cmp = Comparison {
        value: "34".to_string(),
        column: column_name,
        operator: Operator::Equals,
    };

    let filtered_recs = filter_items(&recs, &ordered_column_names, &cmp).unwrap();
    assert_eq!(filtered_recs.iter().len(), 1)
}

#[test]
fn test_apply_filter_removes_value() {
    let column_name = "numbers".to_string();
    let ordered_column_names: Vec<String> = vec![column_name.clone()];
    let recs = vec![float_record(34.)];

    let cmp = Comparison {
        value: "1".to_string(),
        column: column_name,
        operator: Operator::Equals,
    };

    let filtered_recs = filter_items(&recs, &ordered_column_names, &cmp).unwrap();
    assert_eq!(filtered_recs.iter().len(), 0)
}

#[test]
fn test_apply_comparison() {
    let column_name = "numbers".to_string();
    let ordered_column_names: Vec<String> = vec![column_name.clone()];
    let mut recs = vec![float_record(34.)];

    let cmp = Comparison {
        value: "34".to_string(),
        column: column_name,
        operator: Operator::Equals,
    };

    apply_comparison(&mut recs, ordered_column_names, cmp).unwrap();
    assert_eq!(recs.len(), 1)
}

#[test]
fn float_equality_matches_the_parsed_literal() {
    let column = "v".to_string();
    let names = vec![column.clone()];
    let recs = vec![float_record(7.5)];
    let keep = Comparison {
        value: "7.5".to_string(),
        column: column.clone(),
        operator: Operator::Equals,
    };
    assert_eq!(filter_items(&recs, &names, &keep).unwrap().len(), 1);
    let drop = Comparison {
        value: "7.25".to_string(),
        column,
        operator: Operator::Equals,
    };
    assert_eq!(filter_items(&recs, &names, &drop).unwrap().len(), 0);
}

#[test]
fn float_equality_rounds_the_literal_to_the_nearest_double() {
    // the stored double nearest to one tenth equals the literal "0.1",
    // exactly as parsing the literal to a float would decide
    assert!(check_equality(&SerialValue::Float(0.1f64.to_bits()), &"0.1".to_string()).unwrap());
    // a longer spelling that parses to the same double also matches
    assert!(check_equality(
        &SerialValue::Float(0.1f64.to_bits()),
        &"0.10000000000000001".to_string()
    )
    .unwrap());
    assert!(!check_equality(&SerialValue::Float(0.1f64.to_bits()), &"0.2".to_string()).unwrap());
    assert!(
        !check_equality(&SerialValue::Float(0.30000000000000004f64.to_bits()), &"0.3".to_string())
            .unwrap()
    );
    assert!(check_equality(&SerialValue::Float(0.0f64.to_bits()), &"0.0".to_string()).unwrap());
    assert!(check_equality(&SerialValue::Float((-0.0f64).to_bits()), &"0".to_string()).unwrap());
    assert!(check_equality(&SerialValue::Float((-2.5f64).to_bits()), &"-2.5".to_string()).unwrap());
}

#[test]
fn float_equality_breaks_ties_to_even() {
    // 9007199254740993 lies exactly between two doubles; parsing picks
    // the even significand, 9007199254740992
    let even_low = 9007199254740992.0f64;
    assert!(check_equality(
        &SerialValue::Float(even_low.to_bits()),
        &"9007199254740993".to_string()
    )
    .unwrap());
    // 9007199254740995 ties the other way, up to 9007199254740996
    let even_high = 9007199254740996.0f64;
    assert!(check_equality(
        &SerialValue::Float(even_high.to_bits()),
        &"9007199254740995".to_string()
    )
    .unwrap());
    let odd_neighbour = 9007199254740994.0f64;
    assert!(!check_equality(
        &SerialValue::Float(odd_neighbour.to_bits()),
        &"9007199254740995".to_string()
    )
    .unwrap());
}

#[test]
fn int_and_text_and_null_equality() {
    assert!(check_equality(&SerialValue::Int(-42), &"-42".to_string()).unwrap());
    assert!(!check_equality(&SerialValue::Int(-42), &"42".to_string()).unwrap());
    assert!(check_equality(&SerialValue::Text("Red".to_string()), &"Red".to_string()).unwrap());
    assert!(check_equality(&SerialValue::Null, &"NULL".to_string()).unwrap());
    assert!(check_equality(&SerialValue::Int(5), &"x".to_string()).is_err());
    assert!(check_equality(&SerialValue::Blob(vec![1]), &"x".to_string()).is_err());
}

#[test]
fn greater_than_orders_values() {
    assert!(greater_than(&SerialValue::Int(5), &"4".to_string()).unwrap());
    assert!(!greater_than(&SerialValue::Int(3), &"4".to_string()).unwrap());
    assert!(!greater_than(&SerialValue::Null, &"anything".to_string()).unwrap());
    assert!(greater_than(&SerialValue::Text("rwanda".to_string()), &"peru".to_string()).unwrap());
    assert!(greater_than(&SerialValue::Float(2.5f64.to_bits()), &"2.25".to_string()).unwrap());
    assert!(!greater_than(&SerialValue::Float(2.0f64.to_bits()), &"2.25".to_string()).unwrap());
    // the stored double nearest to three tenths is at least the literal
    // "0.3", since the literal rounds to that very double
    assert!(greater_than(&SerialValue::Float(0.3f64.to_bits()), &"0.3".to_string()).unwrap());
    assert!(!greater_than(&SerialValue::Float(0.2f64.to_bits()), &"0.3".to_string()).unwrap());
}
