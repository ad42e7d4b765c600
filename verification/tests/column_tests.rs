use toy_sqlite::column::{find_column_index, get_column_names, is_integer_primary_key};
use toy_sqlite::schema::{DbObject, SchemaRecord};

fn schema_rec(tbl_name: &str, sql: &str) -> SchemaRecord {
    SchemaRecord {
        db_object: DbObject::Table,
        name: "".to_string(),
        rootpage: 1,
        tbl_name: tbl_name.to_string(),
        sql: sql.to_string(),
    }
}

#[test]
fn test_integer_primary_key() {
    let table = schema_rec("test", "CREATE TABLE test (id INTEGER PRIMARY KEY, name TEXT)");
    let result = is_integer_primary_key(&table, &0).unwrap();
    assert!(result, "Expected column 0 to be an integer primary key");
}

#[test]
fn test_integer_not_primary_key() {
    let table = schema_rec("test", "CREATE TABLE TEST (id INTEGER, name TEXT)");
    let result = is_integer_primary_key(&table, &0).unwrap();
    assert!(!result, "Expected column 0 to not be an integer primary key");
}

#[test]
fn test_primary_key_not_integer() {
    let table = schema_rec("test", "CREATE TABLE test (id TEXT PRIMARY KEY, name TEXT)");
    let result = is_integer_primary_key(&table, &0).unwrap();
    assert!(
        !result,
        "Expected column 0 to not be an integer primary key since it's not an integer"
    );
}

#[test]
fn test_out_of_bounds() {
    let table = schema_rec("test", "CREATE TABLE test (id INTEGER PRIMARY KEY)");
    let result = is_integer_primary_key(&table, &1);
    assert!(
        result.is_err(),
        "Expected an error when accessing a non-existent column index"
    );
}

#[test]
fn column_test_find_column_index() {
    let create_table_sql = r#"
        CREATE TABLE employees (
            id INT PRIMARY KEY,
            name VARCHAR(100),
            age INT,
            department VARCHAR(50)
        );
    "#;

    let columns: Vec<String> =
        get_column_names(create_table_sql).expect("couldn't find column names");

    let index = find_column_index(&columns, "name").unwrap();
    assert_eq!(index, 1);
}

#[test]
fn serialisation_test_find_column_index() {
    let create_table_sql = r#"
        CREATE TABLE employees (
            id INT PRIMARY KEY,
            name VARCHAR(100),
            age INT,
            department VARCHAR(50)
        );
    "#;

    let columns: Vec<String> =
        get_column_names(create_table_sql).expect("couldn't find column names");

    match find_column_index(&columns, "name") {
        Ok(index) => println!("The index of 'name' is: {}", index),
        Err(e) => println!("Error: {:?}", e),
    }
}

#[test]
fn utils_test_find_column_index() {
    let create_table_sql = r#"
        CREATE TABLE employees (
            id INT PRIMARY KEY,
            name VARCHAR(100),
            age INT,
            department VARCHAR(50)
        );
    "#;

    let columns: Vec<String> =
        get_column_names(create_table_sql).expect("couldn't find column names");

    match find_column_index(&columns, "name") {
        Ok(index) => println!("The index of 'name' is: {}", index),
        Err(e) => println!("Error: {:?}", e),
    }
}

#[test]
fn column_names_are_lowered_in_order() {
    let names = get_column_names("CREATE TABLE t (Id INTEGER, NAME Text, Color TEXT)").unwrap();
    assert_eq!(names, vec!["id".to_string(), "name".to_string(), "color".to_string()]);
}

#[test]
fn column_names_missing_parens_is_error() {
    assert!(get_column_names("CREATE TABLE t").is_err());
    assert!(find_column_index(&vec!["a".to_string()], "b").is_err());
}

#[test]
fn find_column_index_ignores_ascii_case() {
    let columns = vec!["id".to_string(), "name".to_string()];
    assert_eq!(find_column_index(&columns, "NAME").unwrap(), 1);
}
