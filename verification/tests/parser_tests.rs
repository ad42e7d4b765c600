use toy_sqlite::lexer::{lexer, Token};
use toy_sqlite::parser::{parse_sql, AggregateFn, Column, Comparison, Operator, SelectQuery};

#[test]
fn test_tokenizing_multiple_columns() {
    let tokens = lexer("col1, col2, Count(*)").unwrap();
    assert_eq!(Token::Identifier("col1".to_string()), tokens[0]);
    assert_eq!(Token::Comma, tokens[1]);
    assert_eq!(Token::Identifier("col2".to_string()), tokens[2]);
    assert_eq!(Token::Comma, tokens[3]);
    assert_eq!(Token::Count, tokens[4]);
}

#[test]
fn parser_test_select_count() {
    let query = "SELECT COUNT(*) FROM apples";
    let parsed_query: SelectQuery = parse_sql(query).unwrap();
    assert_eq!(
        parsed_query.columns[0],
        Column::Aggregation(AggregateFn::CountAll)
    );
    assert_eq!(parsed_query.table, "apples")
}

#[test]
fn test_select_column() {
    let query = "SELECT name FROM apples";
    let parsed_query = parse_sql(query).unwrap();
    assert_eq!(parsed_query.columns[0], Column::Regular("name".to_string()));
    assert_eq!(parsed_query.table, "apples")
}

#[test]
fn test_select_column_with_where() {
    let query = "SELECT name FROM apples WHERE color = 'Yellow'";
    let parsed_query = parse_sql(query).unwrap();
    assert_eq!(parsed_query.columns[0], Column::Regular("name".to_string()));
    assert_eq!(parsed_query.table, "apples");
    let expected_comparison = Comparison {
        column: "color".to_string(),
        value: "Yellow".to_string(),
        operator: Operator::Equals,
    };
    assert_eq!(parsed_query.where_clause.unwrap(), expected_comparison)
}

#[test]
fn test_select_count_and_column() {
    let query = "SELECT COUNT(*), name FROM apples WHERE color = 'Yellow'";
    let parsed_query = parse_sql(query).unwrap();
    assert_eq!(
        parsed_query.columns[0],
        Column::Aggregation(AggregateFn::CountAll)
    );
    assert_eq!(parsed_query.columns[1], Column::Regular("name".to_string()));
    assert_eq!(parsed_query.table, "apples")
}

#[test]
fn test_select_all_columns() {
    let query = "SELECT * from oranges";
    let parsed_query = parse_sql(query).unwrap();
    assert_eq!(parsed_query.columns[0], Column::All);
    assert_eq!(parsed_query.table, "oranges")
}

#[test]
fn lexer_rejects_unexpected_character() {
    assert!(lexer("SELECT ; FROM t").is_err());
}

#[test]
fn parser_rejects_missing_from() {
    assert!(parse_sql("SELECT a b").is_err());
    assert!(parse_sql("WHERE a = 'b'").is_err());
}

#[test]
fn lexer_reads_string_literal() {
    let tokens = lexer("'Light Green'").unwrap();
    assert_eq!(tokens[0], Token::StringLiteral("Light Green".to_string()));
    assert_eq!(tokens[1], Token::EOF);
}
