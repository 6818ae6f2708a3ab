use rust_solo_all_db::query::analysis::{
    analyze_sql, extract_select_columns, extract_table_name, extract_where_conditions, find_word,
    has_parameters, QueryType,
};
use rust_solo_all_db::DbError;

fn words(text: &str) -> Vec<String> {
    text.split_whitespace().map(|w| w.to_string()).collect()
}

#[test]
fn test_analysis_of_a_selection() {
    let a = analyze_sql("select name, age from users where id = 7").unwrap();
    assert_eq!(a.query_type, QueryType::Select);
    assert_eq!(a.table_name, Some("users".to_string()));
    assert_eq!(a.columns, vec!["name".to_string(), "age".to_string()]);
    assert_eq!(a.where_conditions.len(), 1);
    assert_eq!(a.where_conditions[0].column, "id");
    assert_eq!(a.where_conditions[0].operator, "=");
    assert_eq!(a.where_conditions[0].value, "7");
    assert!(!a.has_parameters);
}

#[test]
fn test_analysis_of_the_other_kinds() {
    let a = analyze_sql("INSERT INTO users (name) VALUES ({name})").unwrap();
    assert_eq!(a.query_type, QueryType::Insert);
    assert_eq!(a.table_name, Some("users".to_string()));
    assert!(a.columns.is_empty());
    assert!(a.where_conditions.is_empty());
    assert!(a.has_parameters);

    let a = analyze_sql("Delete From logs Where age > 30").unwrap();
    assert_eq!(a.query_type, QueryType::Delete);
    assert_eq!(a.table_name, Some("logs".to_string()));
    assert_eq!(a.where_conditions[0].operator, ">");

    let a = analyze_sql("UPDATE users SET a = 1").unwrap();
    assert_eq!(a.query_type, QueryType::Update);
    assert_eq!(a.table_name, Some("users".to_string()));
}

#[test]
fn test_analysis_refuses() {
    assert!(matches!(analyze_sql(""), Err(DbError::InvalidQuery(m)) if m == "Empty SQL query"));
    assert!(matches!(analyze_sql("   "), Err(DbError::InvalidQuery(_))));
    assert!(matches!(
        analyze_sql("DROP TABLE users"),
        Err(DbError::InvalidQuery(m)) if m == "Unsupported SQL query type: DROP"
    ));
    assert!(matches!(
        analyze_sql("SELECT a"),
        Err(DbError::InvalidQuery(m)) if m == "Missing FROM clause in SELECT"
    ));
    assert!(matches!(
        analyze_sql("SELECT a FROM"),
        Err(DbError::InvalidQuery(m)) if m == "Missing table name after FROM"
    ));
    assert!(matches!(
        analyze_sql("INSERT users"),
        Err(DbError::InvalidQuery(m)) if m == "Missing INTO clause in INSERT"
    ));
    assert!(matches!(
        analyze_sql("UPDATE"),
        Err(DbError::InvalidQuery(m)) if m == "Missing table name in UPDATE"
    ));
}

#[test]
fn test_columns_are_cut_at_commas() {
    assert_eq!(
        extract_select_columns(&words("SELECT a , b,c ,, d e FROM t")).unwrap(),
        vec!["a".to_string(), "b".to_string(), "c".to_string(), "d e".to_string()]
    );
    assert_eq!(extract_select_columns(&words("SELECT * FROM t")).unwrap(), vec!["*".to_string()]);
    assert_eq!(extract_select_columns(&words("SELECT a, b")).unwrap(), vec!["a".to_string(), "b".to_string()]);
    assert!(extract_select_columns(&words("SELECT")).unwrap().is_empty());
    assert!(extract_select_columns(&words("SELECT FROM t")).unwrap().is_empty());
    assert!(extract_select_columns(&words("FROM t")).unwrap().is_empty());
}

#[test]
fn test_words_are_found_whatever_their_case() {
    let w = words("select a from t where x = 1");
    assert_eq!(find_word(&w, "FROM"), 2);
    assert_eq!(find_word(&w, "WHERE"), 4);
    assert_eq!(find_word(&w, "INTO"), w.len());
    assert_eq!(extract_table_name(&w, QueryType::Select).unwrap(), Some("t".to_string()));
    assert!(extract_where_conditions(&words("select a from t where x =")).unwrap().is_empty());
    assert_eq!(extract_where_conditions(&w).unwrap().len(), 1);
    assert!(has_parameters("a {b}"));
    assert!(has_parameters("}"));
    assert!(!has_parameters("a (b)"));
}
