use rust_solo_all_db::query::literal::is_number_literal;
use rust_solo_all_db::query::{
    tokenize, Condition, DeleteStatement, InsertStatement, SQLParser, SelectStatement, Statement, Value,
    WhereClause,
};
use rust_solo_all_db::DbError;

#[test]
fn test_tokenize() {
    let sql = "SELECT name, age FROM users WHERE id = 1";
    let tokens = tokenize(sql);
    assert_eq!(tokens, vec![
        "SELECT", "name", ",", "age", "FROM", "users", "WHERE", "id", "=", "1"
    ]);
}

#[test]
fn test_tokenize_strings_and_operators() {
    assert_eq!(tokenize("a>=1"), vec!["a", ">=", "1"]);
    assert_eq!(tokenize("a<>b"), vec!["a", "<>", "b"]);
    assert_eq!(tokenize("a != b"), vec!["a", "!=", "b"]);
    assert_eq!(tokenize("a<=b"), vec!["a", "<=", "b"]);
    assert_eq!(tokenize("a=b"), vec!["a", "=", "b"]);
    assert_eq!(tokenize("a =< b"), vec!["a", "=", "<", "b"]);
    assert_eq!(tokenize("x = 'a b, (c)'"), vec!["x", "=", "'a b, (c)'"]);
    assert_eq!(tokenize("f(a,b);"), vec!["f", "(", "a", ",", "b", ")", ";"]);
    assert_eq!(tokenize("  \t\n"), Vec::<String>::new());
    assert_eq!(tokenize(""), Vec::<String>::new());
    assert_eq!(tokenize("ab'cd'ef"), vec!["ab", "'cd'", "ef"]);
    // a string that is not closed runs to the end
    assert_eq!(tokenize("a 'b c"), vec!["a", "'b c"]);
    // a sign that ends the text is dropped
    assert_eq!(tokenize("a ="), vec!["a"]);
    assert_eq!(tokenize("ключ = 'знач'"), vec!["ключ", "=", "'знач'"]);
}

#[test]
fn test_parse_select() {
    let mut parser = SQLParser::new("SELECT name, age FROM users WHERE id = 1 LIMIT 10");
    let stmt = parser.parse().unwrap();

    if let Statement::Select(select) = stmt {
        assert_eq!(select.columns, vec!["name", "age"]);
        assert_eq!(select.table, "users");
        assert!(select.where_clause.is_some());
        assert_eq!(select.limit, Some(10));
    } else {
        panic!("Expected SELECT statement");
    }
}

#[test]
fn test_parse_insert() {
    let mut parser = SQLParser::new("INSERT INTO users (name, age) VALUES ('Alice', 25)");
    let stmt = parser.parse().unwrap();

    if let Statement::Insert(insert) = stmt {
        assert_eq!(insert.table, "users");
        assert_eq!(insert.columns, vec!["name", "age"]);
        assert_eq!(insert.values, vec![Value::String("Alice".to_string()), Value::Number("25".to_string())]);
    } else {
        panic!("Expected INSERT statement");
    }
}

#[test]
fn test_parse_delete() {
    let mut parser = SQLParser::new("DELETE FROM users WHERE age > 65");
    let stmt = parser.parse().unwrap();

    if let Statement::Delete(delete) = stmt {
        assert_eq!(delete.table, "users");
        assert!(delete.where_clause.is_some());
    } else {
        panic!("Expected DELETE statement");
    }
}

#[test]
fn test_parse_conditions() {
    let mut parser = SQLParser::new(
        "select * from t where a = 'x' and b != 2 or c like 'p%' and d >= true and e <= null",
    );
    let stmt = parser.parse().unwrap();
    let expected = Condition::And(
        Box::new(Condition::Equals("a".to_string(), Value::String("x".to_string()))),
        Box::new(Condition::Or(
            Box::new(Condition::NotEquals("b".to_string(), Value::Number("2".to_string()))),
            Box::new(Condition::And(
                Box::new(Condition::Like("c".to_string(), "p%".to_string())),
                Box::new(Condition::And(
                    Box::new(Condition::GreaterThanOrEqual("d".to_string(), Value::Boolean(true))),
                    Box::new(Condition::LessThanOrEqual("e".to_string(), Value::Null)),
                )),
            )),
        )),
    );
    assert_eq!(
        stmt,
        Statement::Select(SelectStatement {
            columns: vec!["*".to_string()],
            table: "t".to_string(),
            where_clause: Some(WhereClause { condition: expected }),
            limit: None,
        })
    );
}

#[test]
fn test_parse_errors() {
    assert_eq!(
        SQLParser::new("").parse(),
        Err(DbError::InvalidQuery("Empty SQL statement".to_string()))
    );
    assert_eq!(
        SQLParser::new("UPDATE t").parse(),
        Err(DbError::InvalidQuery("Unsupported statement: UPDATE".to_string()))
    );
    assert_eq!(
        SQLParser::new("SELECT a b").parse(),
        Err(DbError::InvalidOperation("Expected 'FROM', found 'b'".to_string()))
    );
    assert_eq!(
        SQLParser::new("SELECT a FROM").parse(),
        Err(DbError::InvalidOperation("Expected identifier".to_string()))
    );
    assert_eq!(
        SQLParser::new("SELECT a,").parse(),
        Err(DbError::InvalidOperation("Expected identifier".to_string()))
    );
    assert_eq!(
        SQLParser::new("SELECT a").parse(),
        Err(DbError::InvalidOperation("Expected 'FROM', found end of input".to_string()))
    );
    assert_eq!(
        SQLParser::new("DELETE FROM t WHERE a = b").parse(),
        Err(DbError::InvalidOperation("Invalid value: b".to_string()))
    );
    assert_eq!(
        SQLParser::new("DELETE FROM t WHERE a ~ 1").parse(),
        Err(DbError::InvalidQuery("Unsupported operator: ~".to_string()))
    );
    assert_eq!(
        SQLParser::new("DELETE FROM t WHERE a LIKE 1").parse(),
        Err(DbError::InvalidQuery("LIKE operator requires string pattern".to_string()))
    );
    assert_eq!(
        SQLParser::new("SELECT a FROM t LIMIT x").parse(),
        Err(DbError::InvalidOperation("Expected number, found 'x'".to_string()))
    );
    assert_eq!(
        SQLParser::new("SELECT a FROM t LIMIT").parse(),
        Err(DbError::InvalidOperation("Expected number".to_string()))
    );
    assert_eq!(
        SQLParser::new("DELETE FROM t WHERE a = ").parse(),
        Err(DbError::InvalidOperation("Expected value".to_string()))
    );
}

#[test]
fn test_parser_steps() {
    let mut parser = SQLParser::new("Select a , b from t");
    assert_eq!(parser.peek(), Some(&"Select".to_string()));
    // words are taken whatever their case
    assert!(parser.consume("SELECT").is_ok());
    assert_eq!(parser.parse_columns().unwrap(), vec!["a", "b"]);
    assert!(parser.consume("where").is_err());
    assert!(parser.consume("FROM").is_ok());
    assert_eq!(parser.consume_identifier().unwrap(), "t");
    assert_eq!(parser.peek(), None);
    parser.advance();
    assert_eq!(parser.peek(), None);
    assert!(parser.consume_identifier().is_err());
}

#[test]
fn test_number_literals() {
    for good in ["1", "25", "-3", "+4", "1.5", ".5", "5.", "1e9", "1E-9", "1.5e+3", "inf", "-Infinity", "NaN", "007"] {
        assert!(is_number_literal(good), "{} is a number", good);
        assert!(good.parse::<f64>().is_ok());
    }
    for bad in ["", "-", ".", "e5", "1e", "1e+", "1.2.3", "1 ", "0x10", "in", "1_000", "１"] {
        assert!(!is_number_literal(bad), "{} is no number", bad);
        assert!(bad.parse::<f64>().is_err());
    }
}

#[test]
fn test_select_statement_display() {
    let select = SelectStatement {
        columns: vec!["name".to_string(), "age".to_string()],
        table: "users".to_string(),
        where_clause: Some(WhereClause {
            condition: Condition::Equals("id".to_string(), Value::Number("1".to_string())),
        }),
        limit: Some(10),
    };

    let stmt = Statement::Select(select);
    assert_eq!(stmt.to_string(), "SELECT name, age FROM users WHERE id = 1 LIMIT 10");
}

#[test]
fn test_insert_statement_display() {
    let insert = InsertStatement {
        table: "users".to_string(),
        columns: vec!["name".to_string(), "age".to_string()],
        values: vec![Value::String("Alice".to_string()), Value::Number("25".to_string())],
    };

    let stmt = Statement::Insert(insert);
    assert_eq!(stmt.to_string(), "INSERT INTO users (name, age) VALUES ('Alice', 25)");
}

#[test]
fn test_complex_where_condition() {
    let condition = Condition::And(
        Box::new(Condition::Equals("status".to_string(), Value::String("active".to_string()))),
        Box::new(Condition::GreaterThan("age".to_string(), Value::Number("18".to_string()))),
    );

    assert_eq!(condition.to_string(), "(status = 'active' AND age > 18)");
}

#[test]
fn test_display_of_all_forms() {
    let delete = Statement::Delete(DeleteStatement {
        table: "t".to_string(),
        where_clause: Some(WhereClause {
            condition: Condition::Or(
                Box::new(Condition::Like("a".to_string(), "x%".to_string())),
                Box::new(Condition::LessThan("b".to_string(), Value::Null)),
            ),
        }),
    });
    assert_eq!(delete.to_string(), "DELETE FROM t WHERE (a LIKE 'x%' OR b < NULL)");
    let bare = Statement::Delete(DeleteStatement { table: "t".to_string(), where_clause: None });
    assert_eq!(bare.to_string(), "DELETE FROM t");
    assert_eq!(Value::Boolean(true).to_string(), "true");
    assert_eq!(Value::Boolean(false).to_string(), "false");
    assert_eq!(
        Condition::NotEquals("a".to_string(), Value::Boolean(false)).to_string(),
        "a != false"
    );
    assert_eq!(
        Condition::GreaterThanOrEqual("a".to_string(), Value::Number("2".to_string())).to_string(),
        "a >= 2"
    );
    assert_eq!(
        Condition::LessThanOrEqual("a".to_string(), Value::Number("2".to_string())).to_string(),
        "a <= 2"
    );
    let select = Statement::Select(SelectStatement {
        columns: vec!["*".to_string()],
        table: "t".to_string(),
        where_clause: None,
        limit: None,
    });
    assert_eq!(select.to_string(), "SELECT * FROM t");
}
