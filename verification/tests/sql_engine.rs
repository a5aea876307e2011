use systems::sql_engine::{
    row_for_insert, select_rows, ColumnDef, DataType, Expr, InMemoryStorage, Lexer, Row, SqlEngine, SqlError,
    StorageEngine, TableSchema, Token, Value,
};

#[test]
fn sql_engine_test_lexer() {
    let sql = "SELECT id, 'bob', 123 FROM users WHERE id = 1;";
    let lexer = Lexer::new(sql);
    let tokens = lexer.tokenize().unwrap();

    assert_eq!(
        tokens,
        vec![
            Token::Select,
            Token::Identifier("id".into()),
            Token::Comma,
            Token::StringLiteral("bob".into()),
            Token::Comma,
            Token::IntegerLiteral(123),
            Token::From,
            Token::Identifier("users".into()),
            Token::Where,
            Token::Identifier("id".into()),
            Token::Equals,
            Token::IntegerLiteral(1),
            Token::Semicolon,
        ]
    );
}

#[test]
fn test_full_pipeline() {
    let storage = InMemoryStorage::new();
    let mut engine = SqlEngine::new(storage);

    let res = engine
        .execute("CREATE TABLE users (id INT, name TEXT, is_active BOOL);")
        .unwrap();
    assert!(res.is_empty());

    engine
        .execute("INSERT INTO users VALUES (1, 'Alice', TRUE);")
        .unwrap();
    engine
        .execute("INSERT INTO users VALUES (2, 'Bob', FALSE);")
        .unwrap();
    engine
        .execute("INSERT INTO users VALUES (3, 'Charlie', TRUE);")
        .unwrap();

    let res = engine.execute("SELECT * FROM users;").unwrap();
    assert_eq!(res.len(), 3);
    assert_eq!(res[0].values[1], Value::Text("Alice".into()));

    let res = engine
        .execute("SELECT name FROM users WHERE is_active = TRUE;")
        .unwrap();
    assert_eq!(res.len(), 2);
    assert_eq!(res[0].values.len(), 1);
    assert_eq!(res[0].values[0], Value::Text("Alice".into()));
    assert_eq!(res[1].values[0], Value::Text("Charlie".into()));

    let res = engine
        .execute("SELECT name FROM users WHERE id = 2;")
        .unwrap();
    assert_eq!(res.len(), 1);
    assert_eq!(res[0].values[0], Value::Text("Bob".into()));
}

#[test]
fn test_type_mismatch_on_insert() {
    let storage = InMemoryStorage::new();
    let mut engine = SqlEngine::new(storage);

    engine.execute("CREATE TABLE users (id INT);").unwrap();

    let err = engine
        .execute("INSERT INTO users VALUES ('abc');")
        .unwrap_err();
    assert!(matches!(err, SqlError::ExecutionError(_)));
}

#[test]
fn test_table_not_found() {
    let storage = InMemoryStorage::new();
    let mut engine = SqlEngine::new(storage);

    let err = engine.execute("SELECT * FROM missing_table;").unwrap_err();
    assert!(matches!(err, SqlError::StorageError(_)));
}

#[test]
fn test_column_not_found() {
    let storage = InMemoryStorage::new();
    let mut engine = SqlEngine::new(storage);

    engine.execute("CREATE TABLE users (id INT);").unwrap();
    engine.execute("INSERT INTO users VALUES (1);").unwrap();

    let err = engine.execute("SELECT bad_col FROM users;").unwrap_err();
    assert!(matches!(err, SqlError::ExecutionError(_)));
}

#[test]
fn sql_engine_test_benchmark_note() {
    assert!(true);
}

fn schema(cols: &[(&str, DataType)]) -> TableSchema {
    TableSchema {
        columns: cols
            .iter()
            .map(|(n, t)| ColumnDef { name: n.to_string(), data_type: *t })
            .collect(),
    }
}

#[test]
fn sql_type_mismatch_message() {
    let s = schema(&[("id", DataType::Integer)]);
    let err = row_for_insert(&s, &None, &vec![Expr::Literal(Value::Text("abc".into()))]).unwrap_err();
    assert_eq!(
        err,
        SqlError::ExecutionError("Type mismatch for column 'id'. Expected Integer, got Text(\"abc\")".into())
    );
}

#[test]
fn sql_insert_errors() {
    let s = schema(&[("id", DataType::Integer), ("name", DataType::Text)]);
    let err = row_for_insert(&s, &None, &vec![Expr::Literal(Value::Integer(1))]).unwrap_err();
    assert_eq!(err, SqlError::ExecutionError("Column count mismatch. Expected 2, got 1".into()));
    let err = row_for_insert(&s, &Some(vec!["id".to_string()]), &vec![]).unwrap_err();
    assert_eq!(err, SqlError::ExecutionError("Named column inserts not yet supported".into()));
    let err = row_for_insert(
        &s,
        &None,
        &vec![Expr::Ident("x".into()), Expr::Literal(Value::Text("a".into()))],
    )
    .unwrap_err();
    assert_eq!(err, SqlError::ExecutionError("Only literals supported in INSERT VALUES".into()));
    let row = row_for_insert(
        &s,
        &None,
        &vec![Expr::Literal(Value::Null), Expr::Literal(Value::Text("a".into()))],
    )
    .unwrap();
    assert_eq!(row.values, vec![Value::Null, Value::Text("a".into())]);
}

#[test]
fn sql_select_rows_projection_and_filter() {
    let s = schema(&[("id", DataType::Integer), ("name", DataType::Text)]);
    let rows = vec![
        Row { values: vec![Value::Integer(1), Value::Text("a".into())] },
        Row { values: vec![Value::Integer(2), Value::Text("b".into())] },
    ];
    let cond = Some(Expr::BinaryOp {
        left: Box::new(Expr::Ident("id".into())),
        op: Token::Equals,
        right: Box::new(Expr::Literal(Value::Integer(2))),
    });
    let out = select_rows(&s, &rows, &vec!["name".to_string(), "id".to_string()], &cond).unwrap();
    assert_eq!(out.len(), 1);
    assert_eq!(out[0].values, vec![Value::Text("b".into()), Value::Integer(2)]);

    let err = select_rows(&s, &rows, &vec!["nope".to_string()], &None).unwrap_err();
    assert_eq!(err, SqlError::ExecutionError("Column 'nope' not found".into()));

    let bad = Some(Expr::BinaryOp {
        left: Box::new(Expr::Ident("zz".into())),
        op: Token::Equals,
        right: Box::new(Expr::Literal(Value::Integer(2))),
    });
    let err = select_rows(&s, &rows, &vec![], &bad).unwrap_err();
    assert_eq!(err, SqlError::ExecutionError("Column 'zz' not found in WHERE clause".into()));

    let not_eq = Some(Expr::Ident("id".into()));
    let err = select_rows(&s, &rows, &vec![], &not_eq).unwrap_err();
    assert_eq!(err, SqlError::ExecutionError("WHERE clause must be a boolean expression".into()));

    // With no rows the condition is never evaluated.
    let out = select_rows(&s, &vec![], &vec![], &bad).unwrap();
    assert!(out.is_empty());
}

#[test]
fn sql_storage_messages() {
    let mut st = InMemoryStorage::new();
    st.create_table("t", schema(&[("id", DataType::Integer)])).unwrap();
    let err = st.create_table("t", schema(&[])).unwrap_err();
    assert_eq!(err, SqlError::StorageError("Table 't' already exists".into()));
    let err = st.scan_table("u").unwrap_err();
    assert_eq!(err, SqlError::StorageError("Table 'u' not found".into()));
    st.insert_row("t", Row { values: vec![Value::Integer(7)] }).unwrap();
    assert_eq!(st.scan_table("t").unwrap()[0].values, vec![Value::Integer(7)]);
    assert_eq!(st.get_schema("t").unwrap().columns.len(), 1);
}

#[test]
fn sql_insert_then_select_all_in_order() {
    let mut engine = SqlEngine::new(InMemoryStorage::new());
    engine.execute("CREATE TABLE t (a INT, b TEXT);").unwrap();
    engine.execute("INSERT INTO t VALUES (1, 'x'); INSERT INTO t VALUES (2, 'y');").unwrap();
    let res = engine.execute("SELECT * FROM t;").unwrap();
    assert_eq!(res.len(), 2);
    assert_eq!(res[0].values, vec![Value::Integer(1), Value::Text("x".into())]);
    assert_eq!(res[1].values, vec![Value::Integer(2), Value::Text("y".into())]);
    // A failed statement changes nothing.
    assert!(engine.execute("INSERT INTO t VALUES (3);").is_err());
    assert_eq!(engine.execute("SELECT * FROM t;").unwrap().len(), 2);
}

#[test]
fn sql_execute_lexer_and_parser_errors() {
    let mut engine = SqlEngine::new(InMemoryStorage::new());
    assert!(matches!(engine.execute("SELECT # FROM t;"), Err(SqlError::LexerError(_))));
    assert!(matches!(engine.execute("SELECT FROM;"), Err(SqlError::ParserError(_))));
    assert!(engine.execute("").unwrap().is_empty());
}
