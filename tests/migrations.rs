use mammal::schema::{
    check_order, migrations, pending, Migration, MigrationError, MigrationKind, SchemaLog,
    INITIAL_SCHEMA,
};

fn step(version: i64, kind: MigrationKind) -> Migration {
    Migration { version, description: format!("v{}", version), sql: String::new(), kind }
}

#[test]
fn initial_migration() {
    let ms = migrations();
    assert_eq!(ms.len(), 1);
    assert_eq!(ms[0].version, 1);
    assert_eq!(ms[0].description, "create_initial_tables");
    assert_eq!(ms[0].kind, MigrationKind::Up);
    assert_eq!(ms[0].sql, INITIAL_SCHEMA);
    assert!(ms[0].sql.contains("CREATE VIRTUAL TABLE messages_fts USING fts5("));
    assert!(ms[0].sql.contains("tokenize = 'trigram'"));
    assert!(ms[0].sql.contains("FOREIGN KEY (providerId) REFERENCES providers(id)"));
}

#[test]
fn migrating_twice_runs_nothing_the_second_time() {
    let ms = migrations();
    let mut log = SchemaLog::new();
    assert_eq!(log.migrate(&ms), Ok(vec![0]));
    assert_eq!(log.version, 1);
    assert_eq!(log.migrate(&ms), Ok(vec![]));
    assert_eq!(log.version, 1);
}

#[test]
fn only_newer_up_steps_are_pending() {
    let ms = vec![
        step(1, MigrationKind::Up),
        step(2, MigrationKind::Down),
        step(3, MigrationKind::Up),
        step(5, MigrationKind::Up),
    ];
    assert_eq!(pending(0, &ms), vec![0, 2, 3]);
    assert_eq!(pending(2, &ms), vec![2, 3]);
    assert_eq!(pending(5, &ms), Vec::<usize>::new());
    let mut log = SchemaLog { version: 1 };
    assert_eq!(log.migrate(&ms), Ok(vec![2, 3]));
    assert_eq!(log.version, 5);
}

#[test]
fn out_of_order_migrations_are_refused() {
    let ms = vec![step(2, MigrationKind::Up), step(2, MigrationKind::Up)];
    assert!(!check_order(&ms));
    assert!(check_order(&Vec::new()));
    let mut log = SchemaLog::new();
    assert_eq!(log.migrate(&ms), Err(MigrationError::OutOfOrder));
    assert_eq!(log.version, 0);
}

#[test]
fn trailing_down_step_does_not_raise_the_version() {
    let ms = vec![step(1, MigrationKind::Up), step(2, MigrationKind::Down)];
    let mut log = SchemaLog::new();
    assert_eq!(log.migrate(&ms), Ok(vec![0]));
    assert_eq!(log.version, 1);
    assert_eq!(log.migrate(&ms), Ok(vec![]));
    assert_eq!(log.version, 1);
}

#[test]
fn initial_schema_keeps_its_comments() {
    let sql = migrations().remove(0).sql;
    assert!(sql.starts_with("\n                CREATE TABLE messages (\n"));
    assert!(sql.contains("data JSON -- "));
    assert!(sql.contains("                -- Trigger for INSERT\n"));
    assert!(sql.contains("name TEXT NOT NULL, endpoint TEXT NOT NULL, \n"));
    assert!(sql.ends_with("            "));
}
