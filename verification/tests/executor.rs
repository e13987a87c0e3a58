//! Executor logic: statement splitting, the transaction's action script,
//! bookkeeping reads, table sorting and schema-dump assembly.

use rmmm::catalog::{Migration, MigrationState};
use rmmm::plan::plan_upgrade;
use rmmm::runner::{
    assemble_schema_dump, drop_table_sql, execution_script, list_run_migrations, show_create_sql,
    sort_tables, split_statements, BookRow, DbAction, TableDump,
};
use rmmm::text::u64_to_dec;

fn bv(s: &str) -> Vec<u8> {
    s.as_bytes().to_vec()
}

#[test]
fn test_split_statements() {
    let sql = bv("CREATE TABLE a(\n  x INT\n);\n  \nALTER TABLE a\nADD y INT;\n");
    let stmts = split_statements(&sql);
    assert_eq!(
        stmts,
        vec![bv("CREATE TABLE a(   x INT )"), bv("ALTER TABLE a ADD y INT")]
    );
    assert_eq!(split_statements(&bv("")), Vec::<Vec<u8>>::new());
    // A semicolon not followed by a newline does not split.
    assert_eq!(split_statements(&bv("a; b")), vec![bv("a; b")]);
}

#[test]
fn test_execution_script_upgrade() {
    let state = MigrationState {
        migrations: vec![Migration {
            id: 1,
            label: Some(bv("first")),
            upgrade_text: bv("CREATE TABLE a(x INT);\nALTER TABLE a ADD y INT"),
            downgrade_text: None,
        }],
    };
    let p = plan_upgrade(&state, &vec![], 1).unwrap();
    let script = execution_script(&p, false);
    assert_eq!(
        script,
        vec![
            DbAction::CreateBookkeeping,
            DbAction::RunSql(bv("CREATE TABLE a(x INT)")),
            DbAction::RunSql(bv("ALTER TABLE a ADD y INT")),
            DbAction::RecordExecution { id: 1, label: Some(bv("first")) },
        ]
    );
    // With the bookkeeping table already present, nothing is created.
    let script2 = execution_script(&p, true);
    assert_eq!(script2[0], DbAction::RunSql(bv("CREATE TABLE a(x INT)")));
}

#[test]
fn test_execution_script_downgrade() {
    let state = MigrationState {
        migrations: vec![Migration {
            id: 1,
            label: None,
            upgrade_text: bv("U"),
            downgrade_text: Some(bv("DROP TABLE a")),
        }],
    };
    let p = rmmm::plan::plan_downgrade(&state, &vec![1], 0).unwrap();
    let script = execution_script(&p, true);
    assert_eq!(
        script,
        vec![
            DbAction::RunSql(bv("DROP TABLE a")),
            DbAction::RemoveRecord { id: 1 },
        ]
    );
}

#[test]
fn test_bootstrap() {
    // A database lacking the bookkeeping table has no executed
    // migrations: an empty list, not an error.
    let rows: Vec<(u32, Option<i64>)> = vec![(1, Some(1700000000i64)), (2, None)];
    assert_eq!(list_run_migrations(false, &rows), vec![]);
    let listed = list_run_migrations(true, &rows);
    assert_eq!(listed.len(), 2);
    assert_eq!(listed[0].id, 1);
    assert_eq!(listed[0].executed_at, Some(1700000000));
    assert_eq!(listed[1].id, 2);
    assert_eq!(listed[1].executed_at, None);
}

#[test]
fn test_sort_tables() {
    let tables = vec![
        TableDump { name: bv("b"), create_sql: bv("B") },
        TableDump { name: bv("a"), create_sql: bv("A") },
        TableDump { name: bv("c"), create_sql: bv("C") },
    ];
    let sorted = sort_tables(tables);
    let names: Vec<Vec<u8>> = sorted.iter().map(|t| t.name.clone()).collect();
    assert_eq!(names, vec![bv("a"), bv("b"), bv("c")]);
    assert_eq!(sorted[0].create_sql, bv("A"));
}

#[test]
fn test_assemble_schema_dump() {
    let tables = vec![TableDump {
        name: bv("t"),
        create_sql: bv("CREATE TABLE t (x INT)"),
    }];
    let out = assemble_schema_dump(&tables, &vec![]);
    assert_eq!(out, bv("CREATE TABLE t (x INT);\n\n\n"));
}

#[test]
fn test_assemble_schema_dump_with_history() {
    let tables = vec![
        TableDump { name: bv("rmmm_migrations"), create_sql: bv("CREATE TABLE rmmm_migrations (id INT)") },
        TableDump { name: bv("t"), create_sql: bv("CREATE TABLE t (x INT)") },
    ];
    let rows = vec![BookRow { id: 3, label: bv("lbl") }];
    let out = assemble_schema_dump(&tables, &rows);
    let expected = "CREATE TABLE rmmm_migrations (id INT);\n\n\
                    CREATE TABLE t (x INT);\n\n\n\
                    INSERT INTO rmmm_migrations(id, label, executed_at) VALUES(3, 'lbl', UNIX_TIMESTAMP());\n\n";
    assert_eq!(out, bv(expected));
}

#[test]
fn test_quoted_statements() {
    assert_eq!(drop_table_sql(&bv("users")), bv("DROP TABLE `users`"));
    assert_eq!(show_create_sql(&bv("users")), bv("SHOW CREATE TABLE `users`"));
}

#[test]
fn test_decimal_rendering() {
    assert_eq!(u64_to_dec(0), bv("0"));
    assert_eq!(u64_to_dec(1234), bv("1234"));
    assert_eq!(u64_to_dec(65535), bv("65535"));
}
