use tiny_text_data_base::consts::ERROR_COLUMN_NOTFOUND;
use tiny_text_data_base::transaction::sort_transactions;
use tiny_text_data_base::{read_db, try_read_db, Database, Statement, Transaction, Value};
use uuid::Uuid;

fn names(v: &[&str]) -> Vec<String> {
    v.iter().map(|s| s.to_string()).collect()
}

fn create(table: &str, cols: &[&str]) -> Statement {
    Statement::ColumnCreate { table: table.to_string(), columns: names(cols) }
}

fn txn(epoch: u64, statements: Vec<Statement>) -> Transaction {
    Transaction { uuid: Uuid::new_v4(), epoch, statements }
}

#[test]
fn sort_by_epoch_is_stable() {
    let a = txn(5, vec![]);
    let b = txn(1, vec![]);
    let c = txn(5, vec![]);
    let d = txn(3, vec![]);
    let (ua, ub, uc, ud) = (a.uuid, b.uuid, c.uuid, d.uuid);
    let sorted = sort_transactions(vec![a, b, c, d]);
    let order: Vec<Uuid> = sorted.iter().map(|t| t.uuid).collect();
    assert_eq!(order, vec![ub, ud, ua, uc]);
    assert_eq!(sorted[0].sort_key(), 1);
    assert_eq!(sorted[3].sort_key(), 5);
}

#[test]
fn read_db_creates_and_extends_tables() {
    let txns = vec![
        txn(2, vec![create("t", &["y"])]),
        txn(1, vec![create("t", &["id", "x"])]),
    ];
    let tables = read_db(txns);
    let t = tables.get("t").unwrap();
    assert!(t.has_column("x"));
    assert!(t.has_column("y"));
    assert_eq!(t.column2indices(&["x", "id"]), Ok(vec![1, 0]));
    // a column added to an existing table is found by name
    assert_eq!(t.column2indices(&["y"]), Ok(vec![2]));
    assert_eq!(t.column2indices(&["w"]), Err(ERROR_COLUMN_NOTFOUND));
    assert!(tables.get("u").is_none());
}

#[test]
fn read_db_applies_upserts_and_deletes() {
    let txns = vec![txn(
        1,
        vec![
            create("t", &["id", "x"]),
            Statement::RowUpsert {
                table: String::from("t"),
                values: vec![(String::from("x"), Value::new_integer(1))],
            },
            Statement::RowUpsert {
                table: String::from("t"),
                values: vec![(String::from("x"), Value::new_integer(2))],
            },
            Statement::RowDelete { table: String::from("t"), key: Uuid::nil() },
        ],
    )];
    let db = Database::new("/tmp/ttdb-read", txns);
    let rows = db.rows("t").unwrap();
    assert_eq!(rows.len(), 2);
    assert_eq!(rows[0][1].as_int(), Some(1));
    assert_eq!(rows[1][1].as_int(), Some(2));
}

#[test]
fn try_read_db_refuses_what_cannot_apply() {
    // upsert into a table that does not exist
    let values = vec![(String::from("x"), Value::Null)];
    let bad = vec![txn(1, vec![Statement::RowUpsert { table: String::from("t"), values }])];
    assert!(try_read_db(bad).is_none());
    // the same new column twice for an existing table
    let bad = vec![txn(1, vec![create("t", &["id"])]), txn(2, vec![create("t", &["x", "x"])])];
    assert!(try_read_db(bad).is_none());
    // an upsert naming a column the table lacks is applied, that name passed over
    let values = vec![(String::from("y"), Value::Null)];
    let ok = vec![txn(1, vec![create("t", &["id", "x"]), Statement::RowUpsert { table: String::from("t"), values }])];
    let db = Database::try_new("/tmp/ttdb-upsert", ok).unwrap();
    assert_eq!(db.rows("t").unwrap().len(), 1);
    // delete in a table that does not exist
    let bad = vec![txn(1, vec![Statement::RowDelete { table: String::from("t"), key: Uuid::nil() }])];
    assert!(try_read_db(bad).is_none());
    // new table without the primary key first
    assert!(try_read_db(vec![txn(1, vec![create("t", &["x", "id"])])]).is_none());
    assert!(try_read_db(vec![txn(1, vec![create("t", &["id", "id"])])]).is_none());
    // a column that the table has already
    let bad = vec![txn(1, vec![create("t", &["id", "x"])]), txn(2, vec![create("t", &["x"])])];
    assert!(try_read_db(bad).is_none());
    // the same statements in the other epoch order apply
    let ok = vec![txn(2, vec![create("t", &["id", "x"])]), txn(1, vec![create("u", &["id"])])];
    assert!(try_read_db(ok).is_some());
    assert!(Database::try_new("/tmp/x", vec![txn(1, vec![create("t", &["x"])])]).is_none());
}

#[test]
fn epoch_order_decides_not_file_order() {
    // the delete needs the table, which the earlier epoch creates
    let first = || txn(1, vec![create("t", &["id"])]);
    let second = || txn(2, vec![Statement::RowDelete { table: String::from("t"), key: Uuid::nil() }]);
    assert!(try_read_db(vec![first(), second()]).is_some());
    assert!(try_read_db(vec![second(), first()]).is_some());
}

#[test]
fn empty_transactions_give_no_tables() {
    let tables = read_db(vec![]);
    assert!(tables.get("id").is_none());
    let db = Database::new("/tmp/ttdb-empty", vec![txn(7, vec![])]);
    assert!(db.rows("t").is_err());
}

#[test]
fn file_order_does_not_matter_with_distinct_epochs() {
    let make = || {
        vec![
            txn(3, vec![create("t", &["z"])]),
            txn(1, vec![create("t", &["id", "x"])]),
            txn(2, vec![create("t", &["y"]), create("u", &["id"])]),
        ]
    };
    let mut reversed = make();
    reversed.reverse();
    for txns in vec![make(), reversed] {
        let tables = read_db(txns);
        let t = tables.get("t").unwrap();
        assert!(t.has_column("x") && t.has_column("y") && t.has_column("z"));
        assert_eq!(t.column2indices(&["id", "x"]), Ok(vec![0, 1]));
        assert!(tables.get("u").is_some());
    }
}
