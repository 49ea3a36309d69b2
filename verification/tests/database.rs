use tiny_text_data_base::consts::{
    ERROR_COLUMN_DUP, ERROR_COLUMN_ID, ERROR_COLUMN_NOTFOUND, ERROR_INSERT_DUPCOLUMN,
    ERROR_TABLE_DUP, ERROR_TABLE_NOTFOUND, PRIMARY_KEY_NAME,
};
use tiny_text_data_base::Database;
use tiny_text_data_base::Value;
use uuid::Uuid;

fn empty_db() -> Database {
    Database::new("/tmp/ttdb-test", Vec::new())
}

#[test]
fn test_database() {
    let mut db = empty_db();

    assert_eq!(
        db.table("table", &vec!["col1", PRIMARY_KEY_NAME]),
        Err(ERROR_COLUMN_ID)
    );
    assert_eq!(
        db.table("table", &vec!["col1", "col1"]),
        Err(ERROR_COLUMN_DUP)
    );
    db.table("table", &vec!["col1", "col2"]).unwrap();
    assert_eq!(
        db.table("table", &vec!["col1", "col2"]),
        Err(ERROR_TABLE_DUP)
    );

    let indices = db
        .get_indices("table", &vec!["col2", "id", "col1"])
        .unwrap();
    let (col2, id, col1) = (indices[0], indices[1], indices[2]);
    assert_eq!(0, id);
    assert_eq!(1, col1);
    assert_eq!(2, col2);
}

#[test]
fn test_insert() {
    let mut db = empty_db();
    db.table("table", &vec!["col1", "col2"]).unwrap();
    let indices = db
        .get_indices("table", &vec!["col2", "id", "col1"])
        .unwrap();
    let (_col2, id, _col1) = (indices[0], indices[1], indices[2]);

    assert_eq!(
        db.insert("non_existing_table", &vec![(0 as usize, Value::Null)]),
        Err(ERROR_TABLE_NOTFOUND)
    );
    assert_eq!(
        db.insert("table", &vec![(id, Value::Null)]),
        Err(ERROR_COLUMN_ID)
    );
    assert_eq!(
        db.insert("table", &vec![(3, Value::Null)]),
        Err(ERROR_COLUMN_NOTFOUND)
    );
}

#[test]
fn test_select() {
    let mut db = empty_db();
    db.table("table", &vec!["col1", "col2"]).unwrap();
    let indices = db
        .get_indices("table", &vec!["col2", "id", "col1"])
        .unwrap();
    let (col2, id, col1) = (indices[0], indices[1], indices[2]);
    db.insert(
        "table",
        &vec![
            (col1, Value::new_integer(100)),
            (col2, Value::new_string("hello")),
        ],
    )
    .unwrap();
    db.insert("table", &vec![(col1, Value::new_integer(200))])
        .unwrap();
    db.insert("table", &vec![(col2, Value::new_string("hello"))])
        .unwrap();

    let mut rowref: Vec<(Uuid, Option<i64>)> = db
        .rows("table")
        .unwrap()
        .iter()
        .filter(|&row| row[col2].string_equals("hello"))
        .map(|row| (row[id].as_pkey().unwrap(), row[col1].as_int()))
        .collect();
    rowref.sort_by_key(|v| v.1);

    assert_eq!(2, rowref.len());
    assert_eq!(None, rowref[0].1);
    assert_eq!(Some(100), rowref[1].1);
    println!("\nDB is {:#?}\n", rowref);
}

#[test]
fn table_checks_name_before_columns() {
    let mut db = empty_db();
    db.table("t", &vec!["a"]).unwrap();
    // the name is taken, so the bad columns are not even looked at
    assert_eq!(db.table("t", &vec!["id"]), Err(ERROR_TABLE_DUP));
}

#[test]
fn table_reports_first_bad_column() {
    let mut db = empty_db();
    assert_eq!(db.table("t", &vec!["a", "a", "id"]), Err(ERROR_COLUMN_DUP));
    assert_eq!(db.table("t", &vec!["a", "id", "a"]), Err(ERROR_COLUMN_ID));
    // refused declarations leave no table behind
    assert_eq!(db.rows("t"), Err(ERROR_TABLE_NOTFOUND));
    db.table("t", &vec!["a", "b"]).unwrap();
    assert_eq!(db.rows("t").unwrap().len(), 0);
}

#[test]
fn table_without_columns_has_id_only() {
    let mut db = empty_db();
    db.table("bare", &vec![]).unwrap();
    assert_eq!(db.get_indices("bare", &vec!["id"]), Ok(vec![0]));
    db.insert("bare", &vec![]).unwrap();
    let rows = db.rows("bare").unwrap();
    assert_eq!(rows.len(), 1);
    assert_eq!(rows[0].len(), 1);
    assert!(rows[0][0].is_primary_key());
}

#[test]
fn get_indices_errors() {
    let mut db = empty_db();
    db.table("t", &vec!["a", "b"]).unwrap();
    assert_eq!(db.get_indices("u", &vec!["a"]), Err(ERROR_TABLE_NOTFOUND));
    assert_eq!(db.get_indices("t", &vec!["a", "c"]), Err(ERROR_COLUMN_NOTFOUND));
    assert_eq!(db.get_indices("t", &vec!["a", "b", "a"]), Err(ERROR_COLUMN_DUP));
    // a missing column is reported even after a duplicate
    assert_eq!(db.get_indices("t", &vec!["a", "a", "c"]), Err(ERROR_COLUMN_NOTFOUND));
    assert_eq!(db.get_indices("t", &vec![]), Ok(vec![]));
    assert_eq!(db.get_indices("t", &vec!["b", "a", "id"]), Ok(vec![2, 1, 0]));
}

#[test]
fn insert_fills_row_and_key() {
    let mut db = empty_db();
    db.table("t", &vec!["a", "b", "c"]).unwrap();
    db.insert("t", &vec![(3, Value::new_string("x")), (1, Value::new_integer(-7))])
        .unwrap();
    let rows = db.rows("t").unwrap();
    assert_eq!(rows.len(), 1);
    let row = &rows[0];
    assert_eq!(row.len(), 4);
    assert!(row[0].as_pkey().is_some());
    assert_eq!(row[1].as_int(), Some(-7));
    assert!(row[2].is_null());
    assert_eq!(row[3].as_string(), Some(String::from("x")));
}

#[test]
fn insert_gives_each_row_its_own_key() {
    let mut db = empty_db();
    db.table("t", &vec!["a"]).unwrap();
    db.insert("t", &vec![]).unwrap();
    db.insert("t", &vec![]).unwrap();
    let rows = db.rows("t").unwrap();
    assert_ne!(rows[0][0].as_pkey(), rows[1][0].as_pkey());
}

#[test]
fn insert_dup_column_refused_unchanged() {
    let mut db = empty_db();
    db.table("t", &vec!["a", "b"]).unwrap();
    assert_eq!(
        db.insert("t", &vec![(1, Value::new_integer(1)), (1, Value::new_integer(2))]),
        Err(ERROR_INSERT_DUPCOLUMN)
    );
    assert_eq!(db.rows("t").unwrap().len(), 0);
    // a column given a null may be given again
    db.insert("t", &vec![(1, Value::Null), (1, Value::new_integer(2))])
        .unwrap();
    assert_eq!(db.rows("t").unwrap()[0][1].as_int(), Some(2));
}

#[test]
fn insert_error_order_follows_pairs() {
    let mut db = empty_db();
    db.table("t", &vec!["a"]).unwrap();
    assert_eq!(
        db.insert("t", &vec![(5, Value::Null), (0, Value::Null)]),
        Err(ERROR_COLUMN_NOTFOUND)
    );
    assert_eq!(
        db.insert("t", &vec![(0, Value::Null), (5, Value::Null)]),
        Err(ERROR_COLUMN_ID)
    );
    assert_eq!(db.rows("t").unwrap().len(), 0);
}

#[test]
fn rows_of_missing_table() {
    let db = empty_db();
    assert_eq!(db.rows("nothing"), Err(ERROR_TABLE_NOTFOUND));
}
