use tiny_text_data_base::consts::{
    ERROR_COLUMN_DUP, ERROR_COLUMN_ID, ERROR_COLUMN_NOTFOUND, ERROR_INSERT_DUPCOLUMN,
    INTERNAL_INVALID_PRIMARY_KEY,
};
use tiny_text_data_base::{Table, Value};
use uuid::Uuid;

fn names(v: &[&str]) -> Vec<String> {
    v.iter().map(|s| s.to_string()).collect()
}

fn key() -> Value {
    Value::PrimaryKey { key: Uuid::nil() }
}

#[test]
fn new_table_indexes_all_columns() {
    let t = Table::new(&names(&["id", "x", "y"]));
    assert_eq!(t.column2indices(&["y", "x", "id"]), Ok(vec![2, 1, 0]));
    assert_eq!(t.rows().unwrap().len(), 0);
    assert!(t.has_column("x"));
    assert!(!t.has_column("z"));
}

#[test]
fn new_table_duplicate_name_indexes_last() {
    let t = Table::new(&names(&["id", "x", "x"]));
    assert_eq!(t.column2indices(&["x"]), Ok(vec![2]));
    assert_eq!(t.column2indices(&["x", "x"]), Err(ERROR_COLUMN_DUP));
}

#[test]
fn insert_requires_primary_key_value() {
    let mut t = Table::new(&names(&["id", "x"]));
    assert_eq!(
        t.insert(Value::new_integer(3), &[(1, Value::new_integer(1))]),
        Err(INTERNAL_INVALID_PRIMARY_KEY)
    );
    assert_eq!(t.rows().unwrap().len(), 0);
}

#[test]
fn insert_gives_fresh_key_not_the_given_one() {
    let mut t = Table::new(&names(&["id", "x"]));
    t.insert(key(), &[(1, Value::new_integer(1))]).unwrap();
    let rows = t.rows().unwrap();
    assert_eq!(rows.len(), 1);
    assert!(rows[0][0].is_primary_key());
    assert_ne!(rows[0][0].as_pkey(), Some(Uuid::nil()));
    assert_eq!(rows[0][1], Value::new_integer(1));
}

#[test]
fn insert_errors() {
    let mut t = Table::new(&names(&["id", "x"]));
    assert_eq!(t.insert(key(), &[(0, Value::Null)]), Err(ERROR_COLUMN_ID));
    assert_eq!(t.insert(key(), &[(2, Value::Null)]), Err(ERROR_COLUMN_NOTFOUND));
    assert_eq!(
        t.insert(key(), &[(1, Value::new_integer(1)), (1, Value::Null)]),
        Err(ERROR_INSERT_DUPCOLUMN)
    );
    assert_eq!(t.rows().unwrap().len(), 0);
}

#[test]
fn add_columns_pads_rows_with_nulls() {
    let mut t = Table::new(&names(&["id", "x"]));
    t.insert(key(), &[(1, Value::new_integer(5))]).unwrap();
    t.add_columns(&names(&["y", "z"]));
    assert!(t.has_column("y"));
    assert!(t.has_column("z"));
    let rows = t.rows().unwrap();
    assert_eq!(rows[0].len(), 4);
    assert_eq!(rows[0][1].as_int(), Some(5));
    assert!(rows[0][2].is_null());
    assert!(rows[0][3].is_null());
    // the new columns can be filled by index
    t.insert(key(), &[(3, Value::new_string("v"))]).unwrap();
    assert!(t.rows().unwrap()[1][3].string_equals("v"));
}

#[test]
fn added_columns_are_found_by_name() {
    let mut t = Table::new(&names(&["id", "x"]));
    t.add_columns(&names(&["y", "z"]));
    assert_eq!(t.column2indices(&["x"]), Ok(vec![1]));
    assert_eq!(t.column2indices(&["z", "y", "id"]), Ok(vec![3, 2, 0]));
    assert_eq!(t.column2indices(&["y", "y"]), Err(ERROR_COLUMN_DUP));
    assert_eq!(t.column2indices(&["y", "w"]), Err(ERROR_COLUMN_NOTFOUND));
}

#[test]
fn upsert_passes_over_unknown_names() {
    let mut t = Table::new(&names(&["id", "x"]));
    t.upsert(&cells(vec![("nope", Value::new_integer(1)), ("x", Value::new_integer(2))]));
    let rows = t.rows().unwrap();
    assert_eq!(rows.len(), 1);
    assert_eq!(rows[0].len(), 2);
    assert_eq!(rows[0][1].as_int(), Some(2));
}

fn cells(v: Vec<(&str, Value)>) -> Vec<(String, Value)> {
    v.into_iter().map(|(n, x)| (n.to_string(), x)).collect()
}

#[test]
fn upsert_without_id_inserts_row() {
    let mut t = Table::new(&names(&["id", "x", "y"]));
    t.upsert(&cells(vec![("y", Value::new_integer(9))]));
    let rows = t.rows().unwrap();
    assert_eq!(rows.len(), 1);
    assert!(rows[0][0].is_primary_key());
    assert!(rows[0][1].is_null());
    assert_eq!(rows[0][2].as_int(), Some(9));
    // an empty upsert inserts a row of nulls
    t.upsert(&cells(vec![]));
    let rows = t.rows().unwrap();
    assert_eq!(rows.len(), 2);
    assert!(rows[1][0].is_primary_key());
    assert!(rows[1][1].is_null() && rows[1][2].is_null());
    assert_ne!(rows[0][0].as_pkey(), rows[1][0].as_pkey());
}

#[test]
fn upsert_with_id_updates_that_row() {
    let mut t = Table::new(&names(&["id", "x", "y"]));
    t.insert(key(), &[(1, Value::new_integer(1)), (2, Value::new_integer(2))]).unwrap();
    t.insert(key(), &[(1, Value::new_integer(10)), (2, Value::new_integer(20))]).unwrap();
    let k0 = t.rows().unwrap()[0][0].clone();
    t.upsert(&cells(vec![("x", Value::new_string("a")), ("id", k0.clone())]));
    let rows = t.rows().unwrap();
    assert_eq!(rows.len(), 2);
    assert_eq!(rows[0][0], k0);
    assert!(rows[0][1].string_equals("a"));
    assert_eq!(rows[0][2].as_int(), Some(2));
    assert_eq!(rows[1][1].as_int(), Some(10));
    assert_eq!(rows[1][2].as_int(), Some(20));
}

#[test]
fn upsert_with_unknown_id_changes_nothing() {
    let mut t = Table::new(&names(&["id", "x"]));
    t.insert(key(), &[(1, Value::new_integer(1))]).unwrap();
    t.upsert(&cells(vec![("id", Value::PrimaryKey { key: Uuid::nil() }), ("x", Value::Null)]));
    let rows = t.rows().unwrap();
    assert_eq!(rows.len(), 1);
    assert_eq!(rows[0][1].as_int(), Some(1));
}

#[test]
fn upsert_sets_added_columns_by_name() {
    let mut t = Table::new(&names(&["id", "x"]));
    t.add_columns(&names(&["y"]));
    t.upsert(&cells(vec![("y", Value::new_integer(3))]));
    assert_eq!(t.rows().unwrap()[0][2].as_int(), Some(3));
}

#[test]
fn delete_removes_rows_with_key_keeping_order() {
    let mut t = Table::new(&names(&["id", "x"]));
    for n in 0..3 {
        t.insert(key(), &[(1, Value::new_integer(n))]).unwrap();
    }
    let k1 = t.rows().unwrap()[1][0].as_pkey().unwrap();
    t.delete(&k1);
    let rows = t.rows().unwrap();
    assert_eq!(rows.len(), 2);
    assert_eq!(rows[0][1].as_int(), Some(0));
    assert_eq!(rows[1][1].as_int(), Some(2));
    // deleting a key that no row has changes nothing
    t.delete(&Uuid::nil());
    assert_eq!(t.rows().unwrap().len(), 2);
}
