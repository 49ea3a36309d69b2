use tiny_text_data_base::Value;
use uuid::Uuid;

#[test]
fn null_and_key_tests() {
    assert!(Value::Null.is_null());
    assert!(!Value::new_integer(0).is_null());
    let k = Value::PrimaryKey { key: Uuid::nil() };
    assert!(k.is_primary_key());
    assert!(!Value::Null.is_primary_key());
    assert_eq!(k.as_pkey(), Some(Uuid::nil()));
    assert_eq!(Value::Null.as_pkey(), None);
    let f = Value::Foreignkey { table_name: String::from("t"), key: Uuid::nil() };
    assert!(!f.is_primary_key());
    assert_eq!(f.as_pkey(), None);
}

#[test]
fn integer_round_trip() {
    assert_eq!(Value::new_integer(42).as_int(), Some(42));
    assert_eq!(Value::new_integer(i64::MIN).as_int(), Some(i64::MIN));
    assert_eq!(Value::new_string("42").as_int(), None);
    assert_eq!(Value::Epoch { epoch: 3 }.as_int(), None);
}

#[test]
fn string_round_trip() {
    let v = Value::new_string("hello");
    assert!(v.string_equals("hello"));
    assert!(!v.string_equals("hell"));
    assert!(!v.string_equals(""));
    assert_eq!(v.as_string(), Some(String::from("hello")));
    assert_eq!(Value::new_integer(1).as_string(), None);
    assert!(!Value::new_integer(1).string_equals("1"));
    assert!(Value::new_string("").string_equals(""));
}

#[test]
fn clone_keeps_value() {
    let v = Value::Foreignkey { table_name: String::from("t"), key: Uuid::nil() };
    assert_eq!(v.clone(), v);
    let s = Value::new_string("abc");
    assert_eq!(s.clone(), s);
}
