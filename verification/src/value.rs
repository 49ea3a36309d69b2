use uuid::Uuid;
use vstd::prelude::*;

verus! {

/// The key type of the `uuid` crate, carried through the library as an
/// opaque value.
#[verifier::external_type_specification]
#[verifier::external_body]
pub struct ExUuid(Uuid);

/// Calls `uuid::Uuid::new_v4`, which draws a random version-4 key.
/// The key depends on a random number generator, so nothing is promised
/// of it beyond its type.
#[verifier::external_body]
pub(crate) fn new_primary_key() -> (key: Uuid) {
    Uuid::new_v4()
}

/// Compares two string slices with `<str as PartialEq>::eq`: equal exactly
/// when they hold the same characters.
#[verifier::external_body]
pub(crate) fn str_eq(a: &str, b: &str) -> (r: bool)
    ensures
        r == (a@ == b@),
{
    a == b
}

/// Compares two keys with `<uuid::Uuid as PartialEq>::eq`, which the
/// `uuid` crate derives over the key's sixteen bytes: equal exactly when
/// the keys are the same value.
#[verifier::external_body]
pub(crate) fn uuid_eq(a: &Uuid, b: &Uuid) -> (r: bool)
    ensures
        r == (*a == *b),
{
    a == b
}

/// A cell of a table.
#[derive(Debug, PartialEq)]
#[allow(inconsistent_fields)]
pub enum Value {
    Null,
    PrimaryKey { key: Uuid },
    Foreignkey { table_name: String, key: Uuid },
    Integer { value: i64 },
    String { value: String },
    Epoch { epoch: u64 },
}

impl Clone for Value {
    fn clone(&self) -> (r: Self)
        ensures
            r == *self,
    {
        match self {
            Value::Null => Value::Null,
            Value::PrimaryKey { key } => Value::PrimaryKey { key: *key },
            Value::Foreignkey { table_name, key } => Value::Foreignkey {
                table_name: table_name.clone(),
                key: *key,
            },
            Value::Integer { value } => Value::Integer { value: *value },
            Value::String { value } => Value::String { value: value.clone() },
            Value::Epoch { epoch } => Value::Epoch { epoch: *epoch },
        }
    }
}

impl Value {
    pub fn is_null(&self) -> (r: bool)
        ensures
            r == (*self is Null),
    {
        matches!(self, Value::Null)
    }

    pub fn is_primary_key(&self) -> (r: bool)
        ensures
            r == (*self is PrimaryKey),
    {
        matches!(self, Value::PrimaryKey { .. })
    }

    /// True exactly when this is a string value holding the characters of `val`.
    pub fn string_equals(&self, val: &str) -> (r: bool)
        ensures
            r == (*self matches Value::String { value } && value@ == val@),
    {
        match self {
            Value::String { value } => str_eq(value.as_str(), val),
            _ => false,
        }
    }

    pub fn new_string(value: &str) -> (r: Value)
        ensures
            r matches Value::String { value: s } && s@ == value@,
    {
        Value::String { value: value.to_owned() }
    }

    pub fn new_integer(value: i64) -> (r: Value)
        ensures
            r == (Value::Integer { value }),
    {
        Value::Integer { value }
    }

    pub fn as_int(&self) -> (r: Option<i64>)
        ensures
            r == (match *self {
                Value::Integer { value } => Some(value),
                _ => None::<i64>,
            }),
    {
        if let Value::Integer { value } = self {
            Some(*value)
        } else {
            None
        }
    }

    pub fn as_string(&self) -> (r: Option<String>)
        ensures
            r == (match *self {
                Value::String { value } => Some(value),
                _ => None::<String>,
            }),
    {
        if let Value::String { value } = self {
            Some(value.clone())
        } else {
            None
        }
    }

    /// Whether `self`, a primary key, is the same value as `other`.
    pub(crate) fn same_key(&self, other: &Value) -> (r: bool)
        requires
            *self is PrimaryKey,
        ensures
            r == (*self == *other),
    {
        match (self, other) {
            (Value::PrimaryKey { key: a }, Value::PrimaryKey { key: b }) => uuid_eq(a, b),
            _ => false,
        }
    }

    /// Whether `self` is the primary key `key`.
    pub(crate) fn is_key(&self, key: &Uuid) -> (r: bool)
        ensures
            r == (*self == Value::PrimaryKey { key: *key }),
    {
        match self {
            Value::PrimaryKey { key: k } => uuid_eq(k, key),
            _ => false,
        }
    }

    pub fn as_pkey(&self) -> (r: Option<Uuid>)
        ensures
            r == (match *self {
                Value::PrimaryKey { key } => Some(key),
                _ => None::<Uuid>,
            }),
    {
        if let Value::PrimaryKey { key } = self {
            Some(*key)
        } else {
            None
        }
    }
}

} // verus!
