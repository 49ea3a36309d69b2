use vstd::prelude::*;

verus! {

/// Name of the column that every table holds first: the row's primary key.
pub const PRIMARY_KEY_NAME: &'static str = "id";

/// Position of the primary-key column in every row.
pub const PRIMARY_KEY_IDX: usize = 0;

pub const ERROR_NOT_DIRECTORY: &'static str = "path is not a directory";

pub const ERROR_TABLE_DUP: &'static str = "table already exists";

pub const ERROR_TABLE_NOTFOUND: &'static str = "table not found";

pub const ERROR_COLUMN_ID: &'static str = "column 'id' is reserved for the primary key";

pub const ERROR_COLUMN_DUP: &'static str = "duplicate column";

pub const ERROR_COLUMN_NOTFOUND: &'static str = "column not found";

pub const ERROR_INSERT_DUPCOLUMN: &'static str = "column given twice in insert";

pub const INTERNAL_INVALID_PRIMARY_KEY: &'static str = "internal error: value is not a primary key";

} // verus!
