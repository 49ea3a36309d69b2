//! A table-and-column database kept in memory, whose state is rebuilt
//! from transactions: each transaction is a list of statements, and the
//! transactions are applied in order of their epoch.

pub mod consts;
pub mod database;
pub mod storage;
pub mod table;
pub mod transaction;
pub mod value;

pub use crate::database::Database;
pub use crate::storage::{read_db, try_read_db, Tables};
pub use crate::table::Table;
pub use crate::transaction::{Statement, Transaction};
pub use crate::value::Value;
