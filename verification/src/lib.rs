//! Column-oriented key-value storage layer: the transactional batch model,
//! the reference-count codec of shared values, the contract that every
//! backend meets, an in-memory backend, and the hot/cold routing policy.

pub mod colddb;
pub mod column;
pub mod database;
pub mod keys;
pub mod leaf;
pub mod order;
pub mod refcount;
pub mod router;
pub mod rows;
pub mod table;
pub mod testdb;
pub mod transaction;

pub use crate::colddb::ColdDB;
pub use crate::column::DBCol;
pub use crate::database::Database;
pub use crate::database::StatsValue;
pub use crate::database::StoreStatistics;
pub use crate::router::SplitDB;
pub use crate::testdb::TestDB;
pub use crate::transaction::DBOp;
pub use crate::transaction::DBTransaction;
