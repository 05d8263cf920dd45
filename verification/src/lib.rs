pub mod bytes;
pub mod chars;
pub mod client;
pub mod database_handler;
pub mod index;
pub mod protocol;
pub mod server;
pub mod storage;

pub use database_handler::Database;
pub use index::tree::BTree;
pub use storage::buffer_pool::BufferPool;
pub use storage::disk_manager::DiskManager;
pub use storage::error::DatabaseError;
pub use storage::page::Page;
pub use storage::slotted_page::SlottedPage;
pub use storage::transaction::{Transaction, TransactionManager};
pub use storage::value::Value;
pub use storage::wal::{LogRecord, WriteAheadLog};
