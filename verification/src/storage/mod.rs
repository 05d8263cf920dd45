pub mod buffer_pool;
pub mod disk_manager;
pub mod error;
pub mod operations;
pub mod page;
pub mod slotted_page;
pub mod transaction;
pub mod value;
pub mod wal;
