//! The errors of the storage engine.

use crate::chars::{decimal, decimal_of, to_string};
use vstd::prelude::*;
use vstd::string::*;

verus! {

/// What an operation of the engine can fail with.
#[derive(Debug)]
pub enum DatabaseError {
    /// The page is not on disk.
    PageNotFound(u32),
    /// The buffer pool holds as many pages as it may.
    BufferPoolFull,
    /// The page id was never allocated, or the bytes are no page.
    InvalidPage,
    /// A failure of the file system, with its cause in words.
    IoError(String),
    /// A command or an expression could not be parsed.
    ParseError(String),
    /// The operation does not apply to its operands or to the present state.
    InvalidOperation(String),
    /// The slotted page has no room for the record.
    PageFull,
    /// The slot number is not in the slot directory.
    InvalidSlot,
    /// The bytes are no slot, or the record is too long for a slot.
    InvalidRecord,
    /// The slot's record was deleted.
    DeletedRecord,
    /// The bytes are no value or no node.
    InvalidData(String),
    /// The key is not in the index.
    KeyNotFound(i32),
    /// The transaction is not active.
    TransactionNotActive,
    /// The transaction was committed already.
    TransactionAlreadyCommitted,
}

impl DatabaseError {
    /// The error in words.
    pub open spec fn in_words(self) -> Seq<char> {
        match self {
            DatabaseError::PageNotFound(id) => "Page "@ + decimal(id as nat) + " not found"@,
            DatabaseError::BufferPoolFull => "Buffer pool is full"@,
            DatabaseError::InvalidPage => "Invalid page"@,
            DatabaseError::IoError(cause) => "IO error: "@ + cause@,
            DatabaseError::ParseError(cause) => "Parse error: "@ + cause@,
            DatabaseError::InvalidOperation(cause) => "Invalid operation: "@ + cause@,
            DatabaseError::PageFull => "Page is full"@,
            DatabaseError::InvalidSlot => "Invalid slot"@,
            DatabaseError::InvalidRecord => "Invalid record"@,
            DatabaseError::DeletedRecord => "Record was deleted"@,
            DatabaseError::InvalidData(cause) => "Invalid data: "@ + cause@,
            DatabaseError::KeyNotFound(_) => "Key not found"@,
            DatabaseError::TransactionNotActive => "Transaction not active"@,
            DatabaseError::TransactionAlreadyCommitted => "Transaction already committed"@,
        }
    }

    /// The error in words.
    pub fn to_string(&self) -> (text: String)
        ensures
            text@ == self.in_words(),
    {
        match self {
            DatabaseError::PageNotFound(id) => {
                let digits = to_string(decimal_of(*id).as_slice());
                String::from_str("Page ").concat(digits.as_str()).concat(" not found")
            },
            DatabaseError::BufferPoolFull => String::from_str("Buffer pool is full"),
            DatabaseError::InvalidPage => String::from_str("Invalid page"),
            DatabaseError::IoError(cause) => String::from_str("IO error: ").concat(cause.as_str()),
            DatabaseError::ParseError(cause) => String::from_str("Parse error: ").concat(
                cause.as_str(),
            ),
            DatabaseError::InvalidOperation(cause) => String::from_str(
                "Invalid operation: ",
            ).concat(cause.as_str()),
            DatabaseError::PageFull => String::from_str("Page is full"),
            DatabaseError::InvalidSlot => String::from_str("Invalid slot"),
            DatabaseError::InvalidRecord => String::from_str("Invalid record"),
            DatabaseError::DeletedRecord => String::from_str("Record was deleted"),
            DatabaseError::InvalidData(cause) => String::from_str("Invalid data: ").concat(
                cause.as_str(),
            ),
            DatabaseError::KeyNotFound(_) => String::from_str("Key not found"),
            DatabaseError::TransactionNotActive => String::from_str("Transaction not active"),
            DatabaseError::TransactionAlreadyCommitted => String::from_str(
                "Transaction already committed",
            ),
        }
    }
}

} // verus!
