//! Column values of persisted rows and their fixed-width readings.

use vstd::prelude::*;

use crate::bytes::be_value;
use crate::model::MemoryId;
use crate::sqlite::error::{StoreError, StoreIntegrityError};
use crate::sqlite::wire::{decode_memory_id, decode_u64};

verus! {

/// One column of a row, by the storage class that SQLite reports.
#[derive(Clone, Debug, PartialEq, Eq)]
pub enum Value {
    /// SQL `NULL`.
    Null,
    /// A signed integer.
    Integer(i64),
    /// A floating-point number, which no column of this format holds.
    Real,
    /// Text bytes, not necessarily valid UTF-8.
    Text(Vec<u8>),
    /// A blob.
    Blob(Vec<u8>),
}

/// The column does not hold its encoding.
pub open spec fn bad_encoding(table: &'static str, column: &'static str) -> StoreError {
    StoreError::InvalidStore(StoreIntegrityError::InvalidEncoding { table, column })
}

/// Reads an integer column.
pub open spec fn integer_in(
    value: Value,
    table: &'static str,
    column: &'static str,
) -> Result<i64, StoreError> {
    match value {
        Value::Integer(value) => Ok(value),
        _ => Err(bad_encoding(table, column)),
    }
}

/// Reads an eight-byte unsigned column.
pub open spec fn u64_in(
    value: Value,
    table: &'static str,
    column: &'static str,
) -> Result<u64, StoreError> {
    match value {
        Value::Blob(bytes) => if bytes@.len() == 8 {
            Ok(be_value(bytes@) as u64)
        } else {
            Err(bad_encoding(table, column))
        },
        _ => Err(bad_encoding(table, column)),
    }
}

/// The column holds the identifier.
pub open spec fn holds_memory_id(value: Value, id: MemoryId) -> bool {
    value matches Value::Blob(bytes) && bytes@.len() == 16 && be_value(bytes@) == id@
}

/// The error of a column without a memory identifier.
pub open spec fn memory_id_error(
    value: Value,
    table: &'static str,
    column: &'static str,
) -> Option<StoreError> {
    match value {
        Value::Blob(bytes) => if bytes@.len() != 16 {
            Some(bad_encoding(table, column))
        } else if be_value(bytes@) == 0 {
            Some(StoreError::InvalidStore(StoreIntegrityError::InvalidMemoryId))
        } else {
            None
        },
        _ => Some(bad_encoding(table, column)),
    }
}

/// Reads an integer column.
pub fn read_integer(value: &Value, table: &'static str, column: &'static str) -> (result: Result<
    i64,
    StoreError,
>)
    ensures
        result == integer_in(*value, table, column),
{
    match value {
        Value::Integer(value) => Ok(*value),
        _ => Err(StoreError::InvalidStore(StoreIntegrityError::InvalidEncoding { table, column })),
    }
}

/// Reads an eight-byte unsigned column.
pub fn read_u64(value: &Value, table: &'static str, column: &'static str) -> (result: Result<
    u64,
    StoreError,
>)
    ensures
        result == u64_in(*value, table, column),
{
    match value {
        Value::Blob(bytes) => match decode_u64(bytes.as_slice()) {
            Some(value) => Ok(value),
            None => Err(
                StoreError::InvalidStore(StoreIntegrityError::InvalidEncoding { table, column }),
            ),
        },
        _ => Err(StoreError::InvalidStore(StoreIntegrityError::InvalidEncoding { table, column })),
    }
}

/// Reads a memory identifier column.
pub fn read_memory_id(value: &Value, table: &'static str, column: &'static str) -> (result: Result<
    MemoryId,
    StoreError,
>)
    ensures
        result is Err <==> memory_id_error(*value, table, column) is Some,
        result matches Err(error) ==> Some(error) == memory_id_error(*value, table, column),
        result matches Ok(id) ==> holds_memory_id(*value, id),
{
    match value {
        Value::Blob(bytes) => match decode_memory_id(bytes.as_slice()) {
            Some(id) => Ok(id),
            None => if bytes.len() == 16 {
                Err(StoreError::InvalidStore(StoreIntegrityError::InvalidMemoryId))
            } else {
                Err(
                    StoreError::InvalidStore(
                        StoreIntegrityError::InvalidEncoding { table, column },
                    ),
                )
            },
        },
        _ => Err(StoreError::InvalidStore(StoreIntegrityError::InvalidEncoding { table, column })),
    }
}

} // verus!
