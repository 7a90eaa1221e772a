//! Memory identifiers drawn from entropy.

use vstd::prelude::*;

use crate::bytes::be_value;
use crate::model::MemoryId;
use crate::sqlite::error::StoreError;

verus! {

/// Sixteen bytes of `getrandom::fill`, the operating system's entropy source,
/// or its diagnostic. Nothing is claimed of the bytes, nor of when the source
/// is available: both depend on chance and on the machine.
#[verifier::external_body]
fn entropy() -> (result: Result<[u8; 16], String>) {
    let mut bytes = [0_u8; 16];
    match getrandom::fill(&mut bytes) {
        Ok(()) => Ok(bytes),
        Err(error) => Err(error.to_string()),
    }
}

/// The memory identifier that drawn bytes spell, unless they are all zero.
pub fn memory_id_from_entropy(bytes: [u8; 16]) -> (memory_id: Option<MemoryId>)
    ensures
        be_value(bytes@) == 0 ==> memory_id is None,
        be_value(bytes@) != 0 ==> memory_id is Some && memory_id->0@ == be_value(bytes@),
{
    match MemoryId::from_be_bytes(bytes) {
        Ok(memory_id) => Some(memory_id),
        Err(_) => None,
    }
}

/// Draws a memory identifier from operating-system entropy, or nothing where
/// the drawn bytes are all zero and another draw is due.
pub fn random_memory_id() -> (result: Result<Option<MemoryId>, StoreError>)
    ensures
        match result {
            Ok(Some(memory_id)) => memory_id@ != 0,
            Ok(None) => true,
            Err(error) => error is Entropy,
        },
{
    match entropy() {
        Ok(bytes) => Ok(memory_id_from_entropy(bytes)),
        Err(detail) => Err(StoreError::Entropy(detail)),
    }
}

} // verus!
