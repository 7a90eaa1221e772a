//! Identity, schema and rows of the sidecar database.

use vstd::prelude::*;

use crate::bytes::be_value;
use crate::model::MemoryId;
use crate::order::{strictly_ascending, words};
use crate::semantic::model::pair_word;
use crate::semantic_index::error::{invalid_index, IndexError, IndexIntegrityError};
use crate::semantic_index::model::{some_byte, EmbeddingProfile};
use crate::sqlite::format::{definitions, listed_objects, ordered_objects, SchemaObject};
use crate::sqlite::row::Value;
use crate::sqlite::vectors::{components, vector_components};
use crate::sqlite::wire::{decode_memory_id, decode_u64};

verus! {

/// Application identifier in the SQLite header.
pub const APPLICATION_ID: i64 = 0x4E41_4F53;

/// Version of the sidecar format.
pub const FORMAT_VERSION: i64 = 1;

/// Definitions of the sidecar objects.
pub const SCHEMA: &'static str = "
CREATE TABLE semantic_meta (
    singleton INTEGER PRIMARY KEY CHECK (singleton = 1),
    format_version INTEGER NOT NULL CHECK (format_version = 1),
    memory_id BLOB NOT NULL
        CHECK (
            typeof(memory_id) = 'blob'
            AND length(memory_id) = 16
            AND memory_id != zeroblob(16)
        ),
    profile_fingerprint BLOB NOT NULL
        CHECK (
            typeof(profile_fingerprint) = 'blob'
            AND length(profile_fingerprint) = 32
            AND profile_fingerprint != zeroblob(32)
        ),
    dimensions INTEGER NOT NULL CHECK (dimensions BETWEEN 1 AND 65535),
    indexed_episode_count BLOB NOT NULL
        CHECK (
            typeof(indexed_episode_count) = 'blob'
            AND length(indexed_episode_count) = 8
        )
) STRICT, WITHOUT ROWID;

CREATE TABLE semantic_cues (
    cue_id BLOB PRIMARY KEY
        CHECK (typeof(cue_id) = 'blob' AND length(cue_id) = 8),
    key_id BLOB NOT NULL
        CHECK (typeof(key_id) = 'blob' AND length(key_id) = 8),
    value_id BLOB NOT NULL
        CHECK (typeof(value_id) = 'blob' AND length(value_id) = 8),
    vector BLOB NOT NULL
        CHECK (
            typeof(vector) = 'blob'
            AND length(vector) BETWEEN 2 AND 131070
            AND length(vector) % 2 = 0
        )
) STRICT, WITHOUT ROWID;

CREATE UNIQUE INDEX semantic_cue_pair_unique
    ON semantic_cues(key_id, value_id);

CREATE TABLE episode_cues (
    sequence BLOB NOT NULL
        CHECK (typeof(sequence) = 'blob' AND length(sequence) = 8),
    cue_id BLOB NOT NULL
        CHECK (typeof(cue_id) = 'blob' AND length(cue_id) = 8),
    PRIMARY KEY (sequence, cue_id),
    FOREIGN KEY (cue_id) REFERENCES semantic_cues(cue_id)
        ON UPDATE RESTRICT ON DELETE RESTRICT
) STRICT, WITHOUT ROWID;

CREATE INDEX episode_cues_by_cue
    ON episode_cues(cue_id, sequence);
";

const META_TABLE: &'static str = "semantic_meta";

const VERSION_COLUMN: &'static str = "format_version";

const MEMORY_COLUMN: &'static str = "memory_id";

const FINGERPRINT_COLUMN: &'static str = "profile_fingerprint";

const DIMENSIONS_COLUMN: &'static str = "dimensions";

const COUNT_COLUMN: &'static str = "indexed_episode_count";

const ZERO_MEMORY: &'static str = "memory identifier is zero";

const WRONG_DIMENSIONS: &'static str = "embedding dimensions are outside 1..=65535";

const ZERO_FINGERPRINT: &'static str = "embedding profile fingerprint is zero";

const MULTIPLE_ROWS: &'static str = "multiple semantic metadata rows";

/// The kinds and names of the objects, in the order of their definitions.
pub open spec fn sidecar_listing() -> Seq<(&'static str, &'static str, &'static str)> {
    seq![
        ("table", "semantic_meta", "semantic_meta"),
        ("table", "semantic_cues", "semantic_cues"),
        ("index", "semantic_cue_pair_unique", "semantic_cues"),
        ("table", "episode_cues", "episode_cues"),
        ("index", "episode_cues_by_cue", "episode_cues"),
    ]
}

/// Lists the sidecar objects in the order of kinds and names.
pub fn canonical_schema_objects() -> (objects: Vec<SchemaObject>)
    ensures
        strictly_ascending(words(objects@)),
        forall|i: int|
            0 <= i < objects@.len() ==> listed_objects(
                sidecar_listing(),
                definitions(SCHEMA@),
            ).contains(#[trigger] objects@[i]@),
        forall|i: int|
            0 <= i < listed_objects(sidecar_listing(), definitions(SCHEMA@)).len() ==> words(
                objects@,
            ).contains(
                pair_word(
                    (
                        (#[trigger] listed_objects(
                            sidecar_listing(),
                            definitions(SCHEMA@),
                        )[i]).object_type,
                        listed_objects(sidecar_listing(), definitions(SCHEMA@))[i].name,
                    ),
                ),
            ),
{
    let listing: [(&str, &str, &str); 5] = [
        ("table", "semantic_meta", "semantic_meta"),
        ("table", "semantic_cues", "semantic_cues"),
        ("index", "semantic_cue_pair_unique", "semantic_cues"),
        ("table", "episode_cues", "episode_cues"),
        ("index", "episode_cues_by_cue", "episode_cues"),
    ];
    assert(listing@ =~= sidecar_listing());
    ordered_objects(SCHEMA, listing.as_slice())
}

/// The bytes hold a non-zero vector of the width.
pub open spec fn holds_vector(bytes: Seq<u8>, dimensions: u16) -> bool {
    &&& bytes.len() == 2 * dimensions
    &&& exists|i: int| 0 <= i < components(bytes).len() && (#[trigger] components(bytes)[i]) != 0
}

/// Tells whether the bytes hold a non-zero vector of the width.
pub fn validate_vector(bytes: &[u8], dimensions: u16) -> (valid: bool)
    ensures
        valid == holds_vector(bytes@, dimensions),
{
    if bytes.len() != dimensions as usize * 2 {
        return false;
    }
    let values = vector_components(bytes);
    let mut index: usize = 0;
    while index < values.len()
        invariant
            index <= values@.len(),
            values@ == components(bytes@),
            bytes@.len() == 2 * dimensions,
            forall|i: int| 0 <= i < index ==> (#[trigger] values@[i]) == 0,
        decreases values.len() - index,
    {
        if values[index] != 0 {
            assert(components(bytes@)[index as int] != 0);
            return true;
        }
        index += 1;
    }
    false
}

/// The column does not hold its encoding.
pub open spec fn bad_column(table: &'static str, column: &'static str) -> IndexError {
    IndexError::InvalidIndex(IndexIntegrityError::InvalidEncoding { table, column })
}

/// Sidecar metadata violates a rule.
pub open spec fn bad_sidecar(detail: &'static str) -> IndexError {
    IndexError::InvalidIndex(IndexIntegrityError::InvalidMetadata { detail })
}

/// Reports metadata that violates a rule.
pub fn invalid_sidecar<T>(detail: &'static str) -> (result: Result<T, IndexError>)
    ensures
        result == Err::<T, IndexError>(bad_sidecar(detail)),
{
    Err(IndexError::InvalidIndex(IndexIntegrityError::InvalidMetadata { detail }))
}

/// The integer of a column.
pub open spec fn integer_of(value: Value, table: &'static str, column: &'static str) -> Result<
    i64,
    IndexError,
> {
    match value {
        Value::Integer(value) => Ok(value),
        _ => Err(bad_column(table, column)),
    }
}

/// The unsigned number of a column.
pub open spec fn number_of(value: Value, table: &'static str, column: &'static str) -> Result<
    u64,
    IndexError,
> {
    match value {
        Value::Blob(bytes) => if bytes@.len() == 8 {
            Ok(be_value(bytes@) as u64)
        } else {
            Err(bad_column(table, column))
        },
        _ => Err(bad_column(table, column)),
    }
}

/// The bytes of a column of fixed width.
pub open spec fn blob_of(
    value: Value,
    width: nat,
    table: &'static str,
    column: &'static str,
) -> Result<Seq<u8>, IndexError> {
    match value {
        Value::Blob(bytes) => if bytes@.len() == width {
            Ok(bytes@)
        } else {
            Err(bad_column(table, column))
        },
        _ => Err(bad_column(table, column)),
    }
}

/// Reads an integer column.
pub fn read_i64(value: &Value, table: &'static str, column: &'static str) -> (result: Result<
    i64,
    IndexError,
>)
    ensures
        result == integer_of(*value, table, column),
{
    match value {
        Value::Integer(value) => Ok(*value),
        _ => invalid_index(IndexIntegrityError::InvalidEncoding { table, column }),
    }
}

/// Reads an unsigned column.
pub fn read_u64(value: &Value, table: &'static str, column: &'static str) -> (result: Result<
    u64,
    IndexError,
>)
    ensures
        result == number_of(*value, table, column),
{
    match value {
        Value::Blob(bytes) => match decode_u64(bytes.as_slice()) {
            Some(value) => Ok(value),
            None => invalid_index(IndexIntegrityError::InvalidEncoding { table, column }),
        },
        _ => invalid_index(IndexIntegrityError::InvalidEncoding { table, column }),
    }
}

/// Reads a column of fixed width.
pub fn read_blob<'a>(
    value: &'a Value,
    width: usize,
    table: &'static str,
    column: &'static str,
) -> (result: Result<&'a [u8], IndexError>)
    ensures
        match (blob_of(*value, width as nat, table, column), result) {
            (Ok(expected), Ok(bytes)) => bytes@ == expected,
            (Err(expected), Err(error)) => error == expected,
            _ => false,
        },
{
    match value {
        Value::Blob(bytes) => if bytes.len() == width {
            Ok(bytes.as_slice())
        } else {
            invalid_index(IndexIntegrityError::InvalidEncoding { table, column })
        },
        _ => invalid_index(IndexIntegrityError::InvalidEncoding { table, column }),
    }
}

/// One row of the metadata table.
#[derive(Clone, Debug, PartialEq, Eq)]
pub struct IndexMetadataRow {
    /// Version of the format.
    pub format_version: Value,
    /// Identifier of the indexed memory.
    pub memory_id: Value,
    /// Fingerprint of the embedding profile.
    pub profile_fingerprint: Value,
    /// Width of every vector.
    pub dimensions: Value,
    /// Number of covered episodes.
    pub indexed_episode_count: Value,
}

/// The validated metadata of a sidecar.
#[derive(Debug)]
pub struct Metadata {
    /// Identifier of the indexed memory.
    pub memory_id: MemoryId,
    /// Embedding profile.
    pub profile: EmbeddingProfile,
    /// Number of covered episodes.
    pub indexed_episode_count: u64,
}

/// What sidecar metadata says.
pub ghost struct MetadataContent {
    /// Number of the indexed memory.
    pub memory: nat,
    /// Fingerprint and width of the profile.
    pub profile: (Seq<u8>, u16),
    /// Number of covered episodes.
    pub episodes: u64,
}

impl View for Metadata {
    type V = MetadataContent;

    open spec fn view(&self) -> MetadataContent {
        MetadataContent {
            memory: self.memory_id@,
            profile: self.profile@,
            episodes: self.indexed_episode_count,
        }
    }
}

/// What the metadata rows say, or the first error.
pub open spec fn metadata_in(rows: Seq<IndexMetadataRow>) -> Result<MetadataContent, IndexError> {
    if rows.len() == 0 {
        Err(IndexError::InvalidIndex(IndexIntegrityError::MissingMetadata))
    } else {
        match integer_of(rows[0].format_version, "semantic_meta", "format_version") {
            Err(error) => Err(error),
            Ok(found) => if found != FORMAT_VERSION {
                Err(
                    IndexError::InvalidIndex(
                        IndexIntegrityError::UnsupportedFormatVersion { found },
                    ),
                )
            } else {
                match blob_of(rows[0].memory_id, 16, "semantic_meta", "memory_id") {
                    Err(error) => Err(error),
                    Ok(memory) => if be_value(memory) == 0 {
                        Err(bad_sidecar("memory identifier is zero"))
                    } else {
                        profile_in(rows, be_value(memory))
                    },
                }
            },
        }
    }
}

/// What the rows say behind the memory identifier.
pub open spec fn profile_in(rows: Seq<IndexMetadataRow>, memory: nat) -> Result<
    MetadataContent,
    IndexError,
> {
    match blob_of(rows[0].profile_fingerprint, 32, "semantic_meta", "profile_fingerprint") {
        Err(error) => Err(error),
        Ok(fingerprint) => match integer_of(rows[0].dimensions, "semantic_meta", "dimensions") {
            Err(error) => Err(error),
            Ok(dimensions) => if !(1 <= dimensions <= u16::MAX) {
                Err(bad_sidecar("embedding dimensions are outside 1..=65535"))
            } else if !some_byte(fingerprint) {
                Err(bad_sidecar("embedding profile fingerprint is zero"))
            } else {
                match number_of(
                    rows[0].indexed_episode_count,
                    "semantic_meta",
                    "indexed_episode_count",
                ) {
                    Err(error) => Err(error),
                    Ok(episodes) => if rows.len() > 1 {
                        Err(bad_sidecar("multiple semantic metadata rows"))
                    } else {
                        Ok(
                            MetadataContent {
                                memory,
                                profile: (fingerprint, dimensions as u16),
                                episodes,
                            },
                        )
                    },
                }
            },
        },
    }
}

fn array_of(bytes: &[u8]) -> (array: [u8; 32])
    requires
        bytes@.len() == 32,
    ensures
        array@ == bytes@,
{
    let mut array: [u8; 32] = [0; 32];
    let mut index: usize = 0;
    while index < 32
        invariant
            index <= 32,
            bytes@.len() == 32,
            array@.len() == 32,
            forall|i: int| 0 <= i < index ==> array@[i] == bytes@[i],
        decreases 32 - index,
    {
        array[index] = bytes[index];
        index += 1;
    }
    assert(array@ =~= bytes@);
    array
}

/// Reads the metadata of a sidecar.
pub fn read_metadata(rows: &[IndexMetadataRow]) -> (result: Result<Metadata, IndexError>)
    ensures
        match (metadata_in(rows@), result) {
            (Ok(content), Ok(metadata)) => metadata@ == content,
            (Err(expected), Err(error)) => error == expected,
            _ => false,
        },
{
    if rows.len() == 0 {
        return invalid_index(IndexIntegrityError::MissingMetadata);
    }
    let row = &rows[0];
    match read_i64(&row.format_version, META_TABLE, VERSION_COLUMN) {
        Err(error) => {
            return Err(error);
        },
        Ok(found) => {
            if found != FORMAT_VERSION {
                return invalid_index(IndexIntegrityError::UnsupportedFormatVersion { found });
            }
        },
    }
    let memory_id = match read_blob(&row.memory_id, 16, META_TABLE, MEMORY_COLUMN) {
        Err(error) => {
            return Err(error);
        },
        Ok(bytes) => match decode_memory_id(bytes) {
            Some(memory_id) => memory_id,
            None => {
                return invalid_sidecar(ZERO_MEMORY);
            },
        },
    };
    let fingerprint: [u8; 32] = match read_blob(
        &row.profile_fingerprint,
        32,
        META_TABLE,
        FINGERPRINT_COLUMN,
    ) {
        Err(error) => {
            return Err(error);
        },
        Ok(bytes) => array_of(bytes),
    };
    let dimensions: i64 = match read_i64(&row.dimensions, META_TABLE, DIMENSIONS_COLUMN) {
        Err(error) => {
            return Err(error);
        },
        Ok(dimensions) => dimensions,
    };
    if dimensions < 1 || dimensions > u16::MAX as i64 {
        return invalid_sidecar(WRONG_DIMENSIONS);
    }
    let profile = match EmbeddingProfile::new(fingerprint, dimensions as u16) {
        Some(profile) => profile,
        None => {
            return invalid_sidecar(ZERO_FINGERPRINT);
        },
    };
    let indexed_episode_count: u64 = match read_u64(
        &row.indexed_episode_count,
        META_TABLE,
        COUNT_COLUMN,
    ) {
        Err(error) => {
            return Err(error);
        },
        Ok(count) => count,
    };
    if rows.len() > 1 {
        return invalid_sidecar(MULTIPLE_ROWS);
    }
    Ok(Metadata { memory_id, profile, indexed_episode_count })
}

/// The error of metadata of another memory or profile.
pub open spec fn mismatch(metadata: Metadata, memory: nat, profile: EmbeddingProfile) -> Option<
    IndexError,
> {
    if metadata.memory_id@ != memory {
        Some(IndexError::InvalidIndex(IndexIntegrityError::MemoryMismatch))
    } else if metadata.profile@ != profile@ {
        Some(IndexError::ProfileMismatch { expected: metadata.profile, found: profile })
    } else {
        None
    }
}

/// Requires the metadata to name the memory and the profile.
pub fn verify_metadata(metadata: &Metadata, memory_id: MemoryId, profile: EmbeddingProfile) -> (result:
    Result<(), IndexError>)
    ensures
        result == match mismatch(*metadata, memory_id@, profile) {
            Some(error) => Err::<(), IndexError>(error),
            None => Ok(()),
        },
{
    if metadata.memory_id.get() != memory_id.get() {
        return invalid_index(IndexIntegrityError::MemoryMismatch);
    }
    if !metadata.profile.same(&profile) {
        return Err(IndexError::ProfileMismatch { expected: metadata.profile, found: profile });
    }
    Ok(())
}

/// Requires the header to identify a semantic index.
pub fn verify_application_id(found: i64) -> (result: Result<(), IndexError>)
    ensures
        result is Ok <==> found == 0x4E41_4F53,
        result == if found == APPLICATION_ID {
            Ok::<(), IndexError>(())
        } else {
            Err(IndexError::InvalidIndex(IndexIntegrityError::ApplicationMismatch { found }))
        },
{
    if found == APPLICATION_ID {
        Ok(())
    } else {
        invalid_index(IndexIntegrityError::ApplicationMismatch { found })
    }
}

/// The error of a metadata table by the versions of its rows.
pub open spec fn version_error(rows: Seq<Value>) -> Option<IndexError> {
    if rows.len() == 0 {
        Some(IndexError::InvalidIndex(IndexIntegrityError::MissingMetadata))
    } else {
        match integer_of(rows[0], "semantic_meta", "format_version") {
            Err(error) => Some(error),
            Ok(found) => if found != FORMAT_VERSION {
                Some(
                    IndexError::InvalidIndex(
                        IndexIntegrityError::UnsupportedFormatVersion { found },
                    ),
                )
            } else if rows.len() > 1 {
                Some(bad_sidecar("multiple semantic metadata rows"))
            } else {
                None
            },
        }
    }
}

/// Requires exactly one metadata row with this format's version.
pub fn verify_format_version(rows: &[Value]) -> (result: Result<(), IndexError>)
    ensures
        result == match version_error(rows@) {
            Some(error) => Err::<(), IndexError>(error),
            None => Ok(()),
        },
{
    if rows.len() == 0 {
        return invalid_index(IndexIntegrityError::MissingMetadata);
    }
    match read_i64(&rows[0], META_TABLE, VERSION_COLUMN) {
        Err(error) => Err(error),
        Ok(found) => if found != FORMAT_VERSION {
            invalid_index(IndexIntegrityError::UnsupportedFormatVersion { found })
        } else if rows.len() > 1 {
            invalid_sidecar(MULTIPLE_ROWS)
        } else {
            Ok(())
        },
    }
}

} // verus!
