//! Database identity, schema and whole-file checks.

use vstd::prelude::*;
use vstd::string::*;

use crate::model::MemoryId;
use crate::order::{sort_distinct, strictly_ascending, words, Lexical, Relation};
use crate::semantic::model::{lemma_pair_order, pair_word};
use crate::semantic::profile::PROFILE_FINGERPRINT;
use crate::sqlite::error::{invalid_metadata, StoreError, StoreIntegrityError};
use crate::sqlite::row::{
    bad_encoding, holds_memory_id, integer_in, memory_id_error, read_integer, read_memory_id, Value,
};
use crate::sqlite::symbols::bad_metadata;
use crate::text::{
    join, joined, list_chars, pieces, push_signed_decimal, same_text, signed_decimal, split_text,
    squeeze, squeezed, text_relation,
};
use crate::text_table::contents;

verus! {

/// Application identifier in the SQLite header.
pub const APPLICATION_ID: i64 = 0x4E41_4F4D;

/// Version of the database format.
pub const FORMAT_VERSION: i64 = 8;

/// Definitions of the database objects.
pub const SCHEMA: &'static str = "
CREATE TABLE memory_meta (
    singleton INTEGER PRIMARY KEY CHECK (singleton = 1),
    format_version INTEGER NOT NULL CHECK (format_version = 8),
    memory_id BLOB NOT NULL
        CHECK (
            typeof(memory_id) = 'blob'
            AND length(memory_id) = 16
            AND memory_id != zeroblob(16)
        ),
    snapshot_revision INTEGER NOT NULL CHECK (snapshot_revision >= 0),
    semantic_profile_fingerprint BLOB NOT NULL
        CHECK (
            typeof(semantic_profile_fingerprint) = 'blob'
            AND length(semantic_profile_fingerprint) = 32
        )
) STRICT, WITHOUT ROWID;

CREATE TABLE symbols (
    id BLOB PRIMARY KEY
        CHECK (typeof(id) = 'blob' AND length(id) = 8),
    value TEXT NOT NULL
        CHECK (
            typeof(value) = 'text'
            AND length(CAST(value AS BLOB)) BETWEEN 1 AND 4096
        )
) STRICT, WITHOUT ROWID;

CREATE UNIQUE INDEX symbols_value_unique
    ON symbols(value COLLATE BINARY);

CREATE TABLE episodes (
    sequence BLOB PRIMARY KEY
        CHECK (typeof(sequence) = 'blob' AND length(sequence) = 8),
    payload BLOB NOT NULL
        CHECK (typeof(payload) = 'blob' AND length(payload) > 0)
) STRICT, WITHOUT ROWID;

CREATE TABLE episode_vectors (
    sequence BLOB PRIMARY KEY
        CHECK (typeof(sequence) = 'blob' AND length(sequence) = 8),
    vector BLOB NOT NULL
        CHECK (typeof(vector) = 'blob' AND length(vector) = 768),
    FOREIGN KEY (sequence) REFERENCES episodes(sequence)
        ON UPDATE RESTRICT ON DELETE RESTRICT
) STRICT, WITHOUT ROWID;

CREATE TABLE feedback_edges (
    from_sequence BLOB NOT NULL
        CHECK (
            typeof(from_sequence) = 'blob'
            AND length(from_sequence) = 8
        ),
    to_sequence BLOB NOT NULL
        CHECK (
            typeof(to_sequence) = 'blob'
            AND length(to_sequence) = 8
        ),
    history_bits INTEGER NOT NULL CHECK (history_bits BETWEEN 0 AND 65535),
    sample_count INTEGER NOT NULL CHECK (sample_count BETWEEN 1 AND 16),
    PRIMARY KEY (from_sequence, to_sequence),
    FOREIGN KEY (from_sequence) REFERENCES episodes(sequence)
        ON UPDATE RESTRICT ON DELETE RESTRICT,
    FOREIGN KEY (to_sequence) REFERENCES episodes(sequence)
        ON UPDATE RESTRICT ON DELETE RESTRICT,
    CHECK (from_sequence != to_sequence),
    CHECK (history_bits < (1 << sample_count))
) STRICT, WITHOUT ROWID;
";

const META_TABLE: &'static str = "memory_meta";

const SINGLETON_COLUMN: &'static str = "singleton";

const VERSION_COLUMN: &'static str = "format_version";

const MEMORY_COLUMN: &'static str = "memory_id";

const REVISION_COLUMN: &'static str = "snapshot_revision";

const FINGERPRINT_COLUMN: &'static str = "semantic_profile_fingerprint";

const WRONG_SINGLETON: &'static str = "metadata singleton key is not one";

const WRONG_FINGERPRINT: &'static str =
    "semantic profile fingerprint differs from SQLite format V8";

const MULTIPLE_ROWS: &'static str = "multiple metadata rows";

const NEGATIVE_REVISION: &'static str = "negative snapshot revision";

const WRONG_SCHEMA: &'static str = "database schema differs from the SQLite contract";

/// Requires the header to identify a NAO-M-E database.
pub fn verify_application_id(found: i64) -> (result: Result<(), StoreError>)
    ensures
        result is Ok <==> found == 0x4E41_4F4D,
        result == if found == APPLICATION_ID {
            Ok::<(), StoreError>(())
        } else {
            Err(StoreError::InvalidStore(StoreIntegrityError::ApplicationMismatch { found }))
        },
{
    if found == APPLICATION_ID {
        Ok(())
    } else {
        Err(StoreError::InvalidStore(StoreIntegrityError::ApplicationMismatch { found }))
    }
}

/// The error of a metadata table by the versions of its rows.
pub open spec fn version_error(rows: Seq<Value>) -> Option<StoreError> {
    if rows.len() == 0 {
        Some(StoreError::InvalidStore(StoreIntegrityError::MissingMetadata))
    } else {
        match integer_in(rows[0], "memory_meta", "format_version") {
            Err(error) => Some(error),
            Ok(found) => if found != FORMAT_VERSION {
                Some(
                    StoreError::InvalidStore(
                        StoreIntegrityError::UnsupportedFormatVersion { found },
                    ),
                )
            } else if rows.len() > 1 {
                Some(bad_metadata("multiple metadata rows"))
            } else {
                None
            },
        }
    }
}

/// Requires exactly one metadata row with this format's version.
pub fn verify_format_version(rows: &[Value]) -> (result: Result<(), StoreError>)
    ensures
        result == match version_error(rows@) {
            Some(error) => Err::<(), StoreError>(error),
            None => Ok(()),
        },
{
    if rows.len() == 0 {
        return Err(StoreError::InvalidStore(StoreIntegrityError::MissingMetadata));
    }
    match read_integer(&rows[0], META_TABLE, VERSION_COLUMN) {
        Err(error) => Err(error),
        Ok(found) => if found != FORMAT_VERSION {
            Err(
                StoreError::InvalidStore(StoreIntegrityError::UnsupportedFormatVersion { found }),
            )
        } else if rows.len() > 1 {
            invalid_metadata(MULTIPLE_ROWS)
        } else {
            Ok(())
        },
    }
}

/// One row of the metadata table, in the order of its columns.
#[derive(Clone, Debug, PartialEq, Eq)]
pub struct MetadataRow {
    /// Key of the only row.
    pub singleton: Value,
    /// Version of the format.
    pub format_version: Value,
    /// Durable memory identifier.
    pub memory_id: Value,
    /// Number of saves.
    pub snapshot_revision: Value,
    /// Identity of the encoding contract.
    pub semantic_profile_fingerprint: Value,
}

/// The blob is the fingerprint of the fixed profile.
pub open spec fn fixed_fingerprint(value: Value) -> bool {
    value matches Value::Blob(bytes) && bytes@ == PROFILE_FINGERPRINT@
}

/// The error of a metadata table.
pub open spec fn metadata_error(rows: Seq<MetadataRow>) -> Option<StoreError> {
    if rows.len() == 0 {
        Some(StoreError::InvalidStore(StoreIntegrityError::MissingMetadata))
    } else {
        match integer_in(rows[0].singleton, "memory_meta", "singleton") {
            Err(error) => Some(error),
            Ok(singleton) => if singleton != 1 {
                Some(bad_metadata("metadata singleton key is not one"))
            } else {
                match integer_in(rows[0].format_version, "memory_meta", "format_version") {
                    Err(error) => Some(error),
                    Ok(found) => if found != FORMAT_VERSION {
                        Some(
                            StoreError::InvalidStore(
                                StoreIntegrityError::UnsupportedFormatVersion { found },
                            ),
                        )
                    } else {
                        content_error(rows)
                    },
                }
            },
        }
    }
}

/// The error of a metadata table with the right key and version.
pub open spec fn content_error(rows: Seq<MetadataRow>) -> Option<StoreError> {
    match memory_id_error(rows[0].memory_id, "memory_meta", "memory_id") {
        Some(error) => Some(error),
        None => match integer_in(rows[0].snapshot_revision, "memory_meta", "snapshot_revision") {
            Err(error) => Some(error),
            Ok(revision) => if !(rows[0].semantic_profile_fingerprint is Blob) {
                Some(bad_encoding("memory_meta", "semantic_profile_fingerprint"))
            } else if !fixed_fingerprint(rows[0].semantic_profile_fingerprint) {
                Some(bad_metadata("semantic profile fingerprint differs from SQLite format V8"))
            } else if rows.len() > 1 {
                Some(bad_metadata("multiple metadata rows"))
            } else if revision < 0 {
                Some(bad_metadata("negative snapshot revision"))
            } else {
                None
            },
        },
    }
}

fn is_fixed_fingerprint(bytes: &[u8]) -> (same: bool)
    ensures
        same == (bytes@ == PROFILE_FINGERPRINT@),
{
    let expected: [u8; 32] = PROFILE_FINGERPRINT;
    if bytes.len() != 32 {
        return false;
    }
    let mut index: usize = 0;
    while index < 32
        invariant
            index <= 32,
            bytes@.len() == 32,
            expected@ == PROFILE_FINGERPRINT@,
            forall|i: int| 0 <= i < index ==> bytes@[i] == expected@[i],
        decreases 32 - index,
    {
        if bytes[index] != expected[index] {
            return false;
        }
        index += 1;
    }
    assert(bytes@ =~= expected@);
    true
}

/// Reads the memory identifier and the revision of a metadata table.
pub fn read_metadata(rows: &[MetadataRow]) -> (result: Result<(MemoryId, i64), StoreError>)
    ensures
        match (metadata_error(rows@), result) {
            (Some(expected), Err(error)) => error == expected,
            (None, Ok((memory_id, revision))) => {
                &&& holds_memory_id(rows@[0].memory_id, memory_id)
                &&& rows@[0].snapshot_revision == Value::Integer(revision)
                &&& revision >= 0
            },
            _ => false,
        },
{
    if rows.len() == 0 {
        return Err(StoreError::InvalidStore(StoreIntegrityError::MissingMetadata));
    }
    let row = &rows[0];
    match read_integer(&row.singleton, META_TABLE, SINGLETON_COLUMN) {
        Err(error) => {
            return Err(error);
        },
        Ok(singleton) => {
            if singleton != 1 {
                return invalid_metadata(WRONG_SINGLETON);
            }
        },
    }
    match read_integer(&row.format_version, META_TABLE, VERSION_COLUMN) {
        Err(error) => {
            return Err(error);
        },
        Ok(found) => {
            if found != FORMAT_VERSION {
                return Err(
                    StoreError::InvalidStore(
                        StoreIntegrityError::UnsupportedFormatVersion { found },
                    ),
                );
            }
        },
    }
    let memory_id = match read_memory_id(&row.memory_id, META_TABLE, MEMORY_COLUMN) {
        Err(error) => {
            return Err(error);
        },
        Ok(memory_id) => memory_id,
    };
    let revision: i64 = match read_integer(&row.snapshot_revision, META_TABLE, REVISION_COLUMN) {
        Err(error) => {
            return Err(error);
        },
        Ok(revision) => revision,
    };
    match &row.semantic_profile_fingerprint {
        Value::Blob(bytes) => {
            if !is_fixed_fingerprint(bytes.as_slice()) {
                return invalid_metadata(WRONG_FINGERPRINT);
            }
        },
        _ => {
            return Err(
                StoreError::InvalidStore(
                    StoreIntegrityError::InvalidEncoding {
                        table: META_TABLE,
                        column: FINGERPRINT_COLUMN,
                    },
                ),
            );
        },
    }
    if rows.len() > 1 {
        return invalid_metadata(MULTIPLE_ROWS);
    }
    if revision < 0 {
        return invalid_metadata(NEGATIVE_REVISION);
    }
    Ok((memory_id, revision))
}

/// A persistent object of the database.
#[derive(Clone, Debug, PartialEq, Eq)]
pub struct SchemaObject {
    /// Kind of the object.
    pub object_type: String,
    /// Name of the object.
    pub name: String,
    /// Table that the object belongs to.
    pub table_name: String,
    /// Definition with single spaces.
    pub normalized_sql: Option<String>,
}

/// The kind, the names and the definition of an object.
pub ghost struct ObjectContent {
    /// Kind of the object.
    pub object_type: Seq<char>,
    /// Name of the object.
    pub name: Seq<char>,
    /// Table that the object belongs to.
    pub table_name: Seq<char>,
    /// Definition with single spaces.
    pub normalized_sql: Option<Seq<char>>,
}

impl View for SchemaObject {
    type V = ObjectContent;

    open spec fn view(&self) -> ObjectContent {
        ObjectContent {
            object_type: self.object_type@,
            name: self.name@,
            table_name: self.table_name@,
            normalized_sql: match self.normalized_sql {
                Some(sql) => Some(sql@),
                None => None,
            },
        }
    }
}

/// The contents of objects.
pub open spec fn object_contents(objects: Seq<SchemaObject>) -> Seq<ObjectContent> {
    objects.map_values(|object: SchemaObject| object@)
}

/// Makes each run of whitespace one space.
pub fn normalize_sql(sql: &str) -> (normalized: String)
    ensures
        normalized@ == squeezed(sql@),
{
    let characters = list_chars(sql);
    squeeze(characters.as_slice())
}

/// Describes an object of the database with its definition normalized.
pub fn schema_object(object_type: &str, name: &str, table_name: &str, sql: Option<&str>) -> (object:
    SchemaObject)
    ensures
        object@ == (ObjectContent {
            object_type: object_type@,
            name: name@,
            table_name: table_name@,
            normalized_sql: match sql {
                Some(sql) => Some(squeezed(sql@)),
                None => None,
            },
        }),
{
    SchemaObject {
        object_type: object_type.to_owned(),
        name: name.to_owned(),
        table_name: table_name.to_owned(),
        normalized_sql: match sql {
            Some(sql) => Some(normalize_sql(sql)),
            None => None,
        },
    }
}

/// The pieces with single spaces, without those that hold nothing else.
pub open spec fn filled(all: Seq<Seq<char>>) -> Seq<Seq<char>>
    decreases all.len(),
{
    if all.len() == 0 {
        Seq::empty()
    } else {
        let before = filled(all.drop_last());
        let last = squeezed(all.last());
        if last.len() == 0 {
            before
        } else {
            before.push(last)
        }
    }
}

/// The normalized definitions of a schema text.
pub open spec fn definitions(schema: Seq<char>) -> Seq<Seq<char>> {
    filled(pieces(schema, ';'))
}

/// Lists the normalized definitions of a schema text.
pub fn schema_definitions(schema: &str) -> (list: Vec<String>)
    ensures
        contents(list@) == definitions(schema@),
{
    let parts = split_text(schema, ';');
    let ghost all = contents(parts@);
    let mut list: Vec<String> = Vec::new();
    let mut index: usize = 0;
    proof {
        assert(all.take(0) =~= Seq::empty());
        assert(contents(list@) =~= Seq::empty());
    }
    while index < parts.len()
        invariant
            index <= parts@.len(),
            all == contents(parts@),
            contents(list@) == filled(all.take(index as int)),
        decreases parts.len() - index,
    {
        let ghost part = all.take(index + 1);
        let ghost before = contents(list@);
        proof {
            assert(part.drop_last() =~= all.take(index as int));
            assert(part.last() == parts@[index as int]@);
        }
        let text = normalize_sql(parts[index].as_str());
        let ghost content = text@;
        if !text.as_str().is_empty() {
            list.push(text);
            assert(contents(list@) =~= before.push(content));
        }
        index += 1;
    }
    assert(all.take(index as int) =~= all);
    list
}

impl Lexical for SchemaObject {
    open spec fn word(&self) -> Seq<int> {
        pair_word((self.object_type@, self.name@))
    }

    fn relation(&self, other: &Self) -> (relation: Relation) {
        let first = text_relation(self.object_type.as_str(), other.object_type.as_str());
        let relation = match first {
            Relation::Equal => text_relation(self.name.as_str(), other.name.as_str()),
            _ => first,
        };
        proof {
            lemma_pair_order(
                (self.object_type@, self.name@),
                (other.object_type@, other.name@),
                first,
                relation,
            );
        }
        relation
    }
}

/// The objects that a listing of kinds and names and their definitions make.
pub open spec fn listed_objects(
    listing: Seq<(&str, &str, &str)>,
    definitions: Seq<Seq<char>>,
) -> Seq<ObjectContent> {
    let length = if listing.len() < definitions.len() {
        listing.len()
    } else {
        definitions.len()
    };
    Seq::new(
        length,
        |i: int|
            ObjectContent {
                object_type: listing[i].0@,
                name: listing[i].1@,
                table_name: listing[i].2@,
                normalized_sql: Some(definitions[i]),
            },
    )
}

/// Pairs the definitions of a schema with the names of their objects, in the
/// order of kinds and names.
pub fn ordered_objects(schema: &str, listing: &[(&str, &str, &str)]) -> (objects: Vec<SchemaObject>)
    ensures
        strictly_ascending(words(objects@)),
        forall|i: int|
            0 <= i < objects@.len() ==> listed_objects(listing@, definitions(schema@)).contains(
                #[trigger] objects@[i]@,
            ),
        forall|i: int|
            0 <= i < listed_objects(listing@, definitions(schema@)).len() ==> words(
                objects@,
            ).contains(
                pair_word(
                    (
                        (#[trigger] listed_objects(
                            listing@,
                            definitions(schema@),
                        )[i]).object_type,
                        listed_objects(listing@, definitions(schema@))[i].name,
                    ),
                ),
            ),
{
    let list = schema_definitions(schema);
    let ghost texts = definitions(schema@);
    let ghost all = listed_objects(listing@, texts);
    let mut items: Vec<SchemaObject> = Vec::new();
    let mut index: usize = 0;
    while index < list.len() && index < listing.len()
        invariant
            index <= list@.len(),
            index <= listing@.len(),
            contents(list@) == texts,
            all == listed_objects(listing@, texts),
            items@.len() == index,
            forall|i: int| 0 <= i < index ==> (#[trigger] items@[i])@ == all[i],
        decreases list.len() - index,
    {
        let (object_type, name, table_name) = listing[index];
        assert(contents(list@)[index as int] == list@[index as int]@);
        items.push(
            SchemaObject {
                object_type: object_type.to_owned(),
                name: name.to_owned(),
                table_name: table_name.to_owned(),
                normalized_sql: Some(list[index].clone()),
            },
        );
        index += 1;
    }
    let ghost made = items@;
    assert(contents(list@).len() == list@.len());
    let objects = sort_distinct(items);
    proof {
        assert forall|i: int| 0 <= i < objects@.len() implies all.contains(
            #[trigger] objects@[i]@,
        ) by {
            assert(made.contains(objects@[i]));
            let j = made.index_of(objects@[i]);
            assert(made[j]@ == all[j]);
        }
        assert forall|i: int| 0 <= i < all.len() implies words(objects@).contains(
            pair_word(((#[trigger] all[i]).object_type, all[i].name)),
        ) by {
            assert(made[i]@ == all[i]);
            assert(words(made)[i] == made[i].word());
            assert(words(made).contains(made[i].word()));
        }
    }
    objects
}

/// Lists the objects of this format in the order of kinds and names.
pub fn canonical_schema_objects() -> (objects: Vec<SchemaObject>)
    ensures
        strictly_ascending(words(objects@)),
        forall|i: int|
            0 <= i < objects@.len() ==> listed_objects(
                format_listing(),
                definitions(SCHEMA@),
            ).contains(#[trigger] objects@[i]@),
        forall|i: int|
            0 <= i < listed_objects(format_listing(), definitions(SCHEMA@)).len() ==> words(
                objects@,
            ).contains(
                pair_word(
                    (
                        (#[trigger] listed_objects(
                            format_listing(),
                            definitions(SCHEMA@),
                        )[i]).object_type,
                        listed_objects(format_listing(), definitions(SCHEMA@))[i].name,
                    ),
                ),
            ),
{
    let listing: [(&str, &str, &str); 6] = [
        ("table", "memory_meta", "memory_meta"),
        ("table", "symbols", "symbols"),
        ("index", "symbols_value_unique", "symbols"),
        ("table", "episodes", "episodes"),
        ("table", "episode_vectors", "episode_vectors"),
        ("table", "feedback_edges", "feedback_edges"),
    ];
    assert(listing@ =~= format_listing());
    ordered_objects(SCHEMA, listing.as_slice())
}

/// The kinds and names of the objects, in the order of their definitions.
pub open spec fn format_listing() -> Seq<(&'static str, &'static str, &'static str)> {
    seq![
        ("table", "memory_meta", "memory_meta"),
        ("table", "symbols", "symbols"),
        ("index", "symbols_value_unique", "symbols"),
        ("table", "episodes", "episodes"),
        ("table", "episode_vectors", "episode_vectors"),
        ("table", "feedback_edges", "feedback_edges"),
    ]
}

fn same_object(first: &SchemaObject, second: &SchemaObject) -> (same: bool)
    ensures
        same == (first@ == second@),
{
    same_text(first.object_type.as_str(), second.object_type.as_str()) && same_text(
        first.name.as_str(),
        second.name.as_str(),
    ) && same_text(first.table_name.as_str(), second.table_name.as_str()) && match (
        &first.normalized_sql,
        &second.normalized_sql,
    ) {
        (None, None) => true,
        (Some(first), Some(second)) => same_text(first.as_str(), second.as_str()),
        _ => false,
    }
}

/// Compares two lists of objects.
pub fn same_objects(first: &[SchemaObject], second: &[SchemaObject]) -> (same: bool)
    ensures
        same == (object_contents(first@) == object_contents(second@)),
{
    if first.len() != second.len() {
        assert(object_contents(first@).len() != object_contents(second@).len());
        return false;
    }
    let mut index: usize = 0;
    while index < first.len()
        invariant
            index <= first@.len(),
            first@.len() == second@.len(),
            forall|i: int| 0 <= i < index ==> first@[i]@ == second@[i]@,
        decreases first.len() - index,
    {
        if !same_object(&first[index], &second[index]) {
            assert(object_contents(first@)[index as int] != object_contents(
                second@,
            )[index as int]);
            return false;
        }
        index += 1;
    }
    assert(object_contents(first@) =~= object_contents(second@));
    true
}

/// Requires the persistent objects to be exactly those of this format.
///
/// The found objects are ordered by kind and name.
pub fn verify_schema(found: &[SchemaObject], canonical: &[SchemaObject]) -> (result: Result<
    (),
    StoreError,
>)
    ensures
        result == if object_contents(found@) == object_contents(canonical@) {
            Ok::<(), StoreError>(())
        } else {
            Err(bad_metadata("database schema differs from the SQLite contract"))
        },
{
    if same_objects(found, canonical) {
        Ok(())
    } else {
        invalid_metadata(WRONG_SCHEMA)
    }
}

/// The diagnostics other than `ok`, each behind its table's name.
pub open spec fn quick_faults(reports: Seq<(&str, String)>) -> Seq<Seq<char>>
    decreases reports.len(),
{
    if reports.len() == 0 {
        Seq::empty()
    } else {
        let before = quick_faults(reports.drop_last());
        let (table, diagnostic) = reports.last();
        if diagnostic@ == "ok"@ {
            before
        } else {
            before.push(table@ + ": "@ + diagnostic@)
        }
    }
}

/// Requires every quick check of a table to report `ok`.
pub fn verify_quick_check(reports: &[(&str, String)]) -> (result: Result<(), StoreError>)
    ensures
        match result {
            Ok(_) => quick_faults(reports@).len() == 0,
            Err(error) => {
                &&& quick_faults(reports@).len() > 0
                &&& error matches StoreError::InvalidStore(
                    StoreIntegrityError::QuickCheckFailed { detail },
                ) && detail@ == joined(quick_faults(reports@), "; "@)
            },
        },
{
    let mut faults: Vec<String> = Vec::new();
    let mut index: usize = 0;
    assert(reports@.take(0) =~= Seq::empty());
    assert(contents(faults@) =~= Seq::empty());
    while index < reports.len()
        invariant
            index <= reports@.len(),
            contents(faults@) == quick_faults(reports@.take(index as int)),
        decreases reports.len() - index,
    {
        let ghost part = reports@.take(index + 1);
        let ghost before = contents(faults@);
        proof {
            assert(part.drop_last() =~= reports@.take(index as int));
            assert(part.last() == reports@[index as int]);
        }
        let table = reports[index].0;
        let diagnostic = reports[index].1.as_str();
        if !same_text(diagnostic, "ok") {
            let mut fault = table.to_owned();
            fault.append(": ");
            fault.append(diagnostic);
            let ghost content = fault@;
            faults.push(fault);
            assert(contents(faults@) =~= before.push(content));
        }
        index += 1;
    }
    assert(reports@.take(reports@.len() as int) =~= reports@);
    assert(contents(faults@).len() == faults@.len());
    if faults.len() == 0 {
        return Ok(());
    }
    let detail = join(faults.as_slice(), "; ");
    Err(StoreError::InvalidStore(StoreIntegrityError::QuickCheckFailed { detail }))
}

/// Requires the integrity check to report a single `ok`.
pub fn verify_integrity_check(diagnostics: &[String]) -> (result: Result<(), StoreError>)
    ensures
        match result {
            Ok(_) => diagnostics@.len() == 1 && diagnostics@[0]@ == "ok"@,
            Err(error) => {
                &&& !(diagnostics@.len() == 1 && diagnostics@[0]@ == "ok"@)
                &&& error matches StoreError::InvalidStore(
                    StoreIntegrityError::IntegrityCheckFailed { detail },
                ) && detail@ == joined(contents(diagnostics@), "; "@)
            },
        },
{
    if diagnostics.len() == 1 && same_text(diagnostics[0].as_str(), "ok") {
        Ok(())
    } else {
        let detail = join(diagnostics, "; ");
        Err(StoreError::InvalidStore(StoreIntegrityError::IntegrityCheckFailed { detail }))
    }
}

/// The text of a row number that may be absent.
pub open spec fn row_text(row: Option<i64>) -> Seq<char> {
    match row {
        Some(row) => signed_decimal(row as int),
        None => "without rowid"@,
    }
}

/// Requires the foreign-key check to report no violation.
///
/// A violation names the table, the row and the referenced table.
pub fn verify_foreign_keys(violation: Option<(&str, Option<i64>, &str)>) -> (result: Result<
    (),
    StoreError,
>)
    ensures
        match (violation, result) {
            (None, Ok(_)) => true,
            (Some((table, row, parent)), Err(error)) => error matches StoreError::InvalidStore(
                StoreIntegrityError::ForeignKeyCheckFailed { detail },
            ) && detail@ == table@ + " row "@ + row_text(row) + " references "@ + parent@,
            _ => false,
        },
{
    match violation {
        None => Ok(()),
        Some((table, row, parent)) => {
            let mut detail = table.to_owned();
            detail.append(" row ");
            match row {
                Some(row) => {
                    push_signed_decimal(&mut detail, row);
                },
                None => {
                    detail.append("without rowid");
                },
            }
            detail.append(" references ");
            detail.append(parent);
            Err(StoreError::InvalidStore(StoreIntegrityError::ForeignKeyCheckFailed { detail }))
        },
    }
}

} // verus!
