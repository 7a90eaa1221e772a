//! Session settings, schema and identity of a store on real SQLite databases.

use nao_m_e::sqlite::error::{StoreError, StoreIntegrityError};
use nao_m_e::sqlite::format::{
    canonical_schema_objects, normalize_sql, read_metadata, same_objects, schema_definitions,
    schema_object, verify_application_id, verify_foreign_keys, verify_format_version,
    verify_integrity_check, verify_quick_check, verify_schema, MetadataRow, SchemaObject,
    APPLICATION_ID, FORMAT_VERSION, SCHEMA,
};
use nao_m_e::sqlite::normalize::MAX_SYMBOL_BYTES;
use nao_m_e::sqlite::row::Value;
use nao_m_e::sqlite::session::{
    is_rollback_journal, session_settings, verify_journal, verify_setting, SYNCHRONOUS_EXTRA,
};
use nao_m_e::semantic::profile::PROFILE_FINGERPRINT;
use rusqlite::Connection;

fn open_temporary_database() -> (tempfile::TempDir, Connection) {
    let directory = tempfile::tempdir().expect("temporary directory is available");
    let connection =
        Connection::open(directory.path().join("memory.sqlite")).expect("temporary database opens");
    (directory, connection)
}

fn integer_pragma(connection: &Connection, name: &str) -> i64 {
    connection
        .pragma_query_value(None, name, |row| row.get(0))
        .expect("configured pragma can be read")
}

fn text_pragma(connection: &Connection, name: &str) -> String {
    connection
        .pragma_query_value(None, name, |row| row.get(0))
        .expect("text pragma can be read")
}

fn configure(connection: &Connection) {
    connection
        .busy_timeout(std::time::Duration::ZERO)
        .expect("busy timeout is set");
    for (name, value) in session_settings() {
        if name != "busy_timeout" {
            connection
                .pragma_update(None, name, value)
                .expect("session setting is written");
        }
        verify_setting(integer_pragma(connection, name), value)
            .expect("session configuration succeeds");
    }
    let mode = text_pragma(connection, "journal_mode");
    if !is_rollback_journal(&mode) {
        let configured: String = connection
            .query_row("PRAGMA journal_mode = DELETE", [], |row| row.get(0))
            .expect("journal mode switches");
        verify_journal(&configured).expect("durability configuration succeeds");
    }
    connection
        .pragma_update(None, "synchronous", "EXTRA")
        .expect("synchronous is written");
    verify_setting(integer_pragma(connection, "synchronous"), SYNCHRONOUS_EXTRA)
        .expect("durability configuration succeeds");
}

fn assert_settings(connection: &Connection) {
    for (name, expected) in [
        ("foreign_keys", 1),
        ("trusted_schema", 0),
        ("ignore_check_constraints", 0),
        ("busy_timeout", 0),
        ("synchronous", 3),
    ] {
        let actual = integer_pragma(connection, name);
        assert_eq!(actual, expected, "unexpected {name}");
    }
    let journal_mode = text_pragma(connection, "journal_mode");
    assert_eq!(journal_mode.to_ascii_lowercase(), "delete");
}

fn read_objects(connection: &Connection) -> Vec<SchemaObject> {
    let mut statement = connection
        .prepare("SELECT type, name, tbl_name, sql FROM main.sqlite_schema ORDER BY type, name")
        .expect("schema query prepares");
    let rows = statement
        .query_map([], |row| {
            let kind: String = row.get(0)?;
            let name: String = row.get(1)?;
            let table: String = row.get(2)?;
            let sql: Option<String> = row.get(3)?;
            Ok(schema_object(&kind, &name, &table, sql.as_deref()))
        })
        .expect("schema rows are read");
    rows.map(|row| row.expect("schema row decodes")).collect()
}

fn validate_schema(connection: &Connection) -> bool {
    let found = read_objects(connection);
    let canonical = canonical_schema_objects();
    let same = same_objects(&found, &canonical);
    assert_eq!(verify_schema(&found, &canonical).is_ok(), same);
    same
}

#[test]
fn tests_session_and_durability_settings_are_verified() {
    let (_directory, connection) = open_temporary_database();

    configure(&connection);

    assert_settings(&connection);
}

#[test]
fn schema_session_and_durability_settings_are_verified() {
    let (_directory, connection) = open_temporary_database();
    let _: String = connection
        .query_row("PRAGMA journal_mode = WAL", [], |row| row.get(0))
        .expect("journal mode switches");
    assert!(verify_journal(&text_pragma(&connection, "journal_mode")).is_err());

    configure(&connection);

    assert_settings(&connection);
}

#[test]
fn settings_must_have_their_values() {
    assert_eq!(verify_setting(1, 1), Ok(()));
    assert_eq!(
        verify_setting(0, 1),
        Err(StoreError::Database("Query is not read-only".to_owned()))
    );
    for mode in ["delete", "DELETE", "DeLeTe"] {
        assert!(is_rollback_journal(mode), "refused {mode}");
        assert_eq!(verify_journal(mode), Ok(()));
    }
    for mode in ["", "wal", "delet", "deletes", "del\u{e9}te"] {
        assert!(!is_rollback_journal(mode), "accepted {mode}");
        assert_eq!(
            verify_journal(mode),
            Err(StoreError::Database("Query is not read-only".to_owned()))
        );
    }
}

#[test]
fn schema_creation_defines_the_closed_shape() {
    let (_directory, connection) = open_temporary_database();
    configure(&connection);
    connection.execute_batch(SCHEMA).unwrap();

    assert!(validate_schema(&connection));
    let names: Vec<String> = read_objects(&connection)
        .into_iter()
        .map(|object| object.name)
        .collect();
    assert_eq!(
        names,
        [
            "symbols_value_unique",
            "episode_vectors",
            "episodes",
            "feedback_edges",
            "memory_meta",
            "symbols",
        ]
    );
    assert_eq!(schema_definitions(SCHEMA).len(), 6);
}

#[test]
fn tests_validation_accepts_whitespace_only_variation() {
    let (_directory, connection) = open_temporary_database();
    connection
        .execute_batch(&SCHEMA.replace("CREATE TABLE", "CREATE  TABLE"))
        .unwrap();

    assert!(validate_schema(&connection));
}

#[test]
fn schema_validation_accepts_whitespace_only_variation() {
    let (_directory, connection) = open_temporary_database();
    connection
        .execute_batch(&SCHEMA.replace("\n    ", "\n\t \u{c} "))
        .unwrap();

    assert!(validate_schema(&connection));
}

#[test]
fn tests_validation_rejects_schema_drift() {
    let mutations = [
        SCHEMA.replacen("payload BLOB NOT NULL", "payload TEXT NOT NULL", 1),
        SCHEMA.replacen(
            "CHECK (history_bits BETWEEN 0 AND 65535)",
            "CHECK (history_bits BETWEEN 0 AND 65536)",
            1,
        ),
        SCHEMA.replacen(
            "PRIMARY KEY (from_sequence, to_sequence)",
            "PRIMARY KEY (to_sequence, from_sequence)",
            1,
        ),
        SCHEMA.replacen(
            "ON UPDATE RESTRICT ON DELETE RESTRICT",
            "ON UPDATE RESTRICT ON DELETE CASCADE",
            1,
        ),
    ];

    for schema in mutations {
        let (_directory, connection) = open_temporary_database();
        connection.execute_batch(&schema).unwrap();
        assert!(!validate_schema(&connection));
    }
}

#[test]
fn tests_validation_rejects_additional_persistent_objects() {
    for object in [
        "CREATE TABLE extra (value INTEGER) STRICT",
        "CREATE INDEX extra_index ON feedback_edges(history_bits)",
        "CREATE VIEW extra_view AS SELECT * FROM memory_meta",
        "CREATE TRIGGER extra_trigger AFTER UPDATE ON memory_meta BEGIN SELECT 1; END",
    ] {
        let (_directory, connection) = open_temporary_database();
        connection.execute_batch(SCHEMA).unwrap();
        connection.execute_batch(object).unwrap();
        assert!(!validate_schema(&connection), "accepted {object}");
    }
}

#[test]
fn tests_constraints_enforce_canonical_keys_and_edges() {
    let (_directory, connection) = open_temporary_database();
    configure(&connection);
    connection.execute_batch(SCHEMA).unwrap();
    let zero = [0_u8; 8];
    let one = [0_u8, 0, 0, 0, 0, 0, 0, 1];

    assert!(connection
        .execute(
            "INSERT INTO symbols (id, value) VALUES (?1, 'bad-id')",
            [[0_u8; 7].as_slice()],
        )
        .is_err());
    for value in [String::new(), "x".repeat(MAX_SYMBOL_BYTES + 1)] {
        assert!(connection
            .execute(
                "INSERT INTO symbols (id, value) VALUES (?1, ?2)",
                (zero.as_slice(), value),
            )
            .is_err());
    }
    connection
        .execute(
            "INSERT INTO symbols (id, value) VALUES (?1, 'value')",
            [zero.as_slice()],
        )
        .unwrap();
    assert!(connection
        .execute(
            "INSERT INTO symbols (id, value) VALUES (?1, 'value')",
            [one.as_slice()],
        )
        .is_err());

    let insert_episode = "INSERT INTO episodes (sequence, payload) VALUES (?1, ?2)";
    assert!(connection
        .execute(insert_episode, ([0_u8; 7].as_slice(), [1_u8].as_slice()))
        .is_err());
    assert!(connection
        .execute(insert_episode, (zero.as_slice(), [0_u8; 0].as_slice()))
        .is_err());
    connection
        .execute(insert_episode, (zero.as_slice(), [1_u8].as_slice()))
        .unwrap();
    connection
        .execute(insert_episode, (one.as_slice(), [1_u8].as_slice()))
        .unwrap();
    assert!(connection
        .execute("INSERT INTO feedback_edges VALUES (?1, ?1, 1, 1)", [zero.as_slice()])
        .is_err());
    connection
        .execute(
            "INSERT INTO feedback_edges VALUES (?1, ?2, 65535, 16)",
            (zero.as_slice(), one.as_slice()),
        )
        .unwrap();
    assert!(connection
        .execute(
            "INSERT INTO feedback_edges VALUES (?1, ?2, 1, 1)",
            (zero.as_slice(), [0xff_u8; 8].as_slice()),
        )
        .is_err());
    for (history_bits, sample_count) in [(2_i64, 1_i64), (0, 0), (0, 17)] {
        assert!(connection
            .execute(
                "UPDATE feedback_edges SET history_bits = ?1, sample_count = ?2",
                (history_bits, sample_count),
            )
            .is_err());
    }
    assert!(connection
        .execute(
            "INSERT INTO episode_vectors VALUES (?1, ?2)",
            (zero.as_slice(), [1_u8; 767].as_slice()),
        )
        .is_err());
    assert!(connection
        .execute(
            "INSERT INTO episode_vectors VALUES (?1, ?2)",
            ([0xff_u8; 8].as_slice(), [1_u8; 768].as_slice()),
        )
        .is_err());
    connection
        .execute(
            "INSERT INTO episode_vectors VALUES (?1, ?2)",
            (zero.as_slice(), [1_u8; 768].as_slice()),
        )
        .unwrap();
}

#[test]
fn definitions_keep_single_spaces() {
    assert_eq!(normalize_sql("  CREATE\n\tTABLE  a ( b )\u{3000}"), "CREATE TABLE a ( b )");
    assert_eq!(normalize_sql(" \n "), "");
}

#[test]
fn identity_is_read_before_anything_else() {
    assert_eq!(verify_application_id(APPLICATION_ID), Ok(()));
    assert_eq!(
        verify_application_id(7),
        Err(StoreError::InvalidStore(
            StoreIntegrityError::ApplicationMismatch { found: 7 }
        ))
    );
    assert_eq!(verify_format_version(&[Value::Integer(FORMAT_VERSION)]), Ok(()));
    for version in 1..FORMAT_VERSION {
        assert_eq!(
            verify_format_version(&[Value::Integer(version)]),
            Err(StoreError::InvalidStore(
                StoreIntegrityError::UnsupportedFormatVersion { found: version }
            ))
        );
    }
    assert_eq!(
        verify_format_version(&[]),
        Err(StoreError::InvalidStore(StoreIntegrityError::MissingMetadata))
    );
}

fn metadata() -> MetadataRow {
    let mut memory_id = vec![0_u8; 16];
    memory_id[15] = 7;
    MetadataRow {
        singleton: Value::Integer(1),
        format_version: Value::Integer(FORMAT_VERSION),
        memory_id: Value::Blob(memory_id),
        snapshot_revision: Value::Integer(3),
        semantic_profile_fingerprint: Value::Blob(PROFILE_FINGERPRINT.to_vec()),
    }
}

fn metadata_error(row: MetadataRow) -> StoreIntegrityError {
    match read_metadata(&[row]) {
        Err(StoreError::InvalidStore(error)) => error,
        other => panic!("unexpected metadata result {other:?}"),
    }
}

#[test]
fn metadata_is_one_row_of_the_current_format() {
    let (memory_id, revision) = read_metadata(&[metadata()]).expect("metadata is valid");
    assert_eq!(memory_id.get(), 7);
    assert_eq!(revision, 3);
    assert_eq!(
        read_metadata(&[]),
        Err(StoreError::InvalidStore(StoreIntegrityError::MissingMetadata))
    );
    assert_eq!(
        read_metadata(&[metadata(), metadata()]),
        Err(StoreError::InvalidStore(StoreIntegrityError::InvalidMetadata {
            detail: "multiple metadata rows"
        }))
    );
    let mut row = metadata();
    row.memory_id = Value::Blob(vec![0; 16]);
    assert_eq!(metadata_error(row), StoreIntegrityError::InvalidMemoryId);
    let mut row = metadata();
    row.snapshot_revision = Value::Integer(-1);
    assert_eq!(
        metadata_error(row),
        StoreIntegrityError::InvalidMetadata { detail: "negative snapshot revision" }
    );
    let mut row = metadata();
    row.semantic_profile_fingerprint = Value::Blob(vec![0; 32]);
    assert_eq!(
        metadata_error(row),
        StoreIntegrityError::InvalidMetadata {
            detail: "semantic profile fingerprint differs from SQLite format V8"
        }
    );
    let mut row = metadata();
    row.format_version = Value::Integer(5);
    assert_eq!(
        metadata_error(row),
        StoreIntegrityError::UnsupportedFormatVersion { found: 5 }
    );
    let mut row = metadata();
    row.singleton = Value::Text(b"1".to_vec());
    assert_eq!(
        metadata_error(row),
        StoreIntegrityError::InvalidEncoding { table: "memory_meta", column: "singleton" }
    );
}

#[test]
fn sqlite_diagnostics_become_integrity_errors() {
    assert_eq!(verify_quick_check(&[("symbols", "ok".to_owned())]), Ok(()));
    assert_eq!(
        verify_quick_check(&[
            ("symbols", "row missing".to_owned()),
            ("episodes", "ok".to_owned()),
            ("memory_meta", "wrong order".to_owned()),
        ]),
        Err(StoreError::InvalidStore(StoreIntegrityError::QuickCheckFailed {
            detail: "symbols: row missing; memory_meta: wrong order".to_owned()
        }))
    );
    assert_eq!(verify_integrity_check(&["ok".to_owned()]), Ok(()));
    assert_eq!(
        verify_integrity_check(&["row 1 missing".to_owned()]),
        Err(StoreError::InvalidStore(StoreIntegrityError::IntegrityCheckFailed {
            detail: "row 1 missing".to_owned()
        }))
    );
    assert_eq!(verify_foreign_keys(None), Ok(()));
    assert_eq!(
        verify_foreign_keys(Some(("feedback_edges", None, "episodes"))),
        Err(StoreError::InvalidStore(StoreIntegrityError::ForeignKeyCheckFailed {
            detail: "feedback_edges row without rowid references episodes".to_owned()
        }))
    );
    assert_eq!(
        verify_foreign_keys(Some(("extra", Some(-4), "episodes"))),
        Err(StoreError::InvalidStore(StoreIntegrityError::ForeignKeyCheckFailed {
            detail: "extra row -4 references episodes".to_owned()
        }))
    );
}

#[test]
fn vector_scan_uses_primary_key_order_without_a_temp_sort() {
    let (_directory, connection) = open_temporary_database();
    connection.execute_batch(SCHEMA).unwrap();
    let mut statement = connection
        .prepare(
            "EXPLAIN QUERY PLAN
             SELECT sequence, vector FROM episode_vectors ORDER BY sequence",
        )
        .unwrap();
    let plan: Vec<String> = statement
        .query_map([], |row| row.get::<_, String>(3))
        .unwrap()
        .map(|detail| detail.unwrap())
        .collect();
    assert!(
        plan.iter().all(|detail| !detail.contains("TEMP B-TREE")),
        "episode-vector scan unexpectedly uses a temporary sort: {plan:?}"
    );
}
