//! Symbol normalization and the append-only catalog.

use std::collections::BTreeMap;

use nao_m_e::model::SymbolId;
use nao_m_e::sqlite::error::{StoreError, StoreIntegrityError};
use nao_m_e::sqlite::normalize::{
    normalize_batch, normalize_symbol, unicode_lowercase, NormalizedBatch, SymbolValueError,
    MAX_SYMBOL_BYTES,
};
use nao_m_e::sqlite::row::Value;
use nao_m_e::sqlite::symbol_values::read_symbol_value_rows;
use nao_m_e::sqlite::symbols::{
    chunk_end, validate_symbol_catalog, InternRequest, NextSymbolId, SymbolRow, SymbolState,
    MAX_SYMBOL_QUERY_BINDINGS,
};

fn row(id: u64, value: &str) -> SymbolRow {
    SymbolRow {
        id: Value::Blob(id.to_be_bytes().to_vec()),
        value: Value::Text(value.as_bytes().to_vec()),
    }
}

fn texts(values: &[&str]) -> Vec<String> {
    values.iter().map(|value| value.to_string()).collect()
}

fn answer(request: InternRequest, rows: &[SymbolRow]) -> Result<InternRequest, StoreError> {
    request.read_symbol_id_rows(0, rows)
}

fn numbers(ids: Vec<SymbolId>) -> Vec<u64> {
    ids.into_iter().map(SymbolId::get).collect()
}

#[test]
fn cursor_preserves_the_complete_u64_range_atomically() {
    assert_eq!(
        NextSymbolId::Next(7).allocate_range(3),
        Some((7, NextSymbolId::Next(10)))
    );
    assert_eq!(
        NextSymbolId::Next(u64::MAX).allocate_range(1),
        Some((u64::MAX, NextSymbolId::Exhausted))
    );
    assert_eq!(NextSymbolId::Next(u64::MAX).allocate_range(2), None);
    assert_eq!(NextSymbolId::Exhausted.allocate_range(1), None);
}

#[test]
fn normalized_batches_compact_raw_and_canonical_duplicates_in_input_order() {
    let repeated = "  ZETA\t".to_owned();
    let values = vec![
        repeated.clone(),
        repeated.clone(),
        "ＺＥＴＡ".to_owned(),
        "alpha".to_owned(),
        "ALPHA".to_owned(),
        "zeta".to_owned(),
        "Beta".to_owned(),
        repeated,
    ];

    assert_eq!(
        normalize_batch(&values).unwrap(),
        NormalizedBatch {
            unique_values: vec!["zeta".to_owned(), "alpha".to_owned(), "beta".to_owned()],
            positions: vec![0, 0, 0, 1, 1, 0, 2, 0],
        }
    );
}

#[test]
fn normalization_folds_width_case_and_whitespace() {
    for (value, expected) in [
        ("Build  Status", "build status"),
        ("\u{3000}ＮＡＯ－Ｍ\u{a0}", "nao-m"),
        ("ﬁle", "file"),
        ("STRASSE ẞ", "strasse ß"),
        ("İstanbul", "i\u{307}stanbul"),
        ("ΑΣ", "ασ"),
    ] {
        assert_eq!(normalize_symbol(value).as_deref(), Ok(expected));
    }
    assert_eq!(unicode_lowercase(&['A', 'İ', 'z']), ['a', 'i', '\u{307}', 'z']);
}

#[test]
fn normalization_is_idempotent() {
    for value in ["Build  Status", "ＺＥＴＡ", "İ", "a\u{301} B", "²"] {
        let once = normalize_symbol(value).unwrap();
        assert_eq!(normalize_symbol(&once).unwrap(), once);
    }
}

#[test]
fn invalid_symbols_are_refused_with_their_rule() {
    assert_eq!(normalize_symbol(" \t\n"), Err(SymbolValueError::Empty));
    assert_eq!(normalize_symbol("a\u{0}b"), Err(SymbolValueError::Control));
    assert_eq!(
        normalize_symbol(&"x".repeat(MAX_SYMBOL_BYTES)).map(|text| text.len()),
        Ok(MAX_SYMBOL_BYTES)
    );
    assert_eq!(
        normalize_symbol(&"x".repeat(MAX_SYMBOL_BYTES + 1)),
        Err(SymbolValueError::TooLong)
    );
    assert_eq!(
        normalize_batch(&texts(&["fine", " "])),
        Err(StoreError::InvalidSymbolValue {
            index: 1,
            detail: "normalized value is empty",
        })
    );
}

#[test]
fn the_catalog_is_a_contiguous_list_of_canonical_texts() {
    let state = validate_symbol_catalog(&[row(0, "alpha"), row(1, "beta")]).unwrap();
    assert!(state.contains_persisted(1));
    assert!(!state.contains_persisted(2));
    assert_eq!(
        validate_symbol_catalog(&[row(0, "alpha"), row(2, "beta")]).map(|_| ()),
        Err(StoreError::InvalidStore(StoreIntegrityError::NonContiguousSymbolId {
            expected: 1,
            found: 2,
        }))
    );
    assert!(validate_symbol_catalog(&[row(0, "Alpha")]).is_err());
    let broken = SymbolRow {
        id: Value::Blob(vec![0; 8]),
        value: Value::Text(vec![0xff]),
    };
    assert!(validate_symbol_catalog(&[broken]).is_err());
}

#[test]
fn interning_reuses_and_allocates_identifiers() {
    let mut state = validate_symbol_catalog(&[row(0, "alpha"), row(1, "beta")]).unwrap();
    let request = state
        .begin_interning(&texts(&["Beta", "gamma", "ALPHA", "Gamma"]))
        .unwrap();
    assert_eq!(request.unresolved_len(), 3);
    assert_eq!(request.query_values(0), ["beta", "gamma", "alpha"]);
    let request = answer(request, &[row(1, "beta"), row(0, "alpha")]).unwrap();
    let ids = state.intern_symbols(request, 4, 4).unwrap();
    assert_eq!(numbers(ids), [1, 2, 0, 2]);
    assert_eq!(state.pending_len(), 1);
    assert_eq!(state.staged_text(2), "gamma");
    assert_eq!(state.pending_symbols(), [(2, "gamma".to_owned())]);

    let again = state.begin_interning(&texts(&["gamma"])).unwrap();
    assert_eq!(again.unresolved_len(), 0);
    assert_eq!(numbers(state.intern_symbols(again, 4, 4).unwrap()), [2]);

    state.mark_saved();
    assert!(state.contains_persisted(2));
    assert_eq!(state.pending_len(), 0);
}

#[test]
fn interning_a_changed_store_stages_nothing() {
    let mut state = SymbolState::from_tail(None);
    let request = state.begin_interning(&texts(&["alpha"])).unwrap();
    let request = answer(request, &[row(5, "alpha")]).unwrap();
    assert_eq!(state.first_foreign(&request), Some(5));
    assert_eq!(
        state.intern_symbols(request, 1, 2),
        Err(StoreError::ConcurrentModification {
            expected_revision: 1,
            actual_revision: 2,
        })
    );
    let request = state.begin_interning(&texts(&["alpha"])).unwrap();
    let request = answer(request, &[row(5, "alpha")]).unwrap();
    assert_eq!(
        state.intern_symbols(request, 1, 1),
        Err(StoreError::InvalidStore(StoreIntegrityError::InvalidSymbol {
            id: 5,
            detail: "symbol row changed outside this store session",
        }))
    );
    assert_eq!(state.pending_len(), 0);

    let mut full = SymbolState::from_tail(Some(u64::MAX));
    let request = full.begin_interning(&texts(&["alpha"])).unwrap();
    let request = answer(request, &[]).unwrap();
    assert_eq!(full.intern_symbols(request, 1, 1), Err(StoreError::SymbolIdExhausted));
}

#[test]
fn queries_are_cut_into_bounded_chunks() {
    assert_eq!(chunk_end(2_000, 0), MAX_SYMBOL_QUERY_BINDINGS);
    assert_eq!(chunk_end(2_000, 1_800), 2_000);
    assert_eq!(chunk_end(0, 0), 0);
}

#[test]
fn symbol_values_come_from_staged_and_persisted_texts() {
    let mut state = validate_symbol_catalog(&[row(0, "alpha")]).unwrap();
    let request = state.begin_interning(&texts(&["beta"])).unwrap();
    let request = answer(request, &[]).unwrap();
    state.intern_symbols(request, 0, 0).unwrap();
    let ids = [SymbolId::new(1), SymbolId::new(0), SymbolId::new(9)];
    assert_eq!(state.requested_ids(&ids), [0]);
    let found = read_symbol_value_rows(BTreeMap::new(), &[row(0, "alpha")]).unwrap();
    assert_eq!(
        state.symbol_values(&ids, &found).unwrap(),
        [Some("beta".to_owned()), Some("alpha".to_owned()), None]
    );
}

#[test]
fn interned_values_are_read_back_before_and_after_a_save() {
    let mut state = validate_symbol_catalog(&[row(0, "alpha"), row(1, "beta")]).unwrap();
    let request = state
        .begin_interning(&texts(&["Beta", " Gamma  Ray", "ALPHA", "gamma ray", "beta"]))
        .unwrap();
    let request = answer(request, &[row(1, "beta"), row(0, "alpha")]).unwrap();
    let mut ids = state.intern_symbols(request, 4, 4).unwrap();
    assert_eq!(numbers(ids.clone()), [1, 2, 0, 2, 1]);
    ids.push(SymbolId::new(3));
    let mut expected: Vec<Option<String>> =
        texts(&["beta", "gamma ray", "alpha", "gamma ray", "beta"])
            .into_iter()
            .map(Some)
            .collect();
    expected.push(None);

    assert_eq!(state.requested_ids(&ids), [1, 0]);
    let found =
        read_symbol_value_rows(BTreeMap::new(), &[row(0, "alpha"), row(1, "beta")]).unwrap();
    assert_eq!(state.symbol_values(&ids, &found).unwrap(), expected);

    state.mark_saved();
    assert_eq!(state.requested_ids(&ids), [1, 2, 0]);
    let saved = read_symbol_value_rows(found, &[row(2, "gamma ray")]).unwrap();
    assert_eq!(state.symbol_values(&ids, &saved).unwrap(), expected);
    assert_eq!(
        state.symbol_values(&ids, &BTreeMap::new()),
        Err(StoreError::InvalidStore(StoreIntegrityError::InvalidSymbol {
            id: 1,
            detail: "symbol row is absent",
        }))
    );
}

#[test]
fn normalized_symbols_are_their_own_canonical_symbols() {
    for value in [
        "  Mixed\u{00A0}\u{2003}CASE ",
        "\u{0130}stanbul",
        "\u{FB01}ne \u{2126} \u{212B}",
        "\u{1E9E} \u{03A3}\u{0391}\u{03A3}",
        "A\u{030A} \u{00A8}x",
    ] {
        let symbol = normalize_symbol(value).unwrap();
        assert_eq!(normalize_symbol(&symbol), Ok(symbol.clone()));
    }
    for blank in ["", " ", "\t\u{00A0}\u{2028}\u{3000}"] {
        assert_eq!(normalize_symbol(blank), Err(SymbolValueError::Empty));
    }
}

#[test]
fn symbol_tables_follow_one_unicode_version() {
    assert_eq!(unicode_case_mapping::UNICODE_VERSION, (16, 0, 0));
    assert_eq!(unicode_normalization::UNICODE_VERSION, (16, 0, 0));
}
