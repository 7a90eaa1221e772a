//! Settings of a store connection.

use vstd::prelude::*;
use vstd::string::*;

use crate::sqlite::error::StoreError;
use crate::text::list_chars;

verus! {

/// Value of `synchronous` at which a commit survives a power failure.
pub const SYNCHRONOUS_EXTRA: i64 = 3;

/// Diagnostic of a setting that SQLite did not take over.
pub const REFUSED_SETTING: &'static str = "Query is not read-only";

/// The settings of a session, with the values that they must have.
pub open spec fn session_values() -> Seq<(Seq<char>, i64)> {
    seq![
        ("foreign_keys"@, 1i64),
        ("trusted_schema"@, 0i64),
        ("ignore_check_constraints"@, 0i64),
        ("busy_timeout"@, 0i64),
    ]
}

/// Settings by their names.
pub open spec fn named_values(settings: Seq<(&'static str, i64)>) -> Seq<(Seq<char>, i64)> {
    settings.map_values(|setting: (&'static str, i64)| (setting.0@, setting.1))
}

/// Lists the settings of a session, with the values that they must have:
/// foreign keys are enforced, the schema is not trusted, checks are not
/// ignored, and a locked database is not waited for.
pub fn session_settings() -> (settings: Vec<(&'static str, i64)>)
    ensures
        named_values(settings@) == session_values(),
{
    let mut settings: Vec<(&'static str, i64)> = Vec::new();
    settings.push(("foreign_keys", 1));
    settings.push(("trusted_schema", 0));
    settings.push(("ignore_check_constraints", 0));
    settings.push(("busy_timeout", 0));
    assert(named_values(settings@) =~= session_values());
    settings
}

/// Requires that a setting has the value that it must have.
pub fn verify_setting(actual: i64, expected: i64) -> (result: Result<(), StoreError>)
    ensures
        result is Ok <==> actual == expected,
        result matches Err(error) ==> error matches StoreError::Database(detail) && detail@
            == REFUSED_SETTING@,
{
    if actual == expected {
        Ok(())
    } else {
        Err(StoreError::Database(REFUSED_SETTING.to_owned()))
    }
}

/// The code of a character, that of the small letter for a capital one of ASCII.
pub open spec fn small_code(character: char) -> int {
    let code = character as int;
    if 65 <= code <= 90 {
        code + 32
    } else {
        code
    }
}

/// The texts agree when capital letters of ASCII are read as small ones.
pub open spec fn same_without_case(first: Seq<char>, second: Seq<char>) -> bool {
    &&& first.len() == second.len()
    &&& forall|i: int| 0 <= i < first.len() ==> small_code(#[trigger] first[i]) == small_code(second[i])
}

fn small(character: char) -> (code: u32)
    ensures
        code == small_code(character),
{
    let code: u32 = character as u32;
    if 65 <= code && code <= 90 {
        code + 32
    } else {
        code
    }
}

fn equals_without_case(first: &str, second: &str) -> (same: bool)
    ensures
        same == same_without_case(first@, second@),
{
    let left = list_chars(first);
    let right = list_chars(second);
    if left.len() != right.len() {
        return false;
    }
    let mut index: usize = 0;
    while index < left.len()
        invariant
            left@ == first@,
            right@ == second@,
            left@.len() == right@.len(),
            index <= left@.len(),
            forall|i: int| 0 <= i < index ==> small_code(#[trigger] left@[i]) == small_code(right@[i]),
        decreases left.len() - index,
    {
        if small(left[index]) != small(right[index]) {
            return false;
        }
        index += 1;
    }
    true
}

/// Whether a journal mode is the rollback journal that a store needs; where it
/// is not, a new store switches to it and an existing one is refused.
pub fn is_rollback_journal(mode: &str) -> (result: bool)
    ensures
        result == same_without_case(mode@, "delete"@),
{
    equals_without_case(mode, "delete")
}

/// Requires the rollback journal.
pub fn verify_journal(mode: &str) -> (result: Result<(), StoreError>)
    ensures
        result is Ok <==> same_without_case(mode@, "delete"@),
        result matches Err(error) ==> error matches StoreError::Database(detail) && detail@
            == REFUSED_SETTING@,
{
    if is_rollback_journal(mode) {
        Ok(())
    } else {
        Err(StoreError::Database(REFUSED_SETTING.to_owned()))
    }
}

} // verus!
