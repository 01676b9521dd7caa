//! The outer shape of JSON records.

use vstd::prelude::*;
use vstd::string::StringExecFns;

use crate::error::{corrupt, not_found, DevonResult, ErrorKind};
use crate::text::with_name;

verus! {

/// The keys of the object that bytes spell in JSON: nothing where they spell
/// no JSON, and no keys at all where they spell something else than an
/// object.
pub uninterp spec fn json_keys(payload: Seq<u8>) -> Option<Option<Seq<Seq<char>>>>;

/// What texts say.
pub open spec fn texts_of(texts: Seq<String>) -> Seq<Seq<char>> {
    texts.map_values(|text: String| text@)
}

/// `serde_json::from_slice` into `serde_json::Value`: the keys of the
/// top-level object, or what the crate says of bytes that are no JSON.
/// Claimed: the keys, and whether there are any, depend on the bytes alone;
/// nothing is claimed of what is said.
#[verifier::external_body]
fn object_keys(payload: &[u8]) -> (keys: Result<Option<Vec<String>>, String>)
    ensures
        match (keys, json_keys(payload@)) {
            (Err(_), None) => true,
            (Ok(None), Some(None)) => true,
            (Ok(Some(keys)), Some(Some(names))) => texts_of(keys@) == names,
            _ => false,
        },
{
    match serde_json::from_slice::<serde_json::Value>(payload) {
        Ok(serde_json::Value::Object(object)) => Ok(Some(object.keys().cloned().collect())),
        Ok(_) => Ok(None),
        Err(error) => Err(error.to_string()),
    }
}

/// What a record is, by the one key that says so.
#[derive(Debug, Clone, Copy, PartialEq, Eq, Structural)]
pub enum RecordKind {
    Commit,
    Ddl,
    NodeInsert,
    RelInsert,
    NodeUpdate,
    RelDelete,
    NodeDelete,
}

/// The key that says that a record is of a kind.
pub open spec fn kind_key(kind: RecordKind) -> Seq<char> {
    match kind {
        RecordKind::Commit => "commit"@,
        RecordKind::Ddl => "ddl"@,
        RecordKind::NodeInsert => "table"@,
        RecordKind::RelInsert => "rel"@,
        RecordKind::NodeUpdate => "update"@,
        RecordKind::RelDelete => "rel_delete"@,
        RecordKind::NodeDelete => "delete"@,
    }
}

/// Whether a record of these keys is of a kind: it has that kind's key and no
/// other kind's.
pub open spec fn is_kind(keys: Seq<Seq<char>>, kind: RecordKind) -> bool {
    forall|other: RecordKind| #[trigger] keys.contains(kind_key(other)) <==> other == kind
}

fn has_key(keys: &Vec<String>, key: &str) -> (there: bool)
    ensures
        there == texts_of(keys@).contains(key@),
{
    let ghost shown = texts_of(keys@);
    let wanted: String = key.to_owned();
    let mut i: usize = 0;
    while i < keys.len()
        invariant
            i <= keys@.len(),
            wanted@ == key@,
            shown == texts_of(keys@),
            forall|j: int| 0 <= j < i ==> #[trigger] shown[j] != key@,
        decreases keys@.len() - i,
    {
        if keys[i] == wanted {
            assert(shown[i as int] == key@);
            return true;
        }
        i += 1;
    }
    false
}

fn list_key(list: &mut String, there: bool, key: &str)
    ensures
        !there ==> final(list)@ == old(list)@,
        there && old(list)@.len() == 0 ==> final(list)@ == key@,
        there && old(list)@.len() > 0 ==> final(list)@ == old(list)@ + ", "@ + key@,
{
    if there {
        if list.as_str().unicode_len() > 0 {
            list.append(", ");
        }
        list.append(key);
    }
}

/// The kind that the keys of a record say it is, where they say one.
pub fn kind_of_keys(keys: &Vec<String>) -> (result: DevonResult<RecordKind>)
    ensures
        match result {
            Ok(kind) => is_kind(texts_of(keys@), kind),
            Err(error) => (forall|kind: RecordKind| !#[trigger] is_kind(texts_of(keys@), kind))
                && error.kind_of() == ErrorKind::Corrupt,
        },
{
    let commit: bool = has_key(keys, "commit");
    let ddl: bool = has_key(keys, "ddl");
    let table: bool = has_key(keys, "table");
    let rel: bool = has_key(keys, "rel");
    let update: bool = has_key(keys, "update");
    let rel_delete: bool = has_key(keys, "rel_delete");
    let delete: bool = has_key(keys, "delete");
    let ghost names = texts_of(keys@);
    proof {
        assert(names.contains(kind_key(RecordKind::Commit)) == commit);
        assert(names.contains(kind_key(RecordKind::Ddl)) == ddl);
        assert(names.contains(kind_key(RecordKind::NodeInsert)) == table);
        assert(names.contains(kind_key(RecordKind::RelInsert)) == rel);
        assert(names.contains(kind_key(RecordKind::NodeUpdate)) == update);
        assert(names.contains(kind_key(RecordKind::RelDelete)) == rel_delete);
        assert(names.contains(kind_key(RecordKind::NodeDelete)) == delete);
    }
    if commit && !ddl && !table && !rel && !update && !rel_delete && !delete {
        return Ok(RecordKind::Commit);
    }
    if !commit && ddl && !table && !rel && !update && !rel_delete && !delete {
        return Ok(RecordKind::Ddl);
    }
    if !commit && !ddl && table && !rel && !update && !rel_delete && !delete {
        return Ok(RecordKind::NodeInsert);
    }
    if !commit && !ddl && !table && rel && !update && !rel_delete && !delete {
        return Ok(RecordKind::RelInsert);
    }
    if !commit && !ddl && !table && !rel && update && !rel_delete && !delete {
        return Ok(RecordKind::NodeUpdate);
    }
    if !commit && !ddl && !table && !rel && !update && rel_delete && !delete {
        return Ok(RecordKind::RelDelete);
    }
    if !commit && !ddl && !table && !rel && !update && !rel_delete && delete {
        return Ok(RecordKind::NodeDelete);
    }
    let mut found: String = String::new();
    list_key(&mut found, commit, "\"commit\"");
    list_key(&mut found, ddl, "\"ddl\"");
    list_key(&mut found, table, "\"table\"");
    list_key(&mut found, rel, "\"rel\"");
    list_key(&mut found, update, "\"update\"");
    list_key(&mut found, rel_delete, "\"rel_delete\"");
    list_key(&mut found, delete, "\"delete\"");
    Err(
        corrupt(
            with_name(
                "WAL payload must contain exactly one discriminator key (commit, ddl, table, rel, update, rel_delete, delete); found [",
                found.as_str(),
                "]",
            ).as_str(),
        ),
    )
}

/// The kind of a record by its bytes.
pub fn record_kind(payload: &[u8]) -> (result: DevonResult<RecordKind>)
    ensures
        match (result, json_keys(payload@)) {
            (Ok(kind), Some(Some(keys))) => is_kind(keys, kind),
            (Err(error), Some(Some(keys))) => (forall|kind: RecordKind|
                !#[trigger] is_kind(keys, kind)) && error.kind_of() == ErrorKind::Corrupt,
            (Err(error), _) => error.kind_of() == ErrorKind::Corrupt,
            _ => false,
        },
{
    match object_keys(payload) {
        Ok(Some(keys)) => kind_of_keys(&keys),
        Ok(None) => Err(corrupt("WAL payload must be a JSON object")),
        Err(fault) => Err(
            corrupt(with_name("WAL payload is not valid JSON: ", fault.as_str(), "").as_str()),
        ),
    }
}

/// Whether a record with these keys inserts a relationship; a record without
/// the key `rel` is another table's.
pub fn relationship_keys(keys: &Result<Option<Vec<String>>, String>) -> (result: DevonResult<()>)
    ensures
        match (result, *keys) {
            (Ok(()), Ok(Some(keys))) => texts_of(keys@).contains("rel"@),
            (Err(error), Ok(Some(keys))) => !texts_of(keys@).contains("rel"@) && error.kind_of()
                == ErrorKind::NotFound,
            (Err(error), Ok(None)) => error.kind_of() == ErrorKind::NotFound,
            (Err(error), Err(fault)) => error.kind_of() == ErrorKind::Corrupt && error.text_of()
                == "WAL record is not valid JSON: "@ + fault@,
            _ => false,
        },
{
    match keys {
        Err(fault) => {
            let text: String = with_name("WAL record is not valid JSON: ", fault.as_str(), "");
            proof {
                reveal_strlit("");
                assert(text@ =~= "WAL record is not valid JSON: "@ + fault@);
            }
            Err(corrupt(text.as_str()))
        },
        Ok(None) => Err(not_found("relationship-insert WAL record")),
        Ok(Some(keys)) => {
            if has_key(keys, "rel") {
                Ok(())
            } else {
                Err(not_found("relationship-insert WAL record"))
            }
        },
    }
}

/// Whether a record's bytes insert a relationship.
pub fn is_relationship_record(payload: &[u8]) -> (result: DevonResult<()>)
    ensures
        match (result, json_keys(payload@)) {
            (Ok(()), Some(Some(keys))) => keys.contains("rel"@),
            (Err(error), Some(Some(keys))) => !keys.contains("rel"@) && error.kind_of()
                == ErrorKind::NotFound,
            (Err(error), Some(None)) => error.kind_of() == ErrorKind::NotFound,
            (Err(error), None) => error.kind_of() == ErrorKind::Corrupt,
            _ => false,
        },
{
    relationship_keys(&object_keys(payload))
}

} // verus!
