//! The rules of the JSON index cache: where a record lives and when it is valid.
use crate::diagnostic::FileDiagnostic;
use crate::digest;
use crate::ir::RepositoryModel;
use crate::schema::{SchemaError, SchemaVersion, SCHEMA_VERSION};
use crate::text;
use vstd::prelude::*;

verus! {

/// The version of the record that wraps a cached index.
pub const STORE_SCHEMA_VERSION: u32 = 1;

/// An index as it is cached.
#[derive(Debug, Clone, PartialEq, Eq)]
pub struct CachedIndex {
    pub fingerprint: String,
    pub model: RepositoryModel,
    pub parsed_files: u64,
    pub skipped_files: u64,
    pub diagnostics: Vec<FileDiagnostic>,
}

/// Why a cache operation failed. Paths and the reasons of I/O and JSON failures
/// are carried as text.
#[derive(Debug, Clone, PartialEq, Eq)]
pub enum IndexStoreError {
    Cancelled,
    UnsafeStoragePath { path: String },
    Io { path: String, reason: String },
    Json { path: String, reason: String },
    UnsupportedSchema { expected: u32, actual: u32 },
    CoreSchema(SchemaError),
}

impl IndexStoreError {
    /// What the error tells a reader.
    pub open spec fn message_text(self) -> Seq<char> {
        match self {
            IndexStoreError::Cancelled => "cache operation was cancelled"@,
            IndexStoreError::UnsafeStoragePath { path } => "unsafe cache storage path: "@ + path@,
            IndexStoreError::Io { path, reason } => "cache I/O error at "@ + path@ + ": "@
                + reason@,
            IndexStoreError::Json { path, reason } => "invalid cache JSON at "@ + path@ + ": "@
                + reason@,
            IndexStoreError::UnsupportedSchema { expected, actual } => "unsupported index store schema "@
                + text::decimal(actual as nat) + "; expected "@ + text::decimal(expected as nat),
            IndexStoreError::CoreSchema(error) => error.message_text(),
        }
    }

    pub fn to_string(&self) -> (message: String)
        ensures
            message@ == self.message_text(),
    {
        match self {
            IndexStoreError::Cancelled => "cache operation was cancelled".to_owned(),
            IndexStoreError::UnsafeStoragePath { path } => {
                let mut message = "unsafe cache storage path: ".to_owned();
                message.push_str(path.as_str());
                message
            },
            IndexStoreError::Io { path, reason } => {
                let mut message = "cache I/O error at ".to_owned();
                message.push_str(path.as_str());
                message.push_str(": ");
                message.push_str(reason.as_str());
                message
            },
            IndexStoreError::Json { path, reason } => {
                let mut message = "invalid cache JSON at ".to_owned();
                message.push_str(path.as_str());
                message.push_str(": ");
                message.push_str(reason.as_str());
                message
            },
            IndexStoreError::UnsupportedSchema { expected, actual } => {
                let mut message = "unsupported index store schema ".to_owned();
                text::push_decimal(&mut message, *actual as u64);
                message.push_str("; expected ");
                text::push_decimal(&mut message, *expected as u64);
                message
            },
            IndexStoreError::CoreSchema(error) => error.to_string(),
        }
    }
}

/// The bytes that the name of a record is taken of.
pub open spec fn entry_bytes(cache_key: Seq<char>) -> Seq<u8> {
    vstd::utf8::encode_utf8("codeatlas-json-index-store-v1"@) + digest::component(cache_key)
}

/// The name of the file of a record, given the digest of its key.
pub open spec fn entry_name_text(hash: Seq<u8>) -> Seq<char> {
    digest::hex_of_bytes(hash) + ".json"@
}

/// Builds the bytes that the name of a record is taken of.
pub fn entry_key_bytes(cache_key: &str) -> (bytes: Vec<u8>)
    ensures
        bytes@ == entry_bytes(cache_key@),
{
    let mut bytes: Vec<u8> = Vec::new();
    digest::push_bytes(&mut bytes, "codeatlas-json-index-store-v1".as_bytes());
    assert(bytes@ =~= vstd::utf8::encode_utf8("codeatlas-json-index-store-v1"@));
    digest::push_component(&mut bytes, cache_key);
    bytes
}

/// The name of the file of a record, given the digest of its key.
pub fn entry_name_of(hash: &[u8]) -> (name: String)
    ensures
        name@ == entry_name_text(hash@),
{
    let mut name = digest::hex_of(hash);
    name.push_str(".json");
    name
}

/// The name of the file of a record, inside the directory of the store.
pub fn entry_name(cache_key: &str) -> (name: String)
    ensures
        name@ == entry_name_text(digest::sha256_digest(entry_bytes(cache_key@))),
{
    let bytes = entry_key_bytes(cache_key);
    let hash = digest::sha256(bytes.as_slice());
    entry_name_of(hash.as_slice())
}

/// The name of a file that a record is written to before it takes its place.
pub fn temporary_name(process: u32, sequence: u64) -> (name: String)
    ensures
        name@ == ".codeatlas-"@ + text::decimal(process as nat) + "-"@ + text::decimal(
            sequence as nat,
        ) + ".tmp"@,
{
    let mut name = ".codeatlas-".to_owned();
    text::push_decimal(&mut name, process as u64);
    name.push_str("-");
    text::push_decimal(&mut name, sequence);
    name.push_str(".tmp");
    name
}

/// What is found at a path without following symbolic links.
#[derive(Debug, Clone, PartialEq, Eq)]
pub enum PathState {
    Missing,
    SymbolicLink,
    Directory,
    File,
    Special,
    Failed(String),
}

/// What a path may be.
#[derive(Debug, Clone, Copy, PartialEq, Eq, Structural)]
pub enum StorageRole {
    Directory,
    Record,
}

/// Whether a path can serve as a part of the store: it is what it should be
/// itself, not a symbolic link to it, or it is missing where that is allowed.
pub open spec fn storage_outcome(
    role: StorageRole,
    allow_missing: bool,
    state: PathState,
    path: String,
    missing_reason: String,
) -> Result<(), IndexStoreError> {
    match state {
        PathState::Missing => if allow_missing {
            Ok(())
        } else {
            Err(IndexStoreError::Io { path, reason: missing_reason })
        },
        PathState::Failed(reason) => Err(IndexStoreError::Io { path, reason }),
        PathState::Directory => if role == StorageRole::Directory {
            Ok(())
        } else {
            Err(IndexStoreError::UnsafeStoragePath { path })
        },
        PathState::File => if role == StorageRole::Record {
            Ok(())
        } else {
            Err(IndexStoreError::UnsafeStoragePath { path })
        },
        PathState::SymbolicLink | PathState::Special => Err(
            IndexStoreError::UnsafeStoragePath { path },
        ),
    }
}

/// Checks that a path can serve as a part of the store.
pub fn check_storage(
    role: StorageRole,
    allow_missing: bool,
    state: PathState,
    path: String,
    missing_reason: String,
) -> (outcome: Result<(), IndexStoreError>)
    ensures
        outcome == storage_outcome(role, allow_missing, state, path, missing_reason),
{
    match state {
        PathState::Missing => if allow_missing {
            Ok(())
        } else {
            Err(IndexStoreError::Io { path, reason: missing_reason })
        },
        PathState::Failed(reason) => Err(IndexStoreError::Io { path, reason }),
        PathState::Directory => if role == StorageRole::Directory {
            Ok(())
        } else {
            Err(IndexStoreError::UnsafeStoragePath { path })
        },
        PathState::File => if role == StorageRole::Record {
            Ok(())
        } else {
            Err(IndexStoreError::UnsafeStoragePath { path })
        },
        PathState::SymbolicLink | PathState::Special => Err(
            IndexStoreError::UnsafeStoragePath { path },
        ),
    }
}

/// What is made of a record that was read: its own version and the version of its
/// model must be current.
pub open spec fn record_outcome(schema_version: u32, index: CachedIndex) -> Result<
    CachedIndex,
    IndexStoreError,
> {
    if schema_version != STORE_SCHEMA_VERSION {
        Err(
            IndexStoreError::UnsupportedSchema {
                expected: STORE_SCHEMA_VERSION,
                actual: schema_version,
            },
        )
    } else if index.model.schema_version.value != SCHEMA_VERSION {
        Err(
            IndexStoreError::CoreSchema(
                SchemaError::Unsupported {
                    expected: SchemaVersion { value: SCHEMA_VERSION },
                    actual: index.model.schema_version,
                },
            ),
        )
    } else {
        Ok(index)
    }
}

/// Accepts a record that was read, if its versions are current.
pub fn accept_record(schema_version: u32, index: CachedIndex) -> (accepted: Result<
    CachedIndex,
    IndexStoreError,
>)
    ensures
        accepted == record_outcome(schema_version, index),
{
    if schema_version != STORE_SCHEMA_VERSION {
        return Err(
            IndexStoreError::UnsupportedSchema {
                expected: STORE_SCHEMA_VERSION,
                actual: schema_version,
            },
        );
    }
    match index.model.validate_schema() {
        Ok(()) => Ok(index),
        Err(error) => Err(IndexStoreError::CoreSchema(error)),
    }
}

/// Whether an index may be written: the version of its model must be current.
pub open spec fn write_outcome(index: CachedIndex) -> Result<(), IndexStoreError> {
    if index.model.schema_version.value == SCHEMA_VERSION {
        Ok(())
    } else {
        Err(
            IndexStoreError::CoreSchema(
                SchemaError::Unsupported {
                    expected: SchemaVersion { value: SCHEMA_VERSION },
                    actual: index.model.schema_version,
                },
            ),
        )
    }
}

/// Checks an index before it is written.
pub fn check_writable(index: &CachedIndex) -> (outcome: Result<(), IndexStoreError>)
    ensures
        outcome == write_outcome(*index),
{
    match index.model.validate_schema() {
        Ok(()) => Ok(()),
        Err(error) => Err(IndexStoreError::CoreSchema(error)),
    }
}

/// What may be written is accepted when it is read back under the version of the
/// store, unchanged; and what may not be written would be refused for the same reason.
pub proof fn law_written_record_is_accepted(
    index: CachedIndex,
    written: Result<(), IndexStoreError>,
    accepted: Result<CachedIndex, IndexStoreError>,
)
    requires
        written == write_outcome(index),
        accepted == record_outcome(STORE_SCHEMA_VERSION, index),
    ensures
        match written {
            Ok(()) => accepted == Ok::<CachedIndex, IndexStoreError>(index),
            Err(error) => accepted == Err::<CachedIndex, IndexStoreError>(error),
        },
{
}

/// A path serves as a part of the store if and only if it is a directory where one is
/// needed, a file where a record is, or missing where that is allowed: never what a
/// symbolic link leads to. A path that could not be looked at is told apart from one
/// that is something else.
pub proof fn law_only_plain_paths_serve(
    role: StorageRole,
    allow_missing: bool,
    state: PathState,
    path: String,
    missing_reason: String,
)
    ensures
        ({
            let outcome = storage_outcome(role, allow_missing, state, path, missing_reason);
            &&& outcome is Ok <==> {
                ||| state is Directory && role == StorageRole::Directory
                ||| state is File && role == StorageRole::Record
                ||| state is Missing && allow_missing
            }
            &&& outcome matches Err(error) ==> {
                ||| error == (IndexStoreError::UnsafeStoragePath { path }) && !(state is Missing)
                    && !(state is Failed)
                ||| state is Missing && error == (IndexStoreError::Io {
                    path,
                    reason: missing_reason,
                })
                ||| exists|reason: String|
                    state == PathState::Failed(reason) && error == (IndexStoreError::Io {
                        path,
                        reason,
                    })
            }
        }),
{
    match state {
        PathState::Failed(reason) => {
            assert(state == PathState::Failed(reason));
        },
        _ => {},
    }
}

} // verus!
