//! The version of the persisted model.
use vstd::prelude::*;

verus! {

/// The schema version that this crate understands.
pub const SCHEMA_VERSION: u32 = 1;

#[derive(Debug, Clone, Copy, PartialEq, Eq, PartialOrd, Ord, Hash, Structural)]
pub struct SchemaVersion {
    pub value: u32,
}

impl SchemaVersion {
    pub fn new(value: u32) -> (version: SchemaVersion)
        ensures
            version.value == value,
    {
        SchemaVersion { value }
    }

    /// The version that this crate understands.
    pub fn current() -> (version: SchemaVersion)
        ensures
            version.value == SCHEMA_VERSION,
    {
        SchemaVersion { value: SCHEMA_VERSION }
    }

    pub fn value(self) -> (value: u32)
        ensures
            value == self.value,
    {
        self.value
    }

    /// Ensures this is the schema understood by this crate version.
    pub fn ensure_current(self) -> (outcome: Result<(), SchemaError>)
        ensures
            outcome == (if self.value == SCHEMA_VERSION {
                Ok::<(), SchemaError>(())
            } else {
                Err(
                    SchemaError::Unsupported {
                        expected: SchemaVersion { value: SCHEMA_VERSION },
                        actual: self,
                    },
                )
            }),
    {
        if self.value == SCHEMA_VERSION {
            Ok(())
        } else {
            Err(SchemaError::Unsupported { expected: SchemaVersion { value: SCHEMA_VERSION }, actual: self })
        }
    }
}

#[derive(Debug, Clone, Copy, PartialEq, Eq, Structural)]
pub enum SchemaError {
    Unsupported { expected: SchemaVersion, actual: SchemaVersion },
}

} // verus!
