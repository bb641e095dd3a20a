//! A document layer over the engine: JSON documents in object stores, with
//! secondary indexes.

use vstd::prelude::*;
use vstd::string::*;

pub mod derive;
pub mod encoding;
pub mod entries;
pub mod helpers;
pub mod json;
pub mod numbers;
pub mod schema;
pub mod written;

use encoding::copy_value;

pub use encoding::JsonValue;
pub use schema::{IndexDef as IndexSchema, StoreDef as StoreSchema};

verus! {

/// What can be given as a primary key.
pub trait KeyArg: Sized {
    /// Whether `value` is the JSON value of the key.
    spec fn is_value(self, value: JsonValue) -> bool;

    fn into_value(self) -> (r: JsonValue)
        ensures
            self.is_value(r),
    ;
}

impl KeyArg for &str {
    open spec fn is_value(self, value: JsonValue) -> bool {
        value matches JsonValue::Str(s) && s@ == self@
    }

    fn into_value(self) -> (r: JsonValue) {
        JsonValue::Str(self.to_owned())
    }
}

impl KeyArg for String {
    open spec fn is_value(self, value: JsonValue) -> bool {
        value == JsonValue::Str(self)
    }

    fn into_value(self) -> (r: JsonValue) {
        JsonValue::Str(self)
    }
}

impl KeyArg for i64 {
    open spec fn is_value(self, value: JsonValue) -> bool {
        value == JsonValue::Int(self)
    }

    fn into_value(self) -> (r: JsonValue) {
        JsonValue::Int(self)
    }
}

impl KeyArg for i32 {
    open spec fn is_value(self, value: JsonValue) -> bool {
        value == JsonValue::Int(self as i64)
    }

    fn into_value(self) -> (r: JsonValue) {
        JsonValue::Int(self as i64)
    }
}

impl KeyArg for u64 {
    open spec fn is_value(self, value: JsonValue) -> bool {
        value == JsonValue::UInt(self)
    }

    fn into_value(self) -> (r: JsonValue) {
        JsonValue::UInt(self)
    }
}

impl KeyArg for u32 {
    open spec fn is_value(self, value: JsonValue) -> bool {
        value == JsonValue::UInt(self as u64)
    }

    fn into_value(self) -> (r: JsonValue) {
        JsonValue::UInt(self as u64)
    }
}

impl KeyArg for JsonValue {
    open spec fn is_value(self, value: JsonValue) -> bool {
        value == self
    }

    fn into_value(self) -> (r: JsonValue) {
        self
    }
}

impl KeyArg for &JsonValue {
    open spec fn is_value(self, value: JsonValue) -> bool {
        encoding::same_value(*self, value)
    }

    fn into_value(self) -> (r: JsonValue) {
        copy_value(self)
    }
}

/// What describes the object store that its values are kept in.
pub trait ObjectStore {
    /// The definition of the store.
    fn store_def() -> StoreSchema;
}

/// What a transaction may do.
#[derive(Debug, Clone, Copy, PartialEq, Eq, Structural)]
pub enum TransactionMode {
    /// Queries only.
    ReadOnly,
    /// Queries, puts, deletes and index updates.
    ReadWrite,
}

} // verus!
