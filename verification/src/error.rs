//! The errors of the library.

use vstd::prelude::*;
use crate::text;
use crate::text::{decimal, hex, join};

verus! {

/// What can go wrong.
#[derive(Debug, PartialEq, Eq)]
pub enum FlowError {
    /// A file system operation failed.
    Io(String),
    /// A table file or a log segment is corrupt.
    Corruption { file: String, msg: String },
    /// The engine is closed.
    Closed,
    /// The write buffer is full.
    WriteBufferFull,
    /// A configuration value is invalid.
    Config(String),
    /// There is no table file with the number.
    SstNotFound(u32),
    /// There is no block with the number.
    BlockNotFound { sst_id: u32, block_idx: u32 },
    /// A block header begins with the wrong number.
    InvalidMagic { expected: u32, actual: u32 },
    /// Text is not valid JSON, or a value cannot be written as JSON.
    Json(String),
    /// An error of the document layer.
    JsonDb(String),
    /// Any other error.
    Other(String),
}

impl FlowError {
    /// What the error says.
    pub open spec fn text(self) -> Seq<char> {
        match self {
            FlowError::Io(msg) => "IO error: "@ + msg@,
            FlowError::Corruption { file, msg } => "Corruption in "@ + file@ + ": "@ + msg@,
            FlowError::Closed => "Engine is closed"@,
            FlowError::WriteBufferFull => "Write buffer full"@,
            FlowError::Config(msg) => "Config error: "@ + msg@,
            FlowError::SstNotFound(id) => "SSTable not found: "@ + text::decimal_text(id as nat),
            FlowError::BlockNotFound { sst_id, block_idx } => "Block not found: sst="@
                + text::decimal_text(sst_id as nat) + ", block="@ + text::decimal_text(
                block_idx as nat,
            ),
            FlowError::InvalidMagic { expected, actual } => "Invalid magic: expected "@
                + text::hex_text(expected as nat) + ", got "@ + text::hex_text(actual as nat),
            FlowError::Json(msg) => "JSON error: "@ + msg@,
            FlowError::JsonDb(msg) => "JsonDB: "@ + msg@,
            FlowError::Other(msg) => msg@,
        }
    }

    /// What the error says.
    pub fn message(&self) -> (r: String)
        ensures
            r@ == self.text(),
    {
        match self {
            FlowError::Io(msg) => join("IO error: ", msg.as_str()),
            FlowError::Corruption { file, msg } => {
                let a = join("Corruption in ", file.as_str());
                let b = join(a.as_str(), ": ");
                join(b.as_str(), msg.as_str())
            },
            FlowError::Closed => "Engine is closed".to_owned(),
            FlowError::WriteBufferFull => "Write buffer full".to_owned(),
            FlowError::Config(msg) => join("Config error: ", msg.as_str()),
            FlowError::SstNotFound(id) => {
                let n = decimal(*id as u64);
                join("SSTable not found: ", n.as_str())
            },
            FlowError::BlockNotFound { sst_id, block_idx } => {
                let n = decimal(*sst_id as u64);
                let m = decimal(*block_idx as u64);
                let a = join("Block not found: sst=", n.as_str());
                let b = join(a.as_str(), ", block=");
                join(b.as_str(), m.as_str())
            },
            FlowError::InvalidMagic { expected, actual } => {
                let n = hex(*expected);
                let m = hex(*actual);
                let a = join("Invalid magic: expected ", n.as_str());
                let b = join(a.as_str(), ", got ");
                join(b.as_str(), m.as_str())
            },
            FlowError::Json(msg) => join("JSON error: ", msg.as_str()),
            FlowError::JsonDb(msg) => join("JsonDB: ", msg.as_str()),
            FlowError::Other(msg) => msg.clone(),
        }
    }
}

/// A result that can be a [`FlowError`].
pub type Result<T> = std::result::Result<T, FlowError>;

} // verus!
