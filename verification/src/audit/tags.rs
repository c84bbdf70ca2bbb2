//! Integer tags of the audit formats.
use vstd::prelude::*;

pub mod budget_usage;
pub mod header_key;
pub mod record_key;
pub mod transition;

verus! {

/// Maximum UTF-8 byte length of `reason`.
pub const REASON_MAX_BYTES: usize = 256;

/// Current record schema version.
pub const RECORD_VERSION: u8 = 1;

/// Current file header version.
pub const HEADER_VERSION: u8 = 1;

/// First-file `prev_hash`: 32 zero bytes.
pub const GENESIS_PREV_HASH: [u8; 32] = [
    0,
    0,
    0,
    0,
    0,
    0,
    0,
    0,
    0,
    0,
    0,
    0,
    0,
    0,
    0,
    0,
    0,
    0,
    0,
    0,
    0,
    0,
    0,
    0,
    0,
    0,
    0,
    0,
    0,
    0,
    0,
    0,
];

} // verus!
