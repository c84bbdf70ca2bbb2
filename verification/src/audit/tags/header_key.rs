//! CBOR map keys of a file header.
use vstd::prelude::*;

verus! {

pub const VERSION: u8 = 0;

pub const FILE_ULID: u8 = 1;

pub const GATEWAY_ID: u8 = 2;

pub const PREV_HASH: u8 = 3;

} // verus!
