//! CBOR map keys of a witness object.
use vstd::prelude::*;

verus! {

pub const VERSION: u8 = 0;

pub const GATEWAY_ID: u8 = 1;

pub const FILE_ULID: u8 = 2;

pub const SEQUENCE: u8 = 3;

pub const HEAD_HASH: u8 = 4;

pub const WALL_TIME_NS: u8 = 5;

} // verus!
