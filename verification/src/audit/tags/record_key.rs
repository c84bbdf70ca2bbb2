//! CBOR map keys of an audit record.
use vstd::prelude::*;

verus! {

pub const VERSION: u8 = 0;

pub const REQUEST_ID: u8 = 1;

pub const PARENT: u8 = 2;

pub const IDENTITY: u8 = 3;

pub const DIGEST: u8 = 4;

pub const TRANSITION: u8 = 5;

pub const REASON: u8 = 6;

pub const CAPS_HASH: u8 = 7;

pub const BUDGET: u8 = 8;

pub const USAGE: u8 = 9;

pub const WALL_TIME_NS: u8 = 10;

pub const SEQUENCE: u8 = 11;

} // verus!
