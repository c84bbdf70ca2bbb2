//! Transition tags.
use vstd::prelude::*;

verus! {

pub const RECEIVED: u8 = 0;

pub const AUTHENTICATED: u8 = 1;

pub const AUTH_FAILED: u8 = 2;

pub const AUTHORIZED: u8 = 3;

pub const REJECTED: u8 = 4;

pub const DENIED: u8 = 5;

pub const DELEGATION_REFUSED: u8 = 6;

pub const GRANTED: u8 = 7;

pub const PROVISIONED: u8 = 8;

pub const RUNNING: u8 = 9;

pub const COMPLETED: u8 = 10;

pub const TOOL_ERROR: u8 = 11;

pub const FAILED: u8 = 12;

pub const KILLED: u8 = 13;

pub const DESCRIBED: u8 = 14;

} // verus!
