//! Hash-chained, group-committed audit log.
pub mod caps;
pub mod export;
pub mod fail_closed;
pub mod frame;
pub mod hash;
pub mod header;
pub mod hook;
pub mod json_out;
pub mod naming;
pub mod record;
pub mod retention;
pub mod tags;
pub mod verify;
pub mod witness;
pub mod witness_receive;
pub mod witness_sink;
pub mod witness_verify;
pub mod writer;
