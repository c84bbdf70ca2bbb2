//! Authority, audit and operator logic for tool sandboxes.
pub mod audit;
pub mod bench;
pub mod caps;
pub mod cbor;
pub mod chars;
pub mod ctl;
pub mod json;
pub mod order;
pub mod path;
pub mod text;
pub mod texts;
