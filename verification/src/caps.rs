//! The single source of truth for authority.
pub mod budget;
pub mod capability;
pub mod error;
pub mod grants;
pub mod ids;
pub mod interner;
pub mod lattice;
pub mod laws;
pub mod sort;
pub mod ulid_str;
pub mod wire;

pub use budget::ResourceBudget;
pub use capability::CapabilitySet;
pub use error::CapsError;
pub use grants::{DirGrant, FileGrant, FileMode, HostGrant, Method, MethodMask};
pub use ids::{Identity, Interface, RequestId, ToolDigest};
pub use interner::{AuthorityId, Interner, PathId};
pub use wire::{CapabilitySetWire, DirGrantWire, FileGrantWire, HostGrantWire};
