//! A minimal identity-and-role directory.
//!
//! Callers are identified by opaque, externally verified principals; the
//! directory tracks which role each principal holds, gates privileged
//! operations on the caller's role, and lets privileged callers reassign
//! roles.

pub mod directory;
pub mod identity;
pub mod laws;
pub mod roles;

pub use directory::RoleDirectory;
pub use directory::whoami;
pub use identity::CallerId;
pub use roles::AccessError;
pub use roles::Role;
