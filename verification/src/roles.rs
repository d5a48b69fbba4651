//! Roles and the errors with which gated operations are rejected.

use vstd::prelude::*;

verus! {

/// The closed set of roles a caller can hold. `Admin` and `Developer` are the
/// privileged roles; the others carry no rights beyond being recorded.
#[derive(Clone, Copy, Debug, PartialEq, Eq, Structural)]
pub enum Role {
    Admin,
    Student,
    Professor,
    Guest,
    Developer,
}

/// Why a gated operation rejected its caller.
#[derive(Clone, Copy, Debug, PartialEq, Eq, Structural)]
pub enum AccessError {
    /// The caller was the anonymous sentinel where authentication is required.
    Authentication,
    /// The caller is authenticated but holds neither `Admin` nor `Developer`.
    Authorization,
}

/// Admin and Developer are the privileged roles; no other role passes the
/// access gate.
pub open spec fn is_privileged(r: Role) -> bool {
    r == Role::Admin || r == Role::Developer
}

} // verus!
