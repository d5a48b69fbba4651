//! The laws of the role-assignment state machine, stated over the spec model
//! that the operations' contracts speak of and proved once for every
//! directory state.

use vstd::prelude::*;

use crate::directory::first_login_role;
use crate::directory::gate_result;
use crate::directory::login_post;
use crate::directory::login_result;
use crate::directory::role_of;
use crate::directory::some_admin;
use crate::directory::spec_is_admin_or_developer;
use crate::identity::anonymous_bytes;
use crate::roles::AccessError;
use crate::roles::Role;

verus! {

/// A first login with any role other than `Admin` is granted exactly the
/// requested role, and a second login by the same caller — whatever role it
/// requests — returns that first role and leaves the directory unchanged.
pub proof fn lemma_first_login_then_stable(
    m: Map<Seq<u8>, Role>,
    u: Seq<u8>,
    first: Role,
    second: Role,
)
    requires
        !m.dom().contains(u),
        first != Role::Admin,
    ensures
        login_result(m, u, first) == first,
        login_result(login_post(m, u, first), u, second) == first,
        login_post(login_post(m, u, first), u, second) == login_post(m, u, first),
{
}

/// A first-time request for `Admin` is granted `Admin` while no entry holds
/// `Admin`, and is downgraded to `Guest` as soon as one does — in particular
/// for any new identity other than the holder, which, being recorded, is no
/// new identity.
pub proof fn lemma_admin_bootstrap(m: Map<Seq<u8>, Role>, u: Seq<u8>)
    requires
        !m.dom().contains(u),
    ensures
        !some_admin(m) ==> login_result(m, u, Role::Admin) == Role::Admin,
        some_admin(m) ==> login_result(m, u, Role::Admin) == Role::Guest,
{
}

/// A caller recorded as `Student`, `Professor` or `Guest`, like one not
/// recorded at all, does not pass the privilege gate: it is rejected as
/// unauthorized (as unauthenticated if anonymous), and `assign_role`'s
/// contract then leaves the directory unchanged.
pub proof fn lemma_unprivileged_callers_rejected(m: Map<Seq<u8>, Role>, caller: Seq<u8>)
    requires
        m.dom().contains(caller) ==> (m[caller] == Role::Student || m[caller] == Role::Professor
            || m[caller] == Role::Guest),
    ensures
        !spec_is_admin_or_developer(m, caller),
        gate_result(m, caller) is Err,
{
}

/// A caller holding `Admin` or `Developer` always passes the privilege gate,
/// and after it assigns `role` to `target` the target's own role reads back as
/// exactly `role`.
pub proof fn lemma_assign_then_my_role(
    m: Map<Seq<u8>, Role>,
    caller: Seq<u8>,
    target: Seq<u8>,
    role: Role,
)
    requires
        caller != anonymous_bytes(),
        spec_is_admin_or_developer(m, caller),
    ensures
        gate_result(m, caller) == Ok::<(), AccessError>(()),
        role_of(m.insert(target, role), target) == role,
{
}

/// An identity never recorded reads its role as `Guest`, and no lookup makes
/// an entry for it: the directory it is read from is the directory that
/// remains.
pub proof fn lemma_unknown_caller_guest(m: Map<Seq<u8>, Role>, u: Seq<u8>)
    requires
        !m.dom().contains(u),
    ensures
        role_of(m, u) == Role::Guest,
{
}

/// Login never touches a recorded entry other than the caller's own, and a
/// recorded caller's login touches nothing at all.
pub proof fn lemma_login_preserves_others(
    m: Map<Seq<u8>, Role>,
    me: Seq<u8>,
    requested: Role,
    other: Seq<u8>,
)
    requires
        m.dom().contains(other),
        other != me,
    ensures
        login_post(m, me, requested).dom().contains(other),
        login_post(m, me, requested)[other] == m[other],
{
}

} // verus!
