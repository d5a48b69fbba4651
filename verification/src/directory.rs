//! The role directory: the single in-memory mapping from caller identity to
//! role, the deployer record, and the access gate over them.

use vstd::prelude::*;

use crate::identity::CallerId;
use crate::identity::anonymous_bytes;
use crate::roles::AccessError;
use crate::roles::Role;
use crate::roles::is_privileged;

verus! {

/// The mapping an entry list stands for: identity bytes to role, later
/// entries winning. Well-formed directories never hold an identity twice, so
/// the order never matters there.
pub open spec fn map_of(s: Seq<(CallerId, Role)>) -> Map<Seq<u8>, Role>
    decreases s.len(),
{
    if s.len() == 0 {
        Map::empty()
    } else {
        map_of(s.drop_last()).insert(s.last().0@, s.last().1)
    }
}

/// Each identity appears in at most one entry.
pub open spec fn unique_keys(s: Seq<(CallerId, Role)>) -> bool {
    forall|i: int, j: int| 0 <= i < j < s.len() ==> s[i].0@ != s[j].0@
}

/// An identity is in the mapping exactly when some entry carries it.
proof fn lemma_map_of_contains(s: Seq<(CallerId, Role)>, k: Seq<u8>)
    ensures
        map_of(s).dom().contains(k) <==> exists|i: int| 0 <= i < s.len() && s[i].0@ == k,
    decreases s.len(),
{
    if s.len() == 0 {
    } else {
        lemma_map_of_contains(s.drop_last(), k);
        if s.last().0@ == k {
            assert(s[s.len() - 1].0@ == k);
        } else {
            if map_of(s).dom().contains(k) {
                let i = choose|i: int|
                    0 <= i < s.drop_last().len() && s.drop_last()[i].0@ == k;
                assert(s[i].0@ == k);
            }
            if exists|i: int| 0 <= i < s.len() && s[i].0@ == k {
                let i = choose|i: int| 0 <= i < s.len() && s[i].0@ == k;
                assert(s.drop_last()[i].0@ == k);
            }
        }
    }
}

proof fn lemma_unique_drop_last(s: Seq<(CallerId, Role)>)
    requires
        unique_keys(s),
        s.len() > 0,
    ensures
        unique_keys(s.drop_last()),
{
    assert forall|i: int, j: int|
        0 <= i < j < s.drop_last().len() implies s.drop_last()[i].0@ != s.drop_last()[j].0@ by {
        assert(s[i].0@ != s[j].0@);
    }
}

/// With unique keys, each entry's role is the mapping's value at its identity.
proof fn lemma_map_of_entry(s: Seq<(CallerId, Role)>, i: int)
    requires
        unique_keys(s),
        0 <= i < s.len(),
    ensures
        map_of(s).dom().contains(s[i].0@),
        map_of(s)[s[i].0@] == s[i].1,
    decreases s.len(),
{
    if i == s.len() - 1 {
    } else {
        lemma_unique_drop_last(s);
        lemma_map_of_entry(s.drop_last(), i);
        assert(s.drop_last()[i] == s[i]);
        assert(s[i].0@ != s[s.len() - 1].0@);
    }
}

/// Appending an entry inserts its pair into the mapping.
proof fn lemma_map_of_push(s: Seq<(CallerId, Role)>, p: (CallerId, Role))
    ensures
        map_of(s.push(p)) == map_of(s).insert(p.0@, p.1),
{
    assert(s.push(p).drop_last() =~= s);
    assert(s.push(p).last() == p);
}

/// Overwriting the entry that carries an identity inserts the new pair into
/// the mapping.
proof fn lemma_map_of_update(s: Seq<(CallerId, Role)>, i: int, p: (CallerId, Role))
    requires
        unique_keys(s),
        0 <= i < s.len(),
        s[i].0@ == p.0@,
    ensures
        map_of(s.update(i, p)) == map_of(s).insert(p.0@, p.1),
    decreases s.len(),
{
    let t = s.update(i, p);
    if i == s.len() - 1 {
        assert(t.drop_last() =~= s.drop_last());
        assert(t.last() == p);
        assert(map_of(t) =~= map_of(s).insert(p.0@, p.1));
    } else {
        lemma_unique_drop_last(s);
        assert(t.drop_last() =~= s.drop_last().update(i, p));
        lemma_map_of_update(s.drop_last(), i, p);
        assert(t.last() == s.last());
        assert(s[i].0@ != s[s.len() - 1].0@);
        assert(map_of(t) =~= map_of(s).insert(p.0@, p.1));
    }
}

/// True when some recorded entry holds `Admin`.
pub open spec fn some_admin(m: Map<Seq<u8>, Role>) -> bool {
    exists|k: Seq<u8>| m.dom().contains(k) && m[k] == Role::Admin
}

/// The role a first-time login is granted: `Admin` is granted only while no
/// entry holds `Admin` (the bootstrap fallback) and is downgraded to `Guest`
/// once one does; every other requested role is granted as it is.
pub open spec fn first_login_role(m: Map<Seq<u8>, Role>, requested: Role) -> Role {
    if requested == Role::Admin {
        if some_admin(m) {
            Role::Guest
        } else {
            Role::Admin
        }
    } else {
        requested
    }
}

/// The role an authenticated login returns: the existing role unchanged for a
/// caller already recorded, the first-login role otherwise.
pub open spec fn login_result(m: Map<Seq<u8>, Role>, me: Seq<u8>, requested: Role) -> Role {
    if m.dom().contains(me) {
        m[me]
    } else {
        first_login_role(m, requested)
    }
}

/// The directory after an authenticated login: unchanged for a caller already
/// recorded, extended by the first-login role otherwise.
pub open spec fn login_post(m: Map<Seq<u8>, Role>, me: Seq<u8>, requested: Role) -> Map<
    Seq<u8>,
    Role,
> {
    if m.dom().contains(me) {
        m
    } else {
        m.insert(me, first_login_role(m, requested))
    }
}

/// True when the directory records `id` with role `Admin`.
pub open spec fn spec_is_admin(m: Map<Seq<u8>, Role>, id: Seq<u8>) -> bool {
    m.dom().contains(id) && m[id] == Role::Admin
}

/// True when the directory records `id` with a privileged role.
pub open spec fn spec_is_admin_or_developer(m: Map<Seq<u8>, Role>, id: Seq<u8>) -> bool {
    m.dom().contains(id) && is_privileged(m[id])
}

/// The role a caller reads for itself: its entry, or `Guest` when it has none.
pub open spec fn role_of(m: Map<Seq<u8>, Role>, id: Seq<u8>) -> Role {
    if m.dom().contains(id) {
        m[id]
    } else {
        Role::Guest
    }
}

/// What the access gate answers a caller asking for a privileged operation:
/// anonymous callers are rejected as unauthenticated, callers without a
/// privileged role as unauthorized, the rest pass.
pub open spec fn gate_result(m: Map<Seq<u8>, Role>, caller: Seq<u8>) -> Result<(), AccessError> {
    if caller == anonymous_bytes() {
        Err(AccessError::Authentication)
    } else if !spec_is_admin_or_developer(m, caller) {
        Err(AccessError::Authorization)
    } else {
        Ok(())
    }
}

/// As `gate_result`, for operations open to `Admin` alone.
pub open spec fn admin_gate_result(m: Map<Seq<u8>, Role>, caller: Seq<u8>) -> Result<
    (),
    AccessError,
> {
    if caller == anonymous_bytes() {
        Err(AccessError::Authentication)
    } else if !spec_is_admin(m, caller) {
        Err(AccessError::Authorization)
    } else {
        Ok(())
    }
}

/// `s` enumerates the mapping `m` exactly: every entry is in `m`, every pair
/// of `m` appears, and no identity appears twice. The order is left open.
pub open spec fn entries_match(s: Seq<(CallerId, Role)>, m: Map<Seq<u8>, Role>) -> bool {
    &&& unique_keys(s)
    &&& forall|i: int| 0 <= i < s.len() ==> m.dom().contains(#[trigger] s[i].0@) && m[s[i].0@]
        == s[i].1
    &&& forall|k: Seq<u8>| #[trigger] m.dom().contains(k) ==> exists|i: int|
        0 <= i < s.len() && s[i].0@ == k
}

/// `s` enumerates the identities of the mapping `m` exactly, each once, in an
/// order left open.
pub open spec fn identities_match(s: Seq<CallerId>, m: Map<Seq<u8>, Role>) -> bool {
    &&& forall|i: int, j: int| 0 <= i < j < s.len() ==> s[i]@ != s[j]@
    &&& forall|i: int| 0 <= i < s.len() ==> m.dom().contains(#[trigger] s[i]@)
    &&& forall|k: Seq<u8>| #[trigger] m.dom().contains(k) ==> exists|i: int|
        0 <= i < s.len() && s[i]@ == k
}

/// The role directory. One instance exists for the life of the process; every
/// operation works on it under exclusive access. Its view is the mapping from
/// identity bytes to role; the deployer record is read through
/// [`RoleDirectory::spec_deployer`].
pub struct RoleDirectory {
    entries: Vec<(CallerId, Role)>,
    deployer: Option<CallerId>,
}

impl View for RoleDirectory {
    type V = Map<Seq<u8>, Role>;

    closed spec fn view(&self) -> Map<Seq<u8>, Role> {
        map_of(self.entries@)
    }
}

impl RoleDirectory {
    /// Well-formedness: no identity is recorded twice.
    pub closed spec fn wf(&self) -> bool {
        unique_keys(self.entries@)
    }

    /// The deployer record: the identity that initialized the system, if
    /// initialization ran.
    pub closed spec fn spec_deployer(&self) -> Option<Seq<u8>> {
        match self.deployer {
            Some(d) => Some(d@),
            None => None,
        }
    }

    /// The empty directory the process starts with: no entries, no deployer.
    pub fn new() -> (r: RoleDirectory)
        ensures
            r.wf(),
            r@ == Map::<Seq<u8>, Role>::empty(),
            r.spec_deployer() is None,
    {
        RoleDirectory { entries: Vec::new(), deployer: None }
    }

    /// The position of the entry carrying `id`, if one does.
    fn find_index(&self, id: &CallerId) -> (r: Option<usize>)
        requires
            self.wf(),
        ensures
            match r {
                Some(i) => {
                    &&& i < self.entries@.len()
                    &&& self.entries@[i as int].0@ == id@
                    &&& self@.dom().contains(id@)
                    &&& self@[id@] == self.entries@[i as int].1
                },
                None => !self@.dom().contains(id@),
            },
    {
        let n = self.entries.len();
        let mut i: usize = 0;
        while i < n
            invariant
                i <= n,
                n == self.entries@.len(),
                self.wf(),
                forall|j: int| 0 <= j < i ==> self.entries@[j].0@ != id@,
            decreases n - i,
        {
            if self.entries[i].0.equals(id) {
                proof {
                    lemma_map_of_entry(self.entries@, i as int);
                }
                return Some(i);
            }
            i = i + 1;
        }
        proof {
            lemma_map_of_contains(self.entries@, id@);
        }
        None
    }

    /// True when some entry holds `Admin`.
    fn any_admin(&self) -> (b: bool)
        requires
            self.wf(),
        ensures
            b == some_admin(self@),
    {
        let n = self.entries.len();
        let mut i: usize = 0;
        while i < n
            invariant
                i <= n,
                n == self.entries@.len(),
                self.wf(),
                forall|j: int| 0 <= j < i ==> self.entries@[j].1 != Role::Admin,
            decreases n - i,
        {
            if self.entries[i].1 == Role::Admin {
                proof {
                    lemma_map_of_entry(self.entries@, i as int);
                }
                return true;
            }
            i = i + 1;
        }
        proof {
            if some_admin(self@) {
                let k = choose|k: Seq<u8>| self@.dom().contains(k) && self@[k] == Role::Admin;
                lemma_map_of_contains(self.entries@, k);
                let j = choose|j: int| 0 <= j < self.entries@.len() && self.entries@[j].0@ == k;
                lemma_map_of_entry(self.entries@, j);
                assert(false);
            }
        }
        false
    }

    /// Initialization: records the invoking identity as the deployer and gives
    /// it the `Developer` role. The hosting environment invokes this exactly
    /// once, on the fresh directory, before any other operation is reachable;
    /// it is never callable by an external caller.
    pub fn init(&mut self, deployer: CallerId)
        requires
            old(self).wf(),
            old(self)@ == Map::<Seq<u8>, Role>::empty(),
            old(self).spec_deployer() is None,
        ensures
            final(self).wf(),
            final(self)@ == old(self)@.insert(deployer@, Role::Developer),
            final(self).spec_deployer() == Some(deployer@),
    {
        proof {
            lemma_map_of_contains(self.entries@, deployer@);
            assert forall|j: int|
                0 <= j < self.entries@.len() implies self.entries@[j].0@ != deployer@ by {
                lemma_map_of_entry(self.entries@, j);
            }
            lemma_map_of_push(self.entries@, (deployer, Role::Developer));
        }
        let record = deployer.clone();
        self.entries.push((deployer, Role::Developer));
        self.deployer = Some(record);
    }

    /// Login-and-self-assign. An anonymous caller is rejected as
    /// unauthenticated. A caller already recorded gets its existing role back,
    /// the requested role ignored and the directory untouched. A first-time
    /// caller is granted `first_login_role` of its request and recorded with
    /// it. The deployer record is never touched.
    pub fn login_as_role(&mut self, me: &CallerId, requested: Role) -> (r: Result<
        Role,
        AccessError,
    >)
        requires
            old(self).wf(),
        ensures
            final(self).wf(),
            final(self).spec_deployer() == old(self).spec_deployer(),
            me@ == anonymous_bytes() ==> {
                &&& r == Err::<Role, AccessError>(AccessError::Authentication)
                &&& final(self)@ == old(self)@
            },
            me@ != anonymous_bytes() ==> {
                &&& r == Ok::<Role, AccessError>(login_result(old(self)@, me@, requested))
                &&& final(self)@ == login_post(old(self)@, me@, requested)
            },
    {
        if me.is_anonymous() {
            return Err(AccessError::Authentication);
        }
        match self.find_index(me) {
            Some(i) => Ok(self.entries[i].1),
            None => {
                let assigned = if requested == Role::Admin {
                    if self.any_admin() {
                        Role::Guest
                    } else {
                        Role::Admin
                    }
                } else {
                    requested
                };
                proof {
                    lemma_map_of_contains(self.entries@, me@);
                    assert forall|j: int|
                        0 <= j < self.entries@.len() implies self.entries@[j].0@ != me@ by {
                        lemma_map_of_entry(self.entries@, j);
                    }
                }
                let entry = me.clone();
                proof {
                    lemma_map_of_push(self.entries@, (entry, assigned));
                }
                self.entries.push((entry, assigned));
                Ok(assigned)
            },
        }
    }

    /// Privileged role assignment: a caller holding `Admin` or `Developer`
    /// overwrites (or creates) the target's entry with `role`,
    /// unconditionally. Every other caller is rejected by the access gate and
    /// the directory is left unchanged. The deployer record is never touched.
    pub fn assign_role(&mut self, caller: &CallerId, target: &CallerId, role: Role) -> (r: Result<
        (),
        AccessError,
    >)
        requires
            old(self).wf(),
        ensures
            final(self).wf(),
            final(self).spec_deployer() == old(self).spec_deployer(),
            gate_result(old(self)@, caller@) matches Err(e) ==> {
                &&& r == Err::<(), AccessError>(e)
                &&& final(self)@ == old(self)@
            },
            gate_result(old(self)@, caller@) is Ok ==> {
                &&& r == Ok::<(), AccessError>(())
                &&& final(self)@ == old(self)@.insert(target@, role)
            },
    {
        match self.require_admin_or_developer(caller) {
            Err(e) => {
                return Err(e);
            },
            Ok(_) => {},
        }
        match self.find_index(target) {
            Some(i) => {
                proof {
                    lemma_map_of_update(
                        self.entries@,
                        i as int,
                        (self.entries@[i as int].0, role),
                    );
                }
                self.entries[i].1 = role;
                proof {
                    assert forall|a: int, b: int|
                        0 <= a < b < self.entries@.len() implies self.entries@[a].0@
                        != self.entries@[b].0@ by {
                        assert(old(self).entries@[a].0@ != old(self).entries@[b].0@);
                    }
                }
            },
            None => {
                proof {
                    assert forall|j: int|
                        0 <= j < self.entries@.len() implies self.entries@[j].0@ != target@ by {
                        lemma_map_of_entry(self.entries@, j);
                    }
                }
                let entry = target.clone();
                proof {
                    lemma_map_of_push(self.entries@, (entry, role));
                }
                self.entries.push((entry, role));
            },
        }
        Ok(())
    }

    /// The caller's current role: its entry, or `Guest` when it has none. Never
    /// fails and never touches the directory; unknown callers are answered
    /// `Guest` by convention, not recorded.
    pub fn my_role(&self, me: &CallerId) -> (r: Role)
        requires
            self.wf(),
        ensures
            r == role_of(self@, me@),
    {
        match self.find_index(me) {
            Some(i) => self.entries[i].1,
            None => Role::Guest,
        }
    }

    /// True when the directory records `id` with role `Admin`.
    pub fn is_admin(&self, id: &CallerId) -> (b: bool)
        requires
            self.wf(),
        ensures
            b == spec_is_admin(self@, id@),
    {
        match self.find_index(id) {
            Some(i) => self.entries[i].1 == Role::Admin,
            None => false,
        }
    }

    /// True when the directory records `id` with `Admin` or `Developer`.
    pub fn is_admin_or_developer(&self, id: &CallerId) -> (b: bool)
        requires
            self.wf(),
        ensures
            b == spec_is_admin_or_developer(self@, id@),
    {
        match self.find_index(id) {
            Some(i) => {
                let r = self.entries[i].1;
                r == Role::Admin || r == Role::Developer
            },
            None => false,
        }
    }

    /// The access gate for operations open to `Admin` alone.
    pub fn require_admin(&self, caller: &CallerId) -> (r: Result<(), AccessError>)
        requires
            self.wf(),
        ensures
            r == admin_gate_result(self@, caller@),
    {
        if caller.is_anonymous() {
            return Err(AccessError::Authentication);
        }
        if !self.is_admin(caller) {
            return Err(AccessError::Authorization);
        }
        Ok(())
    }

    /// The access gate every privileged operation routes through: rejects the
    /// anonymous caller as unauthenticated, then any caller without `Admin` or
    /// `Developer` as unauthorized.
    pub fn require_admin_or_developer(&self, caller: &CallerId) -> (r: Result<(), AccessError>)
        requires
            self.wf(),
        ensures
            r == gate_result(self@, caller@),
    {
        if caller.is_anonymous() {
            return Err(AccessError::Authentication);
        }
        if !self.is_admin_or_developer(caller) {
            return Err(AccessError::Authorization);
        }
        Ok(())
    }

    /// Every recorded entry, for a caller that passes the access gate; the
    /// order carries no meaning.
    pub fn list_users(&self, caller: &CallerId) -> (r: Result<Vec<(CallerId, Role)>, AccessError>)
        requires
            self.wf(),
        ensures
            gate_result(self@, caller@) matches Err(e) ==> r == Err::<
                Vec<(CallerId, Role)>,
                AccessError,
            >(e),
            gate_result(self@, caller@) is Ok ==> (r matches Ok(v) && entries_match(v@, self@)),
    {
        match self.require_admin_or_developer(caller) {
            Err(e) => {
                return Err(e);
            },
            Ok(_) => {},
        }
        let n = self.entries.len();
        let mut out: Vec<(CallerId, Role)> = Vec::new();
        let mut i: usize = 0;
        while i < n
            invariant
                i <= n,
                n == self.entries@.len(),
                self.wf(),
                out@.len() == i,
                forall|j: int| 0 <= j < i ==> #[trigger] out@[j].0@ == self.entries@[j].0@
                    && out@[j].1 == self.entries@[j].1,
            decreases n - i,
        {
            let id = self.entries[i].0.clone();
            let role = self.entries[i].1;
            out.push((id, role));
            i = i + 1;
        }
        proof {
            assert forall|j: int|
                0 <= j < out@.len() implies self@.dom().contains(#[trigger] out@[j].0@)
                && self@[out@[j].0@] == out@[j].1 by {
                lemma_map_of_entry(self.entries@, j);
            }
            assert forall|k: Seq<u8>| #[trigger] self@.dom().contains(k) implies exists|j: int|
                0 <= j < out@.len() && out@[j].0@ == k by {
                lemma_map_of_contains(self.entries@, k);
                let j = choose|j: int| 0 <= j < self.entries@.len() && self.entries@[j].0@ == k;
                assert(out@[j].0@ == k);
            }
        }
        Ok(out)
    }

    /// Every recorded identity; public, the order carries no meaning.
    pub fn list_principals(&self) -> (r: Vec<CallerId>)
        requires
            self.wf(),
        ensures
            identities_match(r@, self@),
    {
        let n = self.entries.len();
        let mut out: Vec<CallerId> = Vec::new();
        let mut i: usize = 0;
        while i < n
            invariant
                i <= n,
                n == self.entries@.len(),
                self.wf(),
                out@.len() == i,
                forall|j: int| 0 <= j < i ==> #[trigger] out@[j]@ == self.entries@[j].0@,
            decreases n - i,
        {
            let id = self.entries[i].0.clone();
            out.push(id);
            i = i + 1;
        }
        proof {
            assert forall|j: int|
                0 <= j < out@.len() implies self@.dom().contains(#[trigger] out@[j]@) by {
                lemma_map_of_entry(self.entries@, j);
            }
            assert forall|k: Seq<u8>| #[trigger] self@.dom().contains(k) implies exists|j: int|
                0 <= j < out@.len() && out@[j]@ == k by {
                lemma_map_of_contains(self.entries@, k);
                let j = choose|j: int| 0 <= j < self.entries@.len() && self.entries@[j].0@ == k;
                assert(out@[j]@ == k);
            }
        }
        out
    }

    /// The deployer record: who initialized the system, absent only if
    /// initialization never ran.
    pub fn get_deployer_principal(&self) -> (r: Option<CallerId>)
        ensures
            match r {
                Some(d) => self.spec_deployer() == Some(d@),
                None => self.spec_deployer() is None,
            },
    {
        match &self.deployer {
            Some(d) => Some(d.clone()),
            None => None,
        }
    }
}

/// The identity of the current caller, exactly as the hosting environment
/// resolved and handed it in; the resolution itself is the host's concern.
pub fn whoami(me: CallerId) -> (r: CallerId)
    ensures
        r@ == me@,
{
    me
}

} // verus!
