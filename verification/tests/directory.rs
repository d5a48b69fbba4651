use daologin::AccessError;
use daologin::CallerId;
use daologin::Role;
use daologin::RoleDirectory;
use daologin::whoami;

fn id(byte: u8) -> CallerId {
    CallerId::from_bytes(vec![byte])
}

fn initialized() -> (RoleDirectory, CallerId) {
    let mut d = RoleDirectory::new();
    d.init(id(1));
    (d, id(1))
}

#[test]
fn first_login_gets_requested_role() {
    let (mut d, _) = initialized();
    assert_eq!(d.login_as_role(&id(2), Role::Student), Ok(Role::Student));
    assert_eq!(d.login_as_role(&id(3), Role::Professor), Ok(Role::Professor));
    assert_eq!(d.login_as_role(&id(6), Role::Guest), Ok(Role::Guest));
    assert_eq!(d.login_as_role(&id(5), Role::Developer), Ok(Role::Developer));
}

#[test]
fn second_login_keeps_first_role() {
    let (mut d, _) = initialized();
    assert_eq!(d.login_as_role(&id(2), Role::Student), Ok(Role::Student));
    assert_eq!(d.login_as_role(&id(2), Role::Professor), Ok(Role::Student));
    assert_eq!(d.login_as_role(&id(2), Role::Admin), Ok(Role::Student));
    assert_eq!(d.my_role(&id(2)), Role::Student);
}

#[test]
fn anonymous_login_rejected() {
    let (mut d, _) = initialized();
    let before = d.list_principals().len();
    assert_eq!(
        d.login_as_role(&CallerId::anonymous(), Role::Guest),
        Err(AccessError::Authentication)
    );
    assert_eq!(d.list_principals().len(), before);
}

#[test]
fn admin_granted_while_none_exists() {
    let (mut d, _) = initialized();
    // The deployer holds Developer, which does not count as an Admin.
    assert_eq!(d.login_as_role(&id(2), Role::Admin), Ok(Role::Admin));
}

#[test]
fn admin_request_downgraded_once_admin_exists() {
    let (mut d, _) = initialized();
    assert_eq!(d.login_as_role(&id(2), Role::Admin), Ok(Role::Admin));
    assert_eq!(d.login_as_role(&id(3), Role::Admin), Ok(Role::Guest));
    assert_eq!(d.my_role(&id(3)), Role::Guest);
}

#[test]
fn assign_role_by_unprivileged_fails_and_changes_nothing() {
    let (mut d, _) = initialized();
    d.login_as_role(&id(2), Role::Student).unwrap();
    d.login_as_role(&id(3), Role::Professor).unwrap();
    d.login_as_role(&id(6), Role::Guest).unwrap();
    for caller in [2u8, 3, 6] {
        assert_eq!(
            d.assign_role(&id(caller), &id(9), Role::Admin),
            Err(AccessError::Authorization)
        );
    }
    assert_eq!(
        d.assign_role(&CallerId::anonymous(), &id(9), Role::Admin),
        Err(AccessError::Authentication)
    );
    assert_eq!(d.my_role(&id(9)), Role::Guest);
    assert_eq!(d.list_principals().len(), 4);
    assert_eq!(d.my_role(&id(2)), Role::Student);
    assert_eq!(d.my_role(&id(3)), Role::Professor);
    assert_eq!(d.my_role(&id(6)), Role::Guest);
}

#[test]
fn assign_role_by_admin_and_developer_succeeds() {
    let (mut d, deployer) = initialized();
    // The deployer holds Developer.
    assert_eq!(d.assign_role(&deployer, &id(2), Role::Admin), Ok(()));
    assert_eq!(d.my_role(&id(2)), Role::Admin);
    // An Admin may reassign anyone, even demote another Admin.
    assert_eq!(d.assign_role(&id(2), &id(3), Role::Professor), Ok(()));
    assert_eq!(d.my_role(&id(3)), Role::Professor);
    assert_eq!(d.assign_role(&id(2), &deployer, Role::Guest), Ok(()));
    assert_eq!(d.my_role(&deployer), Role::Guest);
}

#[test]
fn my_role_of_unknown_caller_is_guest_and_records_nothing() {
    let (d, deployer) = initialized();
    assert_eq!(d.my_role(&id(7)), Role::Guest);
    let ids = d.list_principals();
    assert_eq!(ids.len(), 1);
    assert!(ids[0].equals(&deployer));
}

#[test]
fn list_users_gated_and_complete() {
    let (mut d, deployer) = initialized();
    d.login_as_role(&id(2), Role::Student).unwrap();
    assert_eq!(
        d.list_users(&id(2)).unwrap_err(),
        AccessError::Authorization
    );
    assert_eq!(
        d.list_users(&CallerId::anonymous()).unwrap_err(),
        AccessError::Authentication
    );
    let users = d.list_users(&deployer).unwrap();
    assert_eq!(users.len(), 2);
    let mut saw_deployer = false;
    let mut saw_student = false;
    for (who, role) in &users {
        if who.equals(&deployer) {
            assert_eq!(*role, Role::Developer);
            saw_deployer = true;
        }
        if who.equals(&id(2)) {
            assert_eq!(*role, Role::Student);
            saw_student = true;
        }
    }
    assert!(saw_deployer && saw_student);
}

#[test]
fn deployer_scenario() {
    // Process start: empty directory, no deployer recorded.
    let mut d = RoleDirectory::new();
    assert!(d.get_deployer_principal().is_none());
    // The environment triggers initialization with deployer identity D.
    let deployer = id(1);
    d.init(deployer.clone());
    assert!(d.get_deployer_principal().unwrap().equals(&deployer));
    assert_eq!(d.my_role(&deployer), Role::Developer);
    // A1 logs in requesting Admin: none exists, so Admin is granted.
    let a1 = id(2);
    assert_eq!(d.login_as_role(&a1, Role::Admin), Ok(Role::Admin));
    // A2 logs in requesting Admin: one exists now, so Guest is granted.
    let a2 = id(3);
    assert_eq!(d.login_as_role(&a2, Role::Admin), Ok(Role::Guest));
    // A1, an Admin, reassigns A2 to Professor.
    assert_eq!(d.assign_role(&a1, &a2, Role::Professor), Ok(()));
    assert_eq!(d.my_role(&a2), Role::Professor);
    // The anonymous caller may not assign roles.
    assert_eq!(
        d.assign_role(&CallerId::anonymous(), &a2, Role::Guest),
        Err(AccessError::Authentication)
    );
}

#[test]
fn whoami_returns_the_resolved_identity() {
    let me = whoami(id(9));
    assert!(me.equals(&id(9)));
    let bytes = me.into_bytes();
    assert_eq!(bytes, vec![9u8]);
}

#[test]
fn anonymous_identity_is_the_sentinel_byte() {
    let anon = CallerId::anonymous();
    assert!(anon.is_anonymous());
    assert_eq!(anon.into_bytes(), vec![4u8]);
    assert!(!id(2).is_anonymous());
}

#[test]
fn require_admin_distinguishes_admin_from_developer() {
    let (mut d, deployer) = initialized();
    // The deployer is a Developer: it passes the broad gate, not the Admin one.
    assert_eq!(d.require_admin_or_developer(&deployer), Ok(()));
    assert_eq!(
        d.require_admin(&deployer),
        Err(AccessError::Authorization)
    );
    assert_eq!(d.login_as_role(&id(2), Role::Admin), Ok(Role::Admin));
    assert_eq!(d.require_admin(&id(2)), Ok(()));
    assert!(d.is_admin(&id(2)));
    assert!(!d.is_admin(&deployer));
    assert!(d.is_admin_or_developer(&deployer));
    assert!(!d.is_admin_or_developer(&id(7)));
}
