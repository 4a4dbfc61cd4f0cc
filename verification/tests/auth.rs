use kit_panel::authentication::{Authentication, Permissions, Scope, User};

fn user(id: &str, password: &str, permissions: Permissions) -> User {
    User { user_id: id.to_string(), permissions, password: password.to_string() }
}

#[test]
fn scope_all_contains_everything() {
    let scope = Scope::All;
    assert!(scope.contains(&"alpha".to_string()));
    assert!(scope.contains(&"".to_string()));
}

#[test]
fn empty_scope_contains_nothing() {
    let scope = Scope::default();
    assert!(!scope.contains(&"alpha".to_string()));
}

#[test]
fn listed_scope_contains_exactly_its_ids() {
    let scope = Scope::Listed(vec!["alpha".to_string(), "beta".to_string()]);
    assert!(scope.contains(&"alpha".to_string()));
    assert!(scope.contains(&"beta".to_string()));
    assert!(!scope.contains(&"gamma".to_string()));
}

#[test]
fn template_has_the_admin_account() {
    let auth = Authentication::template();
    assert!(auth.get_user(&"admin".to_string(), &"password".to_string()).is_some());
}

#[test]
fn get_user_rejects_a_wrong_password() {
    let auth = Authentication::template();
    assert!(auth.get_user(&"admin".to_string(), &"wrong".to_string()).is_none());
    assert!(auth.get_user(&"nobody".to_string(), &"password".to_string()).is_none());
}

#[test]
fn created_session_resolves_to_its_user() {
    let mut auth = Authentication::template();
    let token = auth.create_session("admin", 1000);
    let resolved = auth.resolve(token);
    assert!(resolved.is_some());
    assert_eq!(resolved.unwrap().user_id, "admin".to_string());
}

#[test]
fn unknown_token_does_not_resolve() {
    let mut auth = Authentication::template();
    let token = auth.create_session("admin", 1000);
    assert!(auth.resolve(token.wrapping_add(1)).is_none());
}

#[test]
fn a_session_for_a_removed_user_does_not_resolve() {
    let mut auth = Authentication::from_users(vec![]);
    let token = auth.create_session("ghost", 1000);
    assert!(auth.resolve(token).is_none());
}

#[test]
fn sweep_keeps_a_session_right_before_expiry() {
    let mut auth = Authentication::template();
    let token = auth.create_session("admin", 1000);
    auth.clean(100, 1099);
    assert!(auth.resolve(token).is_some());
}

#[test]
fn sweep_removes_a_session_right_at_expiry() {
    let mut auth = Authentication::template();
    let token = auth.create_session("admin", 1000);
    auth.clean(100, 1100);
    assert!(auth.resolve(token).is_none());
}

#[test]
fn sweep_removes_only_expired_sessions() {
    let mut auth = Authentication::template();
    let old_token = auth.create_session("admin", 0);
    let fresh_token = auth.create_session("admin", 2000);
    auth.clean(100, 2050);
    assert!(auth.resolve(old_token).is_none());
    assert!(auth.resolve(fresh_token).is_some());
}

#[test]
fn from_users_keeps_the_first_of_duplicate_ids() {
    let auth = Authentication::from_users(vec![
        user("op", "first", Permissions::default()),
        user("op", "second", Permissions::default()),
    ]);
    assert!(auth.get_user(&"op".to_string(), &"first".to_string()).is_some());
    assert!(auth.get_user(&"op".to_string(), &"second".to_string()).is_none());
}
