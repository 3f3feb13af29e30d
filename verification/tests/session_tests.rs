use red_carpet::errors::DataStoreError;
use red_carpet::errors::StoreError;
use red_carpet::errors::employee_already_exists_error;
use red_carpet::errors::employee_no_diploma_error;
use red_carpet::errors::employee_not_old_enough_error;
use red_carpet::models::Admin;
use red_carpet::session::create_admin;
use red_carpet::session::verify_admin_password;
use red_carpet::session::SessionStore;
use red_carpet::store::AdminStore;

#[test]
fn login_stores_token_and_logout_removes_it() {
    let mut sessions = SessionStore::new();
    assert!(!sessions.contains_key(&"admin".to_string()));
    sessions.login("admin".to_string(), "admin:100:sfx".to_string());
    assert!(sessions.contains_key(&"admin".to_string()));
    assert_eq!(sessions.token_for(&"admin".to_string()), Some("admin:100:sfx".to_string()));
    sessions.logout(&"admin".to_string());
    assert!(!sessions.contains_key(&"admin".to_string()));
}

#[test]
fn second_login_overwrites_the_first() {
    let mut sessions = SessionStore::new();
    sessions.login("admin".to_string(), "admin:100:a".to_string());
    sessions.login("admin".to_string(), "admin:200:b".to_string());
    assert_eq!(sessions.token_for(&"admin".to_string()), Some("admin:200:b".to_string()));
}

#[test]
fn session_is_validated_lazily_against_the_window() {
    let mut sessions = SessionStore::new();
    sessions.login("admin".to_string(), "admin:1000:sfx".to_string());
    assert!(sessions.validate_session_at(&"admin".to_string(), 1000));
    assert!(sessions.validate_session_at(&"admin".to_string(), 4599));
    assert!(!sessions.validate_session_at(&"admin".to_string(), 4600));
    assert!(!sessions.validate_session_at(&"other".to_string(), 1000));
}

#[test]
fn malformed_stored_token_never_validates() {
    let mut sessions = SessionStore::new();
    sessions.login("admin".to_string(), "garbage".to_string());
    assert!(!sessions.validate_session_at(&"admin".to_string(), 0));
}

#[test]
fn create_admin_only_once() {
    let mut admins = AdminStore::new();
    assert!(create_admin(&mut admins, "admin".to_string()));
    assert!(!create_admin(&mut admins, "admin".to_string()));
    let stored = admins.get_admin_by_id(&"admin".to_string()).unwrap();
    assert_eq!(stored.password.unwrap().len(), 9);
}

#[test]
fn admin_password_check_requires_exact_match() {
    let admin = Admin { id: "admin".to_string(), password: Some("secret".to_string()) };
    assert_eq!(verify_admin_password(Some(admin.clone()), &"secret".to_string()), Ok(true));
    assert_eq!(
        verify_admin_password(Some(admin.clone()), &"wrong".to_string()),
        Err(StoreError::InvalidCredentials)
    );
    assert_eq!(
        verify_admin_password(None, &"secret".to_string()),
        Err(StoreError::InvalidCredentials)
    );
    let blank = Admin { id: "admin".to_string(), password: None };
    assert_eq!(
        verify_admin_password(Some(blank), &"secret".to_string()),
        Err(StoreError::InvalidCredentials)
    );
}

#[test]
fn admin_store_lookup_and_existence() {
    let mut admins = AdminStore::new();
    assert!(!admins.check_admin_exists(&"admin".to_string()));
    admins.add_admin(Admin { id: "admin".to_string(), password: Some("pw".to_string()) });
    assert!(admins.check_admin_exists(&"admin".to_string()));
    assert_eq!(admins.get_admin_by_id(&"nobody".to_string()), None);
}

#[test]
fn error_constructors_build_their_variants() {
    assert_eq!(
        employee_already_exists_error("John".to_string(), "Doe".to_string()),
        Err(DataStoreError::EmployeeAlreadyExists {
            first_name: "John".to_string(),
            last_name: "Doe".to_string(),
        })
    );
    assert!(matches!(
        employee_not_old_enough_error("John".to_string(), "Doe".to_string()),
        Err(DataStoreError::NoOldEnough { .. })
    ));
    assert!(matches!(
        employee_no_diploma_error("John".to_string(), "Doe".to_string()),
        Err(DataStoreError::NoDiploma { .. })
    ));
}
