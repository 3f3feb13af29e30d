use red_carpet::errors::DataStoreError;
use red_carpet::errors::StoreError;
use red_carpet::models::Employee;
use red_carpet::models::EmployeeRequestBody;
use red_carpet::onboarding::create_employee_record;
use red_carpet::onboarding::onboard_employee;
use red_carpet::onboarding::secure_password_record;
use red_carpet::onboarding::validate_new_employee;
use red_carpet::onboarding::verify_handle_password;
use red_carpet::password_utils::hash_password;
use red_carpet::password_utils::verify_hashed_password;
use red_carpet::store::EmployeeStore;

fn request() -> EmployeeRequestBody {
    EmployeeRequestBody {
        first_name: "John".to_string(),
        last_name: "Doe".to_string(),
        personal_email: Some("john@mail.test".to_string()),
        age: 30,
        diploma: "BSc".to_string(),
    }
}

#[test]
fn created_record_has_fresh_id_and_defaults() {
    let e = create_employee_record(request());
    assert_eq!(e.id.as_ref().unwrap().len(), 36);
    assert_eq!(e.first_name, "John");
    assert_eq!(e.onboarded, Some(false));
    assert_eq!(e.handle, None);
    assert_eq!(e.password, None);
    assert_eq!(e.secure_password, Some(false));
    let e2 = create_employee_record(request());
    assert_ne!(e.id, e2.id);
}

#[test]
fn validation_checks_age_then_diploma() {
    assert!(matches!(
        validate_new_employee("J".to_string(), "D".to_string(), 17, &"BSc".to_string()),
        Err(DataStoreError::NoOldEnough { .. })
    ));
    assert!(matches!(
        validate_new_employee("J".to_string(), "D".to_string(), 18, &"".to_string()),
        Err(DataStoreError::NoDiploma { .. })
    ));
    assert_eq!(
        validate_new_employee("J".to_string(), "D".to_string(), 18, &"BSc".to_string()),
        Ok(())
    );
}

#[test]
fn onboarding_assigns_handle_email_and_password() {
    let e = create_employee_record(request());
    let n = onboard_employee(&e, &"work.test".to_string()).unwrap();
    assert_eq!(n.handle, Some("jdoe".to_string()));
    assert_eq!(n.work_email, Some("jdoe@work.test".to_string()));
    assert_eq!(n.onboarded, Some(true));
    assert_eq!(n.secure_password, Some(false));
    assert_eq!(n.password.unwrap().len(), 9);
    assert_eq!(n.id, e.id);
}

#[test]
fn onboarding_rejects_empty_first_name() {
    let mut e = create_employee_record(request());
    e.first_name = "".to_string();
    assert_eq!(onboard_employee(&e, &"work.test".to_string()), Err(StoreError::InvalidInput));
}

#[test]
fn securing_replaces_plaintext_with_verifying_hash() {
    let e = create_employee_record(request());
    let mut onboarded = onboard_employee(&e, &"work.test".to_string()).unwrap();
    let plain = onboarded.password.clone().unwrap();
    let secured = secure_password_record(&onboarded).unwrap();
    assert_eq!(secured.secure_password, Some(true));
    let digest = secured.password.clone().unwrap();
    assert_ne!(digest, plain);
    assert!(verify_hashed_password(plain, digest));
    onboarded.password = None;
    assert_eq!(secure_password_record(&onboarded), Err(StoreError::InvalidInput));
}

#[test]
fn handle_login_checks_stored_digest() {
    let mut store = EmployeeStore::new();
    let digest = hash_password("temp-pass".to_string()).unwrap();
    let e = Employee {
        id: Some("id-1".to_string()),
        first_name: "John".to_string(),
        last_name: "Doe".to_string(),
        personal_email: None,
        work_email: None,
        age: 30,
        diploma: "BSc".to_string(),
        onboarded: Some(true),
        handle: Some("jdoe".to_string()),
        password: Some(digest),
        secure_password: Some(true),
    };
    store.save(e).unwrap();
    assert_eq!(
        verify_handle_password(&store, &"jdoe".to_string(), &"temp-pass".to_string()),
        Ok(true)
    );
    assert_eq!(
        verify_handle_password(&store, &"jdoe".to_string(), &"wrong".to_string()),
        Err(StoreError::InvalidCredentials)
    );
    assert_eq!(
        verify_handle_password(&store, &"nobody".to_string(), &"temp-pass".to_string()),
        Err(StoreError::InvalidCredentials)
    );
}
