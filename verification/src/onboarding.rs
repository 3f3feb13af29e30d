//! The onboarding flows: creating a record from a request, validating
//! it, onboarding it (handle, work email, temporary password), securing
//! its password, and checking a handle/password pair against the store.

use vstd::prelude::*;

use crate::errors::DataStoreError;
use crate::errors::StoreError;
use crate::models::Employee;
use crate::models::EmployeeRequestBody;
use crate::models::EmployeeView;
use crate::password_utils::digest_parses;
use crate::password_utils::generate_handle;
use crate::password_utils::generate_random_password;
use crate::password_utils::handle_text;
use crate::password_utils::password_shape;
use crate::password_utils::verifies_of;
use crate::password_utils::verify_hashed_password;
use crate::password_utils::hash_password;
use crate::errors::employee_no_diploma_error;
use crate::errors::employee_not_old_enough_error;
use crate::store::EmployeeStore;
use crate::store::first_with_handle;

verus! {

/// Relies on uuid's `Uuid::new_v4` and its `Display` form: a hyphenated
/// UUID string of 36 characters.
#[verifier::external_body]
fn fresh_record_id() -> (r: String)
    ensures
        r@.len() == 36,
{
    uuid::Uuid::new_v4().to_string()
}

/// Validation applied before a record is admitted: the employee must be
/// at least eighteen and must hold a diploma.
pub fn validate_new_employee(
    first_name: String,
    last_name: String,
    age: u32,
    diploma: &String,
) -> (r: Result<(), DataStoreError>)
    ensures
        match r {
            Ok(()) => age >= 18 && diploma@.len() > 0,
            Err(e) => (age < 18 && e == (DataStoreError::NoOldEnough { first_name, last_name }))
                || (age >= 18 && diploma@.len() == 0 && e == (DataStoreError::NoDiploma {
                first_name,
                last_name,
            })),
        },
{
    if age < 18 {
        employee_not_old_enough_error(first_name, last_name)
    } else if diploma.as_str().is_empty() {
        employee_no_diploma_error(first_name, last_name)
    } else {
        Ok(())
    }
}

/// A fresh record from a creation request: a generated identifier, the
/// requested fields, and the not-yet-onboarded defaults.
pub fn create_employee_record(body: EmployeeRequestBody) -> (e: Employee)
    ensures
        e@.id matches Some(id) && id.len() == 36,
        e@.first_name == body.first_name@,
        e@.last_name == body.last_name@,
        e@.personal_email == body.personal_email.deep_view(),
        e@.work_email is None,
        e@.age == body.age,
        e@.diploma == body.diploma@,
        e@.onboarded == Some(false),
        e@.handle is None,
        e@.password is None,
        e@.secure_password == Some(false),
{
    let id = fresh_record_id();
    Employee::new(id, body.first_name, body.last_name, body.personal_email, body.age, body.diploma)
}

/// Onboard a record: derive its handle from its name, assign a work
/// email of the form `handle@domain`, generate a temporary plaintext
/// password, and mark it onboarded. A record whose first name is empty
/// cannot be onboarded.
pub fn onboard_employee(e: &Employee, domain: &String) -> (r: Result<Employee, StoreError>)
    ensures
        match r {
            Ok(n) => {
                let h = handle_text(e@.first_name, e@.last_name);
                &&& e@.first_name.len() > 0
                &&& n@.id == e@.id
                &&& n@.first_name == e@.first_name
                &&& n@.last_name == e@.last_name
                &&& n@.personal_email == e@.personal_email
                &&& n@.work_email == Some(h + seq!['@'] + domain@)
                &&& n@.age == e@.age
                &&& n@.diploma == e@.diploma
                &&& n@.onboarded == Some(true)
                &&& n@.handle == Some(h)
                &&& (n@.password matches Some(pw) && password_shape(pw))
                &&& n@.secure_password == Some(false)
            },
            Err(err) => err == StoreError::InvalidInput && e@.first_name.len() == 0,
        },
{
    let handle = match generate_handle(e.first_name.clone(), e.last_name.clone()) {
        Ok(h) => h,
        Err(err) => {
            return Err(err);
        },
    };
    let mut work_email = handle.clone();
    work_email.append("@");
    work_email.append(domain.as_str());
    proof {
        assert("@"@ =~= seq!['@']) by {
            reveal_strlit("@");
        }
    }
    let password = generate_random_password();
    Ok(
        Employee {
            id: crate::models::clone_opt_string(&e.id),
            first_name: e.first_name.clone(),
            last_name: e.last_name.clone(),
            personal_email: crate::models::clone_opt_string(&e.personal_email),
            work_email: Some(work_email),
            age: e.age,
            diploma: e.diploma.clone(),
            onboarded: Some(true),
            handle: Some(handle),
            password: Some(password),
            secure_password: Some(false),
        },
    )
}

/// Replace the record's plaintext password with its salted hash and set
/// the secure-password flag; a record without a password, or a password
/// the hasher refuses, is rejected.
pub fn secure_password_record(e: &Employee) -> (r: Result<Employee, StoreError>)
    ensures
        match r {
            Ok(n) => {
                &&& e@.password matches Some(pw)
                &&& n@.id == e@.id
                &&& n@.first_name == e@.first_name
                &&& n@.last_name == e@.last_name
                &&& n@.personal_email == e@.personal_email
                &&& n@.work_email == e@.work_email
                &&& n@.age == e@.age
                &&& n@.diploma == e@.diploma
                &&& n@.onboarded == e@.onboarded
                &&& n@.handle == e@.handle
                &&& (n@.password matches Some(d) && digest_parses(d) && verifies_of(
                    e@.password->0,
                    d,
                ))
                &&& n@.secure_password == Some(true)
            },
            Err(err) => err == StoreError::InvalidInput,
        },
        e@.password is None ==> r is Err,
{
    let plain = match &e.password {
        Some(p) => p.clone(),
        None => {
            return Err(StoreError::InvalidInput);
        },
    };
    let hashed = match hash_password(plain) {
        Ok(h) => h,
        Err(err) => {
            return Err(err);
        },
    };
    Ok(
        Employee {
            id: crate::models::clone_opt_string(&e.id),
            first_name: e.first_name.clone(),
            last_name: e.last_name.clone(),
            personal_email: crate::models::clone_opt_string(&e.personal_email),
            work_email: crate::models::clone_opt_string(&e.work_email),
            age: e.age,
            diploma: e.diploma.clone(),
            onboarded: e.onboarded,
            handle: crate::models::clone_opt_string(&e.handle),
            password: Some(hashed),
            secure_password: Some(true),
        },
    )
}

/// Whether the first record carrying handle `h` holds a digest that
/// password `p` reproduces.
pub open spec fn handle_password_ok(s: Seq<EmployeeView>, h: Seq<char>, p: Seq<char>) -> bool {
    match first_with_handle(s, h) {
        Some(e) => match e.password {
            Some(d) => digest_parses(d) && verifies_of(p, d),
            None => false,
        },
        None => false,
    }
}

/// Check a handle/password pair against the store: accepted exactly when
/// the first record with that handle holds a digest that the password
/// reproduces; any other outcome is an invalid-credentials error.
pub fn verify_handle_password(
    store: &EmployeeStore,
    handle: &String,
    password: &String,
) -> (r: Result<bool, StoreError>)
    ensures
        match r {
            Ok(b) => b && handle_password_ok(store@, handle@, password@),
            Err(e) => e == StoreError::InvalidCredentials && !handle_password_ok(
                store@,
                handle@,
                password@,
            ),
        },
{
    let employee = match store.get_by_handle(handle) {
        Ok(e) => e,
        Err(_) => {
            return Err(StoreError::InvalidCredentials);
        },
    };
    let stored = match &employee.password {
        Some(d) => d.clone(),
        None => {
            return Err(StoreError::InvalidCredentials);
        },
    };
    if verify_hashed_password(password.clone(), stored) {
        Ok(true)
    } else {
        Err(StoreError::InvalidCredentials)
    }
}

} // verus!
