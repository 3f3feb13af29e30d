//! Record types for the onboarding library: employee and admin records,
//! request/response shells, and their mathematical views.

use vstd::prelude::*;

verus! {

/// Mathematical view of an employee record: every text field is a
/// sequence of characters, so contracts can speak of record contents
/// independently of `String` allocation.
pub ghost struct EmployeeView {
    pub id: Option<Seq<char>>,
    pub first_name: Seq<char>,
    pub last_name: Seq<char>,
    pub personal_email: Option<Seq<char>>,
    pub work_email: Option<Seq<char>>,
    pub age: u32,
    pub diploma: Seq<char>,
    pub onboarded: Option<bool>,
    pub handle: Option<Seq<char>>,
    pub password: Option<Seq<char>>,
    pub secure_password: Option<bool>,
}

/// An employee onboarding record.
///
/// A record is created with `onboarded == Some(false)` and no handle or
/// password; onboarding assigns a handle, a work email and a plaintext
/// password; securing replaces the plaintext password with its hash and
/// sets the `secure_password` flag.
#[derive(Debug, PartialEq, Eq)]
pub struct Employee {
    pub id: Option<String>,
    pub first_name: String,
    pub last_name: String,
    pub personal_email: Option<String>,
    pub work_email: Option<String>,
    pub age: u32,
    pub diploma: String,
    pub onboarded: Option<bool>,
    pub handle: Option<String>,
    pub password: Option<String>,
    pub secure_password: Option<bool>,
}

impl View for Employee {
    type V = EmployeeView;

    open spec fn view(&self) -> EmployeeView {
        EmployeeView {
            id: self.id.deep_view(),
            first_name: self.first_name@,
            last_name: self.last_name@,
            personal_email: self.personal_email.deep_view(),
            work_email: self.work_email.deep_view(),
            age: self.age,
            diploma: self.diploma@,
            onboarded: self.onboarded,
            handle: self.handle.deep_view(),
            password: self.password.deep_view(),
            secure_password: self.secure_password,
        }
    }
}

pub(crate) fn clone_opt_string(o: &Option<String>) -> (r: Option<String>)
    ensures
        r.deep_view() == o.deep_view(),
{
    match o {
        Some(s) => Some(s.clone()),
        None => None,
    }
}

impl Clone for Employee {
    fn clone(&self) -> (r: Employee)
        ensures
            r@ == self@,
    {
        Employee {
            id: clone_opt_string(&self.id),
            first_name: self.first_name.clone(),
            last_name: self.last_name.clone(),
            personal_email: clone_opt_string(&self.personal_email),
            work_email: clone_opt_string(&self.work_email),
            age: self.age,
            diploma: self.diploma.clone(),
            onboarded: self.onboarded,
            handle: clone_opt_string(&self.handle),
            password: clone_opt_string(&self.password),
            secure_password: self.secure_password,
        }
    }
}

impl Employee {
    /// A freshly created record: not onboarded, no handle, no password.
    pub fn new(
        id: String,
        first_name: String,
        last_name: String,
        personal_email: Option<String>,
        age: u32,
        diploma: String,
    ) -> (e: Employee)
        ensures
            e@ == (EmployeeView {
                id: Some(id@),
                first_name: first_name@,
                last_name: last_name@,
                personal_email: personal_email.deep_view(),
                work_email: None,
                age: age,
                diploma: diploma@,
                onboarded: Some(false),
                handle: None,
                password: None,
                secure_password: Some(false),
            }),
    {
        Employee {
            id: Some(id),
            first_name,
            last_name,
            personal_email,
            work_email: None,
            age,
            diploma,
            onboarded: Some(false),
            handle: None,
            password: None,
            secure_password: Some(false),
        }
    }
}

/// Mathematical view of an admin record.
pub ghost struct AdminView {
    pub id: Seq<char>,
    pub password: Option<Seq<char>>,
}

/// An admin login record; the password is plaintext in the observed flow.
#[derive(Debug, PartialEq, Eq)]
pub struct Admin {
    pub id: String,
    pub password: Option<String>,
}

impl View for Admin {
    type V = AdminView;

    open spec fn view(&self) -> AdminView {
        AdminView { id: self.id@, password: self.password.deep_view() }
    }
}

impl Clone for Admin {
    fn clone(&self) -> (r: Admin)
        ensures
            r@ == self@,
    {
        Admin { id: self.id.clone(), password: clone_opt_string(&self.password) }
    }
}

/// The body of a request that creates an employee record.
#[derive(Debug, Clone)]
pub struct EmployeeRequestBody {
    pub first_name: String,
    pub last_name: String,
    pub personal_email: Option<String>,
    pub age: u32,
    pub diploma: String,
}

/// The handle/password pair submitted by a login form.
#[derive(Debug, Clone)]
pub struct EmployeeForm {
    pub handle: Option<String>,
    pub password: Option<String>,
}

/// A single record wrapped for a response body.
#[derive(Debug)]
pub struct EmployeeData {
    pub employee: Employee,
}

/// A response that carries one record and a message.
#[derive(Debug)]
pub struct EmployeeResponse {
    pub message: String,
    pub data: Employee,
}

/// A response that carries one record and a status.
#[derive(Debug)]
pub struct SimpleEmployeeResponse {
    pub status: String,
    pub data: EmployeeData,
}

/// A response that carries a page of records.
#[derive(Debug)]
pub struct EmployeeListResponse {
    pub message: String,
    pub results: usize,
    pub employees: Vec<Employee>,
}

/// Optional field updates for an existing record.
#[derive(Debug, Clone)]
pub struct UpdateEmployeeSchema {
    pub title: Option<String>,
    pub content: Option<String>,
    pub completed: Option<bool>,
}

/// Paging parameters for list requests.
#[derive(Debug, Default)]
pub struct QueryOptions {
    pub page: Option<usize>,
    pub limit: Option<usize>,
}

/// An error message for a response body.
#[derive(Debug, Clone)]
pub struct EmployeeErrorResponse {
    pub error: String,
}

} // verus!
