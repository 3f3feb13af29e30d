use red_carpet::codec::parse_admin_file;
use red_carpet::codec::parse_store_file;
use red_carpet::codec::render_admin_file;
use red_carpet::codec::render_store_file;
use red_carpet::errors::StoreError;
use red_carpet::models::Admin;
use red_carpet::models::Employee;

fn record(id: &str, first: &str, last: &str) -> Employee {
    Employee {
        id: Some(id.to_string()),
        first_name: first.to_string(),
        last_name: last.to_string(),
        personal_email: Some(format!("{}@mail.test", first)),
        work_email: None,
        age: 27,
        diploma: "MSc".to_string(),
        onboarded: Some(false),
        handle: None,
        password: None,
        secure_password: Some(false),
    }
}

#[test]
fn store_file_round_trips_three_records() {
    let records = vec![
        record("id-1", "John", "Doe"),
        record("id-2", "Jane", "Roe"),
        record("id-3", "Ada", "Byron"),
    ];
    let text = render_store_file(&records);
    let reloaded = parse_store_file(&text).unwrap();
    assert_eq!(reloaded, records);
}

#[test]
fn store_file_round_trips_empty_store() {
    let records: Vec<Employee> = vec![];
    let text = render_store_file(&records);
    assert_eq!(text, "{}");
    assert_eq!(parse_store_file(&text).unwrap(), records);
}

#[test]
fn empty_file_is_an_empty_store() {
    assert_eq!(parse_store_file("").unwrap().len(), 0);
    assert_eq!(parse_store_file(" \n\t").unwrap().len(), 0);
}

#[test]
fn malformed_file_is_a_parse_error() {
    assert_eq!(parse_store_file("nonsense"), Err(StoreError::ParseError));
    assert_eq!(parse_store_file("{\n  \"k\": {}\n}"), Err(StoreError::ParseError));
    assert_eq!(parse_store_file("[]"), Err(StoreError::ParseError));
}

#[test]
fn entry_key_must_match_record_id() {
    let records = vec![record("id-1", "John", "Doe")];
    let text = render_store_file(&records);
    let tampered = text.replace("  \"id-1\":", "  \"id-9\":");
    assert_eq!(parse_store_file(&tampered), Err(StoreError::ParseError));
}

#[test]
fn quotes_and_backslashes_round_trip() {
    let mut tricky = record("id-1", "Jo\"hn", "Do\\e");
    tricky.diploma = "a \"quoted\" \\ diploma".to_string();
    let records = vec![tricky];
    let text = render_store_file(&records);
    let reloaded = parse_store_file(&text).unwrap();
    assert_eq!(reloaded, records);
}

#[test]
fn full_record_round_trips() {
    let full = Employee {
        id: Some("id-7".to_string()),
        first_name: "John".to_string(),
        last_name: "Doe".to_string(),
        personal_email: Some("john@mail.test".to_string()),
        work_email: Some("jdoe@work.test".to_string()),
        age: 4294967295,
        diploma: "".to_string(),
        onboarded: Some(true),
        handle: Some("jdoe".to_string()),
        password: Some("$pbkdf2-sha256$i=600000$x$y".to_string()),
        secure_password: Some(true),
    };
    let records = vec![full];
    let text = render_store_file(&records);
    assert_eq!(parse_store_file(&text).unwrap(), records);
}

#[test]
fn rendered_file_shape_is_stable() {
    let records = vec![record("id-1", "A", "B")];
    let text = render_store_file(&records);
    assert_eq!(
        text,
        "{\n  \"id-1\": {\"id\": \"id-1\", \"first_name\": \"A\", \"last_name\": \"B\", \
         \"personal_email\": \"A@mail.test\", \"work_email\": null, \"age\": 27, \
         \"diploma\": \"MSc\", \"onboarded\": false, \"handle\": null, \"password\": null, \
         \"secure_password\": false}\n}"
    );
}

#[test]
fn admin_file_round_trips() {
    let admins = vec![
        Admin { id: "admin".to_string(), password: Some("pw".to_string()) },
        Admin { id: "other".to_string(), password: None },
    ];
    let text = render_admin_file(&admins);
    assert_eq!(parse_admin_file(&text).unwrap(), admins);
    assert_eq!(parse_admin_file("").unwrap().len(), 0);
    assert_eq!(parse_admin_file("oops"), Err(StoreError::ParseError));
}
