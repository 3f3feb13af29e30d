use red_carpet::errors::DataStoreError;
use red_carpet::errors::StoreError;
use red_carpet::models::Employee;
use red_carpet::store::EmployeeStore;

fn record(id: &str, first: &str, last: &str) -> Employee {
    Employee {
        id: Some(id.to_string()),
        first_name: first.to_string(),
        last_name: last.to_string(),
        personal_email: None,
        work_email: None,
        age: 30,
        diploma: "BSc".to_string(),
        onboarded: Some(false),
        handle: None,
        password: None,
        secure_password: Some(false),
    }
}

#[test]
fn save_then_list_contains_exactly_one_with_name() {
    let mut store = EmployeeStore::new();
    store.save(record("id-1", "John", "Doe")).unwrap();
    store.save(record("id-2", "Jane", "Roe")).unwrap();
    let listed = store.list();
    let with_name: Vec<&Employee> = listed
        .iter()
        .filter(|e| e.first_name == "John" && e.last_name == "Doe")
        .collect();
    assert_eq!(with_name.len(), 1);
    assert_eq!(with_name[0].id, Some("id-1".to_string()));
}

#[test]
fn save_duplicate_name_reports_conflict_and_keeps_store() {
    let mut store = EmployeeStore::new();
    store.save(record("id-1", "John", "Doe")).unwrap();
    let before = store.list();
    let r = store.save(record("id-2", "John", "Doe"));
    assert_eq!(
        r,
        Err(DataStoreError::EmployeeAlreadyExists {
            first_name: "John".to_string(),
            last_name: "Doe".to_string(),
        })
    );
    assert_eq!(store.list(), before);
}

#[test]
fn delete_then_get_by_id_is_not_found() {
    let mut store = EmployeeStore::new();
    store.save(record("id-1", "John", "Doe")).unwrap();
    store.delete(&"id-1".to_string());
    assert_eq!(store.get_by_id(&"id-1".to_string()), Err(StoreError::NotFound));
}

#[test]
fn delete_of_absent_id_is_a_no_op() {
    let mut store = EmployeeStore::new();
    store.save(record("id-1", "John", "Doe")).unwrap();
    store.delete(&"missing".to_string());
    assert_eq!(store.len(), 1);
}

#[test]
fn get_by_id_finds_saved_record() {
    let mut store = EmployeeStore::new();
    store.save(record("id-1", "John", "Doe")).unwrap();
    let found = store.get_by_id(&"id-1".to_string()).unwrap();
    assert_eq!(found.first_name, "John");
}

#[test]
fn get_by_handle_finds_record_with_handle() {
    let mut store = EmployeeStore::new();
    let mut e = record("id-1", "John", "Doe");
    e.handle = Some("jdoe".to_string());
    store.save(e).unwrap();
    let found = store.get_by_handle(&"jdoe".to_string()).unwrap();
    assert_eq!(found.id, Some("id-1".to_string()));
    assert_eq!(store.get_by_handle(&"other".to_string()), Err(StoreError::NotFound));
}

#[test]
fn update_replaces_by_id_or_inserts() {
    let mut store = EmployeeStore::new();
    store.save(record("id-1", "John", "Doe")).unwrap();
    let mut changed = record("id-1", "John", "Doe");
    changed.age = 44;
    store.update(changed);
    assert_eq!(store.len(), 1);
    assert_eq!(store.get_by_id(&"id-1".to_string()).unwrap().age, 44);
    store.update(record("id-9", "Ada", "Byron"));
    assert_eq!(store.len(), 2);
}

#[test]
fn exists_by_name_scans_all_records() {
    let mut store = EmployeeStore::new();
    store.save(record("id-1", "John", "Doe")).unwrap();
    assert!(store.exists_by_name(&"John".to_string(), &"Doe".to_string()));
    assert!(!store.exists_by_name(&"John".to_string(), &"Roe".to_string()));
}

#[test]
fn paginate_slices_one_based_pages() {
    let mut store = EmployeeStore::new();
    store.save(record("id-1", "A", "One")).unwrap();
    store.save(record("id-2", "B", "Two")).unwrap();
    store.save(record("id-3", "C", "Three")).unwrap();
    let page1 = store.paginate(1, 2);
    assert_eq!(page1.len(), 2);
    assert_eq!(page1[0].id, Some("id-1".to_string()));
    let page2 = store.paginate(2, 2);
    assert_eq!(page2.len(), 1);
    assert_eq!(page2[0].id, Some("id-3".to_string()));
    assert_eq!(store.paginate(0, 2).len(), 0);
    assert_eq!(store.paginate(3, 2).len(), 0);
}

#[test]
fn from_records_rejects_duplicate_or_missing_ids() {
    let dup = vec![record("id-1", "A", "One"), record("id-1", "B", "Two")];
    assert!(matches!(EmployeeStore::from_records(dup), Err(StoreError::ParseError)));
    let mut no_id = record("id-1", "A", "One");
    no_id.id = None;
    assert!(matches!(EmployeeStore::from_records(vec![no_id]), Err(StoreError::ParseError)));
    let ok = vec![record("id-1", "A", "One"), record("id-2", "B", "Two")];
    assert_eq!(EmployeeStore::from_records(ok).unwrap().len(), 2);
}
