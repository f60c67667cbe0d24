use sad::project::{Complexity, ParseError};
use sad::storage::{Predicate, Storage};
use sad::test_util::{get_project, get_record};

#[test]
fn test_sort_by_start_date() {
    let mut storage: Storage = Storage::new(vec![Predicate::KeepAll]);
    storage
        .projects
        .append(&mut vec![get_project(1), get_project(2)]);

    storage.sort_by_start_date();
    assert_eq!(
        storage
            .projects
            .iter()
            .map(|p| p.id.as_ref())
            .collect::<Vec<&str>>(),
        vec!["2", "1"]
    );
}

#[test]
fn test_insert_without_filter() {
    let mut storage: Storage = Storage::new(vec![Predicate::KeepAll]);

    storage.insert(get_record(1)).unwrap();
    storage.insert(get_record(2)).unwrap();
    assert_eq!(storage.projects.len(), 2);
}

#[test]
fn test_insert_with_filter() {
    let mut storage: Storage = Storage::new(vec![Predicate::IdEquals("2".to_string())]);

    storage.insert(get_record(1)).unwrap();
    storage.insert(get_record(2)).unwrap();
    assert_eq!(storage.projects.len(), 1);
    assert_eq!(storage.projects[0].id, "2");
}

#[test]
fn canonical_row_is_retained_with_parsed_fields() {
    let mut storage: Storage = Storage::new(vec![]);
    storage
        .insert(vec![
            "1",
            "Harmonize Lactobacillus acidophilus sourcing",
            "2014-01-01 00:00:00.000",
            "Dairy",
            "Daisy Milks",
            "NULL",
            "NULL",
            "Simple",
        ])
        .unwrap();
    assert_eq!(storage.size(), 1);
    let p = &storage.iter()[0];
    assert_eq!(p.id, "1");
    assert_eq!(p.savings_amount, None);
    assert_eq!(p.currency, None);
    assert_eq!(p.complexity, Complexity::Simple);
}

#[test]
fn reordered_header_maps_fields_by_name() {
    let mut storage: Storage = Storage::new(vec![]);
    storage.set_columns(vec![
        "Complexity",
        "Project",
        "Description",
        "Start date",
        "Category",
        "Responsible",
        "Savings amount",
        "Currency",
    ]);
    storage
        .insert(vec![
            "Simple",
            "1",
            "Harmonize Lactobacillus acidophilus sourcing",
            "2014-01-01 00:00:00.000",
            "Dairy",
            "Daisy Milks",
            "NULL",
            "NULL",
        ])
        .unwrap();
    // the identifier comes from position 1, not position 0
    assert_eq!(storage.iter()[0].id, "1");
    assert_eq!(storage.iter()[0].complexity, Complexity::Simple);
}

#[test]
fn get_columns_echoes_the_header_order() {
    let mut storage: Storage = Storage::new(vec![]);
    let header = vec![
        "Complexity",
        "Project",
        "Description",
        "Start date",
        "Category",
        "Responsible",
        "Savings amount",
        "Currency",
    ];
    storage.set_columns(header.clone());
    let got = storage.get_columns();
    assert_eq!(got, header);
}

#[test]
fn sort_is_stable_for_equal_dates() {
    let mut storage: Storage = Storage::new(vec![]);
    let mut a = get_project(1);
    a.id = "first".to_string();
    let mut b = get_project(2);
    let mut c = get_project(1);
    c.id = "second".to_string();
    b.id = "between".to_string();
    // a and c share one date; b is earlier and must move ahead of both
    storage.projects.append(&mut vec![a, b, c]);
    storage.sort_by_start_date();
    let ids: Vec<&str> = storage.projects.iter().map(|p| p.id.as_ref()).collect();
    assert_eq!(ids, vec!["between", "first", "second"]);
}

#[test]
fn predicate_chain_needs_every_predicate() {
    // both pass
    let mut s1 = Storage::new(vec![
        Predicate::IdEquals("1".to_string()),
        Predicate::KeepAll,
    ]);
    s1.insert(get_record(1)).unwrap();
    assert_eq!(s1.size(), 1);
    // the first rejects
    let mut s2 = Storage::new(vec![
        Predicate::IdEquals("2".to_string()),
        Predicate::KeepAll,
    ]);
    s2.insert(get_record(1)).unwrap();
    assert_eq!(s2.size(), 0);
    // an empty chain retains every valid row
    let mut s3 = Storage::new(vec![]);
    s3.insert(get_record(1)).unwrap();
    assert_eq!(s3.size(), 1);
}

#[test]
fn unknown_header_name_fails_insert() {
    let mut storage: Storage = Storage::new(vec![]);
    storage.set_columns(vec![
        "Complexity",
        "Identifier",
        "Description",
        "Start date",
        "Category",
        "Responsible",
        "Savings amount",
        "Currency",
    ]);
    let r = storage.insert(vec![
        "Simple", "1", "d", "2014-01-01 00:00:00.000", "c", "r", "NULL", "NULL",
    ]);
    match r {
        Err(ParseError::UnknownColumn(name)) => assert_eq!(name, "Project"),
        other => panic!("expected an unknown column error, got {:?}", other),
    }
    assert_eq!(storage.size(), 0);
}

#[test]
fn short_row_fails_insert() {
    let mut storage: Storage = Storage::new(vec![]);
    let r = storage.insert(vec!["1", "d", "2014-01-01 00:00:00.000", "c"]);
    assert!(matches!(r, Err(ParseError::WrongColumnCount)));
    assert_eq!(storage.size(), 0);
}

#[test]
fn new_storage_maps_the_canonical_order() {
    let storage = Storage::new(vec![]);
    assert_eq!(
        storage.get_columns(),
        vec![
            "Project",
            "Description",
            "Start date",
            "Category",
            "Responsible",
            "Savings amount",
            "Currency",
            "Complexity"
        ]
    );
}

#[test]
fn clear_resets_everything() {
    let mut storage: Storage = Storage::new(vec![Predicate::KeepAll]);
    storage.insert(get_record(1)).unwrap();
    storage.clear();
    assert_eq!(storage.size(), 0);
    assert_eq!(storage.get_columns().len(), 0);
}
