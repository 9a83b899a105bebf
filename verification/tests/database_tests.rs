//! The database wiring and the end-to-end scenario over both guarded
//! collections.

use prototype_db::db::Database;
use prototype_db::errors::StoreError;
use prototype_db::query::ById;
use prototype_db::query::ByListId;
use prototype_db::records::Entry;
use prototype_db::records::List;

const EMPTY: &str = "{\"count\":0,\"data\":[]}";

#[test]
fn construction_is_all_or_nothing() {
    assert!(matches!(
        Database::new("db".to_string(), None, Some(EMPTY)),
        Err(StoreError::NotFound)
    ));
    assert!(matches!(
        Database::new("db".to_string(), Some(EMPTY), None),
        Err(StoreError::NotFound)
    ));
    assert!(matches!(
        Database::new("db".to_string(), Some("oops"), Some(EMPTY)),
        Err(StoreError::Parse)
    ));
    assert!(matches!(
        Database::new("db".to_string(), Some(EMPTY), Some("oops")),
        Err(StoreError::Parse)
    ));
    assert!(Database::new("db".to_string(), Some(EMPTY), Some(EMPTY)).is_ok());
}

#[test]
fn mutations_through_the_guard_serialise_in_order() {
    let db = Database::new("db".to_string(), Some(EMPTY), Some(EMPTY)).unwrap();
    let lock = db.get_list_collection();

    let (mut lists, handle) = lock.acquire_write();
    lists.append(List { id: "a".to_string(), name: "first".to_string() });
    handle.release_write(lists);

    let (mut lists, handle) = lock.acquire_write();
    lists.append(List { id: "b".to_string(), name: "second".to_string() });
    handle.release_write(lists);

    let handle = lock.acquire_read();
    let lists = handle.borrow();
    assert_eq!(lists.count(), 2);
    assert_eq!(lists.get_all()[0].id, "a");
    assert_eq!(lists.get_all()[1].id, "b");
    handle.release_read();
}

#[test]
fn end_to_end_scenario_over_both_collections() {
    let list_file = "{\"count\":0,\"data\":[]}";
    let entry_file = "{\"count\":0,\"data\":[]}";
    let db = Database::new("db".to_string(), Some(list_file), Some(entry_file)).unwrap();

    let (mut lists, handle) = db.get_list_collection().acquire_write();
    let save = lists.append(List { id: "L1".to_string(), name: "groceries".to_string() });
    assert_eq!(save.filename, "db/list.json");
    handle.release_write(lists);

    let (mut entries, handle) = db.get_entry_collection().acquire_write();
    let save = entries.append(Entry {
        id: "E1".to_string(),
        list_id: "L1".to_string(),
        name: "milk".to_string(),
        done: false,
    });
    assert_eq!(save.filename, "db/entry.json");

    let found = entries.find(&ByListId { list_id: "L1".to_string() });
    assert_eq!(found.len(), 1);
    assert_eq!(found[0].id, "E1");
    assert_eq!(found[0].name, "milk");
    assert!(!found[0].done);

    let (n, save) = entries.delete_many(&ByListId { list_id: "L1".to_string() });
    assert_eq!(n, 1);
    assert!(save.is_some());
    assert!(entries.find(&ByListId { list_id: "L1".to_string() }).is_empty());
    handle.release_write(entries);

    let (lists, handle) = db.get_list_collection().acquire_write();
    assert!(lists.find_one(&ById { id: "L1".to_string() }).is_some());
    handle.release_write(lists);
}

#[test]
fn fresh_database_over_saved_bodies_sees_the_mutated_state() {
    let db = Database::new("db".to_string(), Some(EMPTY), Some(EMPTY)).unwrap();

    let (mut lists, handle) = db.get_list_collection().acquire_write();
    let list_save = lists.append(List { id: "L1".to_string(), name: "groceries".to_string() });
    handle.release_write(lists);

    let (mut entries, handle) = db.get_entry_collection().acquire_write();
    let entry_save = entries.append(Entry {
        id: "E1".to_string(),
        list_id: "L1".to_string(),
        name: "milk".to_string(),
        done: false,
    });
    handle.release_write(entries);

    let db2 = Database::new(
        "db".to_string(),
        Some(list_save.content.as_str()),
        Some(entry_save.content.as_str()),
    )
    .unwrap();
    let handle = db2.get_list_collection().acquire_read();
    assert_eq!(handle.borrow().count(), 1);
    assert_eq!(handle.borrow().get_all()[0].name, "groceries");
    handle.release_read();
    let handle = db2.get_entry_collection().acquire_read();
    assert_eq!(handle.borrow().count(), 1);
    assert_eq!(handle.borrow().get_all()[0].list_id, "L1");
    handle.release_read();
}
