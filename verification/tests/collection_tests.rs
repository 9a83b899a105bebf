//! The collection's query and mutation behaviour on in-memory state.

use prototype_db::query::ById;
use prototype_db::query::ByListId;
use prototype_db::query::EntryPatch;
use prototype_db::query::ListPatch;
use prototype_db::records::Entry;
use prototype_db::records::List;
use prototype_db::store::Collection;

const EMPTY: &str = "{\"count\": 0, \"data\": []}";

fn empty_lists() -> Collection<List> {
    Collection::<List>::new("list".to_string(), "db", Some(EMPTY)).unwrap()
}

fn empty_entries() -> Collection<Entry> {
    Collection::<Entry>::new("entry".to_string(), "db", Some(EMPTY)).unwrap()
}

fn list(id: &str, name: &str) -> List {
    List { id: id.to_string(), name: name.to_string() }
}

fn entry(id: &str, list_id: &str, name: &str, done: bool) -> Entry {
    Entry {
        id: id.to_string(),
        list_id: list_id.to_string(),
        name: name.to_string(),
        done,
    }
}

#[test]
fn appends_keep_call_order_and_count() {
    let mut c = empty_lists();
    c.append(list("a", "first"));
    c.append(list("b", "second"));
    c.append(list("c", "third"));
    assert_eq!(c.count(), 3);
    let all = c.get_all();
    assert_eq!(all.len(), 3);
    assert_eq!(all[0].id, "a");
    assert_eq!(all[1].id, "b");
    assert_eq!(all[2].id, "c");
    assert_eq!(all[2].name, "third");
}

#[test]
fn find_one_and_find_on_no_match() {
    let mut c = empty_lists();
    c.append(list("a", "first"));
    assert!(c.find_one(&ById { id: "zzz".to_string() }).is_none());
    let found = c.find(&ById { id: "zzz".to_string() });
    assert!(found.is_empty());
    assert_eq!(c.count(), 1);
}

#[test]
fn find_one_returns_first_match() {
    let mut c = empty_lists();
    c.append(list("a", "first"));
    c.append(list("a", "second"));
    let found = c.find_one(&ById { id: "a".to_string() }).unwrap();
    assert_eq!(found.name, "first");
}

#[test]
fn find_keeps_sequence_order() {
    let mut c = empty_entries();
    c.append(entry("e1", "l1", "milk", false));
    c.append(entry("e2", "l2", "bread", false));
    c.append(entry("e3", "l1", "eggs", true));
    let found = c.find(&ByListId { list_id: "l1".to_string() });
    assert_eq!(found.len(), 2);
    assert_eq!(found[0].id, "e1");
    assert_eq!(found[1].id, "e3");
}

#[test]
fn delete_one_removes_only_first_match() {
    let mut c = empty_lists();
    c.append(list("a", "first"));
    c.append(list("a", "second"));
    c.append(list("b", "third"));
    let removed = c.delete_one(&ById { id: "a".to_string() });
    let (gone, _save) = removed.unwrap();
    assert_eq!(gone.name, "first");
    assert_eq!(c.count(), 2);
    assert_eq!(c.get_all()[0].name, "second");
    assert_eq!(c.get_all()[1].name, "third");
}

#[test]
fn delete_one_without_match_changes_nothing() {
    let mut c = empty_lists();
    c.append(list("a", "first"));
    assert!(c.delete_one(&ById { id: "b".to_string() }).is_none());
    assert_eq!(c.count(), 1);
}

#[test]
fn delete_many_removes_all_matches_and_counts_them() {
    let mut c = empty_entries();
    c.append(entry("e1", "l1", "milk", false));
    c.append(entry("e2", "l2", "bread", false));
    c.append(entry("e3", "l1", "eggs", true));
    c.append(entry("e4", "l1", "jam", false));
    let (n, save) = c.delete_many(&ByListId { list_id: "l1".to_string() });
    assert_eq!(n, 3);
    assert!(save.is_some());
    assert_eq!(c.count(), 1);
    assert_eq!(c.get_all()[0].id, "e2");
}

#[test]
fn delete_many_without_match_writes_nothing() {
    let mut c = empty_entries();
    c.append(entry("e1", "l1", "milk", false));
    let (n, save) = c.delete_many(&ByListId { list_id: "nope".to_string() });
    assert_eq!(n, 0);
    assert!(save.is_none());
    assert_eq!(c.count(), 1);
}

#[test]
fn delete_many_keeps_survivor_order() {
    let mut c = empty_entries();
    c.append(entry("e1", "l1", "a", false));
    c.append(entry("e2", "l2", "b", false));
    c.append(entry("e3", "l1", "c", false));
    c.append(entry("e4", "l3", "d", false));
    let (n, _) = c.delete_many(&ByListId { list_id: "l1".to_string() });
    assert_eq!(n, 2);
    assert_eq!(c.get_all()[0].id, "e2");
    assert_eq!(c.get_all()[1].id, "e4");
}

#[test]
fn patch_one_updates_first_match_in_place() {
    let mut c = empty_lists();
    c.append(list("a", "old"));
    c.append(list("b", "keep"));
    let patched = c.patch_one(
        &ById { id: "a".to_string() },
        &ListPatch { name: Some("new".to_string()) },
    );
    let (copy, _save) = patched.unwrap();
    assert_eq!(copy.id, "a");
    assert_eq!(copy.name, "new");
    assert_eq!(c.get_all()[0].name, "new");
    assert_eq!(c.get_all()[1].name, "keep");
    assert_eq!(c.count(), 2);
}

#[test]
fn patch_one_leaves_unnamed_fields_alone() {
    let mut c = empty_entries();
    c.append(entry("e1", "l1", "milk", false));
    let patched = c.patch_one(
        &ById { id: "e1".to_string() },
        &EntryPatch { list_id: None, name: None, done: Some(true) },
    );
    let (copy, _save) = patched.unwrap();
    assert_eq!(copy.list_id, "l1");
    assert_eq!(copy.name, "milk");
    assert!(copy.done);
    assert!(c.get_all()[0].done);
}

#[test]
fn patch_one_on_nonexistent_id_writes_nothing() {
    let mut c = empty_lists();
    c.append(list("a", "first"));
    let patched = c.patch_one(
        &ById { id: "missing".to_string() },
        &ListPatch { name: Some("new".to_string()) },
    );
    assert!(patched.is_none());
    assert_eq!(c.get_all()[0].name, "first");
}

#[test]
fn put_one_replaces_an_existing_match() {
    let mut c = empty_lists();
    c.append(list("a", "X"));
    let (returned, _save) = c.put_one(&ById { id: "a".to_string() }, list("a", "Y"));
    assert_eq!(returned.name, "Y");
    assert_eq!(c.count(), 1);
    assert_eq!(c.get_all()[0].id, "a");
    assert_eq!(c.get_all()[0].name, "Y");
}

#[test]
fn put_one_appends_when_nothing_matches() {
    let mut c = empty_lists();
    c.append(list("a", "X"));
    let (returned, _save) = c.put_one(&ById { id: "b".to_string() }, list("b", "Z"));
    assert_eq!(returned.id, "b");
    assert_eq!(c.count(), 2);
    assert_eq!(c.get_all()[1].name, "Z");
}

#[test]
fn get_filename_joins_directory_name_and_extension() {
    let c = empty_lists();
    assert_eq!(c.get_filename(), "db/list.json");
}
