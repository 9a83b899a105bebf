//! The disk codec: what mutations hand back to be written, and that a
//! freshly constructed collection over a saved body equals the saved
//! state.

use prototype_db::errors::StoreError;
use prototype_db::query::ById;
use prototype_db::query::ListPatch;
use prototype_db::records::Entry;
use prototype_db::records::List;
use prototype_db::store::Collection;
use prototype_db::store::SaveRequest;

const EMPTY: &str = "{\"count\": 0, \"data\": []}";

fn reload_lists(req: &SaveRequest) -> Collection<List> {
    Collection::<List>::new("list".to_string(), "db", Some(req.content.as_str())).unwrap()
}

#[test]
fn absent_file_is_not_found() {
    let r = Collection::<List>::new("list".to_string(), "db", None);
    assert!(matches!(r, Err(StoreError::NotFound)));
}

#[test]
fn garbage_file_is_a_parse_error() {
    let r = Collection::<List>::new("list".to_string(), "db", Some("not json at all"));
    assert!(matches!(r, Err(StoreError::Parse)));
    let r = Collection::<List>::new("list".to_string(), "db", Some("{\"data\": []}"));
    assert!(matches!(r, Err(StoreError::Parse)));
    let r = Collection::<List>::new("list".to_string(), "db", Some("{\"count\": 0, \"data\": [}"));
    assert!(matches!(r, Err(StoreError::Parse)));
}

#[test]
fn oversized_count_is_a_parse_error() {
    let body = "{\"count\": 99999999999999999999999999999, \"data\": []}";
    let r = Collection::<List>::new("list".to_string(), "db", Some(body));
    assert!(matches!(r, Err(StoreError::Parse)));
}

#[test]
fn trailing_text_is_a_parse_error() {
    let body = "{\"count\": 0, \"data\": []} extra";
    let r = Collection::<List>::new("list".to_string(), "db", Some(body));
    assert!(matches!(r, Err(StoreError::Parse)));
}

#[test]
fn count_field_is_not_trusted_on_load() {
    let body = "{\"count\": 5, \"data\": [{\"_id\": \"a\", \"name\": \"X\"}]}";
    let c = Collection::<List>::new("list".to_string(), "db", Some(body)).unwrap();
    assert_eq!(c.count(), 1);
}

#[test]
fn whitespace_and_compact_forms_both_parse() {
    let pretty = "{\n  \"count\": 1,\n  \"data\": [\n    {\n      \"_id\": \"a\",\n      \"name\": \"X\"\n    }\n  ]\n}";
    let compact = "{\"count\":1,\"data\":[{\"_id\":\"a\",\"name\":\"X\"}]}";
    for body in [pretty, compact] {
        let c = Collection::<List>::new("list".to_string(), "db", Some(body)).unwrap();
        assert_eq!(c.count(), 1);
        assert_eq!(c.get_all()[0].id, "a");
        assert_eq!(c.get_all()[0].name, "X");
    }
}

#[test]
fn save_then_reload_reproduces_the_sequence() {
    let mut c = Collection::<List>::new("list".to_string(), "db", Some(EMPTY)).unwrap();
    c.append(List { id: "a".to_string(), name: "first".to_string() });
    c.append(List { id: "b".to_string(), name: "second".to_string() });
    let req = c.save();
    assert_eq!(req.filename, "db/list.json");
    let fresh = reload_lists(&req);
    assert_eq!(fresh.count(), 2);
    assert_eq!(fresh.get_all()[0].id, "a");
    assert_eq!(fresh.get_all()[0].name, "first");
    assert_eq!(fresh.get_all()[1].id, "b");
    assert_eq!(fresh.get_all()[1].name, "second");
}

#[test]
fn every_mutation_hands_back_the_body_that_reloads_to_its_state() {
    let mut c = Collection::<List>::new("list".to_string(), "db", Some(EMPTY)).unwrap();
    let req = c.append(List { id: "a".to_string(), name: "X".to_string() });
    let fresh = reload_lists(&req);
    assert_eq!(fresh.get_all()[0].name, "X");

    let (_r, req) = c.put_one(
        &ById { id: "a".to_string() },
        List { id: "a".to_string(), name: "Y".to_string() },
    );
    let fresh = reload_lists(&req);
    assert_eq!(fresh.count(), 1);
    assert_eq!(fresh.get_all()[0].name, "Y");

    let (_copy, req) = c
        .patch_one(
            &ById { id: "a".to_string() },
            &ListPatch { name: Some("Z".to_string()) },
        )
        .unwrap();
    let fresh = reload_lists(&req);
    assert_eq!(fresh.get_all()[0].name, "Z");

    let (_gone, req) = c.delete_one(&ById { id: "a".to_string() }).unwrap();
    let fresh = reload_lists(&req);
    assert_eq!(fresh.count(), 0);
    assert!(fresh.get_all().is_empty());
}

#[test]
fn escaped_names_survive_the_round_trip() {
    let mut c = Collection::<List>::new("list".to_string(), "db", Some(EMPTY)).unwrap();
    let wild = "quote \" backslash \\ newline \n tab \t return \r done";
    c.append(List { id: "w".to_string(), name: wild.to_string() });
    let req = c.save();
    let fresh = reload_lists(&req);
    assert_eq!(fresh.get_all()[0].name, wild);
}

#[test]
fn unicode_names_survive_the_round_trip() {
    let mut c = Collection::<List>::new("list".to_string(), "db", Some(EMPTY)).unwrap();
    let name = "Einkäufe für die Woche — übermorgen";
    c.append(List { id: "u".to_string(), name: name.to_string() });
    let req = c.save();
    let fresh = reload_lists(&req);
    assert_eq!(fresh.get_all()[0].name, name);
}

#[test]
fn entries_with_both_done_marks_survive_the_round_trip() {
    let mut c = Collection::<Entry>::new("entry".to_string(), "db", Some(EMPTY)).unwrap();
    c.append(Entry {
        id: "e1".to_string(),
        list_id: "l1".to_string(),
        name: "milk".to_string(),
        done: false,
    });
    c.append(Entry {
        id: "e2".to_string(),
        list_id: "l1".to_string(),
        name: "bread".to_string(),
        done: true,
    });
    let req = c.save();
    let fresh =
        Collection::<Entry>::new("entry".to_string(), "db", Some(req.content.as_str())).unwrap();
    assert_eq!(fresh.count(), 2);
    assert!(!fresh.get_all()[0].done);
    assert!(fresh.get_all()[1].done);
    assert_eq!(fresh.get_all()[1].list_id, "l1");
}

#[test]
fn saved_body_is_readable_json_text() {
    let mut c = Collection::<List>::new("list".to_string(), "db", Some(EMPTY)).unwrap();
    let req = c.append(List { id: "a".to_string(), name: "X".to_string() });
    let expected = "{\n  \"count\": 1,\n  \"data\": [\n    {\n      \"_id\": \"a\",\n      \"name\": \"X\"\n    }\n  ]\n}";
    assert_eq!(req.content, expected);
}

#[test]
fn empty_collection_saves_an_empty_array() {
    let mut c = Collection::<List>::new("list".to_string(), "db", Some(EMPTY)).unwrap();
    let req = c.save();
    assert_eq!(req.content, "{\n  \"count\": 0,\n  \"data\": []\n}");
}

#[test]
fn short_escapes_in_a_file_are_understood() {
    let body = "{\"count\":1,\"data\":[{\"_id\":\"a\",\"name\":\"a\\\"b\\\\c\\nd\\te\\bf\\fg\\rh\"}]}";
    let c = Collection::<List>::new("list".to_string(), "db", Some(body)).unwrap();
    assert_eq!(c.get_all()[0].name, "a\"b\\c\nd\te\u{8}f\u{c}g\rh");
}

#[test]
fn unknown_escape_is_a_parse_error() {
    let body = "{\"count\":1,\"data\":[{\"_id\":\"a\",\"name\":\"a\\qb\"}]}";
    let r = Collection::<List>::new("list".to_string(), "db", Some(body));
    assert!(matches!(r, Err(StoreError::Parse)));
}

#[test]
fn error_descriptions_name_the_failure() {
    assert_eq!(StoreError::NotFound.describe(), "backing file not found");
    assert_eq!(StoreError::Parse.describe(), "backing file could not be parsed");
    assert_eq!(StoreError::Io.describe(), "writing the backing file failed");
}
