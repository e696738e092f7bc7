use docdb::collection::Collection;
use docdb::database::Database;
use docdb::document::Document;
use docdb::error::DbError;
use docdb::index::{Index, IndexType};
use docdb::keytext::value_text;
use docdb::query::Query;
use docdb::uuid::generate_uuid;
use docdb::value::Value;

fn s(x: &str) -> Value {
    Value::Str(x.to_string())
}

fn n(x: i64) -> Value {
    Value::Number(x)
}

fn obj(entries: Vec<(&str, Value)>) -> Value {
    Value::Object(entries.into_iter().map(|(k, v)| (k.to_string(), v)).collect())
}

fn doc(entries: Vec<(&str, Value)>) -> Document {
    match Document::from_value(obj(entries)) {
        Ok(d) => d,
        Err(_) => panic!("not an object"),
    }
}

fn query(entries: Vec<(&str, Value)>) -> Query {
    Query::new(entries.into_iter().map(|(k, v)| (k.to_string(), v)).collect())
}

fn get_num(d: &Document, path: &str) -> Option<i64> {
    match d.get(path) {
        Some(Value::Number(x)) => Some(x),
        _ => None,
    }
}

fn get_str(d: &Document, path: &str) -> Option<String> {
    match d.get(path) {
        Some(Value::Str(x)) => Some(x),
        _ => None,
    }
}

fn scores(c: &Collection) -> Collection {
    let mut c2 = c.copy();
    c2.insert(doc(vec![("name", s("a")), ("score", n(3))]), "id-a".to_string()).unwrap();
    c2.insert(doc(vec![("name", s("b")), ("score", n(7))]), "id-b".to_string()).unwrap();
    c2
}

#[test]
fn example_find_update_delete() {
    let mut c = scores(&Collection::new("people"));
    let found = c.find(&query(vec![("score", obj(vec![("$gte", n(5))]))]));
    assert_eq!(found.len(), 1);
    assert_eq!(get_str(&found[0], "name"), Some("b".to_string()));
    let updated = c
        .update(&query(vec![("name", s("a"))]), &obj(vec![("$inc", obj(vec![("score", n(10))]))]))
        .unwrap();
    assert_eq!(updated, 1);
    let a = c.find_one(&query(vec![("name", s("a"))])).unwrap();
    assert_eq!(get_num(&a, "score"), Some(13));
    // "b" keeps its score of 7, which is below 10: it is the one document removed.
    assert_eq!(c.delete(&query(vec![("score", obj(vec![("$lt", n(10))]))])), 1);
    assert_eq!(c.count(), 1);
    assert_eq!(c.find_one(&Query::empty()).unwrap().id(), "id-a");
}

#[test]
fn find_by_id_returns_inserted_document() {
    let mut c = Collection::new("c");
    let id = c.insert(doc(vec![("x", n(1))]), "fresh".to_string()).unwrap();
    assert_eq!(id, "fresh");
    let found = c.find(&query(vec![("id", s("fresh"))]));
    assert_eq!(found.len(), 1);
    assert_eq!(found[0].id(), "fresh");
    assert_eq!(get_num(&found[0], "x"), Some(1));
}

#[test]
fn supplied_id_is_kept() {
    let mut c = Collection::new("c");
    let id = c.insert(doc(vec![("id", s("mine")), ("x", n(1))]), "fresh".to_string()).unwrap();
    assert_eq!(id, "mine");
    assert_eq!(c.find_one(&query(vec![("id", s("mine"))])).unwrap().id(), "mine");
}

#[test]
fn duplicate_id_is_refused() {
    let mut c = Collection::new("c");
    c.insert(doc(vec![("id", s("k"))]), "f1".to_string()).unwrap();
    let r = c.insert(doc(vec![("id", s("k"))]), "f2".to_string());
    assert_eq!(r, Err(DbError::DuplicateId));
    assert_eq!(c.count(), 1);
}

#[test]
fn empty_id_is_refused() {
    let mut c = Collection::new("c");
    let r = c.insert(doc(vec![("x", n(1))]), String::new());
    assert_eq!(r, Err(DbError::MalformedInput));
    assert_eq!(c.count(), 0);
}

#[test]
fn index_path_equals_scan_path() {
    let mut c = Collection::new("c");
    for (i, tag) in ["red", "blue", "red", "green", "red"].iter().enumerate() {
        c.insert(doc(vec![("tag", s(tag)), ("n", n(i as i64))]), format!("d{}", i)).unwrap();
    }
    let q = query(vec![("tag", s("red")), ("n", obj(vec![("$gt", n(0))]))]);
    let scanned: Vec<String> = c.find(&q).iter().map(|d| d.id().to_string()).collect();
    c.create_index("by_tag", &vec!["tag".to_string()], "multi").unwrap();
    let mut indexed: Vec<String> = c.find(&q).iter().map(|d| d.id().to_string()).collect();
    indexed.sort();
    assert_eq!(scanned, vec!["d2".to_string(), "d4".to_string()]);
    assert_eq!(indexed, scanned);
}

#[test]
fn unique_index_refuses_second_and_leaves_state() {
    let mut c = Collection::new("c");
    c.create_index("email", &vec!["email".to_string()], "unique").unwrap();
    c.insert(doc(vec![("email", s("a@x"))]), "one".to_string()).unwrap();
    let r = c.insert(doc(vec![("email", s("a@x"))]), "two".to_string());
    assert_eq!(r, Err(DbError::UniqueViolation));
    assert_eq!(c.count(), 1);
    let found = c.find(&query(vec![("email", s("a@x"))]));
    assert_eq!(found.len(), 1);
    assert_eq!(found[0].id(), "one");
}

#[test]
fn unique_backfill_failure_installs_nothing() {
    let mut c = Collection::new("c");
    c.insert(doc(vec![("k", n(1))]), "a".to_string()).unwrap();
    c.insert(doc(vec![("k", n(1))]), "b".to_string()).unwrap();
    let r = c.create_index("k", &vec!["k".to_string()], "unique");
    assert_eq!(r, Err(DbError::UniqueViolation));
    assert_eq!(c.get_indexes().len(), 0);
}

#[test]
fn unknown_index_kind_is_refused() {
    let mut c = Collection::new("c");
    let r = c.create_index("k", &vec!["k".to_string()], "hash");
    assert_eq!(r, Err(DbError::UnknownIndexKind));
}

#[test]
fn multi_index_drops_key_when_last_id_leaves() {
    let mut ix = Index::new("m", &vec!["g".to_string()], IndexType::Multi);
    let d1 = doc(vec![("id", s("1")), ("g", s("k"))]);
    let d2 = doc(vec![("id", s("2")), ("g", s("k"))]);
    ix.add_document(&d1).unwrap();
    ix.add_document(&d2).unwrap();
    assert_eq!(ix.entries().len(), 1);
    assert_eq!(ix.entries()[0].1.len(), 2);
    ix.remove_document(&d1).unwrap();
    assert_eq!(ix.entries().len(), 1);
    ix.remove_document(&d2).unwrap();
    assert_eq!(ix.entries().len(), 0);
}

#[test]
fn single_index_last_writer_wins() {
    let mut ix = Index::new("s", &vec!["g".to_string()], IndexType::Single);
    ix.add_document(&doc(vec![("id", s("1")), ("g", s("k"))])).unwrap();
    ix.add_document(&doc(vec![("id", s("2")), ("g", s("k"))])).unwrap();
    assert_eq!(ix.entries().len(), 1);
    assert_eq!(ix.entries()[0].1, vec!["2".to_string()]);
}

#[test]
fn index_clear_drops_everything() {
    let mut ix = Index::new("s", &vec!["g".to_string()], IndexType::Unique);
    ix.add_document(&doc(vec![("id", s("1")), ("g", n(5))])).unwrap();
    ix.clear();
    assert_eq!(ix.entries().len(), 0);
    assert_eq!(ix.name(), "s");
}

#[test]
fn compound_key_joins_fields_and_missing_is_null() {
    let ix = Index::new("c", &vec!["a".to_string(), "b".to_string(), "c".to_string()], IndexType::Single);
    let d = doc(vec![("a", n(-12)), ("b", Value::Bool(true))]);
    assert_eq!(ix.key_for(&d), "-12|true|null");
}

#[test]
fn key_text_of_structures() {
    let v = Value::Array(vec![n(1), s("a\"b"), Value::Null, obj(vec![("k", Value::Bool(false))])]);
    assert_eq!(value_text(&v), "[1,\"a\\\"b\",null,{\"k\":false}]");
}

#[test]
fn set_then_get_nested_path() {
    let mut d = doc(vec![("a", n(1))]);
    d.apply_update(&obj(vec![("$set", obj(vec![("a.b.c", s("deep"))]))])).unwrap();
    assert_eq!(get_str(&d, "a.b.c"), Some("deep".to_string()));
    assert!(d.get("a.b.x").is_none());
}

#[test]
fn unset_then_get_is_absent() {
    let mut d = doc(vec![("a", n(1)), ("b", n(2))]);
    d.apply_update(&obj(vec![("$unset", obj(vec![("a", n(1))]))])).unwrap();
    assert!(d.get("a").is_none());
    assert_eq!(get_num(&d, "b"), Some(2));
}

#[test]
fn inc_twice_equals_inc_by_sum() {
    let mut d1 = doc(vec![("x", n(5))]);
    let mut d2 = doc(vec![("x", n(5))]);
    d1.apply_update(&obj(vec![("$inc", obj(vec![("x", n(3))]))])).unwrap();
    d1.apply_update(&obj(vec![("$inc", obj(vec![("x", n(4))]))])).unwrap();
    d2.apply_update(&obj(vec![("$inc", obj(vec![("x", n(7))]))])).unwrap();
    assert_eq!(get_num(&d1, "x"), Some(12));
    assert_eq!(get_num(&d2, "x"), Some(12));
    let mut d3 = doc(vec![]);
    d3.apply_update(&obj(vec![("$inc", obj(vec![("y", n(2))]))])).unwrap();
    assert_eq!(get_num(&d3, "y"), Some(2));
}

#[test]
fn inc_on_text_is_type_mismatch() {
    let mut d = doc(vec![("x", s("t"))]);
    let r = d.apply_update(&obj(vec![("$inc", obj(vec![("x", n(1))]))]));
    assert_eq!(r, Err(DbError::TypeMismatch));
}

#[test]
fn inc_overflow_is_type_mismatch() {
    let mut d = doc(vec![("x", n(i64::MAX))]);
    let r = d.apply_update(&obj(vec![("$inc", obj(vec![("x", n(1))]))]));
    assert_eq!(r, Err(DbError::TypeMismatch));
    assert_eq!(get_num(&d, "x"), Some(i64::MAX));
}

#[test]
fn push_and_pull() {
    let mut d = doc(vec![("tags", Value::Array(vec![n(1), n(5), n(9)]))]);
    d.apply_update(&obj(vec![("$push", obj(vec![("tags", n(2))]))])).unwrap();
    d.apply_update(&obj(vec![("$pull", obj(vec![("tags", obj(vec![("$gt", n(4))]))]))])).unwrap();
    match d.get("tags") {
        Some(Value::Array(items)) => {
            let nums: Vec<i64> = items.iter().map(|v| match v { Value::Number(x) => *x, _ => -1 }).collect();
            assert_eq!(nums, vec![1, 2]);
        },
        _ => panic!("tags missing"),
    }
    d.apply_update(&obj(vec![("$push", obj(vec![("fresh", s("v"))]))])).unwrap();
    match d.get("fresh") {
        Some(Value::Array(items)) => assert_eq!(items.len(), 1),
        _ => panic!("fresh missing"),
    }
}

#[test]
fn push_onto_non_array_is_type_mismatch() {
    let mut d = doc(vec![("x", n(1))]);
    let r = d.apply_update(&obj(vec![("$push", obj(vec![("x", n(1))]))]));
    assert_eq!(r, Err(DbError::TypeMismatch));
}

#[test]
fn every_operator_on_id_is_refused() {
    for op in ["$set", "$unset", "$inc", "$push", "$pull"] {
        let mut d = doc(vec![("id", s("keep")), ("x", n(1))]);
        let r = d.apply_update(&obj(vec![(op, obj(vec![("id", n(1))]))]));
        assert_eq!(r, Err(DbError::ReservedField));
        assert_eq!(d.id(), "keep");
        assert_eq!(get_num(&d, "x"), Some(1));
    }
}

#[test]
fn update_spec_must_be_object() {
    let mut d = doc(vec![("x", n(1))]);
    assert_eq!(d.apply_update(&n(3)), Err(DbError::MalformedInput));
}

#[test]
fn query_operators() {
    let d = doc(vec![("n", n(4)), ("s", s("hello world")), ("o", obj(vec![("k", n(1))]))]);
    let yes = |q: Query| assert!(q.matches(&d));
    let no = |q: Query| assert!(!q.matches(&d));
    yes(Query::empty());
    yes(query(vec![("n", obj(vec![("$eq", n(4))]))]));
    yes(query(vec![("n", obj(vec![("$ne", n(5))]))]));
    yes(query(vec![("missing", obj(vec![("$ne", n(5))]))]));
    yes(query(vec![("n", obj(vec![("$gt", n(3)), ("$lte", n(4))]))]));
    no(query(vec![("n", obj(vec![("$lt", n(4))]))]));
    yes(query(vec![("n", obj(vec![("$in", Value::Array(vec![n(1), n(4)]))]))]));
    no(query(vec![("n", obj(vec![("$nin", Value::Array(vec![n(4)]))]))]));
    yes(query(vec![("missing", obj(vec![("$nin", Value::Array(vec![n(4)]))]))]));
    yes(query(vec![("n", obj(vec![("$exists", Value::Bool(true))]))]));
    yes(query(vec![("missing", obj(vec![("$exists", Value::Bool(false))]))]));
    yes(query(vec![("s", obj(vec![("$regex", s("lo wo"))]))]));
    no(query(vec![("s", obj(vec![("$regex", s("l.o"))]))]));
    no(query(vec![("n", obj(vec![("$foo", n(1))]))]));
    yes(query(vec![("o.k", n(1))]));
    yes(query(vec![("$or", Value::Array(vec![obj(vec![("n", n(9))]), obj(vec![("n", n(4))])]))]));
    yes(query(vec![("$or", Value::Array(vec![]))]));
    no(query(vec![("$and", Value::Array(vec![obj(vec![("n", n(4))]), obj(vec![("s", s("x"))])]))]));
    no(query(vec![("$not", obj(vec![("n", n(4))]))]));
}

#[test]
fn query_introspection() {
    let q = query(vec![("a", n(1)), ("b", obj(vec![("$eq", s("x"))])), ("c", obj(vec![("$gt", n(1))]))]);
    assert!(q.has_simple_equality("a"));
    assert!(!q.has_simple_equality("b"));
    assert!(q.has_equality_operator("b").is_some());
    assert!(q.has_equality_operator("c").is_none());
    assert!(q.get_field_value("z").is_none());
    let ix = Index::new("i", &vec!["c".to_string(), "b".to_string()], IndexType::Single);
    assert_eq!(ix.can_use_for_query(&q), Some("b"));
}

#[test]
fn update_keeps_indexes_in_step() {
    let mut c = Collection::new("c");
    c.create_index("g", &vec!["g".to_string()], "multi").unwrap();
    c.insert(doc(vec![("g", s("old"))]), "a".to_string()).unwrap();
    let k = c.update(&query(vec![("g", s("old"))]), &obj(vec![("$set", obj(vec![("g", s("new"))]))])).unwrap();
    assert_eq!(k, 1);
    assert_eq!(c.find(&query(vec![("g", s("old"))])).len(), 0);
    assert_eq!(c.find(&query(vec![("g", s("new"))])).len(), 1);
}

#[test]
fn failed_update_leaves_document() {
    let mut c = Collection::new("c");
    c.insert(doc(vec![("x", s("t")), ("y", n(1))]), "a".to_string()).unwrap();
    let spec = obj(vec![("$set", obj(vec![("y", n(2))])), ("$inc", obj(vec![("x", n(1))]))]);
    let r = c.update(&Query::empty(), &spec);
    assert_eq!(r, Err(DbError::TypeMismatch));
    let d = c.find_one(&Query::empty()).unwrap();
    assert_eq!(get_num(&d, "y"), Some(1));
}

#[test]
fn delete_removes_from_indexes() {
    let mut c = scores(&Collection::new("c"));
    c.create_index("name", &vec!["name".to_string()], "unique").unwrap();
    assert_eq!(c.delete(&query(vec![("name", s("a"))])), 1);
    assert_eq!(c.count(), 1);
    c.insert(doc(vec![("name", s("a"))]), "again".to_string()).unwrap();
    assert_eq!(c.count(), 2);
}

#[test]
fn drop_index_reports_presence() {
    let mut c = Collection::new("c");
    c.create_index("i", &vec!["x".to_string()], "single").unwrap();
    c.create_index("i", &vec!["y".to_string()], "single").unwrap();
    assert_eq!(c.get_indexes(), vec!["i".to_string()]);
    assert!(c.drop_index("i"));
    assert!(!c.drop_index("i"));
}

#[test]
fn snapshot_round_trip() {
    let mut c = scores(&Collection::new("c"));
    c.create_index("name", &vec!["name".to_string()], "unique").unwrap();
    let snap = c.to_json();
    let mut c2 = Collection::new("c");
    c2.create_index("name", &vec!["name".to_string()], "unique").unwrap();
    c2.from_json(snap).unwrap();
    assert_eq!(c2.count(), 2);
    let b = c2.find_one(&query(vec![("name", s("b"))])).unwrap();
    assert_eq!(b.id(), "id-b");
}

#[test]
fn reload_with_duplicate_ids_is_refused() {
    let mut c = scores(&Collection::new("c"));
    let r = c.from_json(vec![doc(vec![("id", s("z"))]), doc(vec![("id", s("z"))])]);
    assert_eq!(r, Err(DbError::DuplicateId));
    assert_eq!(c.count(), 2);
}

#[test]
fn document_value_round_trip() {
    let d = doc(vec![("id", s("q")), ("a", n(1))]);
    let back = Document::from_value(d.to_value()).unwrap();
    assert_eq!(back.id(), "q");
    assert_eq!(get_num(&back, "a"), Some(1));
    assert!(back.get("id").is_some());
    assert_eq!(Document::from_value(n(1)).err(), Some(DbError::MalformedInput));
    assert_eq!(Document::from_value(obj(vec![("id", n(1))])).err(), Some(DbError::MalformedInput));
}

#[test]
fn database_collections() {
    let mut db = Database::new();
    assert!(!db.has_collection("a"));
    let c = db.collection("a");
    assert_eq!(c.name(), "a");
    assert!(db.has_collection("a"));
    assert_eq!(db.get_collections(), vec!["a".to_string()]);
    db.from_json(vec![("b".to_string(), vec![doc(vec![("id", s("1"))])])]).unwrap();
    assert!(!db.has_collection("a"));
    assert_eq!(db.collection("b").count(), 1);
    assert_eq!(db.to_json().len(), 1);
    assert!(db.drop_collection("b"));
    assert!(!db.drop_collection("b"));
}

#[test]
fn uuid_text_has_version_and_variant() {
    let bytes: Vec<u8> = (0u8..16).map(|b| b.wrapping_mul(37)).collect();
    let id = generate_uuid(&bytes);
    assert_eq!(id.len(), 36);
    assert_eq!(id, "00254a6f-94b9-4e03-a84d-7297bce1062b");
}

#[test]
fn error_messages() {
    assert_eq!(DbError::ReservedField.message(), "the id field cannot be updated");
}

#[test]
fn pull_needs_every_operator() {
    let mut d = doc(vec![("xs", Value::Array(vec![n(10), n(3), n(0)]))]);
    d.apply_update(&obj(vec![("$pull", obj(vec![("xs", obj(vec![("$gt", n(1)), ("$lt", n(5))]))]))])).unwrap();
    match d.get("xs") {
        Some(Value::Array(items)) => {
            let nums: Vec<i64> = items.iter().map(|v| match v { Value::Number(x) => *x, _ => -1 }).collect();
            assert_eq!(nums, vec![10, 0]);
        },
        _ => panic!("xs missing"),
    }
}

#[test]
fn set_below_id_is_refused() {
    let mut d = doc(vec![("id", s("k")), ("a", n(1))]);
    let r = d.apply_update(&obj(vec![("$set", obj(vec![("id.x", n(1))]))]));
    assert_eq!(r, Err(DbError::ReservedField));
    assert!(d.get("id.x").is_none());
    assert_eq!(d.id(), "k");
}

#[test]
fn repeated_keys_are_malformed() {
    let v = Value::Object(vec![("a".to_string(), n(1)), ("a".to_string(), n(2))]);
    assert_eq!(Document::from_value(v).err(), Some(DbError::MalformedInput));
}

#[test]
fn compound_index_does_not_hide_documents() {
    let mut c = Collection::new("c");
    c.create_index("ab", &vec!["a".to_string(), "b".to_string()], "multi").unwrap();
    c.insert(doc(vec![("a", n(1)), ("b", n(2))]), "x".to_string()).unwrap();
    assert_eq!(c.find(&query(vec![("a", n(1))])).len(), 1);
    assert!(c.find_one(&query(vec![("a", n(1))])).is_some());
}

#[test]
fn single_index_does_not_hide_documents() {
    let mut c = Collection::new("c");
    c.create_index("g", &vec!["g".to_string()], "single").unwrap();
    c.insert(doc(vec![("g", s("k"))]), "a".to_string()).unwrap();
    c.insert(doc(vec![("g", s("k"))]), "b".to_string()).unwrap();
    assert_eq!(c.find(&query(vec![("g", s("k"))])).len(), 2);
}

#[test]
fn key_text_escapes_control_characters() {
    let v = Value::Array(vec![s("a\nb\t\u{1}")]);
    assert_eq!(value_text(&v), "[\"a\\nb\\t\\u0001\"]");
}

#[test]
fn database_reload_refuses_shared_ids() {
    let mut db = Database::new();
    let r = db.from_json(vec![("c".to_string(), vec![doc(vec![("id", s("1"))]), doc(vec![("id", s("1"))])])]);
    assert_eq!(r, Err(DbError::DuplicateId));
}

#[test]
fn objects_compare_as_mappings() {
    let mut d = doc(vec![("id", s("x"))]);
    d.apply_update(&obj(vec![("$set", obj(vec![("o.b", n(1))]))])).unwrap();
    d.apply_update(&obj(vec![("$set", obj(vec![("o.a", n(2))]))])).unwrap();
    let q = query(vec![("o", obj(vec![("$eq", obj(vec![("a", n(2)), ("b", n(1))]))]))]);
    assert!(q.matches(&d));
    let q2 = query(vec![("o", obj(vec![("$eq", obj(vec![("a", n(2))]))]))]);
    assert!(!q2.matches(&d));
    assert!(obj(vec![("a", n(1)), ("b", n(2))]).equals(&obj(vec![("b", n(2)), ("a", n(1))])));
    assert!(!Value::Array(vec![n(1), n(2)]).equals(&Value::Array(vec![n(2), n(1)])));
}
