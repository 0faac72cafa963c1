use crdt_merge::json::Json;
use crdt_merge::{dedup, diff, merge, merge_json, Strategy};

fn s(x: &str) -> Json {
    Json::Str(x.to_string())
}

fn num(x: i64) -> Json {
    Json::Number(x.to_string())
}

fn obj(fields: Vec<(&str, Json)>) -> Json {
    Json::object(fields.into_iter().map(|(k, v)| (k.to_string(), v)).collect())
}

fn field<'a>(v: &'a Json, k: &str) -> &'a Json {
    v.get(k).expect("field present")
}

// ===========================================================================
// JSON Merge integration tests
// ===========================================================================

#[test]
fn json_merge_flat_objects() {
    let a = obj(vec![("name", s("Alice")), ("age", num(30))]);
    let b = obj(vec![("name", s("Alicia")), ("email", s("a@b.c"))]);
    let result = merge_json(&a, &b, None);
    assert_eq!(*field(&result, "name"), s("Alicia")); // b wins
    assert_eq!(*field(&result, "age"), num(30)); // only in a
    assert_eq!(*field(&result, "email"), s("a@b.c")); // only in b
}

#[test]
fn json_merge_nested_objects() {
    let a = obj(vec![(
        "user",
        obj(vec![
            ("name", s("Alice")),
            ("address", obj(vec![("city", s("NYC")), ("zip", s("10001"))])),
        ]),
    )]);
    let b = obj(vec![(
        "user",
        obj(vec![
            ("name", s("Alicia")),
            ("address", obj(vec![("city", s("LA")), ("state", s("CA"))])),
        ]),
    )]);
    let result = merge_json(&a, &b, None);
    let user = field(&result, "user");
    let address = field(user, "address");
    assert_eq!(*field(user, "name"), s("Alicia"));
    assert_eq!(*field(address, "city"), s("LA"));
    assert_eq!(*field(address, "zip"), s("10001"));
    assert_eq!(*field(address, "state"), s("CA"));
}

#[test]
fn json_merge_arrays() {
    let a = obj(vec![("tags", Json::Array(vec![s("rust"), s("crdt")]))]);
    let b = obj(vec![("tags", Json::Array(vec![s("crdt"), s("merge"), s("data")]))]);
    let result = merge_json(&a, &b, None);
    let tags = match field(&result, "tags") {
        Json::Array(items) => items,
        other => panic!("not an array: {:?}", other),
    };
    assert!(tags.contains(&s("rust")));
    assert!(tags.contains(&s("crdt")));
    assert!(tags.contains(&s("merge")));
    assert!(tags.contains(&s("data")));
}

#[test]
fn json_merge_keep_a() {
    let a = obj(vec![("val", s("a"))]);
    let b = obj(vec![("val", s("b"))]);
    let result = merge_json(&a, &b, Some(Strategy::KeepA));
    assert_eq!(*field(&result, "val"), s("a"));
}

#[test]
fn json_merge_primitives() {
    let a = num(42);
    let b = num(99);
    let result = merge_json(&a, &b, None);
    assert_eq!(result, num(99)); // LWW: b wins
}

#[test]
fn json_merge_null_handling() {
    let a = obj(vec![("x", Json::Null)]);
    let b = obj(vec![("x", s("value"))]);
    let result = merge_json(&a, &b, None);
    assert_eq!(*field(&result, "x"), s("value"));
}

// ===========================================================================
// Diff integration tests
// ===========================================================================

#[test]
fn diff_all_added() {
    let a: Vec<Json> = vec![];
    let b = vec![obj(vec![("id", s("1")), ("name", s("Alice"))])];
    let result = diff(&a, &b, None);
    assert_eq!(result.added.len(), 1);
    assert_eq!(result.removed.len(), 0);
    assert_eq!(result.modified.len(), 0);
}

#[test]
fn diff_all_removed() {
    let a = vec![obj(vec![("id", s("1")), ("name", s("Alice"))])];
    let b: Vec<Json> = vec![];
    let result = diff(&a, &b, None);
    assert_eq!(result.added.len(), 0);
    assert_eq!(result.removed.len(), 1);
}

#[test]
fn diff_modified_fields() {
    let a = vec![obj(vec![("id", s("1")), ("name", s("Alice")), ("age", num(30))])];
    let b = vec![obj(vec![("id", s("1")), ("name", s("Alicia")), ("age", num(31))])];
    let result = diff(&a, &b, None);
    assert_eq!(result.modified.len(), 1);
    let changes = &result.modified[0].changes;
    assert!(changes.iter().any(|c| c.field == "name"));
    assert!(changes.iter().any(|c| c.field == "age"));
}

#[test]
fn diff_unchanged() {
    let a = vec![obj(vec![("id", s("1")), ("name", s("Alice"))])];
    let b = vec![obj(vec![("id", s("1")), ("name", s("Alice"))])];
    let result = diff(&a, &b, None);
    assert_eq!(result.unchanged.len(), 1);
    assert_eq!(result.modified.len(), 0);
}

#[test]
fn diff_mixed_changes() {
    let a = vec![
        obj(vec![("id", s("1")), ("name", s("Alice"))]),
        obj(vec![("id", s("2")), ("name", s("Bob"))]),
        obj(vec![("id", s("3")), ("name", s("Charlie"))]),
    ];
    let b = vec![
        obj(vec![("id", s("1")), ("name", s("Alice"))]), // unchanged
        obj(vec![("id", s("2")), ("name", s("Bobby"))]), // modified
        obj(vec![("id", s("4")), ("name", s("Dave"))]),  // added
    ];
    let result = diff(&a, &b, None);
    assert_eq!(result.unchanged.len(), 1);
    assert_eq!(result.modified.len(), 1);
    assert_eq!(result.added.len(), 1);
    assert_eq!(result.removed.len(), 1); // id=3
}

#[test]
fn diff_summary_format() {
    let a = vec![obj(vec![("id", s("1")), ("name", s("A"))])];
    let b = vec![obj(vec![("id", s("1")), ("name", s("B"))])];
    let result = diff(&a, &b, None);
    assert!(result.summary.contains("modified"));
}

#[test]
fn diff_new_field_in_b() {
    let a = vec![obj(vec![("id", s("1")), ("name", s("Alice"))])];
    let b = vec![obj(vec![("id", s("1")), ("name", s("Alice")), ("email", s("a@b.c"))])];
    let result = diff(&a, &b, None);
    assert_eq!(result.modified.len(), 1);
    let change = result.modified[0]
        .changes
        .iter()
        .find(|c| c.field == "email")
        .unwrap();
    assert_eq!(change.old, Json::Null);
    assert_eq!(change.new, s("a@b.c"));
}

// ===========================================================================
// End-to-end: merge then diff should show no changes
// ===========================================================================

#[test]
fn merge_then_diff_empty() {
    let a = vec![
        obj(vec![("id", s("1")), ("name", s("Alice"))]),
        obj(vec![("id", s("2")), ("name", s("Bob"))]),
    ];
    let b = vec![
        obj(vec![("id", s("2")), ("name", s("Bobby"))]),
        obj(vec![("id", s("3")), ("name", s("Charlie"))]),
    ];
    let merged = merge(&a, &b, None);
    // Diff merged vs itself should show no changes
    let d = diff(&merged, &merged, None);
    assert!(d.added.is_empty());
    assert!(d.removed.is_empty());
    assert!(d.modified.is_empty());
    assert_eq!(d.unchanged.len(), merged.len());
}

// ===========================================================================
// Dedup + merge pipeline
// ===========================================================================

#[test]
fn dedup_then_merge() {
    let data = vec![
        obj(vec![("id", s("1")), ("name", s("Alice"))]),
        obj(vec![("id", s("1")), ("name", s("Alice dup"))]),
        obj(vec![("id", s("2")), ("name", s("Bob"))]),
    ];
    let deduped = dedup(&data, Some("id"), None);
    assert_eq!(deduped.unique.len(), 2);

    let other = vec![obj(vec![("id", s("3")), ("name", s("Charlie"))])];
    let merged = merge(&deduped.unique, &other, None);
    assert_eq!(merged.len(), 3);
}
