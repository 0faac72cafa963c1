use crdt_merge::json::Json;
use crdt_merge::merge::{merge, MergeOptions, Strategy};

fn s(x: &str) -> Json {
    Json::Str(x.to_string())
}

fn num(x: i64) -> Json {
    Json::Number(x.to_string())
}

fn obj(fields: Vec<(&str, Json)>) -> Json {
    Json::object(fields.into_iter().map(|(k, v)| (k.to_string(), v)).collect())
}

fn field<'a>(v: &'a Json, k: &str) -> &'a Json {
    v.get(k).expect("field present")
}

#[test]
fn merge_no_overlap() {
    let a = vec![obj(vec![("id", s("1")), ("name", s("Alice"))])];
    let b = vec![obj(vec![("id", s("2")), ("name", s("Bob"))])];
    let result = merge(&a, &b, None);
    assert_eq!(result.len(), 2);
}

#[test]
fn merge_full_overlap_lww() {
    let a = vec![obj(vec![("id", s("1")), ("name", s("Alice")), ("score", num(90))])];
    let b = vec![obj(vec![("id", s("1")), ("name", s("Alicia")), ("score", num(95))])];
    let result = merge(&a, &b, None);
    assert_eq!(result.len(), 1);
    assert_eq!(*field(&result[0], "name"), s("Alicia"));
    assert_eq!(*field(&result[0], "score"), num(95));
}

#[test]
fn merge_partial_overlap() {
    let a = vec![
        obj(vec![("id", s("1")), ("name", s("Alice"))]),
        obj(vec![("id", s("2")), ("name", s("Bob"))]),
    ];
    let b = vec![
        obj(vec![("id", s("2")), ("name", s("Bobby"))]),
        obj(vec![("id", s("3")), ("name", s("Charlie"))]),
    ];
    let result = merge(&a, &b, None);
    assert_eq!(result.len(), 3);
    // id=2 should have merged
    let bob = result.iter().find(|r| r.get("id") == Some(&s("2"))).unwrap();
    assert_eq!(*field(bob, "name"), s("Bobby")); // LWW: b wins
}

#[test]
fn merge_keep_a_strategy() {
    let a = vec![obj(vec![("id", s("1")), ("val", s("a_val"))])];
    let b = vec![obj(vec![("id", s("1")), ("val", s("b_val"))])];
    let opts = MergeOptions {
        key: "id".to_string(),
        strategy: Strategy::KeepA,
    };
    let result = merge(&a, &b, Some(opts));
    assert_eq!(*field(&result[0], "val"), s("a_val"));
}

#[test]
fn merge_keep_b_strategy() {
    let a = vec![obj(vec![("id", s("1")), ("val", s("a_val"))])];
    let b = vec![obj(vec![("id", s("1")), ("val", s("b_val"))])];
    let opts = MergeOptions {
        key: "id".to_string(),
        strategy: Strategy::KeepB,
    };
    let result = merge(&a, &b, Some(opts));
    assert_eq!(*field(&result[0], "val"), s("b_val"));
}

#[test]
fn merge_new_fields_from_b() {
    let a = vec![obj(vec![("id", s("1")), ("name", s("Alice"))])];
    let b = vec![obj(vec![("id", s("1")), ("name", s("Alice")), ("email", s("alice@example.com"))])];
    let result = merge(&a, &b, None);
    assert_eq!(*field(&result[0], "email"), s("alice@example.com"));
}

#[test]
fn merge_custom_key() {
    let a = vec![obj(vec![("uid", s("x1")), ("val", num(10))])];
    let b = vec![obj(vec![("uid", s("x1")), ("val", num(20))])];
    let opts = MergeOptions {
        key: "uid".to_string(),
        strategy: Strategy::LWW,
    };
    let result = merge(&a, &b, Some(opts));
    assert_eq!(result.len(), 1);
    assert_eq!(*field(&result[0], "val"), num(20));
}

#[test]
fn merge_empty_a() {
    let a: Vec<Json> = vec![];
    let b = vec![obj(vec![("id", s("1")), ("name", s("Bob"))])];
    let result = merge(&a, &b, None);
    assert_eq!(result.len(), 1);
    assert_eq!(*field(&result[0], "name"), s("Bob"));
}

#[test]
fn merge_empty_b() {
    let a = vec![obj(vec![("id", s("1")), ("name", s("Alice"))])];
    let b: Vec<Json> = vec![];
    let result = merge(&a, &b, None);
    assert_eq!(result.len(), 1);
    assert_eq!(*field(&result[0], "name"), s("Alice"));
}

#[test]
fn merge_both_empty() {
    let a: Vec<Json> = vec![];
    let b: Vec<Json> = vec![];
    let result = merge(&a, &b, None);
    assert!(result.is_empty());
}

#[test]
fn merge_numeric_keys() {
    let a = vec![obj(vec![("id", num(1)), ("val", s("a"))])];
    let b = vec![obj(vec![("id", num(1)), ("val", s("b"))])];
    let result = merge(&a, &b, None);
    assert_eq!(result.len(), 1);
    assert_eq!(*field(&result[0], "val"), s("b"));
}

#[test]
fn merge_preserves_unmatched_fields_from_a() {
    let a = vec![obj(vec![("id", s("1")), ("name", s("Alice")), ("extra_a", Json::Bool(true))])];
    let b = vec![obj(vec![("id", s("1")), ("name", s("Alicia")), ("extra_b", Json::Bool(false))])];
    let result = merge(&a, &b, None);
    assert_eq!(*field(&result[0], "extra_a"), Json::Bool(true));
    assert_eq!(*field(&result[0], "extra_b"), Json::Bool(false));
}

#[test]
fn merge_many_records() {
    let a: Vec<Json> = (0..100)
        .map(|i: i64| obj(vec![("id", s(&i.to_string())), ("source", s("a"))]))
        .collect();
    let b: Vec<Json> = (50..150)
        .map(|i: i64| obj(vec![("id", s(&i.to_string())), ("source", s("b"))]))
        .collect();
    let result = merge(&a, &b, None);
    assert_eq!(result.len(), 150); // 100 from a (50 merged) + 50 only in b
}
