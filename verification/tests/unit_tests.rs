use crdt_merge::dedup::{dedup, jaccard_similarity, Similarity};
use crdt_merge::diff::diff;
use crdt_merge::json::Json;
use crdt_merge::json_merge::merge_json;
use crdt_merge::merge::{merge, MergeOptions, Strategy};
use crdt_merge::{GCounter, LWWRegister, ORSet, PNCounter};

fn s(x: &str) -> Json {
    Json::Str(x.to_string())
}

fn num(x: i64) -> Json {
    Json::Number(x.to_string())
}

fn obj(fields: Vec<(&str, Json)>) -> Json {
    Json::object(fields.into_iter().map(|(k, v)| (k.to_string(), v)).collect())
}

fn field<'a>(v: &'a Json, k: &str) -> &'a Json {
    v.get(k).expect("field present")
}

fn ratio(sim: Similarity) -> f64 {
    sim.numerator as f64 / sim.denominator as f64
}

#[test]
fn gcounter_basic() {
    let mut c = GCounter::new();
    c.increment("a");
    c.increment("a");
    c.increment("b");
    assert_eq!(c.value(), 3);
    assert_eq!(c.get("a"), 2);
    assert_eq!(c.get("b"), 1);
}

#[test]
fn gcounter_merge() {
    let mut a = GCounter::new();
    a.increment("x");
    a.increment("x");
    let mut b = GCounter::new();
    b.increment("x");
    b.increment("y");
    let merged = a.merge(&b);
    assert_eq!(merged.get("x"), 2); // max(2, 1)
    assert_eq!(merged.get("y"), 1);
    assert_eq!(merged.value(), 3);
}

#[test]
fn pncounter_basic() {
    let mut c = PNCounter::new();
    c.increment("a");
    c.increment("a");
    c.decrement("a");
    assert_eq!(c.value(), 1);
}

#[test]
fn lww_merge() {
    let a = LWWRegister::new("hello", 1);
    let b = LWWRegister::new("world", 2);
    let merged = a.merge(&b);
    assert_eq!(*merged.value(), "world");
}

#[test]
fn orset_add_remove() {
    let mut s = ORSet::new();
    s.add("a");
    s.add("b");
    assert!(s.contains(&"a"));
    s.remove(&"a");
    assert!(!s.contains(&"a"));
    assert!(s.contains(&"b"));
}

#[test]
fn jaccard_identical() {
    assert_eq!(ratio(jaccard_similarity("hello", "hello")), 1.0);
}

#[test]
fn jaccard_different() {
    let sim = ratio(jaccard_similarity("hello", "world"));
    assert!(sim < 0.5);
}

#[test]
fn jaccard_similar() {
    let sim = ratio(jaccard_similarity("Jonathan", "Johnathan"));
    assert!(sim > 0.5);
}

#[test]
fn dedup_exact() {
    let items = vec![
        obj(vec![("id", s("1")), ("name", s("Alice"))]),
        obj(vec![("id", s("1")), ("name", s("Alice"))]),
        obj(vec![("id", s("2")), ("name", s("Bob"))]),
    ];
    let result = dedup(&items, Some("id"), None);
    assert_eq!(result.unique.len(), 2);
    assert_eq!(result.duplicates.len(), 1);
}

#[test]
fn diff_basic() {
    let a = vec![
        obj(vec![("id", s("1")), ("name", s("Alice"))]),
        obj(vec![("id", s("2")), ("name", s("Bob"))]),
    ];
    let b = vec![
        obj(vec![("id", s("1")), ("name", s("Alice"))]),
        obj(vec![("id", s("3")), ("name", s("Charlie"))]),
    ];
    let result = diff(&a, &b, None);
    assert_eq!(result.added.len(), 1);
    assert_eq!(result.removed.len(), 1);
    assert_eq!(result.unchanged.len(), 1);
}

#[test]
fn merge_objects() {
    let a = obj(vec![("name", s("Alice")), ("age", num(30))]);
    let b = obj(vec![("name", s("Alicia")), ("email", s("a@b.c"))]);
    let result = merge_json(&a, &b, None);
    assert_eq!(*field(&result, "name"), s("Alicia"));
    assert_eq!(*field(&result, "age"), num(30));
    assert_eq!(*field(&result, "email"), s("a@b.c"));
}

#[test]
fn merge_arrays_union() {
    let a = Json::Array(vec![num(1), num(2), num(3)]);
    let b = Json::Array(vec![num(3), num(4), num(5)]);
    let result = merge_json(&a, &b, None);
    assert_eq!(result, Json::Array(vec![num(1), num(2), num(3), num(4), num(5)]));
}

#[test]
fn merge_basic() {
    let a = vec![obj(vec![("id", s("1")), ("name", s("Alice"))])];
    let b = vec![obj(vec![("id", s("2")), ("name", s("Bob"))])];
    let result = merge(&a, &b, None);
    assert_eq!(result.len(), 2);
}

#[test]
fn merge_conflict_lww() {
    let a = vec![obj(vec![("id", s("1")), ("name", s("Alice")), ("age", num(30))])];
    let b = vec![obj(vec![("id", s("1")), ("name", s("Alicia")), ("age", num(31))])];
    let result = merge(&a, &b, None);
    assert_eq!(result.len(), 1);
    assert_eq!(*field(&result[0], "name"), s("Alicia")); // b wins (LWW)
}

#[test]
fn merge_keep_a() {
    let a = vec![obj(vec![("id", s("1")), ("name", s("Alice"))])];
    let b = vec![obj(vec![("id", s("1")), ("name", s("Alicia"))])];
    let opts = MergeOptions {
        key: "id".to_string(),
        strategy: Strategy::KeepA,
    };
    let result = merge(&a, &b, Some(opts));
    assert_eq!(*field(&result[0], "name"), s("Alice"));
}
