use crdt_merge::dedup::{dedup, jaccard_similarity, Similarity};
use crdt_merge::json::Json;

fn s(x: &str) -> Json {
    Json::Str(x.to_string())
}

fn num(x: i64) -> Json {
    Json::Number(x.to_string())
}

fn obj(fields: Vec<(&str, Json)>) -> Json {
    Json::object(fields.into_iter().map(|(k, v)| (k.to_string(), v)).collect())
}

fn ratio(sim: Similarity) -> f64 {
    sim.numerator as f64 / sim.denominator as f64
}

fn fraction(numerator: usize, denominator: usize) -> Option<Similarity> {
    Some(Similarity { numerator, denominator })
}

#[test]
fn dedup_no_duplicates() {
    let items = vec![
        obj(vec![("id", s("1")), ("name", s("Alice"))]),
        obj(vec![("id", s("2")), ("name", s("Bob"))]),
        obj(vec![("id", s("3")), ("name", s("Charlie"))]),
    ];
    let result = dedup(&items, Some("id"), None);
    assert_eq!(result.unique.len(), 3);
    assert_eq!(result.duplicates.len(), 0);
}

#[test]
fn dedup_exact_by_key() {
    let items = vec![
        obj(vec![("id", s("1")), ("name", s("Alice"))]),
        obj(vec![("id", s("1")), ("name", s("Alice Copy"))]),
        obj(vec![("id", s("2")), ("name", s("Bob"))]),
    ];
    let result = dedup(&items, Some("id"), None);
    assert_eq!(result.unique.len(), 2);
    assert_eq!(result.duplicates.len(), 1);
}

#[test]
fn dedup_fuzzy_similar_names() {
    let items = vec![
        obj(vec![("name", s("Jonathan Smith"))]),
        obj(vec![("name", s("Johnathan Smith"))]),
        obj(vec![("name", s("Bob Jones"))]),
    ];
    // threshold 0.5
    let result = dedup(&items, Some("name"), fraction(1, 2));
    assert_eq!(result.unique.len(), 2);
    assert_eq!(result.duplicates.len(), 1);
    assert!(ratio(result.duplicates[0].similarity) > 0.5);
}

#[test]
fn dedup_no_key_exact_match() {
    let items = vec![
        obj(vec![("a", num(1)), ("b", num(2))]),
        obj(vec![("a", num(1)), ("b", num(2))]),
        obj(vec![("a", num(3)), ("b", num(4))]),
    ];
    let result = dedup(&items, None, None);
    assert_eq!(result.unique.len(), 2);
    assert_eq!(result.duplicates.len(), 1);
}

#[test]
fn dedup_empty() {
    let items: Vec<Json> = vec![];
    let result = dedup(&items, Some("id"), None);
    assert!(result.unique.is_empty());
    assert!(result.duplicates.is_empty());
}

#[test]
fn dedup_high_threshold_no_fuzzy() {
    let items = vec![obj(vec![("name", s("Alice"))]), obj(vec![("name", s("Alicia"))])];
    // threshold 0.99
    let result = dedup(&items, Some("name"), fraction(99, 100));
    assert_eq!(result.unique.len(), 2); // threshold too high for fuzzy match
}

#[test]
fn dedup_low_threshold_catches_more() {
    let items = vec![obj(vec![("name", s("cat"))]), obj(vec![("name", s("car"))])];
    // threshold 0.3
    let result = dedup(&items, Some("name"), fraction(3, 10));
    // "cat" and "car" share bigrams "ca" out of {"ca","at"} ∪ {"ca","ar"} = 3 → 1/3 ≈ 0.33
    assert_eq!(result.unique.len(), 1);
    assert_eq!(result.duplicates.len(), 1);
}

#[test]
fn dedup_multiple_duplicates() {
    let items = vec![
        obj(vec![("id", s("1"))]),
        obj(vec![("id", s("1"))]),
        obj(vec![("id", s("1"))]),
        obj(vec![("id", s("2"))]),
    ];
    let result = dedup(&items, Some("id"), None);
    assert_eq!(result.unique.len(), 2);
    assert_eq!(result.duplicates.len(), 2);
}

// Jaccard similarity unit tests

#[test]
fn jaccard_identical_strings() {
    assert_eq!(ratio(jaccard_similarity("hello", "hello")), 1.0);
}

#[test]
fn jaccard_completely_different() {
    let sim = ratio(jaccard_similarity("abc", "xyz"));
    assert_eq!(sim, 0.0);
}

#[test]
fn jaccard_case_insensitive() {
    assert_eq!(ratio(jaccard_similarity("Hello", "hello")), 1.0);
}

#[test]
fn jaccard_empty_strings() {
    assert_eq!(ratio(jaccard_similarity("", "")), 1.0);
}

#[test]
fn jaccard_one_empty() {
    // One empty, one not: should be 0
    let sim = ratio(jaccard_similarity("hello", ""));
    assert!(sim <= 0.2); // depends on single-char handling
}
