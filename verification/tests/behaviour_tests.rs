use crdt_merge::dedup::{dedup, jaccard_of_lowercase, jaccard_similarity, Similarity};
use crdt_merge::input::{csv_cell, csv_records, parse_csv, parse_document, read_json_records, reader_for, Reader, Reading};
use crdt_merge::diff::{diff, format_diff_table};
use crdt_merge::json::Json;
use crdt_merge::json_merge::merge_json;
use crdt_merge::merge::{merge, parse_strategy, strategy_of_lowercase, MergeOptions, Strategy};
use crdt_merge::records::{csv_rows, records_from_json, records_to_csv};
use crdt_merge::{GCounter, LWWRegister, ORSet, PNCounter};

fn s(x: &str) -> Json {
    Json::Str(x.to_string())
}

fn num(x: i64) -> Json {
    Json::Number(x.to_string())
}

fn obj(fields: Vec<(&str, Json)>) -> Json {
    Json::object(fields.into_iter().map(|(k, v)| (k.to_string(), v)).collect())
}

fn field<'a>(v: &'a Json, k: &str) -> &'a Json {
    v.get(k).expect("field present")
}

fn pair(sim: Similarity) -> (usize, usize) {
    (sim.numerator, sim.denominator)
}

// ---------------------------------------------------------------------------
// Counters and registers
// ---------------------------------------------------------------------------

fn counter(entries: &[(&str, u64)]) -> GCounter {
    let mut c = GCounter::new();
    for (node, amount) in entries {
        c.increment_by(node, *amount);
    }
    c
}

#[test]
fn gcounter_laws_on_values() {
    let a = counter(&[("x", 4), ("y", 1)]);
    let b = counter(&[("x", 2), ("z", 7)]);
    let c = counter(&[("y", 9), ("z", 3)]);
    for node in ["x", "y", "z", "w"] {
        assert_eq!(a.merge(&b).get(node), b.merge(&a).get(node));
        assert_eq!(a.merge(&b).merge(&c).get(node), a.merge(&b.merge(&c)).get(node));
        assert_eq!(a.merge(&a).get(node), a.get(node));
        assert!(a.merge(&b).get(node) >= a.get(node));
        assert!(a.merge(&b).get(node) >= b.get(node));
    }
    assert_eq!(a.merge(&b).merge(&c).value(), 4 + 9 + 7);
}

#[test]
fn gcounter_missing_node_is_zero() {
    let a = counter(&[("x", 4)]);
    assert_eq!(a.get("nobody"), 0);
    let d = GCounter::default();
    assert_eq!(d.value(), 0);
}

#[test]
fn pncounter_laws_on_values() {
    let mut a = PNCounter::new();
    a.increment_by("x", 5);
    a.decrement_by("y", 2);
    let mut b = PNCounter::new();
    b.increment_by("y", 3);
    b.decrement_by("x", 4);
    let mut c = PNCounter::new();
    c.increment_by("x", 7);
    c.decrement_by("y", 1);
    assert_eq!(a.merge(&b).value(), b.merge(&a).value());
    assert_eq!(a.merge(&b).merge(&c).value(), a.merge(&b.merge(&c)).value());
    assert_eq!(a.merge(&a).value(), a.value());
    // positive: max per node = x 7, y 3; negative: x 4, y 2
    assert_eq!(a.merge(&b).merge(&c).value(), 7 + 3 - 4 - 2);
}

#[test]
fn lww_latest_write_wins_in_any_order() {
    let a = LWWRegister::new("a", 3);
    let b = LWWRegister::new("b", 7);
    let c = LWWRegister::new("c", 5);
    assert_eq!(*a.merge(&b).merge(&c).value(), "b");
    assert_eq!(*a.merge(&b.merge(&c)).value(), "b");
    assert_eq!(*c.merge(&a).merge(&b).value(), "b");
    assert_eq!(a.merge(&b).merge(&c).timestamp(), 7);
}

// ---------------------------------------------------------------------------
// Observed-remove set
// ---------------------------------------------------------------------------

#[test]
fn orset_add_returns_uuid_tags() {
    let mut set = ORSet::new();
    let t1 = set.add("x".to_string());
    let t2 = set.add("x".to_string());
    for t in [&t1, &t2] {
        let cs: Vec<char> = t.chars().collect();
        assert_eq!(cs.len(), 36);
        assert_eq!(cs[8], '-');
        assert_eq!(cs[13], '-');
        assert_eq!(cs[14], '4');
        assert_eq!(cs[18], '-');
        assert_eq!(cs[23], '-');
    }
    assert_ne!(t1, t2);
    assert_eq!(set.len(), 1);
}

#[test]
fn orset_remove_then_merge_with_stale_copy() {
    let mut a = ORSet::new();
    a.add("x".to_string());
    let stale = a.clone();
    a.remove(&"x".to_string());
    // the stale copy holds no tag that a has not seen removed
    let merged = a.merge(&stale);
    assert!(!merged.contains(&"x".to_string()));
    assert!(merged.is_empty());
}

#[test]
fn orset_merge_laws_on_values() {
    let mut a = ORSet::new();
    a.add("x".to_string());
    a.add("y".to_string());
    let mut b = ORSet::new();
    b.add("y".to_string());
    b.remove(&"y".to_string());
    b.add("z".to_string());
    let mut c = ORSet::new();
    c.add("w".to_string());
    assert_eq!(a.merge(&b).value(), b.merge(&a).value());
    assert_eq!(a.merge(&b).merge(&c).value(), a.merge(&b.merge(&c)).value());
    assert_eq!(a.merge(&a).value(), a.value());
    let all = a.merge(&b).merge(&c);
    assert_eq!(all.len(), 4);
    assert!(all.contains(&"y".to_string()));
}

// ---------------------------------------------------------------------------
// JSON values
// ---------------------------------------------------------------------------

#[test]
fn json_object_sorts_fields_and_later_wins() {
    let v = obj(vec![("b", num(1)), ("a", s("x")), ("b", num(2))]);
    assert_eq!(v.to_text(), "{\"a\":\"x\",\"b\":2}");
    assert_eq!(*field(&v, "b"), num(2));
    assert!(v.get("c").is_none());
    assert!(num(3).get("a").is_none());
}

#[test]
fn json_text_matches_serde_json() {
    let text = "quote\" back\\ nl\n tab\t ctl\u{1} del\u{7f} bell\u{8} ff\u{c} cr\r é";
    let mut map = serde_json::Map::new();
    map.insert("s".to_string(), serde_json::Value::String(text.to_string()));
    map.insert("n".to_string(), serde_json::Value::Null);
    map.insert("t".to_string(), serde_json::Value::Bool(true));
    map.insert(
        "a".to_string(),
        serde_json::Value::Array(vec![
            serde_json::Value::Number(serde_json::Number::from(-12)),
            serde_json::Value::Bool(false),
        ]),
    );
    let expected = serde_json::to_string(&serde_json::Value::Object(map)).unwrap();
    let ours = obj(vec![
        ("s", s(text)),
        ("n", Json::Null),
        ("t", Json::Bool(true)),
        ("a", Json::Array(vec![num(-12), Json::Bool(false)])),
    ]);
    assert_eq!(ours.to_text(), expected);
}

#[test]
fn json_equality_and_clone() {
    let a = obj(vec![("k", Json::Array(vec![num(1), s("two")]))]);
    let b = a.clone();
    assert_eq!(a, b);
    assert_ne!(a, obj(vec![("k", Json::Array(vec![num(1)]))]));
}

// ---------------------------------------------------------------------------
// Tabular merge
// ---------------------------------------------------------------------------

#[test]
fn merge_default_options() {
    let opts = MergeOptions::default();
    assert_eq!(opts.key, "id");
    assert_eq!(opts.strategy, Strategy::LWW);
    assert_eq!(Strategy::default(), Strategy::LWW);
}

#[test]
fn merge_orders_matched_then_unmatched() {
    let a = vec![
        obj(vec![("id", s("1")), ("v", s("a1"))]),
        obj(vec![("id", s("2")), ("v", s("a2"))]),
    ];
    let b = vec![
        obj(vec![("id", s("3")), ("v", s("b3"))]),
        obj(vec![("id", s("1")), ("v", s("b1")), ("w", Json::Bool(true))]),
    ];
    let result = merge(&a, &b, None);
    assert_eq!(result.len(), 3);
    assert_eq!(
        result[0],
        obj(vec![("id", s("1")), ("v", s("b1")), ("w", Json::Bool(true))])
    );
    assert_eq!(result[1], obj(vec![("id", s("2")), ("v", s("a2"))]));
    assert_eq!(result[2], obj(vec![("id", s("3")), ("v", s("b3"))]));
}

#[test]
fn merge_with_empty_side_keeps_records() {
    let a = vec![obj(vec![("id", s("1"))]), obj(vec![("id", s("2"))])];
    let empty: Vec<Json> = vec![];
    assert_eq!(merge(&a, &empty, None), a);
    assert_eq!(merge(&empty, &a, None), a);
}

#[test]
fn parse_strategy_names() {
    assert_eq!(parse_strategy("LWW"), Ok(Strategy::LWW));
    assert_eq!(parse_strategy("keep-a"), Ok(Strategy::KeepA));
    assert_eq!(parse_strategy("Keep_A"), Ok(Strategy::KeepA));
    assert_eq!(parse_strategy("keepa"), Ok(Strategy::KeepA));
    assert_eq!(parse_strategy("KEEPB"), Ok(Strategy::KeepB));
    assert_eq!(parse_strategy("keep_b"), Ok(Strategy::KeepB));
    assert_eq!(parse_strategy("keep-b"), Ok(Strategy::KeepB));
    assert_eq!(parse_strategy("newest"), Err("Unknown strategy: newest".to_string()));
}

// ---------------------------------------------------------------------------
// Deep JSON merge
// ---------------------------------------------------------------------------

#[test]
fn merge_json_with_itself_is_unchanged() {
    let a = obj(vec![
        ("tags", Json::Array(vec![s("x"), s("x"), s("y")])),
        ("inner", obj(vec![("n", num(1)), ("m", Json::Null)])),
    ]);
    assert_eq!(merge_json(&a, &a, None), a);
    assert_eq!(merge_json(&a, &a, Some(Strategy::KeepA)), a);
}

#[test]
fn merge_json_arrays_add_each_new_value_once() {
    let a = Json::Array(vec![num(1)]);
    let b = Json::Array(vec![num(2), num(2), num(1)]);
    assert_eq!(merge_json(&a, &b, None), Json::Array(vec![num(1), num(2)]));
    let a = Json::Array(vec![num(1), num(1)]);
    let b = Json::Array(vec![num(3), num(1), num(3), num(4)]);
    assert_eq!(merge_json(&a, &b, None), Json::Array(vec![num(1), num(1), num(3), num(4)]));
}

#[test]
fn merge_json_mixed_kinds_follow_strategy() {
    let a = obj(vec![("x", num(1))]);
    let b = Json::Array(vec![num(2)]);
    assert_eq!(merge_json(&a, &b, None), b);
    assert_eq!(merge_json(&a, &b, Some(Strategy::KeepB)), b);
    assert_eq!(merge_json(&a, &b, Some(Strategy::KeepA)), a);
}

// ---------------------------------------------------------------------------
// Diff
// ---------------------------------------------------------------------------

#[test]
fn diff_with_itself_is_all_unchanged() {
    let a = vec![
        obj(vec![("id", s("1")), ("name", s("Alice"))]),
        obj(vec![("id", s("2")), ("name", s("Bob"))]),
    ];
    let d = diff(&a, &a, None);
    assert_eq!(d.unchanged.len(), 2);
    assert!(d.added.is_empty() && d.removed.is_empty() && d.modified.is_empty());
    assert_eq!(d.summary, "+0 added, -0 removed, ~0 modified, =2 unchanged");
}

#[test]
fn diff_table_text() {
    let a = vec![
        obj(vec![("id", s("1")), ("name", s("Alice"))]),
        obj(vec![("id", s("2")), ("name", s("Bob"))]),
    ];
    let b = vec![
        obj(vec![("id", s("1")), ("name", s("Alicia"))]),
        obj(vec![("id", s("3")), ("name", s("Cy"))]),
    ];
    let d = diff(&a, &b, None);
    let expected = format!(
        "Summary: +1 added, -1 removed, ~1 modified, =0 unchanged\n{}\n\n+ ADDED:\n  + {{\"id\":\"3\",\"name\":\"Cy\"}}\n\n- REMOVED:\n  - {{\"id\":\"2\",\"name\":\"Bob\"}}\n\n~ MODIFIED:\n  Key: \"1\"\n    name: \"Alice\" \u{2192} \"Alicia\"\n",
        "=".repeat(60)
    );
    assert_eq!(format_diff_table(&d), expected);
}

#[test]
fn diff_field_change_values() {
    let a = vec![obj(vec![("id", s("1")), ("v", num(1))])];
    let b = vec![obj(vec![("id", s("1")), ("v", num(2))])];
    let d = diff(&a, &b, Some("id"));
    assert_eq!(d.modified.len(), 1);
    assert_eq!(d.modified[0].key, s("1"));
    assert_eq!(d.modified[0].changes.len(), 1);
    assert_eq!(d.modified[0].changes[0].field, "v");
    assert_eq!(d.modified[0].changes[0].old, num(1));
    assert_eq!(d.modified[0].changes[0].new, num(2));
}

// ---------------------------------------------------------------------------
// Deduplication
// ---------------------------------------------------------------------------

#[test]
fn jaccard_exact_fractions() {
    assert_eq!(pair(jaccard_similarity("cat", "car")), (1, 3));
    assert_eq!(pair(jaccard_similarity("Jonathan Smith", "Johnathan Smith")), (11, 14));
    assert_eq!(pair(jaccard_similarity("a", "b")), (0, 2));
    assert_eq!(pair(jaccard_similarity("hello", "")), (0, 1));
    assert_eq!(pair(jaccard_similarity("abab", "ABAB")), (1, 1));
    assert_eq!(
        pair(jaccard_similarity("night", "nacht")),
        pair(jaccard_similarity("nacht", "night"))
    );
}

#[test]
fn dedup_default_threshold_is_strict() {
    let items = vec![
        obj(vec![("name", s("Jonathan Smith"))]),
        obj(vec![("name", s("Johnathan Smith"))]),
    ];
    // 11/14 is below the default 0.85
    let result = dedup(&items, Some("name"), None);
    assert_eq!(result.unique.len(), 2);
    // and reaches a threshold of exactly 11/14
    let result = dedup(&items, Some("name"), Some(Similarity { numerator: 11, denominator: 14 }));
    assert_eq!(result.unique.len(), 1);
    assert_eq!(pair(result.duplicates[0].similarity), (11, 14));
    assert_eq!(result.duplicates[0].index_a, 1);
    assert_eq!(result.duplicates[0].index_b, 0);
}

#[test]
fn dedup_pairs_keyed_order_and_records() {
    let x = obj(vec![("k", s("x")), ("n", num(0))]);
    let y = obj(vec![("k", s("y")), ("n", num(1))]);
    let y2 = obj(vec![("k", s("y")), ("n", num(2))]);
    let x2 = obj(vec![("k", s("x")), ("n", num(3))]);
    let items = vec![x.clone(), y.clone(), y2.clone(), x2.clone()];
    let result = dedup(&items, Some("k"), None);
    assert_eq!(result.unique, vec![x.clone(), y.clone()]);
    assert_eq!(result.duplicates.len(), 2);
    // ordered by the kept record, then by the duplicate
    assert_eq!((result.duplicates[0].index_a, result.duplicates[0].index_b), (3, 0));
    assert_eq!((result.duplicates[1].index_a, result.duplicates[1].index_b), (2, 1));
    assert_eq!(result.duplicates[0].record_a, x2);
    assert_eq!(result.duplicates[0].record_b, x);
    assert_eq!(pair(result.duplicates[1].similarity), (1, 1));
}

#[test]
fn dedup_pairs_without_key_in_record_order() {
    let x = obj(vec![("v", num(0))]);
    let y = obj(vec![("v", num(1))]);
    let items = vec![x.clone(), y.clone(), y.clone(), x.clone()];
    let result = dedup(&items, None, None);
    assert_eq!(result.unique, vec![x.clone(), y.clone()]);
    assert_eq!((result.duplicates[0].index_a, result.duplicates[0].index_b), (2, 1));
    assert_eq!((result.duplicates[1].index_a, result.duplicates[1].index_b), (3, 0));
}

#[test]
fn dedup_records_without_key_are_kept() {
    let items = vec![
        obj(vec![("other", s("a"))]),
        obj(vec![("other", s("a"))]),
        obj(vec![("id", num(7))]),
        obj(vec![("id", s("7"))]),
    ];
    let result = dedup(&items, Some("id"), None);
    // number 7 and string "7" have the same key text
    assert_eq!(result.unique.len(), 3);
    assert_eq!(result.duplicates.len(), 1);
    assert_eq!(result.unique.len() + result.duplicates.len(), items.len());
}

// ---------------------------------------------------------------------------
// Record tables
// ---------------------------------------------------------------------------

#[test]
fn records_of_documents() {
    let rec = obj(vec![("id", s("1"))]);
    assert_eq!(records_from_json(rec.clone()), Some(vec![rec.clone()]));
    assert_eq!(
        records_from_json(Json::Array(vec![rec.clone(), num(2)])),
        Some(vec![rec.clone(), num(2)])
    );
    assert_eq!(records_from_json(s("x")), None);
}

#[test]
fn csv_rows_headers_and_cells() {
    let records = vec![
        obj(vec![("name", s("A")), ("id", s("1"))]),
        obj(vec![
            ("id", s("2")),
            ("age", num(30)),
            ("x", Json::Null),
            ("y", Json::Array(vec![num(1), num(2)])),
            ("ok", Json::Bool(true)),
        ]),
        num(5),
    ];
    let rows = csv_rows(&records);
    let text: Vec<Vec<&str>> = rows.iter().map(|r| r.iter().map(|c| c.as_str()).collect()).collect();
    assert_eq!(
        text,
        vec![
            vec!["id", "name", "age", "ok", "x", "y"],
            vec!["1", "A", "", "", "", ""],
            vec!["2", "", "30", "true", "", "[1,2]"],
            vec!["", "", "", "", "", ""],
        ]
    );
    let none: Vec<Json> = vec![];
    assert!(csv_rows(&none).is_empty());
}

#[test]
fn counters_compare_by_counts() {
    let a = counter(&[("x", 2), ("y", 1)]);
    let b = counter(&[("y", 1), ("x", 2)]);
    assert_eq!(a, b);
    assert_ne!(a, counter(&[("x", 2)]));
    assert_ne!(a, counter(&[("x", 2), ("y", 1), ("z", 0)]));
    let mut p = PNCounter::new();
    p.increment("x");
    let mut q = PNCounter::new();
    q.increment("x");
    assert_eq!(p, q);
    q.decrement("x");
    assert_ne!(p, q);
}

#[test]
fn merge_with_itself_keyed_records() {
    let a = vec![
        obj(vec![("id", s("1")), ("v", num(1))]),
        obj(vec![("id", s("2")), ("w", Json::Null)]),
    ];
    for strategy in [Strategy::LWW, Strategy::KeepA, Strategy::KeepB] {
        let opts = MergeOptions { key: "id".to_string(), strategy };
        assert_eq!(merge(&a, &a, Some(opts)), a);
    }
}

#[test]
fn dedup_again_finds_nothing() {
    let items = vec![
        obj(vec![("name", s("Alice"))]),
        obj(vec![("name", s("Alicia"))]),
        obj(vec![("name", s("alice"))]),
        obj(vec![("name", s("Bob"))]),
    ];
    let threshold = Some(Similarity { numerator: 1, denominator: 2 });
    let first = dedup(&items, Some("name"), threshold);
    assert_eq!(first.unique.len() + first.duplicates.len(), items.len());
    let second = dedup(&first.unique, Some("name"), threshold);
    assert!(second.duplicates.is_empty());
    assert_eq!(second.unique, first.unique);
}

#[test]
fn csv_text_of_records() {
    let records = vec![
        obj(vec![("a", s("x,y")), ("b", s("say \"hi\""))]),
        obj(vec![("a", s("line\nbreak")), ("c", num(3))]),
        obj(vec![("b", s("plain"))]),
    ];
    let text = records_to_csv(&records).unwrap();
    assert_eq!(
        text,
        "a,b,c\n\"x,y\",\"say \"\"hi\"\"\",\n\"line\nbreak\",,3\n,plain,\n"
    );
    let none: Vec<Json> = vec![];
    assert_eq!(records_to_csv(&none).unwrap(), "");
    let empty_name = vec![obj(vec![("", s(""))])];
    assert_eq!(records_to_csv(&empty_name).unwrap(), "\"\"\n\"\"\n");
}

#[test]
fn registers_compare_by_value_and_timestamp() {
    assert_eq!(LWWRegister::new("a", 1), LWWRegister::new("a", 1));
    assert_ne!(LWWRegister::new("a", 1), LWWRegister::new("a", 2));
    assert_ne!(LWWRegister::new("a", 1), LWWRegister::new("b", 1));
    let a = LWWRegister::new("x", 4);
    assert_eq!(a.merge(&a), a);
}

#[test]
fn lowercase_entry_points() {
    assert_eq!(pair(jaccard_of_lowercase("cat", "car")), (1, 3));
    assert_eq!(pair(jaccard_of_lowercase("Cat", "cat")), (1, 3));
    assert_eq!(strategy_of_lowercase("keep-a"), Some(Strategy::KeepA));
    assert_eq!(strategy_of_lowercase("KEEP-A"), None);
}

#[test]
fn reading_records() {
    assert_eq!(reader_for("JSON"), Reader::Json);
    assert_eq!(reader_for("csv"), Reader::Csv);
    assert_eq!(reader_for("txt"), Reader::JsonOrCsv);
    let doc = parse_document("f.json", "{\"b\": 1, \"a\": [true, null, \"x\"], \"b\": 2}").unwrap();
    assert_eq!(doc.to_text(), "{\"a\":[true,null,\"x\"],\"b\":2}");
    let err = parse_document("f.json", "{oops").unwrap_err();
    assert!(err.starts_with("Invalid JSON in f.json: "));
    match read_json_records("f.json", "[{\"id\": 1}, {\"id\": 2}]", false) {
        Reading::Records(rs) => assert_eq!(rs, vec![obj(vec![("id", num(1))]), obj(vec![("id", num(2))])]),
        other => panic!("unexpected {:?}", other),
    }
    match read_json_records("f.json", "{\"id\": 1}", false) {
        Reading::Records(rs) => assert_eq!(rs, vec![obj(vec![("id", num(1))])]),
        other => panic!("unexpected {:?}", other),
    }
    match read_json_records("f.json", "42", false) {
        Reading::Failed(e) => assert_eq!(e, "f.json: expected JSON array or object"),
        other => panic!("unexpected {:?}", other),
    }
    assert!(matches!(read_json_records("f.txt", "42", true), Reading::TryCsv));
    assert!(matches!(read_json_records("f.txt", "id,name", true), Reading::TryCsv));
    let (headers, rows) = parse_csv(b"id,name,id\n1,\"A, B\",7\n2,C,\n".as_slice()).unwrap();
    assert_eq!(headers, vec!["id", "name", "id"]);
    assert_eq!(rows.len(), 2);
    let err = parse_csv(b"id,name\n1,A\n2\n".as_slice()).unwrap_err();
    assert!(err.starts_with("CSV record error: "));
    let cells: Vec<Vec<Json>> = rows.iter().map(|r| r.iter().map(|c| s(c)).collect()).collect();
    let records = csv_records(&headers, &cells);
    assert_eq!(records[0], obj(vec![("id", s("7")), ("name", s("A, B"))]));
    assert_eq!(records[1], obj(vec![("id", s("")), ("name", s("C"))]));
    let short = csv_records(&headers, &[vec![s("9")]]);
    assert_eq!(short[0], obj(vec![("id", s("9"))]));
}

#[test]
fn zero_and_negative_zero_are_equal() {
    let pos = Json::Number("0.0".to_string());
    let neg = Json::Number("-0.0".to_string());
    assert_eq!(pos, neg);
    assert_ne!(pos, num(0));
    let a = vec![obj(vec![("id", s("1")), ("x", neg.clone())])];
    let b = vec![obj(vec![("id", s("1")), ("x", pos.clone())])];
    let d = diff(&a, &b, None);
    assert_eq!(d.unchanged.len(), 1);
    assert!(d.modified.is_empty());
    let c = vec![obj(vec![("id", s("1")), ("x", num(0))])];
    let d = diff(&a, &c, None);
    assert_eq!(d.modified.len(), 1);
    assert_eq!(d.modified[0].changes.len(), 1);
}

#[test]
fn counters_and_sets_round_trip_through_plain_parts() {
    let c = counter(&[("x", 3), ("y", 5)]);
    let mut parts = c.counts();
    parts.sort();
    assert_eq!(parts, vec![("x".to_string(), 3), ("y".to_string(), 5)]);
    assert_eq!(GCounter::from_counts(parts.clone()), c);
    let later = GCounter::from_counts(vec![("x".to_string(), 1), ("x".to_string(), 4)]);
    assert_eq!(later.get("x"), 4);
    let mut p = PNCounter::new();
    p.increment_by("a", 7);
    p.decrement_by("b", 2);
    let q = PNCounter::from_counters(p.positive(), p.negative());
    assert_eq!(q, p);
    assert_eq!(q.value(), 5);
    let mut set = ORSet::new();
    set.add("x".to_string());
    set.add("y".to_string());
    set.remove(&"y".to_string());
    let back = ORSet::from_parts(set.entries(), set.tombstones());
    assert_eq!(back.value(), set.value());
    assert_eq!(set.tombstones().len(), 1);
}

#[test]
fn pretty_text_matches_serde_json() {
    let v = obj(vec![("a", Json::Array(vec![num(1), s("x")])), ("b", Json::Null)]);
    let mut map = serde_json::Map::new();
    map.insert(
        "a".to_string(),
        serde_json::Value::Array(vec![
            serde_json::Value::Number(serde_json::Number::from(1)),
            serde_json::Value::String("x".to_string()),
        ]),
    );
    map.insert("b".to_string(), serde_json::Value::Null);
    let expected = serde_json::to_string_pretty(&serde_json::Value::Object(map)).unwrap();
    assert_eq!(v.to_pretty_text(), expected);
}

#[test]
fn csv_cells_are_typed() {
    assert_eq!(csv_cell("+007", None), num(7));
    assert_eq!(csv_cell("-12", None), num(-12));
    assert_eq!(csv_cell("1.5", Some("1.5".to_string())), Json::Number("1.5".to_string()));
    assert_eq!(csv_cell("true", None), Json::Bool(true));
    assert_eq!(csv_cell("false", None), Json::Bool(false));
    assert_eq!(csv_cell("True", None), s("True"));
    assert_eq!(csv_cell("99999999999999999999", Some("1e20".to_string())), Json::Number("1e20".to_string()));
}
