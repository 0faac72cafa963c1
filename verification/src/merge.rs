//! Tabular merge engine for JSON record arrays.

use vstd::prelude::*;

use crate::json::{
    copy_json, field_value, fields_sorted, fields_view, fields_wf, has_field, holds_field, items_view, json_get,
    lemma_put_existing_fields, lemma_put_fields_values, names_field,
    json_wf, lemma_field_value_at, lemma_object_view, lemma_put_field, lemma_put_field_wf, put_field_exec, put_fields,
    Json, JsonV,
};
use crate::text::{lemma_text_order, lowercase, push_text, same_text, to_lower};

verus! {

/// Merge strategy for conflicting fields.
#[derive(Clone, Copy, Debug, PartialEq, Eq, Structural)]
pub enum Strategy {
    /// Last-Writer-Wins: values from `b` override `a`.
    LWW,
    /// Always keep `a`'s value.
    KeepA,
    /// Always keep `b`'s value.
    KeepB,
}

impl Default for Strategy {
    fn default() -> (r: Self)
        ensures
            r == Strategy::LWW,
    {
        Strategy::LWW
    }
}

/// Whether a conflict goes to the value from `b`.
pub open spec fn prefers_b(strategy: Strategy) -> bool {
    match strategy {
        Strategy::LWW | Strategy::KeepB => true,
        Strategy::KeepA => false,
    }
}

/// Options for the tabular merge operation.
#[derive(Debug)]
pub struct MergeOptions {
    /// The field name to use as the primary key (default: "id").
    pub key: String,
    /// The strategy for resolving conflicts.
    pub strategy: Strategy,
}

/// The name of the default key field, `id`.
pub open spec fn default_key() -> Seq<char> {
    seq!['i', 'd']
}

impl Default for MergeOptions {
    fn default() -> (r: Self)
        ensures
            r.key@ == default_key(),
            r.strategy == Strategy::LWW,
    {
        let key = "id".to_owned();
        proof {
            reveal_strlit("id");
        }
        MergeOptions { key, strategy: Strategy::LWW }
    }
}

impl Clone for MergeOptions {
    fn clone(&self) -> (r: Self)
        ensures
            r.key@ == self.key@,
            r.strategy == self.strategy,
    {
        MergeOptions { key: self.key.clone(), strategy: self.strategy }
    }
}

// ---------------------------------------------------------------------------
// Keys
// ---------------------------------------------------------------------------

/// The text `true` or `false`.
pub open spec fn bool_text(b: bool) -> Seq<char> {
    if b {
        seq!['t', 'r', 'u', 'e']
    } else {
        seq!['f', 'a', 'l', 's', 'e']
    }
}

/// The key of a record: the text of its field `key` when that field holds a
/// string, a number or a boolean; no key otherwise.
pub open spec fn key_text(v: JsonV, key: Seq<char>) -> Option<Seq<char>> {
    match json_get(v, key) {
        Some(JsonV::Str(s)) => Some(s),
        Some(JsonV::Number(n)) => Some(n),
        Some(JsonV::Bool(b)) => Some(bool_text(b)),
        _ => None,
    }
}

/// The text `true` or `false`.
pub fn bool_string(b: bool) -> (r: String)
    ensures
        r@ == bool_text(b),
{
    if b {
        let r = "true".to_owned();
        proof {
            reveal_strlit("true");
        }
        r
    } else {
        let r = "false".to_owned();
        proof {
            reveal_strlit("false");
        }
        r
    }
}

/// Extract the string representation of a key field from a JSON value.
pub fn extract_key(value: &Json, key: &str) -> (r: Option<String>)
    requires
        value.wf(),
    ensures
        match r {
            Some(s) => key_text(value@, key@) == Some(s@),
            None => key_text(value@, key@) is None,
        },
{
    match value.get(key) {
        Some(Json::Str(s)) => Some(s.clone()),
        Some(Json::Number(n)) => Some(n.clone()),
        Some(Json::Bool(b)) => Some(bool_string(*b)),
        _ => None,
    }
}

// ---------------------------------------------------------------------------
// Records
// ---------------------------------------------------------------------------

/// The fields of `b`, each with the value that the strategy gives it when `a`
/// holds a field of the same name.
pub open spec fn resolved_fields(
    fa: Seq<(Seq<char>, JsonV)>,
    fb: Seq<(Seq<char>, JsonV)>,
    strategy: Strategy,
) -> Seq<(Seq<char>, JsonV)> {
    Seq::new(
        fb.len(),
        |i: int|
            (
                fb[i].0,
                if has_field(fa, fb[i].0) && !prefers_b(strategy) {
                    field_value(fa, fb[i].0)->0
                } else {
                    fb[i].1
                },
            ),
    )
}

/// The merge of two records: two objects are merged field by field, a
/// conflict going to `b` unless the strategy keeps `a`; otherwise the
/// strategy picks one of the two values whole.
pub open spec fn merge_records_spec(a: JsonV, b: JsonV, strategy: Strategy) -> JsonV {
    match (a, b) {
        (JsonV::Object(fa), JsonV::Object(fb)) => JsonV::Object(put_fields(fa, resolved_fields(fa, fb, strategy))),
        _ => if prefers_b(strategy) {
            b
        } else {
            a
        },
    }
}

/// Merge two JSON objects field by field according to a strategy.
fn merge_records(a: &Json, b: &Json, strategy: Strategy) -> (r: Json)
    requires
        a.wf(),
        b.wf(),
    ensures
        r@ == merge_records_spec(a@, b@, strategy),
        r.wf(),
{
    match (a, b) {
        (Json::Object(map_a), Json::Object(map_b)) => {
            proof {
                lemma_object_view(*map_a);
                lemma_object_view(*map_b);
            }
            let ghost fa = fields_view(map_a@);
            let ghost fb = fields_view(map_b@);
            let ghost more = resolved_fields(fa, fb, strategy);
            let mut merged: Vec<(String, Json)> = Vec::new();
            let mut i: usize = 0;
            while i < map_a.len()
                invariant
                    i <= map_a@.len(),
                    fa == fields_view(map_a@),
                    fields_view(merged@) == fa.take(i as int),
                    merged@.len() == i,
                decreases map_a@.len() - i,
            {
                let name = map_a[i].0.clone();
                let value = copy_json(&map_a[i].1);
                merged.push((name, value));
                proof {
                    assert(fields_view(merged@).len() == i + 1);
                    assert forall|x: int| 0 <= x < i + 1 implies fields_view(merged@)[x] == fa.take(i + 1)[x] by {
                        if x < i {
                            assert(fields_view(merged@)[x] == fa.take(i as int)[x]);
                        }
                    }
                    assert(fields_view(merged@) =~= fa.take(i + 1));
                }
                i = i + 1;
            }
            proof {
                assert(fa.take(i as int) =~= fa);
                assert(more.take(0) =~= Seq::<(Seq<char>, JsonV)>::empty());
                assert(fields_wf(more)) by {
                    assert forall|x: int| 0 <= x < more.len() implies json_wf(#[trigger] more[x].1) by {
                        assert(json_wf(fb[x].1));
                        if has_field(fa, fb[x].0) {
                            let y = choose|y: int| 0 <= y < fa.len() && fa[y].0 == fb[x].0;
                            lemma_field_value_at(fa, y);
                            assert(json_wf(fa[y].1));
                        }
                    }
                }
            }
            let mut j: usize = 0;
            while j < map_b.len()
                invariant
                    j <= map_b@.len(),
                    fa == fields_view(map_a@),
                    fb == fields_view(map_b@),
                    more == resolved_fields(fa, fb, strategy),
                    fields_sorted(fa),
                    fields_wf(more),
                    fields_sorted(fields_view(merged@)),
                    fields_wf(fields_view(merged@)),
                    fields_view(merged@) == put_fields(fa, more.take(j as int)),
                    a.wf(),
                    a@ == JsonV::Object(fa),
                decreases map_b@.len() - j,
            {
                let name = map_b[j].0.clone();
                let value = match a.get(&map_b[j].0) {
                    Some(v_a) => {
                        match strategy {
                            Strategy::LWW | Strategy::KeepB => copy_json(&map_b[j].1),
                            Strategy::KeepA => copy_json(v_a),
                        }
                    },
                    None => copy_json(&map_b[j].1),
                };
                proof {
                    assert(more.take(j + 1).drop_last() =~= more.take(j as int));
                    assert(more[j as int] == (name@, value@));
                    lemma_put_field(fields_view(merged@), name@, value@);
                    lemma_put_field_wf(fields_view(merged@), name@, value@);
                }
                merged = put_field_exec(merged, name, value);
                j = j + 1;
            }
            proof {
                assert(more.take(j as int) =~= more);
                lemma_object_view(merged);
            }
            Json::Object(merged)
        },
        _ => {
            match strategy {
                Strategy::LWW | Strategy::KeepB => copy_json(b),
                Strategy::KeepA => copy_json(a),
            }
        },
    }
}

// ---------------------------------------------------------------------------
// Record arrays
// ---------------------------------------------------------------------------

/// The last record of `b` whose key is `k`.
pub open spec fn last_keyed(b: Seq<JsonV>, key: Seq<char>, k: Seq<char>) -> Option<JsonV>
    decreases b.len(),
{
    if b.len() == 0 {
        None
    } else if key_text(b.last(), key) == Some(k) {
        Some(b.last())
    } else {
        last_keyed(b.drop_last(), key, k)
    }
}

/// Whether some record of `a` has key `k`.
pub open spec fn has_key(a: Seq<JsonV>, key: Seq<char>, k: Seq<char>) -> bool {
    exists|i: int| 0 <= i < a.len() && key_text(a[i], key) == Some(k)
}

/// A record of `a` in the merge: merged with the last record of `b` that has
/// the same key, or unchanged when it has no key or `b` has no such record.
pub open spec fn merged_record(x: JsonV, b: Seq<JsonV>, key: Seq<char>, strategy: Strategy) -> JsonV {
    match key_text(x, key) {
        Some(k) => match last_keyed(b, key, k) {
            Some(y) => merge_records_spec(x, y, strategy),
            None => x,
        },
        None => x,
    }
}

/// Whether a record of `b` passes through to the merge: it has no key, or no
/// record of `a` has its key.
pub open spec fn passes_through(a: Seq<JsonV>, y: JsonV, key: Seq<char>) -> bool {
    match key_text(y, key) {
        Some(k) => !has_key(a, key, k),
        None => true,
    }
}

/// The records of `b` that pass through, in their order.
pub open spec fn unmatched(a: Seq<JsonV>, b: Seq<JsonV>, key: Seq<char>) -> Seq<JsonV>
    decreases b.len(),
{
    if b.len() == 0 {
        Seq::empty()
    } else if passes_through(a, b.last(), key) {
        unmatched(a, b.drop_last(), key).push(b.last())
    } else {
        unmatched(a, b.drop_last(), key)
    }
}

/// The merge of two record arrays: the records of `a` in order, each merged
/// with its match in `b`, then the records of `b` that pass through.
pub open spec fn table_merge(a: Seq<JsonV>, b: Seq<JsonV>, key: Seq<char>, strategy: Strategy) -> Seq<JsonV> {
    Seq::new(a.len(), |i: int| merged_record(a[i], b, key, strategy)) + unmatched(a, b, key)
}

/// The key field that the options name; `id` without options.
pub open spec fn options_key(options: Option<MergeOptions>) -> Seq<char> {
    match options {
        Some(o) => o.key@,
        None => default_key(),
    }
}

/// The strategy that the options name; `LWW` without options.
pub open spec fn options_strategy(options: Option<MergeOptions>) -> Strategy {
    match options {
        Some(o) => o.strategy,
        None => Strategy::LWW,
    }
}

/// Every value of the sequence is well formed.
pub open spec fn all_wf(items: Seq<JsonV>) -> bool {
    forall|i: int| 0 <= i < items.len() ==> json_wf(#[trigger] items[i])
}

proof fn lemma_last_keyed(b: Seq<JsonV>, key: Seq<char>, k: Seq<char>, j: int)
    requires
        -1 <= j < b.len(),
        j >= 0 ==> key_text(b[j], key) == Some(k),
        forall|x: int| j < x < b.len() ==> key_text(#[trigger] b[x], key) != Some(k),
    ensures
        last_keyed(b, key, k) == if j >= 0 { Some(b[j]) } else { None::<JsonV> },
    decreases b.len(),
{
    if b.len() > 0 && j < b.len() - 1 {
        let init = b.drop_last();
        assert forall|x: int| j < x < init.len() implies key_text(#[trigger] init[x], key) != Some(k) by {
            assert(init[x] == b[x]);
        }
        assert(key_text(b[b.len() - 1], key) != Some(k));
        lemma_last_keyed(init, key, k, j);
        if j >= 0 {
            assert(init[j] == b[j]);
        }
    }
}

/// The keys of the records.
fn record_keys(records: &[Json], key: &str) -> (r: Vec<Option<String>>)
    requires
        all_wf(items_view(records@)),
    ensures
        r@.len() == records@.len(),
        forall|i: int| 0 <= i < r@.len() ==> #[trigger] key_text(records@[i]@, key@) == match r@[i] {
            Some(s) => Some(s@),
            None => None::<Seq<char>>,
        },
{
    let mut r: Vec<Option<String>> = Vec::new();
    let mut i: usize = 0;
    while i < records.len()
        invariant
            i <= records@.len(),
            all_wf(items_view(records@)),
            r@.len() == i,
            forall|x: int| 0 <= x < i ==> #[trigger] key_text(records@[x]@, key@) == match r@[x] {
                Some(s) => Some(s@),
                None => None::<Seq<char>>,
            },
        decreases records@.len() - i,
    {
        assert(json_wf(items_view(records@)[i as int]));
        r.push(extract_key(&records[i], key));
        i = i + 1;
    }
    r
}

/// The last position whose key is `k`.
fn find_last_key(keys: &Vec<Option<String>>, k: &String) -> (r: Option<usize>)
    ensures
        match r {
            Some(j) => j < keys@.len() && keys@[j as int] is Some && keys@[j as int]->0@ == k@
                && forall|x: int| j < x < keys@.len() ==> !(#[trigger] keys@[x] is Some && keys@[x]->0@ == k@),
            None => forall|x: int| 0 <= x < keys@.len() ==> !(#[trigger] keys@[x] is Some && keys@[x]->0@ == k@),
        },
{
    let mut i: usize = keys.len();
    while i > 0
        invariant
            i <= keys@.len(),
            forall|x: int| i <= x < keys@.len() ==> !(#[trigger] keys@[x] is Some && keys@[x]->0@ == k@),
        decreases i,
    {
        i = i - 1;
        match &keys[i] {
            Some(s) => {
                if same_text(s, k) {
                    return Some(i);
                }
            },
            None => {},
        }
    }
    None
}

/// Merge two arrays of JSON records.
///
/// Records are matched by a key field (default: `"id"`). Records present in
/// only one side pass through unchanged. When both sides contain a record with
/// the same key, fields are merged according to the given strategy.
///
/// Returns a new `Vec<Json>` with the merged records, ordered: matched records
/// first (in order of `a`), then unmatched from `b`.
pub fn merge(a: &[Json], b: &[Json], options: Option<MergeOptions>) -> (r: Vec<Json>)
    requires
        all_wf(items_view(a@)),
        all_wf(items_view(b@)),
    ensures
        items_view(r@) == table_merge(items_view(a@), items_view(b@), options_key(options), options_strategy(options)),
        all_wf(items_view(r@)),
{
    let opts = match options {
        Some(o) => o,
        None => MergeOptions::default(),
    };
    let key = opts.key.as_str();
    let strategy = opts.strategy;
    let ghost av = items_view(a@);
    let ghost bv = items_view(b@);
    let ghost keyv = key@;
    let b_keys = record_keys(b, key);
    let a_keys = record_keys(a, key);
    let mut result: Vec<Json> = Vec::new();

    // Process all records from a
    let mut i: usize = 0;
    while i < a.len()
        invariant
            i <= a@.len(),
            av == items_view(a@),
            bv == items_view(b@),
            all_wf(av),
            all_wf(bv),
            keyv == key@,
            b_keys@.len() == b@.len(),
            forall|x: int| 0 <= x < b_keys@.len() ==> #[trigger] key_text(b@[x]@, key@) == match b_keys@[x] {
                Some(s) => Some(s@),
                None => None::<Seq<char>>,
            },
            a_keys@.len() == a@.len(),
            forall|x: int| 0 <= x < a_keys@.len() ==> #[trigger] key_text(a@[x]@, key@) == match a_keys@[x] {
                Some(s) => Some(s@),
                None => None::<Seq<char>>,
            },
            result@.len() == i,
            forall|x: int| 0 <= x < i ==> #[trigger] result@[x]@ == merged_record(av[x], bv, keyv, strategy),
            forall|x: int| 0 <= x < i ==> json_wf(#[trigger] result@[x]@),
        decreases a@.len() - i,
    {
        assert(json_wf(av[i as int]));
        match &a_keys[i] {
            Some(k) => {
                assert(key_text(a@[i as int]@, key@) == Some(k@));
                match find_last_key(&b_keys, k) {
                    Some(j) => {
                        proof {
                            assert forall|x: int| j < x < bv.len() implies key_text(#[trigger] bv[x], keyv) != Some(k@) by {
                                assert(key_text(b@[x]@, key@) == match b_keys@[x] {
                                    Some(s) => Some(s@),
                                    None => None::<Seq<char>>,
                                });
                            }
                            assert(key_text(b@[j as int]@, key@) == Some(k@));
                            lemma_last_keyed(bv, keyv, k@, j as int);
                            assert(json_wf(bv[j as int]));
                        }
                        result.push(merge_records(&a[i], &b[j], strategy));
                    },
                    None => {
                        proof {
                            assert forall|x: int| -1 < x < bv.len() implies key_text(#[trigger] bv[x], keyv) != Some(k@) by {
                                assert(key_text(b@[x]@, key@) == match b_keys@[x] {
                                    Some(s) => Some(s@),
                                    None => None::<Seq<char>>,
                                });
                            }
                            lemma_last_keyed(bv, keyv, k@, -1);
                        }
                        result.push(copy_json(&a[i]));
                    },
                }
            },
            None => {
                assert(key_text(a@[i as int]@, key@) is None);
                result.push(copy_json(&a[i]));
            },
        }
        i = i + 1;
    }
    let ghost first = result@;

    // Add records from b that are not in a
    let mut j: usize = 0;
    proof {
        assert(unmatched(av, bv.take(0), keyv) =~= Seq::<JsonV>::empty());
    }
    while j < b.len()
        invariant
            j <= b@.len(),
            av == items_view(a@),
            bv == items_view(b@),
            all_wf(bv),
            keyv == key@,
            b_keys@.len() == b@.len(),
            forall|x: int| 0 <= x < b_keys@.len() ==> #[trigger] key_text(b@[x]@, key@) == match b_keys@[x] {
                Some(s) => Some(s@),
                None => None::<Seq<char>>,
            },
            a_keys@.len() == a@.len(),
            forall|x: int| 0 <= x < a_keys@.len() ==> #[trigger] key_text(a@[x]@, key@) == match a_keys@[x] {
                Some(s) => Some(s@),
                None => None::<Seq<char>>,
            },
            first.len() == a@.len(),
            forall|x: int| 0 <= x < first.len() ==> json_wf(#[trigger] first[x]@),
            result@.len() >= first.len(),
            forall|x: int| 0 <= x < first.len() ==> #[trigger] result@[x] == first[x],
            items_view(result@).subrange(first.len() as int, result@.len() as int) == unmatched(av, bv.take(j as int), keyv),
            forall|x: int| first.len() <= x < result@.len() ==> json_wf(#[trigger] result@[x]@),
        decreases b@.len() - j,
    {
        let ghost before = result@;
        let keep = match &b_keys[j] {
            Some(k) => {
                let found = find_last_key(&a_keys, k);
                proof {
                    assert(key_text(b@[j as int]@, key@) == Some(k@));
                    if found is Some {
                        let x = found->0 as int;
                        assert(key_text(a@[x]@, key@) == Some(k@));
                        assert(av[x] == a@[x]@);
                    } else {
                        assert forall|x: int| 0 <= x < av.len() implies key_text(av[x], keyv) != Some(k@) by {
                            assert(key_text(a@[x]@, key@) == match a_keys@[x] {
                                Some(s) => Some(s@),
                                None => None::<Seq<char>>,
                            });
                        }
                    }
                }
                found.is_none()
            },
            None => {
                assert(key_text(b@[j as int]@, key@) is None);
                true
            },
        };
        proof {
            assert(keep == passes_through(av, bv[j as int], keyv));
            assert(bv.take(j + 1).drop_last() =~= bv.take(j as int));
            assert(json_wf(bv[j as int]));
        }
        if keep {
            result.push(copy_json(&b[j]));
        }
        proof {
            let tail = items_view(result@).subrange(first.len() as int, result@.len() as int);
            let old_tail = items_view(before).subrange(first.len() as int, before.len() as int);
            if keep {
                assert(tail =~= old_tail.push(bv[j as int]));
            } else {
                assert(tail =~= old_tail);
            }
        }
        j = j + 1;
    }
    proof {
        assert(bv.take(j as int) =~= bv);
        let goal = table_merge(av, bv, keyv, strategy);
        assert forall|x: int| 0 <= x < result@.len() implies items_view(result@)[x] == goal[x] by {
            if x < first.len() {
                assert(result@[x] == first[x]);
            } else {
                assert(items_view(result@)[x] == items_view(result@).subrange(first.len() as int, result@.len() as int)[x - first.len()]);
            }
        }
        assert(items_view(result@) =~= goal);
        assert forall|x: int| 0 <= x < result@.len() implies json_wf(#[trigger] items_view(result@)[x]) by {
            if x < first.len() {
                assert(result@[x] == first[x]);
            }
        }
    }
    result
}

proof fn lemma_unmatched_all(b: Seq<JsonV>, key: Seq<char>)
    ensures
        unmatched(Seq::empty(), b, key) == b,
    decreases b.len(),
{
    if b.len() > 0 {
        lemma_unmatched_all(b.drop_last(), key);
        assert(b.drop_last().push(b.last()) =~= b);
    }
}

/// Merging with no records on the right gives the left records back.
pub proof fn lemma_merge_with_nothing(a: Seq<JsonV>, key: Seq<char>, strategy: Strategy)
    ensures
        table_merge(a, Seq::empty(), key, strategy) == a,
{
    assert(table_merge(a, Seq::empty(), key, strategy) =~= a);
}

/// Merging no records on the left with records on the right gives the right
/// records back.
pub proof fn lemma_merge_into_nothing(b: Seq<JsonV>, key: Seq<char>, strategy: Strategy)
    ensures
        table_merge(Seq::empty(), b, key, strategy) == b,
{
    lemma_unmatched_all(b, key);
    assert(table_merge(Seq::empty(), b, key, strategy) =~= b);
}

/// When some record of `b` has key `k`, the last such record is one of them.
proof fn lemma_last_keyed_found(b: Seq<JsonV>, key: Seq<char>, k: Seq<char>)
    requires
        has_key(b, key, k),
    ensures
        last_keyed(b, key, k) is Some,
        exists|j: int| 0 <= j < b.len() && key_text(b[j], key) == Some(k) && b[j] == last_keyed(b, key, k)->0,
    decreases b.len(),
{
    if key_text(b.last(), key) == Some(k) {
        assert(b[b.len() - 1] == b.last());
    } else {
        let init = b.drop_last();
        let i = choose|i: int| 0 <= i < b.len() && key_text(b[i], key) == Some(k);
        assert(init[i] == b[i]);
        lemma_last_keyed_found(init, key, k);
        let j = choose|j: int| 0 <= j < init.len() && key_text(init[j], key) == Some(k) && init[j] == last_keyed(init, key, k)->0;
        assert(b[j] == init[j]);
    }
}

proof fn lemma_unmatched_none(a: Seq<JsonV>, b: Seq<JsonV>, key: Seq<char>)
    requires
        forall|i: int| 0 <= i < b.len() ==> !passes_through(a, #[trigger] b[i], key),
    ensures
        unmatched(a, b, key) == Seq::<JsonV>::empty(),
    decreases b.len(),
{
    if b.len() > 0 {
        let init = b.drop_last();
        assert forall|i: int| 0 <= i < init.len() implies !passes_through(a, #[trigger] init[i], key) by {
            assert(init[i] == b[i]);
        }
        lemma_unmatched_none(a, init, key);
        assert(!passes_through(a, b[b.len() - 1], key));
    }
}

/// Merging records with themselves gives them back, under every strategy,
/// when every record has a key and records with the same key are equal.
pub proof fn lemma_merge_self(a: Seq<JsonV>, key: Seq<char>, strategy: Strategy)
    requires
        all_wf(a),
        forall|i: int| 0 <= i < a.len() ==> (#[trigger] key_text(a[i], key)) is Some,
        forall|i: int, j: int|
            0 <= i < a.len() && 0 <= j < a.len() && #[trigger] key_text(a[i], key) == #[trigger] key_text(a[j], key)
                ==> a[i] == a[j],
    ensures
        table_merge(a, a, key, strategy) == a,
{
    assert forall|i: int| 0 <= i < a.len() implies #[trigger] merged_record(a[i], a, key, strategy) == a[i] by {
        let k = key_text(a[i], key)->0;
        assert(has_key(a, key, k));
        lemma_last_keyed_found(a, key, k);
        let j = choose|j: int| 0 <= j < a.len() && key_text(a[j], key) == Some(k) && a[j] == last_keyed(a, key, k)->0;
        assert(a[j] == a[i]);
        assert(json_wf(a[i]));
        match a[i] {
            JsonV::Object(fa) => {
                let rf = resolved_fields(fa, fa, strategy);
                assert forall|m: int| 0 <= m < rf.len() implies holds_field(fa, #[trigger] rf[m]) by {
                    lemma_field_value_at(fa, m);
                    assert(rf[m] == fa[m]);
                }
                lemma_put_existing_fields(fa, rf);
            },
            _ => {},
        }
    }
    assert forall|i: int| 0 <= i < a.len() implies !passes_through(a, #[trigger] a[i], key) by {
        assert(key_text(a[i], key) is Some);
    }
    lemma_unmatched_none(a, a, key);
    assert(table_merge(a, a, key, strategy) =~= a);
}

/// Merging two records that are objects keeps the fields of both: a field
/// that only `a` has keeps `a`'s value, and a field of `b` takes `b`'s value
/// unless `a` has it too and the strategy keeps `a`.
pub proof fn lemma_merge_records_fields(a: JsonV, b: JsonV, strategy: Strategy)
    requires
        json_wf(a),
        json_wf(b),
        a is Object,
        b is Object,
    ensures
        merge_records_spec(a, b, strategy) is Object,
        forall|k: Seq<char>| #[trigger] json_get(merge_records_spec(a, b, strategy), k) is Some
            <==> (json_get(a, k) is Some || json_get(b, k) is Some),
        forall|k: Seq<char>| json_get(b, k) is None
            ==> #[trigger] json_get(merge_records_spec(a, b, strategy), k) == json_get(a, k),
        forall|k: Seq<char>| json_get(b, k) is Some
            ==> #[trigger] json_get(merge_records_spec(a, b, strategy), k) == if json_get(a, k) is Some
                && strategy == Strategy::KeepA {
                json_get(a, k)
            } else {
                json_get(b, k)
            },
{
    let fa = a->Object_0;
    let fb = b->Object_0;
    let rf = resolved_fields(fa, fb, strategy);
    assert forall|i: int, j: int| 0 <= i < j < rf.len() implies #[trigger] rf[i].0 != #[trigger] rf[j].0 by {
        lemma_text_order(fb[i].0, fb[j].0, fb[j].0);
        lemma_text_order(fb[i].0, fb[i].0, fb[i].0);
    }
    lemma_put_fields_values(fa, rf);
    let r = merge_records_spec(a, b, strategy);
    assert forall|k: Seq<char>| names_field(rf, k) <==> has_field(fb, k) by {
        if names_field(rf, k) {
            let i = choose|i: int| 0 <= i < rf.len() && rf[i].0 == k;
            assert(fb[i].0 == k);
        }
        if has_field(fb, k) {
            let i = choose|i: int| 0 <= i < fb.len() && fb[i].0 == k;
            assert(rf[i].0 == k);
        }
    }
    assert forall|k: Seq<char>| has_field(fb, k) implies #[trigger] json_get(r, k) == if json_get(a, k) is Some
        && strategy == Strategy::KeepA {
        json_get(a, k)
    } else {
        json_get(b, k)
    } by {
        let i = choose|i: int| 0 <= i < fb.len() && fb[i].0 == k;
        lemma_field_value_at(fb, i);
        assert(rf[i].0 == k);
        if has_field(fa, k) {
            let m = choose|m: int| 0 <= m < fa.len() && fa[m].0 == k;
            lemma_field_value_at(fa, m);
        }
    }
}

/// In the tabular merge, a record of `a` whose key the last record of `b`
/// with that key shares is merged with it field by field: the result holds
/// every field of both, a field only the record of `a` has keeps its value,
/// and a field of the record of `b` takes its value unless the record of `a`
/// has it too and the strategy keeps `a`.
pub proof fn lemma_merge_matched_fields(
    a: Seq<JsonV>,
    b: Seq<JsonV>,
    key: Seq<char>,
    strategy: Strategy,
    i: int,
    j: int,
)
    requires
        all_wf(a),
        all_wf(b),
        0 <= i < a.len(),
        0 <= j < b.len(),
        key_text(a[i], key) is Some,
        key_text(b[j], key) == key_text(a[i], key),
        forall|x: int| j < x < b.len() ==> key_text(#[trigger] b[x], key) != key_text(a[i], key),
    ensures
        ({
            let r = table_merge(a, b, key, strategy)[i];
            &&& r is Object
            &&& forall|k: Seq<char>| #[trigger] json_get(r, k) is Some
                <==> (json_get(a[i], k) is Some || json_get(b[j], k) is Some)
            &&& forall|k: Seq<char>| json_get(b[j], k) is None ==> #[trigger] json_get(r, k) == json_get(a[i], k)
            &&& forall|k: Seq<char>| json_get(b[j], k) is Some ==> #[trigger] json_get(r, k) == if json_get(a[i], k) is Some
                && strategy == Strategy::KeepA {
                json_get(a[i], k)
            } else {
                json_get(b[j], k)
            }
        }),
{
    let k = key_text(a[i], key)->0;
    lemma_last_keyed(b, key, k, j);
    assert(json_wf(a[i]));
    assert(json_wf(b[j]));
    lemma_merge_records_fields(a[i], b[j], strategy);
    assert(table_merge(a, b, key, strategy)[i] == merged_record(a[i], b, key, strategy));
}

/// In the tabular merge, a record of `a` with no key, or whose key no record
/// of `b` has, comes through unchanged.
pub proof fn lemma_merge_unmatched_kept(a: Seq<JsonV>, b: Seq<JsonV>, key: Seq<char>, strategy: Strategy, i: int)
    requires
        0 <= i < a.len(),
        forall|x: int| 0 <= x < b.len() ==> key_text(a[i], key) is None || key_text(#[trigger] b[x], key) != key_text(a[i], key),
    ensures
        table_merge(a, b, key, strategy)[i] == a[i],
{
    if key_text(a[i], key) is Some {
        lemma_last_keyed(b, key, key_text(a[i], key)->0, -1);
    }
    assert(table_merge(a, b, key, strategy)[i] == merged_record(a[i], b, key, strategy));
}

// ---------------------------------------------------------------------------
// Strategy names
// ---------------------------------------------------------------------------

/// The strategy that a lowercase name stands for: `lww`; `keep-a`, `keepa`
/// or `keep_a`; `keep-b`, `keepb` or `keep_b`.
pub open spec fn strategy_named(name: Seq<char>) -> Option<Strategy> {
    if name == "lww"@ {
        Some(Strategy::LWW)
    } else if name == "keep-a"@ || name == "keepa"@ || name == "keep_a"@ {
        Some(Strategy::KeepA)
    } else if name == "keep-b"@ || name == "keepb"@ || name == "keep_b"@ {
        Some(Strategy::KeepB)
    } else {
        None
    }
}

/// The strategy that a lowercase name stands for, if any.
pub fn strategy_of_lowercase(name: &str) -> (r: Option<Strategy>)
    ensures
        r == strategy_named(name@),
{
    if same_text(name, "lww") {
        Some(Strategy::LWW)
    } else if same_text(name, "keep-a") || same_text(name, "keepa") || same_text(name, "keep_a") {
        Some(Strategy::KeepA)
    } else if same_text(name, "keep-b") || same_text(name, "keepb") || same_text(name, "keep_b") {
        Some(Strategy::KeepB)
    } else {
        None
    }
}

/// Parse a strategy name, in any case; an unknown name is an error that
/// names it.
pub fn parse_strategy(s: &str) -> (r: Result<Strategy, String>)
    ensures
        match r {
            Ok(st) => strategy_named(lowercase(s@)) == Some(st),
            Err(e) => strategy_named(lowercase(s@)) is None && e@ == "Unknown strategy: "@ + s@,
        },
{
    let name = to_lower(s);
    match strategy_of_lowercase(name.as_str()) {
        Some(st) => Ok(st),
        None => {
            let mut e = "Unknown strategy: ".to_owned();
            push_text(&mut e, s);
            Err(e)
        },
    }
}

} // verus!
