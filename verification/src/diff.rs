//! Structural diff engine for JSON record arrays.

use vstd::prelude::*;

use crate::json::{
    copy_json, field_value, fields_sorted, fields_view, has_field, items_view, json_equal, json_same,
    lemma_json_same_refl,
    json_text, json_wf, lemma_field_value_at, lemma_object_view, lemma_put_field, put_field,
    put_field_exec, put_fields, write_json, Json, JsonV, fields_wf, lemma_put_field_wf, lemma_put_fields_wf,
    lemma_put_fields_distinct, json_get, lemma_sorted_same_names,
};
use crate::merge::{all_wf, extract_key, key_text};
use crate::text::{decimal, decimal_text, push_char, push_text, same_text};

verus! {

/// A change to a single field.
#[derive(Debug)]
pub struct FieldChange {
    /// Field name.
    pub field: String,
    /// Old value (from `a`).
    pub old: Json,
    /// New value (from `b`).
    pub new: Json,
}

impl View for FieldChange {
    type V = (Seq<char>, JsonV, JsonV);

    open spec fn view(&self) -> (Seq<char>, JsonV, JsonV) {
        (self.field@, self.old@, self.new@)
    }
}

/// A row that exists in both inputs but has changed fields.
#[derive(Debug)]
pub struct ModifiedRow {
    /// The key value that identifies this row.
    pub key: Json,
    /// The list of changed fields.
    pub changes: Vec<FieldChange>,
    /// The full record from `a`.
    pub old_record: Json,
    /// The full record from `b`.
    pub new_record: Json,
}

/// The views of a sequence of field changes.
pub open spec fn changes_view(cs: Seq<FieldChange>) -> Seq<(Seq<char>, JsonV, JsonV)> {
    Seq::new(cs.len(), |i: int| cs[i]@)
}

impl View for ModifiedRow {
    type V = (JsonV, Seq<(Seq<char>, JsonV, JsonV)>, JsonV, JsonV);

    open spec fn view(&self) -> (JsonV, Seq<(Seq<char>, JsonV, JsonV)>, JsonV, JsonV) {
        (self.key@, changes_view(self.changes@), self.old_record@, self.new_record@)
    }
}

/// The views of a sequence of modified rows.
pub open spec fn rows_view(rows: Seq<ModifiedRow>) -> Seq<(JsonV, Seq<(Seq<char>, JsonV, JsonV)>, JsonV, JsonV)> {
    Seq::new(rows.len(), |i: int| rows[i]@)
}

/// The result of a structural diff between two record arrays.
#[derive(Debug)]
pub struct DiffResult {
    /// Records present only in `b` (added).
    pub added: Vec<Json>,
    /// Records present only in `a` (removed).
    pub removed: Vec<Json>,
    /// Records present in both but with different values.
    pub modified: Vec<ModifiedRow>,
    /// Records identical in both inputs.
    pub unchanged: Vec<Json>,
    /// Human-readable summary string.
    pub summary: String,
}

// ---------------------------------------------------------------------------
// Field changes
// ---------------------------------------------------------------------------

/// The field name that stands for a whole value that is not an object.
pub open spec fn root_name() -> Seq<char> {
    seq!['<', 'r', 'o', 'o', 't', '>']
}

/// For each field of `fa` in order: a change to the value of the same field
/// in `fb` where that differs, or to `null` where `fb` lacks the field.
pub open spec fn changes_from(fa: Seq<(Seq<char>, JsonV)>, fb: Seq<(Seq<char>, JsonV)>) -> Seq<(Seq<char>, JsonV, JsonV)>
    decreases fa.len(),
{
    if fa.len() == 0 {
        Seq::empty()
    } else {
        let rest = changes_from(fa.drop_last(), fb);
        let (k, v) = fa.last();
        match field_value(fb, k) {
            Some(w) => if !json_same(v, w) {
                rest.push((k, v, w))
            } else {
                rest
            },
            None => rest.push((k, v, JsonV::Null)),
        }
    }
}

/// For each field of `fb` in order whose name `fa` lacks: a change from `null`.
pub open spec fn changes_added(fb: Seq<(Seq<char>, JsonV)>, fa: Seq<(Seq<char>, JsonV)>) -> Seq<(Seq<char>, JsonV, JsonV)>
    decreases fb.len(),
{
    if fb.len() == 0 {
        Seq::empty()
    } else {
        let rest = changes_added(fb.drop_last(), fa);
        if !has_field(fa, fb.last().0) {
            rest.push((fb.last().0, JsonV::Null, fb.last().1))
        } else {
            rest
        }
    }
}

/// The changes from one value to another: field by field for two objects,
/// else one change of the whole value, named `<root>`, when they differ.
pub open spec fn field_changes(a: JsonV, b: JsonV) -> Seq<(Seq<char>, JsonV, JsonV)> {
    match (a, b) {
        (JsonV::Object(fa), JsonV::Object(fb)) => changes_from(fa, fb) + changes_added(fb, fa),
        _ => if !json_same(a, b) {
            seq![(root_name(), a, b)]
        } else {
            Seq::empty()
        },
    }
}

fn find_sorted_field(fields: &Vec<(String, Json)>, k: &str) -> (r: Option<usize>)
    requires
        fields_sorted(fields_view(fields@)),
    ensures
        match r {
            Some(i) => i < fields@.len() && fields@[i as int].0@ == k@ && field_value(fields_view(fields@), k@) == Some(fields@[i as int].1@),
            None => !has_field(fields_view(fields@), k@) && field_value(fields_view(fields@), k@) is None,
        },
{
    let ghost fs = fields_view(fields@);
    let mut i: usize = 0;
    while i < fields.len()
        invariant
            i <= fields@.len(),
            fs == fields_view(fields@),
            fields_sorted(fs),
            forall|j: int| 0 <= j < i ==> fields@[j].0@ != k@,
        decreases fields@.len() - i,
    {
        if same_text(&fields[i].0, k) {
            proof {
                lemma_field_value_at(fs, i as int);
            }
            return Some(i);
        }
        i = i + 1;
    }
    proof {
        if has_field(fs, k@) {
            let j = choose|j: int| 0 <= j < fs.len() && fs[j].0 == k@;
            assert(fields@[j].0@ == k@);
        }
    }
    None
}

/// Compare two JSON objects field by field and return a list of changes.
fn compute_field_changes(a: &Json, b: &Json) -> (r: Vec<FieldChange>)
    requires
        a.wf(),
        b.wf(),
    ensures
        changes_view(r@) == field_changes(a@, b@),
{
    let mut changes: Vec<FieldChange> = Vec::new();
    match (a, b) {
        (Json::Object(map_a), Json::Object(map_b)) => {
            proof {
                lemma_object_view(*map_a);
                lemma_object_view(*map_b);
            }
            let ghost fa = fields_view(map_a@);
            let ghost fb = fields_view(map_b@);
            // Fields in a
            let mut i: usize = 0;
            proof {
                assert(changes_from(fa.take(0), fb) =~= changes_view(changes@));
            }
            while i < map_a.len()
                invariant
                    i <= map_a@.len(),
                    fa == fields_view(map_a@),
                    fb == fields_view(map_b@),
                    fields_sorted(fb),
                    changes_view(changes@) == changes_from(fa.take(i as int), fb),
                decreases map_a@.len() - i,
            {
                let ghost before = changes@;
                proof {
                    assert(fa.take(i + 1).drop_last() =~= fa.take(i as int));
                }
                match find_sorted_field(map_b, &map_a[i].0) {
                    Some(j) => {
                        if !json_equal(&map_a[i].1, &map_b[j].1) {
                            changes.push(FieldChange {
                                field: map_a[i].0.clone(),
                                old: copy_json(&map_a[i].1),
                                new: copy_json(&map_b[j].1),
                            });
                            proof {
                                assert(changes_view(changes@) =~= changes_view(before).push(changes@[before.len() as int]@));
                            }
                        }
                    },
                    None => {
                        changes.push(FieldChange {
                            field: map_a[i].0.clone(),
                            old: copy_json(&map_a[i].1),
                            new: Json::Null,
                        });
                        proof {
                            assert(changes_view(changes@) =~= changes_view(before).push(changes@[before.len() as int]@));
                        }
                    },
                }
                i = i + 1;
            }
            proof {
                assert(fa.take(i as int) =~= fa);
            }
            let ghost first = changes@;
            // Fields only in b
            let mut j: usize = 0;
            proof {
                assert(changes_added(fb.take(0), fa) =~= Seq::<(Seq<char>, JsonV, JsonV)>::empty());
                assert(changes_view(changes@) =~= changes_view(first) + changes_added(fb.take(0), fa));
            }
            while j < map_b.len()
                invariant
                    j <= map_b@.len(),
                    fa == fields_view(map_a@),
                    fb == fields_view(map_b@),
                    fields_sorted(fa),
                    changes_view(changes@) == changes_view(first) + changes_added(fb.take(j as int), fa),
                decreases map_b@.len() - j,
            {
                let ghost before = changes@;
                proof {
                    assert(fb.take(j + 1).drop_last() =~= fb.take(j as int));
                }
                if find_sorted_field(map_a, &map_b[j].0).is_none() {
                    changes.push(FieldChange {
                        field: map_b[j].0.clone(),
                        old: Json::Null,
                        new: copy_json(&map_b[j].1),
                    });
                    proof {
                        assert(changes_view(changes@) =~= changes_view(before).push(changes@[before.len() as int]@));
                    }
                }
                j = j + 1;
            }
            proof {
                assert(fb.take(j as int) =~= fb);
            }
        },
        _ => {
            if !json_equal(a, b) {
                let root = "<root>".to_owned();
                proof {
                    reveal_strlit("<root>");
                    assert(root@ =~= root_name());
                }
                changes.push(FieldChange { field: root, old: copy_json(a), new: copy_json(b) });
                proof {
                    assert(changes_view(changes@) =~= seq![(root_name(), a@, b@)]);
                }
            } else {
                assert(changes_view(changes@) =~= Seq::<(Seq<char>, JsonV, JsonV)>::empty());
            }
        },
    }
    changes
}

// ---------------------------------------------------------------------------
// Record diff
// ---------------------------------------------------------------------------

/// The records that have a key, each with its key, in their order.
pub open spec fn keyed(records: Seq<JsonV>, key: Seq<char>) -> Seq<(Seq<char>, JsonV)>
    decreases records.len(),
{
    if records.len() == 0 {
        Seq::empty()
    } else {
        let rest = keyed(records.drop_last(), key);
        match key_text(records.last(), key) {
            Some(k) => rest.push((k, records.last())),
            None => rest,
        }
    }
}

/// The records by key, sorted by key; of records with the same key the last
/// one counts.
pub open spec fn record_index(records: Seq<JsonV>, key: Seq<char>) -> Seq<(Seq<char>, JsonV)> {
    put_fields(Seq::empty(), keyed(records, key))
}

/// The records of index `ia` whose key index `ib` lacks.
pub open spec fn removed_of(ia: Seq<(Seq<char>, JsonV)>, ib: Seq<(Seq<char>, JsonV)>) -> Seq<JsonV>
    decreases ia.len(),
{
    if ia.len() == 0 {
        Seq::empty()
    } else if !has_field(ib, ia.last().0) {
        removed_of(ia.drop_last(), ib).push(ia.last().1)
    } else {
        removed_of(ia.drop_last(), ib)
    }
}

/// The records of index `ia` that index `ib` holds, under the same key, unchanged.
pub open spec fn unchanged_of(ia: Seq<(Seq<char>, JsonV)>, ib: Seq<(Seq<char>, JsonV)>) -> Seq<JsonV>
    decreases ia.len(),
{
    if ia.len() == 0 {
        Seq::empty()
    } else if field_value(ib, ia.last().0) matches Some(w) && json_same(ia.last().1, w) {
        unchanged_of(ia.drop_last(), ib).push(ia.last().1)
    } else {
        unchanged_of(ia.drop_last(), ib)
    }
}

/// The modified rows: for each record of index `ia` that index `ib` holds,
/// under the same key, with another value: the key, the field changes, the
/// old record and the new one.
pub open spec fn modified_of(ia: Seq<(Seq<char>, JsonV)>, ib: Seq<(Seq<char>, JsonV)>) -> Seq<
    (JsonV, Seq<(Seq<char>, JsonV, JsonV)>, JsonV, JsonV),
>
    decreases ia.len(),
{
    if ia.len() == 0 {
        Seq::empty()
    } else {
        let rest = modified_of(ia.drop_last(), ib);
        let (k, v) = ia.last();
        match field_value(ib, k) {
            Some(w) => if !json_same(v, w) {
                rest.push((JsonV::Str(k), field_changes(v, w), v, w))
            } else {
                rest
            },
            None => rest,
        }
    }
}

/// The summary line of a diff with the given counts:
/// `+A added, -R removed, ~M modified, =U unchanged`.
pub open spec fn summary_text(added: nat, removed: nat, modified: nat, unchanged: nat) -> Seq<char> {
    "+"@ + decimal(added) + " added, -"@ + decimal(removed) + " removed, ~"@ + decimal(modified) + " modified, ="@
        + decimal(unchanged) + " unchanged"@
}

/// The key field that `key` names; `id` when it names none.
pub open spec fn diff_key(key: Option<&str>) -> Seq<char> {
    match key {
        Some(k) => k@,
        None => crate::merge::default_key(),
    }
}

/// Build an ordered map from key → record.
fn build_index(records: &[Json], key: &str) -> (r: Vec<(String, Json)>)
    requires
        all_wf(items_view(records@)),
    ensures
        fields_view(r@) == record_index(items_view(records@), key@),
        fields_sorted(fields_view(r@)),
        fields_wf(fields_view(r@)),
{
    let ghost rv = items_view(records@);
    let mut map: Vec<(String, Json)> = Vec::new();
    let mut i: usize = 0;
    proof {
        assert(keyed(rv.take(0), key@) =~= Seq::<(Seq<char>, JsonV)>::empty());
        assert(fields_view(map@) =~= Seq::<(Seq<char>, JsonV)>::empty());
    }
    while i < records.len()
        invariant
            i <= records@.len(),
            rv == items_view(records@),
            all_wf(rv),
            fields_sorted(fields_view(map@)),
            fields_wf(fields_view(map@)),
            fields_view(map@) == put_fields(Seq::empty(), keyed(rv.take(i as int), key@)),
        decreases records@.len() - i,
    {
        proof {
            assert(rv.take(i + 1).drop_last() =~= rv.take(i as int));
            assert(json_wf(rv[i as int]));
        }
        match extract_key(&records[i], key) {
            Some(k) => {
                let rec = copy_json(&records[i]);
                proof {
                    let ks = keyed(rv.take(i + 1), key@);
                    assert(ks == keyed(rv.take(i as int), key@).push((k@, rec@)));
                    assert(ks.drop_last() =~= keyed(rv.take(i as int), key@));
                    lemma_put_field(fields_view(map@), k@, rec@);
                    lemma_put_field_wf(fields_view(map@), k@, rec@);
                }
                map = put_field_exec(map, k, rec);
            },
            None => {},
        }
        i = i + 1;
    }
    proof {
        assert(rv.take(i as int) =~= rv);
    }
    map
}

/// Compute the structural diff between two arrays of JSON records.
///
/// Records are matched by a key field (default: `"id"`).
pub fn diff(a: &[Json], b: &[Json], key: Option<&str>) -> (r: DiffResult)
    requires
        all_wf(items_view(a@)),
        all_wf(items_view(b@)),
    ensures
        ({
            let ia = record_index(items_view(a@), diff_key(key));
            let ib = record_index(items_view(b@), diff_key(key));
            &&& items_view(r.added@) == removed_of(ib, ia)
            &&& items_view(r.removed@) == removed_of(ia, ib)
            &&& rows_view(r.modified@) == modified_of(ia, ib)
            &&& items_view(r.unchanged@) == unchanged_of(ia, ib)
            &&& r.summary@ == summary_text(
                r.added@.len(),
                r.removed@.len(),
                r.modified@.len(),
                r.unchanged@.len(),
            )
        }),
{
    let id = "id";
    proof {
        reveal_strlit("id");
        assert(id@ =~= crate::merge::default_key());
    }
    let key_field = match key {
        Some(k) => k,
        None => id,
    };

    // Build maps: key → record
    let map_a = build_index(a, key_field);
    let map_b = build_index(b, key_field);
    let ghost ia = fields_view(map_a@);
    let ghost ib = fields_view(map_b@);

    let mut added: Vec<Json> = Vec::new();
    let mut removed: Vec<Json> = Vec::new();
    let mut modified: Vec<ModifiedRow> = Vec::new();
    let mut unchanged: Vec<Json> = Vec::new();

    // Records in a
    let mut i: usize = 0;
    proof {
        assert(ia.take(0) =~= Seq::<(Seq<char>, JsonV)>::empty());
        assert(items_view(removed@) =~= removed_of(ia.take(0), ib));
        assert(items_view(unchanged@) =~= unchanged_of(ia.take(0), ib));
        assert(rows_view(modified@) =~= modified_of(ia.take(0), ib));
    }
    while i < map_a.len()
        invariant
            i <= map_a@.len(),
            ia == fields_view(map_a@),
            ib == fields_view(map_b@),
            fields_sorted(ia),
            fields_sorted(ib),
            fields_wf(ia),
            fields_wf(ib),
            items_view(removed@) == removed_of(ia.take(i as int), ib),
            items_view(unchanged@) == unchanged_of(ia.take(i as int), ib),
            rows_view(modified@) == modified_of(ia.take(i as int), ib),
        decreases map_a@.len() - i,
    {
        let ghost r0 = removed@;
        let ghost u0 = unchanged@;
        let ghost m0 = modified@;
        proof {
            assert(ia.take(i + 1).drop_last() =~= ia.take(i as int));
            assert(ia.take(i + 1).last() == ia[i as int]);
            assert(json_wf(ia[i as int].1));
        }
        match find_sorted_field(&map_b, &map_a[i].0) {
            Some(j) => {
                proof {
                    assert(json_wf(ib[j as int].1));
                }
                if json_equal(&map_a[i].1, &map_b[j].1) {
                    unchanged.push(copy_json(&map_a[i].1));
                    proof {
                        assert(items_view(unchanged@) =~= items_view(u0).push(ia[i as int].1));
                    }
                } else {
                    let changes = compute_field_changes(&map_a[i].1, &map_b[j].1);
                    let row = ModifiedRow {
                        key: Json::Str(map_a[i].0.clone()),
                        changes,
                        old_record: copy_json(&map_a[i].1),
                        new_record: copy_json(&map_b[j].1),
                    };
                    modified.push(row);
                    proof {
                        assert(rows_view(modified@) =~= rows_view(m0).push(modified@[m0.len() as int]@));
                    }
                }
            },
            None => {
                removed.push(copy_json(&map_a[i].1));
                proof {
                    assert(items_view(removed@) =~= items_view(r0).push(ia[i as int].1));
                }
            },
        }
        i = i + 1;
    }
    proof {
        assert(ia.take(i as int) =~= ia);
    }

    // Records only in b
    let mut j: usize = 0;
    proof {
        assert(ib.take(0) =~= Seq::<(Seq<char>, JsonV)>::empty());
        assert(items_view(added@) =~= removed_of(ib.take(0), ia));
    }
    while j < map_b.len()
        invariant
            j <= map_b@.len(),
            ia == fields_view(map_a@),
            ib == fields_view(map_b@),
            fields_sorted(ia),
            items_view(added@) == removed_of(ib.take(j as int), ia),
        decreases map_b@.len() - j,
    {
        let ghost a0 = added@;
        proof {
            assert(ib.take(j + 1).drop_last() =~= ib.take(j as int));
            assert(ib.take(j + 1).last() == ib[j as int]);
        }
        if find_sorted_field(&map_a, &map_b[j].0).is_none() {
            added.push(copy_json(&map_b[j].1));
            proof {
                assert(items_view(added@) =~= items_view(a0).push(ib[j as int].1));
            }
        }
        j = j + 1;
    }
    proof {
        assert(ib.take(j as int) =~= ib);
    }

    let mut summary = "+".to_owned();
    let n = decimal_text(added.len());
    push_text(&mut summary, n.as_str());
    push_text(&mut summary, " added, -");
    let n = decimal_text(removed.len());
    push_text(&mut summary, n.as_str());
    push_text(&mut summary, " removed, ~");
    let n = decimal_text(modified.len());
    push_text(&mut summary, n.as_str());
    push_text(&mut summary, " modified, =");
    let n = decimal_text(unchanged.len());
    push_text(&mut summary, n.as_str());
    push_text(&mut summary, " unchanged");
    proof {
        assert(summary@ =~= summary_text(added@.len(), removed@.len(), modified@.len(), unchanged@.len()));
    }

    DiffResult { added, removed, modified, unchanged, summary }
}

proof fn lemma_diff_entries_self(s: Seq<(Seq<char>, JsonV)>, ia: Seq<(Seq<char>, JsonV)>)
    requires
        forall|i: int| 0 <= i < s.len() ==> field_value(ia, (#[trigger] s[i]).0) == Some(s[i].1),
    ensures
        removed_of(s, ia) == Seq::<JsonV>::empty(),
        modified_of(s, ia) == Seq::<(JsonV, Seq<(Seq<char>, JsonV, JsonV)>, JsonV, JsonV)>::empty(),
        unchanged_of(s, ia) == Seq::new(s.len(), |i: int| s[i].1),
    decreases s.len(),
{
    if s.len() > 0 {
        let init = s.drop_last();
        assert forall|i: int| 0 <= i < init.len() implies field_value(ia, (#[trigger] init[i]).0) == Some(init[i].1) by {
            assert(init[i] == s[i]);
        }
        lemma_diff_entries_self(init, ia);
        assert(field_value(ia, s[s.len() - 1].0) == Some(s[s.len() - 1].1));
        lemma_json_same_refl(s[s.len() - 1].1);
        assert(unchanged_of(s, ia) =~= Seq::new(s.len(), |i: int| s[i].1));
    }
}

proof fn lemma_keyed_wf(records: Seq<JsonV>, key: Seq<char>)
    requires
        all_wf(records),
    ensures
        fields_wf(keyed(records, key)),
    decreases records.len(),
{
    if records.len() > 0 {
        let init = records.drop_last();
        assert forall|i: int| 0 <= i < init.len() implies json_wf(#[trigger] init[i]) by {
            assert(init[i] == records[i]);
        }
        lemma_keyed_wf(init, key);
        assert(json_wf(records[records.len() - 1]));
    }
}

/// Diffing records against themselves finds nothing added, removed or
/// modified, and every indexed record unchanged.
pub proof fn lemma_diff_self(records: Seq<JsonV>, key: Seq<char>)
    requires
        all_wf(records),
    ensures
        removed_of(record_index(records, key), record_index(records, key)) == Seq::<JsonV>::empty(),
        modified_of(record_index(records, key), record_index(records, key))
            == Seq::<(JsonV, Seq<(Seq<char>, JsonV, JsonV)>, JsonV, JsonV)>::empty(),
        unchanged_of(record_index(records, key), record_index(records, key)).len() == record_index(records, key).len(),
{
    let idx = record_index(records, key);
    lemma_keyed_wf(records, key);
    lemma_put_fields_wf(Seq::empty(), keyed(records, key));
    assert forall|i: int| 0 <= i < idx.len() implies field_value(idx, (#[trigger] idx[i]).0) == Some(idx[i].1) by {
        lemma_field_value_at(idx, i);
    }
    lemma_diff_entries_self(idx, idx);
}

proof fn lemma_keyed_all(records: Seq<JsonV>, key: Seq<char>)
    requires
        forall|i: int| 0 <= i < records.len() ==> (#[trigger] key_text(records[i], key)) is Some,
    ensures
        keyed(records, key).len() == records.len(),
        forall|i: int| 0 <= i < records.len() ==> Some((#[trigger] keyed(records, key)[i]).0) == key_text(records[i], key),
    decreases records.len(),
{
    if records.len() > 0 {
        let init = records.drop_last();
        assert forall|i: int| 0 <= i < init.len() implies (#[trigger] key_text(init[i], key)) is Some by {
            assert(init[i] == records[i]);
        }
        lemma_keyed_all(init, key);
        assert(key_text(records[records.len() - 1], key) is Some);
        assert forall|i: int| 0 <= i < records.len() implies Some((#[trigger] keyed(records, key)[i]).0) == key_text(records[i], key) by {
            if i < records.len() - 1 {
                assert(init[i] == records[i]);
                assert(keyed(records, key)[i] == keyed(init, key)[i]);
            }
        }
    }
}

/// Diffing records against themselves, when every record has a key and no
/// two records share one, finds every record unchanged and nothing added,
/// removed or modified.
pub proof fn lemma_diff_self_all_unchanged(records: Seq<JsonV>, key: Seq<char>)
    requires
        all_wf(records),
        forall|i: int| 0 <= i < records.len() ==> (#[trigger] key_text(records[i], key)) is Some,
        forall|i: int, j: int|
            0 <= i < j < records.len() ==> #[trigger] key_text(records[i], key) != #[trigger] key_text(records[j], key),
    ensures
        removed_of(record_index(records, key), record_index(records, key)) == Seq::<JsonV>::empty(),
        modified_of(record_index(records, key), record_index(records, key))
            == Seq::<(JsonV, Seq<(Seq<char>, JsonV, JsonV)>, JsonV, JsonV)>::empty(),
        unchanged_of(record_index(records, key), record_index(records, key)).len() == records.len(),
{
    lemma_diff_self(records, key);
    lemma_keyed_all(records, key);
    let ks = keyed(records, key);
    assert forall|i: int, j: int| 0 <= i < j < ks.len() implies #[trigger] ks[i].0 != #[trigger] ks[j].0 by {
        assert(Some(ks[i].0) == key_text(records[i], key));
        assert(Some(ks[j].0) == key_text(records[j], key));
    }
    lemma_put_fields_distinct(ks);
}

proof fn lemma_changes_from_contains(fa: Seq<(Seq<char>, JsonV)>, fb: Seq<(Seq<char>, JsonV)>, i: int)
    requires
        0 <= i < fa.len(),
    ensures
        field_value(fb, fa[i].0) is None ==> changes_from(fa, fb).contains((fa[i].0, fa[i].1, JsonV::Null)),
        field_value(fb, fa[i].0) is Some && !json_same(fa[i].1, field_value(fb, fa[i].0)->0)
            ==> changes_from(fa, fb).contains((fa[i].0, fa[i].1, field_value(fb, fa[i].0)->0)),
    decreases fa.len(),
{
    let rest = changes_from(fa.drop_last(), fb);
    let all = changes_from(fa, fb);
    if i < fa.len() - 1 {
        lemma_changes_from_contains(fa.drop_last(), fb, i);
        assert(fa.drop_last()[i] == fa[i]);
        assert forall|x: (Seq<char>, JsonV, JsonV)| rest.contains(x) implies all.contains(x) by {
            let m = choose|m: int| 0 <= m < rest.len() && rest[m] == x;
            assert(all[m] == rest[m]);
        }
    } else {
        assert(fa.last() == fa[i]);
        if all.len() > rest.len() {
            assert(all[all.len() - 1] == all.last());
        }
    }
}

proof fn lemma_changes_added_contains(fb: Seq<(Seq<char>, JsonV)>, fa: Seq<(Seq<char>, JsonV)>, j: int)
    requires
        0 <= j < fb.len(),
        !has_field(fa, fb[j].0),
    ensures
        changes_added(fb, fa).contains((fb[j].0, JsonV::Null, fb[j].1)),
    decreases fb.len(),
{
    let rest = changes_added(fb.drop_last(), fa);
    let all = changes_added(fb, fa);
    if j < fb.len() - 1 {
        assert(fb.drop_last()[j] == fb[j]);
        lemma_changes_added_contains(fb.drop_last(), fa, j);
        assert forall|x: (Seq<char>, JsonV, JsonV)| rest.contains(x) implies all.contains(x) by {
            let m = choose|m: int| 0 <= m < rest.len() && rest[m] == x;
            assert(all[m] == rest[m]);
        }
    } else {
        assert(fb.last() == fb[j]);
        assert(all[all.len() - 1] == all.last());
    }
}

/// The field changes between two values name every difference: for two
/// objects, a field of `a` that `b` lacks changes to `null`, a field of `b`
/// that `a` lacks changes from `null`, and a field of both whose values
/// differ changes from `a`'s value to `b`'s; two values that are not both
/// objects and differ make a change of the whole value.
pub proof fn lemma_field_changes_complete(a: JsonV, b: JsonV)
    requires
        json_wf(a),
        json_wf(b),
    ensures
        a is Object && b is Object ==> forall|k: Seq<char>| #[trigger] json_get(a, k) is Some && json_get(b, k) is None
            ==> field_changes(a, b).contains((k, json_get(a, k)->0, JsonV::Null)),
        a is Object && b is Object ==> forall|k: Seq<char>| json_get(a, k) is None && #[trigger] json_get(b, k) is Some
            ==> field_changes(a, b).contains((k, JsonV::Null, json_get(b, k)->0)),
        a is Object && b is Object ==> forall|k: Seq<char>| #[trigger] json_get(a, k) is Some && json_get(b, k) is Some
            && !json_same(json_get(a, k)->0, json_get(b, k)->0)
            ==> field_changes(a, b).contains((k, json_get(a, k)->0, json_get(b, k)->0)),
        !(a is Object && b is Object) && !json_same(a, b) ==> field_changes(a, b).contains((root_name(), a, b)),
{
    if a is Object && b is Object {
        let fa = a->Object_0;
        let fb = b->Object_0;
        let fc = field_changes(a, b);
        assert(fc == changes_from(fa, fb) + changes_added(fb, fa));
        assert forall|k: Seq<char>| #[trigger] json_get(a, k) is Some implies
            (json_get(b, k) is None ==> fc.contains((k, json_get(a, k)->0, JsonV::Null)))
            && (json_get(b, k) is Some && !json_same(json_get(a, k)->0, json_get(b, k)->0)
                ==> fc.contains((k, json_get(a, k)->0, json_get(b, k)->0))) by {
            let i = choose|i: int| 0 <= i < fa.len() && fa[i].0 == k;
            lemma_field_value_at(fa, i);
            lemma_changes_from_contains(fa, fb, i);
            let cf = changes_from(fa, fb);
            if cf.contains((k, fa[i].1, JsonV::Null)) {
                let m = choose|m: int| 0 <= m < cf.len() && cf[m] == (k, fa[i].1, JsonV::Null);
                assert(fc[m] == cf[m]);
            }
            if json_get(b, k) is Some && cf.contains((k, fa[i].1, json_get(b, k)->0)) {
                let m = choose|m: int| 0 <= m < cf.len() && cf[m] == (k, fa[i].1, json_get(b, k)->0);
                assert(fc[m] == cf[m]);
            }
        }
        assert forall|k: Seq<char>| json_get(a, k) is None && #[trigger] json_get(b, k) is Some
            implies fc.contains((k, JsonV::Null, json_get(b, k)->0)) by {
            let j = choose|j: int| 0 <= j < fb.len() && fb[j].0 == k;
            lemma_field_value_at(fb, j);
            lemma_changes_added_contains(fb, fa, j);
            let ca = changes_added(fb, fa);
            let cf = changes_from(fa, fb);
            let m = choose|m: int| 0 <= m < ca.len() && ca[m] == (k, JsonV::Null, fb[j].1);
            assert(fc[cf.len() + m] == ca[m]);
        }
    } else if !json_same(a, b) {
        assert(field_changes(a, b)[0] == (root_name(), a, b));
    }
}

/// Two well-formed values that differ give at least one field change.
pub proof fn lemma_field_changes_nonempty(a: JsonV, b: JsonV)
    requires
        json_wf(a),
        json_wf(b),
        !json_same(a, b),
    ensures
        field_changes(a, b).len() > 0,
{
    let fc = field_changes(a, b);
    lemma_field_changes_complete(a, b);
    if fc.len() == 0 {
        if a is Object && b is Object {
            let fa = a->Object_0;
            let fb = b->Object_0;
            assert forall|k: Seq<char>| #[trigger] has_field(fa, k) <==> has_field(fb, k) by {
                if has_field(fa, k) && !has_field(fb, k) {
                    assert(json_get(a, k) is Some && json_get(b, k) is None);
                    assert(fc.contains((k, json_get(a, k)->0, JsonV::Null)));
                }
                if has_field(fb, k) && !has_field(fa, k) {
                    assert(json_get(a, k) is None && json_get(b, k) is Some);
                    assert(fc.contains((k, JsonV::Null, json_get(b, k)->0)));
                }
            }
            lemma_sorted_same_names(fa, fb);
            assert forall|i: int| #![trigger fa[i]] 0 <= i < fa.len() implies fa[i].0 == fb[i].0 && json_same(fa[i].1, fb[i].1) by {
                assert(fa[i].0 == fb[i].0);
                lemma_field_value_at(fa, i);
                lemma_field_value_at(fb, i);
                assert(json_get(a, fa[i].0) == Some(fa[i].1));
                assert(json_get(b, fa[i].0) == Some(fb[i].1));
                if !json_same(fa[i].1, fb[i].1) {
                    assert(fc.contains((fa[i].0, fa[i].1, fb[i].1)));
                }
            }
            assert(json_same(a, b));
        } else {
            assert(fc.contains((root_name(), a, b)));
        }
    }
}

proof fn lemma_modified_rows(ia: Seq<(Seq<char>, JsonV)>, ib: Seq<(Seq<char>, JsonV)>)
    ensures
        forall|m: int| 0 <= m < modified_of(ia, ib).len() ==> {
            let row = #[trigger] modified_of(ia, ib)[m];
            &&& row.1 == field_changes(row.2, row.3)
            &&& !json_same(row.2, row.3)
            &&& exists|i: int| 0 <= i < ia.len() && ia[i].1 == row.2 && row.0 == JsonV::Str(ia[i].0)
                && field_value(ib, ia[i].0) == Some(row.3)
        },
    decreases ia.len(),
{
    if ia.len() > 0 {
        let init = ia.drop_last();
        lemma_modified_rows(init, ib);
        let rest = modified_of(init, ib);
        let all = modified_of(ia, ib);
        assert forall|m: int| 0 <= m < all.len() implies {
            let row = #[trigger] all[m];
            &&& row.1 == field_changes(row.2, row.3)
            &&& !json_same(row.2, row.3)
            &&& exists|i: int| 0 <= i < ia.len() && ia[i].1 == row.2 && row.0 == JsonV::Str(ia[i].0)
                && field_value(ib, ia[i].0) == Some(row.3)
        } by {
            if m < rest.len() {
                assert(all[m] == rest[m]);
                let i = choose|i: int| 0 <= i < init.len() && init[i].1 == rest[m].2 && rest[m].0 == JsonV::Str(init[i].0)
                    && field_value(ib, init[i].0) == Some(rest[m].3);
                assert(ia[i] == init[i]);
            } else {
                assert(ia[ia.len() - 1] == ia.last());
            }
        }
    }
}

/// Every modified row of a diff of well-formed records names every
/// difference between its old and new record: for two objects, a field the
/// new record lacks changes to `null`, a field the old record lacks changes
/// from `null`, a field of both with unequal values changes from the old
/// value to the new; records that are not both objects change whole. The
/// old and new records differ, and the row lists at least one change.
pub proof fn lemma_modified_rows_complete(ia: Seq<(Seq<char>, JsonV)>, ib: Seq<(Seq<char>, JsonV)>, m: int)
    requires
        fields_wf(ia),
        fields_wf(ib),
        0 <= m < modified_of(ia, ib).len(),
    ensures
        ({
            let (key, cs, old, new) = modified_of(ia, ib)[m];
            &&& !json_same(old, new)
            &&& cs.len() > 0
            &&& old is Object && new is Object ==> forall|k: Seq<char>| #[trigger] json_get(old, k) is Some && json_get(new, k) is None
                ==> cs.contains((k, json_get(old, k)->0, JsonV::Null))
            &&& old is Object && new is Object ==> forall|k: Seq<char>| json_get(old, k) is None && #[trigger] json_get(new, k) is Some
                ==> cs.contains((k, JsonV::Null, json_get(new, k)->0))
            &&& old is Object && new is Object ==> forall|k: Seq<char>| #[trigger] json_get(old, k) is Some && json_get(new, k) is Some
                && !json_same(json_get(old, k)->0, json_get(new, k)->0)
                ==> cs.contains((k, json_get(old, k)->0, json_get(new, k)->0))
            &&& !(old is Object && new is Object) ==> cs.contains((root_name(), old, new))
        }),
{
    lemma_modified_rows(ia, ib);
    let row = modified_of(ia, ib)[m];
    let i = choose|i: int| 0 <= i < ia.len() && ia[i].1 == row.2 && row.0 == JsonV::Str(ia[i].0)
        && field_value(ib, ia[i].0) == Some(row.3);
    assert(json_wf(ia[i].1));
    let j = choose|j: int| 0 <= j < ib.len() && ib[j].0 == ia[i].0;
    assert(ib[j].1 == row.3);
    assert(json_wf(ib[j].1));
    lemma_field_changes_complete(row.2, row.3);
    lemma_field_changes_nonempty(row.2, row.3);
}

/// Every modified row of the diff of two arrays of well-formed records names
/// every difference between its old and new record (see
/// `lemma_modified_rows_complete`).
pub proof fn lemma_diff_modified_complete(a: Seq<JsonV>, b: Seq<JsonV>, key: Seq<char>, m: int)
    requires
        all_wf(a),
        all_wf(b),
        0 <= m < modified_of(record_index(a, key), record_index(b, key)).len(),
    ensures
        ({
            let (k0, cs, old, new) = modified_of(record_index(a, key), record_index(b, key))[m];
            &&& !json_same(old, new)
            &&& cs.len() > 0
            &&& old is Object && new is Object ==> forall|k: Seq<char>| #[trigger] json_get(old, k) is Some && json_get(new, k) is None
                ==> cs.contains((k, json_get(old, k)->0, JsonV::Null))
            &&& old is Object && new is Object ==> forall|k: Seq<char>| json_get(old, k) is None && #[trigger] json_get(new, k) is Some
                ==> cs.contains((k, JsonV::Null, json_get(new, k)->0))
            &&& old is Object && new is Object ==> forall|k: Seq<char>| #[trigger] json_get(old, k) is Some && json_get(new, k) is Some
                && !json_same(json_get(old, k)->0, json_get(new, k)->0)
                ==> cs.contains((k, json_get(old, k)->0, json_get(new, k)->0))
            &&& !(old is Object && new is Object) ==> cs.contains((root_name(), old, new))
        }),
{
    lemma_keyed_wf(a, key);
    lemma_keyed_wf(b, key);
    assert(fields_sorted(Seq::<(Seq<char>, JsonV)>::empty()));
    assert(fields_wf(Seq::<(Seq<char>, JsonV)>::empty()));
    lemma_put_fields_wf(Seq::empty(), keyed(a, key));
    lemma_put_fields_wf(Seq::empty(), keyed(b, key));
    lemma_modified_rows_complete(record_index(a, key), record_index(b, key), m);
}

// ---------------------------------------------------------------------------
// Table
// ---------------------------------------------------------------------------

/// One line per record: the prefix, the record's JSON text, a newline.
pub open spec fn record_lines(recs: Seq<JsonV>, prefix: Seq<char>) -> Seq<char>
    decreases recs.len(),
{
    if recs.len() == 0 {
        Seq::empty()
    } else {
        record_lines(recs.drop_last(), prefix) + prefix + json_text(recs.last()) + "\n"@
    }
}

/// One line per field change: `    field: old → new`.
pub open spec fn change_lines(cs: Seq<(Seq<char>, JsonV, JsonV)>) -> Seq<char>
    decreases cs.len(),
{
    if cs.len() == 0 {
        Seq::empty()
    } else {
        let (field, old, new) = cs.last();
        change_lines(cs.drop_last()) + "    "@ + field + ": "@ + json_text(old) + " \u{2192} "@ + json_text(new) + "\n"@
    }
}

/// For each modified row a `  Key: key` line and its change lines.
pub open spec fn row_lines(rows: Seq<(JsonV, Seq<(Seq<char>, JsonV, JsonV)>, JsonV, JsonV)>) -> Seq<char>
    decreases rows.len(),
{
    if rows.len() == 0 {
        Seq::empty()
    } else {
        row_lines(rows.drop_last()) + "  Key: "@ + json_text(rows.last().0) + "\n"@ + change_lines(rows.last().1)
    }
}

/// A rule of sixty `=` signs.
pub open spec fn rule_line() -> Seq<char> {
    Seq::new(60, |i: int| '=')
}

/// The text table of a diff: the summary, a rule, then the added, removed
/// and modified records and the count of unchanged ones, each section only
/// when it is not empty.
pub open spec fn diff_table(
    summary: Seq<char>,
    added: Seq<JsonV>,
    removed: Seq<JsonV>,
    modified: Seq<(JsonV, Seq<(Seq<char>, JsonV, JsonV)>, JsonV, JsonV)>,
    unchanged: nat,
) -> Seq<char> {
    "Summary: "@ + summary + "\n"@ + rule_line() + "\n"@
        + (if added.len() > 0 { "\n+ ADDED:\n"@ + record_lines(added, "  + "@) } else { Seq::empty() })
        + (if removed.len() > 0 { "\n- REMOVED:\n"@ + record_lines(removed, "  - "@) } else { Seq::empty() })
        + (if modified.len() > 0 { "\n~ MODIFIED:\n"@ + row_lines(modified) } else { Seq::empty() })
        + (if unchanged > 0 { "\n= UNCHANGED: "@ + decimal(unchanged) + " records\n"@ } else { Seq::empty() })
}

fn write_record_lines(out: &mut String, recs: &Vec<Json>, prefix: &str)
    ensures
        final(out)@ == old(out)@ + record_lines(items_view(recs@), prefix@),
{
    let ghost rv = items_view(recs@);
    let ghost start = out@;
    let mut i: usize = 0;
    proof {
        assert(rv.take(0) =~= Seq::<JsonV>::empty());
        assert(out@ =~= start + record_lines(rv.take(0), prefix@));
    }
    while i < recs.len()
        invariant
            i <= recs@.len(),
            rv == items_view(recs@),
            out@ == start + record_lines(rv.take(i as int), prefix@),
        decreases recs@.len() - i,
    {
        push_text(out, prefix);
        write_json(out, &recs[i]);
        push_text(out, "\n");
        proof {
            assert(rv.take(i + 1).drop_last() =~= rv.take(i as int));
            assert(out@ =~= start + record_lines(rv.take(i + 1), prefix@));
        }
        i = i + 1;
    }
    proof {
        assert(rv.take(i as int) =~= rv);
    }
}

fn write_change_lines(out: &mut String, cs: &Vec<FieldChange>)
    ensures
        final(out)@ == old(out)@ + change_lines(changes_view(cs@)),
{
    let ghost cv = changes_view(cs@);
    let ghost start = out@;
    let mut i: usize = 0;
    proof {
        assert(cv.take(0) =~= Seq::<(Seq<char>, JsonV, JsonV)>::empty());
        assert(out@ =~= start + change_lines(cv.take(0)));
    }
    while i < cs.len()
        invariant
            i <= cs@.len(),
            cv == changes_view(cs@),
            out@ == start + change_lines(cv.take(i as int)),
        decreases cs@.len() - i,
    {
        push_text(out, "    ");
        push_text(out, cs[i].field.as_str());
        push_text(out, ": ");
        write_json(out, &cs[i].old);
        push_text(out, " \u{2192} ");
        write_json(out, &cs[i].new);
        push_text(out, "\n");
        proof {
            assert(cv.take(i + 1).drop_last() =~= cv.take(i as int));
            assert(cv.take(i + 1).last() == cv[i as int]);
            assert(out@ =~= start + change_lines(cv.take(i + 1)));
        }
        i = i + 1;
    }
    proof {
        assert(cv.take(i as int) =~= cv);
    }
}

fn write_header(out: &mut String, summary: &str)
    ensures
        final(out)@ == old(out)@ + "Summary: "@ + summary@ + "\n"@ + rule_line() + "\n"@,
{
    push_text(out, "Summary: ");
    push_text(out, summary);
    push_text(out, "\n");
    let mut k: usize = 0;
    let ghost before_rule = out@;
    while k < 60
        invariant
            k <= 60,
            out@ == before_rule + Seq::new(k as nat, |i: int| '='),
        decreases 60 - k,
    {
        push_char(out, '=');
        proof {
            assert(out@ =~= before_rule + Seq::new((k + 1) as nat, |i: int| '='));
        }
        k = k + 1;
    }
    push_text(out, "\n");
    proof {
        assert(out@ =~= old(out)@ + "Summary: "@ + summary@ + "\n"@ + rule_line() + "\n"@);
    }
}

fn write_record_section(out: &mut String, title: &str, recs: &Vec<Json>, prefix: &str)
    ensures
        final(out)@ == old(out)@ + (if recs@.len() > 0 { title@ + record_lines(items_view(recs@), prefix@) } else { Seq::empty() }),
{
    if recs.len() > 0 {
        push_text(out, title);
        write_record_lines(out, recs, prefix);
        proof {
            assert(out@ =~= old(out)@ + (title@ + record_lines(items_view(recs@), prefix@)));
        }
    } else {
        proof {
            assert(out@ =~= old(out)@ + Seq::<char>::empty());
        }
    }
}

fn write_modified_section(out: &mut String, rows: &Vec<ModifiedRow>)
    ensures
        final(out)@ == old(out)@ + (if rows@.len() > 0 { "\n~ MODIFIED:\n"@ + row_lines(rows_view(rows@)) } else { Seq::empty() }),
{
    if rows.len() > 0 {
        push_text(out, "\n~ MODIFIED:\n");
        let ghost rv = rows_view(rows@);
        let ghost start = out@;
        let mut i: usize = 0;
        proof {
            assert(rv.take(0) =~= Seq::<(JsonV, Seq<(Seq<char>, JsonV, JsonV)>, JsonV, JsonV)>::empty());
            assert(out@ =~= start + row_lines(rv.take(0)));
        }
        while i < rows.len()
            invariant
                i <= rows@.len(),
                rv == rows_view(rows@),
                out@ == start + row_lines(rv.take(i as int)),
            decreases rows@.len() - i,
        {
            push_text(out, "  Key: ");
            write_json(out, &rows[i].key);
            push_text(out, "\n");
            write_change_lines(out, &rows[i].changes);
            proof {
                assert(rv.take(i + 1).drop_last() =~= rv.take(i as int));
                assert(rv.take(i + 1).last() == rv[i as int]);
                assert(out@ =~= start + row_lines(rv.take(i + 1)));
            }
            i = i + 1;
        }
        proof {
            assert(rv.take(i as int) =~= rv);
            assert(out@ =~= old(out)@ + ("\n~ MODIFIED:\n"@ + row_lines(rv)));
        }
    } else {
        proof {
            assert(out@ =~= old(out)@ + Seq::<char>::empty());
        }
    }
}

fn write_unchanged_section(out: &mut String, n: usize)
    ensures
        final(out)@ == old(out)@ + (if n > 0 { "\n= UNCHANGED: "@ + decimal(n as nat) + " records\n"@ } else { Seq::empty() }),
{
    if n > 0 {
        push_text(out, "\n= UNCHANGED: ");
        let t = decimal_text(n);
        push_text(out, t.as_str());
        push_text(out, " records\n");
        proof {
            assert(out@ =~= old(out)@ + ("\n= UNCHANGED: "@ + decimal(n as nat) + " records\n"@));
        }
    } else {
        proof {
            assert(out@ =~= old(out)@ + Seq::<char>::empty());
        }
    }
}

/// Format a DiffResult as a human-readable table string.
pub fn format_diff_table(result: &DiffResult) -> (r: String)
    ensures
        r@ == diff_table(
            result.summary@,
            items_view(result.added@),
            items_view(result.removed@),
            rows_view(result.modified@),
            result.unchanged@.len(),
        ),
{
    let mut out = String::new();
    write_header(&mut out, result.summary.as_str());
    let ghost s0 = out@;
    write_record_section(&mut out, "\n+ ADDED:\n", &result.added, "  + ");
    let ghost s1 = out@;
    write_record_section(&mut out, "\n- REMOVED:\n", &result.removed, "  - ");
    let ghost s2 = out@;
    write_modified_section(&mut out, &result.modified);
    let ghost s3 = out@;
    write_unchanged_section(&mut out, result.unchanged.len());
    proof {
        assert(out@ =~= diff_table(
            result.summary@,
            items_view(result.added@),
            items_view(result.removed@),
            rows_view(result.modified@),
            result.unchanged@.len(),
        ));
    }
    out
}

/// The table starts with the summary line and a rule of sixty `=`; each
/// section is written only when it is not empty: with added records the
/// `+ ADDED` heading follows the rule at once, with no added but some removed
/// records the `- REMOVED` heading does, with only modified rows the
/// `~ MODIFIED` heading does, with no added, removed or modified records the
/// table is the header and the unchanged count alone, and with `n > 0`
/// unchanged records it ends with `= UNCHANGED: n records`.
pub proof fn lemma_diff_table_sections(
    summary: Seq<char>,
    added: Seq<JsonV>,
    removed: Seq<JsonV>,
    modified: Seq<(JsonV, Seq<(Seq<char>, JsonV, JsonV)>, JsonV, JsonV)>,
    n: nat,
)
    ensures
        ({
            let t = diff_table(summary, added, removed, modified, n);
            let h = "Summary: "@ + summary + "\n"@ + Seq::new(60, |i: int| '=') + "\n"@;
            let u = "\n= UNCHANGED: "@ + decimal(n) + " records\n"@;
            &&& h.len() <= t.len()
            &&& t.subrange(0, h.len() as int) == h
            &&& (added.len() > 0 ==> h.len() + "\n+ ADDED:\n"@.len() <= t.len()
                && t.subrange(h.len() as int, (h.len() + "\n+ ADDED:\n"@.len()) as int) == "\n+ ADDED:\n"@)
            &&& (added.len() == 0 && removed.len() > 0 ==> h.len() + "\n- REMOVED:\n"@.len() <= t.len()
                && t.subrange(h.len() as int, (h.len() + "\n- REMOVED:\n"@.len()) as int) == "\n- REMOVED:\n"@)
            &&& (added.len() == 0 && removed.len() == 0 && modified.len() > 0
                ==> h.len() + "\n~ MODIFIED:\n"@.len() <= t.len()
                && t.subrange(h.len() as int, (h.len() + "\n~ MODIFIED:\n"@.len()) as int) == "\n~ MODIFIED:\n"@)
            &&& (n > 0 ==> u.len() <= t.len() && t.subrange(t.len() - u.len(), t.len() as int) == u)
            &&& (added.len() == 0 && removed.len() == 0 && modified.len() == 0 ==> t == h + (if n > 0 { u } else { Seq::empty() }))
        }),
{
    let t = diff_table(summary, added, removed, modified, n);
    let h = "Summary: "@ + summary + "\n"@ + Seq::new(60, |i: int| '=') + "\n"@;
    let u = "\n= UNCHANGED: "@ + decimal(n) + " records\n"@;
    assert(rule_line() =~= Seq::new(60, |i: int| '='));
    let sa = if added.len() > 0 { "\n+ ADDED:\n"@ + record_lines(added, "  + "@) } else { Seq::<char>::empty() };
    let sr = if removed.len() > 0 { "\n- REMOVED:\n"@ + record_lines(removed, "  - "@) } else { Seq::<char>::empty() };
    let sm = if modified.len() > 0 { "\n~ MODIFIED:\n"@ + row_lines(modified) } else { Seq::<char>::empty() };
    let su = if n > 0 { u } else { Seq::<char>::empty() };
    assert(t == h + sa + sr + sm + su);
    let rest = sa + sr + sm + su;
    assert(t =~= h + rest);
    assert(t.subrange(0, h.len() as int) =~= h);
    if added.len() > 0 {
        let w = "\n+ ADDED:\n"@;
        assert(rest =~= w + (record_lines(added, "  + "@) + sr + sm + su));
        assert(t.subrange(h.len() as int, (h.len() + w.len()) as int) =~= w);
    }
    if added.len() == 0 && removed.len() > 0 {
        let w = "\n- REMOVED:\n"@;
        assert(rest =~= w + (record_lines(removed, "  - "@) + sm + su));
        assert(t.subrange(h.len() as int, (h.len() + w.len()) as int) =~= w);
    }
    if added.len() == 0 && removed.len() == 0 && modified.len() > 0 {
        let w = "\n~ MODIFIED:\n"@;
        assert(rest =~= w + (row_lines(modified) + su));
        assert(t.subrange(h.len() as int, (h.len() + w.len()) as int) =~= w);
    }
    if n > 0 {
        let p = h + sa + sr + sm;
        assert(t =~= p + u);
        assert(t.subrange(t.len() - u.len(), t.len() as int) =~= u);
    }
    if added.len() == 0 && removed.len() == 0 && modified.len() == 0 {
        assert(t =~= h + su);
    }
}

} // verus!
