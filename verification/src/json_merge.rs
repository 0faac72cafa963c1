//! Deep JSON merge using LWW semantics.

use vstd::prelude::*;

use crate::json::{
    copy_json, field_value, fields_sorted, fields_view, fields_wf, has_field, items_view, json_get,
    json_text, json_wf, lemma_array_view, lemma_field_value_at, lemma_object_view, lemma_put_field,
    lemma_put_field_wf, lemma_put_fields_values, names_field, holds_field, put_field_exec, put_fields, Json, JsonV,
};
use crate::merge::{prefers_b, Strategy};
use crate::text::{lemma_text_order, same_text, text_lt};

verus! {

/// The fields of `fb` whose names `fa` lacks, in their order.
pub open spec fn fields_missing_from(fb: Seq<(Seq<char>, JsonV)>, fa: Seq<(Seq<char>, JsonV)>) -> Seq<(Seq<char>, JsonV)>
    decreases fb.len(),
{
    if fb.len() == 0 {
        Seq::empty()
    } else if !has_field(fa, fb.last().0) {
        fields_missing_from(fb.drop_last(), fa).push(fb.last())
    } else {
        fields_missing_from(fb.drop_last(), fa)
    }
}

/// Whether some item of `xs` has the JSON text `t`.
pub open spec fn has_text(xs: Seq<JsonV>, t: Seq<char>) -> bool {
    exists|i: int| 0 <= i < xs.len() && json_text(xs[i]) == t
}

/// The items of `xb` that a set-union appends to `xa`: in their order, each
/// item whose JSON text neither an item of `xa` nor an item taken before it
/// has.
pub open spec fn new_items(xa: Seq<JsonV>, xb: Seq<JsonV>) -> Seq<JsonV>
    decreases xb.len(),
{
    if xb.len() == 0 {
        Seq::empty()
    } else {
        let prev = new_items(xa, xb.drop_last());
        if !has_text(xa + prev, json_text(xb.last())) {
            prev.push(xb.last())
        } else {
            prev
        }
    }
}

/// The fields of `fa` in their order, each merged with the field of the
/// same name in `fb` where there is one.
pub open spec fn merged_common(fa: Seq<(Seq<char>, JsonV)>, fb: Seq<(Seq<char>, JsonV)>, strategy: Strategy) -> Seq<(Seq<char>, JsonV)>
    decreases fa,
{
    Seq::new(
        fa.len(),
        |i: int|
            (
                fa[i].0,
                if 0 <= i < fa.len() {
                    match field_value(fb, fa[i].0) {
                        Some(vb) => merge_json_spec(fa[i].1, vb, strategy),
                        None => fa[i].1,
                    }
                } else {
                    JsonV::Null
                },
            ),
    )
}

/// The deep merge of two values: objects are merged field by field, fields
/// of both sides merged in turn and fields of one side passing through;
/// arrays are merged as a set-union that keeps `a`'s items and appends each
/// item of `b` whose JSON text is not there yet; any other pair is
/// resolved by the strategy (`b` unless it keeps `a`).
pub open spec fn merge_json_spec(a: JsonV, b: JsonV, strategy: Strategy) -> JsonV
    decreases a,
{
    match (a, b) {
        (JsonV::Object(fa), JsonV::Object(fb)) => JsonV::Object(
            put_fields(merged_common(fa, fb, strategy), fields_missing_from(fb, fa)),
        ),
        (JsonV::Array(xa), JsonV::Array(xb)) => JsonV::Array(xa + new_items(xa, xb)),
        _ => if prefers_b(strategy) {
            b
        } else {
            a
        },
    }
}

/// Whether some of the texts is `t`.
fn contains_text(texts: &Vec<String>, t: &String) -> (r: bool)
    ensures
        r == exists|i: int| 0 <= i < texts@.len() && texts@[i]@ == t@,
{
    let mut i: usize = 0;
    while i < texts.len()
        invariant
            i <= texts@.len(),
            forall|j: int| 0 <= j < i ==> texts@[j]@ != t@,
        decreases texts@.len() - i,
    {
        if same_text(&texts[i], t) {
            return true;
        }
        i = i + 1;
    }
    false
}

fn merge_recursive(a: &Json, b: &Json, strategy: Strategy) -> (r: Json)
    requires
        a.wf(),
        b.wf(),
    ensures
        r@ == merge_json_spec(a@, b@, strategy),
        r.wf(),
    decreases a,
{
    match (a, b) {
        // Both objects → recursive merge
        (Json::Object(map_a), Json::Object(map_b)) => {
            proof {
                lemma_object_view(*map_a);
                lemma_object_view(*map_b);
                assert forall|j: int| 0 <= j < map_a@.len() implies decreases_to!(*a => #[trigger] map_a@[j].1) by {
                    assert(decreases_to!(*a => *map_a));
                    assert(decreases_to!(*map_a => map_a@));
                    assert(decreases_to!(map_a@ => map_a@[j]));
                    assert(decreases_to!(map_a@[j] => map_a@[j].1));
                }
            }
            let ghost fa = fields_view(map_a@);
            let ghost fb = fields_view(map_b@);
            let ghost common = merged_common(fa, fb, strategy);
            let ghost missing = fields_missing_from(fb, fa);

            // All keys from a
            let mut merged: Vec<(String, Json)> = Vec::new();
            let mut i: usize = 0;
            while i < map_a.len()
                invariant
                    i <= map_a@.len(),
                    fa == fields_view(map_a@),
                    fb == fields_view(map_b@),
                    a@ == JsonV::Object(fa),
                    b@ == JsonV::Object(fb),
                    a.wf(),
                    b.wf(),
                    common == merged_common(fa, fb, strategy),
                    forall|j: int| 0 <= j < map_a@.len() ==> decreases_to!(*a => #[trigger] map_a@[j].1),
                    merged@.len() == i,
                    fields_view(merged@) == common.take(i as int),
                    forall|j: int| 0 <= j < i ==> json_wf(#[trigger] fields_view(merged@)[j].1),
                decreases map_a@.len() - i,
            {
                assert(json_wf(fa[i as int].1));
                let name = map_a[i].0.clone();
                let value = match b.get(&map_a[i].0) {
                    Some(v_b) => merge_recursive(&map_a[i].1, v_b, strategy),
                    None => copy_json(&map_a[i].1),
                };
                let ghost before = merged@;
                merged.push((name, value));
                proof {
                    assert(common[i as int] == (name@, value@));
                    assert forall|x: int| 0 <= x < i + 1 implies fields_view(merged@)[x] == common.take(i + 1)[x] by {
                        if x < i {
                            assert(merged@[x] == before[x]);
                            assert(fields_view(before)[x] == common.take(i as int)[x]);
                        }
                    }
                    assert(fields_view(merged@) =~= common.take(i + 1));
                    assert forall|j: int| 0 <= j < i + 1 implies json_wf(#[trigger] fields_view(merged@)[j].1) by {
                        if j < i {
                            assert(merged@[j] == before[j]);
                            assert(json_wf(fields_view(before)[j].1));
                        }
                    }
                }
                i = i + 1;
            }
            proof {
                assert(common.take(i as int) =~= common);
                assert(fields_sorted(fields_view(merged@))) by {
                    assert forall|x: int, y: int| 0 <= x < y < common.len() implies crate::text::text_lt(#[trigger] common[x].0, #[trigger] common[y].0) by {
                        assert(common[x].0 == fa[x].0 && common[y].0 == fa[y].0);
                    }
                }
                assert(missing.take(0) =~= Seq::<(Seq<char>, JsonV)>::empty());
            }

            // Keys only in b
            let ghost start = fields_view(merged@);
            let mut j: usize = 0;
            let mut taken: usize = 0;
            while j < map_b.len()
                invariant
                    j <= map_b@.len(),
                    fa == fields_view(map_a@),
                    fb == fields_view(map_b@),
                    a@ == JsonV::Object(fa),
                    b@ == JsonV::Object(fb),
                    a.wf(),
                    b.wf(),
                    missing == fields_missing_from(fb, fa),
                    start == common,
                    fields_sorted(fields_view(merged@)),
                    fields_wf(fields_view(merged@)),
                    fields_view(merged@) == put_fields(start, fields_missing_from(fb.take(j as int), fa)),
                decreases map_b@.len() - j,
            {
                let ghost prefix = fb.take(j as int);
                proof {
                    assert(fb.take(j + 1).drop_last() =~= prefix);
                    assert(json_wf(fb[j as int].1));
                }
                if a.get(&map_b[j].0).is_none() {
                    let name = map_b[j].0.clone();
                    let value = copy_json(&map_b[j].1);
                    proof {
                        assert(!has_field(fa, fb[j as int].0)) by {
                            if has_field(fa, fb[j as int].0) {
                                let y = choose|y: int| 0 <= y < fa.len() && fa[y].0 == fb[j as int].0;
                                lemma_field_value_at(fa, y);
                            }
                        }
                        assert(fields_missing_from(fb.take(j + 1), fa) == fields_missing_from(prefix, fa).push((name@, value@)));
                        lemma_put_field(fields_view(merged@), name@, value@);
                        lemma_put_field_wf(fields_view(merged@), name@, value@);
                        let ms = fields_missing_from(prefix, fa).push((name@, value@));
                        assert(ms.drop_last() =~= fields_missing_from(prefix, fa));
                    }
                    merged = put_field_exec(merged, name, value);
                } else {
                    proof {
                        assert(has_field(fa, fb[j as int].0));
                    }
                }
                j = j + 1;
            }
            proof {
                assert(fb.take(j as int) =~= fb);
                lemma_object_view(merged);
            }
            Json::Object(merged)
        },
        // Both arrays → union (preserve order, a then new items from b)
        (Json::Array(arr_a), Json::Array(arr_b)) => {
            proof {
                lemma_array_view(*arr_a);
                lemma_array_view(*arr_b);
            }
            let ghost xa = items_view(arr_a@);
            let ghost xb = items_view(arr_b@);
            let mut result: Vec<Json> = Vec::new();
            let mut existing: Vec<String> = Vec::new();
            let mut i: usize = 0;
            while i < arr_a.len()
                invariant
                    i <= arr_a@.len(),
                    xa == items_view(arr_a@),
                    a@ == JsonV::Array(xa),
                    a.wf(),
                    result@.len() == i,
                    existing@.len() == i,
                    forall|x: int| 0 <= x < i ==> #[trigger] result@[x]@ == xa[x],
                    forall|x: int| 0 <= x < i ==> #[trigger] existing@[x]@ == json_text(result@[x]@),
                decreases arr_a@.len() - i,
            {
                result.push(copy_json(&arr_a[i]));
                existing.push(arr_a[i].to_text());
                i = i + 1;
            }
            proof {
                assert(new_items(xa, xb.take(0)) =~= Seq::<JsonV>::empty());
                assert(items_view(result@) =~= xa + new_items(xa, xb.take(0)));
            }
            let mut j: usize = 0;
            while j < arr_b.len()
                invariant
                    j <= arr_b@.len(),
                    xa == items_view(arr_a@),
                    xb == items_view(arr_b@),
                    existing@.len() == result@.len(),
                    forall|x: int| 0 <= x < result@.len() ==> #[trigger] existing@[x]@ == json_text(result@[x]@),
                    items_view(result@) == xa + new_items(xa, xb.take(j as int)),
                decreases arr_b@.len() - j,
            {
                let s = arr_b[j].to_text();
                let ghost before = result@;
                let ghost prev = new_items(xa, xb.take(j as int));
                let found = contains_text(&existing, &s);
                proof {
                    assert(xb.take(j + 1).drop_last() =~= xb.take(j as int));
                    assert(xb.take(j + 1).last() == xb[j as int]);
                    if found {
                        let x = choose|x: int| 0 <= x < existing@.len() && existing@[x]@ == s@;
                        assert(items_view(before)[x] == before[x]@);
                        assert(has_text(xa + prev, json_text(xb[j as int])));
                    } else {
                        assert forall|x: int| 0 <= x < (xa + prev).len() implies json_text((xa + prev)[x]) != json_text(xb[j as int]) by {
                            assert((xa + prev)[x] == items_view(before)[x]);
                            assert(existing@[x]@ == json_text(before[x]@));
                        }
                    }
                }
                if !found {
                    result.push(copy_json(&arr_b[j]));
                    existing.push(s);
                    proof {
                        assert(items_view(result@) =~= items_view(before).push(xb[j as int]));
                        assert forall|x: int| 0 <= x < result@.len() implies #[trigger] existing@[x]@ == json_text(result@[x]@) by {
                            if x < before.len() {
                                assert(result@[x] == before[x]);
                            }
                        }
                    }
                }
                j = j + 1;
            }
            proof {
                assert(xb.take(j as int) =~= xb);
                lemma_array_view(result);
                assert(json_wf(a@));
                assert(json_wf(b@));
                assert forall|x: int| 0 <= x < result@.len() implies json_wf(#[trigger] items_view(result@)[x]) by {
                    lemma_new_items_from(xa, xb);
                    if x >= xa.len() {
                        let y = new_items(xa, xb)[x - xa.len()];
                        assert(items_view(result@)[x] == y);
                    }
                }
            }
            Json::Array(result)
        },
        // Anything else – strategy decides
        _ => {
            match strategy {
                Strategy::LWW | Strategy::KeepB => copy_json(b),
                Strategy::KeepA => copy_json(a),
            }
        },
    }
}

/// Every new item is an item of `xb`.
proof fn lemma_new_items_from(xa: Seq<JsonV>, xb: Seq<JsonV>)
    ensures
        forall|i: int| 0 <= i < new_items(xa, xb).len() ==> exists|j: int| 0 <= j < xb.len() && #[trigger] new_items(xa, xb)[i] == xb[j],
    decreases xb.len(),
{
    if xb.len() > 0 {
        lemma_new_items_from(xa, xb.drop_last());
        let n = new_items(xa, xb);
        assert forall|i: int| 0 <= i < n.len() implies exists|j: int| 0 <= j < xb.len() && #[trigger] n[i] == xb[j] by {
            let prev = new_items(xa, xb.drop_last());
            if i < prev.len() {
                let j = choose|j: int| 0 <= j < xb.drop_last().len() && prev[i] == xb.drop_last()[j];
                assert(xb.drop_last()[j] == xb[j]);
            } else {
                assert(n[i] == xb[xb.len() - 1]);
            }
        }
    }
}

/// Deep-merge two JSON values.
///
/// - **Objects**: recursively merged. Fields unique to one side pass through.
/// - **Arrays**: merged via set-union (preserving order, `a` first then new from `b`).
/// - **Primitives**: resolved by `strategy` (default: `LWW`, i.e. `b` wins).
pub fn merge_json(a: &Json, b: &Json, strategy: Option<Strategy>) -> (r: Json)
    requires
        a.wf(),
        b.wf(),
    ensures
        r@ == merge_json_spec(
            a@,
            b@,
            match strategy {
                Some(s) => s,
                None => Strategy::LWW,
            },
        ),
        r.wf(),
{
    let strategy = match strategy {
        Some(s) => s,
        None => Strategy::LWW,
    };
    merge_recursive(a, b, strategy)
}

proof fn lemma_missing_from_self(fb: Seq<(Seq<char>, JsonV)>, fa: Seq<(Seq<char>, JsonV)>)
    requires
        forall|i: int| 0 <= i < fb.len() ==> has_field(fa, #[trigger] fb[i].0),
    ensures
        fields_missing_from(fb, fa) == Seq::<(Seq<char>, JsonV)>::empty(),
    decreases fb.len(),
{
    if fb.len() > 0 {
        assert(has_field(fa, fb[fb.len() - 1].0));
        assert forall|i: int| 0 <= i < fb.drop_last().len() implies has_field(fa, #[trigger] fb.drop_last()[i].0) by {
            assert(fb.drop_last()[i] == fb[i]);
        }
        lemma_missing_from_self(fb.drop_last(), fa);
    }
}

proof fn lemma_new_items_none(xa: Seq<JsonV>, xb: Seq<JsonV>)
    requires
        forall|i: int| 0 <= i < xb.len() ==> has_text(xa, json_text(#[trigger] xb[i])),
    ensures
        new_items(xa, xb) == Seq::<JsonV>::empty(),
    decreases xb.len(),
{
    if xb.len() > 0 {
        assert(has_text(xa, json_text(xb[xb.len() - 1])));
        assert forall|i: int| 0 <= i < xb.drop_last().len() implies has_text(xa, json_text(#[trigger] xb.drop_last()[i])) by {
            assert(xb.drop_last()[i] == xb[i]);
        }
        lemma_new_items_none(xa, xb.drop_last());
        assert(xa + Seq::<JsonV>::empty() =~= xa);
    }
}

proof fn lemma_merge_json_self(a: JsonV, strategy: Strategy)
    requires
        json_wf(a),
    ensures
        merge_json_spec(a, a, strategy) == a,
    decreases a,
{
    match a {
        JsonV::Object(fa) => {
            let common = merged_common(fa, fa, strategy);
            assert forall|i: int| 0 <= i < fa.len() implies common[i] == fa[i] by {
                lemma_field_value_at(fa, i);
                assert(json_wf(fa[i].1));
                lemma_merge_json_self(fa[i].1, strategy);
            }
            assert(common =~= fa);
            assert forall|i: int| 0 <= i < fa.len() implies has_field(fa, #[trigger] fa[i].0) by {}
            lemma_missing_from_self(fa, fa);
            assert(put_fields(common, Seq::<(Seq<char>, JsonV)>::empty()) == common);
        },
        JsonV::Array(xa) => {
            assert forall|i: int| 0 <= i < xa.len() implies has_text(xa, json_text(#[trigger] xa[i])) by {}
            lemma_new_items_none(xa, xa);
            assert(xa + Seq::<JsonV>::empty() =~= xa);
        },
        _ => {},
    }
}

/// Deep-merging a well-formed value with itself gives the value back, under
/// every strategy.
pub proof fn lemma_merge_json_idempotent(a: Json, strategy: Strategy)
    requires
        a.wf(),
    ensures
        merge_json_spec(a@, a@, strategy) == a@,
{
    lemma_merge_json_self(a@, strategy);
}

proof fn lemma_missing_from(fb: Seq<(Seq<char>, JsonV)>, fa: Seq<(Seq<char>, JsonV)>)
    requires
        fields_sorted(fb),
    ensures
        fields_sorted(fields_missing_from(fb, fa)),
        forall|i: int| 0 <= i < fields_missing_from(fb, fa).len() ==> !has_field(fa, (#[trigger] fields_missing_from(fb, fa)[i]).0)
            && exists|j: int| 0 <= j < fb.len() && fb[j] == fields_missing_from(fb, fa)[i],
        forall|j: int| 0 <= j < fb.len() && !has_field(fa, (#[trigger] fb[j]).0) ==> holds_field(fields_missing_from(fb, fa), fb[j]),
    decreases fb.len(),
{
    if fb.len() > 0 {
        let init = fb.drop_last();
        assert(fields_sorted(init)) by {
            assert forall|x: int, y: int| 0 <= x < y < init.len() implies text_lt(#[trigger] init[x].0, #[trigger] init[y].0) by {
                assert(init[x] == fb[x] && init[y] == fb[y]);
            }
        }
        lemma_missing_from(init, fa);
        let m0 = fields_missing_from(init, fa);
        let m = fields_missing_from(fb, fa);
        let last = fb[fb.len() - 1];
        assert(last == fb.last());
        assert forall|i: int| 0 <= i < m.len() implies !has_field(fa, (#[trigger] m[i]).0)
            && exists|j: int| 0 <= j < fb.len() && fb[j] == m[i] by {
            if i < m0.len() {
                assert(m[i] == m0[i]);
                let j = choose|j: int| 0 <= j < init.len() && init[j] == m0[i];
                assert(fb[j] == m[i]);
            } else {
                assert(m[i] == last);
            }
        }
        assert(fields_sorted(m)) by {
            if !has_field(fa, last.0) {
                assert forall|x: int, y: int| 0 <= x < y < m.len() implies text_lt(#[trigger] m[x].0, #[trigger] m[y].0) by {
                    assert(m[x] == m0[x]);
                    if y < m0.len() {
                        assert(m[y] == m0[y]);
                    } else {
                        let j = choose|j: int| 0 <= j < init.len() && init[j] == m0[x];
                        assert(fb[j] == m0[x]);
                        assert(m[y] == fb[fb.len() - 1]);
                    }
                }
            }
        }
        assert forall|j: int| 0 <= j < fb.len() && !has_field(fa, (#[trigger] fb[j]).0) implies holds_field(m, fb[j]) by {
            if j < fb.len() - 1 {
                assert(init[j] == fb[j]);
                assert(holds_field(m0, init[j]));
                let i = choose|i: int| 0 <= i < m0.len() && m0[i] == init[j];
                assert(m[i] == m0[i]);
            } else {
                assert(m[m.len() - 1] == fb[j]);
            }
        }
    }
}

/// Deep-merging two objects, under every strategy, keeps the fields of
/// both: a field that only one side has keeps that side's value, and a field
/// of both sides holds the deep merge of the two values.
pub proof fn lemma_merge_json_object_fields(a: JsonV, b: JsonV, strategy: Strategy)
    requires
        json_wf(a),
        json_wf(b),
        a is Object,
        b is Object,
    ensures
        merge_json_spec(a, b, strategy) is Object,
        forall|k: Seq<char>| #[trigger] json_get(merge_json_spec(a, b, strategy), k) is Some
            <==> (json_get(a, k) is Some || json_get(b, k) is Some),
        forall|k: Seq<char>| json_get(a, k) is None
            ==> #[trigger] json_get(merge_json_spec(a, b, strategy), k) == json_get(b, k),
        forall|k: Seq<char>| json_get(b, k) is None
            ==> #[trigger] json_get(merge_json_spec(a, b, strategy), k) == json_get(a, k),
        forall|k: Seq<char>| json_get(a, k) is Some && json_get(b, k) is Some
            ==> #[trigger] json_get(merge_json_spec(a, b, strategy), k) == Some(
                merge_json_spec(json_get(a, k)->0, json_get(b, k)->0, strategy),
            ),
{
    let fa = a->Object_0;
    let fb = b->Object_0;
    let mc = merged_common(fa, fb, strategy);
    let fm = fields_missing_from(fb, fa);
    let r = merge_json_spec(a, b, strategy);
    assert(fields_sorted(mc)) by {
        assert forall|x: int, y: int| 0 <= x < y < mc.len() implies text_lt(#[trigger] mc[x].0, #[trigger] mc[y].0) by {
            assert(mc[x].0 == fa[x].0 && mc[y].0 == fa[y].0);
        }
    }
    lemma_missing_from(fb, fa);
    assert forall|i: int, j: int| 0 <= i < j < fm.len() implies #[trigger] fm[i].0 != #[trigger] fm[j].0 by {
        lemma_text_order(fm[i].0, fm[j].0, fm[j].0);
        lemma_text_order(fm[i].0, fm[i].0, fm[i].0);
    }
    lemma_put_fields_values(mc, fm);
    assert forall|k: Seq<char>| #[trigger] field_value(mc, k) == match field_value(fa, k) {
        Some(va) => Some(match field_value(fb, k) {
            Some(vb) => merge_json_spec(va, vb, strategy),
            None => va,
        }),
        None => None::<JsonV>,
    } by {
        if has_field(fa, k) {
            let m = choose|m: int| 0 <= m < fa.len() && fa[m].0 == k;
            lemma_field_value_at(fa, m);
            lemma_field_value_at(mc, m);
        } else {
            if has_field(mc, k) {
                let m = choose|m: int| 0 <= m < mc.len() && mc[m].0 == k;
                assert(fa[m].0 == k);
            }
        }
    }
    assert forall|k: Seq<char>| names_field(fm, k) <==> (has_field(fb, k) && !has_field(fa, k)) by {
        if names_field(fm, k) {
            let i = choose|i: int| 0 <= i < fm.len() && fm[i].0 == k;
            assert(!has_field(fa, fm[i].0));
            let j = choose|j: int| 0 <= j < fb.len() && fb[j] == fm[i];
            assert(fb[j].0 == k);
        }
        if has_field(fb, k) && !has_field(fa, k) {
            let j = choose|j: int| 0 <= j < fb.len() && fb[j].0 == k;
            assert(holds_field(fm, fb[j]));
            let i = choose|i: int| 0 <= i < fm.len() && fm[i] == fb[j];
            assert(fm[i].0 == k);
        }
    }
    assert forall|k: Seq<char>| has_field(fb, k) && !has_field(fa, k) implies #[trigger] json_get(r, k) == json_get(b, k) by {
        let j = choose|j: int| 0 <= j < fb.len() && fb[j].0 == k;
        lemma_field_value_at(fb, j);
        assert(holds_field(fm, fb[j]));
        let i = choose|i: int| 0 <= i < fm.len() && fm[i] == fb[j];
        assert(field_value(put_fields(mc, fm), fm[i].0) == Some(fm[i].1));
    }
}

} // verus!
