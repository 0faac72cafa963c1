//! JSON values as the record operations see them.

use vstd::prelude::*;

use crate::text::{lemma_text_order, push_text, same_text, text_less, text_lt};

verus! {

/// A JSON value.
///
/// Numbers hold their canonical decimal text (`30`, `-2`, `0.5`). The fields
/// of an object are kept sorted by name, each name once (see `Json::object`),
/// so that two values are the same JSON value exactly when they are equal.
#[derive(Debug)]
pub enum Json {
    Null,
    Bool(bool),
    Number(String),
    Str(String),
    Array(Vec<Json>),
    Object(Vec<(String, Json)>),
}

/// The mathematical value of a `Json`.
pub enum JsonV {
    Null,
    Bool(bool),
    Number(Seq<char>),
    Str(Seq<char>),
    Array(Seq<JsonV>),
    Object(Seq<(Seq<char>, JsonV)>),
}

impl View for Json {
    type V = JsonV;

    open spec fn view(&self) -> JsonV
        decreases self,
    {
        match self {
            Json::Null => JsonV::Null,
            Json::Bool(b) => JsonV::Bool(*b),
            Json::Number(n) => JsonV::Number(n@),
            Json::Str(s) => JsonV::Str(s@),
            Json::Array(items) => JsonV::Array(
                Seq::new(items@.len(), |i: int| if 0 <= i < items@.len() { items@[i].view() } else { JsonV::Null }),
            ),
            Json::Object(fields) => JsonV::Object(
                Seq::new(fields@.len(), |i: int| (fields@[i].0@, if 0 <= i < fields@.len() { fields@[i].1.view() } else { JsonV::Null })),
            ),
        }
    }
}

/// The view of a sequence of object fields.
pub open spec fn fields_view(fs: Seq<(String, Json)>) -> Seq<(Seq<char>, JsonV)> {
    Seq::new(fs.len(), |i: int| (fs[i].0@, fs[i].1@))
}

/// The view of a sequence of values.
pub open spec fn items_view(items: Seq<Json>) -> Seq<JsonV> {
    Seq::new(items.len(), |i: int| items[i]@)
}

/// The view of an object is the view of its fields.
pub proof fn lemma_object_view(fs: Vec<(String, Json)>)
    ensures
        Json::Object(fs)@ == JsonV::Object(fields_view(fs@)),
{
    let v = Json::Object(fs)@;
    match v {
        JsonV::Object(s) => {
            assert forall|i: int| 0 <= i < s.len() implies s[i] == fields_view(fs@)[i] by {
                assert(s[i].0 == fs@[i].0@);
                assert(s[i].1 == fs@[i].1@);
            }
            assert(s =~= fields_view(fs@));
        },
        _ => {},
    }
}

/// The view of an array is the view of its items.
pub proof fn lemma_array_view(items: Vec<Json>)
    ensures
        Json::Array(items)@ == JsonV::Array(items_view(items@)),
{
    let v = Json::Array(items)@;
    match v {
        JsonV::Array(s) => {
            assert(s =~= items_view(items@));
        },
        _ => {},
    }
}

// ---------------------------------------------------------------------------
// Objects
// ---------------------------------------------------------------------------

/// The field names are strictly increasing, so each occurs once.
pub open spec fn fields_sorted(fs: Seq<(Seq<char>, JsonV)>) -> bool {
    forall|i: int, j: int| 0 <= i < j < fs.len() ==> text_lt(#[trigger] fs[i].0, #[trigger] fs[j].0)
}

/// Every object inside the value, at any depth, has sorted field names.
pub open spec fn json_wf(v: JsonV) -> bool
    decreases v,
{
    match v {
        JsonV::Array(items) => forall|i: int| 0 <= i < items.len() ==> json_wf(#[trigger] items[i]),
        JsonV::Object(fs) => fields_sorted(fs) && forall|i: int| 0 <= i < fs.len() ==> json_wf(#[trigger] fs[i].1),
        _ => true,
    }
}

/// Whether the fields hold a field named `k`.
pub open spec fn has_field(fs: Seq<(Seq<char>, JsonV)>, k: Seq<char>) -> bool {
    exists|i: int| 0 <= i < fs.len() && fs[i].0 == k
}

/// The value of the field named `k`, if there is one.
pub open spec fn field_value(fs: Seq<(Seq<char>, JsonV)>, k: Seq<char>) -> Option<JsonV> {
    if has_field(fs, k) {
        Some(fs[choose|i: int| 0 <= i < fs.len() && fs[i].0 == k].1)
    } else {
        None
    }
}

/// The value of field `k` of an object; `None` for a value that is not an object.
pub open spec fn json_get(v: JsonV, k: Seq<char>) -> Option<JsonV> {
    match v {
        JsonV::Object(fs) => field_value(fs, k),
        _ => None,
    }
}

/// Sets field `k` to `v` in sorted fields: replaces the field of that name,
/// or inserts it before the first greater name.
pub open spec fn put_field(fs: Seq<(Seq<char>, JsonV)>, k: Seq<char>, v: JsonV) -> Seq<(Seq<char>, JsonV)>
    decreases fs.len(),
{
    if fs.len() == 0 {
        seq![(k, v)]
    } else if fs[0].0 == k {
        fs.update(0, (k, v))
    } else if text_lt(k, fs[0].0) {
        seq![(k, v)] + fs
    } else {
        seq![fs[0]] + put_field(fs.drop_first(), k, v)
    }
}

/// Sets each of `more`'s fields in turn, later ones overriding earlier ones.
pub open spec fn put_fields(fs: Seq<(Seq<char>, JsonV)>, more: Seq<(Seq<char>, JsonV)>) -> Seq<(Seq<char>, JsonV)>
    decreases more.len(),
{
    if more.len() == 0 {
        fs
    } else {
        put_field(put_fields(fs, more.drop_last()), more.last().0, more.last().1)
    }
}

proof fn lemma_sorted_unique(fs: Seq<(Seq<char>, JsonV)>, i: int, j: int)
    requires
        fields_sorted(fs),
        0 <= i < fs.len(),
        0 <= j < fs.len(),
        fs[i].0 == fs[j].0,
    ensures
        i == j,
{
    if i < j {
        lemma_text_order(fs[i].0, fs[j].0, fs[j].0);
    } else if j < i {
        lemma_text_order(fs[j].0, fs[i].0, fs[i].0);
    }
}

/// In sorted fields, the value of the field at position `i` is the value of its name.
pub proof fn lemma_field_value_at(fs: Seq<(Seq<char>, JsonV)>, i: int)
    requires
        fields_sorted(fs),
        0 <= i < fs.len(),
    ensures
        field_value(fs, fs[i].0) == Some(fs[i].1),
{
    assert(has_field(fs, fs[i].0));
    let j = choose|j: int| 0 <= j < fs.len() && fs[j].0 == fs[i].0;
    lemma_sorted_unique(fs, i, j);
}

/// Two sorted field lists with the same field names have them in the same
/// positions.
pub proof fn lemma_sorted_same_names(fa: Seq<(Seq<char>, JsonV)>, fb: Seq<(Seq<char>, JsonV)>)
    requires
        fields_sorted(fa),
        fields_sorted(fb),
        forall|k: Seq<char>| #[trigger] has_field(fa, k) <==> has_field(fb, k),
    ensures
        fa.len() == fb.len(),
        forall|i: int| 0 <= i < fa.len() ==> #[trigger] fa[i].0 == fb[i].0,
    decreases fa.len() + fb.len(),
{
    if fa.len() == 0 {
        if fb.len() > 0 {
            assert(has_field(fb, fb[0].0));
            assert(has_field(fa, fb[0].0));
        }
    } else if fb.len() == 0 {
        assert(has_field(fa, fa[0].0));
    } else {
        let la = fa.len() - 1;
        let lb = fb.len() - 1;
        let x = fa[la].0;
        let y = fb[lb].0;
        assert(has_field(fa, x));
        assert(has_field(fb, y));
        assert(has_field(fa, y));
        assert(has_field(fb, x));
        let j = choose|j: int| 0 <= j < fb.len() && fb[j].0 == x;
        let i = choose|i: int| 0 <= i < fa.len() && fa[i].0 == y;
        lemma_text_order(x, y, x);
        if x != y {
            assert(j < lb);
            assert(i < la);
            assert(text_lt(fb[j].0, fb[lb].0));
            assert(text_lt(fa[i].0, fa[la].0));
        }
        let ga = fa.drop_last();
        let gb = fb.drop_last();
        assert forall|k: Seq<char>| #[trigger] has_field(ga, k) <==> has_field(gb, k) by {
            if has_field(ga, k) {
                let p = choose|p: int| 0 <= p < ga.len() && ga[p].0 == k;
                assert(fa[p].0 == k);
                assert(has_field(fa, k));
                lemma_text_order(k, x, k);
                assert(text_lt(fa[p].0, fa[la].0));
                let q = choose|q: int| 0 <= q < fb.len() && fb[q].0 == k;
                assert(q != lb);
                assert(gb[q].0 == k);
            }
            if has_field(gb, k) {
                let q = choose|q: int| 0 <= q < gb.len() && gb[q].0 == k;
                assert(fb[q].0 == k);
                assert(has_field(fb, k));
                assert(has_field(fa, k));
                lemma_text_order(k, y, k);
                assert(text_lt(fb[q].0, fb[lb].0));
                let p = choose|p: int| 0 <= p < fa.len() && fa[p].0 == k;
                assert(p != la);
                assert(ga[p].0 == k);
            }
        }
        lemma_sorted_same_names(ga, gb);
        assert forall|i: int| 0 <= i < fa.len() implies #[trigger] fa[i].0 == fb[i].0 by {
            if i < la {
                assert(ga[i].0 == gb[i].0);
            }
        }
    }
}

/// Setting a field where `p` is the first position whose name is not below `k`.
proof fn lemma_put_field_at(fs: Seq<(Seq<char>, JsonV)>, k: Seq<char>, v: JsonV, p: int)
    requires
        0 <= p <= fs.len(),
        forall|j: int| 0 <= j < p ==> text_lt(#[trigger] fs[j].0, k),
        p < fs.len() ==> !text_lt(fs[p].0, k),
    ensures
        put_field(fs, k, v) == if p < fs.len() && fs[p].0 == k {
            fs.update(p, (k, v))
        } else {
            fs.insert(p, (k, v))
        },
    decreases p,
{
    if p == 0 {
        if fs.len() > 0 && fs[0].0 != k {
            lemma_text_order(fs[0].0, k, k);
            assert(text_lt(k, fs[0].0));
            assert(seq![(k, v)] + fs =~= fs.insert(0, (k, v)));
        }
        if fs.len() == 0 {
            assert(seq![(k, v)] =~= fs.insert(0, (k, v)));
        }
    } else {
        lemma_text_order(fs[0].0, k, k);
        assert(fs[0].0 != k);
        assert(!text_lt(k, fs[0].0));
        let rest = fs.drop_first();
        assert forall|j: int| 0 <= j < p - 1 implies text_lt(#[trigger] rest[j].0, k) by {
            assert(rest[j] == fs[j + 1]);
        }
        lemma_put_field_at(rest, k, v, p - 1);
        if p < fs.len() && fs[p].0 == k {
            assert(seq![fs[0]] + rest.update(p - 1, (k, v)) =~= fs.update(p, (k, v)));
        } else {
            assert(seq![fs[0]] + rest.insert(p - 1, (k, v)) =~= fs.insert(p, (k, v)));
        }
    }
}

/// The first position in sorted fields whose name is not below `k`.
proof fn lemma_put_field_position(fs: Seq<(Seq<char>, JsonV)>, k: Seq<char>) -> (p: int)
    requires
        fields_sorted(fs),
    ensures
        0 <= p <= fs.len(),
        forall|j: int| 0 <= j < p ==> text_lt(#[trigger] fs[j].0, k),
        p < fs.len() ==> !text_lt(fs[p].0, k),
        forall|j: int| p < j < fs.len() ==> text_lt(k, #[trigger] fs[j].0),
        p < fs.len() && fs[p].0 != k ==> text_lt(k, fs[p].0),
    decreases fs.len(),
{
    if fs.len() == 0 {
        0
    } else if !text_lt(fs[0].0, k) {
        assert forall|j: int| 0 < j < fs.len() implies text_lt(k, #[trigger] fs[j].0) by {
            lemma_text_order(k, fs[0].0, fs[j].0);
            lemma_text_order(fs[0].0, k, k);
        }
        lemma_text_order(fs[0].0, k, k);
        0
    } else {
        let rest = fs.drop_first();
        assert(fields_sorted(rest)) by {
            assert forall|a: int, b: int| 0 <= a < b < rest.len() implies text_lt(#[trigger] rest[a].0, #[trigger] rest[b].0) by {
                assert(rest[a] == fs[a + 1] && rest[b] == fs[b + 1]);
            }
        }
        let q = lemma_put_field_position(rest, k);
        assert forall|j: int| 0 <= j < q + 1 implies text_lt(#[trigger] fs[j].0, k) by {
            if j > 0 {
                assert(fs[j] == rest[j - 1]);
            }
        }
        assert forall|j: int| q + 1 < j < fs.len() implies text_lt(k, #[trigger] fs[j].0) by {
            assert(fs[j] == rest[j - 1]);
        }
        if q < rest.len() {
            assert(fs[q + 1] == rest[q]);
        }
        q + 1
    }
}

/// Setting a field in sorted fields keeps them sorted, sets that field and
/// keeps the others.
#[verifier::spinoff_prover]
pub proof fn lemma_put_field(fs: Seq<(Seq<char>, JsonV)>, k: Seq<char>, v: JsonV)
    requires
        fields_sorted(fs),
    ensures
        fields_sorted(put_field(fs, k, v)),
        field_value(put_field(fs, k, v), k) == Some(v),
        forall|k2: Seq<char>| k2 != k ==> #[trigger] field_value(put_field(fs, k, v), k2) == field_value(fs, k2),
        forall|i: int| 0 <= i < put_field(fs, k, v).len() ==> #[trigger] put_field(fs, k, v)[i] == (k, v) || exists|j: int| 0 <= j < fs.len() && put_field(fs, k, v)[i] == fs[j],
{
    let p = lemma_put_field_position(fs, k);
    lemma_put_field_at(fs, k, v, p);
    let r = put_field(fs, k, v);
    let replace = p < fs.len() && fs[p].0 == k;
    assert(fields_sorted(r)) by {
        assert forall|a: int, b: int| 0 <= a < b < r.len() implies text_lt(#[trigger] r[a].0, #[trigger] r[b].0) by {
            if replace {
                if a != p && b != p {
                } else if a == p {
                    assert(text_lt(k, fs[b].0));
                } else {
                    assert(text_lt(fs[a].0, k));
                }
            } else {
                if a < p && b < p {
                } else if a < p && b == p {
                } else if a < p && b > p {
                    assert(r[b] == fs[b - 1]);
                    lemma_text_order(fs[a].0, k, fs[b - 1].0);
                    if b - 1 > p {
                        assert(text_lt(k, fs[b - 1].0));
                    }
                } else if a == p {
                    assert(r[b] == fs[b - 1]);
                    if b - 1 > p {
                        assert(text_lt(k, fs[b - 1].0));
                    }
                } else {
                    assert(r[a] == fs[a - 1] && r[b] == fs[b - 1]);
                }
            }
        }
    }
    let pos = if replace { p } else { p };
    assert(r[pos] == (k, v));
    lemma_field_value_at(r, pos);
    assert forall|k2: Seq<char>| k2 != k implies #[trigger] field_value(r, k2) == field_value(fs, k2) by {
        if has_field(fs, k2) {
            let j = choose|j: int| 0 <= j < fs.len() && fs[j].0 == k2;
            lemma_field_value_at(fs, j);
            let jr = if replace || j < p { j } else { j + 1 };
            assert(r[jr] == fs[j]);
            lemma_field_value_at(r, jr);
        }
        if has_field(r, k2) {
            let i = choose|i: int| 0 <= i < r.len() && r[i].0 == k2;
            let j = if replace || i < p { i } else { i - 1 };
            assert(r[i] == fs[j]);
        }
    }
    assert forall|i: int| 0 <= i < r.len() implies #[trigger] r[i] == (k, v) || exists|j: int| 0 <= j < fs.len() && r[i] == fs[j] by {
        if i != pos {
            let j = if replace || i < p { i } else { i - 1 };
            assert(r[i] == fs[j]);
        }
    }
}

/// Sets field `k` to `v` in sorted fields.
pub fn put_field_exec(fields: Vec<(String, Json)>, k: String, v: Json) -> (r: Vec<(String, Json)>)
    requires
        fields_sorted(fields_view(fields@)),
    ensures
        fields_view(r@) == put_field(fields_view(fields@), k@, v@),
{
    let ghost fs = fields_view(fields@);
    let mut fields = fields;
    let mut p: usize = 0;
    while p < fields.len() && text_less(&fields[p].0, &k)
        invariant
            p <= fields@.len(),
            fs == fields_view(fields@),
            forall|j: int| 0 <= j < p ==> text_lt(#[trigger] fs[j].0, k@),
        decreases fields@.len() - p,
    {
        p = p + 1;
    }
    proof {
        lemma_put_field_at(fs, k@, v@, p as int);
    }
    let ghost kv = (k@, v@);
    if p < fields.len() && same_text(&fields[p].0, &k) {
        fields.set(p, (k, v));
        proof {
            assert(fields_view(fields@) =~= fs.update(p as int, kv));
        }
    } else {
        fields.insert(p, (k, v));
        proof {
            assert(fields_view(fields@) =~= fs.insert(p as int, kv));
        }
    }
    fields
}

/// Whether the fields hold the field `f`, name and value.
pub open spec fn holds_field(fs: Seq<(Seq<char>, JsonV)>, f: (Seq<char>, JsonV)) -> bool {
    exists|j: int| 0 <= j < fs.len() && fs[j] == f
}

/// Setting fields that sorted fields already hold, with the same values,
/// leaves them as they are.
pub proof fn lemma_put_existing_fields(fs: Seq<(Seq<char>, JsonV)>, more: Seq<(Seq<char>, JsonV)>)
    requires
        fields_sorted(fs),
        forall|i: int| 0 <= i < more.len() ==> holds_field(fs, #[trigger] more[i]),
    ensures
        put_fields(fs, more) == fs,
    decreases more.len(),
{
    if more.len() > 0 {
        let init = more.drop_last();
        assert forall|i: int| 0 <= i < init.len() implies holds_field(fs, #[trigger] init[i]) by {
            assert(init[i] == more[i]);
        }
        lemma_put_existing_fields(fs, init);
        let (k, v) = more.last();
        assert(holds_field(fs, more[more.len() - 1]));
        let j = choose|j: int| 0 <= j < fs.len() && fs[j] == more[more.len() - 1];
        let p = lemma_put_field_position(fs, k);
        lemma_text_order(k, k, k);
        if j < p {
            assert(text_lt(fs[j].0, k));
        } else if j > p {
            assert(text_lt(k, fs[j].0));
        }
        lemma_put_field_at(fs, k, v, p);
        assert(fs.update(p, (k, v)) =~= fs);
    }
}

/// Setting a field that sorted fields lack adds one field.
proof fn lemma_put_field_new(fs: Seq<(Seq<char>, JsonV)>, k: Seq<char>, v: JsonV)
    requires
        fields_sorted(fs),
        !has_field(fs, k),
    ensures
        put_field(fs, k, v).len() == fs.len() + 1,
{
    let p = lemma_put_field_position(fs, k);
    lemma_put_field_at(fs, k, v, p);
    if p < fs.len() && fs[p].0 == k {
        assert(has_field(fs, k));
    }
}

/// Setting fields of distinct names, from no fields, gives one field per
/// name, sorted.
pub proof fn lemma_put_fields_distinct(more: Seq<(Seq<char>, JsonV)>)
    requires
        forall|i: int, j: int| 0 <= i < j < more.len() ==> #[trigger] more[i].0 != #[trigger] more[j].0,
    ensures
        put_fields(Seq::empty(), more).len() == more.len(),
        fields_sorted(put_fields(Seq::empty(), more)),
        forall|k: Seq<char>| #[trigger] has_field(put_fields(Seq::empty(), more), k)
            <==> exists|i: int| 0 <= i < more.len() && more[i].0 == k,
    decreases more.len(),
{
    if more.len() == 0 {
        assert(fields_sorted(Seq::<(Seq<char>, JsonV)>::empty()));
    } else {
        let init = more.drop_last();
        assert forall|i: int, j: int| 0 <= i < j < init.len() implies #[trigger] init[i].0 != #[trigger] init[j].0 by {
            assert(init[i] == more[i] && init[j] == more[j]);
        }
        lemma_put_fields_distinct(init);
        let fs = put_fields(Seq::empty(), init);
        let (k, v) = more.last();
        assert(!has_field(fs, k)) by {
            if has_field(fs, k) {
                let i = choose|i: int| 0 <= i < init.len() && init[i].0 == k;
                assert(more[i].0 == more[more.len() - 1].0);
            }
        }
        lemma_put_field_new(fs, k, v);
        lemma_put_field(fs, k, v);
        let r = put_field(fs, k, v);
        assert forall|k2: Seq<char>| #[trigger] has_field(r, k2)
            <==> exists|i: int| 0 <= i < more.len() && more[i].0 == k2 by {
            if k2 == k {
                assert(field_value(r, k) == Some(v));
                assert(more[more.len() - 1].0 == k2);
            } else {
                assert(field_value(r, k2) == field_value(fs, k2));
                if has_field(fs, k2) {
                    let i = choose|i: int| 0 <= i < init.len() && init[i].0 == k2;
                    assert(more[i].0 == k2);
                }
                if exists|i: int| 0 <= i < more.len() && more[i].0 == k2 {
                    let i = choose|i: int| 0 <= i < more.len() && more[i].0 == k2;
                    assert(i < more.len() - 1);
                    assert(init[i].0 == k2);
                }
            }
        }
    }
}

/// Whether some field of `fs` is named `k`: `has_field` for a sequence
/// that need not be sorted.
pub open spec fn names_field(fs: Seq<(Seq<char>, JsonV)>, k: Seq<char>) -> bool {
    exists|i: int| 0 <= i < fs.len() && fs[i].0 == k
}

/// Setting fields of distinct names into sorted fields: the result is
/// sorted, each set field holds its value, and every other name keeps what
/// it had.
pub proof fn lemma_put_fields_values(fs: Seq<(Seq<char>, JsonV)>, more: Seq<(Seq<char>, JsonV)>)
    requires
        fields_sorted(fs),
        forall|i: int, j: int| 0 <= i < j < more.len() ==> #[trigger] more[i].0 != #[trigger] more[j].0,
    ensures
        fields_sorted(put_fields(fs, more)),
        forall|i: int| #![trigger more[i]] 0 <= i < more.len() ==> field_value(put_fields(fs, more), more[i].0) == Some(more[i].1),
        forall|k: Seq<char>| !names_field(more, k) ==> #[trigger] field_value(put_fields(fs, more), k) == field_value(fs, k),
    decreases more.len(),
{
    if more.len() > 0 {
        let init = more.drop_last();
        assert forall|i: int, j: int| 0 <= i < j < init.len() implies #[trigger] init[i].0 != #[trigger] init[j].0 by {
            assert(init[i] == more[i] && init[j] == more[j]);
        }
        lemma_put_fields_values(fs, init);
        let r0 = put_fields(fs, init);
        let (k, v) = more.last();
        lemma_put_field(r0, k, v);
        let r = put_field(r0, k, v);
        assert forall|i: int| #![trigger more[i]] 0 <= i < more.len() implies field_value(r, more[i].0) == Some(more[i].1) by {
            if i < more.len() - 1 {
                assert(init[i] == more[i]);
                assert(more[i].0 != more[more.len() - 1].0);
            }
        }
        assert forall|k2: Seq<char>| !names_field(more, k2) implies #[trigger] field_value(r, k2) == field_value(fs, k2) by {
            assert(more[more.len() - 1].0 != k2);
            if names_field(init, k2) {
                let i = choose|i: int| 0 <= i < init.len() && init[i].0 == k2;
                assert(more[i].0 == k2);
            }
        }
    }
}

/// A value is well formed when every object in it has sorted field names.
pub open spec fn fields_wf(fs: Seq<(Seq<char>, JsonV)>) -> bool {
    forall|i: int| 0 <= i < fs.len() ==> json_wf(#[trigger] fs[i].1)
}

pub proof fn lemma_put_field_wf(fs: Seq<(Seq<char>, JsonV)>, k: Seq<char>, v: JsonV)
    requires
        fields_sorted(fs),
        fields_wf(fs),
        json_wf(v),
    ensures
        fields_sorted(put_field(fs, k, v)),
        fields_wf(put_field(fs, k, v)),
{
    lemma_put_field(fs, k, v);
    let r = put_field(fs, k, v);
    assert forall|i: int| 0 <= i < r.len() implies json_wf(#[trigger] r[i].1) by {
        if r[i] != (k, v) {
            let j = choose|j: int| 0 <= j < fs.len() && r[i] == fs[j];
            assert(json_wf(fs[j].1));
        }
    }
}

pub proof fn lemma_put_fields_wf(fs: Seq<(Seq<char>, JsonV)>, more: Seq<(Seq<char>, JsonV)>)
    requires
        fields_sorted(fs),
        fields_wf(fs),
        fields_wf(more),
    ensures
        fields_sorted(put_fields(fs, more)),
        fields_wf(put_fields(fs, more)),
    decreases more.len(),
{
    if more.len() > 0 {
        assert(fields_wf(more.drop_last())) by {
            assert forall|i: int| 0 <= i < more.len() - 1 implies json_wf(#[trigger] more.drop_last()[i].1) by {
                assert(more.drop_last()[i] == more[i]);
            }
        }
        lemma_put_fields_wf(fs, more.drop_last());
        assert(json_wf(more[more.len() - 1].1));
        lemma_put_field_wf(put_fields(fs, more.drop_last()), more.last().0, more.last().1);
    }
}

impl Json {
    /// Whether every object in the value, at any depth, has its fields sorted
    /// by name with each name once.
    pub open spec fn wf(&self) -> bool {
        json_wf(self@)
    }

    /// The object with the given fields; a later field replaces an earlier
    /// field of the same name.
    pub fn object(fields: Vec<(String, Json)>) -> (r: Json)
        ensures
            r@ == JsonV::Object(put_fields(Seq::empty(), fields_view(fields@))),
            fields_wf(fields_view(fields@)) ==> r.wf(),
    {
        let mut result: Vec<(String, Json)> = Vec::new();
        let ghost orig = fields@;
        let ghost all = fields_view(fields@);
        let mut rest = fields;
        proof {
            assert(fields_view(result@) =~= put_fields(Seq::empty(), all.take(0)));
            assert(rest@ =~= orig.skip(0));
        }
        let n = rest.len();
        let mut i: usize = 0;
        while i < n
            invariant
                n == all.len(),
                n == orig.len(),
                all == fields_view(orig),
                i <= n,
                rest@ == orig.skip(i as int),
                fields_sorted(fields_view(result@)),
                fields_view(result@) == put_fields(Seq::empty(), all.take(i as int)),
            decreases n - i,
        {
            let (k, v) = rest.remove(0);
            proof {
                assert(rest@ =~= orig.skip(i + 1));
                assert(all.take(i + 1).drop_last() =~= all.take(i as int));
                assert(k@ == all[i as int].0 && v@ == all[i as int].1);
                lemma_put_field(fields_view(result@), k@, v@);
            }
            result = put_field_exec(result, k, v);
            i = i + 1;
        }
        proof {
            assert(all.take(i as int) =~= all);
            assert(Seq::<(Seq<char>, JsonV)>::empty() =~= Seq::empty());
            if fields_wf(all) {
                lemma_put_fields_wf(Seq::empty(), all);
            }
            lemma_object_view(result);
        }
        Json::Object(result)
    }
}

impl Json {
    /// The value of field `key` of an object; `None` for a value that is not an
    /// object or has no such field.
    pub fn get(&self, key: &str) -> (r: Option<&Json>)
        requires
            self.wf(),
        ensures
            match r {
                Some(x) => json_get(self@, key@) == Some(x@),
                None => json_get(self@, key@) is None,
            },
    {
        match self {
            Json::Object(fields) => {
                proof {
                    lemma_object_view(*fields);
                }
                let ghost fs = fields_view(fields@);
                assert(self@ == JsonV::Object(fs));
                let mut i: usize = 0;
                while i < fields.len()
                    invariant
                        i <= fields@.len(),
                        fs == fields_view(fields@),
                        self@ == JsonV::Object(fs),
                        json_wf(self@),
                        forall|j: int| 0 <= j < i ==> fs[j].0 != key@,
                    decreases fields@.len() - i,
                {
                    if same_text(&fields[i].0, key) {
                        proof {
                            lemma_field_value_at(fs, i as int);
                        }
                        return Some(&fields[i].1);
                    }
                    i = i + 1;
                }
                None
            },
            _ => None,
        }
    }
}

/// Whether a number text is the float zero, `0.0`, or negative zero, `-0.0`.
pub open spec fn zero_float(x: Seq<char>) -> bool {
    x == seq!['0', '.', '0'] || x == seq!['-', '0', '.', '0']
}

/// Whether two number texts stand for the same number as `serde_json`
/// compares numbers: the same text, or the float zero and negative zero,
/// which compare equal.
pub open spec fn same_number(x: Seq<char>, y: Seq<char>) -> bool {
    x == y || (zero_float(x) && zero_float(y))
}

/// Whether two values are equal as `serde_json` compares values: numbers by
/// `same_number`, arrays item by item, objects field by field in order (name
/// and value), anything else by identity.
pub open spec fn json_same(a: JsonV, b: JsonV) -> bool
    decreases a,
{
    match a {
        JsonV::Number(x) => match b {
            JsonV::Number(y) => same_number(x, y),
            _ => false,
        },
        JsonV::Array(xs) => match b {
            JsonV::Array(ys) => xs.len() == ys.len() && forall|i: int| #![trigger xs[i]] 0 <= i < xs.len() ==> json_same(xs[i], ys[i]),
            _ => false,
        },
        JsonV::Object(fs) => match b {
            JsonV::Object(gs) => fs.len() == gs.len() && forall|i: int| #![trigger fs[i]]
                0 <= i < fs.len() ==> fs[i].0 == gs[i].0 && json_same(fs[i].1, gs[i].1),
            _ => false,
        },
        _ => a == b,
    }
}

/// Every value is equal to itself.
pub proof fn lemma_json_same_refl(a: JsonV)
    ensures
        json_same(a, a),
    decreases a,
{
    match a {
        JsonV::Array(xs) => {
            assert forall|i: int| #![trigger xs[i]] 0 <= i < xs.len() implies json_same(xs[i], xs[i]) by {
                lemma_json_same_refl(xs[i]);
            }
        },
        JsonV::Object(fs) => {
            assert forall|i: int| #![trigger fs[i]] 0 <= i < fs.len() implies fs[i].0 == fs[i].0 && json_same(fs[i].1, fs[i].1) by {
                lemma_json_same_refl(fs[i].1);
            }
        },
        _ => {},
    }
}

/// Whether a number text is the float zero or negative zero.
fn is_zero_float(x: &str) -> (r: bool)
    ensures
        r == zero_float(x@),
{
    let z = "0.0";
    let n = "-0.0";
    proof {
        reveal_strlit("0.0");
        reveal_strlit("-0.0");
        assert(z@ =~= seq!['0', '.', '0']);
        assert(n@ =~= seq!['-', '0', '.', '0']);
    }
    same_text(x, z) || same_text(x, n)
}

/// Whether two values are equal as `serde_json` compares them.
pub fn json_equal(a: &Json, b: &Json) -> (r: bool)
    ensures
        r == json_same(a@, b@),
    decreases a,
{
    match a {
        Json::Null => match b {
            Json::Null => true,
            _ => false,
        },
        Json::Bool(x) => match b {
            Json::Bool(y) => *x == *y,
            _ => false,
        },
        Json::Number(x) => match b {
            Json::Number(y) => same_text(x, y) || (is_zero_float(x) && is_zero_float(y)),
            _ => false,
        },
        Json::Str(x) => match b {
            Json::Str(y) => same_text(x, y),
            _ => false,
        },
        Json::Array(xs) => match b {
            Json::Array(ys) => {
                proof {
                    lemma_array_view(*xs);
                    lemma_array_view(*ys);
                    assert(a@ == JsonV::Array(items_view(xs@)));
                    assert(b@ == JsonV::Array(items_view(ys@)));
                }
                if xs.len() != ys.len() {
                    assert(items_view(xs@).len() != items_view(ys@).len());
                    return false;
                }
                let mut i: usize = 0;
                while i < xs.len()
                    invariant
                        i <= xs@.len(),
                        xs@.len() == ys@.len(),
                        forall|j: int| #![trigger xs@[j]] 0 <= j < i ==> json_same(xs@[j]@, ys@[j]@),
                        *a == Json::Array(*xs),
                        a@ == JsonV::Array(items_view(xs@)),
                        b@ == JsonV::Array(items_view(ys@)),
                    decreases xs@.len() - i,
                {
                    proof {
                        assert(decreases_to!(*a => *xs));
                        assert(decreases_to!(*xs => xs@));
                        assert(decreases_to!(xs@ => xs@[i as int]));
                    }
                    if !json_equal(&xs[i], &ys[i]) {
                        proof {
                            assert(!json_same(items_view(xs@)[i as int], items_view(ys@)[i as int]));
                        }
                        return false;
                    }
                    i = i + 1;
                }
                proof {
                    assert forall|j: int| #![trigger items_view(xs@)[j]] 0 <= j < items_view(xs@).len() implies json_same(items_view(xs@)[j], items_view(ys@)[j]) by {
                        assert(json_same(xs@[j]@, ys@[j]@));
                    }
                }
                true
            },
            _ => false,
        },
        Json::Object(xs) => match b {
            Json::Object(ys) => {
                proof {
                    lemma_object_view(*xs);
                    lemma_object_view(*ys);
                    assert(a@ == JsonV::Object(fields_view(xs@)));
                    assert(b@ == JsonV::Object(fields_view(ys@)));
                }
                if xs.len() != ys.len() {
                    assert(fields_view(xs@).len() != fields_view(ys@).len());
                    return false;
                }
                let mut i: usize = 0;
                while i < xs.len()
                    invariant
                        i <= xs@.len(),
                        xs@.len() == ys@.len(),
                        forall|j: int| #![trigger xs@[j]] 0 <= j < i ==> xs@[j].0@ == ys@[j].0@ && json_same(xs@[j].1@, ys@[j].1@),
                        *a == Json::Object(*xs),
                        a@ == JsonV::Object(fields_view(xs@)),
                        b@ == JsonV::Object(fields_view(ys@)),
                    decreases xs@.len() - i,
                {
                    proof {
                        assert(decreases_to!(*a => *xs));
                        assert(decreases_to!(*xs => xs@));
                        assert(decreases_to!(xs@ => xs@[i as int]));
                        assert(decreases_to!(xs@[i as int] => xs@[i as int].1));
                    }
                    if !same_text(&xs[i].0, &ys[i].0) {
                        proof {
                            assert(fields_view(xs@)[i as int].0 != fields_view(ys@)[i as int].0);
                        }
                        return false;
                    }
                    if !json_equal(&xs[i].1, &ys[i].1) {
                        proof {
                            assert(!json_same(fields_view(xs@)[i as int].1, fields_view(ys@)[i as int].1));
                        }
                        return false;
                    }
                    i = i + 1;
                }
                proof {
                    let fa = fields_view(xs@);
                    let fb = fields_view(ys@);
                    assert forall|j: int| #![trigger fa[j]] 0 <= j < fa.len() implies fa[j].0 == fb[j].0 && json_same(fa[j].1, fb[j].1) by {
                        assert(xs@[j].0@ == ys@[j].0@ && json_same(xs@[j].1@, ys@[j].1@));
                    }
                }
                true
            },
            _ => false,
        },
    }
}

// ---------------------------------------------------------------------------
// JSON text
// ---------------------------------------------------------------------------

#[verifier::external_type_specification]
#[verifier::external_body]
pub struct ExJsonValue(serde_json::Value);

/// The `serde_json` value for a library value, variant by variant; a number
/// is parsed from its text (a text that is no number stays a string).
#[verifier::external_body]
fn value_of(v: &Json) -> serde_json::Value {
    match v {
        Json::Null => serde_json::Value::Null,
        Json::Bool(b) => serde_json::Value::Bool(*b),
        Json::Number(n) => match n.parse::<serde_json::Number>() {
            Ok(x) => serde_json::Value::Number(x),
            Err(_) => serde_json::Value::String(n.clone()),
        },
        Json::Str(s) => serde_json::Value::String(s.clone()),
        Json::Array(items) => serde_json::Value::Array(items.iter().map(value_of).collect()),
        Json::Object(fields) => serde_json::Value::Object(fields.iter().map(|(k, x)| (k.clone(), value_of(x))).collect()),
    }
}

/// The compact JSON text that `serde_json::to_string` writes for a value:
/// no spaces, strings escaped, object fields in order of name.
pub uninterp spec fn json_text(v: JsonV) -> Seq<char>;

/// Calls `serde_json::to_string` on the `serde_json` value of `v`. The text
/// is a function of the value alone, named `json_text`; serialising a
/// `serde_json::Value` into a string does not fail.
#[verifier::external_body]
fn compact_text(v: &Json) -> (r: String)
    ensures
        r@ == json_text(v@),
{
    match serde_json::to_string(&value_of(v)) {
        Ok(t) => t,
        Err(_) => String::new(),
    }
}

/// The indented JSON text that `serde_json::to_string_pretty` writes for a
/// value: two spaces per level, each item and field on a line of its own.
pub uninterp spec fn pretty_json(v: JsonV) -> Seq<char>;

/// Calls `serde_json::to_string_pretty` on the `serde_json` value of `v`.
/// The text is a function of the value alone, named `pretty_json`;
/// serialising a `serde_json::Value` into a string does not fail.
#[verifier::external_body]
fn pretty_text(v: &Json) -> (r: String)
    ensures
        r@ == pretty_json(v@),
{
    match serde_json::to_string_pretty(&value_of(v)) {
        Ok(t) => t,
        Err(_) => String::new(),
    }
}

/// Appends the compact JSON text of a value.
pub fn write_json(out: &mut String, v: &Json)
    ensures
        final(out)@ == old(out)@ + json_text(v@),
{
    let t = compact_text(v);
    push_text(out, t.as_str());
}

impl Json {
    /// The compact JSON text of the value.
    pub fn to_text(&self) -> (r: String)
        ensures
            r@ == json_text(self@),
    {
        compact_text(self)
    }

    /// The indented JSON text of the value.
    pub fn to_pretty_text(&self) -> (r: String)
        ensures
            r@ == pretty_json(self@),
    {
        pretty_text(self)
    }
}

/// A copy of a value.
pub fn copy_json(v: &Json) -> (r: Json)
    ensures
        r@ == v@,
    decreases v,
{
    match v {
        Json::Null => Json::Null,
        Json::Bool(b) => Json::Bool(*b),
        Json::Number(n) => Json::Number(n.clone()),
        Json::Str(s) => Json::Str(s.clone()),
        Json::Array(xs) => {
            proof {
                lemma_array_view(*xs);
                assert forall|j: int| 0 <= j < xs@.len() implies decreases_to!(*v => #[trigger] xs@[j]) by {
                    assert(decreases_to!(*v => *xs));
                    assert(decreases_to!(*xs => xs@));
                    assert(decreases_to!(xs@ => xs@[j]));
                }
            }
            let mut ys: Vec<Json> = Vec::new();
            let mut i: usize = 0;
            while i < xs.len()
                invariant
                    i <= xs@.len(),
                    ys@.len() == i,
                    forall|j: int| 0 <= j < i ==> #[trigger] ys@[j]@ == xs@[j]@,
                    forall|j: int| 0 <= j < xs@.len() ==> decreases_to!(*v => #[trigger] xs@[j]),
                decreases xs@.len() - i,
            {
                ys.push(copy_json(&xs[i]));
                i = i + 1;
            }
            proof {
                lemma_array_view(ys);
                assert(items_view(ys@) =~= items_view(xs@));
            }
            Json::Array(ys)
        },
        Json::Object(fs) => {
            proof {
                lemma_object_view(*fs);
                assert forall|j: int| 0 <= j < fs@.len() implies decreases_to!(*v => #[trigger] fs@[j].1) by {
                    assert(decreases_to!(*v => *fs));
                    assert(decreases_to!(*fs => fs@));
                    assert(decreases_to!(fs@ => fs@[j]));
                    assert(decreases_to!(fs@[j] => fs@[j].1));
                }
            }
            let mut gs: Vec<(String, Json)> = Vec::new();
            let mut i: usize = 0;
            while i < fs.len()
                invariant
                    i <= fs@.len(),
                    gs@.len() == i,
                    forall|j: int| 0 <= j < i ==> #[trigger] gs@[j].0@ == fs@[j].0@ && gs@[j].1@ == fs@[j].1@,
                    forall|j: int| 0 <= j < fs@.len() ==> decreases_to!(*v => #[trigger] fs@[j].1),
                decreases fs@.len() - i,
            {
                let name = fs[i].0.clone();
                let value = copy_json(&fs[i].1);
                gs.push((name, value));
                i = i + 1;
            }
            proof {
                lemma_object_view(gs);
                assert(fields_view(gs@) =~= fields_view(fs@));
            }
            Json::Object(gs)
        },
    }
}

impl Clone for Json {
    fn clone(&self) -> (r: Self)
        ensures
            r@ == self@,
    {
        copy_json(self)
    }
}

impl PartialEq for Json {
    fn eq(&self, other: &Self) -> (r: bool) {
        json_equal(self, other)
    }
}

impl vstd::std_specs::cmp::PartialEqSpecImpl for Json {
    open spec fn obeys_eq_spec() -> bool {
        true
    }

    open spec fn eq_spec(&self, other: &Self) -> bool {
        json_same(self@, other@)
    }
}

} // verus!
