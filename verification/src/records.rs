//! Record tables: the records of a JSON document and the rows of a CSV table.

use vstd::prelude::*;

use crate::json::{items_view, json_get, json_text, json_wf, lemma_array_view, lemma_object_view, Json, JsonV};
use crate::merge::all_wf;
use crate::text::{push_text, same_text};

verus! {

// ---------------------------------------------------------------------------
// Records of a JSON document
// ---------------------------------------------------------------------------

/// The records that a JSON document holds: the items of an array, or an
/// object as the one record; none for any other value.
pub open spec fn document_records(v: JsonV) -> Option<Seq<JsonV>> {
    match v {
        JsonV::Array(items) => Some(items),
        JsonV::Object(_) => Some(seq![v]),
        _ => None,
    }
}

/// The records of a parsed JSON document; `None` when the document is
/// neither an array nor an object.
pub fn records_from_json(v: Json) -> (r: Option<Vec<Json>>)
    ensures
        match r {
            Some(rs) => document_records(v@) == Some(items_view(rs@)),
            None => document_records(v@) is None,
        },
{
    let ghost doc = v@;
    match v {
        Json::Array(items) => {
            proof {
                lemma_array_view(items);
            }
            Some(items)
        },
        Json::Object(fields) => {
            let obj = Json::Object(fields);
            assert(obj@ == doc);
            let mut rs: Vec<Json> = Vec::new();
            rs.push(obj);
            proof {
                assert(items_view(rs@) =~= seq![doc]);
            }
            Some(rs)
        },
        _ => None,
    }
}

// ---------------------------------------------------------------------------
// Rows of a CSV table
// ---------------------------------------------------------------------------

/// The field names of an object, in order; none for any other value.
pub open spec fn field_names(v: JsonV) -> Seq<Seq<char>> {
    match v {
        JsonV::Object(fs) => Seq::new(fs.len(), |i: int| fs[i].0),
        _ => Seq::empty(),
    }
}

/// The names of `hs`, then each of `names` that is not there yet, in order.
pub open spec fn add_names(hs: Seq<Seq<char>>, names: Seq<Seq<char>>) -> Seq<Seq<char>>
    decreases names.len(),
{
    if names.len() == 0 {
        hs
    } else {
        let before = add_names(hs, names.drop_last());
        if before.contains(names.last()) {
            before
        } else {
            before.push(names.last())
        }
    }
}

/// The column names of a table of records: every field name of the records,
/// once, in the order of first appearance.
pub open spec fn table_headers(records: Seq<JsonV>) -> Seq<Seq<char>>
    decreases records.len(),
{
    if records.len() == 0 {
        Seq::empty()
    } else {
        add_names(table_headers(records.drop_last()), field_names(records.last()))
    }
}

/// The text of a record's cell in column `h`: a string itself, nothing for
/// null or a missing field, the compact JSON text of any other value.
pub open spec fn cell_text(v: JsonV, h: Seq<char>) -> Seq<char> {
    match json_get(v, h) {
        Some(JsonV::Str(s)) => s,
        Some(JsonV::Null) => Seq::empty(),
        Some(x) => json_text(x),
        None => Seq::empty(),
    }
}

/// The cells of a record under the given columns.
pub open spec fn table_row(v: JsonV, hs: Seq<Seq<char>>) -> Seq<Seq<char>> {
    Seq::new(hs.len(), |i: int| cell_text(v, hs[i]))
}

/// The rows of the CSV table of the records: the column names, then one row
/// per record; no rows at all for no records.
pub open spec fn csv_table(records: Seq<JsonV>) -> Seq<Seq<Seq<char>>> {
    if records.len() == 0 {
        Seq::empty()
    } else {
        let hs = table_headers(records);
        seq![hs] + Seq::new(records.len(), |i: int| table_row(records[i], hs))
    }
}

/// The texts of a sequence of strings.
pub open spec fn strings_view(s: Seq<String>) -> Seq<Seq<char>> {
    Seq::new(s.len(), |i: int| s[i]@)
}

/// The texts of a sequence of rows.
pub open spec fn table_view(rows: Seq<Vec<String>>) -> Seq<Seq<Seq<char>>> {
    Seq::new(rows.len(), |i: int| strings_view(rows[i]@))
}

/// Whether `name` is among `hs`.
fn has_name(hs: &Vec<String>, name: &String) -> (r: bool)
    ensures
        r == strings_view(hs@).contains(name@),
{
    let mut i: usize = 0;
    while i < hs.len()
        invariant
            i <= hs@.len(),
            forall|j: int| 0 <= j < i ==> hs@[j]@ != name@,
        decreases hs@.len() - i,
    {
        if same_text(&hs[i], name) {
            assert(strings_view(hs@)[i as int] == name@);
            return true;
        }
        i = i + 1;
    }
    proof {
        if strings_view(hs@).contains(name@) {
            let j = choose|j: int| 0 <= j < strings_view(hs@).len() && strings_view(hs@)[j] == name@;
            assert(hs@[j]@ == name@);
        }
    }
    false
}

/// The column names of the records.
fn collect_headers(records: &[Json]) -> (r: Vec<String>)
    ensures
        strings_view(r@) == table_headers(items_view(records@)),
{
    let ghost items = items_view(records@);
    let mut hs: Vec<String> = Vec::new();
    let mut i: usize = 0;
    proof {
        assert(strings_view(hs@) =~= table_headers(items.take(0)));
    }
    while i < records.len()
        invariant
            items == items_view(records@),
            i <= records@.len(),
            strings_view(hs@) == table_headers(items.take(i as int)),
        decreases records@.len() - i,
    {
        let ghost base = strings_view(hs@);
        let ghost names = field_names(items[i as int]);
        proof {
            assert(items.take(i + 1).drop_last() =~= items.take(i as int));
            assert(items.take(i + 1).last() == items[i as int]);
        }
        match &records[i] {
            Json::Object(fields) => {
                proof {
                    lemma_object_view(*fields);
                    assert(names.len() == fields@.len());
                    assert(names =~= Seq::new(fields@.len() as nat, |j: int| fields@[j].0@));
                    assert(strings_view(hs@) == add_names(base, names.take(0)));
                }
                let mut j: usize = 0;
                while j < fields.len()
                    invariant
                        j <= fields@.len(),
                        names == Seq::new(fields@.len() as nat, |x: int| fields@[x].0@),
                        strings_view(hs@) == add_names(base, names.take(j as int)),
                    decreases fields@.len() - j,
                {
                    let ghost prev = hs@;
                    proof {
                        assert(names.take(j + 1).drop_last() =~= names.take(j as int));
                        assert(names.take(j + 1).last() == fields@[j as int].0@);
                    }
                    if !has_name(&hs, &fields[j].0) {
                        hs.push(fields[j].0.clone());
                        proof {
                            assert(strings_view(hs@) =~= strings_view(prev).push(fields@[j as int].0@));
                        }
                    }
                    j = j + 1;
                }
                proof {
                    assert(names.take(j as int) =~= names);
                }
            },
            _ => {
                proof {
                    assert(names =~= Seq::<Seq<char>>::empty());
                }
            },
        }
        i = i + 1;
    }
    proof {
        assert(items.take(i as int) =~= items);
    }
    hs
}

/// The text of a record's cell in column `h`.
fn cell_string(rec: &Json, h: &str) -> (r: String)
    requires
        rec.wf(),
    ensures
        r@ == cell_text(rec@, h@),
{
    match rec.get(h) {
        Some(Json::Str(s)) => s.clone(),
        Some(Json::Null) => String::new(),
        Some(v) => v.to_text(),
        None => String::new(),
    }
}

/// The cells of a record under the given columns.
fn row_of(rec: &Json, hs: &Vec<String>) -> (r: Vec<String>)
    requires
        rec.wf(),
    ensures
        strings_view(r@) == table_row(rec@, strings_view(hs@)),
{
    let mut row: Vec<String> = Vec::new();
    let mut i: usize = 0;
    while i < hs.len()
        invariant
            rec.wf(),
            i <= hs@.len(),
            row@.len() == i,
            forall|j: int| 0 <= j < i ==> #[trigger] row@[j]@ == cell_text(rec@, hs@[j]@),
        decreases hs@.len() - i,
    {
        row.push(cell_string(rec, hs[i].as_str()));
        i = i + 1;
    }
    proof {
        assert(strings_view(row@) =~= table_row(rec@, strings_view(hs@)));
    }
    row
}

/// The rows of the CSV table of JSON records: a header row with every field
/// name in the order of first appearance, then each record's cells; no rows
/// for no records.
pub fn csv_rows(records: &[Json]) -> (r: Vec<Vec<String>>)
    requires
        all_wf(items_view(records@)),
    ensures
        table_view(r@) == csv_table(items_view(records@)),
{
    let mut rows: Vec<Vec<String>> = Vec::new();
    if records.len() == 0 {
        proof {
            assert(table_view(rows@) =~= csv_table(items_view(records@)));
        }
        return rows;
    }
    let hs = collect_headers(records);
    let ghost items = items_view(records@);
    let ghost cols = strings_view(hs@);
    let mut i: usize = 0;
    while i < records.len()
        invariant
            items == items_view(records@),
            all_wf(items),
            cols == strings_view(hs@),
            i <= records@.len(),
            rows@.len() == i,
            forall|j: int| 0 <= j < i ==> #[trigger] strings_view(rows@[j]@) == table_row(items[j], cols),
        decreases records@.len() - i,
    {
        assert(json_wf(items[i as int]));
        rows.push(row_of(&records[i], &hs));
        i = i + 1;
    }
    let ghost body = rows@;
    let mut table: Vec<Vec<String>> = Vec::new();
    table.push(hs);
    table.append(&mut rows);
    proof {
        assert(table_view(table@) =~= csv_table(items_view(records@))) by {
            assert(strings_view(table@[0]@) == cols);
            assert forall|j: int| 1 <= j < table@.len() implies strings_view(table@[j]@) == table_row(items[j - 1], cols) by {
                assert(table@[j] == body[j - 1]);
            }
        }
    }
    table
}

// ---------------------------------------------------------------------------
// CSV text
// ---------------------------------------------------------------------------

/// A field with each `"` doubled.
pub open spec fn doubled_quotes(f: Seq<char>) -> Seq<char>
    decreases f.len(),
{
    if f.len() == 0 {
        Seq::empty()
    } else {
        doubled_quotes(f.drop_last()) + if f.last() == '"' {
            seq!['"', '"']
        } else {
            seq![f.last()]
        }
    }
}

/// A field as CSV writes it: in quotes, with its quotes doubled, when it
/// holds a comma, a quote, `\r` or `\n`; as it is otherwise.
pub open spec fn csv_field(f: Seq<char>) -> Seq<char> {
    if f.contains(',') || f.contains('"') || f.contains('\r') || f.contains('\n') {
        seq!['"'] + doubled_quotes(f) + seq!['"']
    } else {
        f
    }
}

/// The fields of a record as CSV writes them, separated by commas.
pub open spec fn csv_fields(fields: Seq<Seq<char>>) -> Seq<char>
    decreases fields.len(),
{
    if fields.len() == 0 {
        Seq::empty()
    } else if fields.len() == 1 {
        csv_field(fields[0])
    } else {
        csv_fields(fields.drop_last()) + seq![','] + csv_field(fields.last())
    }
}

/// A record as CSV writes it: its fields, or `""` when they come to no text
/// at all, then `\n`.
pub open spec fn csv_record(fields: Seq<Seq<char>>) -> Seq<char> {
    let body = csv_fields(fields);
    (if body.len() == 0 {
        seq!['"', '"']
    } else {
        body
    }) + seq!['\n']
}

/// The CSV text of a sequence of records.
pub open spec fn csv_document(rows: Seq<Seq<Seq<char>>>) -> Seq<char>
    decreases rows.len(),
{
    if rows.len() == 0 {
        Seq::empty()
    } else {
        csv_document(rows.drop_last()) + csv_record(rows.last())
    }
}

/// A `csv::Writer` over a byte vector. The writer's own type carries a bound
/// on `std::io::Write` that cannot be declared here, so the writer is held in
/// this opaque struct, and only `csv_written` and `csv_width` speak of it.
#[verifier::external_body]
pub struct CsvOutput {
    writer: csv::Writer<Vec<u8>>,
}

/// The bytes that a CSV writer over a byte vector holds: all that was written
/// to it, whether flushed or still in its buffer.
pub uninterp spec fn csv_written(w: CsvOutput) -> Seq<u8>;

/// The number of fields that a CSV writer has fixed for its records: that of
/// the first record written, none before any record.
pub uninterp spec fn csv_width(w: CsvOutput) -> Option<nat>;

/// Calls `csv::Writer::from_writer` on an empty byte vector: a writer with
/// the default settings (comma delimiter, `"` quotes where needed, quotes
/// doubled, `\n` after each record, every record as wide as the first) that
/// holds no bytes yet and has fixed no width.
#[verifier::external_body]
fn csv_writer() -> (w: CsvOutput)
    ensures
        csv_written(w) == Seq::<u8>::empty(),
        csv_width(w) is None,
{
    CsvOutput { writer: csv::Writer::from_writer(Vec::new()) }
}

/// Calls `csv::Writer::write_record`. With the default settings it writes
/// the record as `csv_record` spells it out, UTF-8 encoded, after what the
/// writer held, and the width is then the record's number of fields. It fails
/// only when that number differs from the width fixed by the first record
/// (writing into a byte vector cannot fail); what the writer holds after a
/// failure is not stated.
#[verifier::external_body]
fn csv_write_record(w: &mut CsvOutput, row: &Vec<String>) -> (r: Result<(), String>)
    ensures
        (csv_width(*old(w)) is None || csv_width(*old(w)) == Some(row@.len() as nat)) ==> r is Ok,
        r is Ok ==> csv_written(*final(w)) == csv_written(*old(w)) + vstd::utf8::encode_utf8(
            csv_record(strings_view(row@)),
        ),
        r is Ok ==> csv_width(*final(w)) == Some(row@.len() as nat),
{
    match w.writer.write_record(row) {
        Ok(()) => Ok(()),
        Err(e) => Err(e.to_string()),
    }
}

/// Calls `csv::Writer::into_inner`, which flushes the writer and hands back
/// its byte vector, holding every byte written. Flushing into a byte vector
/// cannot fail, so it succeeds.
#[verifier::external_body]
fn csv_bytes(w: CsvOutput) -> (r: Result<Vec<u8>, String>)
    ensures
        r is Ok,
        r matches Ok(b) ==> b@ == csv_written(w),
{
    match w.writer.into_inner() {
        Ok(b) => Ok(b),
        Err(e) => Err(e.to_string()),
    }
}

/// Calls `String::from_utf8`, which the std documentation describes as
/// giving the string whose bytes these are when they are valid UTF-8, and an
/// error otherwise.
#[verifier::external_body]
fn utf8_text(bytes: Vec<u8>) -> (r: Result<String, String>)
    ensures
        match r {
            Ok(s) => vstd::utf8::valid_utf8(bytes@) && s@ == vstd::utf8::decode_utf8(bytes@),
            Err(_) => !vstd::utf8::valid_utf8(bytes@),
        },
{
    match String::from_utf8(bytes) {
        Ok(s) => Ok(s),
        Err(e) => Err(e.to_string()),
    }
}

proof fn lemma_encode_concat(a: Seq<char>, b: Seq<char>)
    ensures
        vstd::utf8::encode_utf8(a + b) == vstd::utf8::encode_utf8(a) + vstd::utf8::encode_utf8(b),
    decreases a.len(),
{
    if a.len() == 0 {
        assert(a + b =~= b);
    } else {
        assert((a + b).drop_first() =~= a.drop_first() + b);
        assert((a + b)[0] == a[0]);
        lemma_encode_concat(a.drop_first(), b);
    }
}

/// An error message: the prefix, then the message of the outside error.
fn prefixed(prefix: &str, e: String) -> (r: String)
    ensures
        r@ == prefix@ + e@,
        prefix@.is_prefix_of(r@),
{
    let mut msg = prefix.to_owned();
    push_text(&mut msg, e.as_str());
    assert(msg@.subrange(0, prefix@.len() as int) =~= prefix@);
    msg
}

/// The CSV text of JSON records: the rows of `csv_rows`, written by the
/// `csv` crate with its default settings; empty for no records. Every row is
/// as wide as the header row, so writing always succeeds.
pub fn records_to_csv(records: &[Json]) -> (r: Result<String, String>)
    requires
        all_wf(items_view(records@)),
    ensures
        r matches Ok(text) && text@ == csv_document(csv_table(items_view(records@))),
{
    let rows = csv_rows(records);
    let ghost table = table_view(rows@);
    if rows.len() == 0 {
        proof {
            assert(table =~= Seq::<Seq<Seq<char>>>::empty());
        }
        return Ok(String::new());
    }
    assert(records@.len() > 0) by {
        if records@.len() == 0 {
            assert(csv_table(items_view(records@)) =~= Seq::<Seq<Seq<char>>>::empty());
        }
    }
    let ghost width = table_headers(items_view(records@)).len();
    assert forall|k: int| 0 <= k < rows@.len() implies #[trigger] rows@[k]@.len() == width by {
        let items = items_view(records@);
        let hs = table_headers(items);
        assert(table[k] == strings_view(rows@[k]@));
        assert(table.len() == rows@.len());
        assert(table.len() == items.len() + 1);
        if k == 0 {
            assert(table[k] == hs);
        } else {
            assert(table[k] == table_row(items[k - 1], hs));
        }
    }
    let mut w = csv_writer();
    let mut i: usize = 0;
    proof {
        assert(table.take(0) =~= Seq::<Seq<Seq<char>>>::empty());
    }
    while i < rows.len()
        invariant
            table == table_view(rows@),
            records@.len() > 0,
            i <= rows@.len(),
            forall|k: int| 0 <= k < rows@.len() ==> #[trigger] rows@[k]@.len() == width,
            csv_width(w) == if i == 0 { None } else { Some(width) },
            csv_written(w) == vstd::utf8::encode_utf8(csv_document(table.take(i as int))),
        decreases rows@.len() - i,
    {
        assert(rows@[i as int]@.len() == width);
        match csv_write_record(&mut w, &rows[i]) {
            Ok(()) => {},
            Err(e) => {
                return Err(prefixed("CSV write error: ", e));
            },
        }
        proof {
            assert(table.take(i + 1).drop_last() =~= table.take(i as int));
            assert(table.take(i + 1).last() == strings_view(rows@[i as int]@));
            lemma_encode_concat(csv_document(table.take(i as int)), csv_record(strings_view(rows@[i as int]@)));
        }
        i = i + 1;
    }
    proof {
        assert(table.take(i as int) =~= table);
    }
    let bytes = match csv_bytes(w) {
        Ok(b) => b,
        Err(e) => {
            return Err(prefixed("CSV flush error: ", e));
        },
    };
    proof {
        vstd::utf8::encode_utf8_valid_utf8(csv_document(table));
        vstd::utf8::encode_utf8_decode_utf8(csv_document(table));
    }
    match utf8_text(bytes) {
        Ok(text) => Ok(text),
        Err(e) => Err(prefixed("UTF-8 error: ", e)),
    }
}

// ---------------------------------------------------------------------------
// Laws
// ---------------------------------------------------------------------------

proof fn lemma_add_names(hs: Seq<Seq<char>>, names: Seq<Seq<char>>)
    requires
        hs.no_duplicates(),
    ensures
        add_names(hs, names).no_duplicates(),
        forall|x: Seq<char>| #[trigger] add_names(hs, names).contains(x) <==> (hs.contains(x) || names.contains(x)),
    decreases names.len(),
{
    if names.len() > 0 {
        let init = names.drop_last();
        lemma_add_names(hs, init);
        let before = add_names(hs, init);
        assert forall|x: Seq<char>| names.contains(x) <==> (init.contains(x) || x == names.last()) by {
            if names.contains(x) && x != names.last() {
                let i = choose|i: int| 0 <= i < names.len() && names[i] == x;
                assert(init[i] == x);
            }
            if init.contains(x) {
                let i = choose|i: int| 0 <= i < init.len() && init[i] == x;
                assert(names[i] == x);
            }
            if x == names.last() {
                assert(names[names.len() - 1] == x);
            }
        }
        if !before.contains(names.last()) {
            let after = before.push(names.last());
            assert forall|x: Seq<char>| after.contains(x) <==> (before.contains(x) || x == names.last()) by {
                if after.contains(x) && x != names.last() {
                    let i = choose|i: int| 0 <= i < after.len() && after[i] == x;
                    assert(before[i] == x);
                }
                if before.contains(x) {
                    let i = choose|i: int| 0 <= i < before.len() && before[i] == x;
                    assert(after[i] == x);
                }
                if x == names.last() {
                    assert(after[before.len() as int] == x);
                }
            }
        }
    }
}

/// The header row of a CSV table names every field of every record, and
/// each name once.
pub proof fn lemma_table_headers(records: Seq<JsonV>)
    ensures
        table_headers(records).no_duplicates(),
        forall|i: int, x: Seq<char>| 0 <= i < records.len() && #[trigger] field_names(records[i]).contains(x)
            ==> #[trigger] table_headers(records).contains(x),
    decreases records.len(),
{
    if records.len() > 0 {
        let init = records.drop_last();
        lemma_table_headers(init);
        lemma_add_names(table_headers(init), field_names(records.last()));
        assert forall|i: int, x: Seq<char>| 0 <= i < records.len() && #[trigger] field_names(records[i]).contains(x)
            implies #[trigger] table_headers(records).contains(x) by {
            if i < records.len() - 1 {
                assert(init[i] == records[i]);
                assert(field_names(init[i]).contains(x));
            }
        }
    }
}

} // verus!
