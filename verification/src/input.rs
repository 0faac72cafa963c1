//! Reading records: choosing a reader by file extension, parsing JSON
//! documents and CSV tables, and building the records of a CSV table.

use vstd::prelude::*;

use crate::json::{fields_view, fields_wf, items_view, put_fields, Json, JsonV};
use crate::merge::all_wf;
use crate::records::{document_records, records_from_json, strings_view, table_view};
use crate::text::{integer_text, lowercase, push_text, same_text, signed_decimal, to_lower};

verus! {

// ---------------------------------------------------------------------------
// Choosing a reader
// ---------------------------------------------------------------------------

/// How the records of a file are read.
#[derive(Clone, Copy, Debug, PartialEq, Eq, Structural)]
pub enum Reader {
    /// As a JSON document.
    Json,
    /// As a CSV table.
    Csv,
    /// As a JSON document, or as a CSV table when the text is no JSON array
    /// or object.
    JsonOrCsv,
}

/// The reader for a lowercase file extension: `json` and `csv` name theirs,
/// any other extension tries JSON first, then CSV.
pub open spec fn reader_named(ext: Seq<char>) -> Reader {
    if ext == "json"@ {
        Reader::Json
    } else if ext == "csv"@ {
        Reader::Csv
    } else {
        Reader::JsonOrCsv
    }
}

/// The reader for a lowercase file extension.
pub fn reader_for_lowercase(ext: &str) -> (r: Reader)
    ensures
        r == reader_named(ext@),
{
    if same_text(ext, "json") {
        Reader::Json
    } else if same_text(ext, "csv") {
        Reader::Csv
    } else {
        Reader::JsonOrCsv
    }
}

/// The reader for a file extension, in any case.
pub fn reader_for(ext: &str) -> (r: Reader)
    ensures
        r == reader_named(lowercase(ext@)),
{
    let lower = to_lower(ext);
    reader_for_lowercase(lower.as_str())
}

// ---------------------------------------------------------------------------
// JSON documents
// ---------------------------------------------------------------------------

/// The value that `serde_json` parses from a text, if the text is JSON.
pub uninterp spec fn parsed_json(text: Seq<char>) -> Option<JsonV>;

/// The library's value for a `serde_json` value, variant by variant; numbers
/// keep their text, objects their fields in the map's order.
#[verifier::external_body]
fn json_of(v: &serde_json::Value) -> Json {
    match v {
        serde_json::Value::Null => Json::Null,
        serde_json::Value::Bool(b) => Json::Bool(*b),
        serde_json::Value::Number(n) => Json::Number(n.to_string()),
        serde_json::Value::String(s) => Json::Str(s.clone()),
        serde_json::Value::Array(items) => Json::Array(items.iter().map(json_of).collect()),
        serde_json::Value::Object(map) => Json::Object(map.iter().map(|(k, x)| (k.clone(), json_of(x))).collect()),
    }
}

/// Calls `serde_json::from_str` for a `serde_json::Value`: the parsed value
/// when the text is JSON, the parser's message otherwise. The value is named
/// `parsed_json`; its objects come from `serde_json::Map`, which (without
/// the `preserve_order` feature) is a map ordered by key, so their fields are
/// sorted by name, each name once.
#[verifier::external_body]
fn parse_json(text: &str) -> (r: Result<Json, String>)
    ensures
        match r {
            Ok(j) => parsed_json(text@) == Some(j@) && j.wf(),
            Err(_) => parsed_json(text@) is None,
        },
{
    match serde_json::from_str::<serde_json::Value>(text) {
        Ok(v) => Ok(json_of(&v)),
        Err(e) => Err(e.to_string()),
    }
}

/// The JSON document in the text `content` of the file at `path`; when the
/// text is no JSON, an error `Invalid JSON in <path>: <message>`.
pub fn parse_document(path: &str, content: &str) -> (r: Result<Json, String>)
    ensures
        match r {
            Ok(j) => parsed_json(content@) == Some(j@) && j.wf(),
            Err(e) => parsed_json(content@) is None && ("Invalid JSON in "@ + path@ + ": "@).is_prefix_of(e@),
        },
{
    match parse_json(content) {
        Ok(j) => Ok(j),
        Err(msg) => {
            let mut e = "Invalid JSON in ".to_owned();
            push_text(&mut e, path);
            push_text(&mut e, ": ");
            let ghost head = e@;
            push_text(&mut e, msg.as_str());
            assert(e@.subrange(0, head.len() as int) =~= head);
            Err(e)
        },
    }
}

/// What reading a file's text as JSON gives.
#[derive(Debug)]
pub enum Reading {
    /// The records of the document.
    Records(Vec<Json>),
    /// The text is to be read as CSV instead.
    TryCsv,
    /// Reading failed, with this message.
    Failed(String),
}

/// Read the records of the JSON text `content` of the file at `path`: the
/// items of an array or an object as the one record. When `guess` holds, a
/// text that gives no records is to be read as CSV; otherwise it is an error:
/// `Invalid JSON in <path>: <message>` for a text that is no JSON, and
/// `<path>: expected JSON array or object` for any other document.
pub fn read_json_records(path: &str, content: &str, guess: bool) -> (r: Reading)
    ensures
        match parsed_json(content@) {
            Some(doc) => match document_records(doc) {
                Some(recs) => r matches Reading::Records(rs) && items_view(rs@) == recs && all_wf(recs),
                None => if guess {
                    r is TryCsv
                } else {
                    r matches Reading::Failed(e) && e@ == path@ + ": expected JSON array or object"@
                },
            },
            None => if guess {
                r is TryCsv
            } else {
                r matches Reading::Failed(e) && ("Invalid JSON in "@ + path@ + ": "@).is_prefix_of(e@)
            },
        },
{
    match parse_document(path, content) {
        Ok(doc) => {
            let ghost d = doc@;
            assert(crate::json::json_wf(d));
            match records_from_json(doc) {
                Some(rs) => {
                    proof {
                        match d {
                            JsonV::Array(items) => {
                                assert(items_view(rs@) == items);
                            },
                            _ => {
                                assert(items_view(rs@) =~= seq![d]);
                            },
                        }
                    }
                    Reading::Records(rs)
                },
                None => {
                    if guess {
                        Reading::TryCsv
                    } else {
                        let mut e = path.to_owned();
                        push_text(&mut e, ": expected JSON array or object");
                        Reading::Failed(e)
                    }
                },
            }
        },
        Err(e) => {
            if guess {
                Reading::TryCsv
            } else {
                Reading::Failed(e)
            }
        },
    }
}

// ---------------------------------------------------------------------------
// CSV tables
// ---------------------------------------------------------------------------

/// The header row and the records that the `csv` crate reads from bytes with
/// its default settings, if it reads them without error.
pub uninterp spec fn csv_parsed(bytes: Seq<u8>) -> Option<(Seq<Seq<char>>, Seq<Seq<Seq<char>>>)>;

/// Reads a CSV table with `csv::Reader::from_reader` and its default
/// settings (a header row, every record as wide as the first): its
/// `headers`, then each of its `records`. The table is named `csv_parsed`.
/// On a failure the error tells whether the header row failed (`true`) or a
/// record, with the crate's message.
#[verifier::external_body]
fn csv_parse(bytes: &[u8]) -> (r: Result<(Vec<String>, Vec<Vec<String>>), (bool, String)>)
    ensures
        match r {
            Ok((hs, rows)) => csv_parsed(bytes@) == Some((strings_view(hs@), table_view(rows@))),
            Err(_) => csv_parsed(bytes@) is None,
        },
{
    let mut rdr = csv::Reader::from_reader(bytes);
    let hs = match rdr.headers() {
        Ok(h) => h.iter().map(String::from).collect(),
        Err(e) => return Err((true, e.to_string())),
    };
    let mut rows = Vec::new();
    for rec in rdr.records() {
        match rec {
            Ok(row) => rows.push(row.iter().map(String::from).collect()),
            Err(e) => return Err((false, e.to_string())),
        }
    }
    Ok((hs, rows))
}

/// Read the header row and the records of a CSV table; an error
/// `CSV headers error: <message>` or `CSV record error: <message>` when the
/// `csv` crate cannot read them.
pub fn parse_csv(bytes: &[u8]) -> (r: Result<(Vec<String>, Vec<Vec<String>>), String>)
    ensures
        match r {
            Ok((hs, rows)) => csv_parsed(bytes@) == Some((strings_view(hs@), table_view(rows@))),
            Err(e) => csv_parsed(bytes@) is None && ("CSV headers error: "@.is_prefix_of(e@)
                || "CSV record error: "@.is_prefix_of(e@)),
        },
{
    match csv_parse(bytes) {
        Ok(t) => Ok(t),
        Err((in_header, msg)) => {
            let mut e = if in_header {
                "CSV headers error: ".to_owned()
            } else {
                "CSV record error: ".to_owned()
            };
            let ghost head = e@;
            push_text(&mut e, msg.as_str());
            assert(e@.subrange(0, head.len() as int) =~= head);
            Err(e)
        },
    }
}

/// The integer that `str::parse::<i64>` reads from a text, if it reads one.
pub uninterp spec fn parsed_i64(s: Seq<char>) -> Option<i64>;

/// Calls `str::parse::<i64>`; the integer it reads, if any, is named
/// `parsed_i64`.
#[verifier::external_body]
fn parse_integer(s: &str) -> (r: Option<i64>)
    ensures
        r == parsed_i64(s@),
{
    s.parse::<i64>().ok()
}

/// The value of a CSV cell: an integer when the text reads as one (written
/// in its decimal form), else the number `float` when the text reads as a
/// finite float (its text given), else `true` or `false`, else the text
/// itself.
pub open spec fn cell_of(field: Seq<char>, float: Option<Seq<char>>) -> JsonV {
    match parsed_i64(field) {
        Some(n) => JsonV::Number(signed_decimal(n as int)),
        None => match float {
            Some(t) => JsonV::Number(t),
            None => if field == "true"@ {
                JsonV::Bool(true)
            } else if field == "false"@ {
                JsonV::Bool(false)
            } else {
                JsonV::Str(field)
            },
        },
    }
}

/// The value of a CSV cell, given the JSON text of the finite float that
/// the cell reads as, if it reads as one.
pub fn csv_cell(field: &str, float: Option<String>) -> (r: Json)
    ensures
        r@ == cell_of(
            field@,
            match float {
                Some(t) => Some(t@),
                None => None,
            },
        ),
        r.wf(),
{
    match parse_integer(field) {
        Some(n) => Json::Number(integer_text(n)),
        None => match float {
            Some(t) => Json::Number(t),
            None => {
                if same_text(field, "true") {
                    Json::Bool(true)
                } else if same_text(field, "false") {
                    Json::Bool(false)
                } else {
                    Json::Str(field.to_owned())
                }
            },
        },
    }
}

/// The fields of a CSV record: each header with the cell under it; cells
/// past the last header are dropped.
pub open spec fn csv_fields_of(hs: Seq<Seq<char>>, cells: Seq<JsonV>) -> Seq<(Seq<char>, JsonV)> {
    Seq::new(
        if cells.len() < hs.len() {
            cells.len()
        } else {
            hs.len()
        },
        |i: int| (hs[i], cells[i]),
    )
}

/// The record of a CSV row: an object with its fields, a later field
/// replacing an earlier one of the same name.
pub open spec fn csv_record_of(hs: Seq<Seq<char>>, cells: Seq<JsonV>) -> JsonV {
    JsonV::Object(put_fields(Seq::empty(), csv_fields_of(hs, cells)))
}

/// The record of one CSV row.
fn csv_record(headers: &[String], cells: &[Json]) -> (r: Json)
    requires
        all_wf(items_view(cells@)),
    ensures
        r@ == csv_record_of(strings_view(headers@), items_view(cells@)),
        r.wf(),
{
    let mut fields: Vec<(String, Json)> = Vec::new();
    let mut i: usize = 0;
    while i < cells.len() && i < headers.len()
        invariant
            i <= cells@.len(),
            i <= headers@.len(),
            all_wf(items_view(cells@)),
            fields@.len() == i,
            forall|j: int| 0 <= j < i ==> #[trigger] fields@[j].0@ == headers@[j]@ && fields@[j].1@ == cells@[j]@,
        decreases cells@.len() - i,
    {
        assert(crate::json::json_wf(items_view(cells@)[i as int]));
        fields.push((headers[i].clone(), cells[i].clone()));
        i = i + 1;
    }
    proof {
        assert(fields_view(fields@) =~= csv_fields_of(strings_view(headers@), items_view(cells@)));
        assert(fields_wf(fields_view(fields@))) by {
            assert forall|j: int| 0 <= j < fields@.len() implies crate::json::json_wf(#[trigger] fields_view(fields@)[j].1) by {
                assert(items_view(cells@)[j] == cells@[j]@);
            }
        }
    }
    Json::object(fields)
}

/// The records of a CSV table: one object per row, pairing each header with
/// the cell under it (a later header replacing an earlier one of the same
/// name, cells past the last header dropped).
pub fn csv_records(headers: &[String], cells: &[Vec<Json>]) -> (r: Vec<Json>)
    requires
        forall|k: int| 0 <= k < cells@.len() ==> all_wf(items_view(#[trigger] cells@[k]@)),
    ensures
        items_view(r@) == Seq::new(cells@.len(), |k: int| csv_record_of(strings_view(headers@), items_view(cells@[k]@))),
        all_wf(items_view(r@)),
{
    let mut records: Vec<Json> = Vec::new();
    let mut k: usize = 0;
    while k < cells.len()
        invariant
            k <= cells@.len(),
            forall|x: int| 0 <= x < cells@.len() ==> all_wf(items_view(#[trigger] cells@[x]@)),
            records@.len() == k,
            forall|x: int| 0 <= x < k ==> #[trigger] records@[x]@ == csv_record_of(strings_view(headers@), items_view(cells@[x]@))
                && records@[x].wf(),
        decreases cells@.len() - k,
    {
        assert(all_wf(items_view(cells@[k as int]@)));
        records.push(csv_record(headers, cells[k].as_slice()));
        k = k + 1;
    }
    proof {
        assert(items_view(records@) =~= Seq::new(cells@.len(), |x: int| csv_record_of(strings_view(headers@), items_view(cells@[x]@))));
        assert forall|x: int| 0 <= x < records@.len() implies crate::json::json_wf(#[trigger] items_view(records@)[x]) by {
            assert(records@[x].wf());
        }
    }
    records
}

} // verus!
