//! Exporting the rows of a scrape to a JSON or a CSV file.
use vstd::prelude::*;

use crate::extract::nested_view;
use crate::text::{chars_of, split_chars, split_on, string_of, strings_view};

verus! {

// ---------------------------------------------------------------------------
// The kind of export
// ---------------------------------------------------------------------------

/// The file formats a scrape can be exported to.
#[derive(Debug, Clone, Copy, PartialEq, Eq, Structural)]
pub enum ExportKind {
    Json,
    Csv,
    /// Any other file type.
    Unsupported,
}

/// The kind of export that a file name asks for: its text after the last
/// `.` (all of it when there is none) must be `json` or `csv`.
pub open spec fn export_kind_of(file: Seq<char>) -> ExportKind {
    let ext = split_on(file, '.').last();
    if ext == seq!['j', 's', 'o', 'n'] {
        ExportKind::Json
    } else if ext == seq!['c', 's', 'v'] {
        ExportKind::Csv
    } else {
        ExportKind::Unsupported
    }
}

/// The kind of export that the file name `export` asks for.
pub fn export_kind(export: &str) -> (r: ExportKind)
    ensures
        r == export_kind_of(export@),
{
    let f = chars_of(export);
    let pieces = split_chars(&f, '.');
    let ext = &pieces[pieces.len() - 1];
    proof {
        crate::text::lemma_chars_deep_view(pieces[pieces.len() - 1]);
    }
    let json = vec!['j', 's', 'o', 'n'];
    let csv = vec!['c', 's', 'v'];
    assert(json@ =~= seq!['j', 's', 'o', 'n']);
    assert(csv@ =~= seq!['c', 's', 'v']);
    if crate::text::chars_eq(ext, &json) {
        ExportKind::Json
    } else if crate::text::chars_eq(ext, &csv) {
        ExportKind::Csv
    } else {
        ExportKind::Unsupported
    }
}

// ---------------------------------------------------------------------------
// JSON
// ---------------------------------------------------------------------------

/// The pairs of a row: the key of each column with the row's value there.
pub open spec fn row_pairs(keys: Seq<Seq<char>>, row: Seq<Seq<char>>) -> Seq<(Seq<char>, Seq<char>)> {
    Seq::new(row.len(), |i: int| (keys[i], row[i]))
}

/// The views of key and value pairs.
pub open spec fn pairs_view(v: Seq<(String, String)>) -> Seq<(Seq<char>, Seq<char>)> {
    v.map_values(|p: (String, String)| (p.0@, p.1@))
}

/// The views of the pairs of each row.
pub open spec fn rows_pairs_view(v: Seq<Vec<(String, String)>>) -> Seq<Seq<(Seq<char>, Seq<char>)>> {
    v.map_values(|r: Vec<(String, String)>| pairs_view(r@))
}

/// The value of a member of the export document.
pub enum JsonField {
    /// A string.
    Text(String),
    /// An array of objects, each given by its members as key and string
    /// value pairs, in order.
    Records(Vec<Vec<(String, String)>>),
}

/// The mathematical content of a [`JsonField`].
pub enum JsonFieldModel {
    Text(Seq<char>),
    Records(Seq<Seq<(Seq<char>, Seq<char>)>>),
}

impl View for JsonField {
    type V = JsonFieldModel;

    open spec fn view(&self) -> JsonFieldModel {
        match self {
            JsonField::Text(t) => JsonFieldModel::Text(t@),
            JsonField::Records(rows) => JsonFieldModel::Records(rows_pairs_view(rows@)),
        }
    }
}

/// The views of the members of an object.
pub open spec fn members_view(v: Seq<(String, JsonField)>) -> Seq<(Seq<char>, JsonFieldModel)> {
    v.map_values(|m: (String, JsonField)| (m.0@, m.1@))
}

/// The text that `serde_json` writes for an object with these members.
pub uninterp spec fn json_object_text(members: Seq<(Seq<char>, JsonFieldModel)>) -> Seq<char>;

/// Converts the members one for one into a `serde_json::Value` (an object
/// collected from the members into a `serde_json::Map`; a text as a string;
/// records as an array of objects, each collected from its pairs) and
/// writes it with `serde_json::to_string`.
///
/// Claimed: the text is a function of the members. Not claimed: how
/// `serde_json` orders the members of an object, which value a repeated key
/// keeps, or how it escapes strings.
#[verifier::external_body]
fn json_object_of(members: &Vec<(String, JsonField)>) -> (r: String)
    ensures
        r@ == json_object_text(members_view(members@)),
{
    let object = members.iter().map(|m| (m.0.clone(), match &m.1 {
        JsonField::Text(t) => serde_json::Value::String(t.clone()),
        JsonField::Records(rows) => serde_json::Value::Array(rows.iter().map(|row| serde_json::Value::Object(
            row.iter().map(|p| (p.0.clone(), serde_json::Value::String(p.1.clone()))).collect(),
        )).collect()),
    })).collect();
    serde_json::to_string(&serde_json::Value::Object(object)).unwrap_or_default()
}

/// The members of the export document: `title`, the title, then
/// `results`, one object per row whose members pair each key with the
/// row's value in that key's column.
pub open spec fn export_members(
    title: Seq<char>,
    keys: Seq<Seq<char>>,
    rows: Seq<Seq<Seq<char>>>,
) -> Seq<(Seq<char>, JsonFieldModel)> {
    seq![
        ("title"@, JsonFieldModel::Text(title)),
        ("results"@, JsonFieldModel::Records(rows.map_values(|row: Seq<Seq<char>>| row_pairs(keys, row)))),
    ]
}

/// Every column of a row is paired with its key, whatever its value: the
/// pairs are as many as the row's values, and the `i`-th pairs the `i`-th
/// key with the `i`-th value.
pub proof fn lemma_row_pairs(keys: Seq<Seq<char>>, row: Seq<Seq<char>>)
    ensures
        row_pairs(keys, row).len() == row.len(),
        forall|i: int| 0 <= i < row.len() ==> #[trigger] row_pairs(keys, row)[i] == (keys[i], row[i]),
{
}

/// The export document has the title under `title` and, under `results`,
/// one object per row, in order, pairing every value of the row with the key
/// of its column.
pub proof fn lemma_export_document(title: Seq<char>, keys: Seq<Seq<char>>, rows: Seq<Seq<Seq<char>>>)
    ensures
        export_members(title, keys, rows).len() == 2,
        export_members(title, keys, rows)[0] == ("title"@, JsonFieldModel::Text(title)),
        export_members(title, keys, rows)[1].0 == "results"@,
        export_members(title, keys, rows)[1].1 matches JsonFieldModel::Records(rs) && rs.len()
            == rows.len() && (forall|k: int| 0 <= k < rows.len() ==> (#[trigger] rs[k]).len()
            == rows[k].len()) && forall|k: int, i: int|
            0 <= k < rows.len() && 0 <= i < rows[k].len() ==> #[trigger] rs[k][i] == (
                keys[i],
                rows[k][i],
            ),
{
}

/// The pairs of one row.
fn row_pairs_of(keys: &Vec<String>, row: &Vec<String>) -> (r: Vec<(String, String)>)
    requires
        row.len() <= keys.len(),
    ensures
        pairs_view(r@) == row_pairs(strings_view(keys@), strings_view(row@)),
{
    let ghost all = row_pairs(strings_view(keys@), strings_view(row@));
    let mut r: Vec<(String, String)> = Vec::new();
    for i in 0..row.len()
        invariant
            row.len() <= keys.len(),
            all == row_pairs(strings_view(keys@), strings_view(row@)),
            pairs_view(r@) == all.take(i as int),
    {
        let k = keys[i].clone();
        let v = row[i].clone();
        let ghost old = r@;
        r.push((k, v));
        assert(pairs_view(r@) =~= pairs_view(old).push((k@, v@)));
        assert(all[i as int] == (keys[i as int]@, row[i as int]@));
        assert(pairs_view(r@) =~= all.take(i + 1));
    }
    assert(all.take(row.len() as int) =~= all);
    r
}

/// The JSON document that exports the rows: an object with the title (empty
/// when absent) under `title` and, under `results`, one object per row that
/// gives each value under the key of its column.
pub fn json_export(title: &Option<String>, keys: &Vec<String>, rows: &Vec<Vec<String>>) -> (r: String)
    requires
        forall|k: int| 0 <= k < rows.len() ==> (#[trigger] rows[k]).len() <= keys.len(),
    ensures
        r@ == json_object_text(
            export_members(
                crate::scrape::text_or_empty(crate::scrape::opt_string_view(*title)),
                strings_view(keys@),
                nested_view(rows@),
            ),
        ),
{
    let mut pairs: Vec<Vec<(String, String)>> = Vec::new();
    for k in 0..rows.len()
        invariant
            forall|a: int| 0 <= a < rows.len() ==> (#[trigger] rows[a]).len() <= keys.len(),
            rows_pairs_view(pairs@) == nested_view(rows@).take(k as int).map_values(
                |row: Seq<Seq<char>>| row_pairs(strings_view(keys@), row),
            ),
    {
        let p = row_pairs_of(keys, &rows[k]);
        assert(nested_view(rows@)[k as int] == strings_view(rows[k as int]@));
        let ghost old = pairs@;
        pairs.push(p);
        assert(rows_pairs_view(pairs@) =~= rows_pairs_view(old).push(pairs_view(p@)));
        assert(rows_pairs_view(pairs@) =~= nested_view(rows@).take(k + 1).map_values(
            |row: Seq<Seq<char>>| row_pairs(strings_view(keys@), row),
        ));
    }
    assert(nested_view(rows@).take(rows.len() as int) =~= nested_view(rows@));
    let title_text: Vec<char> = match title {
        Some(t) => chars_of(t.as_str()),
        None => Vec::new(),
    };
    let title_key = string_of(chars_of("title").as_slice());
    let results_key = string_of(chars_of("results").as_slice());
    let mut members: Vec<(String, JsonField)> = Vec::new();
    members.push((title_key, JsonField::Text(string_of(title_text.as_slice()))));
    members.push((results_key, JsonField::Records(pairs)));
    assert(members_view(members@) =~= export_members(
        crate::scrape::text_or_empty(crate::scrape::opt_string_view(*title)),
        strings_view(keys@),
        nested_view(rows@),
    ));
    json_object_of(&members)
}

// ---------------------------------------------------------------------------
// CSV
// ---------------------------------------------------------------------------

/// What the `csv` writer produces for the records, written one after the
/// other with its default settings; `None` when it refuses them.
pub uninterp spec fn csv_bytes(records: Seq<Seq<Seq<char>>>) -> Option<Seq<u8>>;

/// The view of optional bytes.
pub open spec fn opt_bytes_view(o: Option<Vec<u8>>) -> Option<Seq<u8>> {
    match o {
        Some(v) => Some(v@),
        None => None,
    }
}

/// Writes the records with a default `csv::Writer` into memory
/// (`Writer::write_record`, `Writer::into_inner`).
///
/// Claimed: the result is a function of the records. Not claimed: how the
/// writer quotes fields or ends records, or when it refuses them.
#[verifier::external_body]
fn csv_encode(records: &Vec<Vec<String>>) -> (r: Option<Vec<u8>>)
    ensures
        opt_bytes_view(r) == csv_bytes(nested_view(records@)),
{
    let mut writer = csv::Writer::from_writer(Vec::new());
    for record in records {
        if writer.write_record(record).is_err() {
            return None;
        }
    }
    writer.into_inner().ok()
}

/// The CSV text that exports the rows: the keys as the first record, then
/// each row; `None` when the writer refuses them.
pub fn csv_export(keys: &Vec<String>, rows: &Vec<Vec<String>>) -> (r: Option<Vec<u8>>)
    ensures
        opt_bytes_view(r) == csv_bytes(seq![strings_view(keys@)] + nested_view(rows@)),
{
    let mut records: Vec<Vec<String>> = Vec::new();
    records.push(crate::text::clone_strings(keys));
    assert(nested_view(rows@).take(0) =~= Seq::<Seq<Seq<char>>>::empty());
    assert(nested_view(records@) =~= seq![strings_view(keys@)]);
    for k in 0..rows.len()
        invariant
            nested_view(records@) == seq![strings_view(keys@)] + nested_view(rows@).take(k as int),
    {
        let ghost old = records@;
        let c = crate::text::clone_strings(&rows[k]);
        records.push(c);
        assert(nested_view(rows@)[k as int] == strings_view(rows[k as int]@));
        assert(nested_view(records@) =~= nested_view(old).push(strings_view(c@)));
        assert(nested_view(records@) =~= seq![strings_view(keys@)] + nested_view(rows@).take(
            k + 1,
        ));
    }
    assert(nested_view(rows@).take(rows.len() as int) =~= nested_view(rows@));
    csv_encode(&records)
}

} // verus!
