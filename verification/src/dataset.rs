//! Reading the dataset: CSV rows become records.
use crate::records::CSVRecord;
use crate::text::{parse_references, reference_ids, texts, texts_distinct};
use vstd::prelude::*;

verus! {

/// The data rows, each a list of field texts, that the `csv` crate's reader with its default
/// settings reads from `bytes`: the first row is taken as the header, and rows it cannot read
/// are skipped.
pub uninterp spec fn csv_rows(bytes: Seq<u8>) -> Seq<Seq<Seq<char>>>;

/// The data rows of the CSV text `bytes`, each as its list of fields.
///
/// Trusted: calls `csv::Reader::from_reader(bytes).records()`, keeps the rows that come back
/// `Ok`, and turns each field into a `String`. The reader works on the bytes alone, so the
/// contract names the result `csv_rows(bytes)` and says nothing more of it.
#[verifier::external_body]
fn parse_csv_rows(bytes: &[u8]) -> (r: Vec<Vec<String>>)
    ensures
        r@.len() == csv_rows(bytes@).len(),
        forall|i: int| 0 <= i < r@.len() ==> (#[trigger] r@[i])@.len() == csv_rows(bytes@)[i].len(),
        forall|i: int, j: int|
            0 <= i < r@.len() && 0 <= j < r@[i]@.len() ==> (#[trigger] r@[i]@[j])@ == csv_rows(bytes@)[i][j],
{
    let mut reader = csv::Reader::from_reader(bytes);
    reader.records().filter_map(Result::ok).map(|rec| rec.iter().map(String::from).collect()).collect()
}

/// `rec` is what the row `row` of the dataset describes: the abstract in field 0, the title
/// in field 4, the list of references in field 3 and the identifier in field 7.
pub open spec fn record_of_row(row: Seq<Seq<char>>, rec: CSVRecord) -> bool {
    &&& rec.abstract_text@ == row[0]
    &&& rec.title@ == row[4]
    &&& rec.id@ == row[7]
    &&& texts_distinct(rec.references@)
    &&& texts(rec.references@) == reference_ids(row[3])
}

/// The texts of a list of rows of fields.
pub open spec fn row_texts(rows: Seq<Vec<String>>) -> Seq<Seq<Seq<char>>> {
    rows.map_values(|row: Vec<String>| row@.map_values(|f: String| f@))
}

/// `recs` are the records of `rows`, one per row and in order; `None` when some row has fewer
/// than 8 fields.
pub open spec fn records_of_rows(rows: Seq<Seq<Seq<char>>>, r: Option<Vec<CSVRecord>>) -> bool {
    match r {
        None => exists|i: int| 0 <= i < rows.len() && (#[trigger] rows[i]).len() < 8,
        Some(recs) => {
            &&& recs@.len() == rows.len()
            &&& forall|i: int| 0 <= i < rows.len() ==> (#[trigger] rows[i]).len() >= 8
            &&& forall|i: int| 0 <= i < rows.len() ==> record_of_row(rows[i], #[trigger] recs@[i])
        },
    }
}

/// The records that the rows of fields describe, or `None` when some row has fewer than 8
/// fields.
pub fn records_from_rows(rows: &Vec<Vec<String>>) -> (r: Option<Vec<CSVRecord>>)
    ensures
        records_of_rows(row_texts(rows@), r),
{
    let ghost rt = row_texts(rows@);
    let mut recs: Vec<CSVRecord> = Vec::new();
    let mut i: usize = 0;
    while i < rows.len()
        invariant
            rt == row_texts(rows@),
            i <= rows@.len(),
            recs@.len() == i,
            forall|k: int| 0 <= k < i ==> (#[trigger] rt[k]).len() >= 8,
            forall|k: int| 0 <= k < i ==> record_of_row(rt[k], #[trigger] recs@[k]),
        decreases rows@.len() - i,
    {
        let row = &rows[i];
        assert(rt[i as int] == row@.map_values(|f: String| f@));
        if row.len() < 8 {
            assert(rt[i as int].len() < 8);
            return None;
        }
        let rec = CSVRecord {
            abstract_text: row[0].clone(),
            title: row[4].clone(),
            references: parse_references(row[3].as_str()),
            id: row[7].clone(),
        };
        assert(record_of_row(rt[i as int], rec));
        recs.push(rec);
        i = i + 1;
    }
    Some(recs)
}

/// The records of the dataset whose CSV text is `bytes`, one per data row and in order, or
/// `None` when some row has fewer than 8 fields.
pub fn records_from_csv(bytes: &[u8]) -> (r: Option<Vec<CSVRecord>>)
    ensures
        records_of_rows(csv_rows(bytes@), r),
{
    let rows = parse_csv_rows(bytes);
    proof {
        assert forall|i: int| 0 <= i < rows@.len() implies #[trigger] row_texts(rows@)[i] == csv_rows(bytes@)[i] by {
            assert(row_texts(rows@)[i] =~= csv_rows(bytes@)[i]);
        }
        assert(row_texts(rows@) =~= csv_rows(bytes@));
    }
    records_from_rows(&rows)
}

} // verus!
