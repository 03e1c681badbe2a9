//! Reading CSV text into a header and records with the `csv` crate.
use vstd::prelude::*;
use crate::data::universe::{field_views, record_views};

verus! {

/// What `csv::Reader` (default settings: a header row, records of equal
/// length) reads from a text: the header, the records read before the first
/// record error, and that error's message if there was one; or the message of
/// the error met while reading the header.
pub uninterp spec fn csv_table(text: Seq<char>) -> Result<(Seq<Seq<char>>, Seq<Seq<Seq<char>>>, Option<Seq<char>>), Seq<char>>;

/// The view of an optional message.
pub open spec fn opt_view(e: Option<String>) -> Option<Seq<char>> {
    match e {
        Some(m) => Some(m@),
        None => None,
    }
}

/// Reads `text` with `csv::Reader::from_reader`: `headers`, then `records`
/// until the first error. The result is named by `csv_table`; the contract
/// adds what the reader's default (non-flexible) mode guarantees: every record
/// read has as many fields as the header.
#[verifier::external_body]
pub(crate) fn read_csv_table(text: &str) -> (r: Result<(Vec<String>, Vec<Vec<String>>, Option<String>), String>)
    ensures
        match r {
            Ok((h, recs, tail)) => {
                &&& csv_table(text@) == Ok::<(Seq<Seq<char>>, Seq<Seq<Seq<char>>>, Option<Seq<char>>), Seq<char>>(
                    (field_views(h@), record_views(recs@), opt_view(tail)))
                &&& forall|i: int| 0 <= i < recs.len() ==> #[trigger] recs@[i]@.len() == h@.len()
            },
            Err(e) => csv_table(text@) == Err::<(Seq<Seq<char>>, Seq<Seq<Seq<char>>>, Option<Seq<char>>), Seq<char>>(e@),
        },
{
    let mut rdr = csv::Reader::from_reader(text.as_bytes());
    let header: Vec<String> = match rdr.headers() {
        Ok(h) => h.iter().map(String::from).collect(),
        Err(e) => return Err(e.to_string()),
    };
    let mut recs: Vec<Vec<String>> = Vec::new();
    for rec in rdr.records() {
        match rec {
            Ok(rec) => recs.push(rec.iter().map(String::from).collect()),
            Err(e) => return Ok((header, recs, Some(e.to_string()))),
        }
    }
    Ok((header, recs, None))
}

} // verus!
