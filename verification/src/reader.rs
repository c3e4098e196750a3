//! Splitting the text of a file into rows of cells.

use crate::table::{FileKind, LoadError};
use vstd::prelude::*;

verus! {

/// The error of the `csv` crate's reader.
#[verifier::external_type_specification]
#[verifier::external_body]
pub struct ExCsvError(csv::Error);

/// The rows that the `csv` crate's reader finds in `text`, each a list of
/// cells, where it can read the text to its end. The reader splits records
/// at commas, takes double quotes as the quoting character, reads the first
/// row as it reads the others, lets rows differ in length, and trims every
/// cell.
pub uninterp spec fn csv_records(text: Seq<char>) -> Option<Seq<Seq<Seq<char>>>>;

/// Reads `text` with `csv::Reader::records`, from a reader that
/// `csv::ReaderBuilder` makes with the delimiter `,`, the quote `"`,
/// `has_headers(false)`, `flexible(true)` and `trim(Trim::All)`. What comes
/// back is what that reader finds in this text, all its rows or its first
/// error: the contract gives it its name and claims nothing else of it.
#[verifier::external_body]
fn read_records(text: &str) -> (r: Result<Vec<Vec<String>>, csv::Error>)
    ensures
        match r {
            Ok(rows) => csv_records(text@) == Some(rows.deep_view()),
            Err(_) => csv_records(text@) is None,
        },
{
    let mut reader = csv::ReaderBuilder::new()
        .delimiter(b',')
        .quote(b'"')
        .has_headers(false)
        .flexible(true)
        .trim(csv::Trim::All)
        .from_reader(text.as_bytes());
    reader.records().map(|row| row.map(|cells| cells.iter().map(String::from).collect())).collect()
}

/// The table that a file holds: the rows of its text, where the file is
/// there and its text can be read.
pub open spec fn table_of(file: FileKind, text: Option<Seq<char>>) -> Result<
    Seq<Seq<Seq<char>>>,
    LoadError,
> {
    match text {
        None => Err(LoadError::MissingFile(file)),
        Some(t) => rows_of(file, csv_records(t)),
    }
}

/// The table that a file holds, given what the reader found in its text.
pub open spec fn rows_of(file: FileKind, found: Option<Seq<Seq<Seq<char>>>>) -> Result<
    Seq<Seq<Seq<char>>>,
    LoadError,
> {
    match found {
        None => Err(LoadError::Unreadable(file)),
        Some(rows) => Ok(rows),
    }
}

/// The table of a file, given what the reader made of its text.
pub fn table_from(file: FileKind, found: Result<Vec<Vec<String>>, csv::Error>) -> (r: Result<
    Vec<Vec<String>>,
    LoadError,
>)
    ensures
        match (found, r) {
            (Ok(rows), Ok(table)) => table == rows,
            (Err(_), Err(e)) => e == LoadError::Unreadable(file),
            _ => false,
        },
{
    match found {
        Ok(rows) => Ok(rows),
        Err(_) => Err(LoadError::Unreadable(file)),
    }
}

/// Reads the table that a file holds from its text.
pub fn read_table(file: FileKind, text: &Option<String>) -> (r: Result<Vec<Vec<String>>, LoadError>)
    ensures
        match r {
            Ok(table) => table_of(file, text.deep_view()) == Ok::<Seq<Seq<Seq<char>>>, LoadError>(
                table.deep_view(),
            ),
            Err(e) => table_of(file, text.deep_view()) == Err::<Seq<Seq<Seq<char>>>, LoadError>(e),
        },
{
    match text {
        None => Err(LoadError::MissingFile(file)),
        Some(t) => table_from(file, read_records(t.as_str())),
    }
}

} // verus!
