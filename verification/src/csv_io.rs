//! Rows in and lines out through the `csv` crate.
//!
//! Nothing here is proved: each contract states what the crate's reader and
//! writer do, and the rest of the library is verified against these
//! statements.

use vstd::prelude::*;
use crate::record::{texts, Record};

verus! {

/// `csv::Reader`, whose inside stays hidden. The rows it has yet to hand out
/// are `pending_rows`.
#[verifier::external_type_specification]
#[verifier::external_body]
#[verifier::reject_recursive_types(R)]
pub struct ExReader<R>(csv::Reader<R>);

/// `csv::Error`, carried from a failed read to the place that turns it into a
/// `ViewerError`.
#[verifier::external_type_specification]
#[verifier::external_body]
pub struct ExCsvError(csv::Error);

/// The rows that a `csv` reader finds in `data` when fields are split at
/// `delimiter`, the first row is read like any other and all rows are asked to
/// have as many fields as the first: `Some` with the fields of a row that was
/// read, `None` for a row that was refused.
pub uninterp spec fn csv_rows(data: Seq<u8>, delimiter: u8) -> Seq<Option<Seq<Seq<char>>>>;

/// The rows that `reader` has yet to hand out, the next one first.
pub uninterp spec fn pending_rows(reader: csv::Reader<&[u8]>) -> Seq<Option<Seq<Seq<char>>>>;

/// The line that a `csv` writer with its default settings writes for a record
/// of these fields, terminator included.
pub uninterp spec fn csv_line(fields: Seq<Seq<char>>) -> Seq<u8>;

/// Builds a reader over `data` with `csv::ReaderBuilder`: fields split at
/// `delimiter`, no header row set apart, every other setting as the crate
/// defaults it. The contract says that the reader is about to hand out the
/// rows of `data`, and nothing about what these rows are.
#[verifier::external_body]
pub(crate) fn open_reader<'a>(data: &'a [u8], delimiter: u8) -> (reader: csv::Reader<&'a [u8]>)
    ensures
        pending_rows(reader) == csv_rows(data@, delimiter),
{
    csv::ReaderBuilder::new().delimiter(delimiter).has_headers(false).from_reader(data)
}

/// Reads the next row with `csv::Reader::read_record`. The contract says: at
/// the end of the data the call returns `false` and stays at the end; before
/// it, the call takes the next row off, and returns `true` with the row's
/// fields where the row was read, and the crate's error where it was refused
/// (text that is not UTF-8, or a number of fields unlike the first row's). The
/// reader goes on to the row after in both cases.
#[verifier::external_body]
pub(crate) fn read_row(reader: &mut csv::Reader<&[u8]>) -> (row: Result<
    (bool, Vec<String>),
    csv::Error,
>)
    ensures
        pending_rows(*old(reader)).len() == 0 ==> {
            &&& row is Ok
            &&& !row.unwrap().0
            &&& pending_rows(*final(reader)).len() == 0
        },
        pending_rows(*old(reader)).len() > 0 ==> {
            &&& pending_rows(*final(reader)) == pending_rows(*old(reader)).skip(1)
            &&& match pending_rows(*old(reader))[0] {
                Some(fields) => row is Ok && row.unwrap().0 && texts(row.unwrap().1@) == fields,
                None => row is Err,
            }
        },
{
    let mut record = csv::StringRecord::new();
    let more = reader.read_record(&mut record)?;
    Ok((more, record.iter().map(|field| field.to_string()).collect()))
}

/// Writes `record` with `csv::Writer::write_record` into an empty buffer and
/// returns the buffer. The contract names the bytes written. The writer is
/// new and writes to memory, so the crate has neither a field count to hold
/// the record against nor a device that could fail: the two error arms are
/// never taken.
#[verifier::external_body]
pub(crate) fn encode_record(record: &Record) -> (line: Vec<u8>)
    ensures
        line@ == csv_line(record@),
{
    let mut writer = csv::Writer::from_writer(Vec::new());
    match writer.write_record(record.fields()) {
        Ok(()) => match writer.into_inner() {
            Ok(line) => line,
            Err(_) => Vec::new(),
        },
        Err(_) => Vec::new(),
    }
}

} // verus!
