//! Windows of records: a bounded run of rows read from any row offset.

use vstd::prelude::*;
use crate::csv_io::{csv_rows, open_reader, pending_rows, read_row};
use crate::error::ViewerError;
use crate::lines::{body_of, lemma_body_after_header, newline_free, skip_header, NEWLINE};
use crate::record::{rows_of, Record};

verus! {

/// The byte that stands for `delimiter` in the text. Only characters up to
/// U+00FF have one: see `is_delimiter`.
pub open spec fn delimiter_byte(delimiter: char) -> u8 {
    delimiter as u8
}

/// Whether `delimiter` can split fields: it has to fit in one byte.
pub open spec fn is_delimiter(delimiter: char) -> bool {
    delimiter as u32 <= 0xFF
}

/// The data rows of `data` as the parser finds them, the header line left
/// out where `has_header` holds.
pub open spec fn data_rows(data: Seq<u8>, has_header: bool, delimiter: char) -> Seq<
    Option<Seq<Seq<char>>>,
> {
    csv_rows(body_of(data, has_header), delimiter_byte(delimiter))
}

/// What a read that splits fields at `delimiter` returns where a read at a
/// fitting delimiter returns `outcome`: `outcome` itself, or `Delimiter` where
/// `delimiter` does not fit in one byte.
pub open spec fn with_delimiter<T>(delimiter: char, outcome: Result<T, ViewerError>) -> Result<
    T,
    ViewerError,
> {
    if is_delimiter(delimiter) {
        outcome
    } else {
        Err(ViewerError::Delimiter)
    }
}

/// What reading the window of `n` rows at data row `pos` of `data` returns.
pub open spec fn window_in(
    data: Seq<u8>,
    pos: nat,
    n: nat,
    has_header: bool,
    delimiter: char,
) -> Result<Seq<Seq<Seq<char>>>, ViewerError> {
    with_delimiter(delimiter, window_of(data_rows(data, has_header, delimiter), pos, n))
}

/// Whether each of the first `upto` rows was parsed.
pub open spec fn all_parsed(rows: Seq<Option<Seq<Seq<char>>>>, upto: int) -> bool {
    forall|i: int| 0 <= i < upto && i < rows.len() ==> (#[trigger] rows[i]) is Some
}

/// The fields of the rows from index `from` up to, not including, `to`.
pub open spec fn parsed(rows: Seq<Option<Seq<Seq<char>>>>, from: int, to: int) -> Seq<
    Seq<Seq<char>>,
> {
    Seq::new((to - from) as nat, |i: int| rows[from + i].unwrap())
}

/// The index of the first row of a window that starts at `pos`.
pub open spec fn window_start(len: nat, pos: nat) -> nat {
    if pos <= len {
        pos
    } else {
        len
    }
}

/// The index after the last row of a window of `n` rows that starts at `pos`.
pub open spec fn window_end(len: nat, pos: nat, n: nat) -> nat {
    if pos + n <= len {
        pos + n
    } else {
        len
    }
}

/// What a windowed read returns: the rows from `pos` on, `n` of them or as
/// many as are left, if every row up to the end of the window was parsed, and
/// `Parse` otherwise.
pub open spec fn window_of(rows: Seq<Option<Seq<Seq<char>>>>, pos: nat, n: nat) -> Result<
    Seq<Seq<Seq<char>>>,
    ViewerError,
> {
    let end = window_end(rows.len(), pos, n);
    if all_parsed(rows, end as int) {
        Ok(parsed(rows, window_start(rows.len(), pos) as int, end as int))
    } else {
        Err(ViewerError::Parse)
    }
}

/// How many rows a windowed read takes from the reader: up to the end of the
/// window, or up to and with the first row that was refused.
pub open spec fn rows_taken(rows: Seq<Option<Seq<Seq<char>>>>, pos: nat, n: nat) -> nat {
    let end = window_end(rows.len(), pos, n);
    match rows.index_of_first(None::<Seq<Seq<char>>>) {
        Some(bad) => if bad < end {
            (bad + 1) as nat
        } else {
            end
        },
        None => end,
    }
}

/// Whether `result` is what a read that should give `expected` returns.
pub open spec fn gives(
    result: Result<Vec<Record>, ViewerError>,
    expected: Result<Seq<Seq<Seq<char>>>, ViewerError>,
) -> bool {
    match expected {
        Ok(rows) => result is Ok && rows_of(result.unwrap()@) == rows,
        Err(e) => result is Err && result->Err_0 == e,
    }
}

/// Reads the window of `n` rows at row offset `pos` from `reader`: skips
/// `pos` rows, then collects rows until it has `n` of them or the rows end.
/// The first row that was refused ends the read with `Parse`.
pub fn read_window(reader: &mut csv::Reader<&[u8]>, pos: usize, n: usize) -> (window: Result<
    Vec<Record>,
    ViewerError,
>)
    ensures
        gives(window, window_of(pending_rows(*old(reader)), pos as nat, n as nat)),
        pending_rows(*final(reader)) == pending_rows(*old(reader)).skip(
            rows_taken(pending_rows(*old(reader)), pos as nat, n as nat) as int,
        ),
{
    let ghost rows = pending_rows(*reader);
    let mut skipped: usize = 0;
    while skipped < pos
        invariant
            rows == pending_rows(*old(reader)),
            skipped <= pos,
            skipped <= rows.len(),
            pending_rows(*reader) == rows.skip(skipped as int),
            all_parsed(rows, skipped as int),
        decreases pos - skipped,
    {
        match read_row(reader) {
            Err(_) => {
                proof {
                    lemma_first_refused(rows, skipped as int);
                }
                return Err(ViewerError::Parse);
            },
            Ok((more, _)) => {
                if !more {
                    proof {
                        lemma_none_refused(rows);
                    }
                    let window: Vec<Record> = Vec::new();
                    assert(rows_of(window@) =~= parsed(rows, skipped as int, skipped as int));
                    return Ok(window);
                }
            },
        }
        skipped = skipped + 1;
    }
    let mut window: Vec<Record> = Vec::new();
    while window.len() < n
        invariant
            rows == pending_rows(*old(reader)),
            window.len() <= n,
            pos + window.len() <= rows.len(),
            pending_rows(*reader) == rows.skip(pos + window.len()),
            all_parsed(rows, pos + window.len()),
            rows_of(window@) == parsed(rows, pos as int, pos + window.len()),
        decreases n - window.len(),
    {
        let ghost taken = pos + window.len();
        match read_row(reader) {
            Err(_) => {
                proof {
                    lemma_first_refused(rows, taken);
                }
                return Err(ViewerError::Parse);
            },
            Ok((more, fields)) => {
                if !more {
                    proof {
                        lemma_none_refused(rows);
                    }
                    return Ok(window);
                }
                let ghost before = window@;
                window.push(Record::from_fields(fields));
                assert(rows_of(window@) =~= parsed(rows, pos as int, taken + 1)) by {
                    assert forall|i: int| 0 <= i < taken + 1 - pos implies rows_of(window@)[i]
                        == parsed(rows, pos as int, taken + 1)[i] by {
                        if i < taken - pos {
                            assert(rows_of(before)[i] == parsed(rows, pos as int, taken)[i]);
                        }
                    }
                }
            },
        }
    }
    proof {
        lemma_refused_not_before(rows, pos + window.len());
    }
    Ok(window)
}

/// Returns the byte that stands for `delimiter`, or `Delimiter` where it has
/// none.
pub fn byte_of_delimiter(delimiter: char) -> (byte: Result<u8, ViewerError>)
    ensures
        byte == with_delimiter(delimiter, Ok(delimiter_byte(delimiter))),
{
    if delimiter as u32 <= 0xFF {
        Ok(delimiter as u8)
    } else {
        Err(ViewerError::Delimiter)
    }
}

/// Builds a vector of records from the rows of `data`: the `num_of_rows_to_display`
/// rows that start at data row `pos`, or as many as are left. A header line is
/// stepped over first, so no window holds it. The rows before the window are
/// parsed and dropped; none after it is read.
pub fn get_records_from_pos(
    data: &[u8],
    pos: usize,
    num_of_rows_to_display: usize,
    has_header: bool,
    delimiter: char,
) -> (records: Result<Vec<Record>, ViewerError>)
    ensures
        gives(
            records,
            window_in(data@, pos as nat, num_of_rows_to_display as nat, has_header, delimiter),
        ),
{
    let byte = match byte_of_delimiter(delimiter) {
        Ok(byte) => byte,
        Err(e) => {
            return Err(e);
        },
    };
    let body = skip_header(data, has_header);
    let mut reader = open_reader(body, byte);
    read_window(&mut reader, pos, num_of_rows_to_display)
}

/// What reading every row returns: all rows if each was parsed, and `Parse`
/// otherwise.
pub open spec fn all_of(rows: Seq<Option<Seq<Seq<char>>>>) -> Result<
    Seq<Seq<Seq<char>>>,
    ViewerError,
> {
    if all_parsed(rows, rows.len() as int) {
        Ok(parsed(rows, 0, rows.len() as int))
    } else {
        Err(ViewerError::Parse)
    }
}

/// Reads every row that `reader` has left. The first row that was refused
/// ends the read with `Parse`.
pub fn read_all(reader: &mut csv::Reader<&[u8]>) -> (records: Result<Vec<Record>, ViewerError>)
    ensures
        gives(records, all_of(pending_rows(*old(reader)))),
        pending_rows(*final(reader)) == pending_rows(*old(reader)).skip(
            match pending_rows(*old(reader)).index_of_first(None::<Seq<Seq<char>>>) {
                Some(bad) => bad + 1,
                None => pending_rows(*old(reader)).len() as int,
            },
        ),
{
    let ghost rows = pending_rows(*reader);
    let mut records: Vec<Record> = Vec::new();
    loop
        invariant
            rows == pending_rows(*old(reader)),
            records.len() <= rows.len(),
            pending_rows(*reader) == rows.skip(records.len() as int),
            all_parsed(rows, records.len() as int),
            rows_of(records@) == parsed(rows, 0, records.len() as int),
        decreases rows.len() - records.len(),
    {
        let ghost taken = records.len() as int;
        match read_row(reader) {
            Err(_) => {
                proof {
                    lemma_first_refused(rows, taken);
                }
                return Err(ViewerError::Parse);
            },
            Ok((more, fields)) => {
                if !more {
                    proof {
                        lemma_none_refused(rows);
                    }
                    return Ok(records);
                }
                let ghost before = records@;
                records.push(Record::from_fields(fields));
                assert(rows_of(records@) =~= parsed(rows, 0, taken + 1)) by {
                    assert forall|i: int| 0 <= i < taken + 1 implies rows_of(records@)[i]
                        == parsed(rows, 0, taken + 1)[i] by {
                        if i < taken {
                            assert(rows_of(before)[i] == parsed(rows, 0, taken)[i]);
                        }
                    }
                }
            },
        }
    }
}

/// Returns every data row of `data`, the header line left out where
/// `has_header` holds.
pub fn get_records_file(data: &[u8], has_header: bool, delimiter: char) -> (records: Result<
    Vec<Record>,
    ViewerError,
>)
    ensures
        gives(records, with_delimiter(delimiter, all_of(data_rows(data@, has_header, delimiter)))),
{
    let byte = match byte_of_delimiter(delimiter) {
        Ok(byte) => byte,
        Err(e) => {
            return Err(e);
        },
    };
    let body = skip_header(data, has_header);
    let mut reader = open_reader(body, byte);
    read_all(&mut reader)
}

/// What reading a header returns: the fields of the first row, no fields where
/// there is no row, and `Parse` where the first row was refused.
pub open spec fn header_of(rows: Seq<Option<Seq<Seq<char>>>>) -> Result<
    Seq<Seq<char>>,
    ViewerError,
> {
    if rows.len() == 0 {
        Ok(Seq::empty())
    } else {
        match rows[0] {
            Some(fields) => Ok(fields),
            None => Err(ViewerError::Parse),
        }
    }
}

/// Whether `result` is what reading a header that should give `expected`
/// returns.
pub open spec fn gives_header(
    result: Result<Record, ViewerError>,
    expected: Result<Seq<Seq<char>>, ViewerError>,
) -> bool {
    match expected {
        Ok(fields) => result is Ok && result.unwrap()@ == fields,
        Err(e) => result is Err && result->Err_0 == e,
    }
}

/// Takes the next row of `reader` as a header.
pub fn read_header(reader: &mut csv::Reader<&[u8]>) -> (header: Result<Record, ViewerError>)
    ensures
        gives_header(header, header_of(pending_rows(*old(reader)))),
        pending_rows(*final(reader)) == pending_rows(*old(reader)).skip(
            if pending_rows(*old(reader)).len() > 0 {
                1
            } else {
                0
            },
        ),
{
    let ghost rows = pending_rows(*reader);
    let row = read_row(reader);
    assert(rows.len() == 0 ==> pending_rows(*reader) =~= rows.skip(0));
    match row {
        Err(_) => Err(ViewerError::Parse),
        Ok((more, fields)) => {
            if more {
                Ok(Record::from_fields(fields))
            } else {
                Ok(Record::new())
            }
        },
    }
}

/// Extracts the header of `data`: its first row, parsed like any other.
pub fn get_headers_from_file(data: &[u8], delimiter: char) -> (header: Result<
    Record,
    ViewerError,
>)
    ensures
        gives_header(
            header,
            with_delimiter(delimiter, header_of(csv_rows(data@, delimiter_byte(delimiter)))),
        ),
{
    let byte = match byte_of_delimiter(delimiter) {
        Ok(byte) => byte,
        Err(e) => {
            return Err(e);
        },
    };
    let mut reader = open_reader(data, byte);
    read_header(&mut reader)
}

/// Where every row of a text is parsed, the window of `n` rows at `pos` holds
/// `n` rows, or the `rows.len() - pos` that are left if these are fewer, and
/// they are the rows that a read of all rows returns at the indices from `pos`
/// on.
pub proof fn lemma_window_is_slice_of_all(rows: Seq<Option<Seq<Seq<char>>>>, pos: nat, n: nat)
    requires
        all_of(rows) is Ok,
        pos <= rows.len(),
    ensures
        window_of(rows, pos, n) is Ok,
        window_of(rows, pos, n).unwrap().len() == if n <= rows.len() - pos {
            n as int
        } else {
            rows.len() - pos
        },
        window_of(rows, pos, n).unwrap() == all_of(rows).unwrap().subrange(
            pos as int,
            window_end(rows.len(), pos, n) as int,
        ),
{
    let end = window_end(rows.len(), pos, n) as int;
    assert(window_of(rows, pos, n).unwrap() =~= all_of(rows).unwrap().subrange(pos as int, end));
}

/// Two windows that follow each other make up one window: where every row
/// of a text is parsed, the window of `n` rows at `pos` and the window of `m`
/// rows after it are, together, the window of `n + m` rows at `pos`. Pages
/// read one after the other leave no row out and show none twice.
pub proof fn lemma_windows_join(rows: Seq<Option<Seq<Seq<char>>>>, pos: nat, n: nat, m: nat)
    requires
        all_of(rows) is Ok,
    ensures
        window_of(rows, pos, n) is Ok,
        window_of(rows, pos + n, m) is Ok,
        window_of(rows, pos, n + m) is Ok,
        window_of(rows, pos, n).unwrap() + window_of(rows, pos + n, m).unwrap() == window_of(
            rows,
            pos,
            n + m,
        ).unwrap(),
{
    assert(window_of(rows, pos, n).unwrap() + window_of(rows, pos + n, m).unwrap() =~= window_of(
        rows,
        pos,
        n + m,
    ).unwrap());
}

/// A window of a text with a header line is the window, at the same offset, of
/// the text after that line: no row of it comes from the header, at offset 0
/// or anywhere else.
pub proof fn lemma_header_not_in_window(
    header: Seq<u8>,
    rest: Seq<u8>,
    delimiter: char,
    pos: nat,
    n: nat,
)
    requires
        newline_free(header),
    ensures
        data_rows(header.push(NEWLINE) + rest, true, delimiter) == data_rows(
            rest,
            false,
            delimiter,
        ),
        window_in(header.push(NEWLINE) + rest, pos, n, true, delimiter) == window_in(
            rest,
            pos,
            n,
            false,
            delimiter,
        ),
{
    lemma_body_after_header(header, rest);
}

/// Two reads of one window of one text return the same: both fail with the
/// same error, or both succeed with the same rows.
pub proof fn lemma_window_read_twice(
    data: Seq<u8>,
    pos: nat,
    n: nat,
    has_header: bool,
    delimiter: char,
    first: Result<Vec<Record>, ViewerError>,
    second: Result<Vec<Record>, ViewerError>,
)
    requires
        gives(first, window_in(data, pos, n, has_header, delimiter)),
        gives(second, window_in(data, pos, n, has_header, delimiter)),
    ensures
        first is Ok <==> second is Ok,
        first is Ok ==> rows_of(first.unwrap()@) == rows_of(second.unwrap()@),
        first is Err ==> first->Err_0 == second->Err_0,
{
}

/// The first refused row is at `at` when every row before it was parsed.
proof fn lemma_first_refused(rows: Seq<Option<Seq<Seq<char>>>>, at: int)
    requires
        0 <= at < rows.len(),
        rows[at] is None,
        all_parsed(rows, at),
    ensures
        rows.index_of_first(None::<Seq<Seq<char>>>) == Some(at),
{
    rows.index_of_first_ensures(None::<Seq<Seq<char>>>);
    assert(rows.contains(None::<Seq<Seq<char>>>));
    let first = rows.index_of_first(None::<Seq<Seq<char>>>).unwrap();
    if first < at {
        assert(rows[first] is Some);
    }
}

/// No row is refused when all of them were parsed.
proof fn lemma_none_refused(rows: Seq<Option<Seq<Seq<char>>>>)
    requires
        all_parsed(rows, rows.len() as int),
    ensures
        rows.index_of_first(None::<Seq<Seq<char>>>) == None::<int>,
{
    rows.index_of_first_ensures(None::<Seq<Seq<char>>>);
    if rows.contains(None::<Seq<Seq<char>>>) {
        let first = rows.index_of_first(None::<Seq<Seq<char>>>).unwrap();
        assert(rows[first] is Some);
    }
}

/// The first refused row, if there is one, is not among rows that were
/// parsed.
proof fn lemma_refused_not_before(rows: Seq<Option<Seq<Seq<char>>>>, upto: int)
    requires
        0 <= upto <= rows.len(),
        all_parsed(rows, upto),
    ensures
        match rows.index_of_first(None::<Seq<Seq<char>>>) {
            Some(bad) => upto <= bad,
            None => true,
        },
{
    rows.index_of_first_ensures(None::<Seq<Seq<char>>>);
    if rows.contains(None::<Seq<Seq<char>>>) {
        let first = rows.index_of_first(None::<Seq<Seq<char>>>).unwrap();
        if first < upto {
            assert(rows[first] is Some);
        }
    }
}

} // verus!
