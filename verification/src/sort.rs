//! Sorting the rows of a text by one column, a chunk of rows at a time.
//!
//! The rows are read in chunks of a bounded number of rows. Each chunk is
//! sorted by itself and written out before the next is read, so the output is
//! sorted within each chunk and not across chunks.

use vstd::prelude::*;
use vstd::string::StrSliceExecFns;
use vstd::utf8::encode_utf8;
use crate::csv_io::{csv_line, csv_rows, encode_record, open_reader, pending_rows, read_row};
use crate::error::ViewerError;
use crate::memory::available_memory;
use crate::order::{
    comes_before, is_sorted_order, key_bytes, lemma_comes_before_asymmetric, lemma_lex_irreflexive,
    lemma_sorted_order_exists, lemma_sorted_order_is_permutation, lex_lt, sort_order, sorted_order,
};
use crate::reader::{all_parsed, header_of, parsed, read_header};
use crate::record::{rows_of, Record};

verus! {

/// The bytes that a record is taken to need in memory when the size of a
/// chunk is worked out.
pub const RECORD_FOOTPRINT: u64 = 1024;

/// The rows of a chunk where the machine does not tell how much memory it has
/// to spare.
pub const FALLBACK_CHUNK_CAPACITY: usize = 4096;

/// The delimiter of the text that is sorted and of the text that comes out:
/// a comma.
pub const SORT_DELIMITER: u8 = 0x2C;

/// The rows of a chunk on a machine with `available_memory` bytes to spare:
/// as many as fit in a quarter of that memory, one at least, and the fallback
/// where no memory is reported.
pub open spec fn capacity_for(available_memory: u64) -> nat {
    let rows = available_memory as nat / 4 / (RECORD_FOOTPRINT as nat);
    if available_memory == 0 {
        FALLBACK_CHUNK_CAPACITY as nat
    } else if rows == 0 {
        1
    } else if rows > usize::MAX {
        usize::MAX as nat
    } else {
        rows
    }
}

/// The key by which a field is sorted: the bytes of its text in UTF-8.
pub open spec fn key_of(text: Seq<char>) -> Seq<u8> {
    encode_utf8(text)
}

/// Whether every row has a field at index `column`.
pub open spec fn has_column(rows: Seq<Seq<Seq<char>>>, column: nat) -> bool {
    forall|i: int| 0 <= i < rows.len() ==> column < (#[trigger] rows[i]).len()
}

/// The sort keys of `rows`: the key of each row's field at `column`.
pub open spec fn column_keys(rows: Seq<Seq<Seq<char>>>, column: nat) -> Seq<Seq<u8>> {
    Seq::new(rows.len(), |i: int| key_of(rows[i][column as int]))
}

/// The rows at the positions that `order` lists, in that order.
pub open spec fn arrange(rows: Seq<Seq<Seq<char>>>, order: Seq<usize>) -> Seq<Seq<Seq<char>>> {
    Seq::new(order.len(), |k: int| rows[order[k] as int])
}

/// `rows` sorted by the key of the field at `column`; rows with equal keys
/// stay in the order they had.
pub open spec fn sorted_by_column(rows: Seq<Seq<Seq<char>>>, column: nat) -> Seq<Seq<Seq<char>>> {
    arrange(rows, sorted_order(column_keys(rows, column)))
}

/// The rows that are sorted: all but those equal to the header.
pub open spec fn kept_rows(rows: Seq<Seq<Seq<char>>>, header: Seq<Seq<char>>) -> Seq<
    Seq<Seq<char>>,
> {
    rows.filter(|row: Seq<Seq<char>>| row != header)
}

/// What sorting the chunk made of the first `size` rows gives: `Parse` if one
/// of them was refused; else `ColumnOutOfRange` if one of those kept has no
/// field at `column`; else the kept rows, sorted.
pub open spec fn chunk_outcome(
    rows: Seq<Option<Seq<Seq<char>>>>,
    size: nat,
    header: Seq<Seq<char>>,
    column: nat,
) -> Result<Seq<Seq<Seq<char>>>, ViewerError> {
    if !all_parsed(rows, size as int) {
        Err(ViewerError::Parse)
    } else if !has_column(kept_rows(parsed(rows, 0, size as int), header), column) {
        Err(ViewerError::ColumnOutOfRange)
    } else {
        Ok(sorted_by_column(kept_rows(parsed(rows, 0, size as int), header), column))
    }
}

/// The rows that a chunk holds when `capacity` rows are asked for: that many,
/// and one where none is asked for.
pub open spec fn chunk_rows(capacity: nat) -> nat {
    if capacity == 0 {
        1
    } else {
        capacity
    }
}

/// The number of rows in the first chunk of `len` rows.
pub open spec fn chunk_size(len: nat, capacity: nat) -> nat {
    if capacity <= len {
        capacity
    } else {
        len
    }
}

/// What sorting `rows` chunk by chunk gives: the sorted chunks one after the
/// other, or the error of the first chunk that has one. Chunks of no row sort
/// nothing.
pub open spec fn sorted_chunks(
    rows: Seq<Option<Seq<Seq<char>>>>,
    header: Seq<Seq<char>>,
    column: nat,
    capacity: nat,
) -> Result<Seq<Seq<Seq<char>>>, ViewerError>
    decreases rows.len(),
{
    if rows.len() == 0 || capacity == 0 {
        Ok(Seq::empty())
    } else {
        let size = chunk_size(rows.len(), capacity);
        match chunk_outcome(rows, size, header, column) {
            Err(e) => Err(e),
            Ok(first) => match sorted_chunks(rows.skip(size as int), header, column, capacity) {
                Err(e) => Err(e),
                Ok(rest) => Ok(first + rest),
            },
        }
    }
}

/// The lines written for `rows`, one after the other.
pub open spec fn encode_rows(rows: Seq<Seq<Seq<char>>>) -> Seq<u8>
    decreases rows.len(),
{
    if rows.len() == 0 {
        Seq::empty()
    } else {
        encode_rows(rows.drop_last()) + csv_line(rows.last())
    }
}

/// The rows after the header row.
pub open spec fn rows_after_header(rows: Seq<Option<Seq<Seq<char>>>>) -> Seq<
    Option<Seq<Seq<char>>>,
> {
    if rows.len() == 0 {
        rows
    } else {
        rows.skip(1)
    }
}

/// What sorting a text of these rows gives: the header line, written once,
/// and after it the lines of the sorted chunks; or the error of the header,
/// or of the first chunk that has one.
pub open spec fn sort_outcome(rows: Seq<Option<Seq<Seq<char>>>>, column: nat, capacity: nat) -> Result<
    Seq<u8>,
    ViewerError,
> {
    match header_of(rows) {
        Err(e) => Err(e),
        Ok(header) => match sorted_chunks(rows_after_header(rows), header, column, capacity) {
            Err(e) => Err(e),
            Ok(sorted) => Ok(csv_line(header) + encode_rows(sorted)),
        },
    }
}

/// Whether `result` is what a sort that should give `expected` returns.
pub open spec fn gives_text(
    result: Result<Vec<u8>, ViewerError>,
    expected: Result<Seq<u8>, ViewerError>,
) -> bool {
    match expected {
        Ok(text) => result is Ok && result.unwrap()@ == text,
        Err(e) => result is Err && result->Err_0 == e,
    }
}

/// Returns the number of rows of a chunk on a machine with
/// `available_memory` bytes to spare.
pub fn chunk_capacity(available_memory: u64) -> (capacity: usize)
    ensures
        capacity == capacity_for(available_memory),
        capacity >= 1,
{
    if available_memory == 0 {
        return FALLBACK_CHUNK_CAPACITY;
    }
    let rows: u64 = available_memory / 4 / RECORD_FOOTPRINT;
    if rows == 0 {
        1
    } else if rows > usize::MAX as u64 {
        usize::MAX
    } else {
        rows as usize
    }
}

/// Checks whether two records match one another. It is there to tell a row
/// that repeats the header from the data rows.
pub fn matches(record: &Record, header: &Record) -> (same: bool)
    ensures
        same == (record@ == header@),
{
    record.matches(header)
}

/// Returns the sort key of each row, or `ColumnOutOfRange` where a row has no
/// field at `column`.
fn keys_of_column(rows: &Vec<Record>, column: usize) -> (keys: Result<Vec<Vec<u8>>, ViewerError>)
    ensures
        has_column(rows_of(rows@), column as nat) ==> keys is Ok && key_bytes(keys.unwrap()@)
            == column_keys(rows_of(rows@), column as nat),
        !has_column(rows_of(rows@), column as nat) ==> keys is Err && keys->Err_0
            == ViewerError::ColumnOutOfRange,
{
    let mut keys: Vec<Vec<u8>> = Vec::new();
    let mut i: usize = 0;
    while i < rows.len()
        invariant
            i <= rows.len(),
            keys.len() == i,
            forall|j: int| 0 <= j < i ==> column < (#[trigger] rows_of(rows@)[j]).len(),
            forall|j: int|
                0 <= j < i ==> (#[trigger] keys[j])@ == key_of(rows_of(rows@)[j][column as int]),
        decreases rows.len() - i,
    {
        match rows[i].get(column) {
            Ok(field) => {
                keys.push(field.as_str().as_bytes_vec());
            },
            Err(_) => {
                assert(!(column < rows_of(rows@)[i as int].len()));
                return Err(ViewerError::ColumnOutOfRange);
            },
        }
        i = i + 1;
    }
    assert(key_bytes(keys@) =~= column_keys(rows_of(rows@), column as nat));
    Ok(keys)
}

/// Sorts a chunk of rows by the text of the field at `column`, compared byte
/// by byte, and returns the positions of the rows in sorted order. Rows with
/// equal text at `column` stay in the order they had. A row without a field at
/// `column` gives `ColumnOutOfRange`.
pub fn sort_chunk(rows: &Vec<Record>, column: usize) -> (order: Result<Vec<usize>, ViewerError>)
    ensures
        has_column(rows_of(rows@), column as nat) ==> order is Ok && order.unwrap()@
            == sorted_order(column_keys(rows_of(rows@), column as nat)) && is_sorted_order(
            order.unwrap()@,
            column_keys(rows_of(rows@), column as nat),
        ),
        !has_column(rows_of(rows@), column as nat) ==> order is Err && order->Err_0
            == ViewerError::ColumnOutOfRange,
{
    match keys_of_column(rows, column) {
        Ok(keys) => Ok(sort_order(&keys)),
        Err(e) => Err(e),
    }
}

proof fn lemma_kept_rows_push(rows: Seq<Seq<Seq<char>>>, row: Seq<Seq<char>>, header: Seq<Seq<char>>)
    ensures
        kept_rows(rows.push(row), header) == if row != header {
            kept_rows(rows, header).push(row)
        } else {
            kept_rows(rows, header)
        },
{
    reveal(Seq::filter);
    assert(rows.push(row).drop_last() =~= rows);
}

/// Reads the next chunk: up to `capacity` rows, of which those equal to
/// `header` are dropped. Also tells whether the rows have ended.
fn read_chunk(reader: &mut csv::Reader<&[u8]>, header: &Record, capacity: usize) -> (chunk: Result<
    (Vec<Record>, bool),
    ViewerError,
>)
    ensures
        ({
            let rows = pending_rows(*old(reader));
            let size = chunk_size(rows.len(), capacity as nat);
            if all_parsed(rows, size as int) {
                &&& chunk is Ok
                &&& rows_of(chunk.unwrap().0@) == kept_rows(parsed(rows, 0, size as int), header@)
                &&& pending_rows(*final(reader)) == rows.skip(size as int)
                &&& chunk.unwrap().1 ==> size == rows.len()
                &&& !chunk.unwrap().1 ==> size == capacity
            } else {
                chunk is Err && chunk->Err_0 == ViewerError::Parse
            }
        }),
{
    let ghost rows = pending_rows(*reader);
    let mut kept: Vec<Record> = Vec::new();
    let mut taken: usize = 0;
    proof {
        reveal(Seq::filter);
        assert(rows.skip(0) =~= rows);
        assert(rows_of(kept@) =~= kept_rows(parsed(rows, 0, 0), header@));
    }
    while taken < capacity
        invariant
            rows == pending_rows(*old(reader)),
            taken <= capacity,
            taken <= rows.len(),
            pending_rows(*reader) == rows.skip(taken as int),
            all_parsed(rows, taken as int),
            rows_of(kept@) == kept_rows(parsed(rows, 0, taken as int), header@),
        decreases capacity - taken,
    {
        match read_row(reader) {
            Err(_) => {
                assert(rows[taken as int] is None);
                return Err(ViewerError::Parse);
            },
            Ok((more, fields)) => {
                if !more {
                    return Ok((kept, true));
                }
                let record = Record::from_fields(fields);
                proof {
                    lemma_kept_rows_push(parsed(rows, 0, taken as int), record@, header@);
                    assert(parsed(rows, 0, taken + 1) =~= parsed(rows, 0, taken as int).push(
                        record@,
                    ));
                    assert(rows.skip(taken as int).skip(1) =~= rows.skip(taken + 1));
                }
                if !matches(&record, header) {
                    let ghost before = kept@;
                    kept.push(record);
                    assert(rows_of(kept@) =~= rows_of(before).push(record@));
                }
            },
        }
        taken = taken + 1;
    }
    Ok((kept, false))
}

/// Sorts the rows that `reader` has left, the first of which is the header,
/// in chunks of `capacity` rows, and returns the text of the header line and
/// the sorted chunks. A chunk holds one row at least.
pub fn sort_rows(reader: csv::Reader<&[u8]>, column: usize, capacity: usize) -> (sorted: Result<
    Vec<u8>,
    ViewerError,
>)
    ensures
        gives_text(
            sorted,
            sort_outcome(pending_rows(reader), column as nat, chunk_rows(capacity as nat)),
        ),
{
    let per_chunk: usize = if capacity == 0 {
        1
    } else {
        capacity
    };
    let ghost all = pending_rows(reader);
    let mut source = reader;
    let header = match read_header(&mut source) {
        Ok(header) => header,
        Err(e) => {
            return Err(e);
        },
    };
    let ghost body = pending_rows(source);
    assert(body == rows_after_header(all)) by {
        if all.len() == 0 {
            assert(all.skip(0) =~= all);
        }
    }
    let mut out = encode_record(&header);
    let ghost mut done_rows: Seq<Seq<Seq<char>>> = Seq::empty();
    let mut done = false;
    proof {
        assert(out@ =~= csv_line(header@) + encode_rows(done_rows));
        lemma_sorted_chunks_step(body, Seq::empty(), header@, column as nat, per_chunk as nat);
    }
    while !done
        invariant
            per_chunk >= 1,
            per_chunk == chunk_rows(capacity as nat),
            all == pending_rows(reader),
            header_of(all) == Ok::<Seq<Seq<char>>, ViewerError>(header@),
            body == rows_after_header(all),
            out@ == csv_line(header@) + encode_rows(done_rows),
            done ==> pending_rows(source).len() == 0,
            match sorted_chunks(pending_rows(source), header@, column as nat, per_chunk as nat) {
                Ok(rest) => sorted_chunks(body, header@, column as nat, per_chunk as nat) == Ok::<
                    Seq<Seq<Seq<char>>>,
                    ViewerError,
                >(done_rows + rest),
                Err(e) => sorted_chunks(body, header@, column as nat, per_chunk as nat) == Err::<
                    Seq<Seq<Seq<char>>>,
                    ViewerError,
                >(e),
            },
        decreases pending_rows(source).len(), if done { 0int } else { 1int },
    {
        let ghost rest = pending_rows(source);
        let ghost size = chunk_size(rest.len(), per_chunk as nat);
        let (chunk, ended) = match read_chunk(&mut source, &header, per_chunk) {
            Ok(read) => read,
            Err(e) => {
                return Err(e);
            },
        };
        let order = match sort_chunk(&chunk, column) {
            Ok(order) => order,
            Err(e) => {
                return Err(e);
            },
        };
        let ghost first = sorted_by_column(rows_of(chunk@), column as nat);
        assert(chunk_outcome(rest, size, header@, column as nat) == Ok::<
            Seq<Seq<Seq<char>>>,
            ViewerError,
        >(first));
        proof {
            lemma_sorted_order_is_permutation(
                order@,
                column_keys(rows_of(chunk@), column as nat),
            );
            assert(order@.len() == chunk@.len());
        }
        let mut k: usize = 0;
        assert(done_rows + first.take(0) =~= done_rows);
        while k < order.len()
            invariant
                k <= order.len(),
                order@.len() == chunk@.len(),
                first == arrange(rows_of(chunk@), order@),
                forall|i: int| 0 <= i < order.len() ==> (#[trigger] order[i]) < chunk.len(),
                out@ == csv_line(header@) + encode_rows(done_rows + first.take(k as int)),
            decreases order.len() - k,
        {
            let mut line = encode_record(&chunk[order[k]]);
            out.append(&mut line);
            proof {
                let now = done_rows + first.take(k + 1);
                assert(now.drop_last() =~= done_rows + first.take(k as int));
                assert(now.last() == chunk[order[k as int] as int]@);
            }
            k = k + 1;
        }
        proof {
            assert(first.take(k as int) =~= first);
            lemma_sorted_chunks_step(rest, first, header@, column as nat, per_chunk as nat);
            let tail = sorted_chunks(pending_rows(source), header@, column as nat, per_chunk as nat);
            if tail is Ok {
                assert(done_rows + (first + tail.unwrap()) =~= (done_rows + first) + tail.unwrap());
            }
            done_rows = done_rows + first;
        }
        done = ended;
    }
    proof {
        assert(done_rows + Seq::<Seq<Seq<char>>>::empty() =~= done_rows);
    }
    Ok(out)
}

/// How the outcome for `rows` is made of the outcome of their first chunk and
/// that of the rows after it.
proof fn lemma_sorted_chunks_step(
    rows: Seq<Option<Seq<Seq<char>>>>,
    first: Seq<Seq<Seq<char>>>,
    header: Seq<Seq<char>>,
    column: nat,
    capacity: nat,
)
    requires
        capacity >= 1,
    ensures
        rows.len() == 0 ==> sorted_chunks(rows, header, column, capacity) == Ok::<
            Seq<Seq<Seq<char>>>,
            ViewerError,
        >(Seq::empty()),
        rows.len() > 0 && chunk_outcome(
            rows,
            chunk_size(rows.len(), capacity),
            header,
            column,
        ) == Ok::<Seq<Seq<Seq<char>>>, ViewerError>(first) ==> sorted_chunks(
            rows,
            header,
            column,
            capacity,
        ) == match sorted_chunks(
            rows.skip(chunk_size(rows.len(), capacity) as int),
            header,
            column,
            capacity,
        ) {
            Err(e) => Err::<Seq<Seq<Seq<char>>>, ViewerError>(e),
            Ok(rest) => Ok(first + rest),
        },
{
}

/// Sorts the rows of `data`, a comma-separated text whose first row is the
/// header, by the field at `column`, in chunks of `capacity` rows. A chunk
/// holds one row at least.
pub fn sort_chunked(data: &[u8], column: usize, capacity: usize) -> (sorted: Result<
    Vec<u8>,
    ViewerError,
>)
    ensures
        gives_text(
            sorted,
            sort_outcome(
                csv_rows(data@, SORT_DELIMITER),
                column as nat,
                chunk_rows(capacity as nat),
            ),
        ),
{
    let reader = open_reader(data, SORT_DELIMITER);
    sort_rows(reader, column, capacity)
}

/// Sorts the records of the comma-separated text `data` by the field at
/// `field_index` and returns the sorted text. The rows are sorted in chunks
/// whose size is taken, once, from the memory that the machine has to spare
/// when the sort starts: the result is that of `sort_chunked` with the
/// capacity for some amount of memory.
pub fn sort_records(data: &[u8], field_index: usize) -> (sorted: Result<Vec<u8>, ViewerError>)
    ensures
        exists|memory: u64|
            gives_text(
                sorted,
                sort_outcome(
                    csv_rows(data@, SORT_DELIMITER),
                    field_index as nat,
                    #[trigger] capacity_for(memory),
                ),
            ),
{
    let memory = available_memory();
    let capacity = chunk_capacity(memory);
    sort_chunked(data, field_index, capacity)
}

/// Whether the keys at `column` never go down from one row to the next.
pub open spec fn ascending(rows: Seq<Seq<Seq<char>>>, column: nat) -> bool {
    forall|a: int, b: int|
        0 <= a < b < rows.len() ==> !lex_lt(
            key_of((#[trigger] rows[b])[column as int]),
            key_of((#[trigger] rows[a])[column as int]),
        )
}

/// Sorted rows are the rows that were given, each once, in ascending order of
/// the keys at the column.
pub proof fn lemma_sorted_by_column(rows: Seq<Seq<Seq<char>>>, column: nat)
    requires
        rows.len() <= usize::MAX,
    ensures
        is_sorted_order(sorted_order(column_keys(rows, column)), column_keys(rows, column)),
        sorted_by_column(rows, column).len() == rows.len(),
        ascending(sorted_by_column(rows, column), column),
        forall|i: usize| i < rows.len() ==> sorted_order(column_keys(rows, column)).contains(i),
        sorted_order(column_keys(rows, column)).no_duplicates(),
{
    let keys = column_keys(rows, column);
    let order = sorted_order(keys);
    let sorted = sorted_by_column(rows, column);
    lemma_sorted_order_exists(keys);
    lemma_sorted_order_is_permutation(order, keys);
    assert forall|a: int, b: int| 0 <= a < b < sorted.len() implies !lex_lt(
        key_of((#[trigger] sorted[b])[column as int]),
        key_of((#[trigger] sorted[a])[column as int]),
    ) by {
        assert(comes_before(keys, order[a], order[b]));
        lemma_comes_before_asymmetric(keys, order[a], order[b]);
        lemma_lex_irreflexive(keys[order[a] as int]);
    }
}

proof fn lemma_kept_all(rows: Seq<Seq<Seq<char>>>, header: Seq<Seq<char>>)
    requires
        forall|i: int| 0 <= i < rows.len() ==> (#[trigger] rows[i]) != header,
    ensures
        kept_rows(rows, header) == rows,
    decreases rows.len(),
{
    reveal(Seq::filter);
    if rows.len() > 0 {
        lemma_kept_all(rows.drop_last(), header);
        assert(rows.drop_last().push(rows.last()) =~= rows);
    }
}

proof fn lemma_kept_contains(rows: Seq<Seq<Seq<char>>>, header: Seq<Seq<char>>, at: int)
    requires
        0 <= at < rows.len(),
        rows[at] != header,
    ensures
        kept_rows(rows, header).contains(rows[at]),
    decreases rows.len(),
{
    reveal(Seq::filter);
    let front = kept_rows(rows.drop_last(), header);
    if at == rows.len() - 1 {
        assert(kept_rows(rows, header) == front.push(rows.last()));
        assert(kept_rows(rows, header)[front.len() as int] == rows[at]);
    } else {
        lemma_kept_contains(rows.drop_last(), header, at);
        let found = choose|found: int| 0 <= found < front.len() && front[found] == rows[at];
        assert(kept_rows(rows, header)[found] == rows[at]);
    }
}

/// Whether every row was parsed and none repeats the header.
pub open spec fn all_data_rows(rows: Seq<Option<Seq<Seq<char>>>>, header: Seq<Seq<char>>) -> bool {
    forall|i: int|
        0 <= i < rows.len() ==> (#[trigger] rows[i]) is Some && rows[i].unwrap() != header
}

proof fn lemma_sorted_chunks_len(
    rows: Seq<Option<Seq<Seq<char>>>>,
    header: Seq<Seq<char>>,
    column: nat,
    capacity: nat,
)
    requires
        capacity >= 1,
        rows.len() <= usize::MAX,
        all_data_rows(rows, header),
        sorted_chunks(rows, header, column, capacity) is Ok,
    ensures
        sorted_chunks(rows, header, column, capacity).unwrap().len() == rows.len(),
    decreases rows.len(),
{
    if rows.len() > 0 {
        let size = chunk_size(rows.len(), capacity);
        let chunk = parsed(rows, 0, size as int);
        lemma_kept_all(chunk, header);
        lemma_sorted_by_column(chunk, column);
        let rest = rows.skip(size as int);
        assert(all_data_rows(rest, header)) by {
            assert forall|i: int| 0 <= i < rest.len() implies (#[trigger] rest[i]) is Some
                && rest[i].unwrap() != header by {
                assert(rest[i] == rows[i + size]);
            }
        }
        lemma_sorted_chunks_len(rest, header, column, capacity);
    }
}

/// The index after the last row of chunk `k` among `len` rows.
pub open spec fn chunk_end(len: nat, capacity: nat, k: nat) -> nat {
    if k * capacity + capacity <= len {
        k * capacity + capacity
    } else {
        len
    }
}

/// Where no row repeats the header, the sorted rows fall into segments of
/// `capacity` rows, the last one maybe shorter, and segment `k` holds rows
/// `k * capacity` and following of the text, sorted by themselves: its keys
/// are in ascending order, whatever the keys of the segments around it.
pub proof fn lemma_each_chunk_sorted(
    rows: Seq<Option<Seq<Seq<char>>>>,
    header: Seq<Seq<char>>,
    column: nat,
    capacity: nat,
    k: nat,
)
    requires
        capacity >= 1,
        rows.len() <= usize::MAX,
        all_data_rows(rows, header),
        sorted_chunks(rows, header, column, capacity) is Ok,
        k * capacity < rows.len(),
    ensures
        sorted_chunks(rows, header, column, capacity).unwrap().len() == rows.len(),
        sorted_chunks(rows, header, column, capacity).unwrap().subrange(
            (k * capacity) as int,
            chunk_end(rows.len(), capacity, k) as int,
        ) == sorted_by_column(
            parsed(rows, (k * capacity) as int, chunk_end(rows.len(), capacity, k) as int),
            column,
        ),
        ascending(
            sorted_chunks(rows, header, column, capacity).unwrap().subrange(
                (k * capacity) as int,
                chunk_end(rows.len(), capacity, k) as int,
            ),
            column,
        ),
    decreases k,
{
    let out = sorted_chunks(rows, header, column, capacity).unwrap();
    let size = chunk_size(rows.len(), capacity);
    let chunk = parsed(rows, 0, size as int);
    let rest = rows.skip(size as int);
    lemma_sorted_chunks_len(rows, header, column, capacity);
    lemma_kept_all(chunk, header);
    lemma_sorted_by_column(chunk, column);
    let first = sorted_by_column(chunk, column);
    let tail = sorted_chunks(rest, header, column, capacity).unwrap();
    assert(out == first + tail);
    let lo = (k * capacity) as int;
    let hi = chunk_end(rows.len(), capacity, k) as int;
    if k == 0 {
        assert(lo == 0) by (nonlinear_arith)
            requires
                lo == k * capacity,
                k == 0,
        ;
        assert(hi == size);
        assert(out.subrange(lo, hi) =~= first);
    } else {
        let j = (k - 1) as nat;
        assert(k * capacity == j * capacity + capacity) by (nonlinear_arith)
            requires
                j == k - 1,
        ;
        assert(size == capacity);
        assert(all_data_rows(rest, header)) by {
            assert forall|i: int| 0 <= i < rest.len() implies (#[trigger] rest[i]) is Some
                && rest[i].unwrap() != header by {
                assert(rest[i] == rows[i + size]);
            }
        }
        lemma_each_chunk_sorted(rest, header, column, capacity, j);
        let lo2 = (j * capacity) as int;
        let hi2 = chunk_end(rest.len(), capacity, j) as int;
        assert(hi2 == hi - capacity);
        assert(out.subrange(lo, hi) =~= tail.subrange(lo2, hi2));
        assert(parsed(rows, lo, hi) =~= parsed(rest, lo2, hi2));
    }
}

/// Where one chunk holds all rows, the sort gives what sorting that chunk
/// gives: the kept rows in ascending order of their keys, from the first to
/// the last.
pub proof fn lemma_single_chunk(
    rows: Seq<Option<Seq<Seq<char>>>>,
    header: Seq<Seq<char>>,
    column: nat,
    capacity: nat,
)
    requires
        capacity >= rows.len(),
        rows.len() >= 1,
        rows.len() <= usize::MAX,
    ensures
        sorted_chunks(rows, header, column, capacity) == chunk_outcome(
            rows,
            rows.len(),
            header,
            column,
        ),
        sorted_chunks(rows, header, column, capacity) is Ok ==> ascending(
            sorted_chunks(rows, header, column, capacity).unwrap(),
            column,
        ),
{
    let size = chunk_size(rows.len(), capacity);
    lemma_sorted_chunks_step(rows.skip(size as int), Seq::empty(), header, column, capacity);
    let kept = kept_rows(parsed(rows, 0, size as int), header);
    if kept.len() > 0 {
        lemma_kept_differs(parsed(rows, 0, size as int), header, 0);
    }
    lemma_sorted_by_column(kept, column);
    if chunk_outcome(rows, size, header, column) is Ok {
        let first = chunk_outcome(rows, size, header, column).unwrap();
        assert(first + Seq::<Seq<Seq<char>>>::empty() =~= first);
    }
}

/// A sort fails with `ColumnOutOfRange` whenever a data row that it reaches
/// has no field at the column: the row has to be one that does not repeat the
/// header, and every row up to the end of its chunk has to be parsed, so that
/// the sort gets as far and finds no other fault first.
pub proof fn lemma_short_row_fails(
    rows: Seq<Option<Seq<Seq<char>>>>,
    header: Seq<Seq<char>>,
    column: nat,
    capacity: nat,
    at: nat,
)
    requires
        capacity >= 1,
        at < rows.len(),
        all_parsed(rows, chunk_end(rows.len(), capacity, at / capacity) as int),
        rows[at as int].unwrap() != header,
        rows[at as int].unwrap().len() <= column,
    ensures
        sorted_chunks(rows, header, column, capacity) == Err::<Seq<Seq<Seq<char>>>, ViewerError>(
            ViewerError::ColumnOutOfRange,
        ),
    decreases rows.len(),
{
    let size = chunk_size(rows.len(), capacity);
    let chunk = parsed(rows, 0, size as int);
    let k = at / capacity;
    assert(k * capacity <= at < k * capacity + capacity) by (nonlinear_arith)
        requires
            k == at / capacity,
            capacity >= 1,
    ;
    if at < size {
        assert(k == 0) by (nonlinear_arith)
            requires
                k * capacity <= at,
                at < capacity,
                k >= 0,
        ;
        assert(chunk[at as int] == rows[at as int].unwrap());
        lemma_kept_contains(chunk, header, at as int);
        let kept = kept_rows(chunk, header);
        let found = choose|found: int| 0 <= found < kept.len() && kept[found] == chunk[at as int];
        assert(!(column < kept[found].len()));
    } else {
        let rest = rows.skip(size as int);
        let next = (at - size) as nat;
        assert(size == capacity);
        assert(k >= 1 && next / capacity == k - 1) by (nonlinear_arith)
            requires
                k * capacity <= at < k * capacity + capacity,
                at >= capacity,
                capacity >= 1,
                next == at - capacity,
        ;
        assert((k - 1) * capacity + capacity == k * capacity) by (nonlinear_arith);
        let limit = chunk_end(rows.len(), capacity, k) as int;
        assert(all_parsed(rest, limit - size)) by {
            assert forall|i: int| 0 <= i < limit - size && i < rest.len() implies (
            #[trigger] rest[i]) is Some by {
                assert(rest[i] == rows[i + size]);
            }
        }
        lemma_short_row_fails(rest, header, column, capacity, next);
    }
}

/// The sort of a text fails with `ColumnOutOfRange` where a data row that
/// does not repeat the header has no field at the column, and the header and
/// every row up to the end of that row's chunk are parsed.
pub proof fn lemma_short_row_fails_sort(
    rows: Seq<Option<Seq<Seq<char>>>>,
    column: nat,
    capacity: nat,
    at: nat,
)
    requires
        capacity >= 1,
        1 <= at < rows.len(),
        all_parsed(
            rows,
            1 + chunk_end((rows.len() - 1) as nat, capacity, ((at - 1) as nat) / capacity) as int,
        ),
        rows[at as int].unwrap() != rows[0].unwrap(),
        rows[at as int].unwrap().len() <= column,
    ensures
        sort_outcome(rows, column, capacity) == Err::<Seq<u8>, ViewerError>(
            ViewerError::ColumnOutOfRange,
        ),
{
    let rest = rows.skip(1);
    let limit = chunk_end((rows.len() - 1) as nat, capacity, ((at - 1) as nat) / capacity) as int;
    assert(rows[0] is Some);
    assert(all_parsed(rest, limit)) by {
        assert forall|i: int| 0 <= i < limit && i < rest.len() implies (#[trigger] rest[i])
            is Some by {
            assert(rest[i] == rows[i + 1]);
        }
    }
    lemma_short_row_fails(rest, rows[0].unwrap(), column, capacity, (at - 1) as nat);
}

proof fn lemma_kept_differs(rows: Seq<Seq<Seq<char>>>, header: Seq<Seq<char>>, at: int)
    requires
        0 <= at < kept_rows(rows, header).len(),
    ensures
        kept_rows(rows, header)[at] != header,
        kept_rows(rows, header).len() <= rows.len(),
    decreases rows.len(),
{
    reveal(Seq::filter);
    if rows.len() > 0 {
        let front = kept_rows(rows.drop_last(), header);
        if at < front.len() {
            lemma_kept_differs(rows.drop_last(), header, at);
        } else if front.len() > 0 {
            lemma_kept_differs(rows.drop_last(), header, 0);
        }
    }
}

/// No sorted row repeats the header, so the header stands in the sorted text
/// once: as its first line.
pub proof fn lemma_header_not_among_sorted(
    rows: Seq<Option<Seq<Seq<char>>>>,
    header: Seq<Seq<char>>,
    column: nat,
    capacity: nat,
    at: int,
)
    requires
        capacity >= 1,
        rows.len() <= usize::MAX,
        sorted_chunks(rows, header, column, capacity) is Ok,
        0 <= at < sorted_chunks(rows, header, column, capacity).unwrap().len(),
    ensures
        sorted_chunks(rows, header, column, capacity).unwrap()[at] != header,
    decreases rows.len(),
{
    if rows.len() > 0 {
        let size = chunk_size(rows.len(), capacity);
        let kept = kept_rows(parsed(rows, 0, size as int), header);
        let first = sorted_by_column(kept, column);
        if kept.len() > 0 {
            lemma_kept_differs(parsed(rows, 0, size as int), header, 0);
        }
        lemma_sorted_by_column(kept, column);
        if at < first.len() {
            let from = sorted_order(column_keys(kept, column))[at];
            assert(first[at] == kept[from as int]);
            lemma_kept_differs(parsed(rows, 0, size as int), header, from as int);
        } else {
            lemma_header_not_among_sorted(
                rows.skip(size as int),
                header,
                column,
                capacity,
                at - first.len(),
            );
        }
    }
}

} // verus!
