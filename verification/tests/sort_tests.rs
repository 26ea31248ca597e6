use csv_viewer::error::ViewerError;
use csv_viewer::record::Record;
use csv_viewer::sort::{
    chunk_capacity, sort_chunk, sort_chunked, sort_records, sort_rows, FALLBACK_CHUNK_CAPACITY,
    RECORD_FOOTPRINT,
};

fn record(fields: &[&str]) -> Record {
    Record::from_fields(fields.iter().map(|f| f.to_string()).collect())
}

fn text(bytes: Vec<u8>) -> String {
    String::from_utf8(bytes).unwrap()
}

#[test]
fn rows_are_sorted_by_age() {
    let input = b"Name,Age,Gender\nAlice,25,Female\nBob,30,Male\nEve,22,Female\n";
    let sorted = sort_chunked(input, 1, 3).unwrap();
    assert_eq!(text(sorted), "Name,Age,Gender\nEve,22,Female\nAlice,25,Female\nBob,30,Male\n");
}

#[test]
fn rows_already_in_order_stay_in_order() {
    let input = b"name,age\nEve,22\nAlice,25\nBob,30\n";
    for capacity in [3usize, 4, 100] {
        let sorted = sort_chunked(input, 1, capacity).unwrap();
        assert_eq!(text(sorted), "name,age\nEve,22\nAlice,25\nBob,30\n");
    }
}

#[test]
fn header_is_written_once() {
    let input = b"name,age\nBob,30\nname,age\nAlice,25\nname,age\n";
    let sorted = text(sort_chunked(input, 0, 10).unwrap());
    assert_eq!(sorted, "name,age\nAlice,25\nBob,30\n");
    assert_eq!(sorted.matches("name,age").count(), 1);
}

#[test]
fn spaces_after_commas_belong_to_the_fields() {
    let input = b"Name, Age, Gender\nAlice, 25, Female\nBob, 30, Male\nEve, 22, Female\n";
    let sorted = sort_chunked(input, 1, 3).unwrap();
    assert_eq!(
        text(sorted),
        "Name, Age, Gender\nEve, 22, Female\nAlice, 25, Female\nBob, 30, Male\n"
    );
}

#[test]
fn each_chunk_is_sorted_by_itself() {
    let input = b"k\n5\n3\n9\n1\n8\n2\n7\n";
    let sorted = text(sort_chunked(input, 0, 3).unwrap());
    assert_eq!(sorted, "k\n3\n5\n9\n1\n2\n8\n7\n");
    let rows: Vec<&str> = sorted.lines().skip(1).collect();
    for segment in rows.chunks(3) {
        let mut in_order = segment.to_vec();
        in_order.sort();
        assert_eq!(segment, &in_order[..]);
    }
    let mut whole = rows.clone();
    whole.sort();
    assert_ne!(rows, whole);
}

#[test]
fn chunks_of_one_row_change_nothing() {
    let input = b"k\n5\n3\n9\n";
    assert_eq!(text(sort_chunked(input, 0, 1).unwrap()), "k\n5\n3\n9\n");
}

#[test]
fn chunks_hold_one_row_at_least() {
    let input = b"k\n5\n3\n9\n";
    assert_eq!(sort_chunked(input, 0, 0), sort_chunked(input, 0, 1));
    assert_eq!(sort_chunked(input, 4, 0), Err(ViewerError::ColumnOutOfRange));
}

#[test]
fn rows_that_repeat_the_header_count_for_their_chunk() {
    let input = b"k\nk\nz\nb\n";
    assert_eq!(text(sort_chunked(input, 0, 2).unwrap()), "k\nz\nb\n");
}

#[test]
fn rows_with_equal_keys_keep_their_order() {
    let input = b"k,v\nb,1\na,2\nb,3\na,4\nb,5\n";
    let sorted = text(sort_chunked(input, 0, 10).unwrap());
    assert_eq!(sorted, "k,v\na,2\na,4\nb,1\nb,3\nb,5\n");
}

#[test]
fn keys_are_compared_as_text_byte_by_byte() {
    let input = "k\n9\n10\nb\nB\n\u{e9}\nz\n\nab\na\n";
    let sorted = text(sort_chunked(input.as_bytes(), 0, 100).unwrap());
    assert_eq!(sorted, "k\n10\n9\nB\na\nab\nb\nz\n\u{e9}\n");
}

#[test]
fn fields_that_need_quotes_are_quoted_again() {
    let input = b"k,v\n\"b,c\",1\n\"a \"\"x\"\"\",2\n";
    let sorted = text(sort_chunked(input, 0, 5).unwrap());
    assert_eq!(sorted, "k,v\n\"a \"\"x\"\"\",2\n\"b,c\",1\n");
}

#[test]
fn column_past_the_fields_is_out_of_range() {
    let input = b"name,age\nBob,30\nAlice,25\n";
    assert_eq!(sort_chunked(input, 2, 10), Err(ViewerError::ColumnOutOfRange));
    assert_eq!(sort_chunked(input, 2, 1), Err(ViewerError::ColumnOutOfRange));
    assert_eq!(sort_chunked(input, usize::MAX, 10), Err(ViewerError::ColumnOutOfRange));
    assert!(sort_chunked(input, 1, 10).is_ok());
}

#[test]
fn column_is_not_asked_of_a_text_without_data_rows() {
    assert_eq!(text(sort_chunked(b"name,age\n", 5, 10).unwrap()), "name,age\n");
}

#[test]
fn sort_of_row_of_other_length_is_a_parse_error() {
    let input = b"name,age\nBob,30\nAlice\nEve,22\n";
    assert_eq!(sort_chunked(input, 0, 10), Err(ViewerError::Parse));
    assert_eq!(sort_chunked(input, 0, 1), Err(ViewerError::Parse));
    assert_eq!(sort_chunked(input, 7, 10), Err(ViewerError::Parse));
}

#[test]
fn error_of_the_first_chunk_that_has_one_is_returned() {
    let input = b"name,age\nBob,30\nAlice\n";
    assert_eq!(sort_chunked(input, 7, 1), Err(ViewerError::ColumnOutOfRange));
}

#[test]
fn header_that_is_not_utf8_is_a_parse_error() {
    assert_eq!(sort_chunked(b"na\xffme\nBob\n", 0, 10), Err(ViewerError::Parse));
}

#[test]
fn empty_text_gives_an_empty_header_line() {
    assert_eq!(text(sort_chunked(b"", 0, 10).unwrap()), "\"\"\n");
}

#[test]
fn sort_with_the_capacity_of_this_machine() {
    let input = b"Name,Age,Gender\nAlice,25,Female\nBob,30,Male\nEve,22,Female\n";
    let sorted = sort_records(input, 1).unwrap();
    assert_eq!(text(sorted), "Name,Age,Gender\nEve,22,Female\nAlice,25,Female\nBob,30,Male\n");
    assert_eq!(sort_records(input, 3), Err(ViewerError::ColumnOutOfRange));
}

#[test]
fn sort_of_a_reader_starts_where_the_reader_stands() {
    let input = b"skipped,line\nname,age\nBob,30\nAlice,25\n";
    let mut reader = csv::ReaderBuilder::new().has_headers(false).from_reader(&input[..]);
    let mut first = csv::StringRecord::new();
    assert!(reader.read_record(&mut first).unwrap());
    let sorted = sort_rows(reader, 0, 10).unwrap();
    assert_eq!(text(sorted), "name,age\nAlice,25\nBob,30\n");
}

#[test]
fn chunk_order_lists_positions_by_key() {
    let rows = vec![record(&["Alice", "25"]), record(&["Bob", "30"]), record(&["Eve", "22"])];
    assert_eq!(sort_chunk(&rows, 1), Ok(vec![2, 0, 1]));
    assert_eq!(sort_chunk(&rows, 0), Ok(vec![0, 1, 2]));
    assert_eq!(sort_chunk(&rows, 2), Err(ViewerError::ColumnOutOfRange));
    assert_eq!(sort_chunk(&Vec::new(), 2), Ok(Vec::new()));
}

#[test]
fn chunk_with_one_short_row_is_out_of_range() {
    let rows = vec![record(&["a", "1"]), record(&["b"]), record(&["c", "3"])];
    assert_eq!(sort_chunk(&rows, 1), Err(ViewerError::ColumnOutOfRange));
    assert_eq!(sort_chunk(&rows, 0), Ok(vec![0, 1, 2]));
}

#[test]
fn capacity_is_a_quarter_of_memory_in_records() {
    assert_eq!(chunk_capacity(0), FALLBACK_CHUNK_CAPACITY);
    assert_eq!(FALLBACK_CHUNK_CAPACITY, 4096);
    assert_eq!(RECORD_FOOTPRINT, 1024);
    assert_eq!(chunk_capacity(1), 1);
    assert_eq!(chunk_capacity(4095), 1);
    assert_eq!(chunk_capacity(4096), 1);
    assert_eq!(chunk_capacity(8192), 2);
    assert_eq!(chunk_capacity(8 * 1024 * 1024 * 1024), 2 * 1024 * 1024);
    assert_eq!(chunk_capacity(4 * 1024 * 1000), 1000);
    assert_eq!(chunk_capacity(4 * 1024 * 1000 + 4095), 1000);
}

#[test]
fn record_matches_header_only_when_equal() {
    let header = record(&["name", "age", "city"]);
    assert!(!csv_viewer::sort::matches(&record(&["Gruff Trick", "22", "Wales"]), &header));
    assert!(csv_viewer::sort::matches(&record(&["name", "age", "city"]), &header));
}
