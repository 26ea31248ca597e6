use csv_viewer::error::ViewerError;
use csv_viewer::reader::{
    byte_of_delimiter, get_headers_from_file, get_records_file, get_records_from_pos, read_all,
    read_header, read_window,
};
use csv_viewer::record::Record;

const PEOPLE: &[u8] = b"Name,Age,City\nAlice,30,New York\nBob,25,San Francisco\nCharlie,40,Los Angeles\n";

fn record(fields: &[&str]) -> Record {
    Record::from_fields(fields.iter().map(|f| f.to_string()).collect())
}

fn numbered(rows: usize) -> Vec<u8> {
    let mut text = String::from("id,double\n");
    for i in 0..rows {
        text.push_str(&format!("{},{}\n", i, 2 * i));
    }
    text.into_bytes()
}

#[test]
fn window_after_first_row_holds_the_next_two() {
    let records = get_records_from_pos(PEOPLE, 1, 2, true, ',').unwrap();
    assert_eq!(records.len(), 2);
    assert_eq!(records[0].get(0).unwrap(), "Bob");
    assert_eq!(records[1].get(0).unwrap(), "Charlie");
    assert_eq!(records[1], record(&["Charlie", "40", "Los Angeles"]));
}

#[test]
fn window_at_zero_never_holds_the_header() {
    for _ in 0..3 {
        let records = get_records_from_pos(PEOPLE, 0, 10, true, ',').unwrap();
        assert_eq!(records.len(), 3);
        assert_eq!(records[0], record(&["Alice", "30", "New York"]));
        assert!(records.iter().all(|r| r.get(0).unwrap() != "Name"));
    }
}

#[test]
fn window_without_header_starts_at_first_line() {
    let records = get_records_from_pos(PEOPLE, 0, 2, false, ',').unwrap();
    assert_eq!(records, vec![record(&["Name", "Age", "City"]), record(&["Alice", "30", "New York"])]);
}

#[test]
fn window_length_is_the_smaller_of_size_and_rest() {
    let data = numbered(10);
    for start in 0..=10usize {
        for size in 1..=12usize {
            let window = get_records_from_pos(&data, start, size, true, ',').unwrap();
            assert_eq!(window.len(), size.min(10 - start));
        }
    }
}

#[test]
fn window_is_slice_of_full_read() {
    let data = numbered(10);
    let all = get_records_file(&data, true, ',').unwrap();
    assert_eq!(all.len(), 10);
    for start in 0..=10usize {
        for size in 1..=12usize {
            let window = get_records_from_pos(&data, start, size, true, ',').unwrap();
            let end = (start + size).min(10);
            assert_eq!(window, all[start..end].to_vec());
        }
    }
}

#[test]
fn window_read_twice_is_the_same() {
    let data = numbered(7);
    let first = get_records_from_pos(&data, 2, 3, true, ',');
    let second = get_records_from_pos(&data, 2, 3, true, ',');
    assert_eq!(first, second);
    assert_eq!(first.unwrap()[0], record(&["2", "4"]));
}

#[test]
fn window_past_the_end_is_empty() {
    let data = numbered(3);
    assert_eq!(get_records_from_pos(&data, 3, 5, true, ',').unwrap().len(), 0);
    assert_eq!(get_records_from_pos(&data, 50, 5, true, ',').unwrap().len(), 0);
}

#[test]
fn window_of_size_zero_is_empty() {
    let data = numbered(3);
    assert_eq!(get_records_from_pos(&data, 1, 0, true, ',').unwrap().len(), 0);
}

#[test]
fn window_of_empty_text_is_empty() {
    assert_eq!(get_records_from_pos(b"", 0, 5, true, ',').unwrap().len(), 0);
    assert_eq!(get_records_from_pos(b"", 0, 5, false, ',').unwrap().len(), 0);
    assert_eq!(get_records_from_pos(b"only,a,header", 0, 5, true, ',').unwrap().len(), 0);
}

#[test]
fn window_splits_at_the_given_delimiter() {
    let semicolons = b"a;b\n1;2\n3;4\n";
    let window = get_records_from_pos(semicolons, 1, 1, true, ';').unwrap();
    assert_eq!(window, vec![record(&["3", "4"])]);
    let tabs = b"a\tb\n1\t2\n";
    let window = get_records_from_pos(tabs, 0, 1, true, '\t').unwrap();
    assert_eq!(window, vec![record(&["1", "2"])]);
    let commas_read_with_semicolon = get_records_from_pos(b"a,b\n1,2\n", 0, 1, true, ';').unwrap();
    assert_eq!(commas_read_with_semicolon, vec![record(&["1,2"])]);
}

#[test]
fn skipped_rows_with_line_breaks_in_quotes_count_once() {
    let data = b"h1,h2\n\"two\nlines\",x\nsecond,y\nthird,z\n";
    let window = get_records_from_pos(data, 1, 1, true, ',').unwrap();
    assert_eq!(window, vec![record(&["second", "y"])]);
    let first = get_records_from_pos(data, 0, 1, true, ',').unwrap();
    assert_eq!(first, vec![record(&["two\nlines", "x"])]);
}

#[test]
fn row_of_other_length_is_a_parse_error() {
    let data = b"h1,h2\n1,2\n3\n4,5\n";
    assert_eq!(get_records_from_pos(data, 0, 3, true, ','), Err(ViewerError::Parse));
    assert_eq!(get_records_from_pos(data, 1, 1, true, ','), Err(ViewerError::Parse));
    assert_eq!(get_records_from_pos(data, 2, 1, true, ','), Err(ViewerError::Parse));
    assert_eq!(get_records_file(data, true, ','), Err(ViewerError::Parse));
}

#[test]
fn row_after_the_window_is_not_parsed() {
    let data = b"h1,h2\n1,2\n3\n4,5\n";
    let window = get_records_from_pos(data, 0, 1, true, ',').unwrap();
    assert_eq!(window, vec![record(&["1", "2"])]);
}

#[test]
fn text_that_is_not_utf8_is_a_parse_error() {
    let data = b"h1,h2\n1,\xff\n";
    assert_eq!(get_records_from_pos(data, 0, 1, true, ','), Err(ViewerError::Parse));
}

#[test]
fn full_read_leaves_header_out_when_told() {
    let with = get_records_file(PEOPLE, true, ',').unwrap();
    assert_eq!(with.len(), 3);
    assert_eq!(with[0], record(&["Alice", "30", "New York"]));
    let without = get_records_file(PEOPLE, false, ',').unwrap();
    assert_eq!(without.len(), 4);
    assert_eq!(without[0], record(&["Name", "Age", "City"]));
}

#[test]
fn headers_are_the_first_row() {
    assert_eq!(get_headers_from_file(PEOPLE, ',').unwrap(), record(&["Name", "Age", "City"]));
    assert_eq!(get_headers_from_file(b"a;b\n1;2\n", ';').unwrap(), record(&["a", "b"]));
}

#[test]
fn headers_of_empty_text_have_no_field() {
    let headers = get_headers_from_file(b"", ',').unwrap();
    assert_eq!(headers.len(), 0);
    assert!(headers.is_empty());
}

#[test]
fn headers_that_are_not_utf8_are_a_parse_error() {
    assert_eq!(get_headers_from_file(b"a,\xfe\n1,2\n", ','), Err(ViewerError::Parse));
}

#[test]
fn reader_goes_on_after_a_window() {
    let data = numbered(6);
    let mut reader = csv::ReaderBuilder::new().has_headers(false).from_reader(&data[..]);
    assert_eq!(read_header(&mut reader).unwrap(), record(&["id", "double"]));
    let window = read_window(&mut reader, 1, 2).unwrap();
    assert_eq!(window, vec![record(&["1", "2"]), record(&["2", "4"])]);
    let rest = read_all(&mut reader).unwrap();
    assert_eq!(rest, vec![record(&["3", "6"]), record(&["4", "8"]), record(&["5", "10"])]);
    assert_eq!(read_all(&mut reader).unwrap().len(), 0);
    assert_eq!(read_header(&mut reader).unwrap().len(), 0);
}

#[test]
fn reader_goes_on_after_a_refused_row() {
    let data = b"1,2\n3\n4,5\n";
    let mut reader = csv::ReaderBuilder::new().has_headers(false).from_reader(&data[..]);
    assert_eq!(read_window(&mut reader, 0, 5), Err(ViewerError::Parse));
    assert_eq!(read_all(&mut reader).unwrap(), vec![record(&["4", "5"])]);
}

#[test]
fn delimiter_of_more_than_a_byte_is_refused() {
    assert_eq!(get_records_from_pos(PEOPLE, 0, 1, true, '\u{20ac}'), Err(ViewerError::Delimiter));
    assert_eq!(get_records_from_pos(b"", 0, 0, false, '\u{100}'), Err(ViewerError::Delimiter));
    assert_eq!(get_records_file(PEOPLE, true, '\u{20ac}'), Err(ViewerError::Delimiter));
    assert_eq!(get_headers_from_file(PEOPLE, '\u{20ac}'), Err(ViewerError::Delimiter));
}

#[test]
fn delimiter_up_to_the_last_byte_is_taken() {
    assert_eq!(byte_of_delimiter(','), Ok(b','));
    assert_eq!(byte_of_delimiter('\t'), Ok(9));
    assert_eq!(byte_of_delimiter('\u{ff}'), Ok(255));
    assert_eq!(byte_of_delimiter('\u{100}'), Err(ViewerError::Delimiter));
    let window = get_records_from_pos(b"a\xffb\n1\xff2\n", 0, 1, true, '\u{ff}').unwrap();
    assert_eq!(window, vec![record(&["1", "2"])]);
}

#[test]
fn windows_that_follow_each_other_join() {
    let data = numbered(10);
    for pos in 0..=11usize {
        for n in 0..=4usize {
            for m in 0..=4usize {
                let mut joined = get_records_from_pos(&data, pos, n, true, ',').unwrap();
                joined.extend(get_records_from_pos(&data, pos + n, m, true, ',').unwrap());
                assert_eq!(joined, get_records_from_pos(&data, pos, n + m, true, ',').unwrap());
            }
        }
    }
}
