use std::io::BufRead;

use csv_viewer::error::ViewerError;
use csv_viewer::find::find_matching_rows;
use csv_viewer::lines::{get_row_count, skip_first_line};
use csv_viewer::reader::{get_headers_from_file, get_records_file, get_records_from_pos};
use csv_viewer::record::Record;
use csv_viewer::sort::sort_chunked;

/// A small generator of numbers that gives the same run each time.
struct Numbers(u64);

impl Numbers {
    fn next(&mut self, below: usize) -> usize {
        self.0 = self.0.wrapping_mul(6364136223846793005).wrapping_add(1442695040888963407);
        ((self.0 >> 33) as usize) % below
    }

    fn text(&mut self, alphabet: &[u8], longest: usize) -> Vec<u8> {
        let len = self.next(longest + 1);
        (0..len).map(|_| alphabet[self.next(alphabet.len())]).collect()
    }
}

/// The rows of `data` as a `csv` reader hands them out, errors as `None`.
fn rows_by_csv(data: &[u8], delimiter: u8) -> Vec<Option<Vec<String>>> {
    let mut reader =
        csv::ReaderBuilder::new().delimiter(delimiter).has_headers(false).from_reader(data);
    let mut rows = Vec::new();
    for row in reader.records() {
        rows.push(row.ok().map(|r| r.iter().map(|f| f.to_string()).collect()));
    }
    rows
}

fn window_by_csv(
    rows: &[Option<Vec<String>>],
    pos: usize,
    n: usize,
) -> Result<Vec<Vec<String>>, ViewerError> {
    let end = (pos + n).min(rows.len());
    let start = pos.min(rows.len());
    if rows[..end].iter().any(|row| row.is_none()) {
        return Err(ViewerError::Parse);
    }
    Ok(rows[start..end].iter().map(|row| row.clone().unwrap()).collect())
}

fn fields_of(records: Result<Vec<Record>, ViewerError>) -> Result<Vec<Vec<String>>, ViewerError> {
    records.map(|records| records.iter().map(|r| r.fields().clone()).collect())
}

#[test]
fn windows_agree_with_the_rows_of_csv() {
    let mut numbers = Numbers(7);
    let alphabet = b"ab,,\"\n\n\r ;\xc3\xa9\xff";
    for _ in 0..500 {
        let data = numbers.text(alphabet, 14);
        for has_header in [false, true] {
            let body: &[u8] = if has_header { skip_first_line(&data) } else { &data };
            let rows = rows_by_csv(body, b',');
            for pos in 0..=rows.len() + 1 {
                for n in 0..=rows.len() + 1 {
                    let window = get_records_from_pos(&data, pos, n, has_header, ',');
                    assert_eq!(fields_of(window), window_by_csv(&rows, pos, n));
                }
            }
            let all = get_records_file(&data, has_header, ',');
            assert_eq!(fields_of(all), window_by_csv(&rows, 0, rows.len()));
        }
    }
}

#[test]
fn windows_with_semicolons_agree_with_the_rows_of_csv() {
    let mut numbers = Numbers(11);
    let alphabet = b"ab,;;\"\n ";
    for _ in 0..800 {
        let data = numbers.text(alphabet, 12);
        let rows = rows_by_csv(&data, b';');
        for pos in 0..=rows.len() {
            let window = get_records_from_pos(&data, pos, 2, false, ';');
            assert_eq!(fields_of(window), window_by_csv(&rows, pos, 2));
        }
    }
}

#[test]
fn headers_agree_with_the_first_row_of_csv() {
    let mut numbers = Numbers(13);
    let alphabet = b"ab,\"\n\r \xff";
    for _ in 0..1000 {
        let data = numbers.text(alphabet, 10);
        let rows = rows_by_csv(&data, b',');
        let expected = match rows.first() {
            None => Ok(Vec::new()),
            Some(Some(fields)) => Ok(fields.clone()),
            Some(None) => Err(ViewerError::Parse),
        };
        let headers = get_headers_from_file(&data, ',').map(|r| r.fields().clone());
        assert_eq!(headers, expected);
    }
}

/// Sorts as the library says it does, with the sort of `std` and one writer
/// of `csv` for the whole output.
fn sort_by_std(data: &[u8], column: usize, capacity: usize) -> Result<Vec<u8>, ViewerError> {
    let rows = rows_by_csv(data, b',');
    let header = match rows.first() {
        None => Vec::new(),
        Some(Some(fields)) => fields.clone(),
        Some(None) => return Err(ViewerError::Parse),
    };
    let mut writer = csv::WriterBuilder::new().flexible(true).from_writer(Vec::new());
    writer.write_record(&header).unwrap();
    let body = if rows.is_empty() { &rows[..] } else { &rows[1..] };
    for chunk in body.chunks(capacity) {
        if chunk.iter().any(|row| row.is_none()) {
            return Err(ViewerError::Parse);
        }
        let mut kept: Vec<Vec<String>> =
            chunk.iter().map(|row| row.clone().unwrap()).filter(|row| *row != header).collect();
        if kept.iter().any(|row| row.len() <= column) {
            return Err(ViewerError::ColumnOutOfRange);
        }
        kept.sort_by_key(|row| row[column].to_string());
        for row in kept {
            writer.write_record(&row).unwrap();
        }
    }
    Ok(writer.into_inner().unwrap())
}

#[test]
fn sort_agrees_with_the_sort_of_std() {
    let mut numbers = Numbers(17);
    let alphabet = b"abc,,,\"\n\n\n \xc3\xa9";
    for _ in 0..600 {
        let data = numbers.text(alphabet, 24);
        for column in 0..3 {
            for capacity in 1..4 {
                assert_eq!(
                    sort_chunked(&data, column, capacity),
                    sort_by_std(&data, column, capacity)
                );
            }
        }
    }
}

#[test]
fn sort_of_longer_texts_agrees_with_the_sort_of_std() {
    let mut numbers = Numbers(19);
    for _ in 0..200 {
        let mut data = b"k,v\n".to_vec();
        let rows = numbers.next(40);
        for row in 0..rows {
            data.extend_from_slice(&numbers.text(b"abc", 3));
            data.extend_from_slice(format!(",{}\n", row).as_bytes());
        }
        for capacity in [1, 2, 3, 5, 8, 13, 100] {
            assert_eq!(sort_chunked(&data, 0, capacity), sort_by_std(&data, 0, capacity));
        }
    }
}

#[test]
fn line_count_agrees_with_the_lines_of_std() {
    let mut numbers = Numbers(23);
    let alphabet = b"ab\n\n\r";
    for _ in 0..2000 {
        let data = numbers.text(alphabet, 12);
        assert_eq!(get_row_count(&data), data.lines().count());
    }
}

#[test]
fn matching_rows_agree_with_the_lines_of_std() {
    let mut numbers = Numbers(29);
    let alphabet = b"ab\n\n\r";
    for _ in 0..2000 {
        let data = numbers.text(alphabet, 12);
        let pattern = String::from_utf8(numbers.text(b"ab\r", 3)).unwrap();
        let expected: Vec<usize> = data
            .lines()
            .enumerate()
            .filter(|(_, line)| line.as_ref().unwrap().contains(pattern.as_str()))
            .map(|(row, _)| row)
            .collect();
        assert_eq!(find_matching_rows(&data, &pattern, false), expected);
    }
}

#[test]
fn every_delimiter_of_one_byte_agrees_with_csv() {
    let data = b"a,b;c\td\"e\nf\rg\r\nh i,j\n\n\"k\nl\",m\n";
    for code in 0..=255u32 {
        let delimiter = char::from_u32(code).unwrap();
        let rows = rows_by_csv(data, code as u8);
        for pos in 0..=rows.len() {
            let window = get_records_from_pos(data, pos, 3, false, delimiter);
            assert_eq!(fields_of(window), window_by_csv(&rows, pos, 3));
        }
    }
}

#[test]
fn lines_that_are_searched_are_the_lines_that_are_counted() {
    let mut numbers = Numbers(31);
    let alphabet = b"ab\n\n\r";
    for _ in 0..1000 {
        let data = numbers.text(alphabet, 12);
        let every_line: Vec<usize> = (0..get_row_count(&data)).collect();
        assert_eq!(find_matching_rows(&data, "", true), every_line);
    }
}
