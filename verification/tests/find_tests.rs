use csv_viewer::find::{find_matching_rows, find_row_of_next};

#[test]
fn rows_with_the_pattern_are_listed() {
    let contents = b"Alice,30\nBob,35\nCharlie,25\nDave,40\nEve,30\n";
    assert_eq!(find_matching_rows(contents, "30", true), vec![0, 4]);
    assert_eq!(find_matching_rows(contents, "30", false), vec![0, 4]);
}

#[test]
fn pattern_is_found_anywhere_in_a_line() {
    let contents = b"abc\nxbcx\nbc\nb\nc\ncb";
    assert_eq!(find_matching_rows(contents, "bc", false), vec![0, 1, 2]);
    assert_eq!(find_matching_rows(contents, "cb", false), vec![5]);
    assert_eq!(find_matching_rows(contents, "abcd", false), Vec::<usize>::new());
}

#[test]
fn pattern_is_not_found_across_lines() {
    assert_eq!(find_matching_rows(b"ab\ncd\n", "bc", false), Vec::<usize>::new());
    assert_eq!(find_matching_rows(b"ab\ncd\n", "b\nc", false), Vec::<usize>::new());
}

#[test]
fn carriage_return_before_newline_is_no_part_of_the_line() {
    assert_eq!(find_matching_rows(b"a\r\nb\r\n", "\r", false), Vec::<usize>::new());
    assert_eq!(find_matching_rows(b"a\rb\nc\r", "\r", false), vec![0, 1]);
    assert_eq!(find_matching_rows(b"a\r\nb\r\n", "b", false), vec![1]);
}

#[test]
fn empty_pattern_is_in_every_line() {
    assert_eq!(find_matching_rows(b"a\n\nb", "", false), vec![0, 1, 2]);
    assert_eq!(find_matching_rows(b"", "", false), Vec::<usize>::new());
}

#[test]
fn pattern_of_more_than_one_byte_per_character() {
    let contents = "caf\u{e9},1\ncafe,2\n".as_bytes();
    assert_eq!(find_matching_rows(contents, "\u{e9}", false), vec![0]);
}

#[test]
fn find_row_of_next_returns_entry_or_zero() {
    let rows = vec![1, 2, 3, 4, 5];
    assert_eq!(find_row_of_next(rows.clone(), 0), 1);
    assert_eq!(find_row_of_next(rows.clone(), 3), 4);
    assert_eq!(find_row_of_next(rows.clone(), 4), 5);
    assert_eq!(find_row_of_next(rows, 5), 0);
    assert_eq!(find_row_of_next(Vec::new(), 0), 0);
}
