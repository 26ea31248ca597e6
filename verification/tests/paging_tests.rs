use csv_viewer::paging::{PageSignal, Pager};

#[test]
fn next_page_reaches_the_end_on_the_last_of_the_needed_calls() {
    let mut pager = Pager::new(3, 10);
    let calls = (10 + 3 - 1) / 3;
    for call in 1..calls {
        assert_eq!(pager.next_page(), PageSignal::Moved);
        assert_eq!(pager.current_position, call * 3);
    }
    let before = pager;
    assert_eq!(pager.next_page(), PageSignal::AtEndOfFile);
    assert_eq!(pager, before);
    assert_eq!(pager.current_position, 9);
}

#[test]
fn next_page_moves_onto_the_end_when_rows_fill_whole_windows() {
    let mut pager = Pager::new(5, 10);
    assert_eq!(pager.next_page(), PageSignal::Moved);
    assert_eq!(pager.next_page(), PageSignal::Moved);
    assert_eq!(pager.current_position, 10);
    assert_eq!(pager.next_page(), PageSignal::AtEndOfFile);
    assert_eq!(pager.current_position, 10);
}

#[test]
fn next_page_of_a_short_file_is_the_end() {
    let mut pager = Pager::new(100, 10);
    assert_eq!(pager.next_page(), PageSignal::AtEndOfFile);
    assert_eq!(pager.current_position, 0);
}

#[test]
fn next_page_near_the_largest_number() {
    let mut pager = Pager { current_position: usize::MAX - 1, window_size: 5, total_rows: usize::MAX };
    assert_eq!(pager.next_page(), PageSignal::AtEndOfFile);
    assert_eq!(pager.current_position, usize::MAX - 1);
}

#[test]
fn previous_page_goes_back_by_one_window_or_to_the_start() {
    for start in 0..=20usize {
        let mut pager = Pager { current_position: start, window_size: 7, total_rows: 20 };
        assert_eq!(pager.previous_page(), PageSignal::Moved);
        if start <= 7 {
            assert_eq!(pager.current_position, 0);
        } else {
            assert_eq!(pager.current_position, start - 7);
        }
    }
}

#[test]
fn first_page_signals_when_already_there() {
    let mut pager = Pager { current_position: 4, window_size: 2, total_rows: 9 };
    assert_eq!(pager.first_page(), PageSignal::Moved);
    assert_eq!(pager.current_position, 0);
    assert_eq!(pager.first_page(), PageSignal::AtStartOfFile);
    assert_eq!(pager.current_position, 0);
}

#[test]
fn last_page_shows_the_last_full_window() {
    let mut pager = Pager::new(3, 10);
    assert_eq!(pager.last_page(), PageSignal::Moved);
    assert_eq!(pager.current_position, 7);
}

#[test]
fn last_page_of_a_short_file_signals() {
    let mut pager = Pager::new(10, 10);
    assert_eq!(pager.last_page(), PageSignal::TooShortForPaging);
    assert_eq!(pager.current_position, 0);
    let mut pager = Pager::new(10, 3);
    assert_eq!(pager.last_page(), PageSignal::TooShortForPaging);
}

#[test]
fn previous_page_undoes_a_next_page_that_moved() {
    for start in 0..=12usize {
        for window in 0..=5usize {
            let mut pager = Pager { current_position: start, window_size: window, total_rows: 12 };
            let before = pager;
            if pager.next_page() == PageSignal::Moved {
                pager.previous_page();
                assert_eq!(pager, before);
            } else {
                assert_eq!(pager, before);
            }
        }
    }
}
