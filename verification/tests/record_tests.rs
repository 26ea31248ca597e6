use csv_viewer::error::ViewerError;
use csv_viewer::record::Record;

fn record(fields: &[&str]) -> Record {
    Record::from_fields(fields.iter().map(|f| f.to_string()).collect())
}

#[test]
fn fields_are_read_by_index() {
    let r = record(&["name", "age", "city"]);
    assert_eq!(r.len(), 3);
    assert_eq!(r.get(0).unwrap(), "name");
    assert_eq!(r.get(2).unwrap(), "city");
}

#[test]
fn index_past_the_fields_is_out_of_range() {
    let r = record(&["name", "age"]);
    assert_eq!(r.get(2), Err(ViewerError::OutOfRange));
    assert_eq!(Record::new().get(0), Err(ViewerError::OutOfRange));
}

#[test]
fn records_match_field_by_field() {
    let header = record(&["name", "age", "city"]);
    assert!(!record(&["Gruff Trick", "22", "Wales"]).matches(&header));
    assert!(record(&["name", "age", "city"]).matches(&header));
    assert_eq!(record(&["name", "age", "city"]), header);
}

#[test]
fn records_of_other_length_do_not_match() {
    assert_ne!(record(&["a", "b"]), record(&["a", "b", ""]));
    assert_ne!(record(&["a", "b"]), record(&["a"]));
    assert_ne!(record(&[]), record(&[""]));
    assert_eq!(record(&[]), Record::new());
}

#[test]
fn records_are_compared_without_any_change_to_the_text() {
    assert_ne!(record(&["1"]), record(&["1.0"]));
    assert_ne!(record(&["a"]), record(&["A"]));
    assert_ne!(record(&["a"]), record(&[" a"]));
    assert_ne!(record(&["a", "b"]), record(&["b", "a"]));
}

#[test]
fn fields_can_be_walked_again_and_again() {
    let r = record(&["x", "y"]);
    let first: Vec<&String> = r.fields().iter().collect();
    let second: Vec<&String> = r.fields().iter().collect();
    assert_eq!(first, second);
    assert_eq!(first.len(), 2);
    assert_eq!(first[1], "y");
}

#[test]
fn clone_holds_the_same_fields() {
    let r = record(&["x", "y"]);
    assert_eq!(r.clone(), r);
}
