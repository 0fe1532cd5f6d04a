use hoolamike::bulk::{validate_request, BulkExtraction};

fn strings(items: &[&str]) -> Vec<String> {
    items.iter().map(|s| s.to_string()).collect()
}

#[test]
fn listed_distinct_request_is_valid() {
    assert_eq!(validate_request(&strings(&["a", "b", "c"]), &strings(&["c", "a"])), Ok(()));
    assert_eq!(validate_request(&strings(&[]), &strings(&[])), Ok(()));
}

#[test]
fn first_unlisted_path_is_reported() {
    assert_eq!(validate_request(&strings(&["a", "b"]), &strings(&["a", "x", "y"])), Err("x".to_string()));
}

#[test]
fn path_requested_twice_is_reported() {
    assert_eq!(validate_request(&strings(&["a", "b"]), &strings(&["b", "a", "b"])), Err("b".to_string()));
}

#[test]
fn single_pass_takes_each_requested_entry_once() {
    let mut pass: BulkExtraction<u8> = BulkExtraction::new(strings(&["x", "y"]));
    assert_eq!(pass.current_index(), None);
    assert_eq!(pass.start_entry("y".to_string(), 1), Ok(()));
    assert_eq!(pass.current_index(), Some(0));
    assert_eq!(pass.start_entry("z".to_string(), 2), Err("z".to_string()));
    assert_eq!(pass.start_entry("y".to_string(), 3), Err("y".to_string()));
    assert_eq!(pass.start_entry("x".to_string(), 4), Ok(()));
    assert_eq!(pass.current_index(), Some(1));
    assert_eq!(pass.extracted, vec![("y".to_string(), 1), ("x".to_string(), 4)]);
    assert!(pass.remaining.is_empty());
    assert_eq!(pass.finish(), Ok(vec![("y".to_string(), 1), ("x".to_string(), 4)]));
}

#[test]
fn unfinished_pass_reports_what_is_missing() {
    let mut pass: BulkExtraction<u8> = BulkExtraction::new(strings(&["x", "y", "z"]));
    assert_eq!(pass.start_entry("y".to_string(), 1), Ok(()));
    assert_eq!(pass.finish(), Err(strings(&["x", "z"])));
}
