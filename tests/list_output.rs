use hoolamike::list_output::{parse_u64, DateTime, ListError, ListOutput};

const LISTING: &str = "
7-Zip [64] 16.02 : Copyright (c) 1999-2016 Igor Pavlov : 2016-05-21

Listing archive: test.7z

--
Path = test.7z
Type = 7z
Solid = -

----------
Path = Data\\meshes\\a.nif
Size = 100
Packed Size = 50
Modified = 2020-01-02 03:04:05
Attributes = A
Encrypted = -

Path = readme.txt
Size = 7
Packed Size = 
Modified = 2021-12-31 23:59:59
Created = 2021-12-30 10:00:00

";

fn date(year: i32, month: u32, day: u32, hour: u32, minute: u32, second: u32) -> DateTime {
    DateTime { year, month, day, hour, minute, second }
}

#[test]
fn listing_entries_are_read_in_order() {
    let listing = ListOutput::parse(LISTING).ok().unwrap();
    assert_eq!(listing.entries.len(), 2);
    let first = &listing.entries[0];
    assert_eq!(first.original_path, "Data\\meshes\\a.nif");
    assert_eq!(first.path, "Data/meshes/a.nif");
    assert_eq!(first.size, 100);
    assert_eq!(first.modified, date(2020, 1, 2, 3, 4, 5));
    assert_eq!(first.created, None);
    let second = &listing.entries[1];
    assert_eq!(second.path, "readme.txt");
    assert_eq!(second.size, 7);
    assert_eq!(second.modified, date(2021, 12, 31, 23, 59, 59));
    assert_eq!(second.created, Some(date(2021, 12, 30, 10, 0, 0)));
}

#[test]
fn listing_parses_through_from_str() {
    let listing: ListOutput = LISTING.parse().ok().unwrap();
    assert_eq!(listing.entries.len(), 2);
}

#[test]
fn listing_without_dashes_is_refused() {
    assert!(matches!(ListOutput::parse("Path = a\nSize = 1\nModified = 2020-01-01 00:00:00"), Err(ListError::NoIndicator)));
}

#[test]
fn short_blocks_are_skipped() {
    let listing = ListOutput::parse("header\n----------\nPath = a\nSize = 1\n\n").ok().unwrap();
    assert!(listing.entries.is_empty());
}

#[test]
fn line_without_equals_is_refused() {
    match ListOutput::parse("----------\nPath = a\nSize 1\nModified = 2020-01-01 00:00:00") {
        Err(ListError::NoAttributeIndicator(line)) => assert_eq!(line, "Size 1"),
        _ => panic!("expected a line without '='"),
    }
}

#[test]
fn missing_and_dashed_fields_are_refused() {
    match ListOutput::parse("----------\nPath = a\nSize = -\nModified = 2020-01-01 00:00:00") {
        Err(ListError::MissingField(name)) => assert_eq!(name, "Size"),
        _ => panic!("expected a missing size"),
    }
    match ListOutput::parse("----------\nType = x\nSize = 1\nModified = 2020-01-01 00:00:00") {
        Err(ListError::MissingField(name)) => assert_eq!(name, "Path"),
        _ => panic!("expected a missing path"),
    }
}

#[test]
fn bad_dates_and_sizes_are_refused() {
    match ListOutput::parse("----------\nPath = a\nSize = 1\nModified = yesterday") {
        Err(ListError::BadDate(name)) => assert_eq!(name, "Modified"),
        _ => panic!("expected a bad date"),
    }
    match ListOutput::parse("----------\nPath = a\nSize = 1\nModified = 2020-01-01 00:00:00\nCreated = 2020-13-01 00:00:00") {
        Err(ListError::BadDate(name)) => assert_eq!(name, "Created"),
        _ => panic!("expected a bad creation date"),
    }
    assert!(matches!(
        ListOutput::parse("----------\nPath = a\nSize = 12x\nModified = 2020-01-01 00:00:00"),
        Err(ListError::BadSize)
    ));
}

#[test]
fn later_attribute_overrides_earlier() {
    let listing = ListOutput::parse("----------\nPath = a\nSize = 1\nSize = 2\nModified = 2020-01-01 00:00:00").ok().unwrap();
    assert_eq!(listing.entries[0].size, 2);
}

#[test]
fn unsigned_numbers_parse_like_std() {
    assert_eq!(parse_u64("+12"), Some(12));
    assert_eq!(parse_u64("0"), Some(0));
    assert_eq!(parse_u64("18446744073709551615"), Some(u64::MAX));
    assert_eq!(parse_u64("18446744073709551616"), None);
    assert_eq!(parse_u64(""), None);
    assert_eq!(parse_u64("+"), None);
    assert_eq!(parse_u64("-1"), None);
    assert_eq!(parse_u64("1 "), None);
}

#[test]
fn unicode_white_space_is_trimmed() {
    let listing = ListOutput::parse("\u{3000}----------\nPath =\u{a0}a\u{2003}\nSize = \u{85}7\nModified = 2020-01-01 00:00:00\u{205f}")
        .ok()
        .unwrap();
    assert_eq!(listing.entries[0].path, "a");
    assert_eq!(listing.entries[0].size, 7);
}
