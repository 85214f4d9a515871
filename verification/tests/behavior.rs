use hrx_get::{Archive, Error};

#[test]
fn scenario_mixed_items() {
    let archive =
        Archive::parse("<===> hello.md\n# Hi\nBody.\n<===>\nA comment.\n<===> foo.txt\nOther.\n")
            .unwrap();
    assert_eq!(archive.names(), ["foo.txt", "hello.md"]);
    assert_eq!(archive.get("hello.md"), Some("# Hi\nBody."));
    assert_eq!(archive.get("foo.txt"), Some("Other.\n"));
}

#[test]
fn scenario_empty_then_file() {
    let archive = Archive::parse("<=====> dir/empty\n<=====> a.txt\nX\n").unwrap();
    assert_eq!(archive.get("dir/empty"), Some(""));
    assert_eq!(archive.get("a.txt"), Some("X\n"));
}

#[test]
fn names_sorted_not_source_order() {
    let archive = Archive::parse("<===> c\n<===> a\n<===> b\n").unwrap();
    assert_eq!(archive.names(), ["a", "b", "c"]);
}

#[test]
fn last_occurrence_wins() {
    let archive = Archive::parse("<===> a\nfirst\n<===> a\nsecond\n").unwrap();
    assert_eq!(archive.names(), ["a"]);
    assert_eq!(archive.get("a"), Some("second\n"));
}

#[test]
fn round_trip_content_with_trailing_newline() {
    let archive = Archive::parse("<===> f\nline1\nline2\n\n<===>\n").unwrap();
    assert_eq!(archive.get("f"), Some("line1\nline2\n"));
}

#[test]
fn bare_header_at_end_of_buffer() {
    let archive = Archive::parse("<===> x").unwrap();
    assert_eq!(archive.get("x"), Some(""));
    assert_eq!(archive.names(), ["x"]);
}

#[test]
fn comments_do_not_appear() {
    let archive = Archive::parse("<===>\njust a comment\n<===>\n<===> k\nv\n").unwrap();
    assert_eq!(archive.names(), ["k"]);
    assert_eq!(archive.get("k"), Some("v\n"));
}

#[test]
fn boundary_is_archive_specific() {
    let archive = Archive::parse("<=====> f\n<===> not a boundary\n").unwrap();
    assert_eq!(archive.get("f"), Some("<===> not a boundary\n"));
}

#[test]
fn missing_boundary_is_rejected() {
    assert_eq!(Archive::parse("hello world").unwrap_err(), Error::NoBoundary);
    assert_eq!(Archive::parse("").unwrap_err(), Error::NoBoundary);
    assert_eq!(Archive::parse("<--->\n").unwrap_err(), Error::NoBoundary);
    assert_eq!(Archive::parse("<==\n").unwrap_err(), Error::NoBoundary);
}

#[test]
fn malformed_item_is_reported() {
    let err = Archive::parse("<===> a\nX\n<===>junk\n").unwrap_err();
    assert_eq!(err, Error::InvalidItem("junk\n".to_string()));
}

#[test]
fn entries_in_sorted_order() {
    let archive = Archive::parse("<===> b\ntwo\n<===> a\none\n").unwrap();
    let entries = archive.entries();
    assert_eq!(entries.len(), 2);
    assert_eq!(entries[0].0, "a");
    assert_eq!(entries[0].1, "one\n");
    assert_eq!(entries[1].0, "b");
    assert_eq!(entries[1].1, "two");
}
