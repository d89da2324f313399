use preprocess_cancellation::Patch;

#[test]
fn apply() {
    let src = "Line 1\n\
               L 3\n\
               Line 5\n";

    let mut patch = Patch::new();
    patch.insert(7, "Line 2\n");
    patch.replace(7..8, "Line");
    patch.insert(11, "Line 4\n");

    assert!(patch.is_in_order(src.len()));
    let buf = patch.apply(src.as_bytes()).expect("to apply");

    assert_eq!(
        String::from_utf8(buf).expect("to utf8"),
        "Line 1\n\
         Line 2\n\
         Line 3\n\
         Line 4\n\
         Line 5\n"
    );
}

#[test]
fn empty_patch_copies_the_source() {
    let src = "abc\n";
    let patch = Patch::new();
    assert!(patch.is_in_order(src.len()));
    assert_eq!(patch.apply(src.as_bytes()).unwrap(), src.as_bytes());
}

#[test]
fn insertions_at_one_offset_keep_their_order() {
    let src = "ab";
    let mut patch = Patch::new();
    patch.insert(1, "1");
    patch.insert(2, "3");
    patch.insert(1, "2");
    patch.insert(0, "0");
    assert!(patch.is_in_order(src.len()));
    assert_eq!(patch.apply(src.as_bytes()).unwrap(), b"0a12b3");
}

#[test]
fn insertion_past_the_end_appends() {
    let src = "ab";
    let mut patch = Patch::new();
    patch.insert(10, "!");
    assert!(patch.is_in_order(src.len()));
    assert_eq!(patch.apply(src.as_bytes()).unwrap(), b"ab!");
}

#[test]
fn replacement_writes_utf8() {
    let src = "a-b";
    let mut patch = Patch::new();
    patch.replace(1..2, "→");
    assert!(patch.is_in_order(src.len()));
    assert_eq!(String::from_utf8(patch.apply(src.as_bytes()).unwrap()).unwrap(), "a→b");
}

#[test]
fn overlapping_edits_are_out_of_order() {
    let mut patch = Patch::new();
    patch.replace(0..3, "x");
    patch.insert(1, "y");
    assert!(!patch.is_in_order(4));
}

#[test]
fn seek_past_any_file_fails() {
    let src = "abc";
    let mut patch = Patch::new();
    patch.replace(0..u64::MAX, "x");
    assert!(patch.is_in_order(src.len()));
    assert!(matches!(patch.apply(src.as_bytes()), Err(preprocess_cancellation::Error::Io(_))));
}

#[test]
fn edits_at_distinct_offsets_may_come_in_any_order() {
    let src = "Line 1\nL 3\nLine 5\n";
    let mut a = Patch::new();
    a.insert(7, "Line 2\n");
    a.replace(8..9, "ine ");
    a.insert(11, "Line 4\n");
    let mut b = Patch::new();
    b.insert(11, "Line 4\n");
    b.insert(7, "Line 2\n");
    b.replace(8..9, "ine ");
    assert!(a.is_in_order(src.len()) && b.is_in_order(src.len()));
    let (x, y) = (a.apply(src.as_bytes()).unwrap(), b.apply(src.as_bytes()).unwrap());
    assert_eq!(x, y);
    assert_eq!(x, b"Line 1\nLine 2\nLine 3\nLine 4\nLine 5\n");
}

#[test]
fn chained_edits_apply_past_the_end() {
    let src = "ab";
    let mut patch = Patch::new();
    patch.replace(1..5, "X");
    patch.insert(5, "Y");
    assert!(patch.is_in_order(src.len()));
    assert_eq!(patch.apply(src.as_bytes()).unwrap(), b"aXY");
}
