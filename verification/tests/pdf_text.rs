use fox_reader::pdf_text::{clean_block_text, find_sentence_end_index, has_readable_text, split_at_sentence_end};

#[test]
fn sentence_end_inside_text() {
    assert_eq!(find_sentence_end_index("First part. Second"), 11);
    assert_eq!(find_sentence_end_index("  First. Second  "), 10);
    assert_eq!(find_sentence_end_index("e.g. test"), 4);
    assert_eq!(find_sentence_end_index("1.2.a"), 4);
}

#[test]
fn text_kept_whole() {
    assert_eq!(find_sentence_end_index("Hello world"), 0);
    assert_eq!(find_sentence_end_index("The end."), 0);
    assert_eq!(find_sentence_end_index("  The end.  "), 0);
    assert_eq!(find_sentence_end_index("write to a@b.com"), 0);
    assert_eq!(find_sentence_end_index("see http://x.org"), 0);
    assert_eq!(find_sentence_end_index("Pi is 3.14"), 0);
    assert_eq!(find_sentence_end_index("1.0.2"), 0);
    assert_eq!(find_sentence_end_index(""), 0);
}

#[test]
fn pdf_object_text_cleaning() {
    assert_eq!(clean_block_text("  •• Hello world. "), "Hello world.");
    assert_eq!(clean_block_text(" -- "), "");
    assert!(!has_readable_text(" 12 34 "));
    assert!(!has_readable_text("--"));
    assert!(has_readable_text(" a1 "));
    assert_eq!(
        split_at_sentence_end("End of one. Start of two"),
        Some(("End of one.".to_string(), "Start of two".to_string()))
    );
    assert_eq!(split_at_sentence_end("No period here"), None);
    assert_eq!(split_at_sentence_end("Version 1.0"), None);
}
