use file_finder::file_operations::search_in_text_file;

#[test]
fn test_search_in_text_file() {
    let content = "Hello, this is a test file!";

    assert!(search_in_text_file(Some(content), "Hello"));
    assert!(!search_in_text_file(Some(content), "World"));
}

#[test]
fn unreadable_file_never_matches() {
    assert!(!search_in_text_file(None, "Hello"));
    assert!(!search_in_text_file(None, ""));
}

#[test]
fn empty_search_string_matches_every_readable_file() {
    assert!(search_in_text_file(Some("Hello"), ""));
    assert!(search_in_text_file(Some(""), ""));
}

#[test]
fn search_regards_case() {
    assert!(!search_in_text_file(Some("Hello, this is a test file!"), "hello"));
    assert!(search_in_text_file(Some("Hello, this is a test file!"), "file!"));
}

#[test]
fn search_string_longer_than_content() {
    assert!(!search_in_text_file(Some("Hi"), "Hello"));
    assert!(search_in_text_file(Some("Hello"), "Hello"));
}

#[test]
fn search_finds_text_beyond_ascii() {
    assert!(search_in_text_file(Some("prix: 12 € net"), "€"));
    assert!(search_in_text_file(Some("grüße"), "üß"));
    assert!(!search_in_text_file(Some("grusse"), "ü"));
}

#[test]
fn search_finds_text_after_a_false_start() {
    assert!(search_in_text_file(Some("aaab"), "aab"));
    assert!(!search_in_text_file(Some("aaba"), "abb"));
}
