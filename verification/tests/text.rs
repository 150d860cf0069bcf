use file_finder::text::{bytes_contain, bytes_end_with, bytes_eq, bytes_le, bytes_match_at, contains,
    ends_with, eq, le};

#[test]
fn contains_agrees_with_the_standard_library() {
    let texts = ["", "a", "ab", "ba", "aab", "abab", "./dir/file.txt", "Ünïcödé", "ï"];
    for hay in texts {
        for needle in texts {
            assert_eq!(contains(hay, needle), hay.contains(needle), "{:?} in {:?}", needle, hay);
        }
    }
}

#[test]
fn ends_with_agrees_with_the_standard_library() {
    let texts = ["", ".rs", "a.rs", "rs", ".txt", "file.txt", "file.txt.bak", ".RS", "é.rs"];
    for text in texts {
        for suffix in texts {
            assert_eq!(ends_with(text, suffix), text.ends_with(suffix), "{:?} / {:?}", text, suffix);
        }
    }
}

#[test]
fn le_agrees_with_the_standard_library() {
    let texts = ["", "a", "A", "ab", "b", "a/b", "a.b", "é", "z", "a\u{10000}", "a\u{ffff}"];
    for a in texts {
        for b in texts {
            assert_eq!(le(a, b), a <= b, "{:?} <= {:?}", a, b);
        }
    }
}

#[test]
fn eq_agrees_with_the_standard_library() {
    let texts = ["", "--sort", "--sor", "--sort ", "-f", "--find"];
    for a in texts {
        for b in texts {
            assert_eq!(eq(a, b), a == b);
        }
    }
}

#[test]
fn bytes_match_at_every_offset() {
    let hay = b"abcabc";
    assert!(bytes_match_at(hay, b"abc", 0));
    assert!(!bytes_match_at(hay, b"abc", 1));
    assert!(bytes_match_at(hay, b"abc", 3));
    assert!(bytes_match_at(hay, b"", 6));
    assert!(!bytes_match_at(hay, b"", 7));
    assert!(!bytes_match_at(hay, b"bc", 5));
    assert!(!bytes_match_at(hay, b"abcabca", 0));
}

#[test]
fn bytes_functions_on_plain_bytes() {
    assert!(bytes_contain(&[1, 2, 255, 4], &[255, 4]));
    assert!(!bytes_contain(&[1, 2, 255, 4], &[4, 255]));
    assert!(bytes_end_with(&[1, 2, 3], &[2, 3]));
    assert!(!bytes_end_with(&[1, 2, 3], &[1, 2]));
    assert!(bytes_le(&[1, 2], &[1, 2, 0]));
    assert!(!bytes_le(&[1, 2, 0], &[1, 2]));
    assert!(bytes_le(&[1, 200], &[2]));
    assert!(bytes_eq(&[7, 8], &[7, 8]));
    assert!(!bytes_eq(&[7, 8], &[7, 9]));
    assert!(!bytes_eq(&[7, 8], &[7]));
}
