use file_finder::occurrence::{kind_rank, line_with, Kind, Occurrence};
use file_finder::sorting::sort;

fn samples() -> Vec<Occurrence> {
    let paths = ["", "a", "a.b", "a/b", "b.txt", "a.bin", "c", "B", "\u{e9}", "a\u{10000}"];
    let mut all = Vec::new();
    for path in paths {
        all.push(Occurrence::PlainFile(path.to_string()));
        all.push(Occurrence::Directory(path.to_string()));
        all.push(Occurrence::TextFile(path.to_string()));
    }
    all
}

#[test]
fn sorting_puts_files_before_directories_before_text_files() {
    let entries = vec![
        Occurrence::TextFile("b.txt".to_string()),
        Occurrence::PlainFile("a.bin".to_string()),
        Occurrence::Directory("c".to_string()),
    ];
    assert_eq!(
        sort(entries),
        vec![
            Occurrence::PlainFile("a.bin".to_string()),
            Occurrence::Directory("c".to_string()),
            Occurrence::TextFile("b.txt".to_string()),
        ]
    );
}

#[test]
fn sorting_orders_entries_of_one_kind_by_path() {
    let entries = vec![
        Occurrence::PlainFile("b".to_string()),
        Occurrence::PlainFile("a/b".to_string()),
        Occurrence::PlainFile("a.b".to_string()),
        Occurrence::PlainFile("a".to_string()),
        Occurrence::PlainFile("B".to_string()),
    ];
    assert_eq!(
        sort(entries),
        vec![
            Occurrence::PlainFile("B".to_string()),
            Occurrence::PlainFile("a".to_string()),
            Occurrence::PlainFile("a.b".to_string()),
            Occurrence::PlainFile("a/b".to_string()),
            Occurrence::PlainFile("b".to_string()),
        ]
    );
}

#[test]
fn sorting_agrees_with_the_derived_order() {
    let mut reversed = samples();
    reversed.reverse();
    for given in [samples(), reversed] {
        let mut expected = given.clone();
        expected.sort();
        assert_eq!(sort(given), expected);
    }
}

#[test]
fn sorting_keeps_entries_that_occur_twice() {
    let entries = vec![
        Occurrence::TextFile("a".to_string()),
        Occurrence::PlainFile("a".to_string()),
        Occurrence::TextFile("a".to_string()),
    ];
    assert_eq!(
        sort(entries),
        vec![
            Occurrence::PlainFile("a".to_string()),
            Occurrence::TextFile("a".to_string()),
            Occurrence::TextFile("a".to_string()),
        ]
    );
}

#[test]
fn sorting_of_nothing_and_of_one() {
    assert_eq!(sort(vec![]), vec![]);
    let one = vec![Occurrence::Directory("d".to_string())];
    assert_eq!(sort(one.clone()), one);
}

#[test]
fn sorting_twice_changes_nothing() {
    let once = sort(samples());
    assert_eq!(sort(once.clone()), once);
}

#[test]
fn le_agrees_with_the_derived_order() {
    for a in samples() {
        for b in samples() {
            assert_eq!(a.le(&b), a <= b, "{:?} <= {:?}", a, b);
        }
    }
}

#[test]
fn kinds_rank_in_the_order_of_their_declaration() {
    assert_eq!(kind_rank(Kind::PlainFile), 0);
    assert_eq!(kind_rank(Kind::Directory), 1);
    assert_eq!(kind_rank(Kind::TextFile), 2);
}

#[test]
fn new_kind_and_path() {
    let entry = Occurrence::new(Kind::TextFile, "x/y.rs".to_string());
    assert_eq!(entry, Occurrence::TextFile("x/y.rs".to_string()));
    assert_eq!(entry.kind(), Kind::TextFile);
    assert_eq!(entry.path(), "x/y.rs");
    assert_eq!(Occurrence::new(Kind::PlainFile, "f".to_string()), Occurrence::PlainFile("f".to_string()));
    assert_eq!(
        Occurrence::new(Kind::Directory, "d".to_string()),
        Occurrence::Directory("d".to_string())
    );
}

#[test]
fn debug_string_names_the_kind_and_quotes_the_path() {
    assert_eq!(
        Occurrence::TextFile("./a/b.txt".to_string()).debug_string(),
        "TextFile(\"./a/b.txt\")"
    );
    assert_eq!(Occurrence::PlainFile("a.bin".to_string()).debug_string(), "PlainFile(\"a.bin\")");
    assert_eq!(Occurrence::Directory("c".to_string()).debug_string(), "Directory(\"c\")");
    assert_eq!(Occurrence::Directory(String::new()).debug_string(), "Directory(\"\")");
}

#[test]
fn debug_string_escapes_what_cannot_stand_for_itself() {
    assert_eq!(
        Occurrence::PlainFile("a\"b\\c\nd".to_string()).debug_string(),
        "PlainFile(\"a\\\"b\\\\c\\nd\")"
    );
}

#[test]
fn debug_string_agrees_with_the_derived_form() {
    let paths = ["", "plain", "with space", "quote\"", "back\\slash", "tab\t", "\u{e9}t\u{e9}", "\u{7f}"];
    for path in paths {
        for entry in [
            Occurrence::PlainFile(path.to_string()),
            Occurrence::Directory(path.to_string()),
            Occurrence::TextFile(path.to_string()),
        ] {
            assert_eq!(entry.debug_string(), format!("{:?}", entry));
        }
    }
}

#[test]
fn line_with_puts_the_quoted_path_in_round_brackets() {
    assert_eq!(line_with(Kind::PlainFile, "\"a.bin\""), "PlainFile(\"a.bin\")");
    assert_eq!(line_with(Kind::Directory, "\"c\""), "Directory(\"c\")");
    assert_eq!(line_with(Kind::TextFile, "\"./a/b.txt\""), "TextFile(\"./a/b.txt\")");
}

#[test]
fn line_with_takes_the_quoted_text_as_it_is() {
    assert_eq!(line_with(Kind::PlainFile, ""), "PlainFile()");
    assert_eq!(line_with(Kind::TextFile, "a\\\"b"), "TextFile(a\\\"b)");
    assert_eq!(line_with(Kind::Directory, "(x)"), "Directory((x))");
}

#[test]
fn plain_file_is_shown_as_plain_file() {
    let line = Occurrence::PlainFile("a.bin".to_string()).debug_string();
    assert_eq!(line, "PlainFile(\"a.bin\")");
    assert!(line.starts_with("PlainFile("));
}
