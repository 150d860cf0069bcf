use file_finder::file_search::{classify, list_files, Node, Reading};
use file_finder::occurrence::{Kind, Occurrence};

fn last_component(path: &str) -> Option<String> {
    path.rsplit('/').next().map(String::from)
}

fn file(path: &str, content: Option<&str>) -> Node {
    Node {
        path: path.to_string(),
        name: last_component(path),
        is_dir: Some(false),
        content: content.map(String::from),
        children: None,
    }
}

fn dir(path: &str, children: Vec<Node>) -> Node {
    Node {
        path: path.to_string(),
        name: last_component(path),
        is_dir: Some(true),
        content: None,
        children: Some(children),
    }
}

fn plain(path: &str) -> Occurrence {
    Occurrence::PlainFile(path.to_string())
}

fn directory(path: &str) -> Occurrence {
    Occurrence::Directory(path.to_string())
}

fn text(path: &str) -> Occurrence {
    Occurrence::TextFile(path.to_string())
}

fn test_dir() -> Node {
    dir(
        "test_dir",
        vec![
            file("test_dir/file1.txt", Some("Test content in file1.txt")),
            file("test_dir/file2.rs", Some("Test content in file2.rs")),
            dir("test_dir/sub_dir", vec![]),
        ],
    )
}

fn project() -> Node {
    dir(
        ".",
        vec![
            file("./notes.txt", Some("alpha beta")),
            dir(
                "./src",
                vec![
                    file("./src/main.rs", Some("fn main() { beta }")),
                    file("./src/logo.png", None),
                    dir("./src/deep", vec![file("./src/deep/a.txt", Some("gamma"))]),
                ],
            ),
            file("./Cargo.lock", Some("beta")),
            dir("./empty", vec![]),
        ],
    )
}

#[test]
fn test_list_files() {
    let root = test_dir();
    let occurrences = list_files(&root, None, Some("Test"), false);

    assert_eq!(occurrences.len(), 2);
}

#[test]
fn content_filter_keeps_the_two_text_files() {
    let occurrences = list_files(&test_dir(), None, Some("Test"), false);
    assert_eq!(occurrences, vec![text("test_dir/file1.txt"), text("test_dir/file2.rs")]);
}

#[test]
fn walk_lists_each_directory_before_what_it_holds() {
    let occurrences = list_files(&project(), None, None, false);
    assert_eq!(
        occurrences,
        vec![
            text("./notes.txt"),
            directory("./src"),
            text("./src/main.rs"),
            plain("./src/logo.png"),
            directory("./src/deep"),
            text("./src/deep/a.txt"),
            plain("./Cargo.lock"),
            directory("./empty"),
        ]
    );
}

#[test]
fn sorted_walk_orders_by_kind_then_path() {
    let occurrences = list_files(&project(), None, None, true);
    assert_eq!(
        occurrences,
        vec![
            plain("./Cargo.lock"),
            plain("./src/logo.png"),
            directory("./empty"),
            directory("./src"),
            directory("./src/deep"),
            text("./notes.txt"),
            text("./src/deep/a.txt"),
            text("./src/main.rs"),
        ]
    );
}

#[test]
fn sorted_walk_agrees_with_sorting_the_unsorted_walk() {
    let mut expected = list_files(&project(), None, None, false);
    expected.sort();
    assert_eq!(list_files(&project(), None, None, true), expected);
}

#[test]
fn unreadable_root_yields_nothing() {
    let root = Node {
        path: "missing".to_string(),
        name: Some("missing".to_string()),
        is_dir: None,
        content: None,
        children: None,
    };
    assert_eq!(list_files(&root, None, None, false), vec![]);
    assert_eq!(list_files(&root, Some("x"), Some("y"), true), vec![]);
}

#[test]
fn empty_directory_yields_nothing() {
    assert_eq!(list_files(&dir("empty", vec![]), None, None, false), vec![]);
    assert_eq!(list_files(&dir("empty", vec![]), None, None, true), vec![]);
}

#[test]
fn root_is_listed_even_where_it_is_not_known_to_be_a_directory() {
    let mut root = dir("root", vec![file("root/a.txt", None)]);
    root.is_dir = None;
    assert_eq!(list_files(&root, None, None, false), vec![text("root/a.txt")]);
}

#[test]
fn unreadable_subdirectory_is_listed_alone() {
    let mut locked = dir("root/locked", vec![]);
    locked.children = None;
    let root = dir("root", vec![locked, file("root/b.bin", None)]);
    assert_eq!(
        list_files(&root, None, None, false),
        vec![directory("root/locked"), plain("root/b.bin")]
    );
}

#[test]
fn entry_of_unknown_type_is_taken_for_a_file() {
    let mut odd = dir("root/odd.txt", vec![file("root/odd.txt/inner.txt", None)]);
    odd.is_dir = None;
    let root = dir("root", vec![odd]);
    assert_eq!(list_files(&root, None, None, false), vec![text("root/odd.txt")]);
}

#[test]
fn classification_goes_by_the_end_of_the_name() {
    assert_eq!(classify(Some("a.txt")), Kind::TextFile);
    assert_eq!(classify(Some("lib.rs")), Kind::TextFile);
    assert_eq!(classify(Some(".rs")), Kind::TextFile);
    assert_eq!(classify(Some(".txt")), Kind::TextFile);
    assert_eq!(classify(Some("a.TXT")), Kind::PlainFile);
    assert_eq!(classify(Some("a.Rs")), Kind::PlainFile);
    assert_eq!(classify(Some("a.txt.bak")), Kind::PlainFile);
    assert_eq!(classify(Some("rs")), Kind::PlainFile);
    assert_eq!(classify(Some("atxt")), Kind::PlainFile);
    assert_eq!(classify(Some("")), Kind::PlainFile);
    assert_eq!(classify(None), Kind::PlainFile);
}

#[test]
fn directory_of_text_files_is_listed_as_text_files() {
    let root = dir(
        "docs",
        vec![file("docs/a.txt", None), file("docs/b.rs", None), file("docs/c.txt", None)],
    );
    let occurrences = list_files(&root, None, None, false);
    assert_eq!(occurrences, vec![text("docs/a.txt"), text("docs/b.rs"), text("docs/c.txt")]);
    for occurrence in &occurrences {
        assert_eq!(occurrence.kind(), Kind::TextFile);
    }
}

#[test]
fn file_with_undecodable_name_is_a_plain_file() {
    let mut odd = file("dir/\u{fffd}.txt", None);
    odd.name = None;
    let root = dir("dir", vec![odd]);
    assert_eq!(list_files(&root, None, None, false), vec![plain("dir/\u{fffd}.txt")]);
}

#[test]
fn directory_named_like_a_text_file_is_a_directory() {
    let root = dir("root", vec![dir("root/notes.txt", vec![])]);
    assert_eq!(list_files(&root, None, None, false), vec![directory("root/notes.txt")]);
}

#[test]
fn name_filter_keeps_files_whose_path_contains_the_text() {
    let occurrences = list_files(&project(), Some("src"), None, false);
    assert_eq!(
        occurrences,
        vec![text("./src/main.rs"), plain("./src/logo.png"), text("./src/deep/a.txt")]
    );
}

#[test]
fn name_filter_drops_every_directory() {
    let occurrences = list_files(&project(), Some("deep"), None, false);
    assert_eq!(occurrences, vec![text("./src/deep/a.txt")]);
    let occurrences = list_files(&project(), Some("empty"), None, false);
    assert_eq!(occurrences, vec![]);
    let occurrences = list_files(&project(), Some(""), None, false);
    assert_eq!(
        occurrences,
        vec![
            text("./notes.txt"),
            text("./src/main.rs"),
            plain("./src/logo.png"),
            text("./src/deep/a.txt"),
            plain("./Cargo.lock"),
        ]
    );
}

#[test]
fn name_filter_yields_a_part_of_the_unfiltered_listing() {
    for sort in [false, true] {
        let all = list_files(&project(), None, None, sort);
        let some = list_files(&project(), Some("x"), None, sort);
        let expected: Vec<Occurrence> = all
            .iter()
            .filter(|o| o.kind() != Kind::Directory && o.path().contains("x"))
            .cloned()
            .collect();
        assert_eq!(some, expected);
        assert_eq!(some, vec![text("./notes.txt"), text("./src/deep/a.txt")]);
    }
}

#[test]
fn content_filter_keeps_text_files_that_hold_the_text() {
    let occurrences = list_files(&project(), None, Some("beta"), false);
    assert_eq!(occurrences, vec![text("./notes.txt"), text("./src/main.rs")]);
}

#[test]
fn content_filter_drops_text_files_that_could_not_be_read() {
    let root = dir("d", vec![file("d/a.txt", None), file("d/b.txt", Some("x"))]);
    assert_eq!(list_files(&root, None, Some(""), false), vec![text("d/b.txt")]);
    assert_eq!(list_files(&root, None, Some("x"), false), vec![text("d/b.txt")]);
}

#[test]
fn both_filters_together() {
    let occurrences = list_files(&project(), Some("main"), Some("beta"), false);
    assert_eq!(occurrences, vec![text("./src/main.rs")]);
    let occurrences = list_files(&project(), Some("notes"), Some("gamma"), true);
    assert_eq!(occurrences, vec![]);
}

#[test]
fn listing_twice_gives_the_same() {
    for sort in [false, true] {
        let first = list_files(&project(), Some("s"), Some("beta"), sort);
        let second = list_files(&project(), Some("s"), Some("beta"), sort);
        assert_eq!(first, second);
    }
}

#[test]
fn sorted_listing_ignores_the_order_of_the_directories() {
    let reordered = dir(
        ".",
        vec![
            dir("./empty", vec![]),
            file("./Cargo.lock", Some("beta")),
            dir(
                "./src",
                vec![
                    dir("./src/deep", vec![file("./src/deep/a.txt", Some("gamma"))]),
                    file("./src/logo.png", None),
                    file("./src/main.rs", Some("fn main() { beta }")),
                ],
            ),
            file("./notes.txt", Some("alpha beta")),
        ],
    );
    assert_eq!(list_files(&project(), None, None, true), list_files(&reordered, None, None, true));
    assert_eq!(
        list_files(&project(), Some("s"), Some("a"), true),
        list_files(&reordered, Some("s"), Some("a"), true)
    );
    assert_ne!(list_files(&project(), None, None, false), list_files(&reordered, None, None, false));
}

#[test]
fn content_is_read_only_of_text_files_that_the_name_filter_lets_pass() {
    let notes = file("./notes.txt", None);
    let logo = file("./logo.png", None);
    assert_eq!(notes.to_read(None, Some("x")), Reading::Content);
    assert_eq!(notes.to_read(Some("notes"), Some("x")), Reading::Content);
    assert_eq!(notes.to_read(Some("other"), Some("x")), Reading::Nothing);
    assert_eq!(notes.to_read(None, None), Reading::Nothing);
    assert_eq!(notes.to_read(Some("notes"), None), Reading::Nothing);
    assert_eq!(logo.to_read(None, Some("x")), Reading::Nothing);
}

#[test]
fn listing_is_read_of_every_directory() {
    let folder = dir("./docs.txt", vec![]);
    assert_eq!(folder.to_read(None, None), Reading::Listing);
    assert_eq!(folder.to_read(Some("other"), Some("x")), Reading::Listing);
    let mut unknown = dir("./docs", vec![]);
    unknown.is_dir = None;
    assert_eq!(unknown.to_read(None, None), Reading::Nothing);
}

#[test]
fn unread_content_changes_nothing_where_it_is_not_needed() {
    let read = dir("d", vec![file("d/a.txt", Some("x")), file("d/b.bin", Some("x"))]);
    let unread = dir("d", vec![file("d/a.txt", None), file("d/b.bin", None)]);
    assert_eq!(list_files(&read, Some("a"), None, false), list_files(&unread, Some("a"), None, false));
    assert_eq!(list_files(&read, Some("b"), Some("x"), false), vec![]);
    assert_eq!(list_files(&unread, Some("b"), Some("x"), false), vec![]);
}

#[test]
fn node_kinds() {
    assert_eq!(file("a/b.rs", None).classify(), Kind::TextFile);
    assert_eq!(file("a/b.o", None).classify(), Kind::PlainFile);
    assert_eq!(dir("a/b.rs", vec![]).classify(), Kind::Directory);
    assert!(file("a/b.rs", Some("x")).retains(Some("b"), Some("x")));
    assert!(!file("a/b.rs", Some("x")).retains(Some("c"), Some("x")));
    assert!(!file("a/b.rs", Some("x")).retains(Some("b"), Some("y")));
    assert!(dir("a/b", vec![]).retains(None, None));
    assert!(!dir("a/b", vec![]).retains(Some("b"), None));
    assert!(!dir("a/b", vec![]).retains(None, Some("")));
}
