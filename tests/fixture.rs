use fixture_tree::{directory, fixture, Directory, DirectoryContent, Shape};

fn file(name: &str, contents: &str) -> (String, Shape) {
    (name.to_string(), Shape::File(contents.to_string()))
}

fn dir(name: &str, pairs: Vec<(String, Shape)>) -> (String, Shape) {
    (name.to_string(), Shape::Dir(pairs))
}

#[test]
fn directory_macro_works_for_files() {
    let macro_fixture = fixture(&vec![
        file("someOtherFile", "other contents"),
        file("otherFile", "lol yesss"),
    ]);

    let mut expected = Directory::new();
    expected.insert(
        "someOtherFile".to_string(),
        DirectoryContent::File("other contents".to_string()),
    );
    expected.insert(
        "otherFile".to_string(),
        DirectoryContent::File("lol yesss".to_string()),
    );

    assert_eq!(macro_fixture, expected);
}

#[test]
fn fixture_macro_without_contents_works() {
    let macro_fixture = fixture(&vec![]);

    let contents = Directory::new();

    assert_eq!(macro_fixture, contents);
}

#[test]
fn one_file_is_not_two_files() {
    let built = fixture(&vec![file("someOtherFile", "other contents")]);
    let mut expected = Directory::new();
    expected.insert(
        "someOtherFile".to_string(),
        DirectoryContent::File("other contents".to_string()),
    );
    expected.insert(
        "otherFile".to_string(),
        DirectoryContent::File("lol yesss".to_string()),
    );
    assert_ne!(built, expected);
    assert_ne!(expected, built);
}

#[test]
fn sibling_order_does_not_matter() {
    let ab = fixture(&vec![file("a", "1"), file("b", "2")]);
    let ba = fixture(&vec![file("b", "2"), file("a", "1")]);
    assert_eq!(ab, ba);

    let nested_one = fixture(&vec![
        dir("d", vec![file("x", "1"), file("y", "2")]),
        file("f", "3"),
    ]);
    let nested_two = fixture(&vec![
        file("f", "3"),
        dir("d", vec![file("y", "2"), file("x", "1")]),
    ]);
    assert_eq!(nested_one, nested_two);
}

#[test]
fn empty_directory_is_present_and_distinct() {
    let with_empty = fixture(&vec![dir("d", vec![])]);
    assert_eq!(with_empty.len(), 1);
    match with_empty.get(&"d".to_string()) {
        Some(DirectoryContent::Directory(inner)) => assert_eq!(inner.len(), 0),
        _ => panic!("\"d\" should be an empty directory"),
    }

    let absent = fixture(&vec![]);
    assert_ne!(with_empty, absent);

    let as_file = fixture(&vec![file("d", "")]);
    assert_ne!(with_empty, as_file);
}

#[test]
fn nested_round_trip() {
    let built = fixture(&vec![dir("outer", vec![file("inner", "x")])]);
    assert_eq!(built.len(), 1);
    match built.get(&"outer".to_string()) {
        Some(DirectoryContent::Directory(outer)) => {
            assert_eq!(outer.len(), 1);
            assert_eq!(
                outer.get(&"inner".to_string()),
                Some(&DirectoryContent::File("x".to_string()))
            );
        }
        _ => panic!("\"outer\" should be a directory"),
    }

    let mut inner = Directory::new();
    inner.insert("inner".to_string(), DirectoryContent::File("x".to_string()));
    let mut expected = Directory::new();
    expected.insert("outer".to_string(), DirectoryContent::Directory(inner));
    assert_eq!(built, expected);
}

#[test]
fn mixed_level_equality() {
    let first = fixture(&vec![file("f", "contents"), dir("d", vec![])]);
    let again = fixture(&vec![file("f", "contents"), dir("d", vec![])]);
    assert_eq!(first, again);

    let changed = fixture(&vec![file("f", "contents2"), dir("d", vec![])]);
    assert_ne!(first, changed);
}

#[test]
fn file_never_equals_directory() {
    let as_file = DirectoryContent::File("Directory({})".to_string());
    let as_dir = DirectoryContent::Directory(Directory::new());
    assert_ne!(as_file, as_dir);
    assert_ne!(as_dir, as_file);

    let dumped = DirectoryContent::File("{\"x\": File(\"1\")}".to_string());
    let nested = directory(&vec![file("x", "1")]);
    assert_ne!(dumped, nested);
}

#[test]
fn duplicate_name_last_wins() {
    for _ in 0..3 {
        let built = fixture(&vec![file("k", "1"), file("k", "2")]);
        assert_eq!(built.len(), 1);
        assert_eq!(
            built.get(&"k".to_string()),
            Some(&DirectoryContent::File("2".to_string()))
        );
        assert_eq!(built, fixture(&vec![file("k", "2")]));
    }

    let nested = fixture(&vec![dir("k", vec![file("a", "1")]), file("k", "2")]);
    assert_eq!(nested, fixture(&vec![file("k", "2")]));
}

#[test]
fn directory_builds_a_directory_entry() {
    let built = directory(&vec![file("a", "1"), dir("b", vec![])]);
    let mut expected = Directory::new();
    expected.insert("a".to_string(), DirectoryContent::File("1".to_string()));
    expected.insert("b".to_string(), DirectoryContent::Directory(Directory::new()));
    assert_eq!(built, DirectoryContent::Directory(expected));
}

#[test]
fn insert_replaces_an_entry() {
    let mut d = Directory::new();
    d.insert("a".to_string(), DirectoryContent::File("1".to_string()));
    d.insert("a".to_string(), DirectoryContent::Directory(Directory::new()));
    assert_eq!(d.len(), 1);
    assert_eq!(
        d.get(&"a".to_string()),
        Some(&DirectoryContent::Directory(Directory::new()))
    );
    assert_eq!(d.get(&"b".to_string()), None);
}

#[test]
fn from_entries_keeps_the_last_duplicate() {
    let d = Directory::from_entries(vec![
        ("a".to_string(), DirectoryContent::File("1".to_string())),
        ("b".to_string(), DirectoryContent::File("2".to_string())),
        ("a".to_string(), DirectoryContent::File("3".to_string())),
    ]);
    assert_eq!(d.len(), 2);
    assert_eq!(
        d.get(&"a".to_string()),
        Some(&DirectoryContent::File("3".to_string()))
    );
    assert_eq!(d, fixture(&vec![file("b", "2"), file("a", "3")]));
    assert_eq!(Directory::from_entries(vec![]), Directory::new());
}

#[test]
fn equality_sees_different_contents_deep_down() {
    let left = fixture(&vec![dir("a", vec![dir("b", vec![file("c", "x")])])]);
    let right = fixture(&vec![dir("a", vec![dir("b", vec![file("c", "y")])])]);
    assert_ne!(left, right);
    let renamed = fixture(&vec![dir("a", vec![dir("b", vec![file("d", "x")])])]);
    assert_ne!(left, renamed);
}
