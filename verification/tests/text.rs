use module_manager_rs::text::{contains_char, in_order, path_precedes, precedes, same, split, Order};

#[test]
fn precedes_is_the_strict_order_of_texts() {
    assert!(precedes("a", "b"));
    assert!(!precedes("b", "a"));
    assert!(!precedes("a", "a"));
    assert!(precedes("a", "ab"));
    assert!(!precedes("ab", "a"));
    assert!(precedes("", "a"));
    assert!(!precedes("", ""));
    assert!(precedes("Foo-Bar/x.cfg", "Foo/x.cfg"));
}

#[test]
fn precedes_agrees_with_the_order_of_strings() {
    let texts = ["", "a", "ab", "b", "Zebra", "zebra", "é", "日本", "a/b", "a-b"];
    for a in texts {
        for b in texts {
            assert_eq!(precedes(a, b), a < b);
            assert_eq!(same(a, b), a == b);
        }
    }
}

#[test]
fn same_tells_equal_texts() {
    assert!(same("name", "name"));
    assert!(!same("name", "Name"));
    assert!(!same("name", "names"));
    assert!(same("", ""));
}

#[test]
fn split_gives_the_pieces_between_separators() {
    assert_eq!(split("a|b|c", '|'), vec!["a", "b", "c"]);
    assert_eq!(split("abc", '|'), vec!["abc"]);
    assert_eq!(split("", '|'), vec![""]);
    assert_eq!(split("|", '|'), vec!["", ""]);
    assert_eq!(split("a||b", '|'), vec!["a", "", "b"]);
    assert_eq!(split("a|", '|'), vec!["a", ""]);
    assert_eq!(split("é|日本", '|'), vec!["é", "日本"]);
}

#[test]
fn paths_are_ordered_component_by_component() {
    assert!(path_precedes("GameData/Foo/x.cfg", "GameData/Foo-Bar/x.cfg"));
    assert!(!path_precedes("GameData/Foo-Bar/x.cfg", "GameData/Foo/x.cfg"));
    assert!(path_precedes("a/b", "a.b"));
    assert!(path_precedes("a", "a/b"));
    assert!(path_precedes("a/b", "a/c"));
    assert!(path_precedes("a/z", "b/a"));
    assert!(!path_precedes("a/b", "a/b"));
    assert!(path_precedes("", "/"));
    assert!(path_precedes("/", "/a"));
}

#[test]
fn path_order_agrees_with_the_order_of_paths() {
    let paths = [
        "/GameData",
        "/GameData/Foo",
        "/GameData/Foo/x.cfg",
        "/GameData/Foo-Bar/x.cfg",
        "/GameData/Foo Bar/x.cfg",
        "/GameData/Foo.cfg",
        "/GameData/Fo",
        "/GameData/Zed/é.cfg",
        "/GameData/Zed/日本.cfg",
        "/a",
        "/a/b/c",
        "/a/b.c",
        "/a!/b",
    ];
    for a in paths {
        for b in paths {
            let expected = std::path::Path::new(a) < std::path::Path::new(b);
            assert_eq!(path_precedes(a, b), expected, "{a} {b}");
        }
    }
}

#[test]
fn contains_char_tells_whether_the_character_occurs() {
    assert!(contains_char("Mod/Sub", '/'));
    assert!(contains_char("/", '/'));
    assert!(contains_char("日本/é", '/'));
    assert!(contains_char("日本/é", 'é'));
    assert!(!contains_char("Mod", '/'));
    assert!(!contains_char("", '/'));
    assert!(!contains_char("Mod\\Sub", '/'));
}

#[test]
fn in_order_takes_the_order_that_it_is_given() {
    assert!(in_order("a-b", "a/b", Order::Bytes));
    assert!(!in_order("a/b", "a-b", Order::Bytes));
    assert!(in_order("a/b", "a-b", Order::Components));
    assert!(!in_order("a-b", "a/b", Order::Components));
    for order in [Order::Bytes, Order::Components] {
        assert!(in_order("a", "b", order));
        assert!(in_order("a", "ab", order));
        assert!(!in_order("a", "a", order));
        assert!(!in_order("b", "a", order));
    }
}

#[test]
fn path_order_tells_apart_what_is_written_differently() {
    assert!(path_precedes("a/b", "a/b/"));
    assert!(path_precedes("a//b", "a/b"));
    assert!(path_precedes("a/./b", "a/b"));
}
