use filetree::node::{insert_index, order_lowered, position, sort_items};
use filetree::FileTreeItem;
use std::cmp::Ordering;

fn entry(name: &str, is_dir: bool) -> FileTreeItem {
    FileTreeItem::new(name.to_string(), format!("/r/{}", name), is_dir)
}

fn names_of(items: &[FileTreeItem]) -> Vec<String> {
    items.iter().map(|e| e.name.clone()).collect()
}

#[test]
fn new_makes_an_entry_that_is_not_expanded() {
    let e = FileTreeItem::new("a".to_string(), "/r/a".to_string(), true);
    assert_eq!(e.name, "a");
    assert_eq!(e.path, "/r/a");
    assert!(e.is_dir);
    assert!(!e.is_expanded);
    assert!(e.children.is_empty());
    assert!(!FileTreeItem::new("f".to_string(), "/f".to_string(), false).is_dir);
}

#[test]
fn root_makes_an_expanded_directory_with_its_children_as_given() {
    let r = FileTreeItem::root(
        "~".to_string(),
        "/home".to_string(),
        vec![entry("b", false), entry("a", false)],
    );
    assert!(r.is_dir && r.is_expanded);
    assert_eq!(r.name, "~");
    assert_eq!(r.path, "/home");
    assert_eq!(names_of(&r.children), vec!["b", "a"]);
}

#[test]
fn expand_fills_a_directory_in_display_order() {
    let mut d = entry("d", true);
    d.expand(vec![entry("b", false), entry("A", true), entry("a", false)]);
    assert!(d.is_expanded);
    assert_eq!(names_of(&d.children), vec!["A", "a", "b"]);
    d.expand(vec![entry("only", false)]);
    assert_eq!(names_of(&d.children), vec!["only"]);
    d.expand(vec![]);
    assert!(d.is_expanded);
    assert!(d.children.is_empty());
}

#[test]
fn expand_leaves_a_file_alone() {
    let mut f = entry("f", false);
    f.expand(vec![entry("x", false)]);
    assert!(!f.is_expanded);
    assert!(f.children.is_empty());
}

#[test]
fn collapse_lets_go_of_everything_below() {
    let mut d = entry("d", true);
    d.expand(vec![entry("sub", true)]);
    d.children[0].expand(vec![entry("leaf", false)]);
    d.collapse();
    assert!(!d.is_expanded);
    assert!(d.children.is_empty());
    assert!(d.is_dir);
    assert_eq!(d.name, "d");
}

#[test]
fn directories_come_before_files() {
    assert_eq!(entry("z", true).cmp(&entry("a", false)), Ordering::Less);
    assert_eq!(entry("a", false).cmp(&entry("z", true)), Ordering::Greater);
}

#[test]
fn names_compare_without_regard_to_case() {
    assert_eq!(entry("B.txt", false).cmp(&entry("a.txt", false)), Ordering::Greater);
    assert_eq!(entry("a.txt", false).cmp(&entry("B.txt", false)), Ordering::Less);
    assert_eq!(entry("README", false).cmp(&entry("readme", false)), Ordering::Equal);
    assert_eq!(entry("src", true).cmp(&entry("Target", true)), Ordering::Less);
    assert_eq!(entry("ÄB", false).cmp(&entry("äb", false)), Ordering::Equal);
}

#[test]
fn a_name_comes_after_each_of_its_proper_prefixes() {
    assert_eq!(entry("ab", false).cmp(&entry("abc", false)), Ordering::Less);
    assert_eq!(entry("abc", false).cmp(&entry("ab", false)), Ordering::Greater);
    assert_eq!(entry("", false).cmp(&entry("a", false)), Ordering::Less);
    assert_eq!(entry("", false).cmp(&entry("", false)), Ordering::Equal);
}

#[test]
fn names_compare_by_code_point() {
    assert_eq!(entry("a", false).cmp(&entry("é", false)), Ordering::Less);
    assert_eq!(entry("z", false).cmp(&entry("é", false)), Ordering::Less);
    assert_eq!(entry("\u{ffff}", false).cmp(&entry("\u{10000}", false)), Ordering::Less);
    assert_eq!(entry("a_b", false).cmp(&entry("a-b", false)), Ordering::Greater);
}

#[test]
fn precedes_and_the_comparison_operators_follow_the_display_order() {
    assert!(entry("A", true).precedes(&entry("a", false)));
    assert!(!entry("a", false).precedes(&entry("A", false)));
    assert!(entry("a", false) < entry("B", false));
    assert!(entry("b", true) < entry("a", false));
    assert!(entry("x", false) >= entry("X", false));
    assert_eq!(entry("x", false).partial_cmp(&entry("y", false)), Some(Ordering::Less));
}

#[test]
fn equality_looks_at_every_field_and_every_child() {
    let a = entry("a", true);
    assert_eq!(a, entry("a", true));
    assert!(a.same(&entry("a", true)));
    assert_ne!(a, entry("A", true));
    assert_ne!(a, entry("a", false));
    assert_ne!(a, FileTreeItem::new("a".to_string(), "/other/a".to_string(), true));
    let mut x = entry("a", true);
    x.expand(vec![]);
    assert_ne!(a, x);
    let mut y = entry("a", true);
    y.expand(vec![entry("k", false)]);
    let mut z = entry("a", true);
    z.expand(vec![entry("k", false)]);
    assert_eq!(y, z);
    z.children[0].name = "K".to_string();
    assert_ne!(y, z);
    z.children.push(entry("l", false));
    assert_ne!(y, z);
}

#[test]
fn a_clone_is_equal_and_apart() {
    let mut d = entry("d", true);
    d.expand(vec![entry("sub", true), entry("f", false)]);
    d.children[0].expand(vec![entry("leaf", false)]);
    let mut c = d.clone();
    assert_eq!(c, d);
    c.children[0].children[0].name = "changed".to_string();
    assert_ne!(c, d);
    assert_eq!(d.children[0].children[0].name, "leaf");
}

#[test]
fn sort_items_puts_directories_first_and_keeps_equal_names_in_order() {
    let sorted = sort_items(vec![
        entry("b.txt", false),
        entry("A", true),
        entry("a.txt", false),
        FileTreeItem::new("README".to_string(), "first".to_string(), false),
        FileTreeItem::new("readme".to_string(), "second".to_string(), false),
        FileTreeItem::new("Readme".to_string(), "third".to_string(), false),
        entry("c", true),
    ]);
    assert_eq!(
        names_of(&sorted),
        vec!["A", "c", "a.txt", "b.txt", "README", "readme", "Readme"]
    );
    assert_eq!(sorted[4].path, "first");
    assert_eq!(sorted[5].path, "second");
    assert_eq!(sorted[6].path, "third");
    assert!(sort_items(vec![]).is_empty());
}

#[test]
fn sort_items_leaves_a_sorted_listing_as_it_is() {
    let listing = || vec![entry("A", true), entry("b", true), entry("a", false), entry("B", false)];
    assert_eq!(sort_items(listing()), listing());
}

#[test]
fn insert_index_finds_the_first_entry_that_comes_after() {
    let items = vec![entry("D", true), entry("a", false), entry("c", false), entry("e", false)];
    assert_eq!(insert_index(&items, &entry("b", false), 0), 2);
    assert_eq!(insert_index(&items, &entry("c", false), 0), 3);
    assert_eq!(insert_index(&items, &entry("z", false), 0), 4);
    assert_eq!(insert_index(&items, &entry("A", true), 0), 0);
    assert_eq!(insert_index(&items, &entry("E", true), 0), 1);
    assert_eq!(insert_index(&items, &entry("b", false), 3), 3);
    assert_eq!(insert_index(&items, &entry("b", false), 4), 4);
    assert_eq!(insert_index(&items, &entry("b", false), 9), 4);
    assert_eq!(insert_index(&vec![], &entry("b", false), 0), 0);
}

#[test]
fn position_finds_the_first_entry_of_that_value() {
    let items = vec![entry("a", false), entry("b", false), entry("a", false)];
    assert_eq!(position(&items, &entry("a", false)), Some(0));
    assert_eq!(position(&items, &entry("b", false)), Some(1));
    assert_eq!(position(&items, &entry("b", true)), None);
    assert_eq!(position(&vec![], &entry("a", false)), None);
}

#[test]
fn order_lowered_puts_directories_before_files() {
    assert_eq!(order_lowered(true, "z", false, "a"), Ordering::Less);
    assert_eq!(order_lowered(false, "a", true, "z"), Ordering::Greater);
    assert_eq!(order_lowered(true, "", false, ""), Ordering::Less);
}

#[test]
fn order_lowered_compares_the_names_of_one_kind() {
    assert_eq!(order_lowered(false, "a.txt", false, "b.txt"), Ordering::Less);
    assert_eq!(order_lowered(false, "b.txt", false, "a.txt"), Ordering::Greater);
    assert_eq!(order_lowered(false, "a.txt", false, "a.txt"), Ordering::Equal);
    assert_eq!(order_lowered(true, "src", true, "target"), Ordering::Less);
    assert_eq!(order_lowered(true, "ab", true, "abc"), Ordering::Less);
    assert_eq!(order_lowered(true, "abc", true, "ab"), Ordering::Greater);
    assert_eq!(order_lowered(true, "x", true, "x"), Ordering::Equal);
}

#[test]
fn order_lowered_takes_the_names_as_they_are_given() {
    assert_eq!(order_lowered(false, "B", false, "a"), Ordering::Less);
    assert_eq!(order_lowered(false, "a", false, "B"), Ordering::Greater);
    assert_eq!(order_lowered(false, "\u{ffff}", false, "\u{10000}"), Ordering::Less);
}
