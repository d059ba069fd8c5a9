use filetree::{FileTree, FileTreeItem};

fn file(name: &str, dir: &str) -> FileTreeItem {
    FileTreeItem::new(name.to_string(), format!("{}/{}", dir, name), false)
}

fn dir(name: &str, parent: &str) -> FileTreeItem {
    FileTreeItem::new(name.to_string(), format!("{}/{}", parent, name), true)
}

fn names(tree: &FileTree) -> Vec<String> {
    tree.flatten().iter().map(|e| e.name.clone()).collect()
}

fn rows(tree: &FileTree) -> Vec<(String, usize)> {
    tree.flatten_with_depth().iter().map(|e| (e.0.name.clone(), e.1)).collect()
}

/// `/r` with the directory `A` and the files `a.txt` and `b.txt`.
fn small() -> FileTree {
    FileTree::new(
        "~/r".to_string(),
        "/r".to_string(),
        vec![file("b.txt", "/r"), dir("A", "/r"), file("a.txt", "/r")],
    )
}

/// `/r` with `A` (holding `B` (holding `deep.txt`) and `z.txt`), `C`
/// (holding `c.txt`) and `a.txt`, all directories expanded.
fn nested() -> FileTree {
    let mut tree = FileTree::new(
        "~/r".to_string(),
        "/r".to_string(),
        vec![file("a.txt", "/r"), dir("C", "/r"), dir("A", "/r")],
    );
    tree.selection = 1;
    tree.expand(vec![file("z.txt", "/r/A"), dir("B", "/r/A")]);
    tree.selection = 2;
    tree.expand(vec![file("deep.txt", "/r/A/B")]);
    tree.selection = 5;
    tree.expand(vec![file("c.txt", "/r/C")]);
    tree.selection = 0;
    tree
}

#[test]
fn load_sorts_directories_first_then_by_name() {
    let tree = small();
    assert_eq!(names(&tree), vec!["~/r", "A", "a.txt", "b.txt"]);
    assert_eq!(tree.selection, 0);
    assert!(!tree.open);
    assert!(!tree.focused);
    assert!(tree.copied.is_none());
    assert!(tree.root.is_dir && tree.root.is_expanded);
    assert_eq!(tree.root.path, "/r");
}

#[test]
fn load_of_an_empty_directory_holds_the_root_alone() {
    let tree = FileTree::new("~".to_string(), "/home/u".to_string(), vec![]);
    assert_eq!(names(&tree), vec!["~"]);
    assert_eq!(tree.flatten().len(), 1);
}

#[test]
fn flatten_starts_with_the_root_at_depth_zero() {
    let tree = nested();
    let listing = tree.flatten_with_depth();
    assert_eq!(listing[0].0, &tree.root);
    assert_eq!(listing[0].1, 0);
    assert_eq!(tree.flatten()[0], &tree.root);
}

#[test]
fn flatten_walks_in_pre_order_with_depths() {
    let tree = nested();
    let want: Vec<(String, usize)> = vec![
        ("~/r", 0),
        ("A", 1),
        ("B", 2),
        ("deep.txt", 3),
        ("z.txt", 2),
        ("C", 1),
        ("c.txt", 2),
        ("a.txt", 1),
    ]
    .into_iter()
    .map(|(n, d)| (n.to_string(), d))
    .collect();
    assert_eq!(rows(&tree), want);
    assert_eq!(tree.flatten().len(), tree.flatten_with_depth().len());
}

#[test]
fn expanding_a_directory_lists_its_entries_right_below_it() {
    let mut tree = small();
    tree.selection = 1;
    assert_eq!(tree.selected().unwrap().name, "A");
    let depth_of_a = tree.flatten_with_depth()[1].1;
    tree.expand(vec![file("z.txt", "/r/A")]);
    let listing = rows(&tree);
    assert_eq!(listing[1], ("A".to_string(), depth_of_a));
    assert_eq!(listing[2], ("z.txt".to_string(), depth_of_a + 1));
    assert_eq!(names(&tree), vec!["~/r", "A", "z.txt", "a.txt", "b.txt"]);
    assert_eq!(tree.selection, 1);
    assert!(tree.selected().unwrap().is_expanded);
}

#[test]
fn expanding_sorts_the_listing() {
    let mut tree = small();
    tree.selection = 1;
    tree.expand(vec![
        file("beta", "/r/A"),
        dir("zeta", "/r/A"),
        file("Alpha", "/r/A"),
        dir("Eta", "/r/A"),
    ]);
    assert_eq!(
        names(&tree),
        vec!["~/r", "A", "Eta", "zeta", "Alpha", "beta", "a.txt", "b.txt"]
    );
}

#[test]
fn expanding_a_file_changes_nothing() {
    let mut tree = small();
    tree.selection = 2;
    tree.expand(vec![file("x", "/r/a.txt")]);
    assert_eq!(names(&tree), vec!["~/r", "A", "a.txt", "b.txt"]);
    assert!(!tree.selected().unwrap().is_expanded);
    assert!(tree.selected().unwrap().children.is_empty());
}

#[test]
fn expanding_the_root_reads_its_listing_anew() {
    let mut tree = nested();
    tree.selection = 0;
    tree.expand(vec![file("new.txt", "/r"), dir("A", "/r")]);
    assert_eq!(names(&tree), vec!["~/r", "A", "new.txt"]);
    assert!(tree.root.is_expanded);
}

#[test]
fn collapsing_lets_the_children_go() {
    let mut tree = nested();
    tree.selection = 1;
    tree.collapse();
    assert_eq!(names(&tree), vec!["~/r", "A", "C", "c.txt", "a.txt"]);
    let a = tree.selected().unwrap();
    assert_eq!(a.name, "A");
    assert!(!a.is_expanded);
    assert!(a.children.is_empty());
    assert_eq!(tree.selection, 1);
}

#[test]
fn collapsing_the_root_a_file_or_a_collapsed_directory_changes_nothing() {
    let mut tree = nested();
    let before = names(&tree);
    tree.selection = 0;
    tree.collapse();
    assert_eq!(names(&tree), before);
    assert!(tree.root.is_expanded);
    tree.selection = 7;
    tree.collapse();
    assert_eq!(names(&tree), before);
    let mut tree = small();
    tree.selection = 1;
    tree.collapse();
    assert_eq!(names(&tree), vec!["~/r", "A", "a.txt", "b.txt"]);
}

#[test]
fn expanding_after_a_collapse_gives_what_one_expansion_gives() {
    let listing = || vec![file("z.txt", "/r/A"), dir("B", "/r/A"), file("y.txt", "/r/A")];
    let mut once = small();
    once.selection = 1;
    once.expand(listing());
    let mut again = small();
    again.selection = 1;
    again.expand(listing());
    again.collapse();
    assert!(again.selected().unwrap().children.is_empty());
    again.expand(listing());
    assert_eq!(once.selected().unwrap().children, again.selected().unwrap().children);
    assert_eq!(names(&again), vec!["~/r", "A", "B", "y.txt", "z.txt", "a.txt", "b.txt"]);
}

#[test]
fn expanding_again_shows_the_new_listing_not_the_old() {
    let mut tree = small();
    tree.selection = 1;
    tree.expand(vec![file("old.txt", "/r/A")]);
    tree.collapse();
    tree.expand(vec![file("new.txt", "/r/A")]);
    assert_eq!(names(&tree), vec!["~/r", "A", "new.txt", "a.txt", "b.txt"]);
}

#[test]
fn selected_resolves_every_index_as_the_listing_does() {
    let mut tree = nested();
    let listed = names(&tree);
    for i in 0..listed.len() {
        tree.selection = i;
        assert_eq!(tree.selected().unwrap().name, listed[i]);
        assert_eq!(tree.selected_mut().unwrap().name, listed[i]);
    }
}

#[test]
fn selected_beyond_the_listing_is_the_last_entry() {
    let mut tree = nested();
    tree.selection = 8;
    assert_eq!(tree.selected().unwrap().name, "a.txt");
    tree.selection = usize::MAX;
    assert_eq!(tree.selected().unwrap().name, "a.txt");
    assert_eq!(tree.selected_mut().unwrap().name, "a.txt");
}

#[test]
fn selected_mut_changes_the_entry_in_the_tree() {
    let mut tree = nested();
    tree.selection = 3;
    tree.selected_mut().unwrap().name = "renamed.txt".to_string();
    assert_eq!(
        names(&tree),
        vec!["~/r", "A", "B", "renamed.txt", "z.txt", "C", "c.txt", "a.txt"]
    );
    tree.selection = 2;
    tree.selected_mut().unwrap().collapse();
    assert_eq!(names(&tree), vec!["~/r", "A", "B", "z.txt", "C", "c.txt", "a.txt"]);
}

#[test]
fn find_with_path_finds_entries_at_every_depth() {
    let mut tree = nested();
    assert_eq!(tree.find_with_path("/r").unwrap().name, "~/r");
    assert_eq!(tree.find_with_path("/r/A").unwrap().name, "A");
    assert_eq!(tree.find_with_path("/r/A/B/deep.txt").unwrap().name, "deep.txt");
    assert_eq!(tree.find_with_path("/r/C/c.txt").unwrap().name, "c.txt");
    assert_eq!(tree.find_with_path("/r/a.txt").unwrap().name, "a.txt");
}

#[test]
fn find_with_path_finds_nothing_for_an_unknown_path() {
    let mut tree = nested();
    assert!(tree.find_with_path("/r/none").is_none());
    assert!(tree.find_with_path("").is_none());
    assert!(tree.find_with_path("/r/A/").is_none());
    assert!(tree.find_with_path("/R/A").is_none());
}

#[test]
fn find_with_path_takes_the_first_match_in_pre_order() {
    let mut tree = small();
    tree.selection = 1;
    tree.expand(vec![FileTreeItem::new("twin".to_string(), "/same".to_string(), false)]);
    tree.root.children.push(FileTreeItem::new("late".to_string(), "/same".to_string(), false));
    assert_eq!(tree.find_with_path("/same").unwrap().name, "twin");
}

#[test]
fn find_with_path_hands_out_the_entry_itself() {
    let mut tree = nested();
    tree.find_with_path("/r/C").unwrap().collapse();
    assert_eq!(
        names(&tree),
        vec!["~/r", "A", "B", "deep.txt", "z.txt", "C", "a.txt"]
    );
}

#[test]
fn move_down_then_up_comes_back() {
    let mut tree = nested();
    let len = tree.flatten().len();
    for i in 1..len - 1 {
        tree.selection = i;
        tree.move_down();
        assert_eq!(tree.selection, i + 1);
        tree.move_up();
        assert_eq!(tree.selection, i);
    }
}

#[test]
fn move_up_stops_at_the_first_entry() {
    let mut tree = nested();
    tree.move_up();
    assert_eq!(tree.selection, 0);
    tree.selection = 1;
    tree.move_up();
    assert_eq!(tree.selection, 0);
}

#[test]
fn move_down_stops_at_the_last_entry() {
    let mut tree = nested();
    tree.selection = 6;
    tree.move_down();
    assert_eq!(tree.selection, 7);
    tree.move_down();
    assert_eq!(tree.selection, 7);
}

#[test]
fn moving_from_beyond_the_listing_lands_on_the_last_entry() {
    let mut tree = nested();
    tree.selection = 100;
    tree.move_down();
    assert_eq!(tree.selection, 7);
    tree.selection = 100;
    tree.move_up();
    assert_eq!(tree.selection, 7);
    tree.selection = usize::MAX;
    tree.move_down();
    assert_eq!(tree.selection, 7);
}

#[test]
fn goto_end_and_goto_start_reach_the_ends() {
    let mut tree = nested();
    tree.goto_end();
    assert_eq!(tree.selection, tree.flatten().len() - 1);
    assert_eq!(tree.selection, 7);
    tree.goto_start();
    assert_eq!(tree.selection, 0);
    let mut lone = FileTree::new("r".to_string(), "/r".to_string(), vec![]);
    lone.goto_end();
    assert_eq!(lone.selection, 0);
}

#[test]
fn take_selected_detaches_the_entry_from_its_parent() {
    let mut tree = nested();
    tree.selection = 4;
    let path_before = tree.selected().unwrap().path.clone();
    let siblings_before = tree.find_with_path("/r/A").unwrap().children.len();
    let taken = tree.take_selected().unwrap();
    assert_eq!(taken.path, path_before);
    assert_eq!(taken.name, "z.txt");
    let parent = tree.find_with_path("/r/A").unwrap();
    assert_eq!(parent.children.len(), siblings_before - 1);
    assert_eq!(parent.children[0].name, "B");
    assert_eq!(names(&tree), vec!["~/r", "A", "B", "deep.txt", "C", "c.txt", "a.txt"]);
}

#[test]
fn take_selected_leaves_the_siblings_in_order() {
    let mut tree = FileTree::new(
        "r".to_string(),
        "/r".to_string(),
        vec![file("c", "/r"), file("a", "/r"), dir("D", "/r"), file("b", "/r")],
    );
    tree.selection = 3;
    let taken = tree.take_selected().unwrap();
    assert_eq!(taken.name, "b");
    assert_eq!(names(&tree), vec!["r", "D", "a", "c"]);
    let kids = &tree.root.children;
    for i in 1..kids.len() {
        assert!(kids[i - 1] <= kids[i]);
    }
}

#[test]
fn take_selected_takes_a_directory_with_all_below_it() {
    let mut tree = nested();
    tree.selection = 1;
    let taken = tree.take_selected().unwrap();
    assert_eq!(taken.name, "A");
    assert_eq!(taken.children.len(), 2);
    assert_eq!(taken.children[0].children[0].name, "deep.txt");
    assert_eq!(names(&tree), vec!["~/r", "C", "c.txt", "a.txt"]);
    assert_eq!(tree.selection, 1);
    assert_eq!(tree.selected().unwrap().name, "C");
}

#[test]
fn take_selected_leaves_the_index_as_it_is() {
    let mut tree = nested();
    tree.selection = 3;
    tree.take_selected().unwrap();
    assert_eq!(tree.selection, 3);
    assert_eq!(tree.selected().unwrap().name, "z.txt");
    tree.selection = 6;
    let last = tree.take_selected().unwrap();
    assert_eq!(last.name, "a.txt");
    assert_eq!(tree.selection, 6);
    assert_eq!(tree.flatten().len(), 6);
    assert_eq!(tree.selected().unwrap().name, "c.txt");
}

#[test]
fn take_selected_of_the_last_entry_leaves_the_index_beyond_the_listing() {
    let mut tree = FileTree::new(
        "r".to_string(),
        "/r".to_string(),
        vec![file("a.txt", "/r"), file("b.txt", "/r")],
    );
    tree.selection = 2;
    tree.open = true;
    tree.copied = Some(file("held", "/r"));
    let taken = tree.take_selected().unwrap();
    assert_eq!(taken.name, "b.txt");
    assert_eq!(tree.selection, 2);
    assert_eq!(tree.flatten().len(), 2);
    assert!(tree.open);
    assert_eq!(tree.copied, Some(file("held", "/r")));
    assert_eq!(names(&tree), vec!["r", "a.txt"]);
    assert_eq!(tree.selected().unwrap().name, "a.txt");
}

#[test]
fn take_selected_that_fails_leaves_the_index_as_it_is() {
    let mut tree = nested();
    tree.selection = 40;
    let before = names(&tree);
    tree.root.children[2].path = "/elsewhere/a.txt".to_string();
    assert!(tree.take_selected().is_none());
    assert_eq!(tree.selection, 40);
    assert_eq!(names(&tree), before);
}

#[test]
fn take_child_leaves_the_index_as_it_is() {
    let mut tree = nested();
    tree.selection = 7;
    assert!(tree.take_child("/r", &file("a.txt", "/r")).is_some());
    assert_eq!(tree.selection, 7);
    assert!(tree.take_child("/r", &file("a.txt", "/r")).is_none());
    assert_eq!(tree.selection, 7);
}

#[test]
fn paths_are_compared_as_text() {
    let mut tree = nested();
    assert!(tree.take_child("/r/C/", &file("c.txt", "/r/C")).is_none());
    assert!(tree.take_child("/r//C", &file("c.txt", "/r/C")).is_none());
    assert!(tree.take_child("/r/C", &file("c.txt", "/r/C")).is_some());
}

#[test]
fn take_selected_on_the_root_fails_and_changes_nothing() {
    let mut tree = nested();
    let before = names(&tree);
    tree.selection = 0;
    assert!(tree.take_selected().is_none());
    assert_eq!(names(&tree), before);
}

#[test]
fn take_selected_fails_where_the_path_has_no_parent() {
    let mut tree = FileTree::new("/".to_string(), "/".to_string(), vec![file("a", "")]);
    tree.selection = 0;
    assert!(tree.take_selected().is_none());
    assert_eq!(names(&tree), vec!["/", "a"]);
}

#[test]
fn take_selected_fails_where_no_entry_has_the_parent_path() {
    let mut tree = FileTree::new(
        "r".to_string(),
        "/r".to_string(),
        vec![FileTreeItem::new("stray".to_string(), "/elsewhere/stray".to_string(), false)],
    );
    tree.selection = 1;
    assert!(tree.take_selected().is_none());
    assert_eq!(names(&tree), vec!["r", "stray"]);
}

#[test]
fn take_child_takes_the_named_child_only() {
    let mut tree = nested();
    let target = file("c.txt", "/r/C");
    let taken = tree.take_child("/r/C", &target).unwrap();
    assert_eq!(taken, target);
    assert_eq!(names(&tree), vec!["~/r", "A", "B", "deep.txt", "z.txt", "C", "a.txt"]);
    assert!(tree.take_child("/r/C", &target).is_none());
    assert!(tree.take_child("/r/A", &target).is_none());
    assert!(tree.take_child("/none", &target).is_none());
    assert_eq!(names(&tree), vec!["~/r", "A", "B", "deep.txt", "z.txt", "C", "a.txt"]);
}

#[test]
fn insert_and_adjust_puts_the_entry_between_its_neighbours() {
    let mut tree = FileTree::new(
        "r".to_string(),
        "/r".to_string(),
        vec![file("a.txt", "/r"), file("z.txt", "/r")],
    );
    tree.selection = 1;
    let depth = tree.flatten_with_depth()[1].1;
    assert!(tree.insert_and_adjust(file("m.txt", "/r")));
    assert_eq!(
        rows(&tree),
        vec![
            ("r".to_string(), 0),
            ("a.txt".to_string(), depth),
            ("m.txt".to_string(), depth),
            ("z.txt".to_string(), depth),
        ]
    );
    assert_eq!(tree.selection, 1);
    assert_eq!(tree.selected().unwrap().name, "a.txt");
}

#[test]
fn insert_and_adjust_puts_the_entry_last_where_none_comes_after_it() {
    let mut tree = nested();
    tree.selection = 2;
    assert!(tree.insert_and_adjust(file("zz.txt", "/r/A")));
    assert_eq!(
        names(&tree),
        vec!["~/r", "A", "B", "deep.txt", "z.txt", "zz.txt", "C", "c.txt", "a.txt"]
    );
}

#[test]
fn insert_and_adjust_passes_over_what_lies_below_a_sibling() {
    let mut tree = nested();
    tree.selection = 1;
    assert!(tree.insert_and_adjust(dir("B2", "/r")));
    assert_eq!(
        names(&tree),
        vec!["~/r", "A", "B", "deep.txt", "z.txt", "B2", "C", "c.txt", "a.txt"]
    );
    assert_eq!(tree.flatten_with_depth()[5].1, 1);
}

#[test]
fn insert_and_adjust_looks_only_at_what_follows_the_cursor() {
    let mut tree = FileTree::new(
        "r".to_string(),
        "/r".to_string(),
        vec![file("a", "/r"), file("c", "/r"), file("e", "/r")],
    );
    tree.selection = 2;
    assert!(tree.insert_and_adjust(file("b", "/r")));
    assert_eq!(names(&tree), vec!["r", "a", "c", "b", "e"]);
}

#[test]
fn insert_and_adjust_on_the_root_fails_and_changes_nothing() {
    let mut tree = nested();
    let before = names(&tree);
    tree.selection = 0;
    assert!(!tree.insert_and_adjust(file("x", "/r")));
    assert_eq!(names(&tree), before);
}

#[test]
fn insert_and_adjust_goes_by_the_place_in_the_tree_not_by_paths() {
    let mut tree = FileTree::new(
        "r".to_string(),
        "/r".to_string(),
        vec![
            FileTreeItem::new("a".to_string(), "/elsewhere/a".to_string(), false),
            FileTreeItem::new("c".to_string(), "".to_string(), false),
        ],
    );
    tree.selection = 1;
    assert!(tree.insert_and_adjust(file("b", "/r")));
    assert_eq!(names(&tree), vec!["r", "a", "b", "c"]);
}

#[test]
fn insert_and_adjust_from_beyond_the_listing_goes_by_the_last_entry() {
    let mut tree = nested();
    tree.selection = 50;
    assert!(tree.insert_and_adjust(file("b.txt", "/r")));
    assert_eq!(
        names(&tree),
        vec!["~/r", "A", "B", "deep.txt", "z.txt", "C", "c.txt", "a.txt", "b.txt"]
    );
    assert_eq!(tree.selection, 7);
}

#[test]
fn insert_and_adjust_puts_in_an_entry_with_all_below_it() {
    let mut tree = small();
    let mut sub = dir("B", "/r");
    sub.expand(vec![file("inner", "/r/B")]);
    tree.selection = 1;
    assert!(tree.insert_and_adjust(sub));
    assert_eq!(
        rows(&tree),
        vec![
            ("~/r".to_string(), 0),
            ("A".to_string(), 1),
            ("B".to_string(), 1),
            ("inner".to_string(), 2),
            ("a.txt".to_string(), 1),
            ("b.txt".to_string(), 1),
        ]
    );
}

#[test]
fn reload_builds_the_tree_anew_and_opens_it() {
    let mut tree = nested();
    tree.selection = 5;
    tree.copied = Some(file("held", "/r"));
    tree.reload("~/s".to_string(), "/s".to_string(), vec![file("y", "/s"), file("x", "/s")]);
    assert_eq!(names(&tree), vec!["~/s", "x", "y"]);
    assert_eq!(tree.selection, 0);
    assert!(tree.open);
    assert!(tree.copied.is_none());
}

#[test]
fn delete_selection_changes_nothing() {
    let mut tree = nested();
    tree.selection = 3;
    let before = rows(&tree);
    tree.delete_selection();
    assert_eq!(rows(&tree), before);
    assert_eq!(tree.selection, 3);
}

#[test]
fn the_panel_is_thirty_columns_wide_at_most() {
    assert_eq!(filetree::tree::FILE_TREE_MAX_WIDTH, 30);
}

#[test]
fn collapsed_directories_hold_no_children_anywhere() {
    let mut tree = nested();
    tree.selection = 2;
    tree.collapse();
    tree.selection = 4;
    tree.collapse();
    for entry in tree.flatten() {
        if !entry.is_expanded {
            assert!(entry.children.is_empty());
        }
    }
}

#[test]
fn siblings_stand_in_order_everywhere() {
    let mut tree = nested();
    tree.selection = 5;
    tree.expand(vec![file("b", "/r/C"), dir("x", "/r/C"), file("A", "/r/C"), dir("M", "/r/C")]);
    for entry in tree.flatten() {
        let kids = &entry.children;
        for i in 1..kids.len() {
            assert!(!(kids[i - 1].is_dir == false && kids[i].is_dir));
            if kids[i - 1].is_dir == kids[i].is_dir {
                assert!(kids[i - 1].name.to_lowercase() <= kids[i].name.to_lowercase());
            }
        }
    }
}
