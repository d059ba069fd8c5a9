//! The tree with its cursor, and the operations on it.

use crate::model::{
    each_wf, lemma_child_entry, lemma_count, lemma_flat_first_shift, lemma_replace_first, Node,
};
use crate::node::{insert_index, lemma_view_children, position, sort_items, views, FileTreeItem};
use crate::order::{before, insert_pos, lemma_insert_pos, lemma_position_of, sort};
use crate::replace::{
    lemma_beside, lemma_count_first_remove, lemma_owner, lemma_owner_first, lemma_replace,
    lemma_replace_same, lemma_sort_wf, lemma_wf_at, lemma_without_child_wf,
};
use crate::search::{lemma_find, lemma_find_here};
use crate::text::{parent_of, parent_path};
use vstd::prelude::*;

verus! {

/// The most columns that a panel showing the tree takes.
pub const FILE_TREE_MAX_WIDTH: u16 = 30;

/// A tree of entries under one root, with a cursor into its pre-order
/// listing, a place for one entry that was taken out, and two flags for
/// whoever shows the tree.
#[derive(Debug)]
pub struct FileTree {
    pub root: FileTreeItem,
    pub selection: usize,
    pub open: bool,
    pub focused: bool,
    pub copied: Option<FileTreeItem>,
}

/// What a listing of references and depths holds: the value of each entry
/// with its depth.
pub open spec fn listing(s: Seq<(&FileTreeItem, usize)>) -> Seq<(Node, nat)> {
    Seq::new(s.len(), |i: int| (s[i].0@, s[i].1 as nat))
}

/// The position nearest to `i` in a listing of `len` entries.
pub open spec fn clamp(i: int, len: nat) -> nat {
    if i < 0 {
        0
    } else if i >= len {
        (len - 1) as nat
    } else {
        i as nat
    }
}

impl FileTree {
    /// The number of entries in the tree.
    pub open spec fn len(&self) -> nat {
        self.root@.count()
    }

    /// The position that the cursor stands for: the selection, or the last
    /// position where the selection lies beyond it.
    pub open spec fn cursor(&self) -> nat {
        clamp(self.selection as int, self.len())
    }

    /// The tree keeps what this library promises of it: the root is an
    /// expanded directory, every entry is well formed, and the selection
    /// lies within the listing.
    pub open spec fn wf(&self) -> bool {
        &&& self.root@.wf()
        &&& self.root@.is_dir
        &&& self.root@.is_expanded
        &&& self.selection < self.len()
    }

    /// Appends the pre-order listing of `root`, which lies at `depth`, to
    /// `items`.
    fn flatten_<'a>(root: &'a FileTreeItem, depth: usize, items: &mut Vec<(&'a FileTreeItem, usize)>)
        requires
            depth <= old(items).len(),
        ensures
            listing(final(items)@) == listing(old(items)@) + root@.flat(depth as nat),
        decreases root,
    {
        let ghost start = listing(items@);
        items.push((root, depth));
        proof {
            lemma_view_children(*root);
            assert(listing(items@) =~= start + seq![(root@, depth as nat)]);
        }
        let mut i: usize = 0;
        while i < root.children.len()
            invariant
                i <= root.children.len(),
                depth < items.len(),
                root@.children == views(root.children@),
                listing(items@) == start + seq![(root@, depth as nat)] + Node::flat_first(
                    root@.children,
                    i as nat,
                    (depth + 1) as nat,
                ),
            decreases root.children.len() - i,
        {
            Self::flatten_(&root.children[i], depth + 1, items);
            i += 1;
            proof {
                assert(listing(items@) =~= start + seq![(root@, depth as nat)] + Node::flat_first(
                    root@.children,
                    i as nat,
                    (depth + 1) as nat,
                ));
            }
        }
    }

    /// The entry at position `n` of the pre-order listing of `node`, with
    /// `n` counted down to 0 on the way to it. Where the listing is
    /// shorter, `n` is lowered by its length.
    fn selected_<'a>(node: &'a FileTreeItem, n: &mut usize) -> (r: Option<&'a FileTreeItem>)
        ensures
            *old(n) < node@.count() ==> r.is_some() && r.unwrap()@ == node@.at(*old(n) as int)
                && *final(n) == 0,
            *old(n) >= node@.count() ==> r.is_none() && *final(n) == *old(n) - node@.count(),
        decreases node,
    {
        proof {
            lemma_view_children(*node);
            lemma_count(node@);
        }
        if *n == 0 {
            return Some(node);
        }
        *n -= 1;
        let mut i: usize = 0;
        while i < node.children.len()
            invariant
                i <= node.children.len(),
                node@.children == views(node.children@),
                *old(n) >= 1,
                *n == *old(n) - 1 - Node::count_first(node@.children, i as nat),
            decreases node.children.len() - i,
        {
            let ghost rest = *n;
            if let Some(result) = Self::selected_(&node.children[i], n) {
                proof {
                    lemma_child_entry(node@, i as int, rest as int);
                }
                return Some(result);
            }
            proof {
                lemma_flat_first_shift(node@.children, i as nat, 0, 0);
            }
            i += 1;
        }
        None
    }

    /// A mutable reference to the entry at position `n` of the pre-order
    /// listing of `node`, if the listing is that long. What the caller
    /// leaves behind the reference takes that entry's place in the tree.
    fn selected_mut_<'a>(node: &'a mut FileTreeItem, n: usize) -> (r: Option<&'a mut FileTreeItem>)
        ensures
            n < old(node)@.count() ==> r.is_some() && (*r.unwrap())@ == old(node)@.at(n as int)
                && final(node)@ == old(node)@.replace(n as nat, (*final(r.unwrap()))@),
            n >= old(node)@.count() ==> r.is_none() && final(node)@ == old(node)@,
        decreases *old(node),
    {
        proof {
            lemma_view_children(*node);
            lemma_count(node@);
        }
        if n == 0 {
            return Some(node);
        }
        let mut rest: usize = n - 1;
        let mut i: usize = 0;
        while i < node.children.len()
            invariant
                i <= node.children.len(),
                *node == *old(node),
                node@.children == views(node.children@),
                n >= 1,
                rest == n - 1 - Node::count_first(node@.children, i as nat),
            decreases node.children.len() - i,
        {
            let mut probe: usize = rest;
            if Self::selected_(&node.children[i], &mut probe).is_some() {
                proof {
                    lemma_child_entry(node@, i as int, rest as int);
                }
                let ghost before = node@;
                let ghost after = *final(node);
                let r = Self::selected_mut_(&mut node.children[i], rest);
                proof {
                    let new = (*final(r.unwrap()))@;
                    lemma_view_children(after);
                    lemma_replace_first(
                        before.children,
                        i as int,
                        before.children.len(),
                        rest as nat,
                        new,
                    );
                    assert(after@.children =~= before.children.update(
                        i as int,
                        before.children[i as int].replace(rest as nat, new),
                    ));
                }
                return r;
            }
            proof {
                lemma_flat_first_shift(node@.children, i as nat, 0, 0);
            }
            rest = probe;
            i += 1;
        }
        None
    }

    /// Whether an entry of the subtree under `node` has the path `path`.
    fn has_path_(node: &FileTreeItem, path: &String) -> (r: bool)
        ensures
            r == node@.has(path@),
        decreases node,
    {
        proof {
            lemma_view_children(*node);
        }
        if node.path == *path {
            proof {
                lemma_find_here(node@, path@);
            }
            return true;
        }
        let mut i: usize = 0;
        while i < node.children.len()
            invariant
                i <= node.children.len(),
                node@.children == views(node.children@),
                node@.path != path@,
                forall|j: int| 0 <= j < i ==> !(#[trigger] node@.children[j]).has(path@),
            decreases node.children.len() - i,
        {
            if Self::has_path_(&node.children[i], path) {
                proof {
                    lemma_find(node@, path@, i as int);
                }
                return true;
            }
            i += 1;
        }
        proof {
            lemma_find(node@, path@, i as int);
        }
        false
    }

    /// A mutable reference to the first entry, in pre-order, of the subtree
    /// under `node` whose path is `path`, if there is one. What the caller
    /// leaves behind the reference takes that entry's place in the tree.
    fn find_with_path_<'a>(node: &'a mut FileTreeItem, path: &String) -> (r: Option<
        &'a mut FileTreeItem,
    >)
        ensures
            old(node)@.has(path@) ==> r.is_some() && (*r.unwrap())@ == old(node)@.at(
                old(node)@.find(path@) as int,
            ) && final(node)@ == old(node)@.replace(
                old(node)@.find(path@),
                (*final(r.unwrap()))@,
            ),
            !old(node)@.has(path@) ==> r.is_none() && final(node)@ == old(node)@,
        decreases *old(node),
    {
        proof {
            lemma_view_children(*node);
        }
        if node.path == *path {
            proof {
                lemma_find_here(node@, path@);
            }
            return Some(node);
        }
        let mut i: usize = 0;
        while i < node.children.len()
            invariant
                i <= node.children.len(),
                *node == *old(node),
                node@.children == views(node.children@),
                node@.path != path@,
                forall|j: int| 0 <= j < i ==> !(#[trigger] node@.children[j]).has(path@),
            decreases node.children.len() - i,
        {
            if Self::has_path_(&node.children[i], path) {
                let ghost before = node@;
                let ghost after = *final(node);
                let ghost at = before.children[i as int].find(path@);
                proof {
                    lemma_find(before, path@, i as int);
                    lemma_child_entry(before, i as int, at as int);
                }
                let r = Self::find_with_path_(&mut node.children[i], path);
                proof {
                    let new = (*final(r.unwrap()))@;
                    lemma_view_children(after);
                    lemma_replace_first(
                        before.children,
                        i as int,
                        before.children.len(),
                        at,
                        new,
                    );
                    assert(after@.children =~= before.children.update(
                        i as int,
                        before.children[i as int].replace(at, new),
                    ));
                }
                return r;
            }
            i += 1;
        }
        proof {
            lemma_find(node@, path@, i as int);
        }
        None
    }

    /// The entries in display order, from the root down, each with its
    /// depth below the root.
    pub fn flatten_with_depth(&self) -> (r: Vec<(&FileTreeItem, usize)>)
        ensures
            listing(r@) == self.root@.flat(0),
            r@.len() >= 1,
            r@[0].0@ == self.root@,
            r@[0].1 == 0,
    {
        let mut items: Vec<(&FileTreeItem, usize)> = Vec::new();
        Self::flatten_(&self.root, 0, &mut items);
        proof {
            assert(listing(items@) =~= self.root@.flat(0));
            assert(listing(items@)[0] == (self.root@, 0nat));
        }
        items
    }

    /// The position nearest to `n` in the listing.
    fn clamp_(&self, n: usize) -> (r: usize)
        ensures
            r == clamp(n as int, self.len()),
    {
        let mut rest: usize = n;
        if Self::selected_(&self.root, &mut rest).is_some() {
            n
        } else {
            n - rest - 1
        }
    }

    /// A tree whose root is an expanded directory with the given name and
    /// path and with `entries`, in display order, as its children. The
    /// cursor stands on the root.
    pub fn new(name: String, path: String, entries: Vec<FileTreeItem>) -> (r: Self)
        ensures
            r.root@ == (Node {
                name: name@,
                path: path@,
                is_dir: true,
                is_expanded: true,
                children: sort(views(entries@)),
            }),
            r.selection == 0,
            !r.open,
            !r.focused,
            r.copied.is_none(),
            each_wf(views(entries@)) ==> r.wf(),
    {
        let children = sort_items(entries);
        let root = FileTreeItem::root(name, path, children);
        proof {
            if each_wf(views(entries@)) {
                lemma_sort_wf(root@, views(entries@));
            }
        }
        Self { root, selection: 0, open: false, focused: false, copied: None }
    }

    /// The entries in display order, from the root down.
    pub fn flatten(&self) -> (r: Vec<&FileTreeItem>)
        ensures
            r@.len() == self.len(),
            forall|i: int| 0 <= i < r@.len() ==> (#[trigger] r@[i])@ == self.root@.at(i),
            r@.len() >= 1,
            r@[0]@ == self.root@,
    {
        let pairs = self.flatten_with_depth();
        let mut items: Vec<&FileTreeItem> = Vec::new();
        let mut i: usize = 0;
        while i < pairs.len()
            invariant
                i <= pairs.len(),
                items@.len() == i,
                listing(pairs@) == self.root@.flat(0),
                forall|j: int| 0 <= j < i ==> (#[trigger] items@[j])@ == self.root@.at(j),
            decreases pairs.len() - i,
        {
            proof {
                assert(listing(pairs@)[i as int].0 == pairs@[i as int].0@);
            }
            items.push(pairs[i].0);
            i += 1;
        }
        proof {
            assert(listing(pairs@).len() == pairs@.len());
        }
        items
    }

    /// The entry under the cursor.
    pub fn selected(&self) -> (r: Option<&FileTreeItem>)
        ensures
            r.is_some(),
            r.unwrap()@ == self.root@.at(self.cursor() as int),
    {
        let mut n: usize = self.selection;
        match Self::selected_(&self.root, &mut n) {
            Some(entry) => Some(entry),
            None => {
                let mut last: usize = self.selection - n - 1;
                Self::selected_(&self.root, &mut last)
            },
        }
    }

    /// A mutable reference to the entry under the cursor. What the caller
    /// leaves behind the reference takes that entry's place in the tree.
    pub fn selected_mut(&mut self) -> (r: Option<&mut FileTreeItem>)
        ensures
            r.is_some(),
            (*r.unwrap())@ == old(self).root@.at(old(self).cursor() as int),
            final(self).root@ == old(self).root@.replace(
                old(self).cursor(),
                (*final(r.unwrap()))@,
            ),
            final(self).selection == old(self).selection,
            final(self).open == old(self).open,
            final(self).focused == old(self).focused,
            final(self).copied == old(self).copied,
    {
        let n: usize = self.clamp_(self.selection);
        Self::selected_mut_(&mut self.root, n)
    }

    /// A mutable reference to the first entry, from the root down, whose
    /// path is `path`, if there is one. Paths are compared as text,
    /// character by character, so `/r/A/` is not `/r/A`. What the caller
    /// leaves behind the reference takes that entry's place in the tree.
    pub fn find_with_path(&mut self, path: &str) -> (r: Option<&mut FileTreeItem>)
        ensures
            r.is_some() == old(self).root@.has(path@),
            r.is_some() ==> (*r.unwrap())@ == old(self).root@.at(
                old(self).root@.find(path@) as int,
            ) && final(self).root@ == old(self).root@.replace(
                old(self).root@.find(path@),
                (*final(r.unwrap()))@,
            ),
            r.is_none() ==> final(self).root@ == old(self).root@,
            final(self).selection == old(self).selection,
            final(self).open == old(self).open,
            final(self).focused == old(self).focused,
            final(self).copied == old(self).copied,
    {
        let path = path.to_owned();
        Self::find_with_path_(&mut self.root, &path)
    }

    /// Moves the cursor one entry up, and no further than the first.
    pub fn move_up(&mut self)
        ensures
            final(self).selection == clamp(old(self).selection - 1, old(self).len()),
            final(self).selection < final(self).len(),
            final(self).root == old(self).root,
            final(self).open == old(self).open,
            final(self).focused == old(self).focused,
            final(self).copied == old(self).copied,
    {
        let above: usize = if self.selection > 0 {
            self.selection - 1
        } else {
            0
        };
        self.selection = self.clamp_(above);
    }

    /// Moves the cursor one entry down, and no further than the last.
    pub fn move_down(&mut self)
        ensures
            final(self).selection == clamp(old(self).selection + 1, old(self).len()),
            final(self).selection < final(self).len(),
            final(self).root == old(self).root,
            final(self).open == old(self).open,
            final(self).focused == old(self).focused,
            final(self).copied == old(self).copied,
    {
        let len = self.flatten().len();
        if self.selection < len - 1 {
            self.selection += 1;
        } else {
            self.selection = len - 1;
        }
    }

    /// Moves the cursor to the root.
    pub fn goto_start(&mut self)
        ensures
            final(self).selection == 0,
            final(self).selection < final(self).len(),
            final(self).root == old(self).root,
            final(self).open == old(self).open,
            final(self).focused == old(self).focused,
            final(self).copied == old(self).copied,
    {
        self.selection = 0;
    }

    /// Moves the cursor to the last entry.
    pub fn goto_end(&mut self)
        ensures
            final(self).selection == old(self).len() - 1,
            final(self).selection < final(self).len(),
            final(self).root == old(self).root,
            final(self).open == old(self).open,
            final(self).focused == old(self).focused,
            final(self).copied == old(self).copied,
    {
        let len = self.flatten().len();
        self.selection = len - 1;
    }

    /// Leaves the tree as it is.
    pub fn delete_selection(&mut self)
        ensures
            *final(self) == *old(self),
    {
    }

    /// Replaces the tree by a new one, as `new` builds it, and opens it.
    pub fn reload(&mut self, name: String, path: String, entries: Vec<FileTreeItem>)
        ensures
            final(self).root@ == (Node {
                name: name@,
                path: path@,
                is_dir: true,
                is_expanded: true,
                children: sort(views(entries@)),
            }),
            final(self).selection == 0,
            final(self).open,
            !final(self).focused,
            final(self).copied.is_none(),
            each_wf(views(entries@)) ==> final(self).wf(),
    {
        *self = Self::new(name, path, entries);
        self.open = true;
    }

    /// Collapses the entry under the cursor, which lets its children go.
    /// The root stays expanded. The cursor stays on the entry.
    pub fn collapse(&mut self)
        ensures
            final(self).root@ == if old(self).cursor() == 0 {
                old(self).root@
            } else {
                old(self).root@.replace(
                    old(self).cursor(),
                    old(self).root@.at(old(self).cursor() as int).collapsed(),
                )
            },
            final(self).selection == old(self).cursor(),
            final(self).selection < final(self).len(),
            final(self).open == old(self).open,
            final(self).focused == old(self).focused,
            final(self).copied == old(self).copied,
            old(self).wf() ==> final(self).wf(),
    {
        let n: usize = self.clamp_(self.selection);
        if n > 0 {
            let ghost before = self.root@;
            match Self::selected_mut_(&mut self.root, n) {
                Some(node) => {
                    node.collapse();
                },
                None => {},
            }
            proof {
                lemma_replace(before, n as nat, before.at(n as int).collapsed());
            }
        }
        self.selection = n;
    }

    /// Expands the entry under the cursor with `entries` as the listing of
    /// its directory: they become its children, in display order. An
    /// entry that is no directory is left as it is. The cursor stays on
    /// the entry.
    pub fn expand(&mut self, entries: Vec<FileTreeItem>)
        ensures
            final(self).root@ == old(self).root@.replace(
                old(self).cursor(),
                old(self).root@.at(old(self).cursor() as int).expanded(views(entries@)),
            ),
            final(self).selection == old(self).cursor(),
            final(self).selection < final(self).len(),
            final(self).open == old(self).open,
            final(self).focused == old(self).focused,
            final(self).copied == old(self).copied,
            old(self).wf() && each_wf(views(entries@)) ==> final(self).wf(),
    {
        let n: usize = self.clamp_(self.selection);
        let ghost before = self.root@;
        let ghost listed = views(entries@);
        proof {
            lemma_replace(before, n as nat, before.at(n as int).expanded(listed));
            if before.wf() && each_wf(listed) {
                lemma_wf_at(before, n as nat);
                lemma_sort_wf(before.at(n as int), listed);
            }
        }
        match Self::selected_mut_(&mut self.root, n) {
            Some(node) => {
                node.expand(entries);
            },
            None => {},
        }
        self.selection = n;
    }

    /// Takes out of the tree the first child with the value of `child`
    /// under the first entry whose path is `parent_path`, and hands it
    /// over. `None`, and the tree as it was, where there is no such entry
    /// or it has no such child. Paths are compared as text, character by
    /// character, so `/r/A/` is not `/r/A`. The selection is left as it
    /// is, also where it then lies beyond the listing: `selected` takes
    /// such a selection for the last entry.
    pub fn take_child(&mut self, parent_path: &str, child: &FileTreeItem) -> (r: Option<
        FileTreeItem,
    >)
        ensures
            r.is_some() == old(self).root@.site(parent_path@, child@).is_some(),
            r.is_some() ==> r.unwrap()@ == child@ && final(self).len() == old(self).len()
                - child@.count(),
            final(self).root@ == old(self).root@.detached(parent_path@, child@),
            final(self).root@.is_dir == old(self).root@.is_dir,
            final(self).root@.is_expanded == old(self).root@.is_expanded,
            final(self).selection == old(self).selection,
            final(self).open == old(self).open,
            final(self).focused == old(self).focused,
            final(self).copied == old(self).copied,
            old(self).root@.wf() ==> final(self).root@.wf(),
    {
        let ghost before = self.root@;
        let ghost j = before.find(parent_path@);
        let parent_path = parent_path.to_owned();
        let taken = match Self::find_with_path_(&mut self.root, &parent_path) {
            Some(parent) => {
                proof {
                    lemma_view_children(*parent);
                    lemma_replace_same(before, j);
                    lemma_position_of(parent@.children, child@, 0);
                }
                match position(&parent.children, child) {
                    Some(k) => {
                        let ghost held = parent@;
                        let t = parent.children.remove(k);
                        proof {
                            lemma_view_children(*parent);
                            assert(parent@.children =~= held.children.remove(k as int));
                            lemma_replace(before, j, held.without_child(k as int));
                            lemma_count(held);
                            lemma_count(held.without_child(k as int));
                            lemma_count_first_remove(held.children, k as int);
                            if before.wf() {
                                lemma_wf_at(before, j);
                                lemma_without_child_wf(held, k as int);
                            }
                        }
                        Some(t)
                    },
                    None => None,
                }
            },
            None => None,
        };
        taken
    }

    /// Takes the entry under the cursor out of the tree and hands it over.
    /// Its parent is the first entry whose path is the parent of the
    /// entry's path, and the entry leaves where that parent holds a child
    /// of its value. `None`, and the tree as it was, where the path has no
    /// parent, where no entry has the parent's path (as for the root), or
    /// where that entry holds no such child. Paths are compared as text,
    /// character by character, so `/r/A/` is not `/r/A`. The selection is
    /// left as it is, and so stands for another entry afterwards; where it
    /// then lies beyond the listing, `selected` takes it for the last
    /// entry.
    pub fn take_selected(&mut self) -> (r: Option<FileTreeItem>)
        ensures
            match parent_of(old(self).root@.at(old(self).cursor() as int).path) {
                Some(parent_path) => r.is_some() == old(self).root@.site(
                    parent_path,
                    old(self).root@.at(old(self).cursor() as int),
                ).is_some() && final(self).root@ == old(self).root@.detached(
                    parent_path,
                    old(self).root@.at(old(self).cursor() as int),
                ),
                None => r.is_none() && final(self).root@ == old(self).root@,
            },
            r.is_some() ==> r.unwrap()@ == old(self).root@.at(old(self).cursor() as int)
                && final(self).len() == old(self).len() - r.unwrap()@.count(),
            final(self).root@.is_dir == old(self).root@.is_dir,
            final(self).root@.is_expanded == old(self).root@.is_expanded,
            final(self).selection == old(self).selection,
            final(self).open == old(self).open,
            final(self).focused == old(self).focused,
            final(self).copied == old(self).copied,
            old(self).root@.wf() ==> final(self).root@.wf(),
    {
        let selected = match self.selected() {
            Some(entry) => entry.clone(),
            None => {
                return None;
            },
        };
        match parent_path(selected.path.as_str()) {
            Some(parent) => self.take_child(parent.as_str(), &selected),
            None => None,
        }
    }

    /// Puts `item` among the siblings of the entry at position `n` of the
    /// pre-order listing of `node`: after that entry, before the first
    /// later sibling that comes strictly after `item` in display order,
    /// and at the end of the siblings where there is none.
    fn insert_beside_(node: &mut FileTreeItem, n: usize, item: FileTreeItem)
        requires
            0 < n < old(node)@.count(),
        ensures
            final(node)@ == old(node)@.beside(n as nat, item@),
        decreases *old(node),
    {
        proof {
            lemma_view_children(*node);
            lemma_count(node@);
        }
        let ghost before = node@;
        let ghost x = item@;
        let mut rest: usize = n - 1;
        let mut i: usize = 0;
        while i < node.children.len()
            invariant
                i <= node.children.len(),
                *node == *old(node),
                node@ == before,
                item@ == x,
                before.children == views(node.children@),
                0 < n < before.count(),
                before.count() == 1 + Node::count_first(before.children, before.children.len()),
                rest == n - 1 - Node::count_first(before.children, i as nat),
            decreases node.children.len() - i,
        {
            let mut probe: usize = rest;
            if Self::selected_(&node.children[i], &mut probe).is_some() {
                proof {
                    lemma_owner_first(
                        before.children,
                        i as int,
                        before.children.len(),
                        rest as nat,
                    );
                }
                if rest == 0 {
                    let at = insert_index(&node.children, &item, i + 1);
                    proof {
                        lemma_insert_pos(before.children, x, (i + 1) as nat);
                    }
                    node.children.insert(at, item);
                    proof {
                        lemma_view_children(*node);
                        assert(node@.children =~= before.children.insert(at as int, x));
                    }
                } else {
                    let ghost child = before.children[i as int];
                    let ghost p = child.owner(rest as nat).0;
                    proof {
                        lemma_owner(child, rest as nat);
                        lemma_child_entry(before, i as int, p as int);
                    }
                    Self::insert_beside_(&mut node.children[i], rest, item);
                    proof {
                        let k = child.owner(rest as nat).1;
                        let at = insert_pos(child.at(p as int).children, x, (k + 1) as nat);
                        let new = child.at(p as int).with_child(at as int, x);
                        lemma_view_children(*node);
                        lemma_replace_first(
                            before.children,
                            i as int,
                            before.children.len(),
                            p,
                            new,
                        );
                        assert(node@.children =~= before.children.update(
                            i as int,
                            child.replace(p, new),
                        ));
                    }
                }
                return ;
            }
            proof {
                lemma_flat_first_shift(before.children, i as nat, 0, 0);
            }
            rest = probe;
            i += 1;
        }
    }

    /// Puts `node` into the tree as a sibling of the entry under the
    /// cursor: after that entry, before the first later sibling that
    /// comes strictly after `node` in display order, and at the end of the
    /// siblings where there is none. `false`, and the tree as it was,
    /// where the cursor stands on the root, which has no siblings. The
    /// cursor stays on the entry it stood on.
    pub fn insert_and_adjust(&mut self, node: FileTreeItem) -> (r: bool)
        ensures
            r == (old(self).cursor() > 0),
            final(self).root@ == old(self).root@.beside(old(self).cursor(), node@),
            r ==> final(self).len() == old(self).len() + node@.count(),
            final(self).selection == old(self).cursor(),
            final(self).selection < final(self).len(),
            final(self).open == old(self).open,
            final(self).focused == old(self).focused,
            final(self).copied == old(self).copied,
            old(self).wf() && node@.wf() && !before(
                node@,
                old(self).root@.at(old(self).cursor() as int),
            ) ==> final(self).wf(),
    {
        let n: usize = self.clamp_(self.selection);
        self.selection = n;
        if n == 0 {
            return false;
        }
        proof {
            lemma_beside(self.root@, n as nat, node@);
        }
        Self::insert_beside_(&mut self.root, n, node);
        true
    }
}

} // verus!
