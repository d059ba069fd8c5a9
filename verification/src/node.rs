//! The entries of the tree.

use crate::model::{each_wf, Node};
use crate::order::{
    before, insert_pos, lemma_insert_pos, ordering, ordering_lowered, position_of, sort, sorted,
};
use crate::replace::lemma_sort_wf;
use crate::text::{compare_strs, lemma_lex_irreflexive, lemma_lex_transitive, lex_lt, lowercase};
use std::cmp::Ordering;
use vstd::prelude::*;

verus! {

/// One entry of the tree: a file, or a directory whose children are held
/// only while it is expanded.
#[derive(Debug)]
pub struct FileTreeItem {
    pub name: String,
    pub path: String,
    pub is_dir: bool,
    pub is_expanded: bool,
    pub children: Vec<FileTreeItem>,
}

/// The values of a sequence of entries.
pub open spec fn views(s: Seq<FileTreeItem>) -> Seq<Node> {
    Seq::new(s.len(), |i: int| s[i]@)
}

impl View for FileTreeItem {
    type V = Node;

    open spec fn view(&self) -> Node
        decreases self,
    {
        Node {
            name: self.name@,
            path: self.path@,
            is_dir: self.is_dir,
            is_expanded: self.is_expanded,
            children: Seq::new(
                self.children@.len(),
                |i: int|
                    if 0 <= i < self.children@.len() {
                        self.children@[i].view()
                    } else {
                        arbitrary()
                    },
            ),
        }
    }
}

/// The children of an entry's value are the values of its children.
pub proof fn lemma_view_children(item: FileTreeItem)
    ensures
        item@.children == views(item.children@),
{
    reveal_with_fuel(<FileTreeItem as View>::view, 2);
    assert(item@.children =~= views(item.children@));
}

impl FileTreeItem {
    /// An entry that has not been expanded.
    pub fn new(name: String, path: String, is_dir: bool) -> (r: Self)
        ensures
            r@ == (Node {
                name: name@,
                path: path@,
                is_dir,
                is_expanded: false,
                children: Seq::empty(),
            }),
            r@.wf(),
    {
        let r = FileTreeItem { name, path, is_dir, is_expanded: false, children: Vec::new() };
        proof {
            lemma_view_children(r);
            assert(r@.children =~= Seq::empty());
        }
        r
    }

    /// An expanded directory with the given children, kept in the order in
    /// which they come.
    pub fn root(name: String, path: String, children: Vec<FileTreeItem>) -> (r: Self)
        ensures
            r@ == (Node {
                name: name@,
                path: path@,
                is_dir: true,
                is_expanded: true,
                children: views(children@),
            }),
            sorted(views(children@)) && each_wf(views(children@)) ==> r@.wf(),
    {
        let r = FileTreeItem { name, path, is_dir: true, is_expanded: true, children };
        proof {
            lemma_view_children(r);
        }
        r
    }

    /// Makes a directory an expanded one whose children are `entries` in
    /// display order, in place of any children it had. An entry that is no
    /// directory is left as it is.
    pub fn expand(&mut self, entries: Vec<FileTreeItem>)
        ensures
            final(self)@ == old(self)@.expanded(views(entries@)),
            old(self)@.wf() && each_wf(views(entries@)) ==> final(self)@.wf(),
    {
        proof {
            if each_wf(views(entries@)) {
                lemma_sort_wf(self@, views(entries@));
            }
        }
        if self.is_dir {
            self.is_expanded = true;
            self.children = sort_items(entries);
            proof {
                lemma_view_children(*self);
            }
        }
    }

    /// Lets the children go and marks the entry as not expanded.
    pub fn collapse(&mut self)
        ensures
            final(self)@ == old(self)@.collapsed(),
            final(self)@.wf(),
    {
        self.is_expanded = false;
        self.children.clear();
        proof {
            lemma_view_children(*self);
            assert(self@.children =~= Seq::empty());
        }
    }

    /// Compares two entries in display order: `Less` where `self` comes
    /// strictly before `other`, `Greater` where it comes strictly after.
    pub fn cmp(&self, other: &Self) -> (r: Ordering)
        ensures
            r == ordering(self@, other@),
    {
        let name = lowercase(self.name.as_str());
        let other_name = lowercase(other.name.as_str());
        order_lowered(self.is_dir, name.as_str(), other.is_dir, other_name.as_str())
    }

    /// Whether `self` comes strictly before `other` in display order.
    pub fn precedes(&self, other: &Self) -> (r: bool)
        ensures
            r == before(self@, other@),
    {
        matches!(self.cmp(other), Ordering::Less)
    }

    /// Whether two entries have the same value: the same fields, and
    /// children that have the same values one by one.
    pub fn same(&self, other: &Self) -> (r: bool)
        ensures
            r == (self@ == other@),
        decreases self,
    {
        if !(self.name == other.name && self.path == other.path && self.is_dir == other.is_dir
            && self.is_expanded == other.is_expanded && self.children.len()
            == other.children.len()) {
            proof {
                lemma_view_children(*self);
                lemma_view_children(*other);
                assert(self@.children.len() == self.children@.len());
                assert(other@.children.len() == other.children@.len());
            }
            return false;
        }
        let mut i: usize = 0;
        while i < self.children.len()
            invariant
                i <= self.children.len(),
                self.children.len() == other.children.len(),
                forall|j: int| 0 <= j < i ==> self.children@[j]@ == other.children@[j]@,
            decreases self.children.len() - i,
        {
            if !self.children[i].same(&other.children[i]) {
                proof {
                    lemma_view_children(*self);
                    lemma_view_children(*other);
                    assert(self@.children[i as int] != other@.children[i as int]);
                }
                return false;
            }
            i += 1;
        }
        proof {
            lemma_view_children(*self);
            lemma_view_children(*other);
            assert(self@.children =~= other@.children);
        }
        true
    }
}

impl PartialEq for FileTreeItem {
    /// Two entries are equal where they have the same value.
    fn eq(&self, other: &Self) -> (r: bool) {
        self.same(other)
    }
}

impl Eq for FileTreeItem {

}

impl vstd::std_specs::cmp::PartialEqSpecImpl for FileTreeItem {
    open spec fn obeys_eq_spec() -> bool {
        true
    }

    open spec fn eq_spec(&self, other: &Self) -> bool {
        self@ == other@
    }
}

impl PartialOrd for FileTreeItem {
    /// Two entries always compare, and compare in display order.
    fn partial_cmp(&self, other: &Self) -> (r: Option<Ordering>) {
        Some(self.cmp(other))
    }
}

impl vstd::std_specs::cmp::PartialOrdSpecImpl for FileTreeItem {
    open spec fn obeys_partial_cmp_spec() -> bool {
        true
    }

    open spec fn partial_cmp_spec(&self, other: &Self) -> Option<Ordering> {
        Some(ordering(self@, other@))
    }
}

impl Clone for FileTreeItem {
    /// A copy with the same value.
    fn clone(&self) -> (r: Self)
        ensures
            r@ == self@,
        decreases self,
    {
        let mut children: Vec<FileTreeItem> = Vec::new();
        let mut i: usize = 0;
        while i < self.children.len()
            invariant
                i <= self.children.len(),
                children@.len() == i,
                forall|j: int| 0 <= j < i ==> children@[j]@ == self.children@[j]@,
            decreases self.children.len() - i,
        {
            let child = self.children[i].clone();
            children.push(child);
            i += 1;
        }
        let r = FileTreeItem {
            name: self.name.clone(),
            path: self.path.clone(),
            is_dir: self.is_dir,
            is_expanded: self.is_expanded,
            children,
        };
        proof {
            lemma_view_children(r);
            lemma_view_children(*self);
            assert(r@.children =~= self@.children);
        }
        r
    }
}

/// Compares two entries by their kinds and their lower-cased names: a
/// directory comes before a file, and two entries of one kind compare as
/// their lower-cased names do, character by character.
pub fn order_lowered(a_is_dir: bool, a_lower: &str, b_is_dir: bool, b_lower: &str) -> (r: Ordering)
    ensures
        r == ordering_lowered(a_is_dir, a_lower@, b_is_dir, b_lower@),
{
    proof {
        if lex_lt(a_lower@, b_lower@) && lex_lt(b_lower@, a_lower@) {
            lemma_lex_transitive(a_lower@, b_lower@, a_lower@);
            lemma_lex_irreflexive(a_lower@);
        }
    }
    if a_is_dir && b_is_dir {
        compare_strs(a_lower, b_lower)
    } else if a_is_dir && !b_is_dir {
        Ordering::Less
    } else if !a_is_dir && b_is_dir {
        Ordering::Greater
    } else {
        compare_strs(a_lower, b_lower)
    }
}

/// The first position at or after `from` at which an entry of `items` comes
/// strictly after `item` in display order, and the length of `items` where
/// none does.
pub fn insert_index(items: &Vec<FileTreeItem>, item: &FileTreeItem, from: usize) -> (r: usize)
    ensures
        r == insert_pos(views(items@), item@, from as nat),
{
    let mut j: usize = from;
    while j < items.len()
        invariant
            insert_pos(views(items@), item@, j as nat) == insert_pos(
                views(items@),
                item@,
                from as nat,
            ),
        decreases items.len() - j,
    {
        if item.precedes(&items[j]) {
            return j;
        }
        j += 1;
    }
    items.len()
}

/// The first position at which an entry of `items` has the value of `item`.
pub fn position(items: &Vec<FileTreeItem>, item: &FileTreeItem) -> (r: Option<usize>)
    ensures
        r.is_some() == (position_of(views(items@), item@, 0) < items.len()),
        r.is_some() ==> r.unwrap() == position_of(views(items@), item@, 0),
        r.is_some() ==> r.unwrap() < items.len(),
{
    let mut j: usize = 0;
    while j < items.len()
        invariant
            j <= items.len(),
            position_of(views(items@), item@, j as nat) == position_of(views(items@), item@, 0),
        decreases items.len() - j,
    {
        if items[j].same(item) {
            return Some(j);
        }
        j += 1;
    }
    None
}

/// The entries in display order. Entries that compare equal keep the order
/// in which they came.
pub fn sort_items(entries: Vec<FileTreeItem>) -> (r: Vec<FileTreeItem>)
    ensures
        views(r@) == sort(views(entries@)),
{
    let ghost all = views(entries@);
    let mut out: Vec<FileTreeItem> = Vec::new();
    proof {
        assert(all.take(0) =~= Seq::empty());
        assert(views(out@) =~= Seq::empty());
    }
    for item in it: entries.into_iter()
        invariant
            views(it.seq()) == all,
            views(out@) == sort(all.take(it.index() as int)),
    {
        let ghost before_insert = views(out@);
        let p = insert_index(&out, &item, 0);
        proof {
            lemma_insert_pos(before_insert, item@, 0);
        }
        out.insert(p, item);
        proof {
            let k = it.index() as int;
            assert(all.take(k + 1).drop_last() =~= all.take(k));
            assert(all.take(k + 1).last() == item@);
            assert(views(out@) =~= before_insert.insert(p as int, item@));
        }
    }
    proof {
        assert(all.take(all.len() as int) =~= all);
    }
    out
}

} // verus!
