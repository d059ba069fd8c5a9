//! What holds of every tree and of the operations on it.

use crate::model::{
    each_wf, lemma_child_entry, lemma_count, lemma_count_first_mono, lemma_flat_first_entry,
    lemma_flat_shift, Node,
};
use crate::order::{
    before, insert_pos, lemma_insert_pos, lemma_position_of, lemma_sort_fixed,
    lemma_sort_permutes, lemma_sort_sorted, position_of, sort, sorted,
};
use crate::replace::{lemma_at_under, lemma_owner, lemma_sort_wf, lemma_wf_at};
use crate::rows::{
    lemma_child_rows, lemma_replace_rows, lemma_subtree_rows, lemma_with_child_rows,
    lemma_without_child_rows,
};
use crate::search::lemma_index_of_path;
use crate::text::{lex_lt, lowercase_of, parent_of};
use crate::tree::clamp;
use vstd::prelude::*;

verus! {

/// The listing of a tree starts with its root, at depth 0.
pub proof fn a_listing_starts_with_its_root(root: Node)
    ensures
        root.count() >= 1,
        root.at(0) == root,
        root.depth_at(0) == 0,
        root.rows(0)[0] == root.row(0),
{
}

/// In a well-formed tree an entry that is not expanded holds no children,
/// wherever in the tree it stands.
pub proof fn collapsed_entries_hold_no_children(root: Node, i: nat)
    requires
        root.wf(),
        i < root.count(),
        !root.at(i as int).is_expanded,
    ensures
        root.at(i as int).children.len() == 0,
{
    lemma_wf_at(root, i);
}

/// In a well-formed tree the children of every entry stand in display
/// order: no file stands before a directory, and of two children of one
/// kind the later one's lower-cased name does not come before the
/// earlier one's.
pub proof fn siblings_stand_in_order(root: Node, i: nat, a: int, b: int)
    requires
        root.wf(),
        i < root.count(),
        0 <= a < b < root.at(i as int).children.len(),
    ensures
        sorted(root.at(i as int).children),
        root.at(i as int).children[b].is_dir ==> root.at(i as int).children[a].is_dir,
        root.at(i as int).children[a].is_dir == root.at(i as int).children[b].is_dir ==> !lex_lt(
            lowercase_of(root.at(i as int).children[b].name),
            lowercase_of(root.at(i as int).children[a].name),
        ),
{
    lemma_wf_at(root, i);
    let s = root.at(i as int).children;
    assert(!before(s[b], s[a]));
}

/// Sorting a listing gives a listing in display order that holds every
/// entry as often as it came, and a listing that comes in display order
/// stays as it comes.
pub proof fn sorting_orders_and_keeps_the_entries(entries: Seq<Node>)
    ensures
        sorted(sort(entries)),
        sort(entries).to_multiset() == entries.to_multiset(),
        sorted(entries) ==> sort(entries) == entries,
{
    lemma_sort_sorted(entries);
    lemma_sort_permutes(entries);
    if sorted(entries) {
        lemma_sort_fixed(entries);
    }
}

/// A listing that brings a file, then a directory, then a file whose
/// lower-cased name comes before the first file's, sorts into the
/// directory, the second file and the first file.
pub proof fn a_directory_loads_before_files_in_name_order(d: Node, f: Node, g: Node)
    requires
        d.is_dir,
        !f.is_dir,
        !g.is_dir,
        lex_lt(lowercase_of(f.name), lowercase_of(g.name)),
    ensures
        sort(seq![g, d, f]) == seq![d, f, g],
{
    let one = seq![g];
    let two = seq![g, d];
    let three = seq![g, d, f];
    assert(one.drop_last() =~= Seq::<Node>::empty());
    assert(two.drop_last() =~= one);
    assert(three.drop_last() =~= two);
    assert(sort(Seq::<Node>::empty()) =~= Seq::<Node>::empty());
    assert(sort(one) =~= one) by {
        assert(insert_pos(Seq::<Node>::empty(), g, 0) == 0);
        assert(Seq::<Node>::empty().insert(0, g) =~= one);
    }
    assert(sort(two) =~= seq![d, g]) by {
        assert(insert_pos(one, d, 0) == 0);
        assert(one.insert(0, d) =~= seq![d, g]);
    }
    assert(sort(three) =~= seq![d, f, g]) by {
        let s = seq![d, g];
        assert(insert_pos(s, f, 1) == 1);
        assert(insert_pos(s, f, 0) == 1);
        assert(s.insert(1, f) =~= seq![d, f, g]);
    }
}

/// From a position that is neither the first nor the last, a step down and
/// then a step up lead back to it.
pub proof fn down_then_up_returns(i: int, len: nat)
    requires
        0 < i < len - 1,
    ensures
        clamp(clamp(i + 1, len) - 1, len) == i,
{
}

/// A directory that is expanded, collapsed and expanded again over one and
/// the same listing holds the children that the first expansion gave it,
/// and a directory that is expanded anew holds the children of the new
/// listing, whatever it held before.
pub proof fn expanding_again_gives_the_same(dir: Node, entries: Seq<Node>, earlier: Seq<Node>)
    requires
        dir.is_dir,
    ensures
        dir.expanded(entries).collapsed().expanded(entries) == dir.expanded(entries),
        dir.expanded(earlier).expanded(entries) == dir.expanded(entries),
        dir.expanded(entries).children == sort(entries),
        dir.expanded(entries).collapsed().children.len() == 0,
{
}

/// Expanding a directory over a listing of well-formed entries gives a
/// well-formed entry, and collapsing any entry gives a well-formed one.
pub proof fn expanding_and_collapsing_keep_form(n: Node, entries: Seq<Node>)
    requires
        n.is_dir,
        each_wf(entries),
    ensures
        n.expanded(entries).wf(),
        n.collapsed().wf(),
{
    lemma_sort_wf(n, entries);
}

/// Expanding the entry at a position changes the lines of the tree there
/// and nowhere else: the lines of the entry and of all that was below it
/// give way to the lines of the expanded entry. Where the listing is not
/// empty, the line right after the entry's own is then that of its first
/// child in display order, one deeper than the entry.
pub proof fn expanding_lists_the_children_below(root: Node, i: nat, entries: Seq<Node>)
    requires
        i < root.count(),
        root.at(i as int).is_dir,
    ensures
        i + root.at(i as int).count() <= root.count(),
        root.replace(i, root.at(i as int).expanded(entries)).rows(0) == root.rows(0).take(
            i as int,
        ) + root.at(i as int).expanded(entries).rows(root.depth_at(i as int)) + root.rows(0).skip(
            (i + root.at(i as int).count()) as int,
        ),
        entries.len() > 0 ==> root.replace(i, root.at(i as int).expanded(entries)).rows(0)[(i + 1) as int]
            == sort(entries)[0].row(root.depth_at(i as int) + 1),
{
    let new = root.at(i as int).expanded(entries);
    lemma_replace_rows(root, i, new, 0);
    lemma_sort_sorted(entries);
    if entries.len() > 0 {
        let depth = root.depth_at(i as int);
        let kids = new.children;
        lemma_flat_first_entry(kids, 0, kids.len(), depth + 1, 0);
        assert(Node::count_first(kids, 0) == 0);
        assert(kids[0].flat(depth + 1)[0] == (kids[0], depth + 1));
        assert(new.flat(depth)[1] == (kids[0], depth + 1));
        assert(new.rows(depth)[1] == kids[0].row(depth + 1));
    }
}

/// Collapsing the entry at a position takes the lines of all below it out
/// of the lines of the tree, and leaves the entry's own line, now not
/// expanded, and every other line as it was.
pub proof fn collapsing_removes_the_lines_below(root: Node, i: nat)
    requires
        i < root.count(),
    ensures
        i + root.at(i as int).count() <= root.count(),
        root.replace(i, root.at(i as int).collapsed()).rows(0) == root.rows(0).take(i as int)
            + seq![root.at(i as int).collapsed().row(root.depth_at(i as int))] + root.rows(0).skip(
            (i + root.at(i as int).count()) as int,
        ),
{
    let new = root.at(i as int).collapsed();
    lemma_replace_rows(root, i, new, 0);
    assert(new.rows(root.depth_at(i as int)) =~= seq![new.row(root.depth_at(i as int))]);
}

/// Detaching a child takes its lines, and those of all below it, out of
/// the lines of the tree, and leaves every other line as it was.
pub proof fn detaching_removes_the_lines_of_the_child(
    root: Node,
    parent_path: Seq<char>,
    child: Node,
)
    requires
        root.site(parent_path, child).is_some(),
    ensures
        ({
            let (j, k) = root.site(parent_path, child).unwrap();
            let from = j + root.at(j as int).child_start(k);
            &&& from + child.count() <= root.count()
            &&& root.rows(0).subrange(from, from + child.count()) == child.rows(
                root.depth_at(j as int) + 1,
            )
            &&& root.detached(parent_path, child).rows(0) == root.rows(0).take(from)
                + root.rows(0).skip(from + child.count())
        }),
{
    let (j, k) = root.site(parent_path, child).unwrap();
    let parent = root.at(j as int);
    let depth = root.depth_at(j as int);
    let start = parent.child_start(k);
    let lines = root.rows(0);
    let inner = parent.rows(depth);
    let size = child.count() as int;
    let end = j + parent.count() as int;
    assert(parent.children[k] == child) by {
        lemma_position_of(parent.children, child, 0);
    }
    assert(lines.len() == root.count() && inner.len() == parent.count()) by {
        lemma_flat_shift(parent, depth, 0);
    }
    assert(end <= lines.len() && inner == lines.subrange(j as int, end)) by {
        lemma_subtree_rows(root, j, 0);
    }
    assert(start + size <= inner.len() && inner.subrange(start, start + size) == child.rows(
        depth + 1,
    )) by {
        lemma_child_rows(parent, k, depth);
    }
    assert(parent.without_child(k).rows(depth) == inner.take(start) + inner.skip(start + size)) by {
        lemma_without_child_rows(parent, k, depth);
    }
    assert(root.detached(parent_path, child).rows(0) == lines.take(j as int) + parent.without_child(
        k,
    ).rows(depth) + lines.skip(end)) by {
        lemma_replace_rows(root, j, parent.without_child(k), 0);
    }
    assert(lines.subrange(j + start, j + start + size) =~= inner.subrange(start, start + size));
    assert(lines.take(j as int) + (inner.take(start) + inner.skip(start + size)) + lines.skip(end)
        =~= lines.take(j + start) + lines.skip(j + start + size));
}

/// The paths of the tree name its entries: no two entries have one path,
/// and the path of every entry below the root has the path of the entry's
/// parent for its parent.
pub open spec fn paths_name_entries(root: Node) -> bool {
    &&& forall|i: int, j: int|
        0 <= i < j < root.count() ==> (#[trigger] root.at(i)).path != (#[trigger] root.at(j)).path
    &&& forall|i: nat|
        0 < i < root.count() ==> parent_of(root.at(i as int).path) == Some(
            root.at((#[trigger] root.owner(i)).0 as int).path,
        )
}

/// In a tree whose paths name its entries, detaching an entry below the
/// root by the parent of its path and by its value detaches it where it
/// stands: under its own parent, at its own index, so that its lines, and
/// those of all below it, leave the lines of the tree and every other
/// line stays as it was.
pub proof fn detaching_by_path_takes_the_entry_where_it_stands(root: Node, i: nat)
    requires
        paths_name_entries(root),
        0 < i < root.count(),
    ensures
        parent_of(root.at(i as int).path).is_some(),
        root.site(parent_of(root.at(i as int).path).unwrap(), root.at(i as int)) == Some(
            root.owner(i),
        ),
        i + root.at(i as int).count() <= root.count(),
        root.detached(parent_of(root.at(i as int).path).unwrap(), root.at(i as int)).rows(0)
            == root.rows(0).take(i as int) + root.rows(0).skip(
            i + root.at(i as int).count() as int,
        ),
{
    let entry = root.at(i as int);
    let (p, k) = root.owner(i);
    let parent = root.at(p as int);
    let path = parent.path;
    lemma_owner(root, i);
    assert(parent_of(entry.path) == Some(path));
    assert(root.find(path) == p) by {
        lemma_index_of_path(root.flat(0), path);
        let found = root.find(path) as int;
        if found < p {
            assert(root.at(found).path != root.at(p as int).path);
        }
    }
    assert(position_of(parent.children, entry, 0) == k) by {
        lemma_position_of(parent.children, entry, 0);
        let first = position_of(parent.children, entry, 0) as int;
        if first < k {
            lemma_child_entry(parent, first, 0);
            lemma_child_entry(parent, k, 0);
            lemma_count_first_mono(parent.children, (first + 1) as nat, k as nat);
            lemma_at_under(root, p, parent.child_start(first) as nat);
            lemma_at_under(root, p, parent.child_start(k) as nat);
            assert(root.at(p + parent.child_start(first)).path != root.at(
                p + parent.child_start(k),
            ).path);
        }
    }
    detaching_removes_the_lines_of_the_child(root, path, entry);
}

/// Putting an entry beside the entry at a position puts its lines, and
/// those of all below it, into the lines of the tree, as deep as the entry
/// it is put beside, and leaves every other line as it was. The lines go
/// in after that entry and all below it: right before the first later
/// sibling that comes strictly after the new entry in display order, and
/// where there is none, right after the last line below the parent.
pub proof fn putting_beside_puts_in_the_lines_of_the_entry(root: Node, i: nat, x: Node)
    requires
        0 < i < root.count(),
    ensures
        ({
            let (p, k) = root.owner(i);
            let parent = root.at(p as int);
            let at = insert_pos(parent.children, x, (k + 1) as nat);
            let from = p + parent.child_start(at as int);
            &&& parent.children[k] == root.at(i as int)
            &&& k < at <= parent.children.len()
            &&& forall|j: int| k < j < at ==> !before(x, #[trigger] parent.children[j])
            &&& at < parent.children.len() ==> before(x, parent.children[at as int])
            &&& at == parent.children.len() ==> from == p + parent.count()
            &&& i + root.at(i as int).count() <= from <= root.count()
            &&& root.beside(i, x).rows(0) == root.rows(0).take(from) + x.rows(
                root.depth_at(i as int),
            ) + root.rows(0).skip(from)
        }),
{
    let (p, k) = root.owner(i);
    let parent = root.at(p as int);
    let depth = root.depth_at(p as int);
    let at = insert_pos(parent.children, x, (k + 1) as nat) as int;
    let start = parent.child_start(at);
    lemma_owner(root, i);
    lemma_insert_pos(parent.children, x, (k + 1) as nat);
    lemma_count(parent);
    lemma_count_first_mono(parent.children, (k + 1) as nat, at as nat);
    lemma_replace_rows(root, p, parent.with_child(at, x), 0);
    lemma_subtree_rows(root, p, 0);
    lemma_with_child_rows(parent, at, x, depth);
    lemma_flat_shift(parent, depth, 0);
    lemma_flat_shift(root, 0, 0);
    let lines = root.rows(0);
    assert(root.beside(i, x).rows(0) =~= lines.take(p + start) + x.rows(depth + 1) + lines.skip(
        p + start,
    ));
}

} // verus!
