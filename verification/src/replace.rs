//! What replacing an entry of a tree does to the count of its entries and to
//! its form.

use crate::model::{
    each_wf, lemma_child_entry, lemma_count, lemma_count_first_mono, lemma_replace_first, Node,
};
use crate::order::{
    before, insert_pos, lemma_before_irreflexive, lemma_before_transitive, lemma_insert_pos,
    lemma_not_after_transitive, lemma_sort_members, lemma_sort_sorted, sort, sorted,
};
use vstd::prelude::*;

verus! {

/// Among the first `k` entries of `s`, the index of the one whose listing
/// holds position `i` of the listing of them all.
pub open spec fn child_at(s: Seq<Node>, k: nat, i: nat) -> int
    decreases k,
{
    if k == 0 {
        0
    } else if i >= Node::count_first(s, (k - 1) as nat) {
        k - 1
    } else {
        child_at(s, (k - 1) as nat, i)
    }
}

/// What `child_at` finds: an entry whose listing starts at or before the
/// position and ends after it.
pub proof fn lemma_child_at(s: Seq<Node>, k: nat, i: nat)
    requires
        k <= s.len(),
        i < Node::count_first(s, k),
    ensures
        0 <= child_at(s, k, i) < k,
        Node::count_first(s, child_at(s, k, i) as nat) <= i < Node::count_first(
            s,
            child_at(s, k, i) as nat,
        ) + s[child_at(s, k, i)].count(),
    decreases k,
{
    if k > 0 && i < Node::count_first(s, (k - 1) as nat) {
        lemma_child_at(s, (k - 1) as nat, i);
    }
}

/// Two sequences that agree on their first `k` entries have the same
/// listing of those.
pub proof fn lemma_flat_first_agree(s: Seq<Node>, t: Seq<Node>, k: nat, d: nat)
    requires
        k <= s.len(),
        k <= t.len(),
        forall|j: int| 0 <= j < k ==> s[j] == t[j],
    ensures
        Node::flat_first(s, k, d) == Node::flat_first(t, k, d),
    decreases k,
{
    if k > 0 {
        lemma_flat_first_agree(s, t, (k - 1) as nat, d);
    }
}

/// Changing one entry of a sequence changes the count of the entries by
/// what the new entry holds more than the old.
pub proof fn lemma_count_first_update(s: Seq<Node>, c: int, x: Node, k: nat)
    requires
        0 <= c < s.len(),
        k <= s.len(),
    ensures
        Node::count_first(s.update(c, x), k) == if c < k {
            Node::count_first(s, k) - s[c].count() + x.count()
        } else {
            Node::count_first(s, k) as int
        },
    decreases k,
{
    if k > 0 {
        lemma_count_first_update(s, c, x, (k - 1) as nat);
    }
}

/// Putting an entry into a sequence raises the count of the entries by what
/// the entry holds.
pub proof fn lemma_count_first_insert(s: Seq<Node>, p: int, x: Node)
    requires
        0 <= p <= s.len(),
    ensures
        Node::count_first(s.insert(p, x), s.len() + 1) == Node::count_first(s, s.len())
            + x.count(),
    decreases s.len(),
{
    let t = s.insert(p, x);
    let n = s.len();
    if p == n {
        lemma_flat_first_agree(t, s, n, 0);
    } else {
        let s1 = s.drop_last();
        let t1 = s1.insert(p, x);
        lemma_count_first_insert(s1, p, x);
        lemma_flat_first_agree(t, t1, n, 0);
        lemma_flat_first_agree(s, s1, (n - 1) as nat, 0);
    }
}

/// Taking an entry out of a sequence lowers the count of the entries by
/// what the entry holds.
pub proof fn lemma_count_first_remove(s: Seq<Node>, p: int)
    requires
        0 <= p < s.len(),
    ensures
        Node::count_first(s.remove(p), (s.len() - 1) as nat) == Node::count_first(s, s.len())
            - s[p].count(),
{
    let t = s.remove(p);
    assert(t.insert(p, s[p]) =~= s);
    lemma_count_first_insert(t, p, s[p]);
}

/// Replacing the entry at a position of the listing: the entry and all
/// below it lie within the listing; the listing changes in length by what
/// the new entry holds more than the old; and the new entry then stands at
/// that position. Where the new entry is well formed and takes the old
/// one's name and kind, a well-formed tree stays well formed.
pub proof fn lemma_replace(n: Node, i: nat, new: Node)
    requires
        i < n.count(),
    ensures
        i + n.at(i as int).count() <= n.count(),
        n.replace(i, new).count() == n.count() - n.at(i as int).count() + new.count(),
        n.replace(i, new).at(i as int) == new,
        i > 0 ==> n.replace(i, new).name == n.name && n.replace(i, new).is_dir == n.is_dir
            && n.replace(i, new).is_expanded == n.is_expanded && n.replace(i, new).path == n.path,
        n.wf() && new.wf() && new.name == n.at(i as int).name && new.is_dir == n.at(
            i as int,
        ).is_dir ==> n.replace(i, new).wf(),
    decreases n,
{
    lemma_count(n);
    if i > 0 {
        let s = n.children;
        let c = child_at(s, s.len(), (i - 1) as nat);
        lemma_child_at(s, s.len(), (i - 1) as nat);
        let j = (i - 1 - Node::count_first(s, c as nat)) as nat;
        let x = s[c].replace(j, new);
        lemma_replace(s[c], j, new);
        lemma_replace_first(s, c, s.len(), j, new);
        lemma_child_entry(n, c, j as int);
        lemma_count_first_mono(s, (c + 1) as nat, s.len());
        let m = n.replace(i, new);
        assert(m.children == s.update(c, x));
        lemma_count(m);
        lemma_count_first_update(s, c, x, s.len());
        lemma_count_first_update(s, c, x, c as nat);
        lemma_child_entry(m, c, j as int);
        if n.wf() && new.wf() && new.name == n.at(i as int).name && new.is_dir == n.at(
            i as int,
        ).is_dir {
            assert(x.name == s[c].name && x.is_dir == s[c].is_dir);
            assert(sorted(m.children)) by {
                assert forall|a: int, b: int| 0 <= a < b < m.children.len() implies !before(
                    #[trigger] m.children[b],
                    #[trigger] m.children[a],
                ) by {
                    assert(!before(s[b], s[a]));
                }
            }
            assert forall|a: int| 0 <= a < m.children.len() implies (
            #[trigger] m.children[a]).wf() by {
                if a != c {
                    assert(s[a].wf());
                }
            }
        }
    }
}

/// Replacing an entry by itself changes nothing.
pub proof fn lemma_replace_same(n: Node, i: nat)
    requires
        i < n.count(),
    ensures
        n.replace(i, n.at(i as int)) == n,
    decreases n,
{
    lemma_count(n);
    if i > 0 {
        let s = n.children;
        let c = child_at(s, s.len(), (i - 1) as nat);
        lemma_child_at(s, s.len(), (i - 1) as nat);
        let j = (i - 1 - Node::count_first(s, c as nat)) as nat;
        lemma_child_entry(n, c, j as int);
        lemma_replace_same(s[c], j);
        lemma_replace_first(s, c, s.len(), j, n.at(i as int));
        assert(s.update(c, s[c]) =~= s);
    }
}

/// Sorting well-formed entries gives well-formed entries, so a directory
/// expanded over them is well formed.
pub proof fn lemma_sort_wf(n: Node, entries: Seq<Node>)
    requires
        each_wf(entries),
    ensures
        each_wf(sort(entries)),
        n.is_dir ==> n.expanded(entries).wf(),
{
    lemma_sort_sorted(entries);
    assert forall|i: int| 0 <= i < sort(entries).len() implies (#[trigger] sort(entries)[i]).wf() by {
        lemma_sort_members(entries, i);
    }
}

/// Whose child an entry is that lies under the child at `c`: that child's,
/// where it is that child itself, and else as within that child.
pub proof fn lemma_owner_first(s: Seq<Node>, c: int, k: nat, j: nat)
    requires
        0 <= c < k <= s.len(),
        j < s[c].count(),
    ensures
        Node::owner_first(s, k, Node::count_first(s, c as nat) + j) == if j == 0 {
            (0nat, c)
        } else {
            (1 + Node::count_first(s, c as nat) + s[c].owner(j).0, s[c].owner(j).1)
        },
    decreases k,
{
    if c < k - 1 {
        lemma_count_first_mono(s, (c + 1) as nat, (k - 1) as nat);
        lemma_owner_first(s, c, (k - 1) as nat, j);
    }
}

/// What `owner` finds for a position after the first: an earlier position
/// whose entry holds the entry at the position as the child at the index
/// found, so that the entry lies one deeper than it and starts where that
/// child's listing starts.
pub proof fn lemma_owner(n: Node, i: nat)
    requires
        0 < i < n.count(),
    ensures
        n.owner(i).0 < i,
        0 <= n.owner(i).1 < n.at(n.owner(i).0 as int).children.len(),
        n.at(n.owner(i).0 as int).children[n.owner(i).1] == n.at(i as int),
        i == n.owner(i).0 + n.at(n.owner(i).0 as int).child_start(n.owner(i).1),
        n.depth_at(i as int) == n.depth_at(n.owner(i).0 as int) + 1,
    decreases n,
{
    lemma_count(n);
    let s = n.children;
    let c = child_at(s, s.len(), (i - 1) as nat);
    lemma_child_at(s, s.len(), (i - 1) as nat);
    let j = (i - 1 - Node::count_first(s, c as nat)) as nat;
    lemma_owner_first(s, c, s.len(), j);
    lemma_child_entry(n, c, j as int);
    if j > 0 {
        lemma_owner(s[c], j);
        let (p, k) = s[c].owner(j);
        lemma_child_entry(n, c, p as int);
    }
}

/// The entry at a position under an entry of the tree is the entry of the
/// tree that many positions after it, and lies as much deeper.
pub proof fn lemma_at_under(n: Node, i: nat, j: nat)
    requires
        i < n.count(),
        j < n.at(i as int).count(),
    ensures
        i + j < n.count(),
        n.at((i + j) as int) == n.at(i as int).at(j as int),
        n.depth_at((i + j) as int) == n.depth_at(i as int) + n.at(i as int).depth_at(j as int),
    decreases n,
{
    lemma_count(n);
    if i > 0 {
        let s = n.children;
        let c = child_at(s, s.len(), (i - 1) as nat);
        lemma_child_at(s, s.len(), (i - 1) as nat);
        let off = (i - 1 - Node::count_first(s, c as nat)) as nat;
        lemma_child_entry(n, c, off as int);
        lemma_at_under(s[c], off, j);
        lemma_child_entry(n, c, (off + j) as int);
    }
}

/// Every entry of a well-formed tree is well formed.
pub proof fn lemma_wf_at(n: Node, i: nat)
    requires
        n.wf(),
        i < n.count(),
    ensures
        n.at(i as int).wf(),
    decreases n,
{
    lemma_count(n);
    if i > 0 {
        let s = n.children;
        let c = child_at(s, s.len(), (i - 1) as nat);
        lemma_child_at(s, s.len(), (i - 1) as nat);
        let j = (i - 1 - Node::count_first(s, c as nat)) as nat;
        lemma_child_entry(n, c, j as int);
        assert(s[c].wf());
        lemma_wf_at(s[c], j);
    }
}

/// A well-formed entry stays well formed when a child is taken out.
pub proof fn lemma_without_child_wf(p: Node, k: int)
    requires
        p.wf(),
        0 <= k < p.children.len(),
    ensures
        p.without_child(k).wf(),
{
    let s = p.children;
    let t = p.without_child(k).children;
    assert forall|a: int, b: int| 0 <= a < b < t.len() implies !before(
        #[trigger] t[b],
        #[trigger] t[a],
    ) by {
        let a0 = if a < k { a } else { a + 1 };
        let b0 = if b < k { b } else { b + 1 };
        assert(!before(s[b0], s[a0]));
    }
    assert forall|a: int| 0 <= a < t.len() implies (#[trigger] t[a]).wf() by {
        let a0 = if a < k { a } else { a + 1 };
        assert(s[a0].wf());
    }
}

/// A well-formed entry stays well formed when a well-formed entry that does
/// not come before its child at `k` is put in after that child, before the
/// first later child that comes strictly after it.
pub proof fn lemma_with_child_wf(p: Node, k: int, x: Node)
    requires
        p.wf(),
        x.wf(),
        0 <= k < p.children.len(),
        !before(x, p.children[k]),
    ensures
        k < insert_pos(p.children, x, (k + 1) as nat) <= p.children.len(),
        p.with_child(insert_pos(p.children, x, (k + 1) as nat) as int, x).wf(),
{
    let s = p.children;
    let q = insert_pos(s, x, (k + 1) as nat) as int;
    lemma_insert_pos(s, x, (k + 1) as nat);
    let t = s.insert(q, x);
    assert forall|a: int, b: int| 0 <= a < b < t.len() implies !before(
        #[trigger] t[b],
        #[trigger] t[a],
    ) by {
        if a == q {
            if before(s[b - 1], x) {
                lemma_before_transitive(s[b - 1], x, s[q]);
                if b - 1 == q {
                    lemma_before_irreflexive(s[q]);
                } else {
                    assert(!before(s[b - 1], s[q]));
                }
            }
        } else if b == q {
            if a < k {
                assert(!before(s[k], s[a]));
                lemma_not_after_transitive(s[a], s[k], x);
            } else if a > k {
                assert(!before(x, s[a]));
            }
        } else {
            let a0 = if a < q { a } else { a - 1 };
            let b0 = if b < q { b } else { b - 1 };
            assert(!before(s[b0], s[a0]));
        }
    }
    assert forall|a: int| 0 <= a < t.len() implies (#[trigger] t[a]).wf() by {
        if a != q {
            let a0 = if a < q { a } else { a - 1 };
            assert(s[a0].wf());
        }
    }
}

/// Putting an entry beside another raises the count of the tree by what
/// the entry holds and leaves the root what it was. Where the entry is
/// well formed and does not come before the one it is put beside, a
/// well-formed tree stays well formed.
pub proof fn lemma_beside(n: Node, i: nat, x: Node)
    requires
        0 < i < n.count(),
    ensures
        n.beside(i, x).count() == n.count() + x.count(),
        n.beside(i, x).name == n.name,
        n.beside(i, x).path == n.path,
        n.beside(i, x).is_dir == n.is_dir,
        n.beside(i, x).is_expanded == n.is_expanded,
        n.wf() && x.wf() && !before(x, n.at(i as int)) ==> n.beside(i, x).wf(),
{
    let (p, k) = n.owner(i);
    let parent = n.at(p as int);
    let at = insert_pos(parent.children, x, (k + 1) as nat) as int;
    lemma_owner(n, i);
    lemma_insert_pos(parent.children, x, (k + 1) as nat);
    lemma_replace(n, p, parent.with_child(at, x));
    lemma_count(parent);
    lemma_count(parent.with_child(at, x));
    lemma_count_first_insert(parent.children, at, x);
    if n.wf() && x.wf() && !before(x, n.at(i as int)) {
        lemma_wf_at(n, p);
        lemma_with_child_wf(parent, k, x);
    }
}

} // verus!
