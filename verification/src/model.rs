//! The mathematical value of a tree: entries with their children, the
//! pre-order listing, and the operations on entries as functions.

use crate::order::{insert_pos, position_of, sort, sorted};
use crate::search::index_of_path;
use vstd::prelude::*;

verus! {

/// The mathematical value of a tree entry: what the entry is, and the values
/// of its children in their stored order.
pub struct Node {
    pub name: Seq<char>,
    pub path: Seq<char>,
    pub is_dir: bool,
    pub is_expanded: bool,
    pub children: Seq<Node>,
}

/// Every entry of `s` is well formed.
pub open spec fn each_wf(s: Seq<Node>) -> bool {
    forall|i: int| 0 <= i < s.len() ==> (#[trigger] s[i]).wf()
}

impl Node {
    /// The pre-order listing of the subtree under `self`: each entry with its
    /// depth, where `self` has depth `depth` and a child is one deeper than
    /// its parent.
    pub open spec fn flat(self, depth: nat) -> Seq<(Node, nat)>
        decreases self, 0nat,
    {
        seq![(self, depth)] + Node::flat_first(self.children, self.children.len(), depth + 1)
    }

    /// The pre-order listings of the first `k` entries of `s`, one after the
    /// other, each starting at `depth`.
    pub open spec fn flat_first(s: Seq<Node>, k: nat, depth: nat) -> Seq<(Node, nat)>
        decreases s, k,
    {
        if k == 0 || k > s.len() {
            Seq::empty()
        } else {
            Node::flat_first(s, (k - 1) as nat, depth) + s[k - 1].flat(depth)
        }
    }

    /// The number of entries in the subtree, `self` included.
    pub open spec fn count(self) -> nat {
        self.flat(0).len()
    }

    /// The number of entries in the subtrees of the first `k` entries of `s`.
    pub open spec fn count_first(s: Seq<Node>, k: nat) -> nat {
        Node::flat_first(s, k, 0).len()
    }

    /// The position in the pre-order listing of `self` at which the listing
    /// of its child at `k` starts, or would start if there were one.
    pub open spec fn child_start(self, k: int) -> int {
        1 + Node::count_first(self.children, k as nat) as int
    }

    /// The entry at position `i` of the pre-order listing.
    pub open spec fn at(self, i: int) -> Node
        recommends
            0 <= i < self.count(),
    {
        self.flat(0)[i].0
    }

    /// The depth of the entry at position `i` of the pre-order listing, where
    /// `self` has depth 0.
    pub open spec fn depth_at(self, i: int) -> nat
        recommends
            0 <= i < self.count(),
    {
        self.flat(0)[i].1
    }

    /// The entry as a directory whose listing was just read: expanded, with
    /// `entries` in display order as its children. An entry that is no
    /// directory stays as it is.
    pub open spec fn expanded(self, entries: Seq<Node>) -> Node {
        if self.is_dir {
            Node { is_expanded: true, children: sort(entries), ..self }
        } else {
            self
        }
    }

    /// The entry with its children let go.
    pub open spec fn collapsed(self) -> Node {
        Node { is_expanded: false, children: Seq::empty(), ..self }
    }

    /// The entry without its child at `k`.
    pub open spec fn without_child(self, k: int) -> Node {
        Node { children: self.children.remove(k), ..self }
    }

    /// The entry with `x` put in as its child at `k`.
    pub open spec fn with_child(self, k: int, x: Node) -> Node {
        Node { children: self.children.insert(k, x), ..self }
    }

    /// Where the tree holds a given child under a given path: the position
    /// of the first entry whose path is `parent_path`, and the index of the
    /// first child of that entry whose value is `child`. `None` where no
    /// entry has the path or the first that has it has no such child.
    pub open spec fn site(self, parent_path: Seq<char>, child: Node) -> Option<(nat, int)> {
        let j = self.find(parent_path);
        let k = position_of(self.at(j as int).children, child, 0);
        if self.has(parent_path) && k < self.at(j as int).children.len() {
            Some((j, k as int))
        } else {
            None
        }
    }

    /// The tree without the child that `site` finds, and the tree itself
    /// where it finds none.
    pub open spec fn detached(self, parent_path: Seq<char>, child: Node) -> Node {
        match self.site(parent_path, child) {
            Some((j, k)) => self.replace(j, self.at(j as int).without_child(k)),
            None => self,
        }
    }

    /// Whose child the entry at position `i` of the pre-order listing is:
    /// the position of its parent, and its index among the parent's
    /// children. Meant for a position after the first and within the
    /// listing.
    pub open spec fn owner(self, i: nat) -> (nat, int)
        decreases self, 0nat,
    {
        Node::owner_first(self.children, self.children.len(), (i - 1) as nat)
    }

    /// The same for the entry at position `i` of the listing of the first
    /// `k` entries of `s`, where the parent of those entries counts as
    /// standing at position 0, right before that listing.
    pub open spec fn owner_first(s: Seq<Node>, k: nat, i: nat) -> (nat, int)
        decreases s, k,
    {
        if k == 0 || k > s.len() {
            (0, 0)
        } else {
            let before = Node::count_first(s, (k - 1) as nat);
            if i < before {
                Node::owner_first(s, (k - 1) as nat, i)
            } else if i == before {
                (0, k - 1)
            } else {
                let (p, c) = s[k - 1].owner((i - before) as nat);
                (1 + before + p, c)
            }
        }
    }

    /// The tree with `x` put in among the siblings of the entry at position
    /// `i` of the pre-order listing: after that entry, before the first
    /// later sibling that comes strictly after `x` in display order, and
    /// at the end of the siblings where there is none. The tree itself
    /// where the position is that of the root, which has no siblings, or
    /// lies outside the listing.
    pub open spec fn beside(self, i: nat, x: Node) -> Node {
        if 0 < i < self.count() {
            let (p, k) = self.owner(i);
            let parent = self.at(p as int);
            let at = insert_pos(parent.children, x, (k + 1) as nat);
            self.replace(p, parent.with_child(at as int, x))
        } else {
            self
        }
    }

    /// The entry keeps what this library promises of every entry, and so
    /// does each entry below it: only a directory is expanded, only an
    /// expanded entry has children, and children stand in display order.
    pub open spec fn wf(self) -> bool
        decreases self,
    {
        &&& self.is_expanded ==> self.is_dir
        &&& !self.is_expanded ==> self.children.len() == 0
        &&& sorted(self.children)
        &&& forall|i: int| 0 <= i < self.children.len() ==> (#[trigger] self.children[i]).wf()
    }

    /// The position in the pre-order listing of the first entry whose path is
    /// `path`, and the length of the listing where there is none.
    pub open spec fn find(self, path: Seq<char>) -> nat {
        index_of_path(self.flat(0), path)
    }

    /// Whether an entry of the subtree has the path `path`.
    pub open spec fn has(self, path: Seq<char>) -> bool {
        self.find(path) < self.count()
    }

    /// The subtree with the entry at position `i` of the pre-order listing,
    /// and all below it, replaced by `new`. A position outside the listing
    /// replaces nothing.
    pub open spec fn replace(self, i: nat, new: Node) -> Node
        decreases self, 0nat,
    {
        if i == 0 {
            new
        } else {
            Node {
                children: Node::replace_first(
                    self.children,
                    self.children.len(),
                    (i - 1) as nat,
                    new,
                ),
                ..self
            }
        }
    }

    /// `s` with the entry at position `i` of the listing of its first `k`
    /// entries replaced by `new`.
    pub open spec fn replace_first(s: Seq<Node>, k: nat, i: nat, new: Node) -> Seq<Node>
        decreases s, k,
    {
        if k == 0 || k > s.len() {
            s
        } else {
            let before = Node::count_first(s, (k - 1) as nat);
            if i < before {
                Node::replace_first(s, (k - 1) as nat, i, new)
            } else {
                s.update(k - 1, s[k - 1].replace((i - before) as nat, new))
            }
        }
    }
}

/// The depth at which a listing starts shifts every depth in it and changes
/// nothing else.
pub proof fn lemma_flat_shift(n: Node, d: nat, e: nat)
    ensures
        n.flat(d).len() == n.flat(e).len(),
        forall|i: int|
            0 <= i < n.flat(d).len() ==> (#[trigger] n.flat(d)[i]).0 == n.flat(e)[i].0
                && n.flat(d)[i].1 - d == n.flat(e)[i].1 - e,
    decreases n, 0nat,
{
    lemma_flat_first_shift(n.children, n.children.len(), d + 1, e + 1);
}

/// The same for the listings of the first `k` entries of a sequence.
pub proof fn lemma_flat_first_shift(s: Seq<Node>, k: nat, d: nat, e: nat)
    ensures
        Node::flat_first(s, k, d).len() == Node::flat_first(s, k, e).len(),
        forall|i: int|
            0 <= i < Node::flat_first(s, k, d).len() ==> (#[trigger] Node::flat_first(s, k, d)[i]).0
                == Node::flat_first(s, k, e)[i].0 && Node::flat_first(s, k, d)[i].1 - d
                == Node::flat_first(s, k, e)[i].1 - e,
    decreases s, k,
{
    if !(k == 0 || k > s.len()) {
        lemma_flat_first_shift(s, (k - 1) as nat, d, e);
        lemma_flat_shift(s[k - 1], d, e);
    }
}

/// An entry counts for one, and each entry below it once.
pub proof fn lemma_count(n: Node)
    ensures
        n.count() == 1 + Node::count_first(n.children, n.children.len()),
{
    lemma_flat_first_shift(n.children, n.children.len(), 1, 0);
}

/// The counts of the first entries of a sequence grow with their number.
pub proof fn lemma_count_first_mono(s: Seq<Node>, i: nat, k: nat)
    requires
        i <= k <= s.len(),
    ensures
        Node::count_first(s, i) <= Node::count_first(s, k),
    decreases k - i,
{
    if i < k {
        lemma_count_first_mono(s, i, (k - 1) as nat);
    }
}

/// Where the listing of the entry at `i` lies within the listing of the
/// first `k` entries: right after the listings of the entries before it.
pub proof fn lemma_flat_first_entry(s: Seq<Node>, i: int, k: nat, d: nat, j: int)
    requires
        0 <= i < k <= s.len(),
        0 <= j < s[i].count(),
    ensures
        Node::count_first(s, i as nat) + j < Node::flat_first(s, k, d).len(),
        Node::flat_first(s, k, d)[Node::count_first(s, i as nat) + j] == s[i].flat(d)[j],
    decreases k,
{
    lemma_flat_first_shift(s, (k - 1) as nat, d, 0);
    lemma_flat_shift(s[k - 1], d, 0);
    if i < k - 1 {
        lemma_flat_first_entry(s, i, (k - 1) as nat, d, j);
    }
}

/// The entry at position `j` under the child at `i` is the entry of the
/// parent at the position that follows the parent itself and the listings of
/// the children before, and lies one deeper there.
pub proof fn lemma_child_entry(n: Node, i: int, j: int)
    requires
        0 <= i < n.children.len(),
        0 <= j < n.children[i].count(),
    ensures
        1 + Node::count_first(n.children, i as nat) + j < n.count(),
        n.at(1 + Node::count_first(n.children, i as nat) + j) == n.children[i].at(j),
        n.depth_at(1 + Node::count_first(n.children, i as nat) + j) == n.children[i].depth_at(j)
            + 1,
{
    lemma_flat_first_entry(n.children, i, n.children.len(), 1, j);
    lemma_flat_shift(n.children[i], 1, 0);
}

/// Replacing at a position that lies under the child at `i` replaces within
/// that child and leaves the other children as they are.
pub proof fn lemma_replace_first(s: Seq<Node>, i: int, k: nat, j: nat, new: Node)
    requires
        0 <= i < k <= s.len(),
        j < s[i].count(),
    ensures
        Node::replace_first(s, k, Node::count_first(s, i as nat) + j, new) == s.update(
            i,
            s[i].replace(j, new),
        ),
    decreases k,
{
    if i < k - 1 {
        lemma_count_first_mono(s, (i + 1) as nat, (k - 1) as nat);
        lemma_replace_first(s, i, (k - 1) as nat, j, new);
    }
}

} // verus!
