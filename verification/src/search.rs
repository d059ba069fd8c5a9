//! Finding the first entry of a listing that has a given path.

use crate::model::{lemma_flat_first_shift, lemma_flat_shift, Node};
use vstd::prelude::*;

verus! {

/// The position of the first entry of a listing whose path is `path`, and
/// the length of the listing where there is none.
pub open spec fn index_of_path(f: Seq<(Node, nat)>, path: Seq<char>) -> nat
    decreases f.len(),
{
    if f.len() == 0 {
        0
    } else if f[0].0.path == path {
        0
    } else {
        1 + index_of_path(f.drop_first(), path)
    }
}

/// What `index_of_path` finds: a position up to the length; no entry before
/// it has the path, and the entry at it, if any, has.
pub proof fn lemma_index_of_path(f: Seq<(Node, nat)>, path: Seq<char>)
    ensures
        index_of_path(f, path) <= f.len(),
        index_of_path(f, path) < f.len() ==> f[index_of_path(f, path) as int].0.path == path,
        forall|j: int| 0 <= j < index_of_path(f, path) ==> (#[trigger] f[j]).0.path != path,
    decreases f.len(),
{
    if f.len() > 0 && f[0].0.path != path {
        let g = f.drop_first();
        lemma_index_of_path(g, path);
        assert forall|j: int| 0 <= j < index_of_path(f, path) implies (#[trigger] f[j]).0.path
            != path by {
            if j > 0 {
                assert(f[j] == g[j - 1]);
            }
        }
    }
}

/// The first entry with a path in two listings joined is the first in the
/// first listing, or else the first in the second.
pub proof fn lemma_index_of_path_joined(a: Seq<(Node, nat)>, b: Seq<(Node, nat)>, path: Seq<char>)
    ensures
        index_of_path(a + b, path) == if index_of_path(a, path) < a.len() {
            index_of_path(a, path)
        } else {
            a.len() + index_of_path(b, path)
        },
    decreases a.len(),
{
    lemma_index_of_path(a, path);
    if a.len() == 0 {
        assert(a + b =~= b);
    } else {
        assert((a + b).drop_first() =~= a.drop_first() + b);
        if a[0].0.path != path {
            lemma_index_of_path_joined(a.drop_first(), b, path);
        }
    }
}

/// Two listings that hold the same entries, whatever their depths, have the
/// first entry with a path at the same position.
pub proof fn lemma_index_of_path_entries(f: Seq<(Node, nat)>, g: Seq<(Node, nat)>, path: Seq<char>)
    requires
        f.len() == g.len(),
        forall|i: int| 0 <= i < f.len() ==> (#[trigger] f[i]).0 == g[i].0,
    ensures
        index_of_path(f, path) == index_of_path(g, path),
    decreases f.len(),
{
    if f.len() > 0 {
        assert(f[0].0 == g[0].0);
        let (f1, g1) = (f.drop_first(), g.drop_first());
        assert forall|i: int| 0 <= i < f1.len() implies (#[trigger] f1[i]).0 == g1[i].0 by {
            assert(f[i + 1].0 == g[i + 1].0);
        }
        lemma_index_of_path_entries(f1, g1, path);
    }
}

/// Where none of the first `k` entries of `s` holds the path, their listing
/// does not.
pub proof fn lemma_flat_first_lacks(s: Seq<Node>, k: nat, d: nat, path: Seq<char>)
    requires
        k <= s.len(),
        forall|j: int| 0 <= j < k ==> !(#[trigger] s[j]).has(path),
    ensures
        index_of_path(Node::flat_first(s, k, d), path) == Node::flat_first(s, k, d).len(),
    decreases k,
{
    if k > 0 {
        lemma_flat_first_lacks(s, (k - 1) as nat, d, path);
        lemma_flat_shift(s[k - 1], d, 0);
        lemma_index_of_path_entries(s[k - 1].flat(d), s[k - 1].flat(0), path);
        lemma_index_of_path_joined(Node::flat_first(s, (k - 1) as nat, d), s[k - 1].flat(d), path);
        assert(!s[k - 1].has(path));
        lemma_index_of_path(s[k - 1].flat(0), path);
    }
}

/// Where the entry of `s` at `i` is the first to hold the path, the listing
/// of the first `k` entries has it where that entry's own listing has it,
/// after the listings of the entries before.
pub proof fn lemma_flat_first_finds(s: Seq<Node>, i: int, k: nat, d: nat, path: Seq<char>)
    requires
        0 <= i < k <= s.len(),
        forall|j: int| 0 <= j < i ==> !(#[trigger] s[j]).has(path),
        s[i].has(path),
    ensures
        index_of_path(Node::flat_first(s, k, d), path) == Node::count_first(s, i as nat) + s[i].find(
            path,
        ),
        index_of_path(Node::flat_first(s, k, d), path) < Node::flat_first(s, k, d).len(),
    decreases k,
{
    let a = Node::flat_first(s, (k - 1) as nat, d);
    lemma_index_of_path_joined(a, s[k - 1].flat(d), path);
    lemma_flat_first_shift(s, (k - 1) as nat, d, 0);
    if i < k - 1 {
        lemma_flat_first_finds(s, i, (k - 1) as nat, d, path);
    } else {
        lemma_flat_first_lacks(s, (k - 1) as nat, d, path);
        lemma_flat_shift(s[i], d, 0);
        lemma_index_of_path_entries(s[i].flat(d), s[i].flat(0), path);
    }
}

/// An entry that has the path is itself the first in its listing that has it.
pub proof fn lemma_find_here(n: Node, path: Seq<char>)
    requires
        n.path == path,
    ensures
        n.find(path) == 0,
        n.has(path),
{
}

/// Under an entry that does not have the path itself, the first child that
/// holds the path holds the first entry that has it; and where no child
/// holds it, nothing does.
pub proof fn lemma_find(n: Node, path: Seq<char>, i: int)
    requires
        n.path != path,
        0 <= i <= n.children.len(),
        forall|j: int| 0 <= j < i ==> !(#[trigger] n.children[j]).has(path),
        i < n.children.len() ==> n.children[i].has(path),
    ensures
        i < n.children.len() ==> n.find(path) == 1 + Node::count_first(n.children, i as nat)
            + n.children[i].find(path) && n.has(path),
        i == n.children.len() ==> !n.has(path),
{
    let head = seq![(n, 0nat)];
    let rest = Node::flat_first(n.children, n.children.len(), 1);
    lemma_index_of_path_joined(head, rest, path);
    assert(index_of_path(head, path) == 1) by {
        assert(head.drop_first() =~= Seq::empty());
        reveal_with_fuel(index_of_path, 2);
    }
    if i < n.children.len() {
        lemma_flat_first_finds(n.children, i, n.children.len(), 1, path);
    } else {
        lemma_flat_first_lacks(n.children, n.children.len(), 1, path);
    }
}

} // verus!
