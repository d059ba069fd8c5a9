//! The lines of a tree as a panel shows them, and what replacing, putting in
//! and taking out an entry does to them.

use crate::model::{
    lemma_child_entry, lemma_count, lemma_flat_first_shift, lemma_flat_shift, lemma_replace_first,
    Node,
};
use crate::replace::{child_at, lemma_child_at, lemma_replace, lemma_replace_same};
use vstd::prelude::*;

verus! {

/// One line of the tree as it is shown: what the entry is, and how deep
/// it lies.
pub struct Row {
    pub name: Seq<char>,
    pub path: Seq<char>,
    pub is_dir: bool,
    pub is_expanded: bool,
    pub depth: nat,
}

/// The lines that a listing shows.
pub open spec fn rows_of(f: Seq<(Node, nat)>) -> Seq<Row> {
    Seq::new(f.len(), |i: int| f[i].0.row(f[i].1))
}

impl Node {
    /// The line of the entry itself, where it lies at `depth`.
    pub open spec fn row(self, depth: nat) -> Row {
        Row {
            name: self.name,
            path: self.path,
            is_dir: self.is_dir,
            is_expanded: self.is_expanded,
            depth,
        }
    }

    /// The lines of the subtree under `self`, where `self` lies at `depth`.
    pub open spec fn rows(self, depth: nat) -> Seq<Row> {
        rows_of(self.flat(depth))
    }
}

/// The pre-order listings of the entries of `s` from `a` up to `k`, one
/// after the other, each starting at `depth`.
pub open spec fn flat_range(s: Seq<Node>, a: nat, k: nat, depth: nat) -> Seq<(Node, nat)>
    decreases k,
{
    if k <= a || k > s.len() {
        Seq::empty()
    } else {
        flat_range(s, a, (k - 1) as nat, depth) + s[k - 1].flat(depth)
    }
}

/// The listing of the first `k` entries is the listing of the entries from
/// the first up to `k`.
pub proof fn lemma_flat_range_first(s: Seq<Node>, k: nat, d: nat)
    requires
        k <= s.len(),
    ensures
        Node::flat_first(s, k, d) == flat_range(s, 0, k, d),
    decreases k,
{
    if k > 0 {
        lemma_flat_range_first(s, (k - 1) as nat, d);
    }
}

/// A listing of entries from `a` up to `k` is the listing up to `b`
/// followed by the listing from `b`.
pub proof fn lemma_flat_range_split(s: Seq<Node>, a: nat, b: nat, k: nat, d: nat)
    requires
        a <= b <= k <= s.len(),
    ensures
        flat_range(s, a, k, d) == flat_range(s, a, b, d) + flat_range(s, b, k, d),
    decreases k,
{
    if k > b {
        lemma_flat_range_split(s, a, b, (k - 1) as nat, d);
        assert(flat_range(s, a, k, d) =~= flat_range(s, a, b, d) + flat_range(s, b, k, d));
    } else {
        assert(flat_range(s, a, k, d) =~= flat_range(s, a, b, d) + flat_range(s, b, k, d));
    }
}

/// Two sequences that hold the same entries over a range, the one `by`
/// positions later than the other, have the same listing over it.
pub proof fn lemma_flat_range_moved(s: Seq<Node>, t: Seq<Node>, a: nat, k: nat, by: nat, d: nat)
    requires
        a <= k <= s.len(),
        k + by <= t.len(),
        forall|j: int| a <= j < k ==> s[j] == t[j + by],
    ensures
        flat_range(s, a, k, d) == flat_range(t, a + by, k + by, d),
    decreases k,
{
    if k > a {
        lemma_flat_range_moved(s, t, a, (k - 1) as nat, by, d);
        assert(s[k - 1] == t[k - 1 + by]);
    }
}

/// The listing of an entry in four parts: the entry itself, the listings
/// of its children before the one at `c`, the listing of that child, and
/// the listings of the children after it.
pub proof fn lemma_flat_parts(n: Node, c: int, d: nat)
    requires
        0 <= c < n.children.len(),
    ensures
        n.flat(d) == seq![(n, d)] + flat_range(n.children, 0, c as nat, d + 1)
            + n.children[c].flat(d + 1) + flat_range(
            n.children,
            (c + 1) as nat,
            n.children.len(),
            d + 1,
        ),
{
    let s = n.children;
    lemma_flat_range_first(s, s.len(), d + 1);
    lemma_flat_range_split(s, 0, (c + 1) as nat, s.len(), d + 1);
    assert(n.flat(d) =~= seq![(n, d)] + flat_range(s, 0, c as nat, d + 1) + s[c].flat(d + 1)
        + flat_range(s, (c + 1) as nat, s.len(), d + 1));
}

/// The lines of two listings joined are the lines of the one followed by
/// the lines of the other.
pub proof fn lemma_rows_joined(a: Seq<(Node, nat)>, b: Seq<(Node, nat)>)
    ensures
        rows_of(a + b) == rows_of(a) + rows_of(b),
{
    assert(rows_of(a + b) =~= rows_of(a) + rows_of(b));
}

/// Replacing the entry at a position of the listing replaces its lines,
/// and those of all below it, by the lines of the new entry at the same
/// depth. The lines before and after stay as they are.
pub proof fn lemma_replace_rows(n: Node, i: nat, new: Node, d: nat)
    requires
        i < n.count(),
    ensures
        i + n.at(i as int).count() <= n.flat(d).len(),
        n.replace(i, new).rows(d) == n.rows(d).take(i as int) + new.rows(n.flat(d)[i as int].1)
            + n.rows(d).skip((i + n.at(i as int).count()) as int),
    decreases n,
{
    lemma_count(n);
    lemma_flat_shift(n, d, 0);
    lemma_replace(n, i, new);
    if i == 0 {
        assert(n.replace(i, new).rows(d) =~= n.rows(d).take(0) + new.rows(d) + n.rows(d).skip(
            n.count() as int,
        ));
    } else {
        let s = n.children;
        let c = child_at(s, s.len(), (i - 1) as nat);
        lemma_child_at(s, s.len(), (i - 1) as nat);
        let j = (i - 1 - Node::count_first(s, c as nat)) as nat;
        let x = s[c].replace(j, new);
        let m = n.replace(i, new);
        let t = s.update(c, x);
        lemma_replace_first(s, c, s.len(), j, new);
        lemma_child_entry(n, c, j as int);
        lemma_replace(s[c], j, new);
        lemma_replace_rows(s[c], j, new, d + 1);
        lemma_flat_parts(n, c, d);
        lemma_flat_parts(m, c, d);
        lemma_flat_range_moved(s, t, 0, c as nat, 0, d + 1);
        lemma_flat_range_moved(s, t, (c + 1) as nat, s.len(), 0, d + 1);
        lemma_flat_range_first(s, c as nat, d + 1);
        lemma_flat_first_shift(s, c as nat, d + 1, 0);
        lemma_flat_shift(s[c], d + 1, 0);

        let head = seq![(n, d)];
        let head_m = seq![(m, d)];
        let f0 = flat_range(s, 0, c as nat, d + 1);
        let a = s[c].flat(d + 1);
        let a_m = x.flat(d + 1);
        let f2 = flat_range(s, (c + 1) as nat, s.len(), d + 1);
        let cnt = n.at(i as int).count();
        let lines = new.rows(a[j as int].1);

        assert(rows_of(head_m) =~= rows_of(head));
        lemma_rows_joined(head, f0);
        lemma_rows_joined(head + f0, a);
        lemma_rows_joined(head + f0 + a, f2);
        lemma_rows_joined(head_m, f0);
        lemma_rows_joined(head_m + f0, a_m);
        lemma_rows_joined(head_m + f0 + a_m, f2);
        assert(n.flat(d)[i as int] == a[j as int]);
        let before = rows_of(head) + rows_of(f0);
        assert(n.rows(d).take(i as int) =~= before + rows_of(a).take(j as int));
        assert(n.rows(d).skip((i + cnt) as int) =~= rows_of(a).skip((j + cnt) as int) + rows_of(f2));
        assert(m.rows(d) =~= before + (rows_of(a).take(j as int) + lines + rows_of(a).skip(
            (j + cnt) as int,
        )) + rows_of(f2));
        assert(m.rows(d) =~= n.rows(d).take(i as int) + lines + n.rows(d).skip((i + cnt) as int));
    }
}

/// The lines of an entry of the tree, and of all below it, stand together
/// in the lines of the tree, from the entry's position on.
pub proof fn lemma_subtree_rows(n: Node, i: nat, d: nat)
    requires
        i < n.count(),
    ensures
        i + n.at(i as int).count() <= n.flat(d).len(),
        n.at(i as int).rows(n.flat(d)[i as int].1) == n.rows(d).subrange(
            i as int,
            (i + n.at(i as int).count()) as int,
        ),
{
    let sub = n.at(i as int);
    let depth = n.flat(d)[i as int].1;
    lemma_replace_same(n, i);
    lemma_replace_rows(n, i, sub, d);
    lemma_flat_shift(sub, depth, 0);
    assert(sub.rows(depth) =~= n.rows(d).subrange(i as int, (i + sub.count()) as int));
}

/// The lines of a child, and of all below it, stand together in the lines
/// of its parent, from where the child's listing starts.
pub proof fn lemma_child_rows(p: Node, k: int, d: nat)
    requires
        0 <= k < p.children.len(),
    ensures
        p.child_start(k) + p.children[k].count() <= p.flat(d).len(),
        p.rows(d).subrange(p.child_start(k), p.child_start(k) + p.children[k].count())
            == p.children[k].rows(d + 1),
{
    let s = p.children;
    lemma_flat_parts(p, k, d);
    lemma_flat_range_first(s, k as nat, d + 1);
    lemma_flat_first_shift(s, k as nat, d + 1, 0);
    lemma_flat_shift(s[k], d + 1, 0);
    let before = seq![(p, d)] + flat_range(s, 0, k as nat, d + 1);
    let after = flat_range(s, (k + 1) as nat, s.len(), d + 1);
    assert(p.flat(d) =~= before + s[k].flat(d + 1) + after);
    assert(p.flat(d).subrange(before.len() as int, (before.len() + s[k].count()) as int)
        =~= s[k].flat(d + 1));
    assert(p.rows(d).subrange(p.child_start(k), p.child_start(k) + s[k].count()) =~= s[k].rows(
        d + 1,
    ));
}

/// Putting a child into an entry puts the child's lines into the lines of
/// the entry, after the lines of the children before it.
pub proof fn lemma_with_child_rows(p: Node, at: int, x: Node, d: nat)
    requires
        0 <= at <= p.children.len(),
    ensures
        p.child_start(at) <= p.flat(d).len(),
        p.with_child(at, x).rows(d) == p.rows(d).take(p.child_start(at)) + x.rows(d + 1)
            + p.rows(d).skip(p.child_start(at)),
{
    let s = p.children;
    let m = p.with_child(at, x);
    let t = m.children;
    let q = p.child_start(at);
    lemma_flat_parts(m, at, d);
    lemma_flat_range_moved(s, t, 0, at as nat, 0, d + 1);
    lemma_flat_range_moved(s, t, at as nat, s.len(), 1, d + 1);
    lemma_flat_range_first(s, s.len(), d + 1);
    lemma_flat_range_first(s, at as nat, d + 1);
    lemma_flat_range_split(s, 0, at as nat, s.len(), d + 1);
    lemma_flat_first_shift(s, at as nat, d + 1, 0);
    let f0 = flat_range(s, 0, at as nat, d + 1);
    let f2 = flat_range(s, at as nat, s.len(), d + 1);
    assert(p.flat(d) =~= seq![(p, d)] + f0 + f2);
    assert(m.flat(d) =~= seq![(m, d)] + f0 + x.flat(d + 1) + f2);
    assert(rows_of(seq![(m, d)]) =~= rows_of(seq![(p, d)]));
    lemma_rows_joined(seq![(p, d)], f0);
    lemma_rows_joined(seq![(p, d)] + f0, f2);
    lemma_rows_joined(seq![(m, d)], f0);
    lemma_rows_joined(seq![(m, d)] + f0, x.flat(d + 1));
    lemma_rows_joined(seq![(m, d)] + f0 + x.flat(d + 1), f2);
    let before = rows_of(seq![(p, d)]) + rows_of(f0);
    assert(p.rows(d).take(q) =~= before);
    assert(p.rows(d).skip(q) =~= rows_of(f2));
}

/// Taking a child out of an entry takes the child's lines out of the lines
/// of the entry.
pub proof fn lemma_without_child_rows(p: Node, k: int, d: nat)
    requires
        0 <= k < p.children.len(),
    ensures
        p.child_start(k) + p.children[k].count() <= p.flat(d).len(),
        p.without_child(k).rows(d) == p.rows(d).take(p.child_start(k)) + p.rows(d).skip(
            p.child_start(k) + p.children[k].count(),
        ),
{
    let m = p.without_child(k);
    let x = p.children[k];
    let q = p.child_start(k);
    assert(m.children.insert(k, x) =~= p.children);
    assert(m.with_child(k, x) == p);
    lemma_with_child_rows(m, k, x, d);
    lemma_flat_range_first(p.children, k as nat, 0);
    lemma_flat_range_first(m.children, k as nat, 0);
    lemma_flat_range_moved(p.children, m.children, 0, k as nat, 0, 0);
    lemma_flat_shift(x, d + 1, 0);
    assert(p.rows(d).take(q) =~= m.rows(d).take(q));
    assert(p.rows(d).skip(q + x.count()) =~= m.rows(d).skip(q));
    assert(m.rows(d) =~= m.rows(d).take(q) + m.rows(d).skip(q));
}

} // verus!
