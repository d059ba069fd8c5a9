//! The display order of entries, and sorting by it.

use crate::model::Node;
use crate::text::{lemma_lex_irreflexive, lemma_lex_total, lemma_lex_transitive, lex_lt, lowercase_of};
use std::cmp::Ordering;
use vstd::prelude::*;

verus! {

/// The display order on kinds and lower-cased names: the first comes
/// strictly before the second where it is a directory and the second is
/// not, or where both are of one kind and its lower-cased name comes before
/// the second's.
pub open spec fn before_lowered(
    a_is_dir: bool,
    a_lower: Seq<char>,
    b_is_dir: bool,
    b_lower: Seq<char>,
) -> bool {
    if a_is_dir != b_is_dir {
        a_is_dir
    } else {
        lex_lt(a_lower, b_lower)
    }
}

/// How the first stands to the second in the display order on kinds and
/// lower-cased names.
pub open spec fn ordering_lowered(
    a_is_dir: bool,
    a_lower: Seq<char>,
    b_is_dir: bool,
    b_lower: Seq<char>,
) -> Ordering {
    if before_lowered(a_is_dir, a_lower, b_is_dir, b_lower) {
        Ordering::Less
    } else if before_lowered(b_is_dir, b_lower, a_is_dir, a_lower) {
        Ordering::Greater
    } else {
        Ordering::Equal
    }
}

/// The display order: `a` comes strictly before `b` where `a` is a directory
/// and `b` is not, or where both are of one kind and the lower-cased name of
/// `a` comes before that of `b`.
pub open spec fn before(a: Node, b: Node) -> bool {
    before_lowered(a.is_dir, lowercase_of(a.name), b.is_dir, lowercase_of(b.name))
}

/// How `a` stands to `b` in display order.
pub open spec fn ordering(a: Node, b: Node) -> Ordering {
    ordering_lowered(a.is_dir, lowercase_of(a.name), b.is_dir, lowercase_of(b.name))
}

/// No entry of `s` comes strictly before an earlier one.
pub open spec fn sorted(s: Seq<Node>) -> bool {
    forall|i: int, j: int| 0 <= i < j < s.len() ==> !before(#[trigger] s[j], #[trigger] s[i])
}

/// The first position at or after `from` whose entry comes strictly after
/// `x`, and `s.len()` where there is none.
pub open spec fn insert_pos(s: Seq<Node>, x: Node, from: nat) -> nat
    decreases s.len() - from,
{
    if from >= s.len() {
        s.len()
    } else if before(x, s[from as int]) {
        from
    } else {
        insert_pos(s, x, from + 1)
    }
}

/// The first position whose entry is `x`, and `s.len()` where there is none.
pub open spec fn position_of(s: Seq<Node>, x: Node, from: nat) -> nat
    decreases s.len() - from,
{
    if from >= s.len() {
        s.len()
    } else if s[from as int] == x {
        from
    } else {
        position_of(s, x, from + 1)
    }
}

/// `s` with `x` put in before the first entry that comes strictly after it.
pub open spec fn insert_sorted(s: Seq<Node>, x: Node) -> Seq<Node> {
    s.insert(insert_pos(s, x, 0) as int, x)
}

/// `s` in display order, entries that compare equal in the order they had.
pub open spec fn sort(s: Seq<Node>) -> Seq<Node>
    decreases s.len(),
{
    if s.len() == 0 {
        s
    } else {
        insert_sorted(sort(s.drop_last()), s.last())
    }
}

/// No entry comes before itself.
pub proof fn lemma_before_irreflexive(a: Node)
    ensures
        !before(a, a),
{
    lemma_lex_irreflexive(lowercase_of(a.name));
}

/// The display order is transitive.
pub proof fn lemma_before_transitive(a: Node, b: Node, c: Node)
    requires
        before(a, b),
        before(b, c),
    ensures
        before(a, c),
{
    if a.is_dir == b.is_dir && b.is_dir == c.is_dir {
        lemma_lex_transitive(lowercase_of(a.name), lowercase_of(b.name), lowercase_of(c.name));
    }
}

/// Where `a` does not come after `b`, nor `b` after `c`, `a` does not come
/// after `c`.
pub proof fn lemma_not_after_transitive(a: Node, b: Node, c: Node)
    requires
        !before(b, a),
        !before(c, b),
    ensures
        !before(c, a),
{
    let (x, y, z) = (lowercase_of(a.name), lowercase_of(b.name), lowercase_of(c.name));
    if a.is_dir == b.is_dir && b.is_dir == c.is_dir && lex_lt(z, x) {
        lemma_lex_total(x, y);
        lemma_lex_total(y, z);
        if lex_lt(x, y) {
            lemma_lex_transitive(z, x, y);
        } else if lex_lt(y, z) {
            lemma_lex_transitive(y, z, x);
        }
    }
}

/// What `insert_pos` finds: a position in range, no entry from `from` up to
/// it comes strictly after `x`, and the entry at it, if any, does.
pub proof fn lemma_insert_pos(s: Seq<Node>, x: Node, from: nat)
    requires
        from <= s.len(),
    ensures
        from <= insert_pos(s, x, from) <= s.len(),
        forall|j: int| from <= j < insert_pos(s, x, from) ==> !before(x, #[trigger] s[j]),
        insert_pos(s, x, from) < s.len() ==> before(x, s[insert_pos(s, x, from) as int]),
    decreases s.len() - from,
{
    if from < s.len() && !before(x, s[from as int]) {
        lemma_insert_pos(s, x, from + 1);
    }
}

/// Putting an entry into a sorted sequence at its place keeps it sorted.
pub proof fn lemma_insert_sorted(s: Seq<Node>, x: Node)
    requires
        sorted(s),
    ensures
        sorted(insert_sorted(s, x)),
{
    let p = insert_pos(s, x, 0) as int;
    lemma_insert_pos(s, x, 0);
    let t = insert_sorted(s, x);
    assert forall|i: int, j: int| 0 <= i < j < t.len() implies !before(
        #[trigger] t[j],
        #[trigger] t[i],
    ) by {
        if i == p {
            // t[j] is s[j - 1], at or after s[p], which comes after x
            if before(s[j - 1], x) {
                lemma_before_transitive(s[j - 1], x, s[p]);
                if j - 1 == p {
                    lemma_before_irreflexive(s[p]);
                }
            }
        } else if j == p {
            assert(!before(x, s[i]));
        } else {
            let a = if i < p { i } else { i - 1 };
            let b = if j < p { j } else { j - 1 };
            assert(!before(s[b], s[a]));
        }
    }
}

/// Sorting yields a sorted sequence.
pub proof fn lemma_sort_sorted(s: Seq<Node>)
    ensures
        sorted(sort(s)),
        sort(s).len() == s.len(),
    decreases s.len(),
{
    if s.len() > 0 {
        lemma_sort_sorted(s.drop_last());
        lemma_insert_sorted(sort(s.drop_last()), s.last());
        lemma_insert_pos(sort(s.drop_last()), s.last(), 0);
    }
}

/// Sorting keeps every entry, as often as it occurred.
pub proof fn lemma_sort_permutes(s: Seq<Node>)
    ensures
        sort(s).to_multiset() == s.to_multiset(),
    decreases s.len(),
{
    broadcast use vstd::seq_lib::group_to_multiset_ensures;

    if s.len() > 0 {
        let t = sort(s.drop_last());
        let x = s.last();
        let p = insert_pos(t, x, 0) as int;
        lemma_sort_permutes(s.drop_last());
        lemma_sort_sorted(s.drop_last());
        lemma_insert_pos(t, x, 0);
        let u = t.insert(p, x);
        assert(u.remove(p) =~= t);
        assert(u[p] == x);
        assert(u.to_multiset().remove(x) == t.to_multiset());
        assert(u.to_multiset().count(x) > 0) by {
            assert(u.contains(x));
        }
        assert(u.to_multiset() =~= t.to_multiset().insert(x));
        assert(s =~= s.drop_last().push(x));
        assert(s.to_multiset() =~= s.drop_last().to_multiset().insert(x));
    }
}

/// Sorting a sorted sequence changes nothing.
pub proof fn lemma_sort_fixed(s: Seq<Node>)
    requires
        sorted(s),
    ensures
        sort(s) == s,
    decreases s.len(),
{
    if s.len() > 0 {
        let t = s.drop_last();
        assert(sorted(t)) by {
            assert forall|i: int, j: int| 0 <= i < j < t.len() implies !before(
                #[trigger] t[j],
                #[trigger] t[i],
            ) by {
                assert(!before(s[j], s[i]));
            }
        }
        lemma_sort_fixed(t);
        lemma_insert_pos(t, s.last(), 0);
        let p = insert_pos(t, s.last(), 0);
        if p < t.len() {
            assert(!before(s[s.len() - 1], s[p as int]));
            assert(t[p as int] == s[p as int]);
        }
        assert(t.insert(t.len() as int, s.last()) =~= s);
    }
}

/// What `position_of` finds: a position in range, no entry from `from` up
/// to it is `x`, and the entry at it, if any, is.
pub proof fn lemma_position_of(s: Seq<Node>, x: Node, from: nat)
    requires
        from <= s.len(),
    ensures
        from <= position_of(s, x, from) <= s.len(),
        forall|j: int| from <= j < position_of(s, x, from) ==> #[trigger] s[j] != x,
        position_of(s, x, from) < s.len() ==> s[position_of(s, x, from) as int] == x,
    decreases s.len() - from,
{
    if from < s.len() && s[from as int] != x {
        lemma_position_of(s, x, from + 1);
    }
}

/// Every entry of the sorted sequence is an entry of the sequence that was
/// sorted.
pub proof fn lemma_sort_members(s: Seq<Node>, i: int)
    requires
        0 <= i < s.len(),
    ensures
        sort(s).len() == s.len(),
        s.contains(sort(s)[i]),
{
    lemma_sort_sorted(s);
    lemma_sort_permutes(s);
    let x = sort(s)[i];
    assert(sort(s).contains(x));
    sort(s).to_multiset_ensures();
    s.to_multiset_ensures();
    assert(sort(s).to_multiset().count(x) > 0);
}

} // verus!
