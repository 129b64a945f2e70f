//! What holds of the order of a tree: folders stand before files, each kind
//! stands by name, nothing is lost or made up, and only what is shown is in
//! the tree.

use vstd::prelude::*;
use vstd::seq_lib::{to_multiset_build, to_multiset_contains, to_multiset_len, to_multiset_remove};
use crate::tree::{
    insert_sorted, lex_le, node_le, shown, shown_nodes, sorted_nodes, tree_of, EntryView, NodeView,
};

verus! {

/// Whether each node of `s` may stand before all that follow it.
pub open spec fn ordered(s: Seq<NodeView>) -> bool {
    forall|i: int, j: int| 0 <= i < j < s.len() ==> node_le(#[trigger] s[i], #[trigger] s[j])
}

/// Whether the children of each folder in the tree are ordered.
pub open spec fn well_ordered(n: NodeView) -> bool
    decreases n,
{
    match n {
        NodeView::File { .. } => true,
        NodeView::Folder { children, .. } => ordered(children) && forall|i: int|
            0 <= i < children.len() ==> well_ordered(#[trigger] children[i]),
    }
}

/// Of two names, one is the other or comes before it.
pub proof fn lemma_lex_le_total(a: Seq<char>, b: Seq<char>)
    ensures
        lex_le(a, b) || lex_le(b, a),
    decreases a.len(),
{
    if a.len() > 0 && b.len() > 0 && a[0] == b[0] {
        lemma_lex_le_total(a.skip(1), b.skip(1));
    }
}

/// A name that comes before a second, which comes before a third, comes
/// before the third.
pub proof fn lemma_lex_le_transitive(a: Seq<char>, b: Seq<char>, c: Seq<char>)
    requires
        lex_le(a, b),
        lex_le(b, c),
    ensures
        lex_le(a, c),
    decreases a.len(),
{
    if a.len() > 0 && a[0] == b[0] && b[0] == c[0] {
        lemma_lex_le_transitive(a.skip(1), b.skip(1), c.skip(1));
    }
}

/// Two names of which each is the other or comes before it are one name.
pub proof fn lemma_lex_le_antisymmetric(a: Seq<char>, b: Seq<char>)
    requires
        lex_le(a, b),
        lex_le(b, a),
    ensures
        a == b,
    decreases a.len(),
{
    if a.len() > 0 {
        lemma_lex_le_antisymmetric(a.skip(1), b.skip(1));
        assert(a == seq![a[0]] + a.skip(1));
        assert(b == seq![b[0]] + b.skip(1));
    } else {
        assert(a =~= b);
    }
}

/// Of two nodes, one may stand before the other.
pub proof fn lemma_node_le_total(a: NodeView, b: NodeView)
    ensures
        node_le(a, b) || node_le(b, a),
{
    lemma_lex_le_total(a.name(), b.name());
}

/// A node that may stand before a second, which may stand before a third,
/// may stand before the third.
pub proof fn lemma_node_le_transitive(a: NodeView, b: NodeView, c: NodeView)
    requires
        node_le(a, b),
        node_le(b, c),
    ensures
        node_le(a, c),
{
    if (a is Folder && c is File) {
    } else {
        lemma_lex_le_transitive(a.name(), b.name(), c.name());
    }
}

/// Where `x` goes among ordered nodes: behind all that may stand before it,
/// and before the others.
pub proof fn lemma_insert_position(s: Seq<NodeView>, x: NodeView) -> (at: int)
    ensures
        0 <= at <= s.len(),
        insert_sorted(s, x) == s.insert(at, x),
        forall|j: int| at <= j < s.len() ==> !node_le(#[trigger] s[j], x),
        at == 0 || node_le(s[at - 1], x),
    decreases s.len(),
{
    if s.len() == 0 || node_le(s.last(), x) {
        assert(s.push(x) == s.insert(s.len() as int, x));
        s.len() as int
    } else {
        let t = s.drop_last();
        let at = lemma_insert_position(t, x);
        assert(t.insert(at, x).push(s.last()) == s.insert(at, x));
        assert forall|j: int| at <= j < s.len() implies !node_le(#[trigger] s[j], x) by {
            if j < t.len() {
                assert(t[j] == s[j]);
            }
        }
        if at > 0 {
            assert(t[at - 1] == s[at - 1]);
        }
        at
    }
}

/// Putting a node among ordered nodes leaves them ordered.
pub proof fn lemma_insert_keeps_order(s: Seq<NodeView>, x: NodeView)
    requires
        ordered(s),
    ensures
        ordered(insert_sorted(s, x)),
{
    let at = lemma_insert_position(s, x);
    let r = s.insert(at, x);
    assert forall|i: int, j: int| 0 <= i < j < r.len() implies node_le(
        #[trigger] r[i],
        #[trigger] r[j],
    ) by {
        if j < at {
            assert(r[i] == s[i] && r[j] == s[j]);
        } else if j == at {
            assert(r[i] == s[i]);
            if i < at - 1 {
                lemma_node_le_transitive(s[i], s[at - 1], x);
            }
        } else if i < at {
            assert(r[i] == s[i] && r[j] == s[j - 1]);
        } else if i == at {
            assert(r[j] == s[j - 1]);
            lemma_node_le_total(s[j - 1], x);
        } else {
            assert(r[i] == s[i - 1] && r[j] == s[j - 1]);
        }
    }
}

/// Sorted nodes are ordered: folders stand before files, and two of a kind
/// stand by name.
pub proof fn lemma_sorted_is_ordered(s: Seq<NodeView>)
    ensures
        ordered(sorted_nodes(s)),
    decreases s.len(),
{
    if s.len() > 0 {
        lemma_sorted_is_ordered(s.drop_last());
        lemma_insert_keeps_order(sorted_nodes(s.drop_last()), s.last());
    }
}

/// Putting a node among others adds that node and nothing else.
pub proof fn lemma_insert_adds_one(s: Seq<NodeView>, x: NodeView)
    ensures
        insert_sorted(s, x).to_multiset() =~= s.to_multiset().insert(x),
    decreases s.len(),
{
    if s.len() == 0 || node_le(s.last(), x) {
        to_multiset_build(s, x);
    } else {
        let t = s.drop_last();
        lemma_insert_adds_one(t, x);
        to_multiset_build(insert_sorted(t, x), s.last());
        to_multiset_build(t, s.last());
        assert(t.push(s.last()) == s);
    }
}

/// Sorting loses no node and makes none up: each node is in the result as
/// often as it was given.
pub proof fn lemma_sorted_is_permutation(s: Seq<NodeView>)
    ensures
        sorted_nodes(s).to_multiset() =~= s.to_multiset(),
        sorted_nodes(s).len() == s.len(),
    decreases s.len(),
{
    if s.len() > 0 {
        let t = s.drop_last();
        lemma_sorted_is_permutation(t);
        lemma_insert_adds_one(sorted_nodes(t), s.last());
        to_multiset_build(t, s.last());
        assert(t.push(s.last()) == s);
        lemma_insert_position(sorted_nodes(t), s.last());
    } else {
        assert(sorted_nodes(s) =~= s);
    }
}

/// Sorting nodes that are ordered already leaves them as they are.
pub proof fn lemma_sorted_of_ordered(s: Seq<NodeView>)
    requires
        ordered(s),
    ensures
        sorted_nodes(s) == s,
    decreases s.len(),
{
    if s.len() > 0 {
        let t = s.drop_last();
        assert forall|i: int, j: int| 0 <= i < j < t.len() implies node_le(
            #[trigger] t[i],
            #[trigger] t[j],
        ) by {
            assert(t[i] == s[i] && t[j] == s[j]);
        }
        lemma_sorted_of_ordered(t);
        if t.len() > 0 {
            assert(t.last() == s[t.len() - 1]);
            assert(node_le(s[t.len() - 1], s[s.len() - 1]));
        }
        assert(t.push(s.last()) == s);
    } else {
        assert(sorted_nodes(s) =~= s);
    }
}

/// Each of the nodes made from entries is the tree of an entry that is shown,
/// and the tree of each entry that is shown is among them.
pub proof fn lemma_shown_nodes_members(entries: Seq<EntryView>)
    ensures
        forall|n: NodeView| #[trigger]
            shown_nodes(entries).contains(n) <==> exists|k: int|
                0 <= k < entries.len() && shown(#[trigger] entries[k]) && tree_of(entries[k]) == n,
    decreases entries.len(),
{
    let all = shown_nodes(entries);
    if entries.len() == 0 {
        assert forall|n: NodeView| #[trigger] all.contains(n) <==> exists|k: int|
            0 <= k < entries.len() && shown(#[trigger] entries[k]) && tree_of(entries[k])
                == n by {
            if all.contains(n) {
                let i = choose|i: int| 0 <= i < all.len() && all[i] == n;
            }
        }
    } else {
        let front = entries.drop_last();
        let last = entries.last();
        lemma_shown_nodes_members(front);
        let before = shown_nodes(front);
        assert forall|n: NodeView| #[trigger] all.contains(n) <==> exists|k: int|
            0 <= k < entries.len() && shown(#[trigger] entries[k]) && tree_of(entries[k])
                == n by {
            if all.contains(n) {
                let i = choose|i: int| 0 <= i < all.len() && all[i] == n;
                if shown(last) && i == all.len() - 1 {
                    assert(shown(entries[entries.len() - 1]) && tree_of(
                        entries[entries.len() - 1],
                    ) == n);
                } else {
                    assert(before[i] == n);
                    assert(before.contains(n));
                    let k = choose|k: int|
                        0 <= k < front.len() && shown(#[trigger] front[k]) && tree_of(front[k])
                            == n;
                    assert(entries[k] == front[k]);
                }
            }
            if exists|k: int|
                0 <= k < entries.len() && shown(#[trigger] entries[k]) && tree_of(entries[k])
                    == n {
                let k = choose|k: int|
                    0 <= k < entries.len() && shown(#[trigger] entries[k]) && tree_of(entries[k])
                        == n;
                if k == entries.len() - 1 {
                    assert(all[all.len() - 1] == n);
                } else {
                    assert(front[k] == entries[k]);
                    assert(before.contains(n));
                    let i = choose|i: int| 0 <= i < before.len() && before[i] == n;
                    assert(all[i] == n);
                }
            }
        }
    }
}

/// The children of the folder made from a directory are the trees of its
/// entries that are shown, no others and each of them: a file that is not
/// marked as a request is nowhere among them.
pub proof fn lemma_children_are_shown(entries: Seq<EntryView>, n: NodeView)
    ensures
        sorted_nodes(shown_nodes(entries)).contains(n) <==> exists|k: int|
            0 <= k < entries.len() && shown(#[trigger] entries[k]) && tree_of(entries[k]) == n,
{
    let given = shown_nodes(entries);
    lemma_sorted_is_permutation(given);
    to_multiset_contains(given, n);
    to_multiset_contains(sorted_nodes(given), n);
    lemma_shown_nodes_members(entries);
    assert(given.contains(n) <==> sorted_nodes(given).contains(n));
}

/// In the tree of what a walk found, the children of every folder are
/// ordered: folders before files, and each kind by name.
pub proof fn lemma_tree_is_well_ordered(e: EntryView)
    ensures
        well_ordered(tree_of(e)),
    decreases e,
{
    match e {
        EntryView::File { .. } => {},
        EntryView::Dir { entries, .. } => {
            let children = sorted_nodes(shown_nodes(entries));
            lemma_sorted_is_ordered(shown_nodes(entries));
            assert forall|i: int| 0 <= i < children.len() implies well_ordered(
                #[trigger] children[i],
            ) by {
                let n = children[i];
                assert(children.contains(n));
                lemma_children_are_shown(entries, n);
                let k = choose|k: int|
                    0 <= k < entries.len() && shown(#[trigger] entries[k]) && tree_of(entries[k])
                        == n;
                lemma_tree_is_well_ordered(entries[k]);
            }
        },
    }
}

/// Whether no two different nodes of `s` may stand either way: no two of
/// them have one kind and one name.
pub open spec fn told_apart(s: Seq<NodeView>) -> bool {
    forall|i: int, j: int|
        0 <= i < s.len() && 0 <= j < s.len() && node_le(#[trigger] s[i], #[trigger] s[j])
            && node_le(s[j], s[i]) ==> s[i] == s[j]
}

/// Two ordered lists of the same nodes, no two of which may stand either way,
/// are one list.
pub proof fn lemma_ordered_is_unique(x: Seq<NodeView>, y: Seq<NodeView>)
    requires
        ordered(x),
        ordered(y),
        told_apart(x),
        x.to_multiset() == y.to_multiset(),
    ensures
        x == y,
    decreases x.len(),
{
    to_multiset_len(x);
    to_multiset_len(y);
    if x.len() == 0 {
        assert(x =~= y);
    } else {
        let x0 = x[0];
        let y0 = y[0];
        assert(x.contains(x0));
        assert(y.contains(y0));
        to_multiset_contains(x, x0);
        to_multiset_contains(y, x0);
        to_multiset_contains(x, y0);
        to_multiset_contains(y, y0);
        let j = choose|j: int| 0 <= j < y.len() && y[j] == x0;
        let i = choose|i: int| 0 <= i < x.len() && x[i] == y0;
        if i > 0 && j > 0 {
            assert(node_le(x[0], x[i]));
            assert(node_le(y[0], y[j]));
        }
        assert(x0 == y0);
        let xs = x.remove(0);
        let ys = y.remove(0);
        to_multiset_remove(x, 0);
        to_multiset_remove(y, 0);
        assert forall|a: int, b: int| 0 <= a < b < xs.len() implies node_le(
            #[trigger] xs[a],
            #[trigger] xs[b],
        ) by {
            assert(xs[a] == x[a + 1] && xs[b] == x[b + 1]);
        }
        assert forall|a: int, b: int| 0 <= a < b < ys.len() implies node_le(
            #[trigger] ys[a],
            #[trigger] ys[b],
        ) by {
            assert(ys[a] == y[a + 1] && ys[b] == y[b + 1]);
        }
        assert forall|a: int, b: int|
            0 <= a < xs.len() && 0 <= b < xs.len() && node_le(#[trigger] xs[a], #[trigger] xs[b])
                && node_le(xs[b], xs[a]) implies xs[a] == xs[b] by {
            assert(xs[a] == x[a + 1] && xs[b] == x[b + 1]);
        }
        lemma_ordered_is_unique(xs, ys);
        assert(x =~= seq![x0] + xs);
        assert(y =~= seq![y0] + ys);
    }
}

/// The order of the children of a folder does not depend on the order in
/// which the directory listed them, where no two of them have one kind and
/// one name: the same nodes, given in whatever order, are sorted alike.
pub proof fn lemma_sorted_ignores_order(a: Seq<NodeView>, b: Seq<NodeView>)
    requires
        a.to_multiset() == b.to_multiset(),
        told_apart(a),
    ensures
        sorted_nodes(a) == sorted_nodes(b),
{
    let x = sorted_nodes(a);
    let y = sorted_nodes(b);
    lemma_sorted_is_ordered(a);
    lemma_sorted_is_ordered(b);
    lemma_sorted_is_permutation(a);
    lemma_sorted_is_permutation(b);
    assert forall|i: int, j: int|
        0 <= i < x.len() && 0 <= j < x.len() && node_le(#[trigger] x[i], #[trigger] x[j])
            && node_le(x[j], x[i]) implies x[i] == x[j] by {
        assert(x.contains(x[i]));
        assert(x.contains(x[j]));
        to_multiset_contains(x, x[i]);
        to_multiset_contains(a, x[i]);
        to_multiset_contains(x, x[j]);
        to_multiset_contains(a, x[j]);
        let k = choose|k: int| 0 <= k < a.len() && a[k] == x[i];
        let m = choose|m: int| 0 <= m < a.len() && a[m] == x[j];
        assert(node_le(a[k], a[m]) && node_le(a[m], a[k]));
    }
    lemma_ordered_is_unique(x, y);
}

/// Leaving out one entry leaves out its tree, if it is shown, and nothing
/// else.
pub proof fn lemma_shown_nodes_without(entries: Seq<EntryView>, k: int)
    requires
        0 <= k < entries.len(),
    ensures
        shown(entries[k]) ==> shown_nodes(entries).to_multiset() =~= shown_nodes(
            entries.remove(k),
        ).to_multiset().insert(tree_of(entries[k])),
        !shown(entries[k]) ==> shown_nodes(entries) == shown_nodes(entries.remove(k)),
    decreases entries.len(),
{
    let front = entries.drop_last();
    let last = entries.last();
    if k == entries.len() - 1 {
        assert(entries.remove(k) == front);
        if shown(last) {
            to_multiset_build(shown_nodes(front), tree_of(last));
        }
    } else {
        let rest = entries.remove(k);
        assert(rest.drop_last() == front.remove(k));
        assert(rest.last() == last);
        assert(front[k] == entries[k]);
        lemma_shown_nodes_without(front, k);
        if shown(last) {
            to_multiset_build(shown_nodes(front), tree_of(last));
            to_multiset_build(shown_nodes(front.remove(k)), tree_of(last));
        }
    }
}

/// The same entries, listed in whatever order, have the same trees shown.
pub proof fn lemma_shown_nodes_of_same_entries(a: Seq<EntryView>, b: Seq<EntryView>)
    requires
        a.to_multiset() == b.to_multiset(),
    ensures
        shown_nodes(a).to_multiset() =~= shown_nodes(b).to_multiset(),
    decreases a.len(),
{
    to_multiset_len(a);
    to_multiset_len(b);
    if a.len() == 0 {
        assert(a =~= b);
    } else {
        let last = a.last();
        assert(a.contains(last));
        to_multiset_contains(a, last);
        to_multiset_contains(b, last);
        let k = choose|k: int| 0 <= k < b.len() && b[k] == last;
        let front = a.drop_last();
        assert(front == a.remove(a.len() - 1));
        to_multiset_remove(a, a.len() - 1);
        to_multiset_remove(b, k);
        lemma_shown_nodes_of_same_entries(front, b.remove(k));
        lemma_shown_nodes_without(b, k);
        if shown(last) {
            to_multiset_build(shown_nodes(front), tree_of(last));
        }
    }
}

/// The tree of a directory does not depend on the order in which its entries
/// were listed, where no two of those shown have one kind and one name.
pub proof fn lemma_tree_ignores_listing_order(
    name: Option<Seq<char>>,
    path: std::path::PathBuf,
    a: Seq<EntryView>,
    b: Seq<EntryView>,
)
    requires
        a.to_multiset() == b.to_multiset(),
        told_apart(shown_nodes(a)),
    ensures
        tree_of(EntryView::Dir { name, path, entries: a }) == tree_of(
            EntryView::Dir { name, path, entries: b },
        ),
{
    lemma_shown_nodes_of_same_entries(a, b);
    lemma_sorted_ignores_order(shown_nodes(a), shown_nodes(b));
}

} // verus!
