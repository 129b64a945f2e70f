//! The tree of saved requests as a mathematical value: what a walk of a
//! directory found, which of it is shown, and in which order.

use vstd::prelude::*;
use std::path::PathBuf;

verus! {

/// `PathBuf` of std: a path is carried as it is, and nothing is read of it.
#[verifier::external_type_specification]
#[verifier::external_body]
pub struct ExPathBuf(PathBuf);

/// `PathBuf::clone` of std: the copy equals the path.
pub assume_specification[ <PathBuf as Clone>::clone ](p: &PathBuf) -> (out: PathBuf)
    ensures
        out == *p,
;

/// A node of the tree as a mathematical value.
pub enum NodeView {
    File { name: Seq<char>, path: PathBuf },
    Folder { name: Seq<char>, path: PathBuf, children: Seq<NodeView> },
}

/// What a walk found at one path, as a mathematical value. A name or an
/// extension is absent where the path has none or it is no text.
pub enum EntryView {
    File { name: Option<Seq<char>>, extension: Option<Seq<char>>, path: PathBuf },
    Dir { name: Option<Seq<char>>, path: PathBuf, entries: Seq<EntryView> },
}

impl NodeView {
    /// The name of the node.
    pub open spec fn name(self) -> Seq<char> {
        match self {
            NodeView::File { name, .. } => name,
            NodeView::Folder { name, .. } => name,
        }
    }

    /// The path of the node.
    pub open spec fn path(self) -> PathBuf {
        match self {
            NodeView::File { path, .. } => path,
            NodeView::Folder { path, .. } => path,
        }
    }
}

/// Whether `a` is `b` or comes before it, character by character.
pub open spec fn lex_le(a: Seq<char>, b: Seq<char>) -> bool
    decreases a.len(),
{
    a.len() == 0 || (b.len() > 0 && (a[0] < b[0] || (a[0] == b[0] && lex_le(
        a.skip(1),
        b.skip(1),
    ))))
}

/// Whether `a` may stand before `b` among the children of a folder: a folder
/// before a file, and two of a kind by their names.
pub open spec fn node_le(a: NodeView, b: NodeView) -> bool {
    if a is Folder && b is File {
        true
    } else if a is File && b is Folder {
        false
    } else {
        lex_le(a.name(), b.name())
    }
}

/// `sorted` with `x` put behind the last node that may stand before it.
pub open spec fn insert_sorted(sorted: Seq<NodeView>, x: NodeView) -> Seq<NodeView>
    decreases sorted.len(),
{
    if sorted.len() == 0 || node_le(sorted.last(), x) {
        sorted.push(x)
    } else {
        insert_sorted(sorted.drop_last(), x).push(sorted.last())
    }
}

/// The nodes of `s` in order, those that may stand either way in the order
/// in which `s` has them.
pub open spec fn sorted_nodes(s: Seq<NodeView>) -> Seq<NodeView>
    decreases s.len(),
{
    if s.len() == 0 {
        Seq::empty()
    } else {
        insert_sorted(sorted_nodes(s.drop_last()), s.last())
    }
}

/// The name that a node gets: the entry's own, or that of the base folder
/// where it has none.
pub open spec fn label(name: Option<Seq<char>>) -> Seq<char> {
    match name {
        Some(n) => n,
        None => "requester"@,
    }
}

/// Whether an entry is shown in the tree: a directory always, a file where
/// its extension marks it as a request.
pub open spec fn shown(e: EntryView) -> bool {
    match e {
        EntryView::Dir { .. } => true,
        EntryView::File { extension, .. } => extension == Some("req"@),
    }
}

/// The tree of what a walk found: a file as a file, a directory as a folder
/// of the entries in it that are shown, in order.
pub open spec fn tree_of(e: EntryView) -> NodeView
    decreases e,
{
    match e {
        EntryView::File { name, extension, path } => NodeView::File { name: label(name), path },
        EntryView::Dir { name, path, entries } => NodeView::Folder {
            name: label(name),
            path,
            children: sorted_nodes(shown_nodes(entries)),
        },
    }
}

/// The trees of the entries that are shown, in the order of the entries.
pub open spec fn shown_nodes(entries: Seq<EntryView>) -> Seq<NodeView>
    decreases entries,
{
    if entries.len() == 0 {
        Seq::empty()
    } else if shown(entries.last()) {
        shown_nodes(entries.drop_last()).push(tree_of(entries.last()))
    } else {
        shown_nodes(entries.drop_last())
    }
}

/// Putting `x` behind the last node that may stand before it is inserting it
/// at the position `at`, where `at` is behind such a node or at the start and
/// no later node may stand before `x`.
pub proof fn lemma_insert_at(s: Seq<NodeView>, x: NodeView, at: int)
    requires
        0 <= at <= s.len(),
        forall|j: int| at <= j < s.len() ==> !node_le(#[trigger] s[j], x),
        at == 0 || node_le(s[at - 1], x),
    ensures
        insert_sorted(s, x) == s.insert(at, x),
    decreases s.len() - at,
{
    if at == s.len() {
        assert(s.push(x) == s.insert(at, x));
    } else {
        let t = s.drop_last();
        assert(!node_le(s[s.len() - 1], x));
        assert forall|j: int| at <= j < t.len() implies !node_le(#[trigger] t[j], x) by {
            assert(t[j] == s[j]);
        }
        lemma_insert_at(t, x, at);
        assert(t.insert(at, x).push(s.last()) == s.insert(at, x));
    }
}

} // verus!
