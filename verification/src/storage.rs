//! Saved requests: the request record with its text form, and the tree of
//! the requests that a directory holds.

use vstd::prelude::*;
use vstd::string::StringExecFns;
use crate::codec::{
    body_in, body_lines, decode, decode_error, encode, header_block, header_line, headers_in,
    parse_header, RequestView,
};
use crate::split::{join_from, join_with, lines_of, split_lines, split_words, views, words_of};
use crate::text::{blank, chars_of, position_from, string_of, trim_range};
use crate::tree::{
    insert_sorted, label, lemma_insert_at, lex_le, node_le, shown, shown_nodes, sorted_nodes,
    tree_of, EntryView, NodeView,
};
use std::path::PathBuf;

verus! {

/// One HTTP request: what is sent where, with which headers and body.
#[derive(Debug)]
pub struct HttpRequest {
    pub method: String,
    pub url: String,
    pub headers: Vec<(String, String)>,
    pub body: String,
}

/// The headers as pairs of character sequences, in order.
pub open spec fn header_views(hs: Seq<(String, String)>) -> Seq<(Seq<char>, Seq<char>)> {
    Seq::new(hs.len(), |i: int| (hs[i].0@, hs[i].1@))
}

impl View for HttpRequest {
    type V = RequestView;

    open spec fn view(&self) -> RequestView {
        RequestView {
            method: self.method@,
            url: self.url@,
            headers: header_views(self.headers@),
            body: self.body@,
        }
    }
}

/// A copy of the headers.
pub fn copy_headers(headers: &Vec<(String, String)>) -> (out: Vec<(String, String)>)
    ensures
        header_views(out@) == header_views(headers@),
{
    let mut out: Vec<(String, String)> = Vec::new();
    let mut i: usize = 0;
    while i < headers.len()
        invariant
            i <= headers.len(),
            header_views(out@) == header_views(headers@).take(i as int),
        decreases headers.len() - i,
    {
        let ghost before = header_views(out@);
        let name = headers[i].0.clone();
        let value = headers[i].1.clone();
        out.push((name, value));
        assert(header_views(out@) == before.push((name@, value@)));
        assert(header_views(headers@).take(i + 1) == before.push((name@, value@)));
        i = i + 1;
    }
    assert(header_views(headers@).take(i as int) == header_views(headers@));
    out
}

impl Clone for HttpRequest {
    /// A copy of the request.
    fn clone(&self) -> (out: Self)
        ensures
            out@ == self@,
    {
        HttpRequest {
            method: self.method.clone(),
            url: self.url.clone(),
            headers: copy_headers(&self.headers),
            body: self.body.clone(),
        }
    }
}

impl HttpRequest {
    /// A fresh request: a GET of a test URL, with no headers and no body.
    pub fn new() -> (r: Self)
        ensures
            r@ == (RequestView {
                method: "GET"@,
                url: "https://httpbin.org/get"@,
                headers: Seq::empty(),
                body: Seq::empty(),
            }),
    {
        let r = HttpRequest {
            method: String::from_str("GET"),
            url: String::from_str("https://httpbin.org/get"),
            headers: Vec::new(),
            body: String::new(),
        };
        assert(header_views(r.headers@) == Seq::<(Seq<char>, Seq<char>)>::empty());
        r
    }

    /// The text of this request.
    pub fn to_http_string(&self) -> (out: String)
        ensures
            out@ == encode(self@),
    {
        proof {
            reveal_strlit(" ");
            reveal_strlit("\n");
            reveal_strlit(": ");
        }
        let mut out = String::new();
        out.append(self.method.as_str());
        out.append(" ");
        out.append(self.url.as_str());
        out.append("\n");
        let ghost head = out@;
        let ghost hs = header_views(self.headers@);
        assert(" "@ == seq![' ']);
        assert("\n"@ == seq!['\n']);
        assert(": "@ == seq![':', ' ']);
        assert(head == self.method@ + seq![' '] + self.url@ + seq!['\n']);
        assert(hs.take(0) == Seq::<(Seq<char>, Seq<char>)>::empty());
        let mut i: usize = 0;
        while i < self.headers.len()
            invariant
                i <= self.headers.len(),
                hs == header_views(self.headers@),
                out@ == head + header_block(hs.take(i as int)),
                "\n"@ == seq!['\n'],
                ": "@ == seq![':', ' '],
            decreases self.headers.len() - i,
        {
            let ghost before = out@;
            out.append(self.headers[i].0.as_str());
            out.append(": ");
            out.append(self.headers[i].1.as_str());
            out.append("\n");
            proof {
                let next = hs.take(i + 1);
                assert(next.drop_last() == hs.take(i as int));
                assert(next.last() == hs[i as int]);
                assert(out@ == before + header_line(hs[i as int]));
            }
            i = i + 1;
        }
        proof {
            assert(hs.take(i as int) == hs);
        }
        out.append("\n");
        out.append(self.body.as_str());
        out
    }
    /// Reads a request from its text. Fails on a text without a first line and
    /// on a first line with fewer than two words; lines that stand for no
    /// header are passed over.
    pub fn from_http_string(s: &str) -> (r: Result<Self, String>)
        ensures
            match r {
                Ok(req) => decode(s@) == Some(req@),
                Err(e) => decode(s@) is None && e@ == decode_error(s@),
            },
    {
        let text = chars_of(s);
        let lines = split_lines(&text);
        if lines.len() == 0 {
            return Err(String::from_str("Empty file"));
        }
        let parts = split_words(&lines[0]);
        if parts.len() < 2 {
            return Err(String::from_str("Invalid first line: search for 'METHOD URL'"));
        }
        let ghost ls = lines_of(s@);
        let ghost ws = words_of(ls[0]);
        assert(views(lines@)[0] == lines@[0]@);
        assert(views(parts@)[0] == parts@[0]@);
        let first = string_of(&parts[0], 0, parts[0].len());
        assert(first@ == ws[0]) by {
            assert(parts@[0]@.subrange(0, parts@[0]@.len() as int) == parts@[0]@);
        }
        let method = first.as_str().to_uppercase();
        let joined = join_from(&parts, 1, ' ');
        let url = string_of(&joined, 0, joined.len());
        assert(url@ == join_with(ws.skip(1), seq![' '])) by {
            assert(joined@.subrange(0, joined@.len() as int) == joined@);
        }
        let mut headers: Vec<(String, String)> = Vec::new();
        let mut i: usize = 1;
        proof {
            assert(header_views(headers@) + headers_in(ls.skip(1)) == headers_in(ls.skip(1)));
        }
        while i < lines.len() && !blank(&lines[i])
            invariant
                1 <= i <= lines.len(),
                ls == views(lines@),
                header_views(headers@) + headers_in(ls.skip(i as int)) == headers_in(ls.skip(1)),
                body_lines(ls.skip(i as int)) == body_lines(ls.skip(1)),
            decreases lines.len() - i,
        {
            let ghost rest = ls.skip(i as int);
            let ghost before = header_views(headers@);
            let line = &lines[i];
            assert(rest[0] == line@);
            assert(rest.skip(1) == ls.skip(i + 1));
            let at = position_from(line, 0, ':');
            assert(line@.skip(0) == line@);
            if at < line.len() {
                let name = trim_range(line, 0, at);
                let value = trim_range(line, at + 1, line.len());
                let k = string_of(line, name.0, name.1);
                let v = string_of(line, value.0, value.1);
                proof {
                    assert(line@.subrange(0, at as int) == line@.take(at as int));
                    assert(line@.subrange(at + 1, line@.len() as int) == line@.skip(at + 1));
                    assert(parse_header(line@) == Some((k@, v@)));
                }
                headers.push((k, v));
                proof {
                    assert(header_views(headers@) == before + seq![(k@, v@)]);
                    assert(headers_in(rest) == seq![(k@, v@)] + headers_in(ls.skip(i + 1)));
                    assert(header_views(headers@) + headers_in(ls.skip(i + 1)) == before
                        + headers_in(rest));
                }
            } else {
                proof {
                    assert(parse_header(line@) is None);
                    assert(headers_in(rest) == headers_in(ls.skip(i + 1)));
                }
            }
            i = i + 1;
        }
        let ghost rest = ls.skip(i as int);
        let body_text = if i < lines.len() {
            proof {
                assert(rest[0] == lines@[i as int]@);
                assert(rest.skip(1) == ls.skip(i + 1));
                assert(headers_in(rest) == Seq::<(Seq<char>, Seq<char>)>::empty());
            }
            join_from(&lines, i + 1, '\n')
        } else {
            proof {
                assert(rest.len() == 0);
                assert(join_with(Seq::<Seq<char>>::empty(), seq!['\n']) == Seq::<char>::empty());
            }
            Vec::new()
        };
        let body = string_of(&body_text, 0, body_text.len());
        proof {
            assert(body_text@.subrange(0, body_text@.len() as int) == body_text@);
            assert(header_views(headers@) + Seq::<(Seq<char>, Seq<char>)>::empty()
                == header_views(headers@));
            assert(body@ == body_in(ls.skip(1)));
            assert(header_views(headers@) == headers_in(ls.skip(1)));
        }
        Ok(HttpRequest { method, url, headers, body })
    }
}

/// A node of the tree of saved requests: a request file, or a folder with the
/// nodes in it.
#[derive(Debug, PartialEq)]
pub enum FileNode {
    File { name: String, path: PathBuf },
    Folder { name: String, path: PathBuf, children: Vec<FileNode> },
}

/// What a walk found at one path: a file, or a directory with all that is in
/// it. A name or an extension is absent where the path has none or it is no
/// text.
#[derive(Debug)]
pub enum WalkEntry {
    File { name: Option<String>, extension: Option<String>, path: PathBuf },
    Dir { name: Option<String>, path: PathBuf, entries: Vec<WalkEntry> },
}

/// The text as a mathematical value, if there is one.
pub open spec fn text_view(t: Option<String>) -> Option<Seq<char>> {
    match t {
        Some(s) => Some(s@),
        None => None,
    }
}

/// The node as a mathematical value.
pub open spec fn node_view(n: FileNode) -> NodeView
    decreases n,
{
    match n {
        FileNode::File { name, path } => NodeView::File { name: name@, path },
        FileNode::Folder { name, path, children } => NodeView::Folder {
            name: name@,
            path,
            children: node_views(children@),
        },
    }
}

/// The nodes as mathematical values, in order.
pub open spec fn node_views(v: Seq<FileNode>) -> Seq<NodeView>
    decreases v,
{
    if v.len() == 0 {
        Seq::empty()
    } else {
        node_views(v.drop_last()).push(node_view(v.last()))
    }
}

/// The entry as a mathematical value.
pub open spec fn entry_view(e: WalkEntry) -> EntryView
    decreases e,
{
    match e {
        WalkEntry::File { name, extension, path } => EntryView::File {
            name: text_view(name),
            extension: text_view(extension),
            path,
        },
        WalkEntry::Dir { name, path, entries } => EntryView::Dir {
            name: text_view(name),
            path,
            entries: entry_views(entries@),
        },
    }
}

/// The entries as mathematical values, in order.
pub open spec fn entry_views(v: Seq<WalkEntry>) -> Seq<EntryView>
    decreases v,
{
    if v.len() == 0 {
        Seq::empty()
    } else {
        entry_views(v.drop_last()).push(entry_view(v.last()))
    }
}

impl View for FileNode {
    type V = NodeView;

    open spec fn view(&self) -> NodeView {
        node_view(*self)
    }
}

impl View for WalkEntry {
    type V = EntryView;

    open spec fn view(&self) -> EntryView {
        entry_view(*self)
    }
}

/// The views of nodes are as many as the nodes, each the view of its node.
pub proof fn lemma_node_views(v: Seq<FileNode>)
    ensures
        node_views(v).len() == v.len(),
        forall|i: int| 0 <= i < v.len() ==> #[trigger] node_views(v)[i] == v[i]@,
    decreases v.len(),
{
    if v.len() > 0 {
        lemma_node_views(v.drop_last());
        assert forall|i: int| 0 <= i < v.len() implies #[trigger] node_views(v)[i] == v[i]@ by {
            if i < v.len() - 1 {
                assert(v.drop_last()[i] == v[i]);
            }
        }
    }
}

/// The views of entries are as many as the entries, each the view of its
/// entry.
pub proof fn lemma_entry_views(v: Seq<WalkEntry>)
    ensures
        entry_views(v).len() == v.len(),
        forall|i: int| 0 <= i < v.len() ==> #[trigger] entry_views(v)[i] == v[i]@,
    decreases v.len(),
{
    if v.len() > 0 {
        lemma_entry_views(v.drop_last());
        assert forall|i: int| 0 <= i < v.len() implies #[trigger] entry_views(v)[i] == v[i]@ by {
            if i < v.len() - 1 {
                assert(v.drop_last()[i] == v[i]);
            }
        }
    }
}

/// The copy of a text that may be absent.
fn copy_text(t: &Option<String>) -> (out: Option<String>)
    ensures
        text_view(out) == text_view(*t),
{
    match t {
        Some(s) => Some(s.clone()),
        None => None,
    }
}

impl Clone for FileNode {
    /// A copy of the node and of all below it.
    #[verifier::loop_isolation(false)]
    fn clone(&self) -> (out: Self)
        ensures
            out@ == self@,
        decreases self,
    {
        match self {
            FileNode::File { name, path } => FileNode::File {
                name: name.clone(),
                path: path.clone(),
            },
            FileNode::Folder { name, path, children } => {
                let mut copies: Vec<FileNode> = Vec::new();
                let mut i: usize = 0;
                while i < children.len()
                    invariant
                        i <= children.len(),
                        node_views(copies@) == node_views(children@).take(i as int),
                    decreases children.len() - i,
                {
                    let ghost done = copies@;
                    let copy = children[i].clone();
                    copies.push(copy);
                    proof {
                        assert(copies@.drop_last() == done);
                        lemma_node_views(children@);
                        assert(node_views(children@).take(i + 1) == node_views(children@).take(
                            i as int,
                        ).push(children@[i as int]@));
                    }
                    i = i + 1;
                }
                let out = FileNode::Folder { name: name.clone(), path: path.clone(), children: copies };
                proof {
                    lemma_node_views(children@);
                    assert(node_views(children@).take(i as int) == node_views(children@));
                }
                out
            },
        }
    }
}

impl Clone for WalkEntry {
    /// A copy of the entry and of all below it.
    #[verifier::loop_isolation(false)]
    fn clone(&self) -> (out: Self)
        ensures
            out@ == self@,
        decreases self,
    {
        match self {
            WalkEntry::File { name, extension, path } => WalkEntry::File {
                name: copy_text(name),
                extension: copy_text(extension),
                path: path.clone(),
            },
            WalkEntry::Dir { name, path, entries } => {
                let mut copies: Vec<WalkEntry> = Vec::new();
                let mut i: usize = 0;
                while i < entries.len()
                    invariant
                        i <= entries.len(),
                        entry_views(copies@) == entry_views(entries@).take(i as int),
                    decreases entries.len() - i,
                {
                    let ghost done = copies@;
                    let copy = entries[i].clone();
                    copies.push(copy);
                    proof {
                        assert(copies@.drop_last() == done);
                        lemma_entry_views(entries@);
                        assert(entry_views(entries@).take(i + 1) == entry_views(entries@).take(
                            i as int,
                        ).push(entries@[i as int]@));
                    }
                    i = i + 1;
                }
                let out = WalkEntry::Dir { name: copy_text(name), path: path.clone(), entries: copies };
                proof {
                    lemma_entry_views(entries@);
                    assert(entry_views(entries@).take(i as int) == entry_views(entries@));
                }
                out
            },
        }
    }
}

impl FileNode {
    /// The name of the node.
    pub fn name(&self) -> (out: &str)
        ensures
            out@ == self@.name(),
    {
        match self {
            FileNode::File { name, .. } => name.as_str(),
            FileNode::Folder { name, .. } => name.as_str(),
        }
    }

    /// The path of the node.
    pub fn path(&self) -> (out: &PathBuf)
        ensures
            *out == self@.path(),
    {
        match self {
            FileNode::File { path, .. } => path,
            FileNode::Folder { path, .. } => path,
        }
    }
}

/// Tells whether `a` is `b` or comes before it, character by character.
pub fn name_le(a: &str, b: &str) -> (le: bool)
    ensures
        le == lex_le(a@, b@),
{
    let x = chars_of(a);
    let y = chars_of(b);
    let mut i: usize = 0;
    proof {
        assert(x@.skip(0) == x@);
        assert(y@.skip(0) == y@);
    }
    while i < x.len() && i < y.len()
        invariant
            i <= x.len(),
            i <= y.len(),
            x@ == a@,
            y@ == b@,
            lex_le(x@, y@) == lex_le(x@.skip(i as int), y@.skip(i as int)),
        decreases x.len() - i,
    {
        proof {
            assert(x@.skip(i as int)[0] == x@[i as int]);
            assert(y@.skip(i as int)[0] == y@[i as int]);
            assert(x@.skip(i as int).skip(1) == x@.skip(i + 1));
            assert(y@.skip(i as int).skip(1) == y@.skip(i + 1));
        }
        if x[i] < y[i] {
            return true;
        }
        if x[i] > y[i] {
            return false;
        }
        i = i + 1;
    }
    i == x.len()
}

/// Tells whether `a` may stand before `b` among the children of a folder.
pub fn stands_before(a: &FileNode, b: &FileNode) -> (le: bool)
    ensures
        le == node_le(a@, b@),
{
    match a {
        FileNode::Folder { .. } => match b {
            FileNode::File { .. } => true,
            FileNode::Folder { .. } => name_le(a.name(), b.name()),
        },
        FileNode::File { .. } => match b {
            FileNode::Folder { .. } => false,
            FileNode::File { .. } => name_le(a.name(), b.name()),
        },
    }
}

/// Puts `node` among the sorted `children`, behind the last of them that may
/// stand before it.
pub fn insert_node(children: &mut Vec<FileNode>, node: FileNode)
    ensures
        node_views(final(children)@) == insert_sorted(node_views(old(children)@), node@),
{
    let ghost before = node_views(children@);
    let mut at: usize = children.len();
    while at > 0 && !stands_before(&children[at - 1], &node)
        invariant
            at <= children.len(),
            children@ == old(children)@,
            before == node_views(children@),
            forall|j: int| at <= j < children.len() ==> !node_le(#[trigger] before[j], node@),
        decreases at,
    {
        proof {
            lemma_node_views(children@);
        }
        at = at - 1;
    }
    proof {
        lemma_node_views(children@);
        lemma_insert_at(before, node@, at as int);
    }
    children.insert(at, node);
    proof {
        lemma_node_views(old(children)@);
        lemma_node_views(children@);
        assert(node_views(children@) =~= before.insert(at as int, node@));
    }
}

/// Tells whether an entry is shown in the tree.
pub fn is_shown(entry: &WalkEntry) -> (b: bool)
    ensures
        b == shown(entry@),
{
    match entry {
        WalkEntry::Dir { .. } => true,
        WalkEntry::File { extension, .. } => match extension {
            Some(ext) => {
                let marker = String::from_str("req");
                *ext == marker
            },
            None => false,
        },
    }
}

/// The name that a node gets from its entry.
fn label_of(name: &Option<String>) -> (out: String)
    ensures
        out@ == label(text_view(*name)),
{
    match name {
        Some(n) => n.clone(),
        None => String::from_str("requester"),
    }
}

/// The tree of what a walk found: a file as a file, a directory as a folder
/// of the entries in it that are shown, folders before files and each kind
/// by name.
#[verifier::loop_isolation(false)]
pub fn build_tree(entry: &WalkEntry) -> (node: FileNode)
    ensures
        node@ == tree_of(entry@),
    decreases entry,
{
    match entry {
        WalkEntry::File { name, extension, path } => FileNode::File {
            name: label_of(name),
            path: path.clone(),
        },
        WalkEntry::Dir { name, path, entries } => {
            let ghost all = entry_views(entries@);
            let mut children: Vec<FileNode> = Vec::new();
            let mut i: usize = 0;
            proof {
                assert(all.take(0) == Seq::<EntryView>::empty());
                assert(node_views(children@) == Seq::<NodeView>::empty());
            }
            while i < entries.len()
                invariant
                    i <= entries.len(),
                    all == entry_views(entries@),
                    node_views(children@) == sorted_nodes(shown_nodes(all.take(i as int))),
                decreases entries.len() - i,
            {
                let ghost seen = all.take(i as int);
                let ghost next = all.take(i + 1);
                proof {
                    lemma_entry_views(entries@);
                    assert(next.drop_last() == seen);
                    assert(next.last() == entries@[i as int]@);
                }
                if is_shown(&entries[i]) {
                    let child = build_tree(&entries[i]);
                    insert_node(&mut children, child);
                    proof {
                        let found = shown_nodes(seen).push(child@);
                        assert(found.drop_last() == shown_nodes(seen));
                        assert(found.last() == child@);
                    }
                }
                i = i + 1;
            }
            proof {
                lemma_entry_views(entries@);
                assert(all.take(i as int) == all);
            }
            FileNode::Folder { name: label_of(name), path: path.clone(), children }
        },
    }
}

} // verus!
