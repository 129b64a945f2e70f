//! The state of the application: the tree, the request at hand, where it was
//! loaded from, the last answer, and what each action of the user makes of
//! them.

use vstd::prelude::*;
use crate::client::HttpResponse;
use crate::codec::{encode, RequestView};
use crate::storage::{FileNode, HttpRequest};
use std::path::PathBuf;

verus! {

/// The part of the request that is being edited.
#[derive(Debug, Clone, Copy, PartialEq, Eq, Structural)]
pub enum Tab {
    Headers,
    Body,
}

/// All that the application holds between two actions of the user.
#[derive(Debug)]
pub struct AppState {
    pub tree: FileNode,
    pub current_request: HttpRequest,
    pub current_path: Option<PathBuf>,
    pub response: Option<Result<HttpResponse, String>>,
    pub active_tab: Tab,
    pub loading: bool,
}

impl AppState {
    /// The state at the start: the tree as scanned, a fresh request that was
    /// loaded from nowhere, no answer, the headers in view, nothing under way.
    pub fn new(tree: FileNode) -> (s: Self)
        ensures
            s.tree == tree,
            s.current_request@ == (RequestView {
                method: "GET"@,
                url: "https://httpbin.org/get"@,
                headers: Seq::empty(),
                body: Seq::empty(),
            }),
            s.current_path is None,
            s.response is None,
            s.active_tab == Tab::Headers,
            !s.loading,
    {
        AppState {
            tree,
            current_request: HttpRequest::new(),
            current_path: None,
            response: None,
            active_tab: Tab::Headers,
            loading: false,
        }
    }

    /// Takes the tree of a new scan in place of the old one.
    pub fn refresh_tree(&mut self, tree: FileNode)
        ensures
            final(self).tree == tree,
            final(self).current_request == old(self).current_request,
            final(self).current_path == old(self).current_path,
            final(self).response == old(self).response,
            final(self).active_tab == old(self).active_tab,
            final(self).loading == old(self).loading,
    {
        self.tree = tree;
    }

    /// Takes what was loaded from `path` as the request at hand. Where
    /// loading failed, nothing changes.
    pub fn select_file(&mut self, path: PathBuf, loaded: Result<HttpRequest, String>)
        ensures
            match loaded {
                Ok(request) => final(self).current_request == request && final(self).current_path
                    == Some(path),
                Err(_) => final(self).current_request == old(self).current_request
                    && final(self).current_path == old(self).current_path,
            },
            final(self).tree == old(self).tree,
            final(self).response == old(self).response,
            final(self).active_tab == old(self).active_tab,
            final(self).loading == old(self).loading,
    {
        match loaded {
            Ok(request) => {
                self.current_request = request;
                self.current_path = Some(path);
            },
            Err(_) => {},
        }
    }

    /// Brings the other part of the request into view.
    pub fn show_tab(&mut self, tab: Tab)
        ensures
            final(self).active_tab == tab,
            final(self).tree == old(self).tree,
            final(self).current_request == old(self).current_request,
            final(self).current_path == old(self).current_path,
            final(self).response == old(self).response,
            final(self).loading == old(self).loading,
    {
        self.active_tab = tab;
    }

    /// Starts the sending of the request at hand: it is under way from now
    /// on, and a copy of the request is what is sent.
    pub fn begin_send(&mut self) -> (sent: HttpRequest)
        ensures
            sent@ == old(self).current_request@,
            final(self).loading,
            final(self).tree == old(self).tree,
            final(self).current_request == old(self).current_request,
            final(self).current_path == old(self).current_path,
            final(self).response == old(self).response,
            final(self).active_tab == old(self).active_tab,
    {
        self.loading = true;
        self.current_request.clone()
    }

    /// Ends a sending with what came of it, an answer or a failure: that is
    /// the answer held from now on, in place of any earlier one, and nothing
    /// is under way any more.
    pub fn finish_send(&mut self, outcome: Result<HttpResponse, String>)
        ensures
            !final(self).loading,
            final(self).response == Some(outcome),
            final(self).tree == old(self).tree,
            final(self).current_request == old(self).current_request,
            final(self).current_path == old(self).current_path,
            final(self).active_tab == old(self).active_tab,
    {
        self.response = Some(outcome);
        self.loading = false;
    }

    /// What saving writes, and where: the text of the request at hand, to the
    /// path it was loaded from. A request that was loaded from nowhere is not
    /// saved.
    pub fn save_target(&self) -> (out: Option<(PathBuf, String)>)
        ensures
            self.current_path is None ==> out is None,
            self.current_path is Some ==> match out {
                Some((path, text)) => Some(path) == self.current_path && text@ == encode(
                    self.current_request@,
                ),
                None => false,
            },
    {
        match &self.current_path {
            Some(path) => Some((path.clone(), self.current_request.to_http_string())),
            None => None,
        }
    }
}

} // verus!
