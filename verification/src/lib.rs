//! Request files, the tree of saved requests, and the shaping of what is sent
//! and received when a request is fired.

pub mod text;
pub mod split;
pub mod codec;
pub mod storage;
pub mod client;
pub mod editor;
pub mod state;
pub mod round_trip;
pub mod tree;
pub mod tree_order;
