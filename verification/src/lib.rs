//! A collaborative structural editor core: a shared tree of integer leaves and
//! ordered lists, mutated through a content-addressed, causally linked log of
//! operations that a central relay totally orders and fans out to every client.

pub mod commands;
pub mod digest;
pub mod history;
pub mod laws;
pub mod relay;
pub mod render;
pub mod replay;
pub mod selection;
pub mod sexpr;
pub mod sync;
pub mod tree;
pub mod wire;
