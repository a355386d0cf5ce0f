//! Commit-time fixes for Rust code, in trees that several agents or editors
//! write to at once.
//!
//! Two hard floors hold, and everything else is best-effort. The hook never
//! blocks a commit. And it never stages foreign bytes: everything staged is
//! content-addressed from bytes that follow from the immutable index, so that a
//! concurrent write to the working tree can change nothing about what is
//! committed. Both are stated in [`safety`].
//!
//! The hook is a machine that takes answers and makes requests; see [`session`]
//! for the whole of it and [`action`] for the requests.
pub mod action;
pub mod clippy;
pub mod command;
pub mod diagnostic;
pub mod digest;
pub mod fmt;
pub mod git;
pub mod hook;
pub mod json;
pub mod list;
pub mod lock;
pub mod manifest;
pub mod path;
pub mod safety;
pub mod scratch;
pub mod session;
pub mod stage;
pub mod suggest;
pub mod text;
