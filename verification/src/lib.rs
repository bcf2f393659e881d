//! Stacked-branch bookkeeping for Git: the branch-parent model, the on-disk
//! cache of it, navigation through stacks, and the text the tool renders.
#![allow(unused_imports)]

pub mod text;
pub mod collections;
pub mod navigate;
pub mod cache;
pub mod github;
pub mod stack;
pub mod submit;
pub mod config;
pub mod logging;
pub mod sync;
pub mod insert;
pub mod utils;
pub mod oauth;
pub mod token_store;
pub mod repair;
pub mod restack;
pub mod diamond;
pub mod tree;

use vstd::prelude::*;

verus! {

/// The `auth` subcommands.
#[derive(Debug, Clone, Copy, PartialEq, Eq, Structural)]
pub enum AuthCommands {
    /// Log in to GitHub.
    Login,
    /// Show the current authentication status.
    Status,
}

} // verus!
