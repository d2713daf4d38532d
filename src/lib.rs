//! Path-scoped virtual git repositories: filtering a base repository's
//! history through a view, grafting commits made in a view back into the
//! full tree, the branch table and lock of the base repository, and the
//! request routing and CGI header handling around `git http-backend`.

use vstd::prelude::*;

pub mod store;
pub mod view;
pub mod filter;
pub mod graft;
pub mod repo;
pub mod provision;
pub mod route;
pub mod cgi;

verus! {

} // verus!
