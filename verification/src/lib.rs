//! A source-based package manager, written without I/O of its own.
//!
//! A package is a directory of a repository that holds a `version`, a list
//! `depends` and a script `install`. It is built into a sandbox below
//! `/var/db/installed/<name>/files`, installed by links from `/usr/bin/<name>`
//! and its like into the sandbox, updated when its repository offers a newer
//! version, and uninstalled again.
//!
//! Every procedure that needs the file system or a child process is a
//! conversation with a host: the procedure asks, the host performs and
//! replies. A [`session::Session`] holds the replies given so far; a procedure
//! run on it either finishes or stops at the first request that has no reply
//! yet. The host performs that request, adds the reply and runs the procedure
//! again from the start. What a procedure does is therefore a function of the
//! host's replies, and its contract says which: the requests that it makes,
//! in order, and what it returns.
//!
//! - [`text`]: texts and paths.
//! - [`session`]: requests, replies and sessions.
//! - [`error`]: the errors of each layer.
//! - [`structure`]: the directories of a package, the walk over a sandbox,
//!   and the links that publish it.
//! - [`package`]: a package and its steps.
//! - [`repo`]: repositories and their update.
//! - [`handle`]: the commands, which install what a package depends on
//!   before the package.
//! - [`projection`], [`order`], [`offers`], [`replay`]: what holds of the
//!   links, of the order of installations, of the updates of a repository,
//!   and of running a procedure again.

pub mod error;
pub mod handle;
pub mod offers;
pub mod order;
pub mod package;
pub mod projection;
pub mod replay;
pub mod repo;
pub mod session;
pub mod structure;
pub mod text;
