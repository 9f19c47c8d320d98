//! Why a procedure can be run again and again.
//!
//! The host runs a procedure on the replies that it has given so far, and
//! again once it has given one more. That is sound because a procedure goes
//! on as it began ([`crate::session::continues`]): run on a list of replies
//! and more, it makes the requests that it made on the list alone before it
//! makes any other, and where it had finished on the list alone it does and
//! returns the very same. The lemmas of this module show that of every
//! procedure of the library.

pub mod handle;
pub mod package;
pub mod repo;
pub mod structure;
