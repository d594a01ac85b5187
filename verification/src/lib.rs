//! The logic of a small pastebin.
//!
//! At its centre is a bounded store of pastes ([`store`]): records in
//! insertion order, of which the oldest are evicted once a configured
//! capacity is exceeded. The model of its contents and the laws that hold
//! of it are in [`contents`]. The store is written to and rebuilt from a
//! flat snapshot, whose encoding is in [`codec`].
//!
//! Around it stand the source of keys for new pastes ([`keygen`]), the
//! reading of a request's path ([`request`]) and the parts of the pages
//! that are computed from the pastes ([`page`]).
//!
//! Nothing here reads or writes a file, takes a lock or answers a request:
//! the caller does that, and hands plain values in and out.

pub mod codec;
pub mod contents;
pub mod error;
pub mod keygen;
pub mod page;
pub mod record;
pub mod request;
pub mod store;
pub mod text;
