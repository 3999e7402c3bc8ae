//! A suffix-routing front-end for name resolution.
//!
//! The crate models a router that sits between an application and a set of
//! name-resolution back-ends.  A configuration snapshot carries static host
//! and service tables, a suffix table mapping DNS suffixes to back-end
//! handles, and a fallthrough back-end.  The dispatch logic routes each
//! request either to a static answer or to the back-end owning the longest
//! matching suffix; subscription state machines carry back-end values into
//! single-cell consumer slots and restart when the configuration changes.

pub mod addr;
pub mod chars;
pub mod config;
pub mod engine;
pub mod error;
pub mod fuse;
pub mod grammar;
pub mod literal;
pub mod multisubscr;
pub mod name;
pub mod router;
pub mod slot;
pub mod subscr;
pub mod subscribe_ext;
pub mod table;

pub use config::Config;
pub use name::AutoName;
