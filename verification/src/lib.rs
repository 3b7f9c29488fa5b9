//! A local, durable cache of issue-tracker items and the engine that keeps it
//! in step with a remote, paginated source.
//!
//! [`storage`] is the cache store, [`pagination`] walks a remote collection
//! page by page, and [`sync`] joins the two: a full synchronization and the
//! lookup that fetches what the store does not hold. [`config`] keeps the
//! registered repositories, and [`selection`] settles which of them a command
//! works on. [`github`] holds the shapes of what the remote source delivers,
//! [`timestamp`] the instants, and [`text`] the operations on characters.
//!
//! The library talks neither to the network nor to the disk. Its caller
//! fetches pages and items, hands them in as plain values, and writes the
//! rows that changed to a durable place.

pub mod config;
pub mod github;
pub mod pagination;
pub mod selection;
pub mod storage;
pub mod sync;
pub mod text;
pub mod timestamp;
