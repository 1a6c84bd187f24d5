//! Incremental catalog synchronization engine.
//!
//! The crate harvests a remote card catalog into a locally persisted,
//! deduplicated snapshot.  It provides:
//!
//! - record types for the paginated listing API and the per-id detail API
//!   ([`playgwent`], [`deck`]);
//! - a snapshot store with pure, overwrite-by-key merge operations
//!   ([`disk`], [`gwentone::storage`]);
//! - the two-phase synchronization fold that consumes fetch results in any
//!   order and tolerates per-page failures ([`sync`]);
//! - a byte codec for the persisted snapshot with a proved round trip
//!   ([`codec`]);
//! - a structured extraction layer that turns semi-structured markup into
//!   validated catalog records ([`gwentone`]).
//!
//! Network and file I/O live outside this crate; every function here is a
//! pure value transformation with a verified contract.

pub mod codec;
pub mod deck;
pub mod disk;
pub mod gwentone;
pub mod playgwent;
pub mod sync;
