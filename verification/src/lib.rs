//! Verified core of a playlist manager for a remote music-streaming service.
//!
//! The library models playlist tracks, detects and removes duplicate tracks,
//! searches for preferable alternate releases of a song, applies multi-key
//! sort orders, reconciles a remote playlist's order with a desired order
//! using few mutating calls, and caches fetched playlists keyed by a
//! remote-supplied snapshot token.

pub mod cache;
pub mod changes;
pub mod dates;
pub mod debug_log;
pub mod dedupe;
pub mod dynamic;
pub mod reconcile;
pub mod sort;
pub mod strutil;
pub mod track;
pub mod versions;

