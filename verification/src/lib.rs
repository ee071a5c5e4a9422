//! A two-tier associative map: a promotable read snapshot over a mutable
//! dirty overlay, with per-key entry slots that follow an
//! expunge/tombstone lifecycle. Detached values are retained by the map
//! until it is dropped, which models deferred reclamation.

pub mod entry;
pub mod map;
pub mod table;
