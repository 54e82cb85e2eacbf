//! A string and byte-slice interner.
//!
//! Interning deduplicates values and hands back a small, copyable [`Key`]
//! that can later be exchanged back for the value in O(1) time. Entries are
//! only added, never removed, until an explicit [`ParaCord::clear`], which
//! invalidates every previously issued key.
//!
//! The engine itself works on byte slices and lives in [`slice`]; the
//! string surface [`ParaCord`] is a thin adapter over it that only ever
//! feeds it UTF-8, which is why resolution can hand strings back. What
//! both promise is stated over the model in [`model`], which also proves
//! the laws the interner lives by: idempotence, distinctness, and the
//! invalidation of keys on reset. [`short_string`] holds a
//! length-prefixed single-buffer form of a string, with its round-trip
//! proof.

mod backing;
mod key;
pub mod model;
pub mod short_string;
pub mod slice;
mod text;

pub use key::Key;
pub use text::ParaCord;
