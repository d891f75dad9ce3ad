//! Storage-changeset subsystem of a block-state history store.
//!
//! One block's contract-storage writes are packed into a compact, seekable
//! on-disk encoding: a store key carrying the block number, address and
//! incarnation, and a store value carrying the slot hash and the written
//! value. On top of the codec sit a streaming range walker over a
//! block-number interval and a point lookup that resolves one storage slot
//! at one historical block, either by a guarded linear scan (incarnation
//! unknown) or through the store's value-sorted duplicate groups
//! (incarnation known).

pub mod cursor;
pub mod layout;
pub mod lex;
pub mod search;
pub mod walker;
