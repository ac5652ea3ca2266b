//! An inventory "item box" engine: an unbounded backing store of item
//! records together with a fixed-size viewport that mirrors a host
//! display buffer, kept in sync under edits from either side.
//!
//! The store owns the item data; the view is a derived, disposable cache
//! of six cells starting at an always-even cursor. The organize pass
//! repairs pairing violations around two-slot items (items that occupy
//! two adjacent display cells) and compacts gaps; scrolling moves the
//! cursor in two-cell steps, clamped to the occupied part of the store.
//!
//! [`inventory`] holds the engine itself; [`saves`] keeps one box per
//! save slot and frames them into the byte section carried inside the
//! host's save files; [`patch`] computes the relative call and jump
//! encodings the host adapter writes when it hooks the engine in.

pub mod inventory;
pub mod patch;
pub mod saves;
