//! Split one lazily consumed sequence into two by a predicate.
//!
//! A source of items is split into a left stream (items for which the
//! predicate returns `false`) and a right stream (items for which it returns
//! `true`). The source is consumed once, in order, on demand: whichever side
//! is pulled first advances the source and buffers items that belong to the
//! other side, so that each side sees its items in the original order.

pub mod handle;
pub mod laws;
pub mod source;
pub mod state;
