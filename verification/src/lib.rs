//! Ordering keys for reorderable lists.
//!
//! Each list member owns an opaque, totally ordered key; the list's order is
//! reconstructed by comparing keys, so an edit never has to renumber the whole
//! list (except in the deliberately naive integer backend). The heart of the
//! crate is the midpoint generator for variable-length digit-string keys: given
//! two boundary points it produces a new key strictly between them, sharing the
//! longest possible common prefix and never ending in a zero digit.

pub mod digits;
pub mod int_position;
pub mod lex;
pub mod position;
pub mod string_position;
