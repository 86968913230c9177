//! Hides a byte payload inside visible text by interleaving Unicode
//! variation selectors, and recovers it from such text.

pub mod codec;
pub mod text;
