//! Hiding a byte payload inside a carrier byte sequence, by bit-plane substitution or
//! by pixel-value differencing, with locators that choose the carrier positions.
pub mod bitstream;
pub mod message;
pub mod bitplane;
pub mod pvd;
pub mod embedding_locator;
