//! Reader for ARK asset containers: header and directory decoding, per-entry
//! payload extraction, the block cipher that guards both, and the catalog
//! scan that pairs game objects with their model and animation files.
pub mod ark;
pub mod catalog;
pub mod cipher;
pub mod error;
pub mod record;
