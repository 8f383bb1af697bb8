//! The binary codecs: run-length layers for booleans and integers, and
//! the delta and snapshot blob formats built on them.

pub mod bool_rle;
pub mod delta_rle;
pub mod wire;
pub mod compress;
pub mod delta;
pub mod table_snapshot;
