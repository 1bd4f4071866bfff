pub mod base;
pub mod bytemap;
pub mod bytes;
pub mod byteset;
pub mod codec;
pub mod data;
pub mod diff;
pub mod digest;
pub mod remote;
pub mod tree;
