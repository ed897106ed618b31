pub mod error;
pub mod frequency;
pub mod tree;
pub mod codes;
pub mod codec;
pub mod serial;
