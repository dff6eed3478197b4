//! Stitching a word into dictionary words that share an overlapping end.

pub mod ext;
pub mod laws;
pub mod matcher;
pub mod position;

pub use position::Position;
