//! What holds of the library as a whole.

pub mod blocks;
pub mod hashing;
pub mod labels;
pub mod markup;
pub mod numbering;
pub mod shape;
pub mod sources;
pub mod statements;
pub mod texts;
