//! Runtime values and type descriptors of a small embeddable scripting
//! language, with the directional matching relations over both.
pub mod float;
pub mod text;
pub mod types;
pub mod value;
