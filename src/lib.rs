//! Map rendering core: an OpenStreetMap binary-format graph builder, a style-language
//! compiler, and a selection interpreter that turns a style's commands into ordered
//! draw calls.
pub mod decode;
pub mod geometry;
pub mod graph;
pub mod interner;
pub mod parse;
pub mod select;
pub mod style;
pub mod wildcard;
