pub mod json;
pub mod path;
pub mod pattern;
pub mod search;
pub mod relative;
pub mod engine;
pub mod indent;
