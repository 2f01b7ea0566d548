//! Evolving kaleidoscope patterns: expression trees that describe a scalar
//! field, the rules that grow and splice them, and the text they compile to.

pub mod genome;
pub mod motion;
pub mod msl;
pub mod palette;
pub mod random;
pub mod render;
pub mod stills;
pub mod text;
