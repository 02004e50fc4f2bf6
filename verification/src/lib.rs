pub mod text;
pub mod numbers;
pub mod pattern;
pub mod notes;
pub mod section;
pub mod score;
pub mod parse;
pub mod validate;
pub mod dsl;
pub mod wav;
pub mod splat_image;
pub mod music;
pub mod reload;
pub mod anchor;
pub mod readback;
