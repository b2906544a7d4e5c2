//! The decisions behind stacking RAW astrophotography frames: what is kept,
//! where it is cropped, what is written and in which order.
//!
//! Everything here works on plain integers, booleans and text. Light itself is
//! handled outside as floating point; what reaches this crate are the keys,
//! indices, masks and counts on which a decision rests.
pub mod align;
pub mod codec;
pub mod embed;
pub mod exif;
pub mod fit;
pub mod fixed;
pub mod flatten;
pub mod grid;
pub mod order;
pub mod output;
pub mod raw;
pub mod region;
pub mod resources;
pub mod session;
pub mod stack;
pub mod stars;
pub mod text;
pub mod timelapse;
pub mod ui;
