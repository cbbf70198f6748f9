//! Picks out JPEG and PNG images that are wider than a given aspect ratio.
//!
//! The library holds the decisions: which file names are image candidates,
//! what the decoders report as an image's size, and whether that size exceeds
//! the threshold. Walking directories, reading files and moving them is left
//! to the caller.
pub mod config;
pub mod decision;
pub mod image;
pub mod threshold;
